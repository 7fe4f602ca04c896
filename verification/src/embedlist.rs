//! The embedded-list face of the intrusive ring: the same circular
//! structure, with insertion that may or may not re-designate the reference
//! element at the caller's choice.

use vstd::prelude::*;

verus! {

use crate::intrusive_list::{
    IntrusiveList,
    IntrusiveListElem,
    initialize_elem,
    links_only,
    merged_order,
    extracted_order,
};

/// An element that can live in an embedded ring: the ring-storable
/// capability plus self-initialisation of the link fields.
pub trait EmbeddedListElem: IntrusiveListElem {
    /// Resets this element's links to itself, making it a valid ring of
    /// one at arena slot `this`.
    fn embedlist_initalize(&mut self, this: usize)
        ensures
            *final(self) == old(self).relink(this, this),
    {
        initialize_elem(self, this);
    }
}

/// A circular intrusive list over an index arena, with caller-chosen
/// reference element.
pub struct EmbedList {
    pub list: IntrusiveList,
}

impl EmbedList {
    /// Well-formedness over an arena: the underlying ring closes.
    pub open spec fn wf<T: EmbeddedListElem>(self, arena: Seq<T>) -> bool {
        self.list.wf(arena)
    }

    /// The ring order, reference element first.
    pub open spec fn order(self) -> Seq<usize> {
        self.list.order@
    }

    /// Whether `x` is currently a member of this ring.
    pub open spec fn contains(self, x: usize) -> bool {
        self.list.contains(x)
    }

    /// The empty ring.
    pub fn new() -> (list: EmbedList)
        ensures
            list.list.root is None,
            list.order() == Seq::<usize>::empty(),
    {
        EmbedList { list: IntrusiveList::new() }
    }

    /// Splices `node`, a valid singleton not linked into any ring, next to
    /// the reference element; with `as_root` (or into an empty ring) the
    /// node becomes the new reference element.
    pub fn insert<T: EmbeddedListElem>(
        &mut self,
        arena: &mut Vec<T>,
        node: usize,
        as_root: bool,
    )
        requires
            old(self).wf(old(arena)@),
            (node as int) < old(arena)@.len(),
            old(arena)@[node as int].left_link() == node,
            old(arena)@[node as int].right_link() == node,
            !old(self).contains(node),
        ensures
            final(self).wf(final(arena)@),
            links_only(old(arena)@, final(arena)@),
            forall|x: usize| final(self).contains(x) <==> old(self).contains(x) || x == node,
            final(self).order().len() == old(self).order().len() + 1,
            (as_root || old(self).list.root is None) ==> final(self).list.root == Some(node),
            !(as_root || old(self).list.root is None) ==> final(self).list.root == old(
                self,
            ).list.root,
            forall|x: usize|
                (x as int) < old(arena)@.len() && !old(self).contains(x) && x != node
                    ==> final(arena)@[x as int] == old(arena)@[x as int],
    {
        self.insert_anywhere(arena, node);
        if as_root {
            self.list.set_root::<T>(node);
        }
        proof {
            assert(final(self).order().len() == merged_order(
                old(self).list.order@,
                seq![node],
            ).len());
        }
    }

    /// Splices `node` between the reference element and its right
    /// neighbour, leaving the reference element in place.
    fn insert_anywhere<T: EmbeddedListElem>(&mut self, arena: &mut Vec<T>, node: usize)
        requires
            old(self).wf(old(arena)@),
            (node as int) < old(arena)@.len(),
            old(arena)@[node as int].left_link() == node,
            old(arena)@[node as int].right_link() == node,
            !old(self).contains(node),
        ensures
            final(self).wf(final(arena)@),
            links_only(old(arena)@, final(arena)@),
            final(self).list.order@ == merged_order(old(self).list.order@, seq![node]),
            forall|x: usize| final(self).contains(x) <==> old(self).contains(x) || x == node,
            final(self).list.root == (if old(self).list.root is None {
                Some(node)
            } else {
                old(self).list.root
            }),
            forall|x: usize|
                (x as int) < old(arena)@.len() && !old(self).contains(x) && x != node
                    ==> final(arena)@[x as int] == old(arena)@[x as int],
    {
        self.list.insert(arena, node);
        proof {
            crate::intrusive_list::lemma_merged_contains(old(self).list.order@, seq![node]);
            assert(seq![node][0] == node);
            assert forall|x: usize| final(self).contains(x) <==> old(self).contains(x) || x
                == node by {
                if seq![node].contains(x) {
                    assert(x == node);
                }
            }
        }
    }

    /// Read-only view of the reference element, if any.
    pub fn root<'a, T: EmbeddedListElem>(&self, arena: &'a Vec<T>) -> (res: Option<&'a T>)
        requires
            self.wf(arena@),
        ensures
            res is Some <==> self.list.root is Some,
            res matches Some(e) ==> self.list.root matches Some(r) && *e == arena@[r as int],
    {
        self.list.root(arena)
    }

    /// Removes the reference element, splicing its neighbours together and
    /// resetting its links to a fresh singleton; the former left neighbour
    /// becomes the new reference element.
    pub fn extract_root<T: EmbeddedListElem>(&mut self, arena: &mut Vec<T>) -> (res: Option<
        usize,
    >)
        requires
            old(self).wf(old(arena)@),
        ensures
            old(self).order().len() == 0 ==> res is None && *final(self) == *old(self)
                && final(arena)@ == old(arena)@,
            old(self).order().len() > 0 ==> {
                let r = old(self).order()[0];
                &&& res == Some(r)
                &&& final(self).list.order@ == extracted_order(old(self).list.order@)
                &&& final(self).wf(final(arena)@)
                &&& !final(self).contains(r)
                &&& links_only(old(arena)@, final(arena)@)
                &&& final(arena)@[r as int].left_link() == r
                &&& final(arena)@[r as int].right_link() == r
                &&& forall|x: usize|
                    (x as int) < old(arena)@.len() && !old(self).contains(x)
                        ==> final(arena)@[x as int] == old(arena)@[x as int]
            },
    {
        self.list.extract_root(arena)
    }

    /// Visits every member in ring order, starting at the reference
    /// element, and marks the ring empty; the members come back as a list
    /// of handles, each exactly once.
    pub fn drop_custom<T: EmbeddedListElem>(&mut self, arena: &Vec<T>) -> (visited: Vec<usize>)
        requires
            old(self).wf(arena@),
        ensures
            visited@ == old(self).order(),
            final(self).list.root is None,
            final(self).order() == Seq::<usize>::empty(),
    {
        self.list.drop_custom(arena)
    }
}

} // verus!
