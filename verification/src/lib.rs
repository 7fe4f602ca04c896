//! A mergeable priority queue: a Fibonacci heap whose root forest and child
//! lists are intrusive circular rings over a node arena.
//!
//! The heap's abstract value is the multiset of keys it holds.  `insert`,
//! `pop_min` and `merge` are specified against that multiset: insertion adds
//! one occurrence, extraction removes and returns the least key, and merging
//! two heaps adds their multisets.  The structural invariant ties the arena,
//! the root ring and every node's child ring together: rings are well formed
//! and disjoint, every child's key is at least its parent's, and the root
//! ring's reference element carries the least key of the whole heap.

pub mod embedlist;
pub mod intrusive_list;

use vstd::prelude::*;

verus! {

use crate::intrusive_list::{
    IntrusiveList,
    IntrusiveListElem,
    initialize_elem,
    links_only,
    merged_order,
    ring_node_ok,
    nxt,
    prv,
    lemma_wf_frame,
    lemma_contains_bounds,
    lemma_merged_contains,
    lemma_extracted_contains,
};
use vstd::multiset::Multiset;

broadcast use vstd::multiset::group_multiset_axioms, vstd::set::group_set_axioms;

/// One heap item: its key, its place in the structure, its child ring, and
/// its own ring links.  `mark` is carried for a future cascading-cut
/// extension and never read here.  The two ghost fields drive the proofs:
/// `live` distinguishes arena slots still owned by the heap, and `rank`
/// strictly decreases from parent to child, which makes the parent chain
/// well founded.
#[derive(Clone, Copy)]
struct Node {
    key: i32,
    parent: Option<usize>,
    children: IntrusiveList,
    left: usize,
    right: usize,
    mark: bool,
    degree: usize,
    live: Ghost<bool>,
    rank: Ghost<nat>,
}

impl IntrusiveListElem for Node {
    closed spec fn left_link(self) -> usize {
        self.left
    }

    closed spec fn right_link(self) -> usize {
        self.right
    }

    closed spec fn relink(self, left: usize, right: usize) -> Self {
        Node { left, right, ..self }
    }

    proof fn relink_laws(self, left: usize, right: usize, left2: usize, right2: usize) {
    }

    fn left(&self) -> usize {
        self.left
    }

    fn right(&self) -> usize {
        self.right
    }

    fn with_links(&self, left: usize, right: usize) -> Self {
        Node { left, right, ..*self }
    }
}

impl crate::embedlist::EmbeddedListElem for Node {

}

impl Node {
    /// A fresh node holding `key`, forming a singleton ring at arena slot
    /// `at`, with no parent and no children.
    fn new(key: i32, at: usize) -> (n: Node)
        ensures
            n.key == key,
            n.parent is None,
            n.children.root is None,
            n.children.order@ == Seq::<usize>::empty(),
            n.left == at,
            n.right == at,
            n.degree == 0,
            n.mark == false,
            n.live@ == true,
            n.rank@ == 0,
    {
        let mut n = Node {
            parent: None,
            children: IntrusiveList::new(),
            left: 0,
            right: 0,
            key,
            mark: false,
            degree: 0,
            live: Ghost(true),
            rank: Ghost(0nat),
        };
        initialize_elem(&mut n, at);
        n
    }
}

/// Whether arena slot `i` holds a node the heap still owns.
spec fn live(s: Seq<Node>, i: int) -> bool {
    0 <= i < s.len() && s[i].live@
}

/// The multiset of keys of the live arena slots: the heap's abstract value.
spec fn keys_of(s: Seq<Node>) -> Multiset<i32>
    decreases s.len(),
{
    if s.len() == 0 {
        Multiset::empty()
    } else if s.last().live@ {
        keys_of(s.drop_last()).insert(s.last().key)
    } else {
        keys_of(s.drop_last())
    }
}

/// `s2` agrees with `s1` on every field that is not a ring-link field.
spec fn same_fields(s1: Seq<Node>, s2: Seq<Node>) -> bool {
    &&& s2.len() == s1.len()
    &&& forall|i: int|
        0 <= i < s1.len() ==> (#[trigger] s2[i]).key == s1[i].key && s2[i].live == s1[i].live
            && s2[i].parent == s1[i].parent && s2[i].children == s1[i].children && s2[i].degree
            == s1[i].degree && s2[i].mark == s1[i].mark && s2[i].rank == s1[i].rank
}

/// A mergeable priority queue over `i32` keys.
pub struct FibHeap {
    arena: Vec<Node>,
    trees: IntrusiveList,
    len: usize,
    bound: Ghost<nat>,
}

impl View for FibHeap {
    type V = Multiset<i32>;

    closed spec fn view(&self) -> Multiset<i32> {
        keys_of(self.arena@)
    }
}

impl FibHeap {
    /// Where node `i` sits: parentless nodes are in the root ring, the rest
    /// in their parent's child ring.
    spec fn placed(self, i: int) -> bool {
        let s = self.arena@;
        match s[i].parent {
            None => self.trees.contains(i as usize),
            Some(p) => live(s, p as int) && s[p as int].children.contains(i as usize),
        }
    }

    /// The structural invariant, except that the nodes in `except` are not
    /// required to sit in any ring (they are in flight during
    /// consolidation).
    spec fn wf_except(self, except: Set<usize>) -> bool {
        let s = self.arena@;
        &&& s.len() <= usize::MAX
        &&& self.trees.wf(s)
        &&& forall|j: usize|
            #[trigger] self.trees.contains(j) ==> live(s, j as int) && s[j as int].parent is None
        &&& forall|i: int| live(s, i) ==> (#[trigger] s[i].children).wf(s)
        &&& forall|i: int| live(s, i) ==> (#[trigger] s[i].degree) == s[i].children.order@.len()
        &&& forall|i: int, j: usize|
            live(s, i) && (#[trigger] s[i].children.contains(j)) ==> live(s, j as int) && s[j
                as int].parent == Some(i as usize) && s[j as int].rank@ < s[i].rank@ && s[i].key
                <= s[j as int].key
        &&& forall|i: int| live(s, i) ==> (#[trigger] s[i].rank@) < self.bound@
        &&& forall|i: int|
            live(s, i) && !except.contains(i as usize) ==> #[trigger] self.placed(i)
    }

    /// The root ring's reference element carries the least key among the
    /// root ring's members.
    spec fn min_ok(self) -> bool {
        let s = self.arena@;
        forall|j: usize|
            #[trigger] self.trees.contains(j) ==> s[self.trees.order@[0] as int].key <= s[j
                as int].key
    }

    /// Full well-formedness: the structure is closed, the reference element
    /// is minimal, and `len` counts the live nodes' keys.
    pub closed spec fn wf(self) -> bool {
        &&& self.wf_except(Set::empty())
        &&& self.min_ok()
        &&& self.len == keys_of(self.arena@).len()
    }

    /// The empty heap.
    pub fn new() -> (heap: FibHeap)
        ensures
            heap.wf(),
            heap@ == Multiset::<i32>::empty(),
    {
        let heap = FibHeap {
            arena: Vec::new(),
            trees: IntrusiveList::new(),
            len: 0,
            bound: Ghost(1nat),
        };
        proof {
            assert(heap.trees.wf(heap.arena@));
            assert(keys_of(heap.arena@) =~= Multiset::<i32>::empty());
        }
        heap
    }

    /// Adds one occurrence of `key` to the heap.
    pub fn insert(&mut self, key: i32)
        requires
            old(self).wf(),
        ensures
            final(self).wf(),
            final(self)@ == old(self)@.insert(key),
    {
        let idx = self.arena.len();
        let node = Node::new(key, idx);
        let ghost s1 = self.arena@;
        self.arena.push(node);
        let n = self.arena.len();
        proof {
            lemma_keys_le_len(s1);
            assert(self.len < n);
        }
        self.len = self.len + 1;
        proof {
            self.bound@ = if self.bound@ < 1 { 1nat } else { self.bound@ };
            lemma_keys_push(s1, node);
            lemma_keys_le_len(s1);
            let s2 = self.arena@;
            let ex = Set::<usize>::empty().insert(idx);
            assert(s2 == s1.push(node));
            assert(forall|i: int| 0 <= i < s1.len() ==> s2[i] == s1[i]);
            assert(s2[idx as int] == node);
            lemma_contains_bounds(self.trees, s1);
            assert forall|x: usize| #[trigger] self.trees.contains(x) implies (x as int)
                < s2.len() && s2[x as int] == s1[x as int] by {}
            lemma_wf_frame(self.trees, s1, s2);
            assert forall|j: usize| #[trigger] self.trees.contains(j) implies live(s2, j as int)
                && s2[j as int].parent is None by {
                assert(live(s1, j as int));
            }
            assert forall|i: int| live(s2, i) implies (#[trigger] s2[i].children).wf(s2) by {
                if i < s1.len() {
                    assert(s2[i].children.wf(s1));
                    lemma_contains_bounds(s2[i].children, s1);
                    lemma_wf_frame(s2[i].children, s1, s2);
                } else {
                    assert(s2[i] == node);
                    assert(s2[i].children.order@.len() == 0);
                }
            }
            assert forall|i: int| live(s2, i) implies (#[trigger] s2[i].degree) == s2[
                i
            ].children.order@.len() by {
                if i < s1.len() {
                    assert(live(s1, i));
                } else {
                    assert(s2[i] == node);
                }
            }
            assert forall|i: int, j: usize|
                live(s2, i) && (#[trigger] s2[i].children.contains(j)) implies live(s2, j as int)
                && s2[j as int].parent == Some(i as usize) && s2[j as int].rank@ < s2[i].rank@
                && s2[i].key <= s2[j as int].key by {
                if i < s1.len() {
                    assert(live(s1, i));
                    assert(s1[i].children.contains(j));
                    assert(live(s1, j as int));
                } else {
                    assert(s2[i] == node);
                }
            }
            assert forall|i: int| live(s2, i) implies (#[trigger] s2[i].rank@) < self.bound@ by {
                if i < s1.len() {
                    assert(live(s1, i));
                    assert(s1[i].rank@ < old(self).bound@);
                } else {
                    assert(s2[i] == node);
                }
            }
            assert forall|i: int|
                live(s2, i) && !ex.contains(i as usize) implies #[trigger] self.placed(i) by {
                assert((i as usize) as int == i);
                assert(i != idx);
                assert(i < s1.len());
                assert(live(s1, i));
                assert(old(self).placed(i));
                match s1[i].parent {
                    None => {
                        assert(self.trees.contains(i as usize));
                    },
                    Some(pp) => {
                        assert(live(s1, pp as int));
                        assert(live(s2, pp as int));
                        assert(s2[pp as int].children == s1[pp as int].children);
                    },
                }
            }
            assert(self.wf_except(ex));
            assert forall|j: usize| #[trigger] self.trees.contains(j) implies s2[self.trees.order@[0]
                as int].key <= s2[j as int].key by {
                let a0 = self.trees.order@[0];
                assert(self.trees.order@.contains(a0));
                assert(self.trees.contains(a0));
                assert((a0 as int) < s1.len() && (j as int) < s1.len());
                assert(s1[a0 as int].key <= s1[j as int].key);
            }
            assert(self.min_ok());
        }
        let ghost smid = self.arena@;
        self.insert_node(idx, Ghost(Set::empty()));
        proof {
            lemma_keys_same_fields(smid, self.arena@);
        }
    }

    /// Splices an unplaced, parentless root node into the root ring,
    /// re-designating the reference element if the new key is strictly
    /// smaller.
    fn insert_node(&mut self, node: usize, exempt: Ghost<Set<usize>>)
        requires
            old(self).wf_except(exempt@.insert(node)),
            old(self).min_ok(),
            (node as int) < old(self).arena@.len(),
            old(self).arena@[node as int].live@,
            old(self).arena@[node as int].parent is None,
            old(self).arena@[node as int].left == node,
            old(self).arena@[node as int].right == node,
            !old(self).trees.contains(node),
            !exempt@.contains(node),
        ensures
            final(self).wf_except(exempt@),
            final(self).min_ok(),
            same_fields(old(self).arena@, final(self).arena@),
            final(self).len == old(self).len,
            final(self).bound == old(self).bound,
            forall|x: usize|
                #[trigger] final(self).trees.contains(x) <==> old(self).trees.contains(x) || x
                    == node,
            forall|x: usize|
                (x as int) < old(self).arena@.len() && !old(self).trees.contains(x) && x != node
                    ==> final(self).arena@[x as int] == old(self).arena@[x as int],
    {
        let ghost s1 = self.arena@;
        let ghost a = self.trees.order@;
        #[allow(unused_variables)]
        let alen = self.arena.len();
        let key = self.arena[node].key;
        let is_smaller = match self.trees.root(&self.arena) {
            Some(root) => root.key > key,
            None => false,
        };
        let ghost old_root = self.trees.root;
        self.trees.insert(&mut self.arena, node);
        proof {
            lemma_merged_contains(a, seq![node]);
            assert(seq![node][0] == node);
            assert(seq![node].contains(node));
            assert(self.trees.contains(node));
        }
        if is_smaller {
            self.trees.set_root::<Node>(node);
        }
        proof {
            let s2 = self.arena@;
            lemma_links_only_fields(s1, s2);
            assert forall|x: usize| #[trigger] self.trees.contains(x) <==> a.contains(x) || x
                == node by {
                lemma_merged_contains(a, seq![node]);
                if seq![node].contains(x) {
                    assert(x == node);
                }
                assert(seq![node][0] == node);
            }
            // children rings and their membership are untouched: a child has
            // a parent, so it is neither the new node nor a root-ring member.
            assert forall|i: int| live(s2, i) implies (#[trigger] s2[i].children).wf(s2) by {
                assert(live(s1, i));
                assert(s1[i].children.wf(s1));
                assert forall|x: usize| #[trigger] s1[i].children.contains(x) implies (x as int)
                    < s2.len() && s2[x as int] == s1[x as int] by {
                    lemma_contains_bounds(s1[i].children, s1);
                    assert(s1[x as int].parent == Some(i as usize));
                    assert(!old(self).trees.contains(x));
                    assert(x != node);
                    assert(!seq![node].contains(x)) by {
                        assert(seq![node][0] == node);
                    }
                }
                lemma_wf_frame(s1[i].children, s1, s2);
            }
            assert forall|j: usize| #[trigger] self.trees.contains(j) implies live(s2, j as int)
                && s2[j as int].parent is None by {
                if j != node {
                    assert(a.contains(j));
                    assert(old(self).trees.contains(j));
                    assert(live(s1, j as int));
                }
            }
            assert forall|i: int| live(s2, i) implies (#[trigger] s2[i].degree) == s2[
                i
            ].children.order@.len() by {
                assert(live(s1, i));
            }
            assert forall|i: int, j: usize|
                live(s2, i) && (#[trigger] s2[i].children.contains(j)) implies live(s2, j as int)
                && s2[j as int].parent == Some(i as usize) && s2[j as int].rank@ < s2[i].rank@
                && s2[i].key <= s2[j as int].key by {
                assert(live(s1, i));
                assert(s1[i].children.contains(j));
                assert(live(s1, j as int));
            }
            assert forall|i: int| live(s2, i) implies (#[trigger] s2[i].rank@) < self.bound@ by {
                assert(live(s1, i));
            }
            assert forall|i: int|
                live(s2, i) && !exempt@.contains(i as usize) implies #[trigger] self.placed(
                i,
            ) by {
                assert(i < alen as int);
                assert((i as usize) as int == i);
                if i == node {
                    assert(self.trees.contains(node));
                    assert(s2[i].parent is None);
                } else {
                    assert((i as usize) != node);
                    assert(!exempt@.insert(node).contains(i as usize));
                    assert(live(s1, i));
                    assert(old(self).placed(i));
                    assert(s2[i].parent == s1[i].parent);
                    match s1[i].parent {
                        None => {
                            assert(old(self).trees.contains(i as usize));
                            assert(self.trees.contains(i as usize));
                        },
                        Some(pp) => {
                            assert(live(s1, pp as int));
                            assert(live(s2, pp as int));
                            assert(s2[pp as int].children == s1[pp as int].children);
                        },
                    }
                }
            }
            // minimality of the surviving reference element.
            assert(self.trees.order@.len() > 0);
            lemma_contains_bounds(old(self).trees, s1);
            let r0 = self.trees.order@[0];
            assert forall|j: usize| #[trigger] self.trees.contains(j) implies s2[r0 as int].key
                <= s2[j as int].key by {
                assert(a.contains(j) || j == node);
                if is_smaller {
                    let or = old_root.unwrap();
                    assert(a.len() > 0 && a[0] == or);
                    assert(a.contains(or));
                    assert(ring_node_ok(s1, a, 0));
                    assert(s1[or as int].key > key);
                    assert(r0 == node);
                    assert(s2[node as int].key == key);
                    if j != node {
                        assert(a.contains(j));
                        assert(old(self).trees.contains(j));
                        assert(s1[a[0] as int].key <= s1[j as int].key);
                        assert((j as int) < s1.len());
                        assert(s2[j as int].key == s1[j as int].key);
                    }
                } else {
                    if a.len() == 0 {
                        assert(!a.contains(j));
                        assert(j == node);
                        assert(merged_order(a, seq![node]) == seq![node]);
                        assert(r0 == node);
                    } else {
                        assert(self.trees.order@ == merged_order(a, seq![node]));
                        assert(merged_order(a, seq![node])[0] == a[0]);
                        assert(r0 == a[0]);
                        assert(a.contains(a[0]));
                        assert(ring_node_ok(s1, a, 0));
                        assert(old(self).trees.root == Some(a[0]));
                        assert(s1[a[0] as int].key <= key);
                        assert(s2[a[0] as int].key == s1[a[0] as int].key);
                        if j == node {
                            assert(s2[j as int].key == key);
                        } else {
                            assert(a.contains(j));
                            assert(old(self).trees.contains(j));
                            assert(s1[a[0] as int].key <= s1[j as int].key);
                            assert((j as int) < s1.len());
                            assert(s2[j as int].key == s1[j as int].key);
                        }
                    }
                }
            }
            assert(self.min_ok());
            assert(self.wf_except(exempt@));
        }
    }

    /// Clears a node's parent and splices it into the root ring.  Used when
    /// an extracted root's children are promoted: the reference element is
    /// not re-examined, consolidation re-establishes minimality afterwards.
    fn promote(&mut self, node: usize, exempt: Ghost<Set<usize>>)
        requires
            old(self).wf_except(exempt@.insert(node)),
            (node as int) < old(self).arena@.len(),
            old(self).arena@[node as int].live@,
            old(self).arena@[node as int].left == node,
            old(self).arena@[node as int].right == node,
            !old(self).trees.contains(node),
            !exempt@.contains(node),
            forall|i: int|
                live(old(self).arena@, i) ==> !(#[trigger] old(self).arena@[i].children).contains(
                    node,
                ),
        ensures
            final(self).wf_except(exempt@),
            final(self).arena@.len() == old(self).arena@.len(),
            keys_of(final(self).arena@) == keys_of(old(self).arena@),
            final(self).len == old(self).len,
            final(self).bound == old(self).bound,
            forall|x: usize|
                #[trigger] final(self).trees.contains(x) <==> old(self).trees.contains(x) || x
                    == node,
            forall|x: usize|
                (x as int) < old(self).arena@.len() && !old(self).trees.contains(x) && x != node
                    ==> final(self).arena@[x as int] == old(self).arena@[x as int],
            forall|i: int|
                0 <= i < old(self).arena@.len() ==> (#[trigger] final(self).arena@[i]).key == old(self).arena@[i].key && final(self).arena@[i].live == old(self).arena@[i].live && final(self).arena@[i].rank == old(self).arena@[i].rank && final(self).arena@[i].children
                    == old(self).arena@[i].children && final(self).arena@[i].degree == old(self).arena@[i].degree,
            final(self).arena@[node as int].parent is None,
    {
        let ghost s0 = self.arena@;
        let ghost a = self.trees.order@;
        #[allow(unused_variables)]
        let alen = self.arena.len();
        let mut nn = self.arena[node];
        nn.parent = None;
        self.arena[node] = nn;
        let ghost s1 = self.arena@;
        proof {
            assert(s1 == s0.update(node as int, nn));
            assert(forall|i: int| 0 <= i < s0.len() && i != node ==> s1[i] == s0[i]);
            assert(s1[node as int].left == node && s1[node as int].right == node);
            lemma_keys_same_fields(s0, s1);
            // rings do not hold `node`, so the slot write leaves them intact.
            lemma_contains_bounds(self.trees, s0);
            assert forall|x: usize| #[trigger] self.trees.contains(x) implies (x as int) < s1.len()
                && s1[x as int] == s0[x as int] by {}
            lemma_wf_frame(self.trees, s0, s1);
            assert forall|i: int| live(s1, i) implies (#[trigger] s1[i].children).wf(s1) by {
                assert(live(s0, i));
                assert(s0[i].children.wf(s0));
                assert forall|x: usize| #[trigger] s0[i].children.contains(x) implies (x as int)
                    < s1.len() && s1[x as int] == s0[x as int] by {
                    lemma_contains_bounds(s0[i].children, s0);
                    assert(x != node);
                }
                lemma_wf_frame(s0[i].children, s0, s1);
            }
        }
        self.trees.insert(&mut self.arena, node);
        proof {
            let s2 = self.arena@;
            lemma_links_only_fields(s1, s2);
            lemma_keys_same_fields(s1, s2);
            lemma_merged_contains(a, seq![node]);
            assert(seq![node][0] == node);
            assert(seq![node].contains(node));
            assert forall|x: usize| #[trigger] self.trees.contains(x) <==> a.contains(x) || x
                == node by {
                if seq![node].contains(x) {
                    assert(x == node);
                }
            }
            assert forall|j: usize| #[trigger] self.trees.contains(j) implies live(s2, j as int)
                && s2[j as int].parent is None by {
                if j != node {
                    assert(a.contains(j));
                    assert(old(self).trees.contains(j));
                    assert(live(s0, j as int));
                    assert(s1[j as int] == s0[j as int]);
                }
            }
            assert forall|i: int| live(s2, i) implies (#[trigger] s2[i].children).wf(s2) by {
                assert(live(s1, i));
                assert(s1[i].children.wf(s1));
                assert forall|x: usize| #[trigger] s1[i].children.contains(x) implies (x as int)
                    < s2.len() && s2[x as int] == s1[x as int] by {
                    lemma_contains_bounds(s1[i].children, s1);
                    assert(s1[i].children == s0[i].children);
                    assert(live(s0, i));
                    assert(s0[i].children.contains(x));
                    assert(s0[x as int].parent == Some(i as usize));
                    assert(s1[x as int].parent == Some(i as usize));
                    assert(!old(self).trees.contains(x));
                    assert(x != node);
                    assert(!seq![node].contains(x));
                }
                lemma_wf_frame(s1[i].children, s1, s2);
            }
            assert forall|i: int| live(s2, i) implies (#[trigger] s2[i].degree) == s2[
                i
            ].children.order@.len() by {
                assert(live(s0, i));
            }
            assert forall|i: int, j: usize|
                live(s2, i) && (#[trigger] s2[i].children.contains(j)) implies live(s2, j as int)
                && s2[j as int].parent == Some(i as usize) && s2[j as int].rank@ < s2[i].rank@
                && s2[i].key <= s2[j as int].key by {
                assert(live(s0, i));
                assert(s2[i].children == s0[i].children);
                assert(s0[i].children.contains(j));
                assert(live(s0, j as int));
                assert(j != node);
                assert(s2[j as int].parent == s0[j as int].parent);
            }
            assert forall|i: int| live(s2, i) implies (#[trigger] s2[i].rank@) < self.bound@ by {
                assert(live(s0, i));
            }
            assert forall|i: int|
                live(s2, i) && !exempt@.contains(i as usize) implies #[trigger] self.placed(
                i,
            ) by {
                assert(i < alen as int);
                assert((i as usize) as int == i);
                if i == node {
                    assert(self.trees.contains(node));
                    assert(s2[i].parent is None);
                } else {
                    assert((i as usize) != node);
                    assert(!exempt@.insert(node).contains(i as usize));
                    assert(live(s0, i));
                    assert(old(self).placed(i));
                    assert(s2[i].parent == s0[i].parent);
                    match s0[i].parent {
                        None => {
                            assert(old(self).trees.contains(i as usize));
                            assert(self.trees.contains(i as usize));
                        },
                        Some(pp) => {
                            assert(live(s0, pp as int));
                            assert(live(s2, pp as int));
                            assert(s2[pp as int].children == s0[pp as int].children);
                        },
                    }
                }
            }
            assert(self.wf_except(exempt@));
        }
    }

    /// Makes `lower` a child of `upper`: sets the parent back-reference,
    /// clears the mark, bumps the degree, and splices `lower` into `upper`'s
    /// child ring.  Requires `upper`'s key to be no greater, which keeps the
    /// heap order.
    fn link(&mut self, upper: usize, lower: usize, exempt: Ghost<Set<usize>>)
        requires
            old(self).wf_except(exempt@.insert(lower)),
            (upper as int) < old(self).arena@.len(),
            (lower as int) < old(self).arena@.len(),
            upper != lower,
            old(self).arena@[upper as int].live@,
            old(self).arena@[lower as int].live@,
            old(self).arena@[upper as int].parent is None,
            old(self).arena@[lower as int].parent is None,
            old(self).arena@[lower as int].left == lower,
            old(self).arena@[lower as int].right == lower,
            !old(self).trees.contains(lower),
            !old(self).trees.contains(upper),
            !exempt@.contains(lower),
            old(self).arena@[upper as int].key <= old(self).arena@[lower as int].key,
        ensures
            final(self).wf_except(exempt@),
            final(self).trees == old(self).trees,
            final(self).arena@.len() == old(self).arena@.len(),
            keys_of(final(self).arena@) == keys_of(old(self).arena@),
            final(self).len == old(self).len,
            final(self).arena@[upper as int].degree == old(self).arena@[upper as int].degree + 1,
            final(self).arena@[upper as int].parent is None,
            final(self).arena@[upper as int].live@,
            final(self).arena@[upper as int].key == old(self).arena@[upper as int].key,
            final(self).arena@[upper as int].left == old(self).arena@[upper as int].left,
            final(self).arena@[upper as int].right == old(self).arena@[upper as int].right,
            forall|x: usize|
                (x as int) < old(self).arena@.len() && !old(self).arena@[upper
                    as int].children.contains(x) && x != lower && x != upper ==> final(self).arena@[x as int] == old(self).arena@[x as int],
    {
        let ghost s0 = self.arena@;
        #[allow(unused_variables)]
        let alen = self.arena.len();
        let mut ln = self.arena[lower];
        ln.parent = Some(upper);
        ln.mark = false;
        self.arena[lower] = ln;
        let ghost s1 = self.arena@;
        proof {
            assert(forall|i: int| 0 <= i < s0.len() && i != lower ==> s1[i] == s0[i]);
            lemma_keys_same_fields(s0, s1);
            assert forall|i: int| live(s1, i) implies (#[trigger] s1[i].children).wf(s1)
                && !s1[i].children.contains(lower) by {
                assert(live(s0, i));
                assert(s0[i].children.wf(s0));
                if s0[i].children.contains(lower) {
                    assert(s0[lower as int].parent == Some(i as usize));
                }
                assert forall|x: usize| #[trigger] s0[i].children.contains(x) implies (x as int)
                    < s1.len() && s1[x as int] == s0[x as int] by {
                    lemma_contains_bounds(s0[i].children, s0);
                    assert(x != lower);
                }
                lemma_wf_frame(s0[i].children, s0, s1);
            }
        }
        let ghost kord = self.arena@[upper as int].children.order@;
        let mut kids = self.arena[upper].children;
        let ghost kids0 = kids;
        kids.insert(&mut self.arena, lower);
        let ghost s2 = self.arena@;
        proof {
            lemma_links_only_fields(s1, s2);
            lemma_keys_same_fields(s1, s2);
            lemma_merged_contains(kord, seq![lower]);
            assert(seq![lower][0] == lower);
        }
        let un0 = self.arena[upper];
        proof {
            // the degree stays below the arena bound: the child ring's
            // members are distinct in-bounds indices, none of them `upper`.
            assert(live(s0, upper as int));
            assert(s0[upper as int].children.wf(s0));
            assert forall|k: int| 0 <= k < kord.len() implies (#[trigger] kord[k] as int)
                < s0.len() by {
                assert(ring_node_ok(s0, kord, k));
            }
            assert forall|k: int| 0 <= k < kord.len() implies (#[trigger] kord[k]) != upper by {
                assert(kord.contains(kord[k]));
                assert(s0[upper as int].children.contains(kord[k]));
                if kord[k] == upper {
                    assert(s0[upper as int].parent == Some(upper));
                }
            }
            lemma_distinct_indices_bound(kord, s0.len() as int, upper);
            assert(!kord.contains(upper));
            assert(!kids0.contains(upper));
            assert(s1[upper as int] == s0[upper as int]);
            assert(s2[upper as int] == s1[upper as int]);
            assert(un0 == s0[upper as int]);
            assert(un0.degree == kord.len());
        }
        let mut un = un0;
        un.children = kids;
        un.degree = un.degree + 1;
        let ghost ur: nat = if s0[lower as int].rank@ + 1 > s0[upper as int].rank@ {
            s0[lower as int].rank@ + 1
        } else {
            s0[upper as int].rank@
        };
        proof {
            un.rank@ = ur;
            self.bound@ = if ur + 1 > self.bound@ {
                ur + 1
            } else {
                self.bound@
            };
        }
        self.arena[upper] = un;
        proof {
            let s3 = self.arena@;
            assert(forall|i: int| 0 <= i < s2.len() && i != upper ==> s3[i] == s2[i]);
            lemma_keys_same_fields(s2, s3);
            // `upper` sits in no ring that matters here: not in the root
            // ring, not in any child ring (it is parentless).
            assert forall|i: int| live(s2, i) && i != upper implies !(#[trigger] s2[
                i
            ].children).contains(upper) by {
                assert(live(s0, i));
                assert(s2[i].children == s0[i].children);
                if s0[i].children.contains(upper) {
                    assert(s0[upper as int].parent == Some(i as usize));
                }
            }
            lemma_contains_bounds(self.trees, s0);
            assert forall|x: usize| #[trigger] self.trees.contains(x) implies (x as int) < s3.len()
                && s3[x as int] == s0[x as int] by {
                assert(x != lower && x != upper);
                assert(live(s0, x as int));
                assert(s0[x as int].parent is None);
                if kord.contains(x) {
                    assert(s0[upper as int].children.contains(x));
                    assert(s0[x as int].parent == Some(upper));
                }
                assert(!kord.contains(x));
                assert(!kids0.contains(x));
                assert(s1[x as int] == s0[x as int]);
                assert(s2[x as int] == s1[x as int]);
                assert(s3[x as int] == s2[x as int]);
            }
            lemma_wf_frame(self.trees, s0, s3);
            assert(kids.wf(s3)) by {
                assert(kids.wf(s2));
                assert forall|x: usize| #[trigger] kids.contains(x) implies (x as int) < s3.len()
                    && s3[x as int] == s2[x as int] by {
                    assert(kord.contains(x) || seq![lower].contains(x));
                    assert(x != upper);
                }
                lemma_wf_frame(kids, s2, s3);
            }
            assert forall|i: int| live(s3, i) implies (#[trigger] s3[i].children).wf(s3) by {
                if i == upper {
                    assert(s3[i].children == kids);
                } else {
                    assert(live(s1, i));
                    assert(s1[i].children.wf(s1));
                    assert(s1[i].children == s0[i].children);
                    assert forall|x: usize| #[trigger] s1[i].children.contains(x) implies (x
                        as int) < s3.len() && s3[x as int] == s1[x as int] by {
                        lemma_contains_bounds(s1[i].children, s1);
                        assert(live(s0, i));
                        assert(s0[i].children.contains(x));
                        assert(s0[x as int].parent == Some(i as usize));
                        assert(x != lower && x != upper);
                        assert(!kord.contains(x)) by {
                            if kord.contains(x) {
                                assert(s0[upper as int].children.contains(x));
                                assert(s0[x as int].parent == Some(upper));
                                assert(i == upper);
                            }
                        }
                        assert(!kids0.contains(x));
                        assert(s2[x as int] == s1[x as int]);
                    }
                    lemma_wf_frame(s1[i].children, s1, s3);
                }
            }
            assert forall|j: usize| #[trigger] self.trees.contains(j) implies live(s3, j as int)
                && s3[j as int].parent is None by {
                assert(live(s0, j as int));
                assert(s3[j as int] == s0[j as int]);
            }
            assert forall|i: int| live(s3, i) implies (#[trigger] s3[i].degree) == s3[
                i
            ].children.order@.len() by {
                assert(live(s0, i));
                if i == upper {
                    assert(s3[i].children == kids);
                    assert(kids.order@ == merged_order(kord, seq![lower]));
                    assert(kids.order@.len() == kord.len() + 1);
                } else {
                    assert(s3[i].children == s0[i].children);
                    assert(s3[i].degree == s0[i].degree);
                }
            }
            assert forall|i: int, j: usize|
                live(s3, i) && (#[trigger] s3[i].children.contains(j)) implies live(s3, j as int)
                && s3[j as int].parent == Some(i as usize) && s3[j as int].rank@ < s3[i].rank@
                && s3[i].key <= s3[j as int].key by {
                assert(live(s0, i));
                if i == upper {
                    assert(s3[i].children == kids);
                    assert(kord.contains(j) || seq![lower].contains(j));
                    if seq![lower].contains(j) {
                        assert(j == lower);
                        assert(s3[j as int].parent == Some(upper));
                        assert(s3[j as int].rank@ == s0[lower as int].rank@);
                        assert(s3[i].rank@ == ur);
                    } else {
                        assert(s0[upper as int].children.contains(j));
                        assert(live(s0, j as int));
                        assert(j != lower && j != upper);
                        assert(s3[j as int] == s2[j as int]);
                        assert(s3[j as int].parent == s0[j as int].parent);
                        assert(s3[j as int].rank@ < s0[upper as int].rank@);
                        assert(s0[upper as int].rank@ <= ur);
                    }
                } else {
                    assert(s3[i].children == s0[i].children);
                    assert(s0[i].children.contains(j));
                    assert(live(s0, j as int));
                    assert(j != upper);
                    assert(j != lower) by {
                        if j == lower {
                            assert(s0[lower as int].parent == Some(i as usize));
                        }
                    }
                    assert(!kord.contains(j)) by {
                        if kord.contains(j) {
                            assert(s0[upper as int].children.contains(j));
                            assert(s0[j as int].parent == Some(upper));
                            assert(i == upper);
                        }
                    }
                    assert(!kids0.contains(j));
                    assert(s1[j as int] == s0[j as int]);
                    assert(s2[j as int] == s1[j as int]);
                    assert(s3[j as int] == s0[j as int]);
                    assert(s3[i].rank@ == s0[i].rank@ && s3[i].key == s0[i].key);
                }
            }
            assert forall|i: int| live(s3, i) implies (#[trigger] s3[i].rank@) < self.bound@ by {
                assert(live(s0, i));
                if i == upper {
                    assert(s3[i].rank@ == ur);
                } else {
                    assert(s3[i].rank == s0[i].rank);
                    assert(s0[i].rank@ < old(self).bound@);
                }
            }
            assert forall|i: int|
                live(s3, i) && !exempt@.contains(i as usize) implies #[trigger] self.placed(
                i,
            ) by {
                assert(i < alen as int);
                assert((i as usize) as int == i);
                assert(live(s0, i));
                if i == lower {
                    assert(s3[i].parent == Some(upper));
                    assert(live(s3, upper as int));
                    assert(s3[upper as int].children == kids);
                    assert(seq![lower].contains(lower));
                    assert(kids.contains(lower));
                } else {
                    assert((i as usize) != lower);
                    assert(!exempt@.insert(lower).contains(i as usize));
                    assert(old(self).placed(i));
                    assert(s3[i].parent == s0[i].parent);
                    match s0[i].parent {
                        None => {
                            assert(self.trees.contains(i as usize));
                        },
                        Some(pp) => {
                            assert(live(s0, pp as int));
                            assert(live(s3, pp as int));
                            assert(s0[pp as int].children.contains(i as usize));
                            if pp == upper {
                                assert(s3[pp as int].children == kids);
                                assert(kids.contains(i as usize));
                            } else {
                                assert(s3[pp as int].children == s0[pp as int].children);
                            }
                        },
                    }
                }
            }
            assert(self.wf_except(exempt@));
        }
    }

    /// Removes and returns the least key, or nothing if the heap is empty.
    /// The reference element of the root ring is extracted, its children are
    /// promoted to roots, and the forest is consolidated, restoring the
    /// minimum-tracking invariant.
    pub fn pop_min(&mut self) -> (res: Option<i32>)
        requires
            old(self).wf(),
        ensures
            final(self).wf(),
            old(self)@.len() == 0 ==> res is None && final(self)@ == old(self)@,
            old(self)@.len() > 0 ==> res == Some(min_of(old(self)@)) && final(self)@ == old(
                self,
            )@.remove(min_of(old(self)@)),
    {
        let ghost s0 = self.arena@;
        let r = match self.take_root(Ghost(Set::empty())) {
            None => {
                proof {
                    if keys_of(s0).len() > 0 {
                        lemma_keys_nonempty_witness(s0);
                        let i = choose|i: int| live(s0, i);
                        lemma_root_is_min(*old(self), i);
                    }
                    assert(keys_of(self.arena@) == keys_of(s0));
                    assert forall|j: usize| #[trigger] self.trees.contains(j) implies self.arena@[
                        self.trees.order@[0] as int
                    ].key <= self.arena@[j as int].key by {
                        assert(old(self).trees.contains(j));
                    }
                    assert(self.wf());
                }
                return None;
            },
            Some(r) => r,
        };
        let ghost sa = self.arena@;
        proof {
            assert(live(sa, r as int));
            assert(live(s0, r as int));
            lemma_keys_contains(s0, r as int);
            assert forall|k: i32| #[trigger] keys_of(s0).count(k) > 0 implies s0[r as int].key
                <= k by {
                lemma_keys_key_witness(s0, k);
                let i = choose|i: int| live(s0, i) && s0[i].key == k;
                lemma_root_is_min(*old(self), i);
            }
            lemma_min_of(keys_of(s0));
            assert(min_of(keys_of(s0)) == s0[r as int].key) by {
                assert(keys_of(s0).count(s0[r as int].key) > 0);
                assert(keys_of(s0).count(min_of(keys_of(s0))) > 0);
            }
        }
        // the extracted node's children become roots; the node itself is
        // released, its key handed back.
        let kids_init = self.arena[r].children;
        let mut rn = self.arena[r];
        let key = rn.key;
        rn.live = Ghost(false);
        rn.children = IntrusiveList::new();
        self.arena[r] = rn;
        let mut kids = kids_init;
        let ghost sb = self.arena@;
        proof {
            assert(sb == sa.update(r as int, rn));
            assert(forall|i: int| 0 <= i < sa.len() && i != r ==> sb[i] == sa[i]);
            lemma_keys_kill(sa, r as int, rn);
            assert(sa[r as int].key == key);
            assert(keys_of(sb) == keys_of(s0).remove(key));
            // every child of the released node is live with it as parent,
            // and the released slot sits in no ring.
            assert(kids.order@ == sa[r as int].children.order@);
            assert(kids.wf(sa));
            assert forall|x: usize| #[trigger] kids.contains(x) implies live(sb, x as int) && sb[x
                as int].parent == Some(r) && x != r by {
                assert(sa[r as int].children.contains(x));
                assert(live(sa, x as int));
                assert(sa[x as int].parent == Some(r));
                assert(x != r) by {
                    if x == r {
                        assert(sa[r as int].parent is None);
                    }
                }
            }
            assert(kids.wf(sb)) by {
                assert forall|x: usize| #[trigger] kids.contains(x) implies (x as int) < sb.len()
                    && sb[x as int] == sa[x as int] by {
                    lemma_contains_bounds(kids, sa);
                }
                lemma_wf_frame(kids, sa, sb);
            }
            // structural invariant with the children pending promotion.
            lemma_contains_bounds(self.trees, sa);
            assert forall|x: usize| #[trigger] self.trees.contains(x) implies (x as int) < sb.len()
                && sb[x as int] == sa[x as int] by {
                assert(x != r);
            }
            lemma_wf_frame(self.trees, sa, sb);
            assert forall|j: usize| #[trigger] self.trees.contains(j) implies live(sb, j as int)
                && sb[j as int].parent is None by {
                assert(live(sa, j as int));
                assert(j != r);
            }
            assert forall|i: int| live(sb, i) implies (#[trigger] sb[i].children).wf(sb) by {
                assert(i != r);
                assert(live(sa, i));
                assert(sa[i].children.wf(sa));
                assert forall|x: usize| #[trigger] sa[i].children.contains(x) implies (x as int)
                    < sb.len() && sb[x as int] == sa[x as int] by {
                    lemma_contains_bounds(sa[i].children, sa);
                    assert(sa[x as int].parent == Some(i as usize));
                    assert(x != r) by {
                        if x == r {
                            assert(sa[r as int].parent is None);
                        }
                    }
                }
                lemma_wf_frame(sa[i].children, sa, sb);
            }
            assert forall|i: int| live(sb, i) implies (#[trigger] sb[i].degree) == sb[
                i
            ].children.order@.len() by {
                assert(i != r && live(sa, i));
            }
            assert forall|i: int, j: usize|
                live(sb, i) && (#[trigger] sb[i].children.contains(j)) implies live(sb, j as int)
                && sb[j as int].parent == Some(i as usize) && sb[j as int].rank@ < sb[i].rank@
                && sb[i].key <= sb[j as int].key by {
                assert(i != r && live(sa, i));
                assert(sa[i].children.contains(j));
                assert(live(sa, j as int));
                assert(j != r) by {
                    if j == r {
                        assert(sa[r as int].parent is None);
                        assert(sa[r as int].parent == Some(i as usize));
                    }
                }
            }
            assert forall|i: int| live(sb, i) implies (#[trigger] sb[i].rank@) < self.bound@ by {
                assert(i != r && live(sa, i));
            }
            assert forall|i: int|
                live(sb, i) && !ring_set(kids).contains(i as usize) implies #[trigger] self.placed(
                i,
            ) by {
                assert(i != r && live(sa, i));
                assert((i as usize) as int == i) by {
                    assert(i < sa.len());
                    assert(sa.len() <= usize::MAX);
                }
                assert(self.placed(i) == match sb[i].parent {
                    None => self.trees.contains(i as usize),
                    Some(p) => live(sb, p as int) && sb[p as int].children.contains(i as usize),
                });
                assert(old(self).placed(i) || i == r);
                match sa[i].parent {
                    None => {
                        assert(self.trees.contains(i as usize));
                    },
                    Some(pp) => {
                        assert(live(sa, pp as int));
                        assert(sa[pp as int].children.contains(i as usize));
                        if pp == r {
                            assert(kids.contains(i as usize));
                            assert(ring_set(kids).contains(i as usize));
                        } else {
                            assert(live(sb, pp as int));
                            assert(sb[pp as int].children == sa[pp as int].children);
                        }
                    },
                }
            }
            assert(self.wf_except(ring_set(kids)));
        }
        loop
            invariant
                kids.wf(self.arena@),
                self.wf_except(ring_set(kids)),
                forall|x: usize|
                    #[trigger] kids.contains(x) ==> live(self.arena@, x as int) && self.arena@[x
                        as int].parent == Some(r) && x != r,
                (r as int) < self.arena@.len(),
                !self.arena@[r as int].live@,
                self.arena@.len() == sb.len(),
                keys_of(self.arena@) == keys_of(sb),
                self.len == old(self).len,
            ensures
                kids.order@.len() == 0,
                self.wf_except(ring_set(kids)),
                self.arena@.len() == sb.len(),
                keys_of(self.arena@) == keys_of(sb),
                self.len == old(self).len,
            decreases kids.order@.len(),
        {
            let ghost sc = self.arena@;
            let ghost kids_pre = kids;
            let ghost hloop = *self;
            let kid = match kids.extract_root(&mut self.arena) {
                None => {
                    proof {
                        assert(kids.order@.len() == 0);
                        assert forall|i: int|
                            live(self.arena@, i) && !ring_set(kids).contains(i as usize) implies
                            #[trigger] self.placed(i) by {
                            assert(hloop.placed(i));
                        }
                        assert(self.wf_except(ring_set(kids)));
                    }
                    break ;
                },
                Some(k) => k,
            };
            proof {
                let sd = self.arena@;
                lemma_links_only_fields(sc, sd);
                lemma_keys_same_fields(sc, sd);
                lemma_extracted_contains(kids_pre.order@);
                lemma_contains_bounds(kids_pre, sc);
                assert(kids_pre.contains(kid));
                assert forall|x: usize| #[trigger] kids.contains(x) implies kids_pre.contains(x)
                    && x != kid by {}
                // slots outside the child ring are untouched.
                lemma_contains_bounds(hloop.trees, sc);
                assert forall|x: usize| #[trigger] self.trees.contains(x) implies (x as int)
                    < sd.len() && sd[x as int] == sc[x as int] by {
                    assert(hloop.trees.contains(x));
                    assert(live(sc, x as int) && sc[x as int].parent is None);
                    assert(!kids_pre.contains(x)) by {
                        if kids_pre.contains(x) {
                            assert(sc[x as int].parent == Some(r));
                        }
                    }
                }
                lemma_wf_frame(self.trees, sc, sd);
                assert forall|j: usize| #[trigger] self.trees.contains(j) implies live(sd, j
                    as int) && sd[j as int].parent is None by {
                    assert(live(sc, j as int));
                }
                assert forall|i: int| live(sd, i) implies (#[trigger] sd[i].children).wf(sd) by {
                    assert(live(sc, i));
                    assert(sc[i].children.wf(sc));
                    assert forall|x: usize| #[trigger] sc[i].children.contains(x) implies (x
                        as int) < sd.len() && sd[x as int] == sc[x as int] by {
                        lemma_contains_bounds(sc[i].children, sc);
                        assert(sc[x as int].parent == Some(i as usize));
                        assert(!kids_pre.contains(x)) by {
                            if kids_pre.contains(x) {
                                assert(sc[x as int].parent == Some(r));
                                assert(live(sc, r as int));
                            }
                        }
                    }
                    lemma_wf_frame(sc[i].children, sc, sd);
                }
                assert forall|i: int| live(sd, i) implies (#[trigger] sd[i].degree) == sd[
                    i
                ].children.order@.len() by {
                    assert(live(sc, i));
                }
                assert forall|i: int, j: usize|
                    live(sd, i) && (#[trigger] sd[i].children.contains(j)) implies live(sd, j
                    as int) && sd[j as int].parent == Some(i as usize) && sd[j as int].rank@ < sd[
                    i
                ].rank@ && sd[i].key <= sd[j as int].key by {
                    assert(live(sc, i));
                    assert(sc[i].children.contains(j));
                    assert(live(sc, j as int));
                }
                assert forall|i: int| live(sd, i) implies (#[trigger] sd[i].rank@)
                    < self.bound@ by {
                    assert(live(sc, i));
                }
                assert forall|i: int|
                    live(sd, i) && !ring_set(kids).insert(kid).contains(i as usize) implies
                    #[trigger] self.placed(i) by {
                    assert((i as usize) as int == i) by {
                        assert(i < sc.len());
                        assert(sc.len() <= usize::MAX);
                    }
                    assert(live(sc, i));
                    assert(!ring_set(kids_pre).contains(i as usize)) by {
                        if kids_pre.contains(i as usize) {
                            assert(kids.contains(i as usize) || i == kid);
                        }
                    }
                    assert(sd[i].parent == sc[i].parent);
                    assert(hloop.placed(i));
                    match sc[i].parent {
                        None => {
                            assert(self.trees.contains(i as usize));
                        },
                        Some(pp) => {
                            assert(live(sc, pp as int));
                            assert(live(sd, pp as int));
                            assert(sd[pp as int].children == sc[pp as int].children);
                        },
                    }
                }
                assert(self.wf_except(ring_set(kids).insert(kid)));
                assert(!self.trees.contains(kid)) by {
                    if self.trees.contains(kid) {
                        assert(sd[kid as int].parent is None);
                        assert(sc[kid as int].parent == Some(r));
                    }
                }
                assert forall|i: int|
                    live(sd, i) implies !(#[trigger] sd[i].children).contains(kid) by {
                    assert(live(sc, i));
                    assert(sd[i].children == sc[i].children);
                    if sc[i].children.contains(kid) {
                        assert(sc[kid as int].parent == Some(i as usize));
                        assert(sc[kid as int].parent == Some(r));
                        assert(live(sc, r as int));
                    }
                }
            }
            let ghost hpre = *self;
            self.promote(kid, Ghost(ring_set(kids)));
            proof {
                let se = self.arena@;
                assert(kids.wf(se)) by {
                    assert(kids.wf(hpre.arena@));
                    assert forall|x: usize| #[trigger] kids.contains(x) implies (x as int)
                        < se.len() && se[x as int] == hpre.arena@[x as int] by {
                        lemma_contains_bounds(kids, hpre.arena@);
                        assert(hpre.arena@[x as int].parent == Some(r));
                        assert(!hpre.trees.contains(x)) by {
                            if hpre.trees.contains(x) {
                                assert(hpre.arena@[x as int].parent is None);
                            }
                        }
                        assert(x != kid);
                    }
                    lemma_wf_frame(kids, hpre.arena@, se);
                }
                assert forall|x: usize| #[trigger] kids.contains(x) implies live(se, x as int)
                    && se[x as int].parent == Some(r) && x != r by {
                    lemma_contains_bounds(kids, hpre.arena@);
                    assert(hpre.arena@[x as int].parent == Some(r));
                    assert(!hpre.trees.contains(x)) by {
                        if hpre.trees.contains(x) {
                            assert(hpre.arena@[x as int].parent is None);
                        }
                    }
                    assert(x != kid);
                    assert(se[x as int] == hpre.arena@[x as int]);
                }
            }
        }
        proof {
            assert(ring_set(kids) =~= Set::<usize>::empty());
            assert(self.wf_except(Set::empty()));
        }
        proof {
            assert(keys_of(self.arena@) == keys_of(s0).remove(key));
            assert(keys_of(s0).remove(key).insert(key) =~= keys_of(s0));
            assert(keys_of(s0).remove(key).len() == keys_of(s0).len() - 1);
            assert(self.len == keys_of(s0).len());
        }
        let ghost hdrained = *self;
        self.len = self.len - 1;
        proof {
            assert(self.wf_except(Set::empty())) by {
                assert forall|i: int|
                    live(self.arena@, i) && !Set::<usize>::empty().contains(i as usize) implies
                    #[trigger] self.placed(i) by {
                    assert((i as usize) as int == i) by {
                        assert(i < self.arena@.len());
                        assert(self.arena@.len() <= usize::MAX);
                    }
                    assert(!ring_set(kids).contains(i as usize));
                    assert(hdrained.placed(i));
                }
            }
        }
        self.consolidate();
        proof {
            assert(self.wf());
        }
        Some(key)
    }

    /// Consumes both heaps and yields their union: the arenas are laid end
    /// to end (the right heap's handles relocate as a block), the two root
    /// rings are spliced in O(1), and the reference element becomes the
    /// smaller of the two former reference elements.
    #[verifier::rlimit(80)]
    #[verifier::spinoff_prover]
    pub fn merge(lhs: FibHeap, rhs: FibHeap) -> (heap: FibHeap)
        requires
            lhs.wf(),
            rhs.wf(),
        ensures
            heap.wf(),
            heap@ == lhs@.add(rhs@),
    {
        let ghost sl = lhs.arena@;
        let ghost sr = rhs.arena@;
        let ghost rhs_trees0 = rhs.trees;
        let mut h = lhs;
        let d = h.arena.len();
        let rlen = rhs.arena.len();
        let mut j: usize = 0;
        while j < rlen
            invariant
                j <= rlen,
                rlen == sr.len(),
                rhs.arena@ == sr,
                rhs.trees == rhs_trees0,
                d == sl.len(),
                h.arena@.len() == d + j,
                forall|i: int| 0 <= i < d ==> h.arena@[i] == sl[i],
                forall|i: int| d <= i < d + j ==> !(#[trigger] h.arena@[i]).live@,
                keys_of(h.arena@) == keys_of(sl),
                h.trees == lhs.trees,
                h.len == lhs.len,
                h.bound == lhs.bound,
            decreases rlen - j,
        {
            let ghost sprev = h.arena@;
            let mut n = rhs.arena[j];
            n.live = Ghost(false);
            h.arena.push(n);
            proof {
                lemma_keys_push(sprev, n);
            }
            j = j + 1;
        }
        let total = h.arena.len();
        proof {
            assert(total == d + sr.len());
        }
        let mut j: usize = 0;
        while j < rlen
            invariant
                j <= rlen,
                rlen == sr.len(),
                rhs.arena@ == sr,
                rhs.trees == rhs_trees0,
                d == sl.len(),
                total == d + sr.len() <= usize::MAX,
                h.arena@.len() == total,
                forall|i: int| 0 <= i < d ==> h.arena@[i] == sl[i],
                forall|i: int| 0 <= i < j ==> node_shifted(sr[i], #[trigger] h.arena@[d + i], d),
                forall|i: int| j <= i < rlen ==> !(#[trigger] h.arena@[d + i]).live@,
                keys_of(h.arena@) == keys_of(sl).add(keys_of(sr.subrange(0, j as int))),
                h.trees == lhs.trees,
                h.len == lhs.len,
                h.bound == lhs.bound,
            decreases rlen - j,
        {
            let ghost sprev = h.arena@;
            let n = rhs.arena[j];
            let shifted = Node {
                key: n.key,
                mark: n.mark,
                degree: n.degree,
                live: n.live,
                rank: n.rank,
                parent: match n.parent {
                    None => None,
                    Some(p) => Some(p.wrapping_add(d)),
                },
                left: n.left.wrapping_add(d),
                right: n.right.wrapping_add(d),
                children: IntrusiveList {
                    root: match n.children.root {
                        None => None,
                        Some(c) => Some(c.wrapping_add(d)),
                    },
                    order: Ghost(shift_ord(n.children.order@, d)),
                },
            };
            let idx = d + j;
            h.arena[idx] = shifted;
            proof {
                assert(node_shifted(sr[j as int], shifted, d));
                assert(!sprev[idx as int].live@);
                lemma_keys_update_dead(sprev, idx as int, shifted);
                assert(sr.subrange(0, j + 1).drop_last() =~= sr.subrange(0, j as int));
                assert(sr.subrange(0, j + 1).last() == sr[j as int]);
                if shifted.live@ {
                    let ka = keys_of(sl);
                    let kb = keys_of(sr.subrange(0, j as int));
                    assert(ka.add(kb).insert(shifted.key) =~= ka.add(kb.insert(shifted.key)));
                }
            }
            j = j + 1;
        }
        proof {
            assert(sr.subrange(0, sr.len() as int) =~= sr);
            assert(keys_of(h.arena@) == keys_of(sl).add(keys_of(sr)));
        }
        let ghost comb = h.arena@;
        // decide the new reference element before splicing, as the smaller
        // of the two reference keys.
        let ghost a = h.trees.order@;
        let ghost b0 = rhs.trees.order@;
        proof {
            lemma_contains_bounds(lhs.trees, sl);
            lemma_contains_bounds(rhs.trees, sr);
            assert(lhs.trees.wf(comb)) by {
                assert forall|x: usize| #[trigger] lhs.trees.contains(x) implies (x as int)
                    < comb.len() && comb[x as int] == sl[x as int] by {}
                lemma_wf_frame(lhs.trees, sl, comb);
            }
        }
        let rtrees = IntrusiveList {
            root: match rhs.trees.root {
                None => None,
                Some(rr) => Some(rr.wrapping_add(d)),
            },
            order: Ghost(shift_ord(rhs.trees.order@, d)),
        };
        proof {
            lemma_ring_shift(rhs.trees, rtrees, sr, comb, d);
            assert forall|x: usize| #[trigger] h.trees.order@.contains(x) implies
                !rtrees.order@.contains(x) by {
                assert(lhs.trees.contains(x));
                assert((x as int) < d);
                assert(!rtrees.contains(x));
            }
            assert(h.trees.disjoint(rtrees));
        }
        let new_min: Option<usize> = match (h.trees.root, rhs.trees.root) {
            (Some(lr), Some(rr)) => {
                proof {
                    assert(lhs.trees.wf(sl) && rhs.trees.wf(sr));
                    assert(a.len() > 0 && a[0] == lr);
                    assert(b0.len() > 0 && b0[0] == rr);
                    assert(lhs.trees.contains(lr)) by {
                        assert(a.contains(a[0]));
                    }
                    assert(rhs.trees.contains(rr)) by {
                        assert(b0.contains(b0[0]));
                    }
                    assert((rr as int) + d < total);
                }
                let rrs = rr + d;
                if h.arena[lr].key <= h.arena[rrs].key {
                    Some(lr)
                } else {
                    Some(rrs)
                }
            },
            (Some(lr), None) => Some(lr),
            (None, Some(rr)) => {
                proof {
                    assert(rhs.trees.wf(sr));
                    assert(b0.len() > 0 && b0[0] == rr);
                    assert(rhs.trees.contains(rr)) by {
                        assert(b0.contains(b0[0]));
                    }
                    assert((rr as int) + d < total);
                }
                Some(rr + d)
            },
            (None, None) => None,
        };
        h.trees.merge(&mut h.arena, rtrees);
        if let Some(m) = new_min {
            proof {
                lemma_merged_contains(a, rtrees.order@);
                assert(lhs.trees.wf(sl) && rhs.trees.wf(sr));
                assert((m as int) >= d ==> rhs_trees0.root is Some) by {
                    if rhs_trees0.root is None {
                        assert(lhs.trees.root is Some);
                        assert(lhs.trees.contains(m)) by {
                            assert(a.len() > 0 && a[0] == m);
                            assert(a.contains(a[0]));
                        }
                    }
                }
                assert(h.trees.contains(m)) by {
                    if (m as int) < d {
                        assert(lhs.trees.root == Some(m)) by {
                            if rhs_trees0.root is Some {
                                assert((b0[0].wrapping_add(d) as int) >= d) by {
                                    assert(ring_node_ok(sr, b0, 0));
                                }
                            }
                        }
                        assert(a.len() > 0 && a[0] == m);
                        assert(a.contains(a[0]));
                    } else {
                        assert(b0.len() > 0);
                        assert(rtrees.contains(m)) by {
                            assert(rtrees.order@[0] == b0[0].wrapping_add(d));
                            assert(ring_node_ok(sr, b0, 0));
                            assert(rtrees.order@[0] == m) by {
                                assert(lhs.trees.root is Some ==> (a[0] as int) < d) by {
                                    if lhs.trees.root is Some {
                                        assert(a.contains(a[0]));
                                        assert(lhs.trees.contains(a[0]));
                                    }
                                }
                            }
                            assert(rtrees.order@.contains(rtrees.order@[0]));
                        }
                    }
                }
            }
            h.trees.set_root::<Node>(m);
        }
        proof {
            h.bound@ = if lhs.bound@ > rhs.bound@ {
                lhs.bound@
            } else {
                rhs.bound@
            };
        }
        let hlen = h.len;
        let rhslen = rhs.len;
        proof {
            lemma_keys_le_len(sl);
            lemma_keys_le_len(sr);
            broadcast use vstd::multiset::group_multiset_properties;

            assert(keys_of(sl).add(keys_of(sr)).len() == keys_of(sl).len() + keys_of(sr).len());
            assert(hlen + rhslen <= total);
        }
        let mut h = h;
        h.len = hlen + rhslen;
        proof {
            let sf = h.arena@;
            lemma_links_only_fields(comb, sf);
            lemma_keys_same_fields(comb, sf);
            lemma_merged_contains(a, rtrees.order@);
            // membership of the combined ring, by side.
            assert forall|x: usize| #[trigger] h.trees.contains(x) <==> lhs.trees.contains(x) || (
            d <= x as int && rhs.trees.contains(((x as int) - d) as usize)) by {
                assert(merged_order(a, rtrees.order@).contains(x) <==> a.contains(x)
                    || rtrees.order@.contains(x));
                assert(rtrees.contains(x) <==> d <= x as int && rhs_trees0.contains(
                    ((x as int) - d) as usize,
                ));
            }
            // child rings sit outside both root rings, so the splice left
            // their slots alone.
            assert forall|i: int| live(sf, i) implies (#[trigger] sf[i].children).wf(sf) by {
                assert(live(comb, i));
                assert(comb[i].children.wf(comb)) by {
                    if i < d {
                        assert(live(sl, i));
                        assert(sl[i].children.wf(sl));
                        assert forall|x: usize| #[trigger] sl[i].children.contains(x) implies (x
                            as int) < comb.len() && comb[x as int] == sl[x as int] by {
                            lemma_contains_bounds(sl[i].children, sl);
                        }
                        lemma_wf_frame(sl[i].children, sl, comb);
                        assert(comb[i].children == sl[i].children);
                    } else {
                        let i0 = i - d;
                        assert(node_shifted(sr[i0], comb[d + i0], d));
                        assert(comb[d + i0] == comb[i]);
                        assert(live(sr, i0));
                        assert(sr[i0].children.wf(sr));
                        lemma_ring_shift(sr[i0].children, comb[i].children, sr, comb, d);
                    }
                }
                assert forall|x: usize| #[trigger] comb[i].children.contains(x) implies (x as int)
                    < sf.len() && sf[x as int] == comb[x as int] by {
                    lemma_contains_bounds(comb[i].children, comb);
                    assert(comb[x as int].parent is Some) by {
                        if i < d {
                            assert(comb[x as int] == sl[x as int]);
                            assert(sl[i].children.contains(x));
                            assert(sl[x as int].parent == Some(i as usize));
                        } else {
                            let i0 = i - d;
                            assert(node_shifted(sr[i0], comb[d + i0], d));
                            assert(comb[d + i0] == comb[i]);
                            assert(comb[i].children.contains(x));
                            let x0 = ((x as int) - d) as usize;
                            assert(sr[i0].children.contains(x0) && (x as int) >= d) by {
                                let kk = choose|kk: int|
                                    0 <= kk < comb[i].children.order@.len() && comb[
                                    i
                                ].children.order@[kk] == x;
                                assert(comb[i].children.order@[kk] == sr[i0].children.order@[
                                kk
                                ].wrapping_add(d));
                                assert(sr[i0].children.order@.contains(sr[i0].children.order@[kk]));
                                assert(ring_node_ok(sr, sr[i0].children.order@, kk));
                            }
                            assert(sr[x0 as int].parent == Some(i0 as usize));
                            assert(node_shifted(sr[x0 as int], comb[d + (x0 as int)], d));
                            assert(comb[d + (x0 as int)] == comb[x as int]);
                        }
                    }
                    assert(!lhs.trees.contains(x)) by {
                        if lhs.trees.contains(x) {
                            assert(sl[x as int].parent is None);
                            assert(comb[x as int] == sl[x as int]);
                        }
                    }
                    assert(!rtrees.contains(x)) by {
                        if rtrees.contains(x) {
                            let x0 = ((x as int) - d) as usize;
                            assert(rhs.trees.contains(x0));
                            assert(sr[x0 as int].parent is None);
                            assert(node_shifted(sr[x0 as int], comb[d + (x0 as int)], d));
                            assert(comb[d + (x0 as int)] == comb[x as int]);
                        }
                    }
                }
                lemma_wf_frame(comb[i].children, comb, sf);
            }
            assert forall|j2: usize| #[trigger] h.trees.contains(j2) implies live(sf, j2 as int)
                && sf[j2 as int].parent is None by {
                if (j2 as int) < d {
                    assert(lhs.trees.contains(j2));
                    assert(live(sl, j2 as int));
                    assert(comb[j2 as int] == sl[j2 as int]);
                } else {
                    let j0 = ((j2 as int) - d) as usize;
                    assert(rhs.trees.contains(j0));
                    assert(live(sr, j0 as int));
                    assert(node_shifted(sr[j0 as int], comb[d + (j0 as int)], d));
                    assert(comb[d + (j0 as int)] == comb[j2 as int]);
                }
            }
            assert forall|i: int| live(sf, i) implies (#[trigger] sf[i].degree) == sf[
                i
            ].children.order@.len() by {
                assert(live(comb, i));
                if i < d {
                    assert(live(sl, i));
                    assert(comb[i] == sl[i]);
                } else {
                    let i0 = i - d;
                    assert(node_shifted(sr[i0], comb[d + i0], d));
                    assert(comb[d + i0] == comb[i]);
                    assert(live(sr, i0));
                    assert(comb[i].children.order@.len() == sr[i0].children.order@.len());
                }
            }
            assert forall|i: int, j2: usize|
                live(sf, i) && (#[trigger] sf[i].children.contains(j2)) implies live(sf, j2
                as int) && sf[j2 as int].parent == Some(i as usize) && sf[j2 as int].rank@ < sf[
                i
            ].rank@ && sf[i].key <= sf[j2 as int].key by {
                assert(live(comb, i));
                assert(comb[i].children.contains(j2));
                if i < d {
                    assert(comb[i] == sl[i]);
                    assert(live(sl, i));
                    assert(sl[i].children.contains(j2));
                    assert(live(sl, j2 as int));
                    assert(comb[j2 as int] == sl[j2 as int]);
                    assert(sf[j2 as int].key == comb[j2 as int].key && sf[j2 as int].parent
                        == comb[j2 as int].parent && sf[j2 as int].rank == comb[j2 as int].rank
                        && sf[j2 as int].live == comb[j2 as int].live);
                } else {
                    let i0 = i - d;
                    assert(node_shifted(sr[i0], comb[d + i0], d));
                    assert(comb[d + i0] == comb[i]);
                    assert(live(sr, i0));
                    let j0 = ((j2 as int) - d) as usize;
                    assert(sr[i0].children.contains(j0 as usize) && (j2 as int) >= d) by {
                        let kk = choose|kk: int|
                            0 <= kk < comb[i].children.order@.len() && comb[i].children.order@[kk]
                                == j2;
                        assert(comb[i].children.order@[kk] == sr[i0].children.order@[
                        kk
                        ].wrapping_add(d));
                        assert(sr[i0].children.order@.contains(sr[i0].children.order@[kk]));
                        assert(ring_node_ok(sr, sr[i0].children.order@, kk));
                    }
                    assert(live(sr, j0 as int));
                    assert(sr[j0 as int].parent == Some(i0 as usize));
                    assert(node_shifted(sr[j0 as int], comb[d + (j0 as int)], d));
                    assert(comb[d + (j0 as int)] == comb[j2 as int]);
                    assert(sf[j2 as int].key == comb[j2 as int].key && sf[j2 as int].parent
                        == comb[j2 as int].parent && sf[j2 as int].rank == comb[j2 as int].rank
                        && sf[j2 as int].live == comb[j2 as int].live);
                }
            }
            assert forall|i: int| live(sf, i) implies (#[trigger] sf[i].rank@) < h.bound@ by {
                assert(live(comb, i));
                if i < d {
                    assert(comb[i] == sl[i]);
                    assert(live(sl, i));
                    assert(sl[i].rank@ < lhs.bound@);
                } else {
                    let i0 = i - d;
                    assert(node_shifted(sr[i0], comb[d + i0], d));
                    assert(comb[d + i0] == comb[i]);
                    assert(live(sr, i0));
                    assert(sr[i0].rank@ < rhs.bound@);
                }
            }
            assert forall|i: int|
                live(sf, i) && !Set::<usize>::empty().contains(i as usize) implies
                #[trigger] h.placed(i) by {
                assert((i as usize) as int == i) by {
                    assert(i < sf.len());
                    assert(sf.len() <= usize::MAX);
                }
                assert(live(comb, i));
                assert(sf[i].parent == comb[i].parent);
                if i < d {
                    assert(comb[i] == sl[i]);
                    assert(live(sl, i));
                    assert(lhs.placed(i));
                    match sl[i].parent {
                        None => {
                            assert(lhs.trees.contains(i as usize));
                            assert(h.trees.contains(i as usize));
                        },
                        Some(pp) => {
                            assert(live(sl, pp as int));
                            assert(comb[pp as int] == sl[pp as int]);
                            assert(live(sf, pp as int));
                            assert(sf[pp as int].children == sl[pp as int].children);
                        },
                    }
                } else {
                    let i0 = i - d;
                    assert(node_shifted(sr[i0], comb[d + i0], d));
                    assert(comb[d + i0] == comb[i]);
                    assert(live(sr, i0));
                    assert(rhs.placed(i0));
                    match sr[i0].parent {
                        None => {
                            assert(rhs.trees.contains(i0 as usize));
                            assert(comb[i].parent is None);
                            assert(rtrees.contains(((i0 + d) as usize))) by {
                                let kk = choose|kk: int|
                                    0 <= kk < b0.len() && b0[kk] == i0 as usize;
                                assert(rtrees.order@[kk] == b0[kk].wrapping_add(d));
                                assert(rtrees.order@.contains(rtrees.order@[kk]));
                            }
                            assert(h.trees.contains(i as usize));
                        },
                        Some(pp) => {
                            assert(live(sr, pp as int));
                            assert(comb[i].parent == Some(pp.wrapping_add(d)));
                            let pps = pp.wrapping_add(d);
                            assert(pps as int == pp + d);
                            assert(node_shifted(sr[pp as int], comb[d + (pp as int)], d));
                            assert(comb[d + (pp as int)] == comb[pps as int]);
                            assert(live(sf, pps as int));
                            assert(sf[pps as int].children == comb[pps as int].children);
                            assert(sr[pp as int].children.contains(i0 as usize));
                            assert(comb[pps as int].children.contains(i as usize)) by {
                                let kk = choose|kk: int|
                                    0 <= kk < sr[pp as int].children.order@.len() && sr[pp
                                    as int].children.order@[kk] == i0 as usize;
                                assert(comb[pps as int].children.order@[kk] == sr[pp
                                as int].children.order@[kk].wrapping_add(d));
                                assert(comb[pps as int].children.order@.contains(comb[pps
                                as int].children.order@[kk]));
                            }
                        },
                    }
                }
            }
            // minimality of the chosen reference element.
            assert forall|j2: usize| #[trigger] h.trees.contains(j2) implies sf[h.trees.order@[0]
                as int].key <= sf[j2 as int].key by {
                let m = h.trees.order@[0];
                assert(h.trees.contains(m)) by {
                    assert(h.trees.order@.contains(h.trees.order@[0]));
                }
                let mkey = sf[m as int].key;
                assert forall|x: usize| #[trigger] h.trees.contains(x) implies sf[x as int].key
                    == (if (x as int) < d {
                    sl[x as int].key
                } else {
                    sr[(x as int) - d].key
                }) by {
                    if (x as int) < d {
                        assert(comb[x as int] == sl[x as int]);
                    } else {
                        assert(node_shifted(sr[(x as int) - d], comb[d + ((x as int) - d)], d));
                        assert(comb[d + ((x as int) - d)] == comb[x as int]);
                    }
                }
                match new_min {
                    None => {
                        assert(a.len() == 0 && b0.len() == 0);
                        assert(!h.trees.contains(j2));
                    },
                    Some(mm) => {
                        assert(m == mm);
                        if (j2 as int) < d {
                            assert(lhs.trees.contains(j2));
                            assert(a.len() > 0);
                            assert(lhs.trees.contains(a[0])) by {
                                assert(a.contains(a[0]));
                            }
                            assert(sl[a[0] as int].key <= sl[j2 as int].key);
                            assert(sf[m as int].key <= sf[a[0] as int].key) by {
                                if (m as int) < d {
                                    assert(h.trees.contains(a[0]));
                                } else {
                                }
                            }
                        } else {
                            let j0 = ((j2 as int) - d) as usize;
                            assert(rhs.trees.contains(j0));
                            assert(b0.len() > 0);
                            assert(rhs.trees.contains(b0[0])) by {
                                assert(b0.contains(b0[0]));
                            }
                            assert(sr[b0[0] as int].key <= sr[j0 as int].key);
                            assert(h.trees.contains((b0[0] + d) as usize)) by {
                                assert(rtrees.contains((b0[0] + d) as usize)) by {
                                    assert(rtrees.order@[0] == b0[0].wrapping_add(d));
                                    assert(rtrees.order@.contains(rtrees.order@[0]));
                                }
                            }
                            assert(sf[m as int].key <= sf[(b0[0] + d) as int].key);
                        }
                    },
                }
            }
            assert(h.wf_except(Set::empty()));
            assert(h.min_ok());
            assert(h.len == keys_of(sf).len());
            assert(h.wf());
            assert(h@ == lhs@.add(rhs@));
        }
        h
    }

    /// Extracts the root ring's reference element, leaving it a live,
    /// parentless, self-linked singleton outside every ring.
    fn take_root(&mut self, exempt: Ghost<Set<usize>>) -> (res: Option<usize>)
        requires
            old(self).wf_except(exempt@),
            forall|x: usize| #[trigger] exempt@.contains(x) ==> !old(self).trees.contains(x),
        ensures
            res is None ==> final(self).trees == old(self).trees && final(self).arena@ == old(
                self,
            ).arena@ && final(self).len == old(self).len && final(self).bound == old(self).bound
                && old(self).trees.order@.len() == 0 && final(self).wf_except(exempt@),
            res matches Some(r) ==> {
                &&& old(self).trees.order@.len() > 0
                &&& r == old(self).trees.order@[0]
                &&& (r as int) < final(self).arena@.len()
                &&& final(self).wf_except(exempt@.insert(r))
                &&& live(final(self).arena@, r as int)
                &&& final(self).arena@[r as int].parent is None
                &&& final(self).arena@[r as int].left == r
                &&& final(self).arena@[r as int].right == r
                &&& !final(self).trees.contains(r)
                &&& final(self).arena@.len() == old(self).arena@.len()
                &&& keys_of(final(self).arena@) == keys_of(old(self).arena@)
                &&& final(self).len == old(self).len
                &&& final(self).bound == old(self).bound
                &&& same_fields(old(self).arena@, final(self).arena@)
                &&& final(self).trees.order@.len() == old(self).trees.order@.len() - 1
                &&& (forall|x: usize|
                    #[trigger] final(self).trees.contains(x) <==> old(self).trees.contains(x) && x
                        != r)
                &&& (forall|x: usize|
                    (x as int) < old(self).arena@.len() && !old(self).trees.contains(x) ==> final(self).arena@[x as int] == old(self).arena@[x as int])
            },
    {
        let ghost s0 = self.arena@;
        let ghost a = self.trees.order@;
        #[allow(unused_variables)]
        let alen = self.arena.len();
        let res = self.trees.extract_root(&mut self.arena);
        let r = match res {
            None => {
                proof {
                    assert forall|i: int|
                        live(self.arena@, i) && !exempt@.contains(i as usize) implies
                        #[trigger] self.placed(i) by {
                        assert(live(old(self).arena@, i));
                        assert(old(self).placed(i));
                    }
                    assert(self.wf_except(exempt@));
                }
                return None;
            },
            Some(r) => r,
        };
        proof {
            let s2 = self.arena@;
            lemma_links_only_fields(s0, s2);
            lemma_keys_same_fields(s0, s2);
            lemma_extracted_contains(a);
            assert(a.contains(r));
            assert(old(self).trees.contains(r));
            assert(live(s0, r as int));
            assert forall|x: usize| #[trigger] self.trees.contains(x) <==> old(self).trees.contains(x) && x != r by {}
            assert(!self.trees.contains(r));
            lemma_contains_bounds(old(self).trees, s0);
            assert forall|j: usize| #[trigger] self.trees.contains(j) implies live(s2, j as int)
                && s2[j as int].parent is None by {
                assert(old(self).trees.contains(j));
                assert(live(s0, j as int));
            }
            assert forall|i: int| live(s2, i) implies (#[trigger] s2[i].children).wf(s2) by {
                assert(live(s0, i));
                assert(s0[i].children.wf(s0));
                assert forall|x: usize| #[trigger] s0[i].children.contains(x) implies (x as int)
                    < s2.len() && s2[x as int] == s0[x as int] by {
                    lemma_contains_bounds(s0[i].children, s0);
                    assert(s0[x as int].parent == Some(i as usize));
                    assert(!old(self).trees.contains(x));
                }
                lemma_wf_frame(s0[i].children, s0, s2);
            }
            assert forall|i: int| live(s2, i) implies (#[trigger] s2[i].degree) == s2[
                i
            ].children.order@.len() by {
                assert(live(s0, i));
            }
            assert forall|i: int, j: usize|
                live(s2, i) && (#[trigger] s2[i].children.contains(j)) implies live(s2, j as int)
                && s2[j as int].parent == Some(i as usize) && s2[j as int].rank@ < s2[i].rank@
                && s2[i].key <= s2[j as int].key by {
                assert(live(s0, i));
                assert(s2[i].children == s0[i].children);
                assert(s0[i].children.contains(j));
                assert(live(s0, j as int));
            }
            assert forall|i: int| live(s2, i) implies (#[trigger] s2[i].rank@) < self.bound@ by {
                assert(live(s0, i));
            }
            assert forall|i: int|
                live(s2, i) && !exempt@.insert(r).contains(i as usize) implies #[trigger] self.placed(
                i,
            ) by {
                assert(i < alen as int);
                assert((i as usize) as int == i);
                assert(i != r);
                assert(live(s0, i));
                assert(!exempt@.contains(i as usize));
                assert(old(self).placed(i));
                assert(s2[i].parent == s0[i].parent);
                match s0[i].parent {
                    None => {
                        assert(old(self).trees.contains(i as usize));
                        assert(self.trees.contains(i as usize));
                    },
                    Some(pp) => {
                        assert(live(s0, pp as int));
                        assert(live(s2, pp as int));
                        assert(s2[pp as int].children == s0[pp as int].children);
                    },
                }
            }
            assert(self.wf_except(exempt@.insert(r)));
        }
        Some(r)
    }

    /// Drains the root ring, repeatedly linking trees of equal degree until
    /// every degree is distinct, then rebuilds the root ring with the usual
    /// minimum tracking.  The degree table grows on demand, so no fixed
    /// bound can overflow.
    fn consolidate(&mut self)
        requires
            old(self).wf_except(Set::empty()),
        ensures
            final(self).wf_except(Set::empty()),
            final(self).min_ok(),
            final(self).arena@.len() == old(self).arena@.len(),
            keys_of(final(self).arena@) == keys_of(old(self).arena@),
            final(self).len == old(self).len,
    {
        let ghost s0 = self.arena@;
        let mut uniques: Vec<Option<usize>> = Vec::new();
        proof {
            assert(table_set(uniques@) =~= Set::<usize>::empty());
        }
        loop
            invariant
                self.wf_except(table_set(uniques@)),
                table_ok(*self, uniques@),
                table_distinct(uniques@),
                self.arena@.len() == s0.len(),
                keys_of(self.arena@) == keys_of(s0),
                self.len == old(self).len,
            ensures
                self.wf_except(table_set(uniques@)),
                table_ok(*self, uniques@),
                table_distinct(uniques@),
                self.arena@.len() == s0.len(),
                keys_of(self.arena@) == keys_of(s0),
                self.len == old(self).len,
                self.trees.order@.len() == 0,
            decreases self.trees.order@.len(),
        {
            proof {
                assert forall|x: usize| #[trigger] table_set(uniques@).contains(x) implies
                    !self.trees.contains(x) by {
                    let dd = choose|dd: int| 0 <= dd < uniques@.len() && uniques@[dd] == Some(x);
                }
            }
            let mut node = match self.take_root(Ghost(table_set(uniques@))) {
                None => {
                    break ;
                },
                Some(n) => n,
            };
            let mut degree = self.arena[node].degree;
            let ghost trees_len = self.trees.order@.len();
            loop
                invariant
                    self.wf_except(table_set(uniques@).insert(node)),
                    table_ok(*self, uniques@),
                    table_distinct(uniques@),
                    !table_set(uniques@).contains(node),
                    (node as int) < self.arena@.len(),
                    live(self.arena@, node as int),
                    self.arena@[node as int].parent is None,
                    self.arena@[node as int].left == node,
                    self.arena@[node as int].right == node,
                    !self.trees.contains(node),
                    degree == self.arena@[node as int].degree,
                    self.arena@.len() == s0.len(),
                    keys_of(self.arena@) == keys_of(s0),
                    self.len == old(self).len,
                    self.trees.order@.len() == trees_len,
                ensures
                    self.wf_except(table_set(uniques@).insert(node)),
                    table_ok(*self, uniques@),
                    table_distinct(uniques@),
                    !table_set(uniques@).contains(node),
                    (node as int) < self.arena@.len(),
                    live(self.arena@, node as int),
                    self.arena@[node as int].parent is None,
                    self.arena@[node as int].left == node,
                    self.arena@[node as int].right == node,
                    !self.trees.contains(node),
                    degree == self.arena@[node as int].degree,
                    self.arena@.len() == s0.len(),
                    keys_of(self.arena@) == keys_of(s0),
                    self.len == old(self).len,
                    self.trees.order@.len() == trees_len,
                    (degree as int) < uniques@.len(),
                    uniques@[degree as int] is None,
                decreases table_count(uniques@),
            {
                let ghost tg = uniques@;
                while uniques.len() <= degree
                    invariant
                        table_ok(*self, uniques@),
                        table_distinct(uniques@),
                        table_set(uniques@) == table_set(tg),
                        table_count(uniques@) == table_count(tg),
                    decreases degree + 1 - uniques.len(),
                {
                    let ghost tb = uniques@;
                    uniques.push(None);
                    proof {
                        lemma_table_count_push(tb);
                        assert forall|d: int|
                            0 <= d < uniques@.len() && (#[trigger] uniques@[d]) is Some implies d
                            < tb.len() && uniques@[d] == tb[d] by {}
                        assert(table_set(uniques@) =~= table_set(tb)) by {
                            assert forall|x: usize| #[trigger] table_set(uniques@).contains(
                                x,
                            ) implies table_set(tb).contains(x) by {
                                let d = choose|d: int|
                                    0 <= d < uniques@.len() && uniques@[d] == Some(x);
                                assert(tb[d] == Some(x));
                            }
                            assert forall|x: usize| #[trigger] table_set(tb).contains(x) implies
                                table_set(uniques@).contains(x) by {
                                let d = choose|d: int| 0 <= d < tb.len() && tb[d] == Some(x);
                                assert(uniques@[d] == Some(x));
                            }
                        }
                    }
                }
                let other = match uniques[degree] {
                    None => {
                        break ;
                    },
                    Some(o) => o,
                };
                let ghost t1 = uniques@;
                uniques[degree] = None;
                proof {
                    lemma_table_count_clear(t1, degree as int);
                    assert(t1[degree as int] == Some(other));
                    assert(table_set(t1).contains(other));
                    assert(table_set(uniques@) =~= table_set(t1).remove(other)) by {
                        assert forall|x: usize| #[trigger] table_set(uniques@).contains(x) implies
                            table_set(t1).remove(other).contains(x) by {
                            let d = choose|d: int|
                                0 <= d < uniques@.len() && uniques@[d] == Some(x);
                            assert(d != degree);
                            assert(t1[d] == Some(x));
                            assert(x != other) by {
                                if x == other {
                                    assert(t1[d] is Some && t1[degree as int] is Some);
                                    assert(t1[d] != t1[degree as int]);
                                }
                            }
                        }
                        assert forall|x: usize| #[trigger] table_set(t1).remove(other).contains(
                            x,
                        ) implies table_set(uniques@).contains(x) by {
                            let d = choose|d: int| 0 <= d < t1.len() && t1[d] == Some(x);
                            assert(d != degree);
                            assert(uniques@[d] == Some(x));
                        }
                    }
                    assert(other != node);
                    assert(live(self.arena@, other as int));
                }
                let (upper, lower) = if self.arena[node].key > self.arena[other].key {
                    (other, node)
                } else {
                    (node, other)
                };
                let ghost hpre = *self;
                proof {
                    assert(table_set(t1).insert(node) =~= table_set(uniques@).insert(
                        upper,
                    ).insert(lower));
                    assert(self.wf_except(table_set(uniques@).insert(upper).insert(lower)));
                    assert(!table_set(uniques@).insert(upper).contains(lower));
                }
                self.link(upper, lower, Ghost(table_set(uniques@).insert(upper)));
                proof {
                    assert forall|d: int|
                        0 <= d < uniques@.len() implies ((#[trigger] uniques@[d]) matches Some(x)
                            ==> live(self.arena@, x as int) && self.arena@[x as int].parent is None
                            && self.arena@[x as int].left == x && self.arena@[x as int].right == x
                            && !self.trees.contains(x) && self.arena@[x as int].degree == d) by {
                        if uniques@[d] is Some {
                            let x = uniques@[d].unwrap();
                            assert(table_set(uniques@).contains(x));
                            assert(x != lower);
                            assert(x != upper);
                            assert(live(hpre.arena@, x as int));
                            assert(hpre.arena@[x as int].parent is None);
                            // x was parentless, so not a child of the old upper
                            assert(!hpre.arena@[upper as int].children.contains(x)) by {
                                if hpre.arena@[upper as int].children.contains(x) {
                                    assert(hpre.arena@[x as int].parent == Some(upper));
                                }
                            }
                            assert(self.arena@[x as int] == hpre.arena@[x as int]);
                            assert(self.trees == hpre.trees);
                        }
                    }
                }
                node = upper;
                proof {
                    assert(self.arena@[upper as int].degree == degree + 1);
                }
                degree = degree + 1;
            }
            let ghost t2 = uniques@;
            uniques[degree] = Some(node);
            proof {
                assert(t2[degree as int] is None);
                assert(table_set(uniques@) =~= table_set(t2).insert(node)) by {
                    assert forall|x: usize| #[trigger] table_set(uniques@).contains(x) implies
                        table_set(t2).insert(node).contains(x) by {
                        let d = choose|d: int| 0 <= d < uniques@.len() && uniques@[d] == Some(x);
                        if d != degree {
                            assert(t2[d] == Some(x));
                        }
                    }
                    assert forall|x: usize| #[trigger] table_set(t2).insert(node).contains(
                        x,
                    ) implies table_set(uniques@).contains(x) by {
                        if x == node {
                            assert(uniques@[degree as int] == Some(node));
                        } else {
                            let d = choose|d: int| 0 <= d < t2.len() && t2[d] == Some(x);
                            assert(d != degree);
                            assert(uniques@[d] == Some(x));
                        }
                    }
                }
                assert(table_ok(*self, uniques@)) by {
                    assert forall|d: int|
                        0 <= d < uniques@.len() implies ((#[trigger] uniques@[d]) matches Some(x)
                            ==> live(self.arena@, x as int) && self.arena@[x as int].parent is None
                            && self.arena@[x as int].left == x && self.arena@[x as int].right == x
                            && !self.trees.contains(x) && self.arena@[x as int].degree == d) by {
                        if d != degree && uniques@[d] is Some {
                            assert(t2[d] == uniques@[d]);
                        }
                    }
                }
                assert(table_distinct(uniques@)) by {
                    assert forall|d1: int, d2: int|
                        0 <= d1 < uniques@.len() && 0 <= d2 < uniques@.len() && d1 != d2 && (
                        #[trigger] uniques@[d1]) is Some && (#[trigger] uniques@[d2]) is Some
                        implies uniques@[d1] != uniques@[d2] by {
                        if d1 != degree && d2 != degree {
                            assert(t2[d1] == uniques@[d1] && t2[d2] == uniques@[d2]);
                        } else {
                            let dx: int = if d1 == degree {
                                d2
                            } else {
                                d1
                            };
                            let x = uniques@[dx].unwrap();
                            assert(t2[dx] == Some(x));
                            assert(table_set(t2).contains(x));
                            assert(x != node);
                        }
                    }
                }
            }
        }
        // the ring is drained: rebuild it from the table, tracking the
        // minimum as each tree is reinserted.
        proof {
            assert(self.trees.order@.len() == 0);
            assert(self.min_ok()) by {
                assert forall|j: usize| #[trigger] self.trees.contains(j) implies self.arena@[
                    self.trees.order@[0] as int
                ].key <= self.arena@[j as int].key by {}
            }
        }
        let mut d: usize = 0;
        while d < uniques.len()
            invariant
                d <= uniques@.len(),
                self.wf_except(table_set(uniques@)),
                self.min_ok(),
                table_ok(*self, uniques@),
                table_distinct(uniques@),
                forall|dd: int| 0 <= dd < d ==> (#[trigger] uniques@[dd]) is None,
                self.arena@.len() == s0.len(),
                keys_of(self.arena@) == keys_of(s0),
                self.len == old(self).len,
            decreases uniques@.len() - d,
        {
            match uniques[d] {
                None => {},
                Some(x) => {
                    let ghost t1 = uniques@;
                    uniques[d] = None;
                    proof {
                        assert(t1[d as int] == Some(x));
                        assert(table_set(t1).contains(x));
                        assert(table_set(uniques@) =~= table_set(t1).remove(x)) by {
                            assert forall|y: usize| #[trigger] table_set(uniques@).contains(
                                y,
                            ) implies table_set(t1).remove(x).contains(y) by {
                                let dd = choose|dd: int|
                                    0 <= dd < uniques@.len() && uniques@[dd] == Some(y);
                                assert(dd != d);
                                assert(t1[dd] == Some(y));
                                assert(y != x) by {
                                    if y == x {
                                        assert(t1[dd] is Some && t1[d as int] is Some);
                                        assert(t1[dd] != t1[d as int]);
                                    }
                                }
                            }
                            assert forall|y: usize| #[trigger] table_set(t1).remove(x).contains(
                                y,
                            ) implies table_set(uniques@).contains(y) by {
                                let dd = choose|dd: int| 0 <= dd < t1.len() && t1[dd] == Some(y);
                                assert(dd != d);
                                assert(uniques@[dd] == Some(y));
                            }
                        }
                        assert(table_set(t1) =~= table_set(uniques@).insert(x));
                        assert(self.wf_except(table_set(uniques@).insert(x)));
                    }
                    let ghost smid = self.arena@;
                    let ghost trees_mid = self.trees;
                    self.insert_node(x, Ghost(table_set(uniques@)));
                    proof {
                        lemma_keys_same_fields(smid, self.arena@);
                        assert(table_ok(*self, uniques@)) by {
                            assert forall|dd: int|
                                0 <= dd < uniques@.len() implies ((#[trigger] uniques@[
                                dd
                            ]) matches Some(y) ==> live(self.arena@, y as int) && self.arena@[y
                                as int].parent is None && self.arena@[y as int].left == y
                                && self.arena@[y as int].right == y && !self.trees.contains(
                                y,
                            ) && self.arena@[y as int].degree == dd) by {
                                if uniques@[dd] is Some {
                                    let y = uniques@[dd].unwrap();
                                    assert(table_set(uniques@).contains(y));
                                    assert(y != x);
                                    assert(!trees_mid.contains(y));
                                    assert(self.arena@[y as int] == smid[y as int]);
                                }
                            }
                        }
                    }
                },
            }
            d = d + 1;
        }
        proof {
            assert(table_set(uniques@) =~= Set::<usize>::empty()) by {
                assert forall|x: usize| !(#[trigger] table_set(uniques@).contains(x)) by {
                    if table_set(uniques@).contains(x) {
                        let dd = choose|dd: int|
                            0 <= dd < uniques@.len() && uniques@[dd] == Some(x);
                        assert(uniques@[dd] is None);
                    }
                }
            }
            assert(self.wf_except(Set::empty()));
        }
    }
}

impl Default for FibHeap {
    fn default() -> (heap: FibHeap)
        ensures
            heap.wf(),
            heap@ == Multiset::<i32>::empty(),
    {
        FibHeap::new()
    }
}

/// Whether a key sequence is non-decreasing.
pub open spec fn non_decreasing(s: Seq<i32>) -> bool {
    forall|i: int, j: int| 0 <= i <= j < s.len() ==> #[trigger] s[i] <= #[trigger] s[j]
}

/// The sequence that repeatedly extracting the least key produces from a
/// multiset.  `pop_min` is specified to return `min_of` of the current
/// value and to remove it, so a heap holding `m` drains to exactly
/// `drain(m)`.
pub open spec fn drain(m: Multiset<i32>) -> Seq<i32>
    decreases m.len(),
    when m.len() >= 0
    via drain_decreases
{
    if m.len() == 0 {
        Seq::empty()
    } else {
        seq![min_of(m)] + drain(m.remove(min_of(m)))
    }
}

#[via_fn]
proof fn drain_decreases(m: Multiset<i32>) {
    if m.len() > 0 {
        lemma_min_of(m);
        lemma_remove_contained_len(m, min_of(m));
    }
}

/// Removing a present key shrinks a multiset by exactly one.
proof fn lemma_remove_contained_len(m: Multiset<i32>, k: i32)
    requires
        m.contains(k),
    ensures
        m.remove(k).len() == m.len() - 1,
{
    assert(m.remove(k).insert(k) =~= m);
}

/// Law: for any multiset of keys, draining it least-first yields a
/// non-decreasing sequence that is a permutation of the multiset.  Together
/// with the contracts of `insert` and `pop_min`, this is the minimum-order
/// property: whatever order keys enter a heap, repeated `pop_min` returns
/// them as a sorted rearrangement of that multiset.
pub proof fn lemma_min_order(m: Multiset<i32>)
    ensures
        non_decreasing(drain(m)),
        drain(m).to_multiset() == m,
        drain(m).len() == m.len(),
    decreases m.len(),
{
    broadcast use vstd::seq_lib::group_to_multiset_ensures;

    if m.len() == 0 {
        assert(drain(m).to_multiset() =~= m);
    } else {
        let k = min_of(m);
        lemma_min_of(m);
        lemma_remove_contained_len(m, k);
        let rest = m.remove(k);
        lemma_min_order(rest);
        let dr = drain(rest);
        let d = drain(m);
        assert(d == seq![k] + dr);
        assert(d[0] == k);
        assert(d.remove(0) =~= dr);
        assert(d.remove(0).to_multiset() =~= d.to_multiset().remove(d[0]));
        assert(d.contains(k));
        assert(d.to_multiset().count(k) > 0);
        assert(d.to_multiset() =~= m) by {
            assert(d.to_multiset().remove(k) == rest);
            assert(d.to_multiset().remove(k).insert(k) =~= d.to_multiset());
            assert(rest.insert(k) =~= m);
        }
        assert(non_decreasing(d)) by {
            assert forall|i: int, j: int| 0 <= i <= j < d.len() implies #[trigger] d[i]
                <= #[trigger] d[j] by {
                if i == 0 && j > 0 {
                    assert(d[j] == dr[j - 1]);
                    assert(dr.contains(dr[j - 1]));
                    assert(dr.to_multiset().count(dr[j - 1]) > 0);
                    assert(rest.count(dr[j - 1]) > 0);
                    assert(m.count(dr[j - 1]) > 0) by {
                        assert(rest.insert(k) =~= m);
                    }
                } else if i > 0 {
                    assert(d[i] == dr[i - 1] && d[j] == dr[j - 1]);
                }
            }
        }
    }
}

/// Law: count conservation.  Each insertion grows the key multiset by
/// exactly one, and draining a heap least-first yields exactly as many keys
/// as the multiset holds, after which the drain is empty.  With the
/// contracts of `insert` and `pop_min`, a heap fed N keys answers exactly N
/// extractions before reporting empty.
pub proof fn lemma_count_conservation(m: Multiset<i32>, k: i32)
    ensures
        m.insert(k).len() == m.len() + 1,
        drain(m).len() == m.len(),
        m.len() == 0 ==> drain(m) == Seq::<i32>::empty(),
{
    lemma_min_order(m);
}

/// Law: a non-decreasing arrangement of a multiset is unique.  Hence the
/// drain of a merged heap, which is sorted and carries the sum of the two
/// multisets, is exactly the non-decreasing interleaving of the two heaps'
/// own drains.
pub proof fn lemma_sorted_permutation_unique(s1: Seq<i32>, s2: Seq<i32>)
    requires
        non_decreasing(s1),
        non_decreasing(s2),
        s1.to_multiset() == s2.to_multiset(),
    ensures
        s1 == s2,
    decreases s1.len(),
{
    broadcast use vstd::seq_lib::group_to_multiset_ensures;

    if s1.len() == 0 {
        assert(s2.to_multiset().len() == 0);
        assert(s1 =~= s2);
    } else {
        assert(s1.len() == s1.to_multiset().len());
        assert(s2.len() == s2.to_multiset().len());
        assert(s2.len() == s1.len());
        assert(s1[0] == s2[0]) by {
            assert(s1.contains(s1[0]) && s2.contains(s2[0]));
            assert(s2.to_multiset().count(s1[0]) > 0);
            assert(s2.contains(s1[0]));
            assert(s1.to_multiset().count(s2[0]) > 0);
            assert(s1.contains(s2[0]));
            let i1 = choose|i: int| 0 <= i < s1.len() && s1[i] == s2[0];
            let i2 = choose|i: int| 0 <= i < s2.len() && s2[i] == s1[0];
            assert(s1[0] <= s1[i1] && s2[0] <= s2[i2]);
        }
        let t1 = s1.remove(0);
        let t2 = s2.remove(0);
        assert(t1.to_multiset() == t2.to_multiset()) by {
            assert(t1.to_multiset() =~= s1.to_multiset().remove(s1[0]));
            assert(t2.to_multiset() =~= s2.to_multiset().remove(s2[0]));
        }
        assert(non_decreasing(t1) && non_decreasing(t2)) by {
            assert(forall|i: int| 0 <= i < t1.len() ==> #[trigger] t1[i] == s1[i + 1]);
            assert(forall|i: int| 0 <= i < t2.len() ==> #[trigger] t2[i] == s2[i + 1]);
        }
        lemma_sorted_permutation_unique(t1, t2);
        assert forall|i: int| 0 <= i < s1.len() implies s1[i] == s2[i] by {
            if i > 0 {
                assert(t1[i - 1] == s1[i]);
                assert(t2[i - 1] == s2[i]);
            }
        }
        assert(s1 =~= s2);
    }
}

/// Law: merging conserves count and order.  The drain of the union is
/// sorted, its length is the sum of the two lengths, and its multiset is
/// the sum of the two multisets, so by uniqueness it is the non-decreasing
/// interleaving of the two separate drains.
pub proof fn lemma_merge_drain(a: Multiset<i32>, b: Multiset<i32>)
    ensures
        non_decreasing(drain(a.add(b))),
        drain(a.add(b)).to_multiset() == drain(a).to_multiset().add(drain(b).to_multiset()),
        drain(a.add(b)).len() == drain(a).len() + drain(b).len(),
{
    lemma_min_order(a);
    lemma_min_order(b);
    lemma_min_order(a.add(b));
}

/// The member set of a ring.
spec fn ring_set(l: IntrusiveList) -> Set<usize> {
    Set::new(|x: usize| l.order@.contains(x))
}

/// The set of node handles parked in the consolidation table.
spec fn table_set(t: Seq<Option<usize>>) -> Set<usize> {
    Set::new(|x: usize| exists|d: int| 0 <= d < t.len() && t[d] == Some(x))
}

/// Every parked node is a live, parentless, self-linked singleton outside
/// the root ring.
spec fn table_ok(h: FibHeap, t: Seq<Option<usize>>) -> bool {
    forall|d: int|
        0 <= d < t.len() ==> ((#[trigger] t[d]) matches Some(x) ==> live(h.arena@, x as int)
            && h.arena@[x as int].parent is None && h.arena@[x as int].left == x && h.arena@[x
            as int].right == x && !h.trees.contains(x) && h.arena@[x as int].degree == d)
}

/// The number of occupied slots in the consolidation table.
spec fn table_count(t: Seq<Option<usize>>) -> nat
    decreases t.len(),
{
    if t.len() == 0 {
        0
    } else {
        table_count(t.drop_last()) + (if t.last() is Some {
            1nat
        } else {
            0nat
        })
    }
}

/// Clearing an occupied slot lowers the occupied count.
proof fn lemma_table_count_clear(t: Seq<Option<usize>>, d: int)
    requires
        0 <= d < t.len(),
        t[d] is Some,
    ensures
        table_count(t.update(d, None)) < table_count(t),
    decreases t.len(),
{
    let t2 = t.update(d, None);
    if d == t.len() - 1 {
        assert(t2.drop_last() =~= t.drop_last());
    } else {
        lemma_table_count_clear(t.drop_last(), d);
        assert(t2.drop_last() =~= t.drop_last().update(d, None));
        assert(t2.last() == t.last());
    }
}

/// Appending an empty slot keeps the occupied count.
proof fn lemma_table_count_push(t: Seq<Option<usize>>)
    ensures
        table_count(t.push(None)) == table_count(t),
{
    assert(t.push(None).drop_last() =~= t);
}

/// No node is parked in two table slots.
spec fn table_distinct(t: Seq<Option<usize>>) -> bool {
    forall|d1: int, d2: int|
        0 <= d1 < t.len() && 0 <= d2 < t.len() && d1 != d2 && (#[trigger] t[d1]) is Some && (
        #[trigger] t[d2]) is Some ==> t[d1] != t[d2]
}

/// Setting a live slot to a dead node removes its key from the multiset.
proof fn lemma_keys_kill(s: Seq<Node>, i: int, n: Node)
    requires
        live(s, i),
        !n.live@,
    ensures
        keys_of(s.update(i, n)) == keys_of(s).remove(s[i].key),
    decreases s.len(),
{
    let s2 = s.update(i, n);
    if i == s.len() - 1 {
        assert(s2.drop_last() =~= s.drop_last());
        assert(keys_of(s2) == keys_of(s.drop_last()));
        assert(keys_of(s.drop_last()).insert(s[i].key).remove(s[i].key) =~= keys_of(
            s.drop_last(),
        ));
    } else {
        lemma_keys_kill(s.drop_last(), i, n);
        assert(s2.drop_last() =~= s.drop_last().update(i, n));
        assert(s2.last() == s.last());
        lemma_keys_contains(s.drop_last(), i);
        let kd = keys_of(s.drop_last());
        let k = s[i].key;
        if s.last().live@ {
            assert(keys_of(s2) == kd.remove(k).insert(s.last().key));
            assert(kd.remove(k).insert(s.last().key) =~= kd.insert(s.last().key).remove(k));
            assert(keys_of(s) == kd.insert(s.last().key));
        }
    }
}

/// A non-empty keys multiset has a live slot behind it.
proof fn lemma_keys_nonempty_witness(s: Seq<Node>)
    requires
        keys_of(s).len() > 0,
    ensures
        exists|i: int| live(s, i),
    decreases s.len(),
{
    if s.len() > 0 {
        if s.last().live@ {
            assert(live(s, s.len() - 1));
        } else {
            lemma_keys_nonempty_witness(s.drop_last());
            let i = choose|i: int| live(s.drop_last(), i);
            assert(live(s, i));
        }
    }
}

/// Every key in the multiset is carried by some live slot.
proof fn lemma_keys_key_witness(s: Seq<Node>, k: i32)
    requires
        keys_of(s).contains(k),
    ensures
        exists|i: int| live(s, i) && s[i].key == k,
    decreases s.len(),
{
    if s.len() > 0 {
        if s.last().live@ && s.last().key == k {
            assert(live(s, s.len() - 1) && s[s.len() - 1].key == k);
        } else {
            assert(keys_of(s.drop_last()).contains(k));
            lemma_keys_key_witness(s.drop_last(), k);
            let i = choose|i: int| live(s.drop_last(), i) && s.drop_last()[i].key == k;
            assert(live(s, i) && s[i].key == k);
        }
    }
}

/// The least key of a non-empty multiset.
pub open spec fn min_of(m: Multiset<i32>) -> i32
    decreases m.len(),
{
    if m.len() <= 1 {
        m.choose()
    } else {
        let e = m.choose();
        let rest = min_of(m.remove(e));
        if e <= rest {
            e
        } else {
            rest
        }
    }
}

/// `min_of` is a member and a lower bound of a non-empty multiset.
pub proof fn lemma_min_of(m: Multiset<i32>)
    requires
        m.len() > 0,
    ensures
        m.contains(min_of(m)),
        forall|k: i32| #[trigger] m.count(k) > 0 ==> min_of(m) <= k,
    decreases m.len(),
{
    let e = m.choose();
    assert(m.count(e) > 0);
    if m.len() <= 1 {
        assert(min_of(m) == e);
        assert forall|k: i32| #[trigger] m.count(k) > 0 implies min_of(m) <= k by {
            if k != e {
                assert(m.remove(e).len() == 0);
                assert(m.remove(e) =~= Multiset::empty());
                assert(m.remove(e).count(k) == m.count(k));
            }
        }
    } else {
        lemma_min_of(m.remove(e));
        let rest = min_of(m.remove(e));
        assert(m.remove(e).count(rest) > 0);
        assert(m.count(rest) > 0);
        assert forall|k: i32| #[trigger] m.count(k) > 0 implies min_of(m) <= k by {
            if k != e {
                assert(m.remove(e).count(k) == m.count(k));
                assert(rest <= k);
            }
        }
    }
}

/// Distinct in-bounds indices, all avoiding one excluded in-bounds index,
/// number strictly fewer than the bound.
proof fn lemma_distinct_indices_bound(ord: Seq<usize>, n: int, excl: usize)
    requires
        ord.no_duplicates(),
        forall|k: int| 0 <= k < ord.len() ==> (#[trigger] ord[k] as int) < n,
        forall|k: int| 0 <= k < ord.len() ==> (#[trigger] ord[k]) != excl,
        (excl as int) < n,
    ensures
        ord.len() < n,
{
    let ints: Seq<int> = ord.map_values(|x: usize| x as int);
    assert(ints.len() == ord.len());
    assert(forall|k: int| 0 <= k < ord.len() ==> ints[k] == (#[trigger] ord[k] as int));
    assert(ints.no_duplicates()) by {
        assert forall|k1: int, k2: int|
            0 <= k1 < ints.len() && 0 <= k2 < ints.len() && k1 != k2 implies ints[k1]
            != ints[k2] by {
            assert(ord[k1] != ord[k2]);
        }
    }
    ints.unique_seq_to_set();
    let range = vstd::set_lib::set_int_range(0, n).remove(excl as int);
    assert(ints.to_set().subset_of(range)) by {
        assert forall|x: int| ints.to_set().contains(x) implies range.contains(x) by {
            let k = choose|k: int| 0 <= k < ints.len() && ints[k] == x;
            assert(ord[k] != excl);
        }
    }
    vstd::set_lib::lemma_int_range(0, n);
    let full = vstd::set_lib::set_int_range(0, n);
    assert(full.contains(excl as int));
    vstd::set::axiom_set_remove_len(full, excl as int);
    assert(range.len() == n - 1);
    vstd::set_lib::lemma_len_subset(ints.to_set(), range);
}

/// The keys multiset never exceeds the arena's length.
proof fn lemma_keys_le_len(s: Seq<Node>)
    ensures
        keys_of(s).len() <= s.len(),
    decreases s.len(),
{
    if s.len() > 0 {
        lemma_keys_le_len(s.drop_last());
    }
}

/// Appending a slot adds its key to the multiset exactly when it is live.
proof fn lemma_keys_push(s: Seq<Node>, n: Node)
    ensures
        keys_of(s.push(n)) == (if n.live@ {
            keys_of(s).insert(n.key)
        } else {
            keys_of(s)
        }),
{
    assert(s.push(n).drop_last() =~= s);
    assert(s.push(n).last() == n);
}

/// A live slot's key occurs in the multiset.
proof fn lemma_keys_contains(s: Seq<Node>, i: int)
    requires
        live(s, i),
    ensures
        keys_of(s).contains(s[i].key),
        keys_of(s).len() > 0,
    decreases s.len(),
{
    if i == s.len() - 1 {
    } else {
        lemma_keys_contains(s.drop_last(), i);
    }
}

/// Two arenas agreeing on keys and liveness hold the same keys multiset.
proof fn lemma_keys_same_fields(s1: Seq<Node>, s2: Seq<Node>)
    requires
        s2.len() == s1.len(),
        forall|i: int|
            0 <= i < s1.len() ==> (#[trigger] s2[i]).key == s1[i].key && s2[i].live == s1[i].live,
    ensures
        keys_of(s2) == keys_of(s1),
    decreases s1.len(),
{
    if s1.len() > 0 {
        assert(forall|i: int|
            0 <= i < s1.len() - 1 ==> (#[trigger] s2.drop_last()[i]) == s2[i] && s1.drop_last()[i]
                == s1[i]);
        lemma_keys_same_fields(s1.drop_last(), s2.drop_last());
    }
}

/// Rewriting a dead slot adds the new key exactly when the new node is
/// live.
proof fn lemma_keys_update_dead(s: Seq<Node>, i: int, n: Node)
    requires
        0 <= i < s.len(),
        !s[i].live@,
    ensures
        keys_of(s.update(i, n)) == (if n.live@ {
            keys_of(s).insert(n.key)
        } else {
            keys_of(s)
        }),
    decreases s.len(),
{
    let s2 = s.update(i, n);
    if i == s.len() - 1 {
        assert(s2.drop_last() =~= s.drop_last());
    } else {
        lemma_keys_update_dead(s.drop_last(), i, n);
        assert(s2.drop_last() =~= s.drop_last().update(i, n));
        assert(s2.last() == s.last());
        if s.last().live@ && n.live@ {
            let kd = keys_of(s.drop_last());
            assert(keys_of(s2) == kd.insert(n.key).insert(s.last().key));
            assert(kd.insert(n.key).insert(s.last().key) =~= kd.insert(s.last().key).insert(
                n.key,
            ));
        }
    }
}

/// A ring order relocated by `d` arena slots.
spec fn shift_ord(o: Seq<usize>, d: usize) -> Seq<usize> {
    o.map_values(|x: usize| x.wrapping_add(d))
}

/// `m` is `n` relocated by `d` arena slots: every handle field moved, all
/// else equal.
spec fn node_shifted(n: Node, m: Node, d: usize) -> bool {
    &&& m.key == n.key
    &&& m.live == n.live
    &&& m.rank == n.rank
    &&& m.degree == n.degree
    &&& m.mark == n.mark
    &&& m.left == n.left.wrapping_add(d)
    &&& m.right == n.right.wrapping_add(d)
    &&& m.parent == (match n.parent {
        None => None::<usize>,
        Some(p) => Some(p.wrapping_add(d)),
    })
    &&& m.children.root == (match n.children.root {
        None => None::<usize>,
        Some(c) => Some(c.wrapping_add(d)),
    })
    &&& m.children.order@ == shift_ord(n.children.order@, d)
}

/// A well-formed ring stays well formed when its members are relocated as a
/// block to the tail of a larger arena.
proof fn lemma_ring_shift(l: IntrusiveList, l2: IntrusiveList, sr: Seq<Node>, comb: Seq<Node>, d: usize)
    requires
        l.wf(sr),
        comb.len() == d + sr.len(),
        comb.len() <= usize::MAX,
        forall|i: int| 0 <= i < sr.len() ==> node_shifted(sr[i], #[trigger] comb[d + i], d),
        l2.order@ == shift_ord(l.order@, d),
        l2.root == (match l.root {
            None => None::<usize>,
            Some(r) => Some(r.wrapping_add(d)),
        }),
    ensures
        l2.wf(comb),
        forall|x: usize|
            #[trigger] l2.contains(x) <==> d <= x as int && l.contains(((x as int) - d) as usize),
{
    let o = l.order@;
    let o2 = l2.order@;
    assert(o2.len() == o.len());
    assert forall|k: int| 0 <= k < o.len() implies (#[trigger] o[k] as int) < sr.len() by {
        assert(ring_node_ok(sr, o, k));
    }
    assert forall|k: int| 0 <= k < o.len() implies (#[trigger] o2[k] as int) == o[k] + d by {}
    if l.root is Some {
        assert(o2[0] as int == o[0] + d);
    }
    assert(o2.no_duplicates()) by {
        assert forall|k1: int, k2: int|
            0 <= k1 < o2.len() && 0 <= k2 < o2.len() && k1 != k2 implies o2[k1] != o2[k2] by {
            assert(o[k1] != o[k2]);
        }
    }
    assert forall|k: int| 0 <= k < o2.len() implies #[trigger] ring_node_ok(comb, o2, k) by {
        assert(ring_node_ok(sr, o, k));
        let x = o[k] as int;
        assert(node_shifted(sr[x], comb[d + x], d));
        assert(nxt(o, k) as int + d == nxt(o2, k) as int) by {
            if k + 1 == o.len() {
                assert(nxt(o2, k) == o2[0]);
            }
        }
        assert(prv(o, k) as int + d == prv(o2, k) as int);
        assert((nxt(o, k) as int) < sr.len() && (prv(o, k) as int) < sr.len()) by {
            if k + 1 == o.len() {
                assert((o[0] as int) < sr.len());
            }
        }
        assert(comb[d + x].right_link() == sr[x].right.wrapping_add(d));
        assert(comb[d + x].left_link() == sr[x].left.wrapping_add(d));
    }
    assert forall|x: usize|
        #[trigger] l2.contains(x) <==> d <= x as int && l.contains(((x as int) - d) as usize) by {
        if l2.contains(x) {
            let k = choose|k: int| 0 <= k < o2.len() && o2[k] == x;
            assert(o[k] as int == x - d);
            assert(o.contains(o[k]));
        }
        if d <= x as int && l.contains(((x as int) - d) as usize) {
            let k = choose|k: int| 0 <= k < o.len() && o[k] == ((x as int) - d) as usize;
            assert(o2[k] == x);
            assert(o2.contains(x));
        }
    }
}

/// In a well-formed heap the reference element of the root ring carries a
/// key no greater than any live node's: walking up the parent chain only
/// decreases keys, and the chain ends in the root ring, whose reference
/// element is minimal there.
proof fn lemma_root_is_min(h: FibHeap, x: int)
    requires
        h.wf_except(Set::empty()),
        h.min_ok(),
        live(h.arena@, x),
    ensures
        h.trees.order@.len() > 0,
        h.arena@[h.trees.order@[0] as int].key <= h.arena@[x].key,
    decreases h.bound@ - h.arena@[x].rank@,
{
    let s = h.arena@;
    assert((x as usize) as int == x);
    assert(h.placed(x));
    match s[x].parent {
        None => {
            assert(h.trees.contains(x as usize));
            assert(h.trees.order@.len() > 0) by {
                assert(h.trees.order@.contains(x as usize));
            }
            assert(s[h.trees.order@[0] as int].key <= s[(x as usize) as int].key);
        },
        Some(p) => {
            assert(live(s, p as int));
            assert(s[p as int].children.contains(x as usize));
            assert(s[x].rank@ < s[p as int].rank@);
            assert(s[p as int].key <= s[x].key);
            lemma_root_is_min(h, p as int);
        },
    }
}

/// A links-only arena change preserves every non-link field.
proof fn lemma_links_only_fields(s1: Seq<Node>, s2: Seq<Node>)
    requires
        links_only(s1, s2),
    ensures
        same_fields(s1, s2),
{
    assert forall|i: int|
        0 <= i < s1.len() implies (#[trigger] s2[i]).key == s1[i].key && s2[i].live == s1[i].live
        && s2[i].parent == s1[i].parent && s2[i].children == s1[i].children && s2[i].degree
        == s1[i].degree && s2[i].mark == s1[i].mark && s2[i].rank == s1[i].rank by {
        assert(s2[i] == s1[i].relink(s2[i].left_link(), s2[i].right_link()));
    }
}

} // verus!
