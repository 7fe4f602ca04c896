//! Intrusive circular doubly-linked ring over an index arena.
//!
//! Elements live in a caller-owned arena (`Vec<T>`); the ring stores no
//! elements of its own.  Each element carries two link fields, `left` and
//! `right`, holding arena indices of its ring neighbours, and the ring itself
//! holds only the index of its designated reference element.  A ghost
//! sequence records the members in ring order, starting at the reference
//! element; well-formedness ties the link fields to that order, so the ring
//! closure property (`left.right == self`, `right.left == self`, full
//! connectivity) is carried by every operation's contract.

use vstd::prelude::*;

verus! {

use vstd::seq_lib::group_seq_properties;

/// Capability an element type must offer to be ring-storable: two link
/// fields, readable and replaceable, with `relink` as the mathematical
/// description of a replacement.
pub trait IntrusiveListElem: Sized {
    /// Arena index of this element's left neighbour.
    spec fn left_link(self) -> usize;

    /// Arena index of this element's right neighbour.
    spec fn right_link(self) -> usize;

    /// This element with both link fields replaced and all else unchanged.
    spec fn relink(self, left: usize, right: usize) -> Self;

    /// `relink` writes exactly the two link fields: it stores what was
    /// given, writing back the current links is the identity, and a second
    /// relink supersedes a first.
    proof fn relink_laws(self, left: usize, right: usize, left2: usize, right2: usize)
        ensures
            self.relink(left, right).left_link() == left,
            self.relink(left, right).right_link() == right,
            self.relink(self.left_link(), self.right_link()) == self,
            self.relink(left, right).relink(left2, right2) == self.relink(left2, right2),
    ;

    fn left(&self) -> (l: usize)
        ensures
            l == self.left_link(),
    ;

    fn right(&self) -> (r: usize)
        ensures
            r == self.right_link(),
    ;

    fn with_links(&self, left: usize, right: usize) -> (e: Self)
        ensures
            e == self.relink(left, right),
    ;
}

/// Successor of position `k` in the cyclic order `ord`.
pub open spec fn nxt(ord: Seq<usize>, k: int) -> usize {
    if k + 1 == ord.len() {
        ord[0]
    } else {
        ord[k + 1]
    }
}

/// Predecessor of position `k` in the cyclic order `ord`.
pub open spec fn prv(ord: Seq<usize>, k: int) -> usize {
    if k == 0 {
        ord[ord.len() - 1]
    } else {
        ord[k - 1]
    }
}

/// The member at position `k` of `ord` is in bounds and its link fields
/// point at its cyclic neighbours.
pub open spec fn ring_node_ok<T: IntrusiveListElem>(arena: Seq<T>, ord: Seq<usize>, k: int) -> bool {
    &&& (ord[k] as int) < arena.len()
    &&& arena[ord[k] as int].right_link() == nxt(ord, k)
    &&& arena[ord[k] as int].left_link() == prv(ord, k)
}

/// `a2` is `a1` with some link fields rewritten: same length, and every
/// element equals the old one up to its links.
pub open spec fn links_only<T: IntrusiveListElem>(a1: Seq<T>, a2: Seq<T>) -> bool {
    &&& a2.len() == a1.len()
    &&& forall|k: int|
        0 <= k < a1.len() ==> a2[k] == (#[trigger] a1[k]).relink(a2[k].left_link(), a2[k].right_link())
}

/// Ring order after splicing ring `b` into ring `a` next to `a`'s reference
/// element.
pub open spec fn merged_order(a: Seq<usize>, b: Seq<usize>) -> Seq<usize> {
    if a.len() == 0 {
        b
    } else if b.len() == 0 {
        a
    } else {
        seq![a[0]] + b + a.subrange(1, a.len() as int)
    }
}

/// An intrusive circular list: the index of the reference element, plus the
/// ghost ring order (reference element first).
pub struct IntrusiveList {
    pub root: Option<usize>,
    pub order: Ghost<Seq<usize>>,
}

impl Clone for IntrusiveList {
    fn clone(&self) -> (c: Self)
        ensures
            c == *self,
    {
        IntrusiveList { root: self.root, order: self.order }
    }
}

impl Copy for IntrusiveList {

}

impl IntrusiveList {
    /// Well-formedness over an arena: the reference element heads the order,
    /// members are distinct and in bounds, and every member's links close the
    /// ring.
    pub open spec fn wf<T: IntrusiveListElem>(self, arena: Seq<T>) -> bool {
        &&& match self.root {
            None => self.order@.len() == 0,
            Some(r) => self.order@.len() > 0 && self.order@[0] == r,
        }
        &&& self.order@.no_duplicates()
        &&& forall|k: int| 0 <= k < self.order@.len() ==> #[trigger] ring_node_ok(arena, self.order@, k)
    }

    /// Whether `x` is currently a member of this ring.
    pub open spec fn contains(self, x: usize) -> bool {
        self.order@.contains(x)
    }

    /// Two rings with no common member.
    pub open spec fn disjoint(self, other: IntrusiveList) -> bool {
        forall|x: usize| #[trigger] self.order@.contains(x) ==> !other.order@.contains(x)
    }

    /// The empty ring.
    pub fn new() -> (list: IntrusiveList)
        ensures
            list.root is None,
            list.order@ == Seq::<usize>::empty(),
    {
        IntrusiveList { root: None, order: Ghost(Seq::empty()) }
    }

    /// A ring of exactly the element `node`, whose link fields must already
    /// be self-referential.
    pub fn singleton(node: usize) -> (list: IntrusiveList)
        ensures
            list.root == Some(node),
            list.order@ == seq![node],
    {
        let ghost o: Seq<usize> = seq![node];
        IntrusiveList { root: Some(node), order: Ghost(o) }
    }

    /// Splices `node`, a valid singleton not linked into any ring, into this
    /// ring next to the reference element.
    pub fn insert<T: IntrusiveListElem>(&mut self, arena: &mut Vec<T>, node: usize)
        requires
            old(self).wf(old(arena)@),
            (node as int) < old(arena)@.len(),
            old(arena)@[node as int].left_link() == node,
            old(arena)@[node as int].right_link() == node,
            !old(self).contains(node),
        ensures
            final(self).wf(final(arena)@),
            final(self).order@ == merged_order(old(self).order@, seq![node]),
            final(self).root == (if old(self).root is None { Some(node) } else { old(self).root }),
            links_only(old(arena)@, final(arena)@),
            forall|x: usize|
                (x as int) < old(arena)@.len() && !old(self).contains(x) && x != node
                    ==> final(arena)@[x as int] == old(arena)@[x as int],
    {
        let other = IntrusiveList::singleton(node);
        proof {
            assert(ring_node_ok(arena@, seq![node], 0));
            assert(other.wf(arena@));
            assert forall|x: usize| #[trigger] self.order@.contains(x) implies !seq![node].contains(x) by {
                if seq![node].contains(x) {
                    assert(x == node);
                }
            }
        }
        self.merge(arena, other);
        proof {
            assert forall|x: usize|
                (x as int) < old(arena)@.len() && !old(self).contains(x) && x != node implies arena@[x
                as int] == old(arena)@[x as int] by {
                assert(seq![node][0] == node);
                assert(!seq![node].contains(x));
                assert(!other.contains(x));
            }
        }
    }

    /// Splices the entire contents of `other` into this ring in O(1): four
    /// link writes at the two splice points.  The reference element of the
    /// non-empty side (this ring's, if both are non-empty) survives.
    pub fn merge<T: IntrusiveListElem>(&mut self, arena: &mut Vec<T>, other: IntrusiveList)
        requires
            old(self).wf(old(arena)@),
            other.wf(old(arena)@),
            old(self).disjoint(other),
        ensures
            final(self).wf(final(arena)@),
            final(self).order@ == merged_order(old(self).order@, other.order@),
            final(self).root == (if old(self).root is None { other.root } else { old(self).root }),
            links_only(old(arena)@, final(arena)@),
            forall|x: usize|
                (x as int) < old(arena)@.len() && !old(self).contains(x) && !other.contains(x)
                    ==> final(arena)@[x as int] == old(arena)@[x as int],
    {
        let ghost a = self.order@;
        let ghost b = other.order@;
        let ghost ar0 = arena@;
        let (sr, ol) = match (self.root, other.root) {
            (Some(sr), Some(ol)) => (sr, ol),
            (Some(_), None) => {
                proof {
                    lemma_links_only_refl(arena@);
                }
                return ;
            },
            (None, _) => {
                self.root = other.root;
                self.order = other.order;
                proof {
                    lemma_links_only_refl(arena@);
                }
                return ;
            },
        };
        let ghost n = a.len() as int;
        let ghost m = b.len() as int;
        proof {
            assert(ring_node_ok(ar0, a, 0));
            assert(ring_node_ok(ar0, b, 0));
        }
        // self_rightmost = sr (reference element of this ring), its right
        // neighbour sl; other_leftmost = ol (reference element of other),
        // its left neighbour om.
        let sl = arena[sr].right();
        let om = arena[ol].left();
        proof {
            assert(sl == nxt(a, 0));
            assert(om == prv(b, 0));
            if n > 1 {
                assert(ring_node_ok(ar0, a, 1));
            }
            assert(ring_node_ok(ar0, b, m - 1));
        }
        write_right(arena, sr, ol);
        write_left(arena, sl, om);
        write_left(arena, ol, sr);
        write_right(arena, om, sl);
        let ghost no = merged_order(a, b);
        proof {
            self.order@ = no;
        }
        proof {
            let f = arena@;
            broadcast use group_seq_properties;

            assert(no == seq![a[0]] + b + a.subrange(1, n));
            assert(no.len() == n + m);
            // positions: no[0] == a[0]; no[j] == b[j-1] for 1 <= j <= m;
            // no[j] == a[j-m] for m < j < n + m.
            assert forall|j: int| 0 <= j < n implies no[if j == 0 { 0int } else { j + m }] == a[j] by {
                if j > 0 {
                    assert(no[j + m] == a.subrange(1, n)[j - 1]);
                }
            }
            assert forall|j: int| 0 <= j < m implies no[j + 1] == b[j] by {}
            // membership carries over, so distinctness and disjointness do.
            assert forall|x: usize| no.contains(x) implies a.contains(x) || b.contains(x) by {
                let j = choose|j: int| 0 <= j < no.len() && no[j] == x;
                if j == 0 {
                    assert(a[0] == x);
                } else if j <= m {
                    assert(b[j - 1] == x);
                } else {
                    assert(a[j - m] == x);
                }
            }
            assert(no.no_duplicates()) by {
                assert forall|k1: int, k2: int|
                    0 <= k1 < no.len() && 0 <= k2 < no.len() && k1 != k2 implies no[k1] != no[k2] by {
                    let x1 = no[k1];
                    let x2 = no[k2];
                    if x1 == x2 {
                        if k1 == 0 || k1 > m {
                            let j1: int = if k1 == 0 { 0 } else { k1 - m };
                            assert(a[j1] == x1);
                            assert(a.contains(x1));
                            if k2 == 0 || k2 > m {
                                let j2: int = if k2 == 0 { 0 } else { k2 - m };
                                assert(a[j2] == x2);
                                assert(j1 != j2);
                            } else {
                                assert(b[k2 - 1] == x2);
                                assert(b.contains(x2));
                            }
                        } else {
                            assert(b[k1 - 1] == x1);
                            assert(b.contains(x1));
                            if k2 == 0 || k2 > m {
                                let j2: int = if k2 == 0 { 0 } else { k2 - m };
                                assert(a[j2] == x2);
                                assert(a.contains(x2));
                            } else {
                                assert(b[k2 - 1] == x2);
                            }
                        }
                    }
                }
            }
            // the four touched slots are the two splice points on each side.
            let sri = a[0] as int;
            let sli = nxt(a, 0) as int;
            let oli = b[0] as int;
            let omi = prv(b, 0) as int;
            assert(a.contains(a[0]));
            assert(b.contains(b[0]));
            if n > 1 {
                assert(a[1] == nxt(a, 0));
                assert(a.contains(nxt(a, 0)));
            }
            assert(b[m - 1] == prv(b, 0));
            assert(b.contains(prv(b, 0)));
            assert(f.len() == ar0.len());
            relink_facts(ar0[sri]);
            relink_facts(ar0[sli]);
            relink_facts(ar0[oli]);
            relink_facts(ar0[omi]);
            // final links of the four touched slots, covering the singleton
            // coincidences (reference == its own neighbour).
            assert(f[sri].right_link() == ol);
            assert(n > 1 ==> f[sri].left_link() == prv(a, 0));
            assert(f[sli].left_link() == om);
            assert(n > 1 ==> f[sli].right_link() == nxt(a, 1));
            assert(f[oli].left_link() == sr);
            assert(m > 1 ==> f[oli].right_link() == nxt(b, 0));
            assert(f[omi].right_link() == sl);
            assert(m > 1 ==> f[omi].left_link() == prv(b, m - 1));
            assert forall|x: int|
                0 <= x < ar0.len() && x != sri && x != sli && x != oli && x != omi implies f[x]
                == ar0[x] by {}
            // each member of the new order has closing links.
            assert forall|k: int| 0 <= k < no.len() implies #[trigger] ring_node_ok(f, no, k) by {
                if k == 0 {
                    // a[0]: right went to b[0]; left is a[n-1] when n > 1
                    // (untouched), else b[m-1] (rewritten).
                    assert(nxt(no, 0) == b[0]);
                    assert(prv(no, 0) == (if n > 1 { a[n - 1] } else { b[m - 1] }));
                    if n > 1 {
                        assert(ring_node_ok(ar0, a, 0));
                        assert(f[sri].right_link() == b[0]);
                        assert(f[sri].left_link() == prv(a, 0));
                    } else {
                        assert(f[sri].left_link() == om);
                    }
                } else if k == 1 {
                    // b[0]: left went to a[0]; right is b[1] when m > 1
                    // (untouched), else a[1] == nxt(a, 0) (rewritten).
                    assert(no[1] == b[0]);
                    assert(prv(no, 1) == a[0]);
                    if m > 1 {
                        assert(ring_node_ok(ar0, b, 0));
                        assert(nxt(no, 1) == b[1]);
                        assert(f[oli].right_link() == nxt(b, 0));
                        assert(f[oli].left_link() == a[0]);
                    } else {
                        assert(nxt(no, 1) == (if n > 1 { a[1] } else { a[0] }));
                        assert(f[oli].right_link() == sl);
                        assert(f[oli].left_link() == a[0]);
                    }
                } else if k < m {
                    // interior of b: untouched, same neighbours as before.
                    assert(no[k] == b[k - 1]);
                    assert(ring_node_ok(ar0, b, k - 1));
                    let x = b[k - 1] as int;
                    assert(b.contains(b[k - 1]));
                    assert(x != sri && x != oli && x != omi);
                    if n > 1 {
                        assert(x != sli);
                    }
                    assert(f[x] == ar0[x]);
                    assert(nxt(no, k) == b[k]);
                    assert(prv(no, k) == b[k - 2]);
                } else if k == m {
                    // b[m-1]: right went to nxt(a, 0); left is b[m-2] when
                    // m > 1, else a[0] (rewritten, since then b[m-1] == b[0]).
                    assert(no[k] == b[m - 1]);
                    assert(nxt(no, k) == (if n > 1 { a[1] } else { a[0] }));
                    assert(f[omi].right_link() == sl);
                    if m > 1 {
                        assert(prv(no, k) == b[m - 2]);
                        assert(ring_node_ok(ar0, b, m - 1));
                        assert(f[omi].left_link() == prv(b, m - 1));
                    } else {
                        assert(prv(no, k) == a[0]);
                        assert(f[omi].left_link() == a[0]);
                    }
                } else if k == m + 1 {
                    // a[1] (n > 1 here): left went to b[m-1]; right untouched.
                    assert(no[k] == a[1]);
                    assert(ring_node_ok(ar0, a, 1));
                    assert(prv(no, k) == b[m - 1]);
                    assert(nxt(no, k) == (if n == 2 { a[0] } else { a[2] }));
                    assert(f[sli].left_link() == om);
                    assert(f[sli].right_link() == nxt(a, 1));
                } else {
                    // interior of a: untouched, same neighbours as before.
                    assert(no[k] == a[k - m]);
                    assert(ring_node_ok(ar0, a, k - m));
                    let x = a[k - m] as int;
                    assert(a.contains(a[k - m]));
                    assert(x != sri && x != sli && x != oli && x != omi);
                    assert(f[x] == ar0[x]);
                    assert(nxt(no, k) == (if k + 1 == n + m { a[0] } else { a[k - m + 1] }));
                    assert(prv(no, k) == a[k - m - 1]);
                }
            }
            assert(self.wf(f));
            // only link fields changed, and only at the four splice slots.
            assert forall|k: int| 0 <= k < ar0.len() implies f[k] == (#[trigger] ar0[k]).relink(
                f[k].left_link(),
                f[k].right_link(),
            ) by {
                relink_facts(ar0[k]);
            }
        }
    }

    /// Overrides which current member is the reference element; the ghost
    /// order rotates to start there, so the links and the membership are
    /// untouched.
    pub fn set_root<T: IntrusiveListElem>(&mut self, node: usize)
        requires
            old(self).contains(node),
        ensures
            final(self).root == Some(node),
            final(self).order@.len() == old(self).order@.len(),
            final(self).order@[0] == node,
            forall|x: usize| final(self).contains(x) <==> old(self).contains(x),
            forall|arena: Seq<T>|
                #[trigger] old(self).wf(arena) ==> final(self).wf(arena),
    {
        let ghost ord = self.order@;
        let ghost len = ord.len() as int;
        let ghost i = choose|i: int| 0 <= i < len && ord[i] == node;
        let ghost no = ord.subrange(i, len) + ord.subrange(0, i);
        self.root = Some(node);
        proof {
            self.order@ = no;
            assert(no.len() == len);
            assert forall|j: int| 0 <= j < len implies no[j] == ord[
                if j < len - i {
                    j + i
                } else {
                    j - (len - i)
                }
            ] by {}
            assert(no[0] == node);
            assert forall|x: usize| no.contains(x) <==> ord.contains(x) by {
                if no.contains(x) {
                    let j = choose|j: int| 0 <= j < len && no[j] == x;
                    if j < len - i {
                        assert(ord[j + i] == x);
                    } else {
                        assert(ord[j - (len - i)] == x);
                    }
                }
                if ord.contains(x) {
                    let j = choose|j: int| 0 <= j < len && ord[j] == x;
                    if j >= i {
                        assert(no[j - i] == x);
                    } else {
                        assert(no[j + (len - i)] == x);
                    }
                }
            }
            assert forall|arena: Seq<T>| #[trigger] old(self).wf(arena) implies self.wf(arena) by {
                assert(no.no_duplicates()) by {
                    assert forall|k1: int, k2: int|
                        0 <= k1 < len && 0 <= k2 < len && k1 != k2 implies no[k1] != no[k2] by {
                        let j1: int = if k1 < len - i {
                            k1 + i
                        } else {
                            k1 - (len - i)
                        };
                        let j2: int = if k2 < len - i {
                            k2 + i
                        } else {
                            k2 - (len - i)
                        };
                        assert(no[k1] == ord[j1] && no[k2] == ord[j2] && j1 != j2);
                    }
                }
                assert forall|k: int| 0 <= k < len implies #[trigger] ring_node_ok(arena, no, k) by {
                    let j: int = if k < len - i {
                        k + i
                    } else {
                        k - (len - i)
                    };
                    assert(ring_node_ok(arena, ord, j));
                    assert(no[k] == ord[j]);
                    assert(nxt(no, k) == nxt(ord, j)) by {
                        if k + 1 == len {
                            if i == 0 {
                                assert(nxt(no, k) == no[0]);
                            }
                        }
                    }
                    assert(prv(no, k) == prv(ord, j));
                }
            }
        }
    }

    /// Read-only view of the reference element, if any.
    pub fn root<'a, T: IntrusiveListElem>(&self, arena: &'a Vec<T>) -> (res: Option<&'a T>)
        requires
            self.wf(arena@),
        ensures
            res is Some <==> self.root is Some,
            res matches Some(e) ==> self.root matches Some(r) && *e == arena@[r as int],
    {
        match self.root {
            None => None,
            Some(r) => {
                proof {
                    assert(ring_node_ok(arena@, self.order@, 0));
                }
                Some(&arena[r])
            },
        }
    }

    /// Removes the reference element from the ring and hands its index back.
    /// Its neighbours are spliced together, its own links are reset to a
    /// fresh singleton, and the former left neighbour becomes the new
    /// reference element.
    pub fn extract_root<T: IntrusiveListElem>(&mut self, arena: &mut Vec<T>) -> (res: Option<usize>)
        requires
            old(self).wf(old(arena)@),
        ensures
            old(self).order@.len() == 0 ==> res is None && *final(self) == *old(self)
                && final(arena)@ == old(arena)@,
            old(self).order@.len() > 0 ==> {
                let r = old(self).order@[0];
                &&& res == Some(r)
                &&& final(self).order@ == extracted_order(old(self).order@)
                &&& final(self).root == (if old(self).order@.len() == 1 {
                    None::<usize>
                } else {
                    Some(old(self).order@[old(self).order@.len() - 1])
                })
                &&& final(self).wf(final(arena)@)
                &&& !final(self).contains(r)
                &&& links_only(old(arena)@, final(arena)@)
                &&& final(arena)@[r as int].left_link() == r
                &&& final(arena)@[r as int].right_link() == r
                &&& forall|x: usize|
                    (x as int) < old(arena)@.len() && !old(self).contains(x)
                        ==> final(arena)@[x as int] == old(arena)@[x as int]
            },
    {
        let ghost ord = self.order@;
        let ghost len = ord.len() as int;
        let ghost ar0 = arena@;
        let r = match self.root {
            None => {
                return None;
            },
            Some(r) => r,
        };
        proof {
            assert(ring_node_ok(ar0, ord, 0));
        }
        let leftmost = arena[r].left();
        let rightmost = arena[r].right();
        proof {
            assert(leftmost == prv(ord, 0) && rightmost == nxt(ord, 0));
            if len > 1 {
                assert(ring_node_ok(ar0, ord, len - 1));
                assert(ring_node_ok(ar0, ord, 1));
            }
        }
        if leftmost != r {
            proof {
                assert(len > 1) by {
                    if len == 1 {
                        assert(prv(ord, 0) == ord[0]);
                    }
                }
            }
            write_right(arena, leftmost, rightmost);
            write_left(arena, rightmost, leftmost);
            write_links(arena, r, r, r);
            self.root = Some(leftmost);
            let ghost no = extracted_order(ord);
            proof {
                self.order@ = no;
                let f = arena@;
                assert(no == seq![ord[len - 1]] + ord.subrange(1, len - 1));
                assert(no.len() == len - 1);
                assert forall|j: int| 1 <= j < len - 1 implies no[j] == ord[j] by {
                    assert(no[j] == ord.subrange(1, len - 1)[j - 1]);
                }
                assert(no[0] == ord[len - 1]);
                assert forall|x: usize| no.contains(x) implies ord.contains(x) && x != ord[0] by {
                    let j = choose|j: int| 0 <= j < no.len() && no[j] == x;
                    if j == 0 {
                        assert(ord[len - 1] == x);
                    } else {
                        assert(ord[j] == x);
                    }
                }
                assert(no.no_duplicates()) by {
                    assert forall|k1: int, k2: int|
                        0 <= k1 < len - 1 && 0 <= k2 < len - 1 && k1 != k2 implies no[k1] != no[k2] by {
                        let j1: int = if k1 == 0 {
                            len - 1
                        } else {
                            k1
                        };
                        let j2: int = if k2 == 0 {
                            len - 1
                        } else {
                            k2
                        };
                        assert(no[k1] == ord[j1] && no[k2] == ord[j2] && j1 != j2);
                    }
                }
                let ri = ord[0] as int;
                let li = ord[len - 1] as int;
                let mi = ord[1] as int;
                assert(ord.contains(ord[0]) && ord.contains(ord[len - 1]) && ord.contains(ord[1]));
                relink_facts(ar0[ri]);
                relink_facts(ar0[li]);
                relink_facts(ar0[mi]);
                assert(f[li].right_link() == rightmost);
                assert(len > 2 ==> f[li].left_link() == prv(ord, len - 1));
                assert(f[mi].left_link() == leftmost);
                assert(len > 2 ==> f[mi].right_link() == nxt(ord, 1));
                assert(f[ri].left_link() == r && f[ri].right_link() == r);
                assert forall|x: int|
                    0 <= x < ar0.len() && x != ri && x != li && x != mi implies f[x] == ar0[x] by {}
                assert forall|k: int| 0 <= k < no.len() implies #[trigger] ring_node_ok(f, no, k) by {
                    if k == 0 {
                        // the former left neighbour: right spliced to the
                        // former right neighbour, left untouched.
                        assert(nxt(no, 0) == (if len == 2 {
                            ord[len - 1]
                        } else {
                            ord[1]
                        }));
                        assert(prv(no, 0) == (if len == 2 {
                            ord[len - 1]
                        } else {
                            ord[len - 2]
                        }));
                        assert(ring_node_ok(ar0, ord, len - 1));
                        if len == 2 {
                            assert(f[li].right_link() == rightmost);
                            assert(f[li].left_link() == leftmost);
                        } else {
                            assert(f[li].right_link() == rightmost);
                            assert(f[li].left_link() == prv(ord, len - 1));
                        }
                    } else if k == 1 {
                        // the former right neighbour: left spliced to the
                        // former left neighbour, right untouched.
                        assert(no[1] == ord[1]);
                        assert(ring_node_ok(ar0, ord, 1));
                        assert(prv(no, 1) == ord[len - 1]);
                        assert(nxt(no, 1) == (if len == 2 {
                            ord[1]
                        } else if len == 3 {
                            ord[len - 1]
                        } else {
                            ord[2]
                        }));
                        assert(f[mi].left_link() == leftmost);
                        assert(f[mi].right_link() == nxt(ord, 1));
                    } else {
                        // interior: untouched, same neighbours as before.
                        assert(no[k] == ord[k]);
                        assert(ring_node_ok(ar0, ord, k));
                        let x = ord[k] as int;
                        assert(x != ri && x != li && x != mi);
                        assert(f[x] == ar0[x]);
                        assert(nxt(no, k) == (if k + 1 == len - 1 {
                            ord[len - 1]
                        } else {
                            ord[k + 1]
                        }));
                        assert(prv(no, k) == ord[k - 1]);
                    }
                }
                assert(self.wf(f));
                assert forall|k: int| 0 <= k < ar0.len() implies f[k] == (#[trigger] ar0[k]).relink(
                    f[k].left_link(),
                    f[k].right_link(),
                ) by {
                    relink_facts(ar0[k]);
                }
            }
            Some(r)
        } else {
            proof {
                assert(len == 1) by {
                    if len > 1 {
                        assert(prv(ord, 0) == ord[len - 1]);
                        assert(ord[len - 1] != ord[0]);
                    }
                }
            }
            self.root = None;
            let ghost no = extracted_order(ord);
            proof {
                self.order@ = no;
                lemma_links_only_refl(ar0);
                assert(arena@[r as int].left_link() == prv(ord, 0) == r);
                assert(arena@[r as int].right_link() == nxt(ord, 0) == r);
            }
            Some(r)
        }
    }

    /// Visits every member in ring order, starting at the reference
    /// element, and marks the ring empty; the members come back as a list
    /// of handles, each exactly once.
    pub fn drop_custom<T: IntrusiveListElem>(&mut self, arena: &Vec<T>) -> (visited: Vec<usize>)
        requires
            old(self).wf(arena@),
        ensures
            visited@ == old(self).order@,
            final(self).root is None,
            final(self).order@ == Seq::<usize>::empty(),
    {
        let ghost ord = self.order@;
        let ghost len = ord.len() as int;
        let mut visited: Vec<usize> = Vec::new();
        let first = match self.root {
            None => {
                proof {
                    assert(visited@ =~= ord);
                }
                return visited;
            },
            Some(c) => c,
        };
        let mut node = first;
        loop
            invariant_except_break
                visited@.len() < len,
                node == ord[visited@.len() as int],
            invariant
                self.wf(arena@),
                self.order@ == ord,
                self.root == Some(first),
                0 < len == ord.len(),
                visited@.len() <= len,
                visited@ =~= ord.subrange(0, visited@.len() as int),
            ensures
                visited@ =~= ord,
            decreases len - visited@.len(),
        {
            let ghost k = visited@.len() as int;
            proof {
                assert(ring_node_ok(arena@, ord, k));
            }
            let next = arena[node].right();
            visited.push(node);
            proof {
                assert(visited@ =~= ord.subrange(0, k + 1));
                assert(next == nxt(ord, k));
            }
            if next == first {
                proof {
                    assert(k + 1 == len) by {
                        if k + 1 < len {
                            assert(nxt(ord, k) == ord[k + 1]);
                            assert(ord[k + 1] != ord[0]);
                        }
                    }
                    assert(visited@ =~= ord);
                }
                break ;
            }
            proof {
                assert(k + 1 < len) by {
                    if k + 1 == len {
                        assert(nxt(ord, k) == ord[0]);
                    }
                }
            }
            node = next;
        }
        self.root = None;
        proof {
            self.order@ = Seq::empty();
        }
        visited
    }
}

/// Ring order after the reference element is extracted: the former left
/// neighbour first, then the rest unchanged.
pub open spec fn extracted_order(ord: Seq<usize>) -> Seq<usize> {
    if ord.len() <= 1 {
        Seq::empty()
    } else {
        seq![ord[ord.len() - 1]] + ord.subrange(1, ord.len() - 1)
    }
}

/// Resets an element's link fields to itself, making it a valid ring of one.
pub fn initialize_elem<T: IntrusiveListElem>(elem: &mut T, this: usize)
    ensures
        *final(elem) == old(elem).relink(this, this),
{
    let e = elem.with_links(this, this);
    *elem = e;
}

/// A ring's well-formedness depends on the arena only at the ring's own
/// members: it survives any change elsewhere.
pub proof fn lemma_wf_frame<T: IntrusiveListElem>(list: IntrusiveList, a1: Seq<T>, a2: Seq<T>)
    requires
        list.wf(a1),
        forall|x: usize|
            #[trigger] list.contains(x) ==> (x as int) < a2.len() && a2[x as int] == a1[x as int],
    ensures
        list.wf(a2),
{
    assert forall|k: int| 0 <= k < list.order@.len() implies #[trigger] ring_node_ok(
        a2,
        list.order@,
        k,
    ) by {
        assert(ring_node_ok(a1, list.order@, k));
        assert(list.order@.contains(list.order@[k]));
        assert(list.contains(list.order@[k]));
    }
}

/// Law: ring closure.  In a well-formed ring every member's neighbours are
/// members too, and `left.right` and `right.left` lead back to the member
/// itself.  Full connectivity is the `wf` order itself: `drop_custom`
/// certifies that following `right` from the reference element visits
/// exactly the order, each member once.
pub proof fn lemma_ring_closure<T: IntrusiveListElem>(list: IntrusiveList, arena: Seq<T>, k: int)
    requires
        list.wf(arena),
        0 <= k < list.order@.len(),
    ensures
        ({
            let x = list.order@[k] as int;
            &&& list.contains(arena[x].right_link())
            &&& list.contains(arena[x].left_link())
            &&& arena[arena[x].right_link() as int].left_link() == list.order@[k]
            &&& arena[arena[x].left_link() as int].right_link() == list.order@[k]
        }),
{
    let o = list.order@;
    let len = o.len() as int;
    assert(ring_node_ok(arena, o, k));
    let kr: int = if k + 1 == len {
        0
    } else {
        k + 1
    };
    let kl: int = if k == 0 {
        len - 1
    } else {
        k - 1
    };
    assert(ring_node_ok(arena, o, kr));
    assert(ring_node_ok(arena, o, kl));
    assert(o.contains(o[kr]) && o.contains(o[kl]));
    assert(arena[o[k] as int].right_link() == o[kr]);
    assert(arena[o[k] as int].left_link() == o[kl]);
    assert(prv(o, kr) == o[k]);
    assert(nxt(o, kl) == o[k]);
}

/// Every member of a well-formed ring is an in-bounds arena index.
pub proof fn lemma_contains_bounds<T: IntrusiveListElem>(list: IntrusiveList, arena: Seq<T>)
    requires
        list.wf(arena),
    ensures
        forall|x: usize| #[trigger] list.contains(x) ==> (x as int) < arena.len(),
{
    assert forall|x: usize| #[trigger] list.contains(x) implies (x as int) < arena.len() by {
        let k = choose|k: int| 0 <= k < list.order@.len() && list.order@[k] == x;
        assert(ring_node_ok(arena, list.order@, k));
    }
}

/// Membership in a merged ring order is membership in either input.
pub proof fn lemma_merged_contains(a: Seq<usize>, b: Seq<usize>)
    ensures
        forall|x: usize| #[trigger] merged_order(a, b).contains(x) <==> a.contains(x) || b.contains(x),
{
    let no = merged_order(a, b);
    if a.len() > 0 && b.len() > 0 {
        assert forall|x: usize| #[trigger] no.contains(x) <==> a.contains(x) || b.contains(x) by {
            if no.contains(x) {
                let j = choose|j: int| 0 <= j < no.len() && no[j] == x;
                if j == 0 {
                    assert(a[0] == x);
                } else if j <= b.len() {
                    assert(no[j] == b[j - 1]);
                    assert(b[j - 1] == x);
                } else {
                    assert(no[j] == a.subrange(1, a.len() as int)[j - 1 - b.len()]);
                    assert(a[j - b.len()] == x);
                }
            }
            if a.contains(x) {
                let j = choose|j: int| 0 <= j < a.len() && a[j] == x;
                if j == 0 {
                    assert(no[0] == x);
                } else {
                    assert(no[j + b.len()] == a.subrange(1, a.len() as int)[j - 1]);
                    assert(no[j + b.len()] == x);
                }
            }
            if b.contains(x) {
                let j = choose|j: int| 0 <= j < b.len() && b[j] == x;
                assert(no[j + 1] == x);
            }
        }
    }
}

/// Membership after extracting the reference element: every former member
/// but the extracted one.
pub proof fn lemma_extracted_contains(ord: Seq<usize>)
    requires
        ord.no_duplicates(),
        ord.len() > 0,
    ensures
        forall|x: usize|
            #[trigger] extracted_order(ord).contains(x) <==> ord.contains(x) && x != ord[0],
{
    let no = extracted_order(ord);
    let len = ord.len() as int;
    assert forall|x: usize| #[trigger] no.contains(x) <==> ord.contains(x) && x != ord[0] by {
        if no.contains(x) {
            let j = choose|j: int| 0 <= j < no.len() && no[j] == x;
            if j == 0 {
                assert(ord[len - 1] == x);
            } else {
                assert(no[j] == ord.subrange(1, len - 1)[j - 1]);
                assert(ord[j] == x);
            }
        }
        if ord.contains(x) && x != ord[0] {
            let j = choose|j: int| 0 <= j < len && ord[j] == x;
            if j == len - 1 {
                assert(no[0] == x);
            } else {
                assert(no[j] == ord.subrange(1, len - 1)[j - 1]);
                assert(no[j] == x);
            }
        }
    }
}

/// The relink laws of one element, quantified over all link values.
pub proof fn relink_facts<T: IntrusiveListElem>(e: T)
    ensures
        forall|l: usize, r: usize|
            (#[trigger] e.relink(l, r)).left_link() == l && e.relink(l, r).right_link() == r,
        e.relink(e.left_link(), e.right_link()) == e,
        forall|l: usize, r: usize, l2: usize, r2: usize|
            (#[trigger] e.relink(l, r).relink(l2, r2)) == e.relink(l2, r2),
{
    assert forall|l: usize, r: usize|
        (#[trigger] e.relink(l, r)).left_link() == l && e.relink(l, r).right_link() == r by {
        e.relink_laws(l, r, 0, 0);
    }
    e.relink_laws(0, 0, 0, 0);
    assert forall|l: usize, r: usize, l2: usize, r2: usize|
        (#[trigger] e.relink(l, r).relink(l2, r2)) == e.relink(l2, r2) by {
        e.relink_laws(l, r, l2, r2);
    }
}

/// An unchanged arena is a links-only change of itself.
pub proof fn lemma_links_only_refl<T: IntrusiveListElem>(a: Seq<T>)
    ensures
        links_only(a, a),
{
    assert forall|k: int| 0 <= k < a.len() implies a[k] == (#[trigger] a[k]).relink(
        a[k].left_link(),
        a[k].right_link(),
    ) by {
        a[k].relink_laws(0, 0, 0, 0);
    }
}

fn write_links<T: IntrusiveListElem>(arena: &mut Vec<T>, i: usize, l: usize, r: usize)
    requires
        (i as int) < old(arena)@.len(),
    ensures
        final(arena)@ == old(arena)@.update(i as int, old(arena)@[i as int].relink(l, r)),
{
    let e = arena[i].with_links(l, r);
    arena[i] = e;
}

fn write_right<T: IntrusiveListElem>(arena: &mut Vec<T>, i: usize, r: usize)
    requires
        (i as int) < old(arena)@.len(),
    ensures
        final(arena)@ == old(arena)@.update(
            i as int,
            old(arena)@[i as int].relink(old(arena)@[i as int].left_link(), r),
        ),
{
    let l = arena[i].left();
    let e = arena[i].with_links(l, r);
    arena[i] = e;
}

fn write_left<T: IntrusiveListElem>(arena: &mut Vec<T>, i: usize, l: usize)
    requires
        (i as int) < old(arena)@.len(),
    ensures
        final(arena)@ == old(arena)@.update(
            i as int,
            old(arena)@[i as int].relink(l, old(arena)@[i as int].right_link()),
        ),
{
    let r = arena[i].right();
    let e = arena[i].with_links(l, r);
    arena[i] = e;
}

} // verus!
