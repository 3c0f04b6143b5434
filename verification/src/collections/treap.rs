//! A treap: a binary search tree over `i64` keys that also keeps a
//! max-heap order on per-node random priorities, giving expected
//! logarithmic height without explicit rebalancing.
//!
//! Keys form a multiset: duplicate keys are allowed, and an equal key is
//! always placed in the left subtree of an existing node with that key.
//! Every mutating operation consumes the subtrees it touches and returns
//! freshly owned ones, rebuilding the cached subtree sizes on the way up.

use vstd::prelude::*;
use vstd::seq_lib::lemma_multiset_commutative;
use crate::misc::random::XorShift;

verus! {

/// Every element of `s` is at most `x`.
pub open spec fn seq_le(s: Seq<int>, x: int) -> bool {
    forall|i: int| 0 <= i < s.len() ==> s[i] <= x
}

/// Every element of `s` is strictly greater than `x`.
pub open spec fn seq_gt(s: Seq<int>, x: int) -> bool {
    forall|i: int| 0 <= i < s.len() ==> s[i] > x
}

/// Every element of `a` is strictly below every element of `b`.
pub open spec fn seq_lt(a: Seq<int>, b: Seq<int>) -> bool {
    forall|i: int, j: int| 0 <= i < a.len() && 0 <= j < b.len() ==> a[i] < b[j]
}

/// A sequence that never decreases from left to right.
pub open spec fn sorted(s: Seq<int>) -> bool {
    forall|i: int, j: int| 0 <= i <= j < s.len() ==> s[i] <= s[j]
}

/// An upper bound holds for a joined sequence exactly when it holds for
/// both parts.
proof fn lemma_seq_le_concat(a: Seq<int>, b: Seq<int>, x: int)
    ensures
        seq_le(a + b, x) <==> (seq_le(a, x) && seq_le(b, x)),
{
    if seq_le(a + b, x) {
        assert forall|i: int| 0 <= i < a.len() implies a[i] <= x by {
            assert((a + b)[i] == a[i]);
        }
        assert forall|j: int| 0 <= j < b.len() implies b[j] <= x by {
            assert((a + b)[a.len() + j] == b[j]);
        }
    }
    if seq_le(a, x) && seq_le(b, x) {
        assert forall|i: int| 0 <= i < (a + b).len() implies (a + b)[i] <= x by {
            if i < a.len() {
                assert((a + b)[i] == a[i]);
            } else {
                assert((a + b)[i] == b[i - a.len()]);
            }
        }
    }
}

/// A strict lower bound holds for a joined sequence exactly when it
/// holds for both parts.
proof fn lemma_seq_gt_concat(a: Seq<int>, b: Seq<int>, x: int)
    ensures
        seq_gt(a + b, x) <==> (seq_gt(a, x) && seq_gt(b, x)),
{
    if seq_gt(a + b, x) {
        assert forall|i: int| 0 <= i < a.len() implies a[i] > x by {
            assert((a + b)[i] == a[i]);
        }
        assert forall|j: int| 0 <= j < b.len() implies b[j] > x by {
            assert((a + b)[a.len() + j] == b[j]);
        }
    }
    if seq_gt(a, x) && seq_gt(b, x) {
        assert forall|i: int| 0 <= i < (a + b).len() implies (a + b)[i] > x by {
            if i < a.len() {
                assert((a + b)[i] == a[i]);
            } else {
                assert((a + b)[i] == b[i - a.len()]);
            }
        }
    }
}

/// Bounds on a one-element sequence are bounds on its element.
proof fn lemma_seq_single_bounds(m: int, x: int)
    ensures
        seq_le(seq![m], x) <==> m <= x,
        seq_gt(seq![m], x) <==> m > x,
{
    assert(seq![m][0] == m);
}

/// Bounds for the three-part sequence `l + [m] + r`, piece by piece.
proof fn lemma_seq_bounds_concat3(l: Seq<int>, m: int, r: Seq<int>, x: int)
    ensures
        seq_le(l + seq![m] + r, x) <==> (seq_le(l, x) && m <= x && seq_le(r, x)),
        seq_gt(l + seq![m] + r, x) <==> (seq_gt(l, x) && m > x && seq_gt(r, x)),
{
    lemma_seq_le_concat(l, seq![m], x);
    lemma_seq_le_concat(l + seq![m], r, x);
    lemma_seq_gt_concat(l, seq![m], x);
    lemma_seq_gt_concat(l + seq![m], r, x);
    lemma_seq_single_bounds(m, x);
}

/// One owned child slot: either empty or holding a node.
pub enum TreapNodeCont {
    Present(Box<TreapNode>),
    Empty,
}

/// One stored key, its random priority, its two owned subtrees and the
/// cached size of the subtree rooted here.
pub struct TreapNode {
    pub key: i64,
    pub left: TreapNodeCont,
    pub right: TreapNodeCont,
    pub priority: u64,
    pub len: usize,
}

impl TreapNodeCont {
    /// The in-order sequence of keys held below this slot.
    pub open spec fn key_seq(self) -> Seq<int>
        decreases self,
    {
        match self {
            TreapNodeCont::Empty => Seq::empty(),
            TreapNodeCont::Present(n) => n.left.key_seq() + seq![n.key as int] + n.right.key_seq(),
        }
    }

    /// The root priority of this slot, if any, is at most `p`.
    pub open spec fn prio_le(self, p: u64) -> bool {
        match self {
            TreapNodeCont::Empty => true,
            TreapNodeCont::Present(n) => n.priority <= p,
        }
    }

    /// Structural well-formedness: search order on keys (equal keys
    /// strictly to the left), max-heap order on priorities, and cached
    /// sizes that count the nodes below.
    pub open spec fn wf(self) -> bool
        decreases self,
    {
        match self {
            TreapNodeCont::Empty => true,
            TreapNodeCont::Present(n) => {
                &&& n.left.wf()
                &&& n.right.wf()
                &&& seq_le(n.left.key_seq(), n.key as int)
                &&& seq_gt(n.right.key_seq(), n.key as int)
                &&& n.left.prio_le(n.priority)
                &&& n.right.prio_le(n.priority)
                &&& n.len == 1 + n.left.key_seq().len() + n.right.key_seq().len()
            },
        }
    }

    /// Moves the contents out, leaving an empty slot behind.
    fn take(&mut self) -> (r: TreapNodeCont)
        ensures
            r == *old(self),
            *final(self) == (TreapNodeCont::Empty),
    {
        let mut tmp = TreapNodeCont::Empty;
        core::mem::swap(self, &mut tmp);
        tmp
    }

    /// Number of keys below this slot, read from the cached size.
    fn len(&self) -> (r: usize)
        requires
            self.wf(),
        ensures
            r == self.key_seq().len(),
    {
        if let TreapNodeCont::Present(root) = self {
            root.len
        } else {
            0
        }
    }

    /// Splits this subtree by the pivot `x`: the first result holds
    /// exactly the keys at most `x`, the second exactly the keys above
    /// `x`, both in their original order, and no priority grows.
    fn split(self, x: i64) -> (r: (TreapNodeCont, TreapNodeCont))
        requires
            self.wf(),
        ensures
            r.0.wf(),
            r.1.wf(),
            r.0.key_seq() + r.1.key_seq() == self.key_seq(),
            seq_le(r.0.key_seq(), x as int),
            seq_gt(r.1.key_seq(), x as int),
            forall|p: u64| self.prio_le(p) ==> r.0.prio_le(p) && r.1.prio_le(p),
        decreases self,
    {
        let ghost orig = self;
        let root = match self {
            TreapNodeCont::Empty => {
                proof {
                    assert(Seq::<int>::empty() + Seq::<int>::empty() =~= Seq::<int>::empty());
                }
                return (TreapNodeCont::Empty, TreapNodeCont::Empty);
            },
            TreapNodeCont::Present(b) => b,
        };
        let TreapNode { key, left, right, priority, len } = *root;
        proof {
            lemma_seq_bounds_concat3(left.key_seq(), key as int, right.key_seq(), x as int);
        }
        if key > x {
            let (res_left, new_left) = left.split(x);
            proof {
                assert(1 + new_left.key_seq().len() + right.key_seq().len() <= len);
                lemma_seq_le_concat(res_left.key_seq(), new_left.key_seq(), key as int);
            }
            let new_len: usize = 1 + new_left.len() + right.len();
            let node = TreapNode { key, left: new_left, right, priority, len: new_len };
            let res_right = TreapNodeCont::Present(Box::new(node));
            proof {
                assert(res_left.key_seq() + res_right.key_seq() =~= orig.key_seq());
                lemma_seq_bounds_concat3(new_left.key_seq(), key as int, right.key_seq(), x as int);
            }
            (res_left, res_right)
        } else {
            let (new_right, res_right) = right.split(x);
            proof {
                assert(1 + left.key_seq().len() + new_right.key_seq().len() <= len);
                lemma_seq_gt_concat(new_right.key_seq(), res_right.key_seq(), key as int);
            }
            let new_len: usize = 1 + left.len() + new_right.len();
            let node = TreapNode { key, left, right: new_right, priority, len: new_len };
            let res_left = TreapNodeCont::Present(Box::new(node));
            proof {
                assert(res_left.key_seq() + res_right.key_seq() =~= orig.key_seq());
                lemma_seq_bounds_concat3(left.key_seq(), key as int, new_right.key_seq(), x as int);
            }
            (res_left, res_right)
        }
    }

    /// Joins two subtrees, every key on the left strictly below every
    /// key on the right, picking roots by priority; on equal priorities
    /// the left root wins. The result lists the left keys, then the
    /// right keys, and no priority grows.
    fn merge(self, other: TreapNodeCont) -> (r: TreapNodeCont)
        requires
            self.wf(),
            other.wf(),
            seq_lt(self.key_seq(), other.key_seq()),
            self.key_seq().len() + other.key_seq().len() <= usize::MAX,
        ensures
            r.wf(),
            r.key_seq() == self.key_seq() + other.key_seq(),
            forall|p: u64| self.prio_le(p) && other.prio_le(p) ==> r.prio_le(p),
        decreases self, other,
    {
        let ghost lorig = self;
        let ghost rorig = other;
        let left_root = match self {
            TreapNodeCont::Empty => {
                proof {
                    assert(Seq::<int>::empty() + rorig.key_seq() =~= rorig.key_seq());
                }
                return other;
            },
            TreapNodeCont::Present(b) => b,
        };
        let right_root = match other {
            TreapNodeCont::Empty => {
                proof {
                    assert(lorig.key_seq() + Seq::<int>::empty() =~= lorig.key_seq());
                }
                return TreapNodeCont::Present(left_root);
            },
            TreapNodeCont::Present(b) => b,
        };
        if left_root.priority >= right_root.priority {
            let TreapNode { key, left, right, priority, len } = *left_root;
            proof {
                assert forall|i: int, j: int|
                    0 <= i < right.key_seq().len() && 0 <= j
                        < rorig.key_seq().len() implies right.key_seq()[i]
                    < rorig.key_seq()[j] by {
                    assert(lorig.key_seq()[left.key_seq().len() + 1 + i] == right.key_seq()[i]);
                }
            }
            let merged = right.merge(TreapNodeCont::Present(right_root));
            proof {
                assert(1 + left.key_seq().len() + merged.key_seq().len() <= len
                    + rorig.key_seq().len());
            }
            let new_len: usize = 1 + left.len() + merged.len();
            proof {
                assert(seq_gt(rorig.key_seq(), key as int)) by {
                    assert forall|j: int|
                        0 <= j < rorig.key_seq().len() implies rorig.key_seq()[j]
                        > key as int by {
                        assert(lorig.key_seq()[left.key_seq().len() as int] == key as int);
                    }
                }
                lemma_seq_gt_concat(right.key_seq(), rorig.key_seq(), key as int);
            }
            let node = TreapNode { key, left, right: merged, priority, len: new_len };
            let r = TreapNodeCont::Present(Box::new(node));
            proof {
                assert(r.key_seq() =~= lorig.key_seq() + rorig.key_seq());
            }
            r
        } else {
            let TreapNode { key, left, right, priority, len } = *right_root;
            proof {
                assert forall|i: int, j: int|
                    0 <= i < lorig.key_seq().len() && 0 <= j
                        < left.key_seq().len() implies lorig.key_seq()[i] < left.key_seq()[j] by {
                    assert(rorig.key_seq()[j] == left.key_seq()[j]);
                }
            }
            let merged = TreapNodeCont::Present(left_root).merge(left);
            proof {
                assert(1 + merged.key_seq().len() + right.key_seq().len() <= lorig.key_seq().len()
                    + len);
            }
            let new_len: usize = 1 + merged.len() + right.len();
            proof {
                assert(seq_le(lorig.key_seq(), key as int)) by {
                    assert forall|i: int|
                        0 <= i < lorig.key_seq().len() implies lorig.key_seq()[i]
                        <= key as int by {
                        assert(rorig.key_seq()[left.key_seq().len() as int] == key as int);
                    }
                }
                lemma_seq_le_concat(lorig.key_seq(), left.key_seq(), key as int);
            }
            let node = TreapNode { key, left: merged, right, priority, len: new_len };
            let r = TreapNodeCont::Present(Box::new(node));
            proof {
                assert(r.key_seq() =~= lorig.key_seq() + rorig.key_seq());
            }
            r
        }
    }

    /// Adds `single_node`, a fresh singleton, keeping search order by
    /// key and heap order by priority: an equal key goes to the left of
    /// an existing node with that key.
    fn insert(self, single_node: TreapNode) -> (r: TreapNodeCont)
        requires
            self.wf(),
            single_node.left == (TreapNodeCont::Empty),
            single_node.right == (TreapNodeCont::Empty),
            single_node.len == 1,
            self.key_seq().len() < usize::MAX,
        ensures
            r.wf(),
            r.key_seq().to_multiset() == self.key_seq().to_multiset().insert(
                single_node.key as int,
            ),
            r.key_seq().len() == self.key_seq().len() + 1,
            forall|b: int|
                seq_le(self.key_seq(), b) && single_node.key <= b ==> seq_le(r.key_seq(), b),
            forall|b: int|
                seq_gt(self.key_seq(), b) && single_node.key > b ==> seq_gt(r.key_seq(), b),
            forall|p: u64| self.prio_le(p) && single_node.priority <= p ==> r.prio_le(p),
        decreases self,
    {
        broadcast use vstd::seq_lib::group_to_multiset_ensures;

        let ghost orig = self;
        let ghost k = single_node.key as int;
        let root = match self {
            TreapNodeCont::Empty => {
                let r = TreapNodeCont::Present(Box::new(single_node));
                proof {
                    assert(r.key_seq() =~= Seq::<int>::empty().push(k));
                    assert forall|b: int| k <= b implies seq_le(r.key_seq(), b) by {
                        lemma_seq_single_bounds(k, b);
                        assert(r.key_seq() =~= seq![k]);
                    }
                    assert forall|b: int| k > b implies seq_gt(r.key_seq(), b) by {
                        lemma_seq_single_bounds(k, b);
                        assert(r.key_seq() =~= seq![k]);
                    }
                }
                return r;
            },
            TreapNodeCont::Present(b) => b,
        };
        if single_node.priority >= root.priority {
            let TreapNode { key: new_key, priority: new_priority, .. } = single_node;
            let (half_le, half_gt) = TreapNodeCont::Present(root).split(new_key);
            proof {
                assert(orig.prio_le(new_priority));
                assert(half_le.prio_le(new_priority) && half_gt.prio_le(new_priority));
            }
            let new_len: usize = 1 + half_le.len() + half_gt.len();
            let node = TreapNode {
                key: new_key,
                left: half_le,
                right: half_gt,
                priority: new_priority,
                len: new_len,
            };
            let r = TreapNodeCont::Present(Box::new(node));
            proof {
                lemma_multiset_commutative(half_le.key_seq() + seq![k], half_gt.key_seq());
                lemma_multiset_commutative(half_le.key_seq(), seq![k]);
                lemma_multiset_commutative(half_le.key_seq(), half_gt.key_seq());
                assert(r.key_seq() =~= (half_le.key_seq() + seq![k]) + half_gt.key_seq());
                assert(seq![k] =~= Seq::<int>::empty().push(k));
                assert(r.key_seq().to_multiset() =~= orig.key_seq().to_multiset().insert(k));
                assert forall|b: int|
                    seq_le(orig.key_seq(), b) && k <= b implies seq_le(r.key_seq(), b) by {
                    lemma_seq_le_concat(half_le.key_seq(), half_gt.key_seq(), b);
                    lemma_seq_bounds_concat3(half_le.key_seq(), k, half_gt.key_seq(), b);
                }
                assert forall|b: int|
                    seq_gt(orig.key_seq(), b) && k > b implies seq_gt(r.key_seq(), b) by {
                    lemma_seq_gt_concat(half_le.key_seq(), half_gt.key_seq(), b);
                    lemma_seq_bounds_concat3(half_le.key_seq(), k, half_gt.key_seq(), b);
                }
            }
            r
        } else {
            let TreapNode { key, left, right, priority, len } = *root;
            proof {
                lemma_seq_bounds_concat3(left.key_seq(), key as int, right.key_seq(), k);
            }
            if single_node.key <= key {
                let new_left = left.insert(single_node);
                proof {
                    assert(1 + new_left.key_seq().len() + right.key_seq().len() <= len + 1);
                }
                let new_len: usize = 1 + new_left.len() + right.len();
                let node = TreapNode { key, left: new_left, right, priority, len: new_len };
                let r = TreapNodeCont::Present(Box::new(node));
                proof {
                    lemma_multiset_commutative(new_left.key_seq() + seq![key as int], right.key_seq());
                    lemma_multiset_commutative(new_left.key_seq(), seq![key as int]);
                    lemma_multiset_commutative(left.key_seq() + seq![key as int], right.key_seq());
                    lemma_multiset_commutative(left.key_seq(), seq![key as int]);
                    assert(r.key_seq() =~= (new_left.key_seq() + seq![key as int])
                        + right.key_seq());
                    assert(orig.key_seq() =~= (left.key_seq() + seq![key as int])
                        + right.key_seq());
                    assert(r.key_seq().to_multiset() =~= orig.key_seq().to_multiset().insert(k));
                    assert forall|b: int|
                        seq_le(orig.key_seq(), b) && k <= b implies seq_le(r.key_seq(), b) by {
                        lemma_seq_bounds_concat3(left.key_seq(), key as int, right.key_seq(), b);
                        lemma_seq_bounds_concat3(new_left.key_seq(), key as int, right.key_seq(), b);
                    }
                    assert forall|b: int|
                        seq_gt(orig.key_seq(), b) && k > b implies seq_gt(r.key_seq(), b) by {
                        lemma_seq_bounds_concat3(left.key_seq(), key as int, right.key_seq(), b);
                        lemma_seq_bounds_concat3(new_left.key_seq(), key as int, right.key_seq(), b);
                    }
                }
                r
            } else {
                let new_right = right.insert(single_node);
                proof {
                    assert(1 + left.key_seq().len() + new_right.key_seq().len() <= len + 1);
                }
                let new_len: usize = 1 + left.len() + new_right.len();
                let node = TreapNode { key, left, right: new_right, priority, len: new_len };
                let r = TreapNodeCont::Present(Box::new(node));
                proof {
                    lemma_multiset_commutative(left.key_seq() + seq![key as int], new_right.key_seq());
                    lemma_multiset_commutative(left.key_seq(), seq![key as int]);
                    lemma_multiset_commutative(left.key_seq() + seq![key as int], right.key_seq());
                    assert(r.key_seq() =~= (left.key_seq() + seq![key as int])
                        + new_right.key_seq());
                    assert(orig.key_seq() =~= (left.key_seq() + seq![key as int])
                        + right.key_seq());
                    assert(r.key_seq().to_multiset() =~= orig.key_seq().to_multiset().insert(k));
                    assert forall|b: int|
                        seq_le(orig.key_seq(), b) && k <= b implies seq_le(r.key_seq(), b) by {
                        lemma_seq_bounds_concat3(left.key_seq(), key as int, right.key_seq(), b);
                        lemma_seq_bounds_concat3(left.key_seq(), key as int, new_right.key_seq(), b);
                    }
                    assert forall|b: int|
                        seq_gt(orig.key_seq(), b) && k > b implies seq_gt(r.key_seq(), b) by {
                        lemma_seq_bounds_concat3(left.key_seq(), key as int, right.key_seq(), b);
                        lemma_seq_bounds_concat3(left.key_seq(), key as int, new_right.key_seq(), b);
                    }
                }
                r
            }
        }
    }

    /// Removes the first node met on the search path whose key equals
    /// `key`, replacing it by the join of its two subtrees; with
    /// duplicate keys one occurrence goes per call. Absent keys leave
    /// the key sequence unchanged.
    fn erase(self, key: &i64) -> (r: TreapNodeCont)
        requires
            self.wf(),
        ensures
            r.wf(),
            self.key_seq().contains(*key as int) ==> r.key_seq().to_multiset()
                == self.key_seq().to_multiset().remove(*key as int) && r.key_seq().len()
                == self.key_seq().len() - 1,
            !self.key_seq().contains(*key as int) ==> r.key_seq() == self.key_seq(),
            forall|b: int| seq_le(self.key_seq(), b) ==> seq_le(r.key_seq(), b),
            forall|b: int| seq_gt(self.key_seq(), b) ==> seq_gt(r.key_seq(), b),
            forall|p: u64| self.prio_le(p) ==> r.prio_le(p),
        decreases self,
    {
        broadcast use vstd::seq_lib::group_to_multiset_ensures;

        let ghost orig = self;
        let ghost k = *key as int;
        let root = match self {
            TreapNodeCont::Empty => {
                return TreapNodeCont::Empty;
            },
            TreapNodeCont::Present(b) => b,
        };
        let TreapNode { key: root_key, left, right, priority, len } = *root;
        proof {
            lemma_concat3_contains(left.key_seq(), root_key as int, right.key_seq(), k);
        }
        if *key < root_key {
            proof {
                assert(!right.key_seq().contains(k)) by {
                    if right.key_seq().contains(k) {
                        let i = choose|i: int|
                            0 <= i < right.key_seq().len() && right.key_seq()[i] == k;
                        assert(right.key_seq()[i] > root_key as int);
                    }
                }
            }
            let new_left = left.erase(key);
            let new_len: usize = 1 + new_left.len() + right.len();
            let node = TreapNode { key: root_key, left: new_left, right, priority, len: new_len };
            let r = TreapNodeCont::Present(Box::new(node));
            proof {
                lemma_multiset_commutative(new_left.key_seq() + seq![root_key as int], right.key_seq());
                lemma_multiset_commutative(new_left.key_seq(), seq![root_key as int]);
                lemma_multiset_commutative(left.key_seq() + seq![root_key as int], right.key_seq());
                lemma_multiset_commutative(left.key_seq(), seq![root_key as int]);
                assert(r.key_seq() =~= (new_left.key_seq() + seq![root_key as int])
                    + right.key_seq());
                assert(orig.key_seq() =~= (left.key_seq() + seq![root_key as int])
                    + right.key_seq());
                if orig.key_seq().contains(k) {
                    assert(r.key_seq().to_multiset() =~= orig.key_seq().to_multiset().remove(k));
                } else {
                    assert(r.key_seq() =~= orig.key_seq());
                }
                assert forall|b: int| seq_le(orig.key_seq(), b) implies seq_le(r.key_seq(), b) by {
                    lemma_seq_bounds_concat3(left.key_seq(), root_key as int, right.key_seq(), b);
                    lemma_seq_bounds_concat3(new_left.key_seq(), root_key as int, right.key_seq(), b);
                }
                assert forall|b: int| seq_gt(orig.key_seq(), b) implies seq_gt(r.key_seq(), b) by {
                    lemma_seq_bounds_concat3(left.key_seq(), root_key as int, right.key_seq(), b);
                    lemma_seq_bounds_concat3(new_left.key_seq(), root_key as int, right.key_seq(), b);
                }
            }
            r
        } else if *key > root_key {
            proof {
                assert(!left.key_seq().contains(k)) by {
                    if left.key_seq().contains(k) {
                        let i = choose|i: int|
                            0 <= i < left.key_seq().len() && left.key_seq()[i] == k;
                        assert(left.key_seq()[i] <= root_key as int);
                    }
                }
            }
            let new_right = right.erase(key);
            let new_len: usize = 1 + left.len() + new_right.len();
            let node = TreapNode { key: root_key, left, right: new_right, priority, len: new_len };
            let r = TreapNodeCont::Present(Box::new(node));
            proof {
                lemma_multiset_commutative(left.key_seq() + seq![root_key as int], new_right.key_seq());
                lemma_multiset_commutative(left.key_seq(), seq![root_key as int]);
                lemma_multiset_commutative(left.key_seq() + seq![root_key as int], right.key_seq());
                assert(r.key_seq() =~= (left.key_seq() + seq![root_key as int])
                    + new_right.key_seq());
                assert(orig.key_seq() =~= (left.key_seq() + seq![root_key as int])
                    + right.key_seq());
                if orig.key_seq().contains(k) {
                    assert(r.key_seq().to_multiset() =~= orig.key_seq().to_multiset().remove(k));
                } else {
                    assert(r.key_seq() =~= orig.key_seq());
                }
                assert forall|b: int| seq_le(orig.key_seq(), b) implies seq_le(r.key_seq(), b) by {
                    lemma_seq_bounds_concat3(left.key_seq(), root_key as int, right.key_seq(), b);
                    lemma_seq_bounds_concat3(left.key_seq(), root_key as int, new_right.key_seq(), b);
                }
                assert forall|b: int| seq_gt(orig.key_seq(), b) implies seq_gt(r.key_seq(), b) by {
                    lemma_seq_bounds_concat3(left.key_seq(), root_key as int, right.key_seq(), b);
                    lemma_seq_bounds_concat3(left.key_seq(), root_key as int, new_right.key_seq(), b);
                }
            }
            r
        } else {
            proof {
                assert(orig.key_seq()[left.key_seq().len() as int] == k);
                assert(seq_lt(left.key_seq(), right.key_seq())) by {
                    assert forall|i: int, j: int|
                        0 <= i < left.key_seq().len() && 0 <= j
                            < right.key_seq().len() implies left.key_seq()[i]
                        < right.key_seq()[j] by {
                        assert(left.key_seq()[i] <= root_key as int);
                        assert(right.key_seq()[j] > root_key as int);
                    }
                }
            }
            let r = left.merge(right);
            proof {
                lemma_multiset_commutative(left.key_seq(), right.key_seq());
                lemma_multiset_commutative(left.key_seq() + seq![root_key as int], right.key_seq());
                lemma_multiset_commutative(left.key_seq(), seq![root_key as int]);
                assert(orig.key_seq() =~= (left.key_seq() + seq![root_key as int])
                    + right.key_seq());
                assert(r.key_seq().to_multiset() =~= orig.key_seq().to_multiset().remove(k));
                assert forall|b: int| seq_le(orig.key_seq(), b) implies seq_le(r.key_seq(), b) by {
                    lemma_seq_bounds_concat3(left.key_seq(), root_key as int, right.key_seq(), b);
                    lemma_seq_le_concat(left.key_seq(), right.key_seq(), b);
                }
                assert forall|b: int| seq_gt(orig.key_seq(), b) implies seq_gt(r.key_seq(), b) by {
                    lemma_seq_bounds_concat3(left.key_seq(), root_key as int, right.key_seq(), b);
                    lemma_seq_gt_concat(left.key_seq(), right.key_seq(), b);
                }
            }
            r
        }
    }

    /// Whether some key below this slot equals `key`, found by binary
    /// search over the ordering invariant.
    fn contains(&self, key: &i64) -> (r: bool)
        requires
            self.wf(),
        ensures
            r == self.key_seq().contains(*key as int),
        decreases self,
    {
        let root = match self {
            TreapNodeCont::Empty => {
                return false;
            },
            TreapNodeCont::Present(b) => b,
        };
        proof {
            lemma_concat3_contains(
                root.left.key_seq(),
                root.key as int,
                root.right.key_seq(),
                *key as int,
            );
        }
        if *key < root.key {
            proof {
                assert(!root.right.key_seq().contains(*key as int)) by {
                    if root.right.key_seq().contains(*key as int) {
                        let i = choose|i: int|
                            0 <= i < root.right.key_seq().len() && root.right.key_seq()[i]
                                == *key as int;
                        assert(root.right.key_seq()[i] > root.key as int);
                    }
                }
            }
            root.left.contains(key)
        } else if *key > root.key {
            proof {
                assert(!root.left.key_seq().contains(*key as int)) by {
                    if root.left.key_seq().contains(*key as int) {
                        let i = choose|i: int|
                            0 <= i < root.left.key_seq().len() && root.left.key_seq()[i]
                                == *key as int;
                        assert(root.left.key_seq()[i] <= root.key as int);
                    }
                }
            }
            root.right.contains(key)
        } else {
            true
        }
    }
}

impl Default for TreapNodeCont {
    /// The default slot is empty.
    fn default() -> (r: Self)
        ensures
            r == (TreapNodeCont::Empty),
    {
        TreapNodeCont::Empty
    }
}

impl TreapNode {
    /// A fresh singleton node carrying `key` with the given priority.
    pub fn from_key(key: i64, priority: u64) -> (n: Self)
        ensures
            n.key == key,
            n.priority == priority,
            n.left == (TreapNodeCont::Empty),
            n.right == (TreapNodeCont::Empty),
            n.len == 1,
    {
        Self { key, left: TreapNodeCont::Empty, right: TreapNodeCont::Empty, priority, len: 1 }
    }
}

/// The public treap handle: a root slot plus the pseudo-random source
/// that draws one priority per insertion.
pub struct Treap {
    root: TreapNodeCont,
    rng: XorShift,
}

impl Treap {
    /// The in-order key sequence of the whole tree; with the search
    /// invariant it is sorted, so it both orders and counts the keys.
    pub closed spec fn key_seq(self) -> Seq<int> {
        self.root.key_seq()
    }

    /// The tree satisfies the search, heap and size invariants.
    pub closed spec fn wf(self) -> bool {
        self.root.wf()
    }

    /// An empty treap with the default priority seed.
    pub fn new() -> (t: Self)
        ensures
            t.wf(),
            t@ == Seq::<int>::empty(),
    {
        Self { root: TreapNodeCont::Empty, rng: XorShift::new(88172645463325252) }
    }

    /// An empty treap whose priorities are drawn from the given seed,
    /// for reproducible shapes.
    pub fn with_seed(seed: u64) -> (t: Self)
        ensures
            t.wf(),
            t@ == Seq::<int>::empty(),
    {
        Self { root: TreapNodeCont::Empty, rng: XorShift::new(seed) }
    }

    /// Wraps an already well-formed root slot.
    pub fn from_root(root: TreapNodeCont) -> (t: Self)
        requires
            root.wf(),
        ensures
            t.wf(),
            t@ == root.key_seq(),
    {
        Self { root, rng: XorShift::new(88172645463325252) }
    }

    /// Partitions the tree by `x`: the first treap holds exactly the
    /// keys at most `x` and the second exactly the keys above `x`, and
    /// the two key sequences joined give the original one back.
    pub fn split(self, x: i64) -> (r: (Treap, Treap))
        requires
            self.wf(),
        ensures
            r.0.wf(),
            r.1.wf(),
            r.0@ + r.1@ == self@,
            seq_le(r.0@, x as int),
            seq_gt(r.1@, x as int),
    {
        let rng2 = self.rng.clone();
        let (left_root, right_root) = self.root.split(x);
        (Treap { root: left_root, rng: self.rng }, Treap { root: right_root, rng: rng2 })
    }

    /// Adds one occurrence of `key`, drawing a fresh priority from the
    /// treap's own generator.
    pub fn insert(&mut self, key: i64)
        requires
            old(self).wf(),
            old(self)@.len() < usize::MAX,
        ensures
            final(self).wf(),
            final(self)@.to_multiset() == old(self)@.to_multiset().insert(key as int),
            final(self)@.len() == old(self)@.len() + 1,
    {
        let priority = self.rng.next();
        let root = self.root.take();
        self.root = root.insert(TreapNode::from_key(key, priority));
    }

    /// Joins two treaps; every key of `self` must lie strictly below
    /// every key of `other`. The result lists the keys of `self`, then
    /// the keys of `other`.
    pub fn merge(self, other: Treap) -> (r: Treap)
        requires
            self.wf(),
            other.wf(),
            seq_lt(self@, other@),
            self@.len() + other@.len() <= usize::MAX,
        ensures
            r.wf(),
            r@ == self@ + other@,
    {
        let new_root = self.root.merge(other.root);
        Self { root: new_root, rng: self.rng }
    }

    /// Removes one occurrence of `key` if any is present; otherwise the
    /// key sequence is unchanged.
    pub fn erase(&mut self, key: &i64)
        requires
            old(self).wf(),
        ensures
            final(self).wf(),
            old(self)@.contains(*key as int) ==> final(self)@.to_multiset() == old(
                self,
            )@.to_multiset().remove(*key as int) && final(self)@.len() == old(self)@.len() - 1,
            !old(self)@.contains(*key as int) ==> final(self)@ == old(self)@,
    {
        let root = self.root.take();
        self.root = root.erase(key);
    }

    /// Whether `key` occurs in the tree.
    pub fn contains(&self, key: &i64) -> (r: bool)
        requires
            self.wf(),
        ensures
            r == self@.contains(*key as int),
    {
        self.root.contains(key)
    }

    /// The number of keys stored, duplicates counted separately; read
    /// in constant time from the root's cached size.
    pub fn len(&self) -> (r: usize)
        requires
            self.wf(),
        ensures
            r == self@.len(),
    {
        self.root.len()
    }
}

impl View for Treap {
    type V = Seq<int>;

    open spec fn view(&self) -> Seq<int> {
        self.key_seq()
    }
}

/// The ordering invariant makes the in-order key sequence of every
/// well-formed slot sorted, so split and merge speak about sorted-key
/// sequences whenever their arguments are well-formed.
pub proof fn lemma_wf_sorted(c: TreapNodeCont)
    requires
        c.wf(),
    ensures
        sorted(c.key_seq()),
    decreases c,
{
    match c {
        TreapNodeCont::Empty => {},
        TreapNodeCont::Present(n) => {
            lemma_wf_sorted(n.left);
            lemma_wf_sorted(n.right);
            let l = n.left.key_seq();
            let r = n.right.key_seq();
            let whole = c.key_seq();
            assert forall|i: int, j: int| 0 <= i <= j < whole.len() implies whole[i]
                <= whole[j] by {
                if j < l.len() {
                    assert(whole[i] == l[i]);
                    assert(whole[j] == l[j]);
                } else if i > l.len() {
                    assert(whole[i] == r[i - l.len() - 1]);
                    assert(whole[j] == r[j - l.len() - 1]);
                } else {
                    if i < l.len() {
                        assert(whole[i] == l[i]);
                        assert(whole[i] <= n.key as int);
                    } else {
                        assert(whole[i] == n.key as int);
                    }
                    if j > l.len() {
                        assert(whole[j] == r[j - l.len() - 1]);
                        assert(whole[j] > n.key as int);
                    } else {
                        assert(whole[j] == n.key as int);
                    }
                }
            }
        },
    }
}

/// The treap-level reading of the ordering law: a well-formed treap's
/// key sequence is sorted.
pub proof fn lemma_treap_sorted(t: Treap)
    requires
        t.wf(),
    ensures
        sorted(t@),
{
    lemma_wf_sorted(t.root);
}

/// A key occurs in a sequence exactly when the multiset the sequence
/// collects gives it a positive count; this ties `contains` to the
/// insert/erase contracts, which track that multiset.
pub proof fn lemma_contains_iff_count(s: Seq<int>, k: int)
    ensures
        s.contains(k) <==> s.to_multiset().count(k) > 0,
{
    broadcast use vstd::seq_lib::group_to_multiset_ensures;

}

/// The two halves a split returns stand in the strict order that merge
/// demands, so merging them restores the original key sequence: the
/// bound `x` separates them.
pub proof fn lemma_split_halves_mergeable(l: Seq<int>, r: Seq<int>, x: int)
    requires
        seq_le(l, x),
        seq_gt(r, x),
    ensures
        seq_lt(l, r),
{
}

/// Splitting and merging back is the identity on the key sequence: the
/// hypotheses are what split ensures of its halves and what merge
/// ensures of their join, and under them merge's own precondition
/// holds and the joined sequence is the original one.
pub proof fn lemma_merge_undoes_split(t: Seq<int>, l: Seq<int>, r: Seq<int>, x: int, m: Seq<int>)
    requires
        l + r == t,
        seq_le(l, x),
        seq_gt(r, x),
        m == l + r,
    ensures
        seq_lt(l, r),
        m == t,
{
    lemma_split_halves_mergeable(l, r, x);
}

/// A key occurs in the joined sequence `l + [m] + r` exactly when it
/// occurs in `l`, equals `m`, or occurs in `r`.
proof fn lemma_concat3_contains(l: Seq<int>, m: int, r: Seq<int>, k: int)
    ensures
        (l + seq![m] + r).contains(k) <==> (l.contains(k) || k == m || r.contains(k)),
{
    let whole = l + seq![m] + r;
    if l.contains(k) {
        let i = choose|i: int| 0 <= i < l.len() && l[i] == k;
        assert(whole[i] == k);
    }
    if k == m {
        assert(whole[l.len() as int] == k);
    }
    if r.contains(k) {
        let i = choose|i: int| 0 <= i < r.len() && r[i] == k;
        assert(whole[l.len() + 1 + i] == k);
    }
    if whole.contains(k) {
        let i = choose|i: int| 0 <= i < whole.len() && whole[i] == k;
        if i < l.len() {
            assert(l[i] == k);
        } else if i > l.len() {
            assert(r[i - l.len() - 1] == k);
        }
    }
}

} // verus!
