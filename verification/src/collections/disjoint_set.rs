//! A disjoint-set forest (union-find) with union by size.
//!
//! Each element carries a parent link; the root of a tree is the
//! representative of its class. A ghost map from elements to their
//! representatives, and a ghost depth for termination, shadow the
//! forest and make the contracts speak of whole classes.

use vstd::prelude::*;

verus! {

/// How many entries of `s` below `hi` equal `r`.
pub open spec fn count_matches(s: Seq<int>, r: int, hi: int) -> nat
    decreases hi,
{
    if hi <= 0 {
        0
    } else {
        count_matches(s, r, hi - 1) + (if s[hi - 1] == r {
            1nat
        } else {
            0nat
        })
    }
}

/// Rewriting every `from` entry to `to` moves `from`'s count over to
/// `to` and leaves every other count alone.
proof fn lemma_count_remap(old_s: Seq<int>, new_s: Seq<int>, from: int, to: int, hi: int)
    requires
        from != to,
        forall|i: int|
            0 <= i < hi ==> #[trigger] new_s[i] == (if old_s[i] == from {
                to
            } else {
                old_s[i]
            }),
    ensures
        count_matches(new_s, to, hi) == count_matches(old_s, to, hi) + count_matches(
            old_s,
            from,
            hi,
        ),
        count_matches(new_s, from, hi) == 0,
        forall|r: int|
            r != from && r != to ==> #[trigger] count_matches(new_s, r, hi) == count_matches(
                old_s,
                r,
                hi,
            ),
    decreases hi,
{
    if hi > 0 {
        lemma_count_remap(old_s, new_s, from, to, hi - 1);
        assert forall|r: int|
            r != from && r != to implies #[trigger] count_matches(new_s, r, hi) == count_matches(
            old_s,
            r,
            hi,
        ) by {
            assert(count_matches(new_s, r, hi - 1) == count_matches(old_s, r, hi - 1));
        }
    }
}

/// Two different values cannot together fill more than all entries.
proof fn lemma_count_pair_bound(s: Seq<int>, r1: int, r2: int, hi: int)
    requires
        r1 != r2,
        hi >= 0,
    ensures
        count_matches(s, r1, hi) + count_matches(s, r2, hi) <= hi,
    decreases hi,
{
    if hi > 0 {
        lemma_count_pair_bound(s, r1, r2, hi - 1);
    }
}

/// In the identity assignment every value below `hi` occurs once.
proof fn lemma_count_identity(s: Seq<int>, r: int, hi: int)
    requires
        forall|i: int| 0 <= i < hi ==> #[trigger] s[i] == i,
    ensures
        count_matches(s, r, hi) == if 0 <= r < hi {
            1nat
        } else {
            0nat
        },
    decreases hi,
{
    if hi > 0 {
        lemma_count_identity(s, r, hi - 1);
    }
}

/// An element counted at all gives a positive count.
proof fn lemma_count_member(s: Seq<int>, x: int, hi: int)
    requires
        0 <= x < hi,
    ensures
        count_matches(s, s[x], hi) >= 1,
    decreases hi,
{
    if x < hi - 1 {
        lemma_count_member(s, x, hi - 1);
        if s[hi - 1] == s[x] {
        }
    }
}

/// A partition of `0..n` into classes, each represented by its root.
pub struct DisjointSet {
    data: Vec<usize>,
    size: Vec<usize>,
    rep: Ghost<Seq<int>>,
    depth: Ghost<Seq<nat>>,
}

impl DisjointSet {
    /// The number of elements partitioned.
    pub closed spec fn n(self) -> int {
        self.data@.len() as int
    }

    /// The representative of element `x`: the root of its tree.
    pub closed spec fn rep_of(self, x: int) -> int {
        self.rep@[x]
    }

    /// The number of elements in `x`'s class.
    pub closed spec fn class_size(self, x: int) -> nat {
        count_matches(self.rep@, self.rep@[x], self.n())
    }

    /// The two values hold the same forest, sizes and ghost shadows.
    pub closed spec fn same_state(self, other: Self) -> bool {
        self.data@ == other.data@ && self.size@ == other.size@ && self.rep@ == other.rep@
            && self.depth@ == other.depth@
    }

    /// The ghost distance from `x` to its root, the measure the search
    /// walks down.
    pub closed spec fn depth_of(self, x: int) -> nat {
        self.depth@[x]
    }

    /// The forest is consistent: parent links stay inside bounds and
    /// inside their class, roots are exactly the self-parents and carry
    /// their class's size, and depths strictly drop toward the root.
    pub closed spec fn wf(self) -> bool {
        let n = self.n();
        &&& self.size@.len() == n
        &&& self.rep@.len() == n
        &&& self.depth@.len() == n
        &&& forall|i: int| 0 <= i < n ==> 0 <= #[trigger] self.data@[i] < n
        &&& forall|i: int| 0 <= i < n ==> 0 <= #[trigger] self.rep@[i] < n
        &&& forall|i: int|
            0 <= i < n ==> ((#[trigger] self.data@[i] as int == i) <==> self.rep@[i] == i)
        &&& forall|i: int| 0 <= i < n ==> #[trigger] self.rep@[self.rep@[i]] == self.rep@[i]
        &&& forall|i: int| 0 <= i < n ==> #[trigger] self.rep@[self.data@[i] as int] == self.rep@[i]
        &&& forall|i: int|
            0 <= i < n && self.data@[i] as int != i ==> #[trigger] self.depth@[
                self.data@[i] as int
            ] < self.depth@[i]
        &&& forall|i: int|
            0 <= i < n && #[trigger] self.data@[i] as int == i ==> self.size@[i] == count_matches(
                self.rep@,
                i,
                n,
            )
    }

    /// A fresh partition of `0..n` into singleton classes.
    pub fn new(n: usize) -> (r: Self)
        ensures
            r.wf(),
            r.n() == n,
            forall|i: int| 0 <= i < n ==> #[trigger] r.rep_of(i) == i,
            forall|i: int| 0 <= i < n ==> #[trigger] r.class_size(i) == 1,
    {
        let mut data: Vec<usize> = Vec::new();
        while data.len() < n
            invariant
                data@.len() <= n,
                forall|i: int| 0 <= i < data@.len() ==> #[trigger] data@[i] as int == i,
            decreases n - data@.len(),
        {
            let next = data.len();
            data.push(next);
        }
        let mut size: Vec<usize> = Vec::new();
        while size.len() < n
            invariant
                size@.len() <= n,
                forall|i: int| 0 <= i < size@.len() ==> #[trigger] size@[i] == 1,
            decreases n - size@.len(),
        {
            size.push(1);
        }
        let r = DisjointSet {
            data,
            size,
            rep: Ghost(Seq::new(n as nat, |i: int| i)),
            depth: Ghost(Seq::new(n as nat, |i: int| 0nat)),
        };
        proof {
            assert forall|i: int| 0 <= i < n implies #[trigger] r.class_size(i) == 1 by {
                lemma_count_identity(r.rep@, i, n as int);
            }
            assert forall|i: int|
                0 <= i < n && #[trigger] r.data@[i] as int == i implies r.size@[i]
                == count_matches(r.rep@, i, n as int) by {
                lemma_count_identity(r.rep@, i, n as int);
            }
        }
        r
    }

    /// The representative of `x`'s class, found by walking the parent
    /// links; the structure is left as it was.
    pub fn find(&mut self, x: usize) -> (r: usize)
        requires
            old(self).wf(),
            x < old(self).n(),
        ensures
            final(self).wf(),
            final(self).same_state(*old(self)),
            final(self).n() == old(self).n(),
            forall|i: int| 0 <= i < old(self).n() ==> #[trigger] final(self).rep_of(i) == old(
                self,
            ).rep_of(i),
            forall|i: int|
                0 <= i < old(self).n() ==> #[trigger] final(self).class_size(i) == old(
                    self,
                ).class_size(i),
            r as int == old(self).rep_of(x as int),
            r < old(self).n(),
        decreases old(self).depth_of(x as int),
    {
        if self.data[x] != x {
            let parent = self.data[x];
            let root = self.find(parent);
            let ghost before = self.data@;
            self.data.set(root, root);
            proof {
                assert(self.data@ =~= before);
            }
            root
        } else {
            x
        }
    }

    /// Joins the classes of `x` and `y`; the smaller class's root is
    /// attached under the larger class's root, ties favoring `x`'s.
    /// Returns whether the two classes were distinct.
    pub fn join(&mut self, x: usize, y: usize) -> (r: bool)
        requires
            old(self).wf(),
            x < old(self).n(),
            y < old(self).n(),
        ensures
            final(self).wf(),
            final(self).n() == old(self).n(),
            r == (old(self).rep_of(x as int) != old(self).rep_of(y as int)),
            !r ==> final(self).same_state(*old(self)) && (forall|i: int|
                0 <= i < old(self).n() ==> #[trigger] final(self).rep_of(i) == old(self).rep_of(
                    i,
                )) && (forall|i: int|
                0 <= i < old(self).n() ==> #[trigger] final(self).class_size(i) == old(
                    self,
                ).class_size(i)),
            r ==> ({
                let winner = if old(self).class_size(x as int) < old(self).class_size(y as int) {
                    old(self).rep_of(y as int)
                } else {
                    old(self).rep_of(x as int)
                };
                forall|i: int|
                    0 <= i < old(self).n() ==> #[trigger] final(self).rep_of(i) == (if old(
                        self,
                    ).rep_of(i) == old(self).rep_of(x as int) || old(self).rep_of(i) == old(
                        self,
                    ).rep_of(y as int) {
                        winner
                    } else {
                        old(self).rep_of(i)
                    })
            }),
            r ==> forall|i: int|
                0 <= i < old(self).n() ==> #[trigger] final(self).class_size(i) == (if old(
                    self,
                ).rep_of(i) == old(self).rep_of(x as int) || old(self).rep_of(i) == old(
                    self,
                ).rep_of(y as int) {
                    old(self).class_size(x as int) + old(self).class_size(y as int)
                } else {
                    old(self).class_size(i)
                }),
    {
        let ghost n = old(self).n();
        let mut a = self.find(x);
        let mut b = self.find(y);
        proof {
            assert(self.rep@[self.rep@[x as int]] == self.rep@[x as int]);
            assert(self.rep@[self.rep@[y as int]] == self.rep@[y as int]);
            assert(self.rep@[a as int] == a as int);
            assert(self.rep@[b as int] == b as int);
        }
        if a == b {
            return false;
        }
        if self.size[a] < self.size[b] {
            let tmp = a;
            a = b;
            b = tmp;
        }
        proof {
            assert(self.data@[a as int] as int == a as int);
            assert(self.data@[b as int] as int == b as int);
            assert(self.size@[a as int] == count_matches(self.rep@, a as int, n));
            assert(self.size@[b as int] == count_matches(self.rep@, b as int, n));
            lemma_count_pair_bound(self.rep@, a as int, b as int, n);
            lemma_count_member(self.rep@, x as int, n);
            lemma_count_member(self.rep@, y as int, n);
        }
        let total = self.data.len();
        proof {
            assert(count_matches(self.rep@, a as int, n) + count_matches(self.rep@, b as int, n)
                <= total);
        }
        let new_size = self.size[a] + self.size[b];
        self.size.set(a, new_size);
        self.data.set(b, a);
        let ghost old_rep = self.rep@;
        let ghost old_depth = self.depth@;
        proof {
            self.rep@ = Seq::new(
                n as nat,
                |i: int|
                    if old_rep[i] == b {
                        a as int
                    } else {
                        old_rep[i]
                    },
            );
            let shift = old_depth[a as int] + 1;
            self.depth@ = Seq::new(
                n as nat,
                |i: int|
                    if old_rep[i] == b {
                        (old_depth[i] + shift) as nat
                    } else {
                        old_depth[i]
                    },
            );
            lemma_count_remap(old_rep, self.rep@, b as int, a as int, n);
        }
        true
    }

    /// The number of elements in `x`'s class.
    pub fn size(&mut self, x: usize) -> (r: usize)
        requires
            old(self).wf(),
            x < old(self).n(),
        ensures
            final(self).wf(),
            final(self).same_state(*old(self)),
            final(self).n() == old(self).n(),
            forall|i: int| 0 <= i < old(self).n() ==> #[trigger] final(self).rep_of(i) == old(
                self,
            ).rep_of(i),
            forall|i: int|
                0 <= i < old(self).n() ==> #[trigger] final(self).class_size(i) == old(
                    self,
                ).class_size(i),
            r == old(self).class_size(x as int),
    {
        let root = self.find(x);
        proof {
            assert(self.rep@[self.rep@[x as int]] == self.rep@[x as int]);
            assert(self.rep@[root as int] == root as int);
            assert(self.data@[root as int] as int == root as int);
        }
        self.size[root]
    }

    /// The number of elements partitioned, classes of any size counted
    /// element by element.
    pub fn len(&self) -> (r: usize)
        ensures
            r == self.n(),
    {
        self.data.len()
    }
}

} // verus!
