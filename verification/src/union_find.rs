//! Disjoint-set forest with path compression and union by rank.
use vstd::prelude::*;
use vstd::set_lib::*;
use vstd::arithmetic::power2::{pow2, lemma_pow2_unfold, lemma_pow2};
use vstd::arithmetic::power::{pow, lemma_pow0};

verus! {

/// The elements `0 <= j < n` whose representative is `r`.
pub open spec fn class_of(rep: Seq<int>, n: int, r: int) -> Set<int> {
    Set::new(|j: int| 0 <= j < n && rep[j] == r)
}

/// A union-find structure over the elements `0 .. len`.
pub struct UnionFind {
    parent: Vec<usize>,
    rank: Vec<usize>,
    /// The representative (root) of every element.
    rep: Ghost<Seq<int>>,
}

impl UnionFind {
    /// Number of elements.
    pub closed spec fn len(&self) -> nat {
        self.parent@.len()
    }

    /// The representative of element `i`: what `find(i)` returns.
    pub closed spec fn rep_of(&self, i: int) -> int {
        self.rep@[i]
    }

    /// The rank of element `i`; `union` hangs the root of lower rank under the other.
    pub closed spec fn rank_of(&self, i: int) -> int {
        self.rank@[i] as int
    }

    /// The parent pointer of element `i`: itself for a representative.
    pub closed spec fn parent_of(&self, i: int) -> int {
        self.parent@[i] as int
    }

    /// The elements whose representative is `r`.
    pub closed spec fn class(&self, r: int) -> Set<int> {
        class_of(self.rep@, self.parent@.len() as int, r)
    }

    /// How far the rank of `i` lies below the rank of its representative.
    pub closed spec fn rank_gap(&self, i: int) -> int {
        self.rank@[self.rep@[i]] - self.rank@[i]
    }

    /// Elements `i` and `j` are in the same set.
    pub open spec fn same(&self, i: int, j: int) -> bool {
        self.rep_of(i) == self.rep_of(j)
    }

    /// The internal invariant of the forest.
    pub closed spec fn wf(&self) -> bool {
        let n = self.parent@.len();
        let p = self.parent@;
        let rk = self.rank@;
        let rep = self.rep@;
        &&& self.rank@.len() == n
        &&& rep.len() == n
        &&& forall|i: int| 0 <= i < n ==> (#[trigger] p[i] as int) < n
        &&& forall|i: int| 0 <= i < n ==> 0 <= #[trigger] rep[i] < n
        &&& forall|i: int| 0 <= i < n ==> p[#[trigger] rep[i]] == rep[i]
        &&& forall|i: int| 0 <= i < n ==> rep[#[trigger] p[i] as int] == rep[i]
        &&& forall|i: int| 0 <= i < n && #[trigger] p[i] != i ==> rk[i] < rk[p[i] as int]
        &&& forall|i: int| 0 <= i < n && #[trigger] rep[i] != i ==> rk[i] < rk[rep[i]]
        &&& forall|i: int| 0 <= i < n && #[trigger] p[i] == i ==> rep[i] == i
        &&& forall|i: int|
            0 <= i < n && #[trigger] p[i] == i ==> rk[i] < class_of(rep, n as int, i).len()
        &&& forall|i: int|
            0 <= i < n && #[trigger] p[i] == i ==> pow2(rk[i] as nat) <= class_of(rep, n as int, i).len()
    }

    /// The shape of the forest: a parent pointer stays within the elements and
    /// within the element's set, a representative points at itself, a root is its
    /// own representative, and ranks strictly increase from an element to its parent.
    pub proof fn law_forest_shape(&self, i: int)
        requires
            self.wf(),
            0 <= i < self.len(),
        ensures
            0 <= self.parent_of(i) < self.len(),
            0 <= self.rep_of(i) < self.len(),
            self.parent_of(self.rep_of(i)) == self.rep_of(i),
            self.rep_of(self.parent_of(i)) == self.rep_of(i),
            self.parent_of(i) == i ==> self.rep_of(i) == i,
            self.parent_of(i) != i ==> self.rank_of(i) < self.rank_of(self.parent_of(i)),
    {
    }

    /// A representative of rank `k` stands for at least `2^k` elements, so no
    /// rank exceeds the base-2 logarithm of the number of elements.
    pub proof fn law_rank_bounded_by_class_size(&self, i: int)
        requires
            self.wf(),
            0 <= i < self.len(),
        ensures
            self.class(self.rep_of(i)).finite(),
            pow2(self.rank_of(self.rep_of(i)) as nat) <= self.class(self.rep_of(i)).len(),
    {
        let r = self.rep@[i];
        Self::lemma_class_finite(self.rep@, self.len() as int, r);
        assert(self.parent@[r] == r);
    }

    proof fn lemma_class_finite(rep: Seq<int>, n: int, r: int)
        requires
            0 <= n,
        ensures
            class_of(rep, n, r).finite(),
            class_of(rep, n, r).len() <= n,
    {
        lemma_int_range(0, n);
        lemma_len_subset(class_of(rep, n, r), set_int_range(0, n));
    }

    /// Every rank is below the number of elements.
    proof fn lemma_rank_bound(&self, i: int)
        requires
            self.wf(),
            0 <= i < self.len(),
        ensures
            self.rank@[i] < self.len(),
            self.rank@[self.rep@[i]] < self.len(),
    {
        let r = self.rep@[i];
        Self::lemma_class_finite(self.rep@, self.len() as int, r);
        assert(self.parent@[r] == r);
    }

    /// A forest of `n` singleton sets.
    pub fn new(n: usize) -> (uf: UnionFind)
        ensures
            uf.wf(),
            uf.len() == n,
            forall|i: int| 0 <= i < n ==> #[trigger] uf.rep_of(i) == i,
            forall|i: int| 0 <= i < n ==> #[trigger] uf.rank_of(i) == 0,
            forall|i: int| 0 <= i < n ==> #[trigger] uf.parent_of(i) == i,
    {
        let mut parent: Vec<usize> = Vec::new();
        let mut rank: Vec<usize> = Vec::new();
        let mut i: usize = 0;
        while i < n
            invariant
                i <= n,
                parent@.len() == i,
                rank@.len() == i,
                forall|j: int| 0 <= j < i ==> parent@[j] == j,
                forall|j: int| 0 <= j < i ==> rank@[j] == 0,
            decreases n - i,
        {
            parent.push(i);
            rank.push(0);
            i = i + 1;
        }
        let ghost rep = Seq::new(n as nat, |j: int| j);
        let uf = UnionFind { parent, rank, rep: Ghost(rep) };
        assert forall|j: int| 0 <= j < n && #[trigger] uf.parent@[j] == j implies uf.rank@[j]
            < class_of(rep, n as int, j).len() by {
            assert(class_of(rep, n as int, j) =~= set![j]);
        }
        assert forall|j: int| 0 <= j < n && #[trigger] uf.parent@[j] == j implies pow2(uf.rank@[j] as nat)
            <= class_of(rep, n as int, j).len() by {
            assert(class_of(rep, n as int, j) =~= set![j]);
            lemma_pow2(0);
            lemma_pow0(2);
        }
        uf
    }

    /// The representative of `x`; compresses the path from `x` to it.
    pub fn find(&mut self, x: usize) -> (r: usize)
        requires
            old(self).wf(),
            x < old(self).len(),
        ensures
            final(self).wf(),
            final(self).len() == old(self).len(),
            r == old(self).rep_of(x as int),
            r < old(self).len(),
            final(self).rep_of(r as int) == r,
            forall|i: int| 0 <= i < old(self).len() ==> #[trigger] final(self).rep_of(i)
                == old(self).rep_of(i),
            forall|i: int| 0 <= i < old(self).len() ==> #[trigger] final(self).rank_of(i)
                == old(self).rank_of(i),
            final(self).parent_of(x as int) == r,
            final(self).parent_of(r as int) == r,
            forall|i: int|
                0 <= i < old(self).len() ==> #[trigger] final(self).parent_of(i) == old(self).parent_of(i) || (
                final(self).parent_of(i) == r && old(self).rep_of(i) == r),
            old(self).parent_of(x as int) == r ==> forall|i: int|
                0 <= i < old(self).len() ==> #[trigger] final(self).parent_of(i) == old(self).parent_of(i),
        decreases old(self).rank_gap(x as int),
    {
        let ghost o = *self;
        let p = self.parent[x];
        if p != x {
            proof {
                if o.rep@[x as int] == x {
                    assert(o.rep@[o.parent@[x as int] as int] == o.rep@[x as int]);
                    assert(o.rank@[x as int] < o.rank@[p as int]);
                    assert(o.rank@[p as int] < o.rank@[o.rep@[p as int]]);
                }
            }
            let r = self.find(p);
            let ghost mid = *self;
            self.parent.set(x, r);
            proof {
                let n = self.len() as int;
                assert(self.rep@ == mid.rep@);
                assert forall|i: int| 0 <= i < n implies mid.rep@[i] == o.rep@[i] by {
                    assert(mid.rep_of(i) == o.rep_of(i));
                }
                assert forall|i: int| 0 <= i < n implies mid.rank@[i] == o.rank@[i] by {
                    assert(mid.rank_of(i) == o.rank_of(i));
                }
                assert(mid.rep@ =~= o.rep@);
                assert(mid.rank@ =~= o.rank@);
                assert forall|i: int| 0 <= i < n && #[trigger] self.parent@[i] == i implies
                    self.rank@[i] < class_of(self.rep@, n, i).len() by {
                    assert(mid.parent@[i] == i);
                }
                assert forall|i: int| 0 <= i < n && #[trigger] self.parent@[i] == i implies
                    pow2(self.rank@[i] as nat) <= class_of(self.rep@, n, i).len() by {
                    assert(mid.parent@[i] == i);
                }
                assert forall|i: int| 0 <= i < n implies #[trigger] self.parent_of(i) == o.parent_of(i) || (
                    self.parent_of(i) == r && o.rep_of(i) == r) by {
                    if i != x {
                        assert(self.parent@[i] == mid.parent@[i]);
                        assert(mid.parent_of(i) == o.parent_of(i) || (mid.parent_of(i) == r && o.rep_of(i) == r));
                    }
                }
                if o.parent_of(x as int) == r {
                    assert forall|i: int| 0 <= i < n implies #[trigger] self.parent_of(i) == o.parent_of(i) by {
                        if i != x {
                            assert(self.parent@[i] == mid.parent@[i]);
                            assert(mid.parent_of(i) == o.parent_of(i));
                        }
                    }
                }
                assert forall|i: int| 0 <= i < n implies #[trigger] self.rep@[self.parent@[i] as int]
                    == self.rep@[i] by {
                    if i != x {
                        assert(self.parent@[i] == mid.parent@[i]);
                        assert(mid.rep@[mid.parent@[i] as int] == mid.rep@[i]);
                    } else {
                        assert(o.rep@[o.parent@[x as int] as int] == o.rep@[x as int]);
                        assert(mid.parent@[mid.rep@[p as int]] == mid.rep@[p as int]);
                        assert(mid.rep@[mid.parent@[r as int] as int] == mid.rep@[r as int]);
                    }
                }
                assert forall|i: int| 0 <= i < n && #[trigger] self.parent@[i] != i implies
                    self.rank@[i] < self.rank@[self.parent@[i] as int] by {
                    if i != x {
                        assert(self.parent@[i] == mid.parent@[i]);
                    } else {
                        assert(o.rep@[o.parent@[x as int] as int] == o.rep@[x as int]);
                        assert(o.rank@[x as int] < o.rank@[o.rep@[x as int]]);
                    }
                }
                assert forall|i: int| 0 <= i < n && #[trigger] self.parent@[i] == i implies
                    self.rep@[i] == i by {
                    assert(mid.parent@[i] == i);
                }
                assert forall|i: int| 0 <= i < n implies self.parent@[#[trigger] self.rep@[i]]
                    == self.rep@[i] by {
                    let ri = self.rep@[i];
                    if ri == x {
                        assert(mid.parent@[x as int] == x);
                        assert(false);
                    }
                }
            }
        }
        self.parent[x]
    }

    /// Merges the sets of `x` and `y`; the root of lower rank goes under the other.
    pub fn union(&mut self, x: usize, y: usize)
        requires
            old(self).wf(),
            x < old(self).len(),
            y < old(self).len(),
        ensures
            final(self).wf(),
            final(self).len() == old(self).len(),
            ({
                let rx = old(self).rep_of(x as int);
                let ry = old(self).rep_of(y as int);
                let w = if rx != ry && old(self).rank_of(rx) < old(self).rank_of(ry) {
                    ry
                } else {
                    rx
                };
                forall|i: int|
                    0 <= i < old(self).len() ==> #[trigger] final(self).rep_of(i) == if old(
                        self,
                    ).rep_of(i) == rx || old(self).rep_of(i) == ry {
                        w
                    } else {
                        old(self).rep_of(i)
                    }
            }),
            ({
                let rx = old(self).rep_of(x as int);
                let ry = old(self).rep_of(y as int);
                let w = if rx != ry && old(self).rank_of(rx) < old(self).rank_of(ry) {
                    ry
                } else {
                    rx
                };
                let l = if w == rx {
                    ry
                } else {
                    rx
                };
                &&& forall|i: int|
                    0 <= i < old(self).len() ==> #[trigger] final(self).rank_of(i) == if rx != ry && old(
                        self,
                    ).rank_of(rx) == old(self).rank_of(ry) && i == rx {
                        old(self).rank_of(rx) + 1
                    } else {
                        old(self).rank_of(i)
                    }
                &&& rx != ry ==> final(self).parent_of(l) == w
                &&& forall|i: int|
                    0 <= i < old(self).len() && (rx == ry || i != l) ==> #[trigger] final(self).parent_of(i)
                        == old(self).parent_of(i) || final(self).parent_of(i) == old(self).rep_of(i)
            }),
            final(self).same(x as int, y as int),
            forall|i: int, j: int|
                0 <= i < old(self).len() && 0 <= j < old(self).len() ==> (#[trigger] final(self).same(i, j)
                    <==> (old(self).same(i, j) || (old(self).same(i, x as int) && old(self).same(
                    y as int,
                    j,
                )) || (old(self).same(i, y as int) && old(self).same(x as int, j)))),
    {
        let ghost o = *self;
        let rx = self.find(x);
        let ghost a1 = *self;
        let ry = self.find(y);
        proof {
            assert forall|i: int| 0 <= i < o.len() implies #[trigger] self.parent_of(i) == o.parent_of(i)
                || self.parent_of(i) == o.rep_of(i) by {
                assert(a1.rep_of(i) == o.rep_of(i));
                assert(a1.parent_of(i) == o.parent_of(i) || (a1.parent_of(i) == rx && o.rep_of(i) == rx));
                assert(self.parent_of(i) == a1.parent_of(i) || (self.parent_of(i) == ry && a1.rep_of(i) == ry));
            }
            assert forall|i: int| 0 <= i < o.len() implies #[trigger] self.rank_of(i) == o.rank_of(i) by {
                assert(a1.rank_of(i) == o.rank_of(i));
            }
        }
        if rx == ry {
            proof {
                assert forall|i: int| 0 <= i < o.len() implies #[trigger] self.rep_of(i)
                    == o.rep_of(i) by {
                    assert(self.rep_of(i) == o.rep_of(i));
                }
            }
            return ;
        }
        let ln = self.parent.len();
        let ghost mid = *self;
        let ghost n = self.len() as int;
        proof {
            assert(mid.rep_of(x as int) == rx);
            assert(mid.rep_of(y as int) == ry);
            mid.lemma_rank_bound(rx as int);
            mid.lemma_rank_bound(ry as int);
            assert(mid.parent@[rx as int] == rx);
            assert(mid.parent@[ry as int] == ry);
        }
        let krx = self.rank[rx];
        let kry = self.rank[ry];
        proof {
            assert(mid.rank_of(rx as int) == o.rank_of(rx as int));
            assert(mid.rank_of(ry as int) == o.rank_of(ry as int));
            assert(krx < ln);
        }
        let (w, l) = if krx < kry {
            (ry, rx)
        } else {
            (rx, ry)
        };
        self.parent.set(l, w);
        if krx == kry {
            self.rank.set(w, krx + 1);
        }
        let ghost new_rep = Seq::new(
            n as nat,
            |i: int|
                if mid.rep@[i] == rx as int || mid.rep@[i] == ry as int {
                    w as int
                } else {
                    mid.rep@[i]
                },
        );
        self.rep = Ghost(new_rep);
        proof {
            let p = self.parent@;
            let rk = self.rank@;
            let cw = class_of(mid.rep@, n, w as int);
            let cl = class_of(mid.rep@, n, l as int);
            assert(class_of(new_rep, n, w as int) =~= cw + cl);
            Self::lemma_class_finite(mid.rep@, n, w as int);
            Self::lemma_class_finite(mid.rep@, n, l as int);
            assert(cw.disjoint(cl));
            lemma_set_disjoint_lens(cw, cl);
            assert(mid.parent@[w as int] == w);
            assert(mid.parent@[l as int] == l);
            assert(cw.contains(w as int));
            assert(cl.contains(l as int));
            assert forall|i: int| 0 <= i < n && #[trigger] p[i] == i implies rk[i] < class_of(
                new_rep,
                n,
                i,
            ).len() by {
                if i != w {
                    assert(i != l);
                    assert(mid.parent@[i] == i);
                    assert(class_of(new_rep, n, i) =~= class_of(mid.rep@, n, i));
                }
            }
            assert(pow2(mid.rank@[w as int] as nat) <= cw.len());
            assert(pow2(mid.rank@[l as int] as nat) <= cl.len());
            assert forall|i: int| 0 <= i < n && #[trigger] p[i] == i implies pow2(rk[i] as nat) <= class_of(
                new_rep,
                n,
                i,
            ).len() by {
                if i != w {
                    assert(i != l);
                    assert(mid.parent@[i] == i);
                    assert(class_of(new_rep, n, i) =~= class_of(mid.rep@, n, i));
                } else if krx == kry {
                    lemma_pow2_unfold(rk[i] as nat);
                }
            }
            assert forall|i: int| 0 <= i < n implies p[#[trigger] new_rep[i]] == new_rep[i] by {
                let ri = mid.rep@[i];
                assert(mid.parent@[ri] == ri);
            }
            assert forall|i: int| 0 <= i < n implies new_rep[#[trigger] p[i] as int] == new_rep[i] by {
                if i != l {
                    assert(p[i] == mid.parent@[i]);
                    assert(mid.rep@[mid.parent@[i] as int] == mid.rep@[i]);
                } else {
                    assert(mid.rep@[l as int] == l);
                }
            }
            assert forall|i: int| 0 <= i < n && #[trigger] p[i] != i implies rk[i] < rk[p[i] as int] by {
                if i != l {
                    assert(p[i] == mid.parent@[i]);
                    assert(mid.parent@[i] != i);
                    assert(mid.rank@[i] < mid.rank@[mid.parent@[i] as int]);
                    if i == w {
                        assert(false);
                    }
                }
            }
            assert forall|i: int| 0 <= i < n && #[trigger] new_rep[i] != i implies rk[i] < rk[new_rep[i]] by {
                let ri = mid.rep@[i];
                if ri != i {
                    assert(mid.rank@[i] < mid.rank@[ri]);
                }
                if i == w {
                    assert(mid.parent@[i] == i);
                    assert(mid.rep@[i] == i);
                }
            }
            assert forall|i: int| 0 <= i < n && #[trigger] p[i] == i implies new_rep[i] == i by {
                assert(mid.parent@[i] == i);
                assert(mid.rep@[i] == i);
            }
            assert forall|i: int| 0 <= i < o.len() implies #[trigger] self.rep_of(i) == if o.rep_of(
                i,
            ) == rx || o.rep_of(i) == ry {
                w as int
            } else {
                o.rep_of(i)
            } by {
                assert(mid.rep_of(i) == o.rep_of(i));
            }
            assert forall|i: int| 0 <= i < o.len() implies #[trigger] self.rank_of(i) == if krx == kry
                && i == rx {
                o.rank_of(rx as int) + 1
            } else {
                o.rank_of(i)
            } by {
                assert(mid.rank_of(i) == o.rank_of(i));
            }
            assert forall|i: int| 0 <= i < o.len() && i != l implies #[trigger] self.parent_of(i)
                == o.parent_of(i) || self.parent_of(i) == o.rep_of(i) by {
                assert(mid.parent_of(i) == o.parent_of(i) || mid.parent_of(i) == o.rep_of(i));
            }
        }
    }
}

} // verus!
