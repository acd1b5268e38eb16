//! Disjoint sets over file indices: union by rank, find with path halving.
use vstd::prelude::*;
use std::collections::BTreeMap;

verus! {

broadcast use vstd::laws_cmp::group_laws_cmp, vstd::std_specs::btree::group_btree_axioms;

/// Two to the power `k`.
pub open spec fn pow2n(k: nat) -> nat
    decreases k,
{
    if k == 0 {
        1
    } else {
        2 * pow2n((k - 1) as nat)
    }
}

/// How many entries of `s` equal `r`.
pub open spec fn count_of(s: Seq<usize>, r: usize) -> nat
    decreases s.len(),
{
    if s.len() == 0 {
        0
    } else {
        count_of(s.drop_last(), r) + if s.last() == r {
            1nat
        } else {
            0nat
        }
    }
}

/// `s` with every entry equal to `from` replaced by `to`.
pub open spec fn relabel(s: Seq<usize>, from: usize, to: usize) -> Seq<usize> {
    Seq::new(s.len(), |i: int| if s[i] == from { to } else { s[i] })
}

/// The indices below `m` whose entry in `s` is `k`, in increasing order.
pub open spec fn members(s: Seq<usize>, k: usize, m: int) -> Seq<usize>
    decreases m,
{
    if m <= 0 {
        Seq::empty()
    } else {
        members(s, k, m - 1) + if s[m - 1] == k {
            seq![(m - 1) as usize]
        } else {
            Seq::empty()
        }
    }
}

/// The identity labelling of `n` elements: each one its own set.
pub open spec fn singletons(n: nat) -> Seq<usize> {
    Seq::new(n, |i: int| i as usize)
}

proof fn lemma_pow2n_large(k: nat)
    requires
        k >= 64,
    ensures
        pow2n(k) >= 0x1_0000_0000_0000_0000,
    decreases k,
{
    if k == 64 {
        reveal_with_fuel(pow2n, 65);
    } else {
        lemma_pow2n_large((k - 1) as nat);
    }
}

proof fn lemma_count_bound(s: Seq<usize>, r: usize)
    ensures
        count_of(s, r) <= s.len(),
    decreases s.len(),
{
    if s.len() > 0 {
        lemma_count_bound(s.drop_last(), r);
    }
}

proof fn lemma_count_push(s: Seq<usize>, x: usize, r: usize)
    ensures
        count_of(s.push(x), r) == count_of(s, r) + if x == r {
            1nat
        } else {
            0nat
        },
{
    assert(s.push(x).drop_last() =~= s);
}

proof fn lemma_count_relabel(s: Seq<usize>, lo: usize, hi: usize, r: usize)
    requires
        lo != hi,
    ensures
        count_of(relabel(s, lo, hi), r) == if r == hi {
            count_of(s, hi) + count_of(s, lo)
        } else if r == lo {
            0
        } else {
            count_of(s, r)
        },
    decreases s.len(),
{
    if s.len() > 0 {
        assert(relabel(s, lo, hi).drop_last() =~= relabel(s.drop_last(), lo, hi));
        lemma_count_relabel(s.drop_last(), lo, hi, r);
    }
}

proof fn lemma_members_nonempty(s: Seq<usize>, k: usize, m: int)
    requires
        0 <= m <= s.len(),
    ensures
        members(s, k, m).len() > 0 <==> exists|j: int| 0 <= j < m && s[j] == k,
    decreases m,
{
    if m > 0 {
        lemma_members_nonempty(s, k, m - 1);
        if s[m - 1] == k {
            assert(members(s, k, m)[members(s, k, m).len() - 1] == (m - 1) as usize);
        }
    }
}

/// A partition of `0..n`, each set named by one of its members.
pub struct UnionFind {
    parent: Vec<usize>,
    rank: Vec<u8>,
    roots: Ghost<Seq<usize>>,
}

impl View for UnionFind {
    /// For each element, the representative of its set.
    type V = Seq<usize>;

    closed spec fn view(&self) -> Seq<usize> {
        self.roots@
    }
}

impl UnionFind {
    /// The rank recorded for element `i`; it decides which representative survives a union.
    pub closed spec fn rank_of(&self, i: int) -> nat {
        self.rank@[i] as nat
    }

    /// The representative that `union` keeps when it joins the sets of `ra` and `rb`.
    pub open spec fn survivor(&self, ra: usize, rb: usize) -> usize {
        if self.rank_of(ra as int) < self.rank_of(rb as int) {
            rb
        } else {
            ra
        }
    }

    /// Parent links stay in range, lead to the set's representative with
    /// strictly growing rank, and a set whose representative has rank `k`
    /// holds at least `2^k` elements.
    pub closed spec fn wf(&self) -> bool {
        let n = self.parent@.len();
        let p = self.parent@;
        let r = self.roots@;
        &&& self.rank@.len() == n
        &&& r.len() == n
        &&& forall|i: int| 0 <= i < n ==> (#[trigger] p[i]) < n
        &&& forall|i: int| 0 <= i < n ==> (#[trigger] r[i]) < n
        &&& forall|i: int| 0 <= i < n ==> r[(#[trigger] r[i]) as int] == r[i]
        &&& forall|i: int| 0 <= i < n ==> ((#[trigger] p[i]) == i <==> r[i] == i)
        &&& forall|i: int| 0 <= i < n ==> r[(#[trigger] p[i]) as int] == r[i]
        &&& forall|i: int|
            0 <= i < n && p[i] != i ==> self.rank@[i] < self.rank@[(#[trigger] p[i]) as int]
        &&& forall|k: usize|
            k < n && r[k as int] == k ==> pow2n(self.rank@[k as int] as nat) <= #[trigger] count_of(
                r,
                k,
            )
    }

    /// `n` elements, each in a set of its own.
    pub fn new(n: usize) -> (u: Self)
        ensures
            u.wf(),
            u@ == singletons(n as nat),
            forall|i: int| 0 <= i < n ==> u.rank_of(i) == 0,
    {
        let mut parent: Vec<usize> = Vec::new();
        let mut rank: Vec<u8> = Vec::new();
        for i in 0..n
            invariant
                parent@ == singletons(i as nat),
                rank@.len() == i,
                forall|j: int| 0 <= j < i ==> rank@[j] == 0,
                forall|r: usize|
                    #[trigger] count_of(parent@, r) == if r < i {
                        1nat
                    } else {
                        0nat
                    },
        {
            proof {
                assert forall|r: usize|
                    #[trigger] count_of(parent@.push(i), r) == if r < i + 1 {
                        1nat
                    } else {
                        0nat
                    } by {
                    lemma_count_push(parent@, i, r);
                }
            }
            parent.push(i);
            rank.push(0);
            assert(parent@ =~= singletons((i + 1) as nat));
        }
        let ghost roots = parent@;
        let u = UnionFind { parent, rank, roots: Ghost(roots) };
        assert(u.wf()) by {
            assert forall|k: usize| k < n && roots[k as int] == k implies pow2n(
                u.rank@[k as int] as nat,
            ) <= #[trigger] count_of(roots, k) by {
                assert(count_of(roots, k) == 1);
            }
        }
        u
    }

    /// The representative of `x`'s set; halves the path it walks.
    pub fn find(&mut self, x: usize) -> (r: usize)
        requires
            old(self).wf(),
            x < old(self)@.len(),
        ensures
            final(self).wf(),
            final(self)@ == old(self)@,
            forall|i: int| #[trigger] final(self).rank_of(i) == old(self).rank_of(i),
            r == old(self)@[x as int],
    {
        let ghost x0 = x;
        let mut x = x;
        while self.parent[x] != x
            invariant
                self.wf(),
                self@ == old(self)@,
                self.rank@ == old(self).rank@,
                x < self@.len(),
                self@[x as int] == old(self)@[x0 as int],
            decreases 256 - self.rank@[x as int],
        {
            let p = self.parent[x];
            let gp = self.parent[p];
            proof {
                assert(self.roots@[p as int] == self.roots@[x as int]);
                assert(self.roots@[gp as int] == self.roots@[p as int]);
                if self.parent@[p as int] != p {
                    assert(self.rank@[p as int] < self.rank@[gp as int]);
                }
            }
            self.parent.set(x, gp);
            proof {
                let n = self.parent@.len();
                let pp = self.parent@;
                let r = self.roots@;
                assert forall|i: int| 0 <= i < n implies ((#[trigger] pp[i]) == i <==> r[i]
                    == i) by {
                    if i == x {
                        assert(self.rank@[x as int] < self.rank@[gp as int]);
                    }
                }
            }
            x = gp;
        }
        x
    }

    /// Joins the sets of `a` and `b`; false when they were already one set.
    pub fn union(&mut self, a: usize, b: usize) -> (merged: bool)
        requires
            old(self).wf(),
            a < old(self)@.len(),
            b < old(self)@.len(),
        ensures
            final(self).wf(),
            final(self)@.len() == old(self)@.len(),
            merged == (old(self)@[a as int] != old(self)@[b as int]),
            !merged ==> final(self)@ == old(self)@,
            merged ==> ({
                let ra = old(self)@[a as int];
                let rb = old(self)@[b as int];
                let hi = old(self).survivor(ra, rb);
                let lo = if hi == ra {
                    rb
                } else {
                    ra
                };
                &&& final(self)@ == relabel(old(self)@, lo, hi)
                &&& forall|i: int|
                    0 <= i < old(self)@.len() ==> #[trigger] final(self).rank_of(i) == if i == hi && old(self).rank_of(
                        hi as int,
                    ) == old(self).rank_of(lo as int) {
                        old(self).rank_of(i) + 1
                    } else {
                        old(self).rank_of(i)
                    }
            }),
            !merged ==> forall|i: int|
                0 <= i < old(self)@.len() ==> #[trigger] final(self).rank_of(i) == old(
                    self,
                ).rank_of(i),
            forall|i: int, j: int|
                0 <= i < old(self)@.len() && 0 <= j < old(self)@.len() ==> ((
                #[trigger] final(self)@[i] == #[trigger] final(self)@[j]) <==> (old(self)@[i]
                == old(self)@[j] || (old(self)@[i] == old(self)@[a as int] && old(self)@[j]
                == old(self)@[b as int]) || (old(self)@[i] == old(self)@[b as int]
                && old(self)@[j] == old(self)@[a as int]))),
    {
        let ra = self.find(a);
        let rb = self.find(b);
        if ra == rb {
            return false;
        }
        proof {
            assert forall|i: int| old(self).rank@[i] == self.rank@[i] by {
                assert(self.rank_of(i) == old(self).rank_of(i));
            }
            assert(old(self).rank@ =~= self.rank@);
        }
        let (hi, lo) = if self.rank[ra] < self.rank[rb] {
            (rb, ra)
        } else {
            (ra, rb)
        };
        let nn = self.parent.len();
        let ghost s = self.roots@;
        let ghost n = s.len();
        let ghost s2 = relabel(s, lo, hi);
        proof {
            lemma_count_relabel(s, lo, hi, hi);
            lemma_count_bound(s2, hi);
            assert(self.parent@[hi as int] == hi);
            assert(self.parent@[lo as int] == lo);
            if self.rank@[hi as int] == self.rank@[lo as int] {
                let k = self.rank@[hi as int] as nat;
                assert(pow2n(k + 1) == 2 * pow2n(k));
                if k + 1 >= 64 {
                    lemma_pow2n_large(k + 1);
                }
            }
        }
        self.parent.set(lo, hi);
        if self.rank[hi] == self.rank[lo] {
            let bumped = self.rank[hi] + 1;
            self.rank.set(hi, bumped);
        }
        self.roots = Ghost(s2);
        proof {
            let p = self.parent@;
            let r = self.roots@;
            assert forall|i: int| 0 <= i < n implies r[(#[trigger] r[i]) as int] == r[i] by {
                if s[i] != lo {
                    assert(s[s[i] as int] == s[i]);
                }
            }
            assert forall|i: int| 0 <= i < n implies ((#[trigger] p[i]) == i <==> r[i]
                == i) by {
                if i != lo && s[i] == lo {
                    assert(s[s[i] as int] == s[i]);
                }
            }
            assert forall|i: int| 0 <= i < n implies r[(#[trigger] p[i]) as int] == r[i] by {
                if i != lo {
                    assert(s[p[i] as int] == s[i]);
                }
            }
            assert forall|i: int|
                0 <= i < n && p[i] != i implies self.rank@[i] < self.rank@[(
                #[trigger] p[i]) as int] by {
                if i != lo {
                    assert(old(self).rank@[i] < old(self).rank@[p[i] as int] || self.rank@[i]
                        < self.rank@[p[i] as int]);
                }
            }
            assert forall|k: usize| k < n && r[k as int] == k implies pow2n(
                self.rank@[k as int] as nat,
            ) <= #[trigger] count_of(r, k) by {
                lemma_count_relabel(s, lo, hi, k);
                if k != hi {
                    assert(s[k as int] == k);
                }
            }
            assert(self.wf());
        }
        true
    }

    /// Each set, keyed by its representative, with its members in increasing order.
    pub fn groups(&mut self) -> (out: BTreeMap<usize, Vec<usize>>)
        requires
            old(self).wf(),
        ensures
            final(self).wf(),
            final(self)@ == old(self)@,
            forall|i: int| #[trigger] final(self).rank_of(i) == old(self).rank_of(i),
            forall|k: usize|
                #[trigger] out@.contains_key(k) <==> (k < old(self)@.len() && old(self)@[k as int]
                    == k),
            forall|k: usize|
                #[trigger] out@.contains_key(k) ==> out@[k]@ == members(
                    old(self)@,
                    k,
                    old(self)@.len() as int,
                ),
    {
        let n = self.parent.len();
        let mut out: BTreeMap<usize, Vec<usize>> = BTreeMap::new();
        for i in 0..n
            invariant
                self.wf(),
                self@ == old(self)@,
                forall|j: int| #[trigger] self.rank_of(j) == old(self).rank_of(j),
                n == self@.len(),
                forall|k: usize|
                    #[trigger] out@.contains_key(k) <==> members(self@, k, i as int).len() > 0,
                forall|k: usize|
                    #[trigger] out@.contains_key(k) ==> out@[k]@ == members(self@, k, i as int),
        {
            let r = self.find(i);
            let ghost s = self@;
            proof {
                assert forall|k: usize| k != r implies #[trigger] members(s, k, i + 1) == members(
                    s,
                    k,
                    i as int,
                ) by {
                    assert(members(s, k, i as int) + Seq::<usize>::empty() =~= members(
                        s,
                        k,
                        i as int,
                    ));
                }
                assert(members(s, r, i + 1) == members(s, r, i as int).push(i));
            }
            let cur = out.remove(&r);
            match cur {
                Some(v) => {
                    let mut v = v;
                    v.push(i);
                    out.insert(r, v);
                },
                None => {
                    assert(members(s, r, i as int) =~= Seq::<usize>::empty());
                    let mut v: Vec<usize> = Vec::new();
                    v.push(i);
                    out.insert(r, v);
                },
            }
        }
        proof {
            let s = self@;
            assert forall|k: usize| #[trigger] out@.contains_key(k) <==> (k < s.len() && s[k as int]
                == k) by {
                lemma_members_nonempty(s, k, n as int);
                if k < s.len() && s[k as int] == k {
                    assert(s[k as int] == k);
                }
                if exists|j: int| 0 <= j < n && s[j] == k {
                    let j = choose|j: int| 0 <= j < n && s[j] == k;
                    assert(s[s[j] as int] == s[j]);
                }
            }
        }
        out
    }
}

/// A representative stands for itself: looking up the representative of a
/// representative gives it back, so `find` is idempotent.
pub proof fn law_find_idempotent(u: &UnionFind, x: int)
    requires
        u.wf(),
        0 <= x < u@.len(),
    ensures
        u@[u@[x] as int] == u@[x],
        u@[x] < u@.len(),
{
}

} // verus!
