//! Which files become one family: what the files themselves assert joins
//! them first, then what they only look like, then frames of one body and
//! one second whose appearance agrees. A file the person split off by hand
//! joins nothing.
use vstd::prelude::*;
use crate::family::links::Link;
use crate::hash::{hamming, hamming_spec};
use crate::unionfind::{relabel, singletons, UnionFind};

verus! {

/// Neither file was split off by hand.
pub open spec fn may_join(split: Seq<bool>, a: usize, b: usize) -> bool {
    !split[a as int] && !split[b as int]
}

/// The pairs of the first `m` exact links that may join.
pub open spec fn link_edges(links: Seq<Link>, split: Seq<bool>, m: int) -> Seq<(usize, usize)>
    decreases m,
{
    if m <= 0 {
        Seq::empty()
    } else {
        link_edges(links, split, m - 1) + if may_join(split, links[m - 1].a, links[m - 1].b) {
            seq![(links[m - 1].a, links[m - 1].b)]
        } else {
            Seq::empty()
        }
    }
}

/// The first `m` pairs that may join.
pub open spec fn pair_edges(pairs: Seq<(usize, usize)>, split: Seq<bool>, m: int) -> Seq<
    (usize, usize),
>
    decreases m,
{
    if m <= 0 {
        Seq::empty()
    } else {
        pair_edges(pairs, split, m - 1) + if may_join(split, pairs[m - 1].0, pairs[m - 1].1) {
            seq![pairs[m - 1]]
        } else {
            Seq::empty()
        }
    }
}

/// The first `m` same-moment pairs that may join and whose perceptual hashes
/// differ in at most `phash_max` bits.
pub open spec fn moment_edges(
    pairs: Seq<(usize, usize)>,
    split: Seq<bool>,
    phash: Seq<u64>,
    phash_max: u32,
    m: int,
) -> Seq<(usize, usize)>
    decreases m,
{
    if m <= 0 {
        Seq::empty()
    } else {
        let (a, b) = pairs[m - 1];
        moment_edges(pairs, split, phash, phash_max, m - 1) + if may_join(split, a, b)
            && hamming_spec(phash[a as int], phash[b as int]) <= phash_max {
            seq![(a, b)]
        } else {
            Seq::empty()
        }
    }
}

/// The files grouped by the first `m` edges, each named by a member of its
/// group: an edge between two groups gives the second the first's name.
pub open spec fn joined(n: nat, edges: Seq<(usize, usize)>, m: int) -> Seq<usize>
    decreases m,
{
    if m <= 0 {
        singletons(n)
    } else {
        let s = joined(n, edges, m - 1);
        let (a, b) = edges[m - 1];
        if s[a as int] == s[b as int] {
            s
        } else {
            relabel(s, s[b as int], s[a as int])
        }
    }
}

/// Two namings put the same files together.
pub open spec fn same_grouping(s: Seq<usize>, t: Seq<usize>) -> bool {
    &&& s.len() == t.len()
    &&& forall|i: int, j: int|
        0 <= i < s.len() && 0 <= j < s.len() ==> (s[i] == s[j] <==> t[i] == t[j])
}

/// Every edge of the archive, in the order they are applied.
pub open spec fn all_edges(
    split: Seq<bool>,
    links: Seq<Link>,
    looks: Seq<(usize, usize)>,
    moments: Seq<(usize, usize)>,
    phash: Seq<u64>,
    phash_max: u32,
) -> Seq<(usize, usize)> {
    link_edges(links, split, links.len() as int) + pair_edges(looks, split, looks.len() as int)
        + moment_edges(moments, split, phash, phash_max, moments.len() as int)
}

/// Where the first evidence for a file came from.
#[derive(Debug, Clone, Copy, PartialEq, Eq, Structural)]
pub enum EvidenceFrom {
    /// The exact link with this index.
    Link(usize),
    /// The perceptually verified pair with this index.
    Look(usize),
}

/// The first of the first `m` exact links that joins file `i`.
pub open spec fn first_link(links: Seq<Link>, split: Seq<bool>, i: usize, m: int) -> Option<usize>
    decreases m,
{
    if m <= 0 {
        None
    } else {
        match first_link(links, split, i, m - 1) {
            Some(k) => Some(k),
            None => if may_join(split, links[m - 1].a, links[m - 1].b) && (links[m - 1].a == i
                || links[m - 1].b == i) {
                Some((m - 1) as usize)
            } else {
                None
            },
        }
    }
}

/// The first of the first `m` verified pairs that joins file `i`.
pub open spec fn first_look(looks: Seq<(usize, usize)>, split: Seq<bool>, i: usize, m: int) -> Option<
    usize,
>
    decreases m,
{
    if m <= 0 {
        None
    } else {
        match first_look(looks, split, i, m - 1) {
            Some(k) => Some(k),
            None => if may_join(split, looks[m - 1].0, looks[m - 1].1) && (looks[m - 1].0 == i
                || looks[m - 1].1 == i) {
                Some((m - 1) as usize)
            } else {
                None
            },
        }
    }
}

/// The evidence kept for file `i`: the first exact link joining it, else
/// the first verified pair joining it.
pub open spec fn evidence_of(
    links: Seq<Link>,
    looks: Seq<(usize, usize)>,
    split: Seq<bool>,
    i: usize,
) -> Option<EvidenceFrom> {
    match first_link(links, split, i, links.len() as int) {
        Some(k) => Some(EvidenceFrom::Link(k)),
        None => match first_look(looks, split, i, looks.len() as int) {
            Some(k) => Some(EvidenceFrom::Look(k)),
            None => None,
        },
    }
}

/// The edges all join files below `n`.
pub open spec fn edges_within(edges: Seq<(usize, usize)>, n: nat) -> bool {
    forall|k: int| 0 <= k < edges.len() ==> (#[trigger] edges[k]).0 < n && edges[k].1 < n
}

proof fn lemma_joined_len(n: nat, edges: Seq<(usize, usize)>, m: int)
    requires
        m <= edges.len(),
        edges_within(edges, n),
    ensures
        joined(n, edges, m).len() == n,
    decreases m,
{
    if m > 0 {
        lemma_joined_len(n, edges, m - 1);
    }
}

proof fn lemma_union_step(u: Seq<usize>, c: Seq<usize>, a: usize, b: usize, lo: usize, hi: usize)
    requires
        same_grouping(u, c),
        a < u.len(),
        b < u.len(),
        u[a as int] != u[b as int],
        (lo == u[a as int] && hi == u[b as int]) || (lo == u[b as int] && hi == u[a as int]),
    ensures
        c[a as int] != c[b as int],
        same_grouping(relabel(u, lo, hi), relabel(c, c[b as int], c[a as int])),
{
    let u2 = relabel(u, lo, hi);
    let c2 = relabel(c, c[b as int], c[a as int]);
    assert forall|i: int, j: int|
        0 <= i < u.len() && 0 <= j < u.len() implies (u2[i] == u2[j] <==> c2[i] == c2[j]) by {
        assert(u[i] == u[a as int] <==> c[i] == c[a as int]);
        assert(u[i] == u[b as int] <==> c[i] == c[b as int]);
        assert(u[j] == u[a as int] <==> c[j] == c[a as int]);
        assert(u[j] == u[b as int] <==> c[j] == c[b as int]);
        assert(u[i] == u[j] <==> c[i] == c[j]);
    }
}

fn apply_edge(uf: &mut UnionFind, a: usize, b: usize, Ghost(n): Ghost<nat>, Ghost(edges): Ghost<Seq<(usize, usize)>>, Ghost(m): Ghost<int>)
    requires
        old(uf).wf(),
        0 <= m < edges.len(),
        edges_within(edges, n),
        old(uf)@.len() == n,
        edges[m] == (a, b),
        same_grouping(old(uf)@, joined(n, edges, m)),
    ensures
        final(uf).wf(),
        final(uf)@.len() == n,
        same_grouping(final(uf)@, joined(n, edges, m + 1)),
{
    proof {
        lemma_joined_len(n, edges, m);
        assert(edges[m].0 < n && edges[m].1 < n);
    }
    let ghost before = uf@;
    let ghost c = joined(n, edges, m);
    let merged = uf.union(a, b);
    proof {
        if merged {
            let ra = before[a as int];
            let rb = before[b as int];
            let hi = old(uf).survivor(ra, rb);
            let lo = if hi == ra {
                rb
            } else {
                ra
            };
            lemma_union_step(before, c, a, b, lo, hi);
        } else {
            assert(c[a as int] == c[b as int]);
        }
    }
}


proof fn lemma_link_edges_prefix(links: Seq<Link>, split: Seq<bool>, k: int, m: int)
    requires
        0 <= k <= m <= links.len(),
    ensures
        link_edges(links, split, k).len() <= link_edges(links, split, m).len(),
        link_edges(links, split, m).subrange(0, link_edges(links, split, k).len() as int)
            == link_edges(links, split, k),
    decreases m - k,
{
    if k < m {
        lemma_link_edges_prefix(links, split, k, m - 1);
        assert(link_edges(links, split, m).subrange(0, link_edges(links, split, k).len() as int)
            =~= link_edges(links, split, m - 1).subrange(0, link_edges(links, split, k).len() as int));
    } else {
        assert(link_edges(links, split, m).subrange(0, link_edges(links, split, k).len() as int)
            =~= link_edges(links, split, k));
    }
}

proof fn lemma_pair_edges_prefix(pairs: Seq<(usize, usize)>, split: Seq<bool>, k: int, m: int)
    requires
        0 <= k <= m <= pairs.len(),
    ensures
        pair_edges(pairs, split, k).len() <= pair_edges(pairs, split, m).len(),
        pair_edges(pairs, split, m).subrange(0, pair_edges(pairs, split, k).len() as int)
            == pair_edges(pairs, split, k),
    decreases m - k,
{
    if k < m {
        lemma_pair_edges_prefix(pairs, split, k, m - 1);
        assert(pair_edges(pairs, split, m).subrange(0, pair_edges(pairs, split, k).len() as int)
            =~= pair_edges(pairs, split, m - 1).subrange(0, pair_edges(pairs, split, k).len() as int));
    } else {
        assert(pair_edges(pairs, split, m).subrange(0, pair_edges(pairs, split, k).len() as int)
            =~= pair_edges(pairs, split, k));
    }
}

proof fn lemma_moment_edges_prefix(
    pairs: Seq<(usize, usize)>,
    split: Seq<bool>,
    phash: Seq<u64>,
    phash_max: u32,
    k: int,
    m: int,
)
    requires
        0 <= k <= m <= pairs.len(),
    ensures
        moment_edges(pairs, split, phash, phash_max, k).len() <= moment_edges(
            pairs,
            split,
            phash,
            phash_max,
            m,
        ).len(),
        moment_edges(pairs, split, phash, phash_max, m).subrange(
            0,
            moment_edges(pairs, split, phash, phash_max, k).len() as int,
        ) == moment_edges(pairs, split, phash, phash_max, k),
    decreases m - k,
{
    if k < m {
        lemma_moment_edges_prefix(pairs, split, phash, phash_max, k, m - 1);
        let ek = moment_edges(pairs, split, phash, phash_max, k);
        assert(moment_edges(pairs, split, phash, phash_max, m).subrange(0, ek.len() as int)
            =~= moment_edges(pairs, split, phash, phash_max, m - 1).subrange(0, ek.len() as int));
    } else {
        let ek = moment_edges(pairs, split, phash, phash_max, k);
        assert(moment_edges(pairs, split, phash, phash_max, m).subrange(0, ek.len() as int) =~= ek);
    }
}

/// The evidence kept for file `i` once the first `k` exact links are read.
pub open spec fn evidence_after_links(links: Seq<Link>, split: Seq<bool>, i: usize, k: int) -> Option<
    EvidenceFrom,
> {
    match first_link(links, split, i, k) {
        Some(j) => Some(EvidenceFrom::Link(j)),
        None => None,
    }
}

/// The evidence kept for file `i` once every exact link and the first `k`
/// verified pairs are read.
pub open spec fn evidence_after_looks(
    links: Seq<Link>,
    looks: Seq<(usize, usize)>,
    split: Seq<bool>,
    i: usize,
    k: int,
) -> Option<EvidenceFrom> {
    match first_link(links, split, i, links.len() as int) {
        Some(j) => Some(EvidenceFrom::Link(j)),
        None => match first_look(looks, split, i, k) {
            Some(j) => Some(EvidenceFrom::Look(j)),
            None => None,
        },
    }
}

/// Group `n` files by what joins them, in order: the exact links, then the
/// perceptually verified pairs, then the frames of one body and one second
/// whose perceptual hashes differ in at most `phash_max` bits. A file split
/// off by hand joins nothing. Also names, for each file, where the first
/// evidence that joined it came from: an exact link, else a verified pair.
pub fn join_families(
    n: usize,
    split: &[bool],
    links: &[Link],
    looks: &[(usize, usize)],
    moments: &[(usize, usize)],
    phash: &[u64],
    phash_max: u32,
) -> (r: (UnionFind, Vec<Option<EvidenceFrom>>))
    requires
        split@.len() == n,
        phash@.len() == n,
        forall|k: int| 0 <= k < links@.len() ==> (#[trigger] links@[k]).a < n && links@[k].b < n,
        forall|k: int| 0 <= k < looks@.len() ==> (#[trigger] looks@[k]).0 < n && looks@[k].1 < n,
        forall|k: int|
            0 <= k < moments@.len() ==> (#[trigger] moments@[k]).0 < n && moments@[k].1 < n,
    ensures
        r.0.wf(),
        ({
            let edges = all_edges(split@, links@, looks@, moments@, phash@, phash_max);
            same_grouping(r.0@, joined(n as nat, edges, edges.len() as int))
        }),
        r.1@.len() == n,
        forall|i: int|
            0 <= i < n ==> #[trigger] r.1@[i] == evidence_of(links@, looks@, split@, i as usize),
{
    let ghost nn = n as nat;
    let ghost le = link_edges(links@, split@, links@.len() as int);
    let ghost pe = pair_edges(looks@, split@, looks@.len() as int);
    let ghost me = moment_edges(moments@, split@, phash@, phash_max, moments@.len() as int);
    let ghost edges = all_edges(split@, links@, looks@, moments@, phash@, phash_max);
    proof {
        assert(edges == le + pe + me);
        assert forall|k: int| 0 <= k < edges.len() implies (#[trigger] edges[k]).0 < n && edges[k].1 < n by {
            if k < le.len() {
                lemma_link_within(links@, split@, n as nat, links@.len() as int, k);
            } else if k < le.len() + pe.len() {
                lemma_pair_within(looks@, split@, n as nat, looks@.len() as int, k - le.len());
            } else {
                lemma_moment_within(moments@, split@, phash@, phash_max, n as nat, moments@.len() as int, k - le.len() - pe.len());
            }
        }
    }
    let mut uf = UnionFind::new(n);
    let mut ev: Vec<Option<EvidenceFrom>> = Vec::new();
    let mut i: usize = 0;
    while i < n
        invariant
            i <= n,
            ev@.len() == i,
            forall|j: int| 0 <= j < i ==> ev@[j] is None,
        decreases n - i,
    {
        ev.push(None);
        i = i + 1;
    }
    proof {
        assert(joined(nn, edges, 0) == singletons(nn));
    }
    let ghost mut m: int = 0;
    let mut k: usize = 0;
    while k < links.len()
        invariant
            split@.len() == n,
            forall|q: int| 0 <= q < links@.len() ==> (#[trigger] links@[q]).a < n && links@[q].b < n,
            edges == le + pe + me,
            le == link_edges(links@, split@, links@.len() as int),
            edges_within(edges, nn),
            nn == n,
            k <= links@.len(),
            m == link_edges(links@, split@, k as int).len(),
            uf.wf(),
            uf@.len() == n,
            same_grouping(uf@, joined(nn, edges, m)),
            ev@.len() == n,
            forall|j: int| 0 <= j < n ==> #[trigger] ev@[j] == evidence_after_links(links@, split@, j as usize, k as int),
        decreases links@.len() - k,
    {
        let a = links[k].a;
        let b = links[k].b;
        proof {
            lemma_link_edges_prefix(links@, split@, k as int, links@.len() as int);
            lemma_link_edges_prefix(links@, split@, k + 1, links@.len() as int);
        }
        if !split[a] && !split[b] {
            proof {
                assert(link_edges(links@, split@, k + 1) == link_edges(links@, split@, k as int).push((a, b)));
                assert(le.subrange(0, m + 1)[m] == (a, b));
                assert(edges[m] == (a, b));
            }
            apply_edge(&mut uf, a, b, Ghost(nn), Ghost(edges), Ghost(m));
            proof {
                m = m + 1;
            }
            if ev[a].is_none() {
                ev.set(a, Some(EvidenceFrom::Link(k)));
            }
            if ev[b].is_none() {
                ev.set(b, Some(EvidenceFrom::Link(k)));
            }
        }
        k = k + 1;
    }
    proof {
        assert(m == le.len());
    }
    let mut k: usize = 0;
    while k < looks.len()
        invariant
            split@.len() == n,
            forall|q: int| 0 <= q < looks@.len() ==> (#[trigger] looks@[q]).0 < n && looks@[q].1 < n,
            edges == le + pe + me,
            pe == pair_edges(looks@, split@, looks@.len() as int),
            edges_within(edges, nn),
            nn == n,
            k <= looks@.len(),
            m == le.len() + pair_edges(looks@, split@, k as int).len(),
            uf.wf(),
            uf@.len() == n,
            same_grouping(uf@, joined(nn, edges, m)),
            ev@.len() == n,
            forall|j: int| 0 <= j < n ==> #[trigger] ev@[j] == evidence_after_looks(links@, looks@, split@, j as usize, k as int),
        decreases looks@.len() - k,
    {
        let (a, b) = looks[k];
        proof {
            lemma_pair_edges_prefix(looks@, split@, k as int, looks@.len() as int);
            lemma_pair_edges_prefix(looks@, split@, k + 1, looks@.len() as int);
        }
        if !split[a] && !split[b] {
            proof {
                let pk = pair_edges(looks@, split@, k as int);
                assert(pair_edges(looks@, split@, k + 1) == pk.push((a, b)));
                assert(pe.subrange(0, pk.len() as int + 1)[pk.len() as int] == (a, b));
                assert(edges[m] == (a, b));
            }
            apply_edge(&mut uf, a, b, Ghost(nn), Ghost(edges), Ghost(m));
            proof {
                m = m + 1;
            }
            if ev[a].is_none() {
                ev.set(a, Some(EvidenceFrom::Look(k)));
            }
            if ev[b].is_none() {
                ev.set(b, Some(EvidenceFrom::Look(k)));
            }
        }
        k = k + 1;
    }
    let mut k: usize = 0;
    while k < moments.len()
        invariant
            split@.len() == n,
            phash@.len() == n,
            forall|q: int|
                0 <= q < moments@.len() ==> (#[trigger] moments@[q]).0 < n && moments@[q].1 < n,
            edges == le + pe + me,
            me == moment_edges(moments@, split@, phash@, phash_max, moments@.len() as int),
            edges_within(edges, nn),
            nn == n,
            k <= moments@.len(),
            m == le.len() + pe.len() + moment_edges(moments@, split@, phash@, phash_max, k as int).len(),
            uf.wf(),
            uf@.len() == n,
            same_grouping(uf@, joined(nn, edges, m)),
        decreases moments@.len() - k,
    {
        let (a, b) = moments[k];
        proof {
            lemma_moment_edges_prefix(moments@, split@, phash@, phash_max, k as int, moments@.len() as int);
            lemma_moment_edges_prefix(moments@, split@, phash@, phash_max, k + 1, moments@.len() as int);
        }
        if !split[a] && !split[b] && hamming(phash[a], phash[b]) <= phash_max {
            proof {
                let mk = moment_edges(moments@, split@, phash@, phash_max, k as int);
                assert(moment_edges(moments@, split@, phash@, phash_max, k + 1) == mk.push((a, b)));
                assert(me.subrange(0, mk.len() as int + 1)[mk.len() as int] == (a, b));
                assert(edges[m] == (a, b));
            }
            apply_edge(&mut uf, a, b, Ghost(nn), Ghost(edges), Ghost(m));
            proof {
                m = m + 1;
            }
        }
        k = k + 1;
    }
    proof {
        assert(m == edges.len());
    }
    (uf, ev)
}

proof fn lemma_link_within(links: Seq<Link>, split: Seq<bool>, n: nat, m: int, k: int)
    requires
        m <= links.len(),
        forall|q: int| 0 <= q < links.len() ==> (#[trigger] links[q]).a < n && links[q].b < n,
        0 <= k < link_edges(links, split, m).len(),
    ensures
        link_edges(links, split, m)[k].0 < n && link_edges(links, split, m)[k].1 < n,
    decreases m,
{
    if k < link_edges(links, split, m - 1).len() {
        lemma_link_within(links, split, n, m - 1, k);
    }
}

proof fn lemma_pair_within(pairs: Seq<(usize, usize)>, split: Seq<bool>, n: nat, m: int, k: int)
    requires
        m <= pairs.len(),
        forall|q: int| 0 <= q < pairs.len() ==> (#[trigger] pairs[q]).0 < n && pairs[q].1 < n,
        0 <= k < pair_edges(pairs, split, m).len(),
    ensures
        pair_edges(pairs, split, m)[k].0 < n && pair_edges(pairs, split, m)[k].1 < n,
    decreases m,
{
    if k < pair_edges(pairs, split, m - 1).len() {
        lemma_pair_within(pairs, split, n, m - 1, k);
    }
}

proof fn lemma_moment_within(
    pairs: Seq<(usize, usize)>,
    split: Seq<bool>,
    phash: Seq<u64>,
    phash_max: u32,
    n: nat,
    m: int,
    k: int,
)
    requires
        m <= pairs.len(),
        forall|q: int| 0 <= q < pairs.len() ==> (#[trigger] pairs[q]).0 < n && pairs[q].1 < n,
        0 <= k < moment_edges(pairs, split, phash, phash_max, m).len(),
    ensures
        moment_edges(pairs, split, phash, phash_max, m)[k].0 < n && moment_edges(
            pairs,
            split,
            phash,
            phash_max,
            m,
        )[k].1 < n,
    decreases m,
{
    if k < moment_edges(pairs, split, phash, phash_max, m - 1).len() {
        lemma_moment_within(pairs, split, phash, phash_max, n, m - 1, k);
    }
}


/// What holds a family together, as the index records it.
#[derive(Debug, Clone, Copy, PartialEq, Eq, Structural)]
pub enum FamilyKind {
    /// One file on its own.
    Single,
    /// At least one member was joined by evidence.
    Linked,
    /// Joined only by appearance at one moment.
    Perceptual,
}

impl FamilyKind {
    /// The word stored for this kind.
    pub open spec fn name(self) -> Seq<char> {
        match self {
            FamilyKind::Single => "single"@,
            FamilyKind::Linked => "linked"@,
            FamilyKind::Perceptual => "perceptual"@,
        }
    }

    pub fn as_str(self) -> (r: &'static str)
        ensures
            r@ == self.name(),
    {
        match self {
            FamilyKind::Single => "single",
            FamilyKind::Linked => "linked",
            FamilyKind::Perceptual => "perceptual",
        }
    }
}

/// File `m` carries evidence.
pub open spec fn carries(evidence: Seq<Option<EvidenceFrom>>, m: usize) -> bool {
    evidence[m as int] is Some
}

/// The kind of a family with these members: a lone file is single; a
/// family any member of which carries evidence is linked; the rest were
/// joined by appearance alone.
pub fn family_kind(members: &[usize], evidence: &[Option<EvidenceFrom>]) -> (r: FamilyKind)
    requires
        forall|k: int| 0 <= k < members@.len() ==> #[trigger] members@[k] < evidence@.len(),
    ensures
        r == if members@.len() == 1 {
            FamilyKind::Single
        } else if exists|k: int| 0 <= k < members@.len() && #[trigger] carries(evidence@, members@[k]) {
            FamilyKind::Linked
        } else {
            FamilyKind::Perceptual
        },
{
    if members.len() == 1 {
        return FamilyKind::Single;
    }
    let mut k: usize = 0;
    while k < members.len()
        invariant
            forall|q: int| 0 <= q < members@.len() ==> #[trigger] members@[q] < evidence@.len(),
            members@.len() != 1,
            k <= members@.len(),
            forall|q: int| 0 <= q < k ==> !#[trigger] carries(evidence@, members@[q]),
        decreases members@.len() - k,
    {
        if evidence[members[k]].is_some() {
            assert(carries(evidence@, members@[k as int]));
            return FamilyKind::Linked;
        }
        k = k + 1;
    }
    FamilyKind::Perceptual
}

/// The position of the member a family keeps: the first member whose file
/// was chosen by hand, else `ranked`, the position the ranking chose.
pub fn keeper_position(member_ids: &[i64], manual: &[i64], ranked: usize) -> (r: usize)
    ensures
        (exists|p: int| 0 <= p < member_ids@.len() && manual@.contains(#[trigger] member_ids@[p]))
            ==> {
            &&& r < member_ids@.len()
            &&& manual@.contains(member_ids@[r as int])
            &&& forall|p: int| 0 <= p < r ==> !manual@.contains(#[trigger] member_ids@[p])
        },
        !(exists|p: int| 0 <= p < member_ids@.len() && manual@.contains(#[trigger] member_ids@[p]))
            ==> r == ranked,
{
    let mut p: usize = 0;
    while p < member_ids.len()
        invariant
            p <= member_ids@.len(),
            forall|q: int| 0 <= q < p ==> !manual@.contains(#[trigger] member_ids@[q]),
        decreases member_ids@.len() - p,
    {
        let id = member_ids[p];
        let mut j: usize = 0;
        let mut found = false;
        while j < manual.len()
            invariant
                j <= manual@.len(),
                found ==> manual@.contains(id),
                !found ==> forall|q: int| 0 <= q < j ==> manual@[q] != id,
            decreases manual@.len() - j,
        {
            if manual[j] == id {
                found = true;
                assert(manual@[j as int] == id);
            }
            j = j + 1;
        }
        if found {
            return p;
        }
        p = p + 1;
    }
    ranked
}

proof fn lemma_stays_together(n: nat, edges: Seq<(usize, usize)>, k: int, m: int)
    requires
        edges_within(edges, n),
        0 <= k < m <= edges.len(),
    ensures
        joined(n, edges, m)[edges[k].0 as int] == joined(n, edges, m)[edges[k].1 as int],
    decreases m,
{
    lemma_joined_len(n, edges, m - 1);
    if k < m - 1 {
        lemma_stays_together(n, edges, k, m - 1);
    }
}

/// Two files an applied edge joins end up in one family, whatever is
/// applied after it.
pub proof fn law_joined_files_stay_together(n: nat, edges: Seq<(usize, usize)>, k: int)
    requires
        edges_within(edges, n),
        0 <= k < edges.len(),
    ensures
        joined(n, edges, edges.len() as int)[edges[k].0 as int] == joined(
            n,
            edges,
            edges.len() as int,
        )[edges[k].1 as int],
{
    lemma_stays_together(n, edges, k, edges.len() as int);
}

proof fn lemma_untouched_alone(n: nat, edges: Seq<(usize, usize)>, i: usize, m: int)
    requires
        edges_within(edges, n),
        0 <= m <= edges.len(),
        i < n,
        n <= usize::MAX,
        forall|k: int| 0 <= k < edges.len() ==> (#[trigger] edges[k]).0 != i && edges[k].1 != i,
    ensures
        joined(n, edges, m)[i as int] == i,
        forall|j: int| 0 <= j < n && j != i ==> joined(n, edges, m)[j] != i,
    decreases m,
{
    if m > 0 {
        lemma_untouched_alone(n, edges, i, m - 1);
        lemma_joined_len(n, edges, m - 1);
        let e = edges[m - 1];
        assert(e.0 != i && e.1 != i);
    } else {
        assert forall|j: int| 0 <= j < n && j != i implies joined(n, edges, m)[j] != i by {
            assert(singletons(n)[j] == j as usize);
        }
    }
}

/// A file split off by hand joins nothing: it is alone in its family.
pub proof fn law_a_split_file_stays_alone(
    split: Seq<bool>,
    links: Seq<Link>,
    looks: Seq<(usize, usize)>,
    moments: Seq<(usize, usize)>,
    phash: Seq<u64>,
    phash_max: u32,
    i: usize,
    j: usize,
)
    requires
        i < split.len(),
        j < split.len(),
        i != j,
        split.len() <= usize::MAX,
        split[i as int],
        forall|k: int| 0 <= k < links.len() ==> (#[trigger] links[k]).a < split.len() && links[k].b
            < split.len(),
        forall|k: int| 0 <= k < looks.len() ==> (#[trigger] looks[k]).0 < split.len() && looks[k].1
            < split.len(),
        forall|k: int|
            0 <= k < moments.len() ==> (#[trigger] moments[k]).0 < split.len() && moments[k].1
                < split.len(),
    ensures
        ({
            let edges = all_edges(split, links, looks, moments, phash, phash_max);
            let g = joined(split.len(), edges, edges.len() as int);
            g[i as int] != g[j as int]
        }),
{
    let n = split.len();
    let le = link_edges(links, split, links.len() as int);
    let pe = pair_edges(looks, split, looks.len() as int);
    let me = moment_edges(moments, split, phash, phash_max, moments.len() as int);
    let edges = all_edges(split, links, looks, moments, phash, phash_max);
    assert(edges == le + pe + me);
    assert forall|k: int| 0 <= k < edges.len() implies (#[trigger] edges[k]).0 < n && edges[k].1 < n
        && may_join(split, edges[k].0, edges[k].1) by {
        if k < le.len() {
            lemma_link_within(links, split, n, links.len() as int, k);
            lemma_link_may_join(links, split, links.len() as int, k);
        } else if k < le.len() + pe.len() {
            lemma_pair_within(looks, split, n, looks.len() as int, k - le.len());
            lemma_pair_may_join(looks, split, looks.len() as int, k - le.len());
        } else {
            lemma_moment_within(moments, split, phash, phash_max, n, moments.len() as int, k - le.len() - pe.len());
            lemma_moment_may_join(moments, split, phash, phash_max, moments.len() as int, k - le.len() - pe.len());
        }
    }
    lemma_untouched_alone(n, edges, i, edges.len() as int);
}

proof fn lemma_link_may_join(links: Seq<Link>, split: Seq<bool>, m: int, k: int)
    requires
        m <= links.len(),
        0 <= k < link_edges(links, split, m).len(),
    ensures
        may_join(split, link_edges(links, split, m)[k].0, link_edges(links, split, m)[k].1),
    decreases m,
{
    if k < link_edges(links, split, m - 1).len() {
        lemma_link_may_join(links, split, m - 1, k);
    }
}

proof fn lemma_pair_may_join(pairs: Seq<(usize, usize)>, split: Seq<bool>, m: int, k: int)
    requires
        m <= pairs.len(),
        0 <= k < pair_edges(pairs, split, m).len(),
    ensures
        may_join(split, pair_edges(pairs, split, m)[k].0, pair_edges(pairs, split, m)[k].1),
    decreases m,
{
    if k < pair_edges(pairs, split, m - 1).len() {
        lemma_pair_may_join(pairs, split, m - 1, k);
    }
}

proof fn lemma_moment_may_join(
    pairs: Seq<(usize, usize)>,
    split: Seq<bool>,
    phash: Seq<u64>,
    phash_max: u32,
    m: int,
    k: int,
)
    requires
        m <= pairs.len(),
        0 <= k < moment_edges(pairs, split, phash, phash_max, m).len(),
    ensures
        may_join(
            split,
            moment_edges(pairs, split, phash, phash_max, m)[k].0,
            moment_edges(pairs, split, phash, phash_max, m)[k].1,
        ),
    decreases m,
{
    if k < moment_edges(pairs, split, phash, phash_max, m - 1).len() {
        lemma_moment_may_join(pairs, split, phash, phash_max, m - 1, k);
    }
}

} // verus!
