//! Coverage findings over a grammar and corpus statistics: productions no
//! payload reached or few payloads reached, alternatives chosen far less
//! often than their siblings, and choke points (productions that only one
//! alternative of one parent refers to).
use vstd::prelude::*;
use crate::grammar::GrammarIr;
use crate::analysis::{nt_target, slot_valid, refs_in_bounds, ref_in_bounds};
use crate::stats::{CorpusStats, ProductionStats, AlternativeStats};

verus! {

/// A production that no payload of the corpus reached.
#[derive(Debug, Clone)]
pub struct UnreachedProduction {
    pub name: String,
    pub production_id: u32,
}

/// A production that only one alternative of one parent refers to.
#[derive(Debug, Clone)]
pub struct ChokePoint {
    pub production_name: String,
    pub production_id: u32,
    /// The single parent that refers to it.
    pub parent_name: String,
    pub parent_id: u32,
    /// Which alternative of the parent refers to it.
    pub parent_alt_index: usize,
}

/// The productions of `ps` with no payload hit, in order, by name and id.
pub open spec fn unreached_spec(ps: Seq<ProductionStats>) -> Seq<(Seq<char>, u32)>
    decreases ps.len(),
{
    if ps.len() == 0 {
        seq![]
    } else {
        let rest = unreached_spec(ps.drop_last());
        if ps.last().payload_hit_count == 0 {
            rest.push((ps.last().name@, ps.last().production_id))
        } else {
            rest
        }
    }
}

pub open spec fn unreached_view(r: Seq<UnreachedProduction>) -> Seq<(Seq<char>, u32)> {
    r.map_values(|u: UnreachedProduction| (u.name@, u.production_id))
}

/// The productions that no payload reached.
pub fn unreached_productions(stats: &CorpusStats) -> (r: Vec<UnreachedProduction>)
    ensures
        unreached_view(r@) == unreached_spec(stats.productions@),
{
    let ps = &stats.productions;
    let mut out: Vec<UnreachedProduction> = Vec::new();
    let mut i: usize = 0;
    while i < ps.len()
        invariant
            0 <= i <= ps@.len(),
            unreached_view(out@) == unreached_spec(ps@.take(i as int)),
        decreases ps@.len() - i,
    {
        assert(ps@.take(i as int + 1).drop_last() =~= ps@.take(i as int));
        if ps[i].payload_hit_count == 0 {
            let ghost before = out@;
            out.push(UnreachedProduction { name: ps[i].name.clone(), production_id: ps[i].production_id });
            assert(unreached_view(out@) =~= unreached_view(before).push((ps@[i as int].name@, ps@[i as int].production_id)));
        }
        i += 1;
    }
    assert(ps@.take(ps@.len() as int) =~= ps@);
    out
}

/// Symbol `k` of alternative `a` of production `i` refers to production `t`.
pub open spec fn refers(g: GrammarIr, t: int, i: int, a: int, k: int) -> bool {
    0 <= i < g.productions@.len() && slot_valid(g, i, a, k) && nt_target(g, i, a, k) == Some(t)
}

/// Exactly one (parent id, alternative) pair refers to production `t`, and
/// it is `(p, a)`.
pub open spec fn sole_parent(g: GrammarIr, t: int, p: u32, a: int) -> bool {
    &&& exists|i: int, k: int| #[trigger] refers(g, t, i, a, k) && g.productions@[i].id.0 == p
    &&& forall|i: int, a2: int, k: int| #[trigger] refers(g, t, i, a2, k) ==> g.productions@[i].id.0 == p && a2 == a
}

/// Whether production `t` has a sole parent.
pub open spec fn has_sole_parent(g: GrammarIr, t: int) -> bool {
    exists|p: u32, a: int| #[trigger] sole_parent(g, t, p, a)
}

/// The ids reference targets and productions use index the productions.
pub open spec fn ids_in_range(g: GrammarIr) -> bool {
    &&& refs_in_bounds(g)
    &&& forall|i: int| 0 <= i < g.productions@.len() ==> (#[trigger] g.productions@[i]).id.0 < g.productions@.len()
}

/// The choke points among the first `n` productions, in order: productions
/// other than the start with a sole parent, by index.
pub open spec fn choke_indices(g: GrammarIr, n: int) -> Seq<int>
    decreases n,
{
    if n <= 0 {
        seq![]
    } else {
        let rest = choke_indices(g, n - 1);
        let id = g.productions@[n - 1].id;
        if id != g.start && has_sole_parent(g, id.0 as int) {
            rest.push(n - 1)
        } else {
            rest
        }
    }
}

/// A choke point reports production `i` and its sole parent.
pub open spec fn choke_ok(g: GrammarIr, c: ChokePoint, i: int) -> bool {
    let prod = g.productions@[i];
    &&& c.production_name@ == prod.name@
    &&& c.production_id == prod.id.0
    &&& sole_parent(g, prod.id.0 as int, c.parent_id, c.parent_alt_index as int)
    &&& c.parent_name@ == g.productions@[c.parent_id as int].name@
}

/// The first pair seen for a target, and whether another was seen: the
/// state of the scan over the references before slot `(ci, ca, ck)`.
pub open spec fn seen_before(i: int, a: int, k: int, ci: int, ca: int, ck: int) -> bool {
    i < ci || (i == ci && (a < ca || (a == ca && k < ck)))
}

pub open spec fn scan_ok(g: GrammarIr, first: Seq<Option<(u32, usize)>>, multi: Seq<bool>, ci: int, ca: int, ck: int) -> bool {
    forall|t: int| 0 <= t < first.len() ==> {
        &&& (#[trigger] first[t] is None <==> forall|i: int, a: int, k: int| refers(g, t, i, a, k) ==> !seen_before(i, a, k, ci, ca, ck))
        &&& (first[t] matches Some(pr) ==> exists|i: int, k: int| #[trigger] refers(g, t, i, pr.1 as int, k)
            && seen_before(i, pr.1 as int, k, ci, ca, ck) && g.productions@[i].id.0 == pr.0)
        &&& (first[t] matches Some(pr) ==> (multi[t] <==> exists|i: int, a: int, k: int| #[trigger] refers(g, t, i, a, k)
            && seen_before(i, a, k, ci, ca, ck) && (g.productions@[i].id.0 != pr.0 || a != pr.1)))
        &&& (first[t] is None ==> !multi[t])
    }
}

/// Two scan positions that see the same references give the same state.
proof fn lemma_scan_equiv(g: GrammarIr, first: Seq<Option<(u32, usize)>>, multi: Seq<bool>,
    ci: int, ca: int, ck: int, di: int, da: int, dk: int)
    requires
        scan_ok(g, first, multi, ci, ca, ck),
        forall|t: int, i: int, a: int, k: int| #[trigger] refers(g, t, i, a, k)
            ==> (seen_before(i, a, k, ci, ca, ck) <==> seen_before(i, a, k, di, da, dk)),
    ensures
        scan_ok(g, first, multi, di, da, dk),
{
}

/// One more slot scanned.
proof fn lemma_scan_step(g: GrammarIr, first: Seq<Option<(u32, usize)>>, multi: Seq<bool>,
    first2: Seq<Option<(u32, usize)>>, multi2: Seq<bool>, ci: int, ca: int, ck: int)
    requires
        scan_ok(g, first, multi, ci, ca, ck),
        0 <= ci < g.productions@.len(),
        slot_valid(g, ci, ca, ck),
        ca <= usize::MAX,
        first.len() == multi.len(),
        first2.len() == first.len(),
        multi2.len() == multi.len(),
        match nt_target(g, ci, ca, ck) {
            Some(t0) => 0 <= t0 < first.len() && {
                let pr = (g.productions@[ci].id.0, ca as usize);
                &&& forall|t: int| 0 <= t < first.len() && t != t0 ==> #[trigger] first2[t] == first[t] && multi2[t] == multi[t]
                &&& (first[t0] is None ==> first2[t0] == Some(pr) && multi2[t0] == multi[t0])
                &&& (first[t0] matches Some(q) ==> first2[t0] == first[t0]
                    && (multi2[t0] == (multi[t0] || q.0 != pr.0 || q.1 != pr.1)))
            },
            None => first2 == first && multi2 == multi,
        },
    ensures
        scan_ok(g, first2, multi2, ci, ca, ck + 1),
{
    assert forall|t: int, i: int, a: int, k: int| refers(g, t, i, a, k) implies
        (seen_before(i, a, k, ci, ca, ck + 1) <==> (seen_before(i, a, k, ci, ca, ck) || (i == ci && a == ca && k == ck))) by {}
    match nt_target(g, ci, ca, ck) {
        Some(t0) => {
            assert(refers(g, t0, ci, ca, ck));
            assert forall|t: int| 0 <= t < first2.len() implies {
                &&& (#[trigger] first2[t] is None <==> forall|i: int, a: int, k: int| refers(g, t, i, a, k) ==> !seen_before(i, a, k, ci, ca, ck + 1))
                &&& (first2[t] matches Some(pr) ==> exists|i: int, k: int| #[trigger] refers(g, t, i, pr.1 as int, k)
                    && seen_before(i, pr.1 as int, k, ci, ca, ck + 1) && g.productions@[i].id.0 == pr.0)
                &&& (first2[t] matches Some(pr) ==> (multi2[t] <==> exists|i: int, a: int, k: int| #[trigger] refers(g, t, i, a, k)
                    && seen_before(i, a, k, ci, ca, ck + 1) && (g.productions@[i].id.0 != pr.0 || a != pr.1)))
                &&& (first2[t] is None ==> !multi2[t])
            } by {
                if t != t0 {
                    assert forall|i: int, a: int, k: int| refers(g, t, i, a, k) implies
                        (seen_before(i, a, k, ci, ca, ck + 1) <==> seen_before(i, a, k, ci, ca, ck)) by {
                        if i == ci && a == ca && k == ck {
                            assert(nt_target(g, i, a, k) == Some(t));
                        }
                    }
                } else {
                    let cur_p = g.productions@[ci].id.0;
                    if first[t] is None {
                        assert(refers(g, t, ci, ca, ck) && seen_before(ci, ca, ck, ci, ca, ck + 1));
                        let pr = first2[t]->Some_0;
                        assert(pr.1 as int == ca);
                        assert(refers(g, t, ci, pr.1 as int, ck));
                        assert forall|i: int, a: int, k: int| #[trigger] refers(g, t, i, a, k) && seen_before(i, a, k, ci, ca, ck + 1)
                            implies !(g.productions@[i].id.0 != pr.0 || a != pr.1) by {
                            if !(i == ci && a == ca && k == ck) {
                                assert(seen_before(i, a, k, ci, ca, ck));
                            }
                        }
                    } else {
                        let q = first[t]->Some_0;
                        assert(exists|i: int, k: int| #[trigger] refers(g, t, i, q.1 as int, k)
                            && seen_before(i, q.1 as int, k, ci, ca, ck) && g.productions@[i].id.0 == q.0);
                        let (wi, wk) = choose|i: int, k: int| #[trigger] refers(g, t, i, q.1 as int, k)
                            && seen_before(i, q.1 as int, k, ci, ca, ck) && g.productions@[i].id.0 == q.0;
                        assert(refers(g, t, wi, q.1 as int, wk) && seen_before(wi, q.1 as int, wk, ci, ca, ck + 1));
                        let differs = cur_p != q.0 || ca != q.1;
                        if multi2[t] {
                            if multi[t] {
                                let (xi, xa, xk) = choose|i: int, a: int, k: int| #[trigger] refers(g, t, i, a, k)
                                    && seen_before(i, a, k, ci, ca, ck) && (g.productions@[i].id.0 != q.0 || a != q.1);
                                assert(refers(g, t, xi, xa, xk) && seen_before(xi, xa, xk, ci, ca, ck + 1));
                            } else {
                                assert(differs);
                                assert(refers(g, t, ci, ca, ck) && seen_before(ci, ca, ck, ci, ca, ck + 1));
                            }
                        }
                        if exists|i: int, a: int, k: int| #[trigger] refers(g, t, i, a, k)
                            && seen_before(i, a, k, ci, ca, ck + 1) && (g.productions@[i].id.0 != q.0 || a != q.1) {
                            let (xi, xa, xk) = choose|i: int, a: int, k: int| #[trigger] refers(g, t, i, a, k)
                                && seen_before(i, a, k, ci, ca, ck + 1) && (g.productions@[i].id.0 != q.0 || a != q.1);
                            if xi == ci && xa == ca && xk == ck {
                                assert(differs);
                            } else {
                                assert(seen_before(xi, xa, xk, ci, ca, ck));
                                assert(multi[t]);
                            }
                        }
                    }
                }
            }
        },
        None => {
            assert forall|t: int, i: int, a: int, k: int| #[trigger] refers(g, t, i, a, k) implies
                (seen_before(i, a, k, ci, ca, ck + 1) <==> seen_before(i, a, k, ci, ca, ck)) by {
                if i == ci && a == ca && k == ck {
                    assert(nt_target(g, i, a, k) is Some);
                }
            }
            lemma_scan_equiv(g, first, multi, ci, ca, ck, ci, ca, ck + 1);
        },
    }
}

/// Which production each production's references come from: for every
/// production, the first (parent id, alternative) pair that refers to it,
/// and whether another pair does too.
fn scan_references(g: &GrammarIr) -> (r: (Vec<Option<(u32, usize)>>, Vec<bool>))
    requires
        ids_in_range(*g),
    ensures
        r.0@.len() == g.productions@.len(),
        r.1@.len() == g.productions@.len(),
        scan_ok(*g, r.0@, r.1@, g.productions@.len() as int, 0, 0),
{
    let n = g.productions.len();
    let mut first: Vec<Option<(u32, usize)>> = Vec::new();
    let mut multi: Vec<bool> = Vec::new();
    while first.len() < n
        invariant
            first@.len() == multi@.len(),
            first@.len() <= n,
            forall|t: int| 0 <= t < first@.len() ==> #[trigger] first@[t] is None && !multi@[t],
        decreases n - first@.len(),
    {
        first.push(None);
        multi.push(false);
    }
    assert(scan_ok(*g, first@, multi@, 0, 0, 0));
    let mut i: usize = 0;
    while i < n
        invariant
            0 <= i <= n,
            n == g.productions@.len(),
            ids_in_range(*g),
            first@.len() == n,
            multi@.len() == n,
            scan_ok(*g, first@, multi@, i as int, 0, 0),
        decreases n - i,
    {
        let prod = &g.productions[i];
        let na = prod.alternatives.len();
        let mut a: usize = 0;
        while a < na
            invariant
                0 <= i < n,
                0 <= a <= na,
                *prod == g.productions@[i as int],
                na == prod.alternatives@.len(),
                n == g.productions@.len(),
                ids_in_range(*g),
                first@.len() == n,
                multi@.len() == n,
                scan_ok(*g, first@, multi@, i as int, a as int, 0),
            decreases na - a,
        {
            let alt = &prod.alternatives[a];
            let ns = alt.symbols.len();
            let mut k: usize = 0;
            while k < ns
                invariant
                    0 <= i < n,
                    0 <= a < na,
                    0 <= k <= ns,
                    *prod == g.productions@[i as int],
                    *alt == prod.alternatives@[a as int],
                    na == prod.alternatives@.len(),
                    ns == alt.symbols@.len(),
                    n == g.productions@.len(),
                    ids_in_range(*g),
                    first@.len() == n,
                    multi@.len() == n,
                    scan_ok(*g, first@, multi@, i as int, a as int, k as int),
                decreases ns - k,
            {
                let ghost f0 = first@;
                let ghost m0 = multi@;
                proof {
                    assert(ref_in_bounds(*g, g.productions@[i as int].alternatives@[a as int].symbols@[k as int]));
                }
                let sid = alt.symbols[k].symbol.0 as usize;
                match &g.symbols[sid] {
                    crate::grammar::Symbol::NonTerminal(t) => {
                        let t = t.0 as usize;
                        match first[t] {
                            None => {
                                first.set(t, Some((prod.id.0, a)));
                            },
                            Some(pr) => {
                                if pr.0 != prod.id.0 || pr.1 != a {
                                    multi.set(t, true);
                                }
                            },
                        }
                    },
                    _ => {},
                }
                proof {
                    lemma_scan_step(*g, f0, m0, first@, multi@, i as int, a as int, k as int);
                }
                k += 1;
            }
            proof {
                assert forall|t: int, ii: int, aa: int, kk: int| #[trigger] refers(*g, t, ii, aa, kk)
                    implies (seen_before(ii, aa, kk, i as int, a as int, k as int) <==> seen_before(ii, aa, kk, i as int, a + 1, 0)) by {}
                lemma_scan_equiv(*g, first@, multi@, i as int, a as int, k as int, i as int, a + 1, 0);
            }
            a += 1;
        }
        proof {
            assert forall|t: int, ii: int, aa: int, kk: int| #[trigger] refers(*g, t, ii, aa, kk)
                implies (seen_before(ii, aa, kk, i as int, a as int, 0) <==> seen_before(ii, aa, kk, i + 1, 0, 0)) by {}
            lemma_scan_equiv(*g, first@, multi@, i as int, a as int, 0, i + 1, 0, 0);
        }
        i += 1;
    }
    (first, multi)
}

proof fn lemma_scan_complete(g: GrammarIr, first: Seq<Option<(u32, usize)>>, multi: Seq<bool>, t: int)
    requires
        scan_ok(g, first, multi, g.productions@.len() as int, 0, 0),
        0 <= t < first.len(),
    ensures
        first[t] is Some && !multi[t] ==> sole_parent(g, t, first[t]->Some_0.0, first[t]->Some_0.1 as int),
        has_sole_parent(g, t) ==> first[t] is Some && !multi[t],
{
    let n = g.productions@.len() as int;
    assert forall|i: int, a: int, k: int| #[trigger] refers(g, t, i, a, k) implies seen_before(i, a, k, n, 0, 0) by {}
    if first[t] is Some && !multi[t] {
        let pr = first[t]->Some_0;
        assert forall|i: int, a2: int, k: int| #[trigger] refers(g, t, i, a2, k) implies g.productions@[i].id.0 == pr.0 && a2 == pr.1 by {
            assert(seen_before(i, a2, k, n, 0, 0));
        }
        let (wi, wk) = choose|i: int, k: int| #[trigger] refers(g, t, i, pr.1 as int, k)
            && seen_before(i, pr.1 as int, k, n, 0, 0) && g.productions@[i].id.0 == pr.0;
        assert(refers(g, t, wi, pr.1 as int, wk));
    }
    if has_sole_parent(g, t) {
        let (p, a) = choose|p: u32, a: int| #[trigger] sole_parent(g, t, p, a);
        let (wi, wk) = choose|i: int, k: int| #[trigger] refers(g, t, i, a, k) && g.productions@[i].id.0 == p;
        assert(seen_before(wi, a, wk, n, 0, 0));
        assert(first[t] is Some);
        let q = first[t]->Some_0;
        let (qi, qk) = choose|i: int, k: int| #[trigger] refers(g, t, i, q.1 as int, k)
            && seen_before(i, q.1 as int, k, n, 0, 0) && g.productions@[i].id.0 == q.0;
        assert(refers(g, t, qi, q.1 as int, qk));
        if multi[t] {
            let (xi, xa, xk) = choose|i: int, a: int, k: int| #[trigger] refers(g, t, i, a, k)
                && seen_before(i, a, k, n, 0, 0) && (g.productions@[i].id.0 != q.0 || a != q.1);
            assert(refers(g, t, xi, xa, xk));
        }
    }
}

/// The choke points of the grammar, in production order: every production
/// other than the start that exactly one (parent, alternative) pair refers
/// to, with that parent.
pub fn choke_points(g: &GrammarIr) -> (r: Vec<ChokePoint>)
    requires
        ids_in_range(*g),
    ensures
        r@.len() == choke_indices(*g, g.productions@.len() as int).len(),
        forall|j: int| 0 <= j < r@.len() ==> #[trigger] choke_ok(*g, r@[j], choke_indices(*g, g.productions@.len() as int)[j]),
{
    let (first, multi) = scan_references(g);
    let n = g.productions.len();
    let mut out: Vec<ChokePoint> = Vec::new();
    let mut i: usize = 0;
    while i < n
        invariant
            0 <= i <= n,
            n == g.productions@.len(),
            ids_in_range(*g),
            first@.len() == n,
            multi@.len() == n,
            scan_ok(*g, first@, multi@, n as int, 0, 0),
            out@.len() == choke_indices(*g, i as int).len(),
            forall|j: int| 0 <= j < out@.len() ==> #[trigger] choke_ok(*g, out@[j], choke_indices(*g, i as int)[j]),
        decreases n - i,
    {
        let prod = &g.productions[i];
        let t = prod.id.0 as usize;
        proof {
            lemma_scan_complete(*g, first@, multi@, t as int);
        }
        let ghost before = out@;
        if prod.id.0 != g.start.0 && !multi[t] {
            if let Some(pr) = first[t] {
                let (p, a) = pr;
                proof {
                    let (wi, wk) = choose|ii: int, k: int| #[trigger] refers(*g, t as int, ii, a as int, k) && g.productions@[ii].id.0 == p;
                    assert(g.productions@[wi].id.0 < n);
                }
                let parent = &g.productions[p as usize];
                out.push(ChokePoint {
                    production_name: prod.name.clone(),
                    production_id: prod.id.0,
                    parent_name: parent.name.clone(),
                    parent_id: p,
                    parent_alt_index: a,
                });
            }
        }
        proof {
            assert forall|j: int| 0 <= j < out@.len() implies #[trigger] choke_ok(*g, out@[j], choke_indices(*g, i + 1)[j]) by {
                if j < before.len() {
                    assert(out@[j] == before[j]);
                }
            }
        }
        i += 1;
    }
    out
}


/// A production that some payloads reached, but fewer than one in a hundred.
#[derive(Debug, Clone)]
pub struct LowCoverageProduction {
    pub name: String,
    pub production_id: u32,
    pub payload_hit_count: u64,
}

/// Some but fewer than one in a hundred of `total` payloads reached `p`.
pub open spec fn low_coverage(p: ProductionStats, total: u64) -> bool {
    p.payload_hit_count > 0 && p.payload_hit_count * 100 < total
}

/// The productions of `ps` with low coverage, in order, by name, id and payload hits.
pub open spec fn low_coverage_spec(ps: Seq<ProductionStats>, total: u64) -> Seq<(Seq<char>, u32, u64)>
    decreases ps.len(),
{
    if ps.len() == 0 {
        seq![]
    } else {
        let rest = low_coverage_spec(ps.drop_last(), total);
        let p = ps.last();
        if low_coverage(p, total) {
            rest.push((p.name@, p.production_id, p.payload_hit_count))
        } else {
            rest
        }
    }
}

pub open spec fn low_coverage_view(r: Seq<LowCoverageProduction>) -> Seq<(Seq<char>, u32, u64)> {
    r.map_values(|l: LowCoverageProduction| (l.name@, l.production_id, l.payload_hit_count))
}

/// The productions that some, but fewer than one in a hundred, payloads reached.
pub fn low_coverage_productions(stats: &CorpusStats) -> (r: Vec<LowCoverageProduction>)
    ensures
        low_coverage_view(r@) == low_coverage_spec(stats.productions@, stats.total_payloads),
{
    let ps = &stats.productions;
    let total = stats.total_payloads;
    let mut out: Vec<LowCoverageProduction> = Vec::new();
    let mut i: usize = 0;
    while i < ps.len()
        invariant
            0 <= i <= ps@.len(),
            total == stats.total_payloads,
            ps@ == stats.productions@,
            low_coverage_view(out@) == low_coverage_spec(ps@.take(i as int), total),
        decreases ps@.len() - i,
    {
        assert(ps@.take(i as int + 1).drop_last() =~= ps@.take(i as int));
        let hits = ps[i].payload_hit_count;
        if hits > 0 && (hits as u128) * 100 < total as u128 {
            let ghost before = out@;
            out.push(LowCoverageProduction { name: ps[i].name.clone(), production_id: ps[i].production_id, payload_hit_count: hits });
            assert(low_coverage_view(out@) =~= low_coverage_view(before).push(
                (ps@[i as int].name@, ps@[i as int].production_id, hits)));
        }
        i += 1;
    }
    assert(ps@.take(ps@.len() as int) =~= ps@);
    out
}

/// An alternative that was never chosen, or chosen less than half as often
/// as a uniform choice among its siblings would give.
#[derive(Debug, Clone)]
pub struct StarvedAlternative {
    pub production_name: String,
    pub production_id: u32,
    pub alt_index: usize,
    pub hit_count: u64,
    /// Hits over all alternatives of the production.
    pub sibling_hits: u128,
    /// Number of alternatives of the production.
    pub sibling_count: usize,
}

/// The hits of the first `k` alternatives.
pub open spec fn alt_hits_upto(alts: Seq<AlternativeStats>, k: int) -> int
    decreases k,
{
    if k <= 0 { 0 } else { alt_hits_upto(alts, k - 1) + alts[k - 1].hit_count }
}

pub open spec fn alt_hits(p: ProductionStats) -> int {
    alt_hits_upto(p.alternatives@, p.alternatives@.len() as int)
}

/// A production whose alternatives are compared: no semantic hook, more
/// than one alternative, and at least one hit.
pub open spec fn compared(p: ProductionStats) -> bool {
    !p.has_semantic_hook && p.alternatives@.len() > 1 && alt_hits(p) > 0
}

pub open spec fn starved(p: ProductionStats, a: AlternativeStats) -> bool {
    a.hit_count == 0 || 2 * a.hit_count * p.alternatives@.len() < alt_hits(p)
}

pub open spec fn starved_row(p: ProductionStats, a: AlternativeStats) -> (Seq<char>, u32, usize, u64, int, nat) {
    (p.name@, p.production_id, a.index, a.hit_count, alt_hits(p), p.alternatives@.len())
}

/// The starved alternatives among the first `k` of production `p`.
pub open spec fn starved_in(p: ProductionStats, k: int) -> Seq<(Seq<char>, u32, usize, u64, int, nat)>
    decreases k,
{
    if k <= 0 {
        seq![]
    } else {
        let rest = starved_in(p, k - 1);
        let a = p.alternatives@[k - 1];
        if starved(p, a) { rest.push(starved_row(p, a)) } else { rest }
    }
}

/// The starved alternatives of the compared productions of `ps`, in order.
pub open spec fn starved_spec(ps: Seq<ProductionStats>) -> Seq<(Seq<char>, u32, usize, u64, int, nat)>
    decreases ps.len(),
{
    if ps.len() == 0 {
        seq![]
    } else {
        let p = ps.last();
        starved_spec(ps.drop_last()) + if compared(p) { starved_in(p, p.alternatives@.len() as int) } else { seq![] }
    }
}

pub open spec fn starved_view(r: Seq<StarvedAlternative>) -> Seq<(Seq<char>, u32, usize, u64, int, nat)> {
    r.map_values(|s: StarvedAlternative| (s.production_name@, s.production_id, s.alt_index, s.hit_count,
        s.sibling_hits as int, s.sibling_count as nat))
}

proof fn lemma_hits_bound(alts: Seq<AlternativeStats>, k: int)
    requires
        0 <= k <= alts.len(),
    ensures
        0 <= alt_hits_upto(alts, k) <= k * u64::MAX,
    decreases k,
{
    if k > 0 {
        lemma_hits_bound(alts, k - 1);
    }
}

/// `x * n < t` exactly when `x` is at most `(t - 1) / n`.
proof fn lemma_below_by_quotient(x: int, n: int, t: int)
    requires
        n > 0,
        t > 0,
        x >= 0,
    ensures
        x * n < t <==> x <= (t - 1) / n,
{
    let q = (t - 1) / n;
    let r = (t - 1) % n;
    vstd::arithmetic::div_mod::lemma_fundamental_div_mod(t - 1, n);
    assert(0 <= r < n) by {
        vstd::arithmetic::div_mod::lemma_mod_bound(t - 1, n);
    }
    if x <= q {
        vstd::arithmetic::mul::lemma_mul_inequality(x, q, n);
        assert(x * n <= q * n);
        assert(q * n == n * q) by {
            vstd::arithmetic::mul::lemma_mul_is_commutative(q, n);
        }
    } else {
        vstd::arithmetic::mul::lemma_mul_inequality(q + 1, x, n);
        assert((q + 1) * n == q * n + n) by {
            vstd::arithmetic::mul::lemma_mul_is_distributive_add_other_way(n, q, 1);
        }
        assert(q * n == n * q) by {
            vstd::arithmetic::mul::lemma_mul_is_commutative(q, n);
        }
    }
}

fn production_hits(alts: &Vec<AlternativeStats>) -> (s: u128)
    ensures
        s == alt_hits_upto(alts@, alts@.len() as int),
{
    let mut s: u128 = 0;
    let mut k: usize = 0;
    while k < alts.len()
        invariant
            k <= alts@.len(),
            s == alt_hits_upto(alts@, k as int),
        decreases alts@.len() - k,
    {
        proof {
            lemma_hits_bound(alts@, k as int + 1);
            assert((k as int + 1) * u64::MAX <= 0x1_0000_0000_0000_0000 * u64::MAX) by (nonlinear_arith)
                requires k as int + 1 <= 0x1_0000_0000_0000_0000;
        }
        s = s + alts[k].hit_count as u128;
        k += 1;
    }
    s
}

/// The alternatives that were never chosen, or chosen less than half as
/// often as a uniform choice among their siblings would give, over the
/// productions without semantic hooks that have several alternatives and
/// at least one hit.
pub fn starved_alternatives(stats: &CorpusStats) -> (r: Vec<StarvedAlternative>)
    ensures
        starved_view(r@) == starved_spec(stats.productions@),
{
    let ps = &stats.productions;
    let mut out: Vec<StarvedAlternative> = Vec::new();
    let mut i: usize = 0;
    while i < ps.len()
        invariant
            0 <= i <= ps@.len(),
            ps@ == stats.productions@,
            starved_view(out@) == starved_spec(ps@.take(i as int)),
        decreases ps@.len() - i,
    {
        assert(ps@.take(i as int + 1).drop_last() =~= ps@.take(i as int));
        let p = &ps[i];
        let n = p.alternatives.len();
        let ghost base = out@;
        if !p.has_semantic_hook && n > 1 {
            let total = production_hits(&p.alternatives);
            if total > 0 {
                let mut k: usize = 0;
                while k < n
                    invariant
                        k <= n,
                        n == p.alternatives@.len(),
                        n > 1,
                        total == alt_hits(*p),
                        total > 0,
                        starved_view(out@) == starved_view(base) + starved_in(*p, k as int),
                    decreases n - k,
                {
                    let a = &p.alternatives[k];
                    let h = a.hit_count;
                    let bound: u128 = (total - 1) / (n as u128);
                    proof {
                        lemma_below_by_quotient(2 * h, n as int, total as int);
                        assert(2 * h * n == (2 * h) * n);
                    }
                    if h == 0 || (h as u128) * 2 <= bound {
                        let ghost before = out@;
                        out.push(StarvedAlternative {
                            production_name: p.name.clone(),
                            production_id: p.production_id,
                            alt_index: a.index,
                            hit_count: h,
                            sibling_hits: total,
                            sibling_count: n,
                        });
                        assert(starved_view(out@) =~= starved_view(before).push(starved_row(*p, *a)));
                    }
                    k += 1;
                }
                assert(starved_in(*p, n as int) == starved_in(*p, p.alternatives@.len() as int));
                assert(starved_view(out@) =~= starved_view(base) + starved_in(*p, p.alternatives@.len() as int));
            } else {
                assert(!compared(*p));
                assert(starved_view(out@) =~= starved_view(base) + seq![]);
            }
        } else {
            assert(!compared(*p));
            assert(starved_view(out@) =~= starved_view(base) + seq![]);
        }
        i += 1;
    }
    assert(ps@.take(ps@.len() as int) =~= ps@);
    out
}

/// The coverage findings of a corpus over a grammar.
#[derive(Debug, Clone)]
pub struct ReachabilityReport {
    /// Productions no payload reached.
    pub unreached: Vec<UnreachedProduction>,
    /// Productions fewer than one payload in a hundred reached.
    pub low_coverage: Vec<LowCoverageProduction>,
    /// Alternatives never or rarely chosen.
    pub starved_alternatives: Vec<StarvedAlternative>,
    /// Productions that only one alternative of one parent refers to.
    pub choke_points: Vec<ChokePoint>,
}

/// All coverage findings of `stats` over `grammar`.
pub fn analyze(grammar: &GrammarIr, stats: &CorpusStats) -> (r: ReachabilityReport)
    requires
        ids_in_range(*grammar),
    ensures
        unreached_view(r.unreached@) == unreached_spec(stats.productions@),
        low_coverage_view(r.low_coverage@) == low_coverage_spec(stats.productions@, stats.total_payloads),
        starved_view(r.starved_alternatives@) == starved_spec(stats.productions@),
        r.choke_points@.len() == choke_indices(*grammar, grammar.productions@.len() as int).len(),
        forall|k: int| 0 <= k < r.choke_points@.len()
            ==> #[trigger] choke_ok(*grammar, r.choke_points@[k], choke_indices(*grammar, grammar.productions@.len() as int)[k]),
{
    ReachabilityReport {
        unreached: unreached_productions(stats),
        low_coverage: low_coverage_productions(stats),
        starved_alternatives: starved_alternatives(stats),
        choke_points: choke_points(grammar),
    }
}

} // verus!
