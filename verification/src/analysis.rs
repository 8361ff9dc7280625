//! Grammar analyses: the minimum derivation depth of each production, and
//! which productions can derive themselves.
use vstd::prelude::*;
use crate::ids::ProductionId;
use crate::grammar::{GrammarIr, Production, Alternative, SymbolRef, Symbol, required_spec, is_required};
use crate::engine_spec::{min_u32, max_u32};

verus! {

/// Every reference names a known symbol, and every nonterminal a known production.
pub open spec fn ref_in_bounds(g: GrammarIr, sr: SymbolRef) -> bool {
    &&& sr.symbol.0 < g.symbols@.len()
    &&& match g.symbols@[sr.symbol.0 as int] {
        Symbol::NonTerminal(pid) => pid.0 < g.productions@.len(),
        _ => true,
    }
}

pub open spec fn refs_in_bounds(g: GrammarIr) -> bool {
    forall|i: int, j: int, k: int|
        0 <= i < g.productions@.len() && 0 <= j < g.productions@[i].alternatives@.len()
            && 0 <= k < g.productions@[i].alternatives@[j].symbols@.len()
            ==> #[trigger] ref_in_bounds(g, g.productions@[i].alternatives@[j].symbols@[k])
}

// ── Minimum depths ──

/// The depth a reference needs under depths `d`: none when it may be left
/// out or names a terminal, the depth of its production otherwise.
pub open spec fn ref_depth(g: GrammarIr, d: Seq<u32>, sr: SymbolRef) -> u32 {
    if !required_spec(sr.modifier) {
        0
    } else {
        match g.symbols@[sr.symbol.0 as int] {
            Symbol::Terminal(_) => 0,
            Symbol::NonTerminal(pid) => d[pid.0 as int],
        }
    }
}

/// The largest depth needed by `syms[..k]` (0 for none).
pub open spec fn alt_depth_upto(g: GrammarIr, d: Seq<u32>, syms: Seq<SymbolRef>, k: int) -> u32
    decreases k,
{
    if k <= 0 {
        0
    } else {
        max_u32(alt_depth_upto(g, d, syms, k - 1), ref_depth(g, d, syms[k - 1]))
    }
}

pub open spec fn alt_depth(g: GrammarIr, d: Seq<u32>, alt: Alternative) -> u32 {
    alt_depth_upto(g, d, alt.symbols@, alt.symbols@.len() as int)
}

/// The smallest depth among `alts[..k]` (`u32::MAX` for none).
pub open spec fn best_alt_upto(g: GrammarIr, d: Seq<u32>, alts: Seq<Alternative>, k: int) -> u32
    decreases k,
{
    if k <= 0 {
        u32::MAX
    } else {
        min_u32(best_alt_upto(g, d, alts, k - 1), alt_depth(g, d, alts[k - 1]))
    }
}

pub open spec fn sat_succ(x: u32) -> u32 {
    if x == u32::MAX { x } else { (x + 1) as u32 }
}

/// One plus the best alternative of production `i` under depths `d`, saturating.
pub open spec fn depth_step(g: GrammarIr, d: Seq<u32>, i: int) -> u32 {
    let alts = g.productions@[i].alternatives@;
    sat_succ(best_alt_upto(g, d, alts, alts.len() as int))
}

/// Depths that one more step leaves unchanged.
pub open spec fn is_depth_fixpoint(g: GrammarIr, d: Seq<u32>) -> bool {
    &&& d.len() == g.productions@.len()
    &&& forall|i: int| 0 <= i < d.len() ==> #[trigger] depth_step(g, d, i) == d[i]
}

pub open spec fn depths_le(a: Seq<u32>, b: Seq<u32>) -> bool {
    &&& a.len() == b.len()
    &&& forall|i: int| 0 <= i < a.len() ==> #[trigger] a[i] <= b[i]
}

/// The `min_depth` attributes of a grammar's productions.
pub open spec fn min_depths_of(g: GrammarIr) -> Seq<u32> {
    Seq::new(g.productions@.len(), |i: int| g.productions@[i].attrs.min_depth)
}

/// The minimum derivation depths: the greatest fixed point of `depth_step`,
/// `u32::MAX` for a production that cannot finish.
pub open spec fn min_depths_ok(g: GrammarIr, d: Seq<u32>) -> bool {
    &&& is_depth_fixpoint(g, d)
    &&& forall|e: Seq<u32>| #[trigger] is_depth_fixpoint(g, e) ==> depths_le(e, d)
}

proof fn lemma_alt_depth_mono(g: GrammarIr, a: Seq<u32>, b: Seq<u32>, syms: Seq<SymbolRef>, k: int)
    requires
        depths_le(a, b),
        a.len() == g.productions@.len(),
        0 <= k <= syms.len(),
        forall|j: int| 0 <= j < syms.len() ==> #[trigger] ref_in_bounds(g, syms[j]),
    ensures
        alt_depth_upto(g, a, syms, k) <= alt_depth_upto(g, b, syms, k),
    decreases k,
{
    if k > 0 {
        lemma_alt_depth_mono(g, a, b, syms, k - 1);
        assert(ref_in_bounds(g, syms[k - 1]));
    }
}

proof fn lemma_best_alt_mono(g: GrammarIr, a: Seq<u32>, b: Seq<u32>, alts: Seq<Alternative>, k: int)
    requires
        depths_le(a, b),
        a.len() == g.productions@.len(),
        0 <= k <= alts.len(),
        forall|j: int, m: int| 0 <= j < alts.len() && 0 <= m < alts[j].symbols@.len()
            ==> #[trigger] ref_in_bounds(g, alts[j].symbols@[m]),
    ensures
        best_alt_upto(g, a, alts, k) <= best_alt_upto(g, b, alts, k),
    decreases k,
{
    if k > 0 {
        lemma_best_alt_mono(g, a, b, alts, k - 1);
        let syms = alts[k - 1].symbols@;
        assert forall|j: int| 0 <= j < syms.len() implies #[trigger] ref_in_bounds(g, syms[j]) by {
            assert(ref_in_bounds(g, alts[k - 1].symbols@[j]));
        }
        lemma_alt_depth_mono(g, a, b, syms, syms.len() as int);
    }
}

/// One step is monotone in the depths.
proof fn lemma_step_mono(g: GrammarIr, a: Seq<u32>, b: Seq<u32>, i: int)
    requires
        refs_in_bounds(g),
        depths_le(a, b),
        a.len() == g.productions@.len(),
        0 <= i < g.productions@.len(),
    ensures
        depth_step(g, a, i) <= depth_step(g, b, i),
{
    let alts = g.productions@[i].alternatives@;
    assert forall|j: int, m: int| 0 <= j < alts.len() && 0 <= m < alts[j].symbols@.len()
        implies #[trigger] ref_in_bounds(g, alts[j].symbols@[m]) by {
        assert(ref_in_bounds(g, g.productions@[i].alternatives@[j].symbols@[m]));
    }
    lemma_best_alt_mono(g, a, b, alts, alts.len() as int);
}

pub open spec fn seq_sum(s: Seq<u32>) -> nat
    decreases s.len(),
{
    if s.len() == 0 {
        0
    } else {
        seq_sum(s.drop_last()) + s.last() as nat
    }
}

proof fn lemma_sum_update(s: Seq<u32>, i: int, v: u32)
    requires
        0 <= i < s.len(),
    ensures
        seq_sum(s.update(i, v)) + s[i] == seq_sum(s) + v,
    decreases s.len(),
{
    let t = s.update(i, v);
    if i == s.len() - 1 {
        assert(t.drop_last() =~= s.drop_last());
    } else {
        assert(t.drop_last() =~= s.drop_last().update(i, v));
        lemma_sum_update(s.drop_last(), i, v);
    }
}

/// Set `min_depth` of every production to its minimum derivation depth: a
/// terminal needs no depth, and a production one more than its best
/// alternative, whose depth is that of its deepest required symbol.
pub fn compute_min_depths(ir: &mut GrammarIr)
    requires
        refs_in_bounds(*old(ir)),
    ensures
        final(ir).symbols@ == old(ir).symbols@,
        final(ir).start == old(ir).start,
        final(ir).token_pools@ == old(ir).token_pools@,
        final(ir).productions@.len() == old(ir).productions@.len(),
        forall|i: int| 0 <= i < final(ir).productions@.len() ==> #[trigger] final(ir).productions@[i] == (Production {
            attrs: crate::grammar::ProductionAttrs { min_depth: final(ir).productions@[i].attrs.min_depth, ..old(ir).productions@[i].attrs },
            ..old(ir).productions@[i]
        }),
        min_depths_ok(*old(ir), min_depths_of(*final(ir))),
{
    let ghost g = *ir;
    let n = ir.productions.len();
    let mut depths: Vec<u32> = Vec::new();
    while depths.len() < n
        invariant
            depths@.len() <= n,
            forall|k: int| 0 <= k < depths@.len() ==> depths@[k] == u32::MAX,
        decreases n - depths@.len(),
    {
        depths.push(u32::MAX);
    }
    let mut changed = true;
    while changed
        invariant
            g == *ir,
            refs_in_bounds(g),
            n == g.productions@.len(),
            depths@.len() == n,
            forall|e: Seq<u32>| #[trigger] is_depth_fixpoint(g, e) ==> depths_le(e, depths@),
            forall|k: int| 0 <= k < n ==> #[trigger] depth_step(g, depths@, k) <= depths@[k],
            !changed ==> forall|k: int| 0 <= k < n ==> #[trigger] depth_step(g, depths@, k) >= depths@[k],
        decreases seq_sum(depths@) * 2 + (if changed { 1int } else { 0int }),
    {
        let ghost s0 = seq_sum(depths@);
        changed = false;
        for i in 0..n
            invariant
                g == *ir,
                refs_in_bounds(g),
                n == g.productions@.len(),
                depths@.len() == n,
                forall|e: Seq<u32>| #[trigger] is_depth_fixpoint(g, e) ==> depths_le(e, depths@),
                forall|k: int| 0 <= k < n ==> #[trigger] depth_step(g, depths@, k) <= depths@[k],
                !changed ==> forall|k: int| 0 <= k < i ==> #[trigger] depth_step(g, depths@, k) >= depths@[k],
                !changed ==> seq_sum(depths@) == s0,
                changed ==> seq_sum(depths@) < s0,
        {
            let prod = &ir.productions[i];
            let ghost alts = prod.alternatives@;
            let mut best_alt: u32 = u32::MAX;
            let mut a: usize = 0;
            while a < prod.alternatives.len()
                invariant
                    g == *ir,
                    refs_in_bounds(g),
                    0 <= i < n,
                    n == g.productions@.len(),
                    *prod == g.productions@[i as int],
                    alts == prod.alternatives@,
                    depths@.len() == n,
                    0 <= a <= alts.len(),
                    best_alt == best_alt_upto(g, depths@, alts, a as int),
                decreases alts.len() - a,
            {
                let alt = &prod.alternatives[a];
                let ghost syms = alt.symbols@;
                let mut alt_d: u32 = 0;
                let mut k: usize = 0;
                while k < alt.symbols.len()
                    invariant
                        g == *ir,
                        refs_in_bounds(g),
                        0 <= i < n,
                        n == g.productions@.len(),
                        *prod == g.productions@[i as int],
                        0 <= a < prod.alternatives@.len(),
                        *alt == prod.alternatives@[a as int],
                        syms == alt.symbols@,
                        depths@.len() == n,
                        0 <= k <= syms.len(),
                        alt_d == alt_depth_upto(g, depths@, syms, k as int),
                    decreases syms.len() - k,
                {
                    let sr = &alt.symbols[k];
                    assert(ref_in_bounds(g, g.productions@[i as int].alternatives@[a as int].symbols@[k as int]));
                    if is_required(&sr.modifier) {
                        let sym_depth = match &ir.symbols[sr.symbol.0 as usize] {
                            Symbol::Terminal(_) => 0,
                            Symbol::NonTerminal(pid) => depths[pid.0 as usize],
                        };
                        if sym_depth > alt_d {
                            alt_d = sym_depth;
                        }
                    }
                    k += 1;
                }
                if alt_d < best_alt {
                    best_alt = alt_d;
                }
                a += 1;
            }
            let new_depth = best_alt.saturating_add(1);
            assert(new_depth == depth_step(g, depths@, i as int));
            if new_depth < depths[i] {
                let ghost d0 = depths@;
                depths.set(i, new_depth);
                proof {
                    let d1 = depths@;
                    lemma_sum_update(d0, i as int, new_depth);
                    assert(depths_le(d1, d0));
                    assert forall|e: Seq<u32>| #[trigger] is_depth_fixpoint(g, e) implies depths_le(e, d1) by {
                        assert(depths_le(e, d0));
                        lemma_step_mono(g, e, d0, i as int);
                        assert(depth_step(g, e, i as int) == e[i as int]);
                    }
                    assert forall|k: int| 0 <= k < n implies #[trigger] depth_step(g, d1, k) <= d1[k] by {
                        lemma_step_mono(g, d1, d0, k);
                    }
                }
                changed = true;
            }
        }
    }
    assert(is_depth_fixpoint(g, depths@));
    let mut i: usize = 0;
    while i < n
        invariant
            n == g.productions@.len(),
            depths@.len() == n,
            0 <= i <= n,
            ir.symbols@ == g.symbols@,
            ir.start == g.start,
            ir.token_pools@ == g.token_pools@,
            ir.productions@.len() == n,
            forall|k: int| 0 <= k < n ==> #[trigger] ir.productions@[k] == (Production {
                attrs: crate::grammar::ProductionAttrs {
                    min_depth: if k < i { depths@[k] } else { g.productions@[k].attrs.min_depth },
                    ..g.productions@[k].attrs
                },
                ..g.productions@[k]
            }),
        decreases n - i,
    {
        ir.productions[i].attrs.min_depth = depths[i];
        i += 1;
    }
    assert(min_depths_of(*ir) =~= depths@);
}

// ── Recursion ──

/// The production that the `k`-th symbol of alternative `j` of production `a` names, if any.
pub open spec fn nt_target(g: GrammarIr, a: int, j: int, k: int) -> Option<int> {
    match g.symbols@[g.productions@[a].alternatives@[j].symbols@[k].symbol.0 as int] {
        Symbol::NonTerminal(pid) => Some(pid.0 as int),
        _ => None,
    }
}

pub open spec fn slot_valid(g: GrammarIr, a: int, j: int, k: int) -> bool {
    0 <= j < g.productions@[a].alternatives@.len() && 0 <= k < g.productions@[a].alternatives@[j].symbols@.len()
}

/// Production `a` refers to production `b` directly.
pub open spec fn edge(g: GrammarIr, a: int, b: int) -> bool {
    exists|j: int, k: int| slot_valid(g, a, j, k) && #[trigger] nt_target(g, a, j, k) == Some(b)
}

/// A chain of productions, each referring to the next.
pub open spec fn is_path(g: GrammarIr, p: Seq<int>) -> bool {
    &&& p.len() >= 2
    &&& forall|i: int| 0 <= i < p.len() ==> 0 <= #[trigger] p[i] < g.productions@.len()
    &&& forall|i: int| 0 <= i < p.len() - 1 ==> #[trigger] edge(g, p[i], p[i + 1])
}

/// Production `a` reaches `b` through one or more references.
pub open spec fn reaches(g: GrammarIr, a: int, b: int) -> bool {
    exists|p: Seq<int>| #[trigger] is_path(g, p) && p[0] == a && p.last() == b
}

proof fn lemma_reach_extend(g: GrammarIr, a: int, b: int, c: int)
    requires
        reaches(g, a, b),
        edge(g, b, c),
        0 <= c < g.productions@.len(),
    ensures
        reaches(g, a, c),
{
    let p = choose|p: Seq<int>| #[trigger] is_path(g, p) && p[0] == a && p.last() == b;
    let q = p.push(c);
    assert forall|i: int| 0 <= i < q.len() - 1 implies #[trigger] edge(g, q[i], q[i + 1]) by {
        if i < p.len() - 1 {
            assert(q[i] == p[i] && q[i + 1] == p[i + 1]);
        }
    }
    assert(is_path(g, q));
}

proof fn lemma_edge_reaches(g: GrammarIr, a: int, b: int)
    requires
        edge(g, a, b),
        0 <= a < g.productions@.len(),
        0 <= b < g.productions@.len(),
    ensures
        reaches(g, a, b),
{
    let p = seq![a, b];
    assert(is_path(g, p));
}

/// A set closed under references that holds every production `start`
/// refers to holds every production `start` reaches.
proof fn lemma_closed_reach(g: GrammarIr, vis: Seq<bool>, start: int, p: Seq<int>, i: int)
    requires
        vis.len() == g.productions@.len(),
        forall|v: int, w: usize| 0 <= v < vis.len() && vis[v] && #[trigger] edge(g, v, w as int) ==> vis[w as int],
        forall|w: usize| #[trigger] edge(g, start, w as int) ==> vis[w as int],
        is_path(g, p),
        p[0] == start,
        1 <= i < p.len(),
    ensures
        vis[p[i]],
    decreases i,
{
    let j = i - 1;
    assert(edge(g, p[j], p[j + 1]));
    assert(0 <= p[i] < g.productions@.len());
    let w = p[i] as usize;
    assert(w as int == p[i]);
    if i > 1 {
        lemma_closed_reach(g, vis, start, p, i - 1);
        assert(0 <= p[i - 1] < vis.len());
    }
}

proof fn lemma_edge_bounds(g: GrammarIr, v: int, w: int)
    requires
        refs_in_bounds(g),
        0 <= v < g.productions@.len(),
        edge(g, v, w),
    ensures
        0 <= w < g.productions@.len(),
{
    let (j, k) = choose|j: int, k: int| slot_valid(g, v, j, k) && #[trigger] nt_target(g, v, j, k) == Some(w);
    assert(ref_in_bounds(g, g.productions@[v].alternatives@[j].symbols@[k]));
}

proof fn lemma_pop_contains(st: Seq<usize>, w: usize)
    requires
        st.len() > 0,
        st.contains(w),
        w != st.last(),
    ensures
        st.drop_last().contains(w),
{
    let m = choose|m: int| 0 <= m < st.len() && st[m] == w;
    assert(st.drop_last()[m] == w);
}

proof fn lemma_push_contains(st: Seq<usize>, x: usize, w: usize)
    ensures
        st.contains(w) ==> st.push(x).contains(w),
        st.push(x).contains(x),
{
    if st.contains(w) {
        let m = choose|m: int| 0 <= m < st.len() && st[m] == w;
        assert(st.push(x)[m] == w);
    }
    assert(st.push(x)[st.len() as int] == x);
}

pub open spec fn count_unvisited(s: Seq<bool>) -> nat
    decreases s.len(),
{
    if s.len() == 0 {
        0
    } else {
        count_unvisited(s.drop_last()) + if s.last() { 0nat } else { 1nat }
    }
}

proof fn lemma_visit_count(s: Seq<bool>, i: int)
    requires
        0 <= i < s.len(),
        !s[i],
    ensures
        count_unvisited(s.update(i, true)) + 1 == count_unvisited(s),
    decreases s.len(),
{
    let t = s.update(i, true);
    if i == s.len() - 1 {
        assert(t.drop_last() =~= s.drop_last());
    } else {
        assert(t.drop_last() =~= s.drop_last().update(i, true));
        lemma_visit_count(s.drop_last(), i);
    }
}

/// The productions that production `a` names, in order of appearance.
fn references_of(ir: &GrammarIr, a: usize) -> (row: Vec<usize>)
    requires
        refs_in_bounds(*ir),
        a < ir.productions@.len(),
    ensures
        forall|k: int| 0 <= k < row@.len() ==> #[trigger] row@[k] < ir.productions@.len(),
        forall|w: usize| #[trigger] row@.contains(w) <==> edge(*ir, a as int, w as int),
{
    let ghost g = *ir;
    let prod = &ir.productions[a];
    let mut row: Vec<usize> = Vec::new();
    let mut j: usize = 0;
    while j < prod.alternatives.len()
        invariant
            g == *ir,
            refs_in_bounds(g),
            a < g.productions@.len(),
            *prod == g.productions@[a as int],
            0 <= j <= prod.alternatives@.len(),
            forall|k: int| 0 <= k < row@.len() ==> #[trigger] row@[k] < g.productions@.len(),
            forall|m: int| 0 <= m < row@.len() ==> #[trigger] edge(g, a as int, row@[m] as int),
            forall|j2: int, k2: int, w: usize| #![trigger nt_target(g, a as int, j2, k2), row@.contains(w)]
                0 <= j2 < j && slot_valid(g, a as int, j2, k2)
                && nt_target(g, a as int, j2, k2) == Some(w as int) ==> row@.contains(w),
        decreases prod.alternatives@.len() - j,
    {
        let alt = &prod.alternatives[j];
        let mut k: usize = 0;
        while k < alt.symbols.len()
            invariant
                g == *ir,
                refs_in_bounds(g),
                a < g.productions@.len(),
                *prod == g.productions@[a as int],
                0 <= j < prod.alternatives@.len(),
                *alt == prod.alternatives@[j as int],
                0 <= k <= alt.symbols@.len(),
                forall|m: int| 0 <= m < row@.len() ==> #[trigger] row@[m] < g.productions@.len(),
                forall|m: int| 0 <= m < row@.len() ==> #[trigger] edge(g, a as int, row@[m] as int),
                forall|j2: int, k2: int, w: usize| #![trigger nt_target(g, a as int, j2, k2), row@.contains(w)]
                    (0 <= j2 < j || (j2 == j && 0 <= k2 < k)) && slot_valid(g, a as int, j2, k2)
                    && nt_target(g, a as int, j2, k2) == Some(w as int) ==> row@.contains(w),
            decreases alt.symbols@.len() - k,
        {
            let sr = &alt.symbols[k];
            assert(ref_in_bounds(g, g.productions@[a as int].alternatives@[j as int].symbols@[k as int]));
            if let Symbol::NonTerminal(pid) = &ir.symbols[sr.symbol.0 as usize] {
                let ghost before = row@;
                let t = pid.0 as usize;
                row.push(t);
                proof {
                    assert(nt_target(g, a as int, j as int, k as int) == Some(t as int));
                    assert forall|m: int| 0 <= m < row@.len() implies #[trigger] edge(g, a as int, row@[m] as int) by {
                        if m < before.len() {
                            assert(row@[m] == before[m]);
                        } else {
                            assert(row@[m] == t);
                        }
                    }
                    assert forall|j2: int, k2: int, w: usize| #![trigger nt_target(g, a as int, j2, k2), row@.contains(w)]
                        (0 <= j2 < j || (j2 == j && 0 <= k2 < k + 1)) && slot_valid(g, a as int, j2, k2)
                        && nt_target(g, a as int, j2, k2) == Some(w as int) implies row@.contains(w) by {
                        lemma_push_contains(before, t, w);
                        if j2 == j && k2 == k {
                            assert(w == t);
                        }
                    }
                }
            }
            k += 1;
        }
        j += 1;
    }
    proof {
        assert forall|w: usize| #[trigger] row@.contains(w) <==> edge(g, a as int, w as int) by {
            if edge(g, a as int, w as int) {
                let (j2, k2) = choose|j2: int, k2: int| slot_valid(g, a as int, j2, k2) && #[trigger] nt_target(g, a as int, j2, k2) == Some(w as int);
                assert(row@.contains(w));
            }
            if row@.contains(w) {
                let m = choose|m: int| 0 <= m < row@.len() && row@[m] == w;
                assert(edge(g, a as int, row@[m] as int));
            }
        }
    }
    row
}

/// Whether `start` reaches itself: a depth-first search from the productions it names.
fn reaches_itself(adj: &Vec<Vec<usize>>, start: usize, Ghost(g): Ghost<GrammarIr>) -> (found: bool)
    requires
        refs_in_bounds(g),
        start < g.productions@.len(),
        adj@.len() == g.productions@.len(),
        forall|v: int, k: int| 0 <= v < adj@.len() && 0 <= k < adj@[v]@.len() ==> #[trigger] adj@[v]@[k] < adj@.len(),
        forall|v: int, w: usize| 0 <= v < adj@.len() ==> (#[trigger] adj@[v]@.contains(w) <==> edge(g, v, w as int)),
    ensures
        found <==> reaches(g, start as int, start as int),
{
    let n = adj.len();
    let mut visited: Vec<bool> = Vec::new();
    while visited.len() < n
        invariant
            visited@.len() <= n,
            forall|k: int| 0 <= k < visited@.len() ==> !visited@[k],
        decreases n - visited@.len(),
    {
        visited.push(false);
    }
    let mut stack: Vec<usize> = adj[start].clone();
    proof {
        assert(stack@ == adj@[start as int]@);
        assert forall|m: int| 0 <= m < stack@.len() implies #[trigger] reaches(g, start as int, stack@[m] as int) by {
            assert(adj@[start as int]@.contains(stack@[m]));
            lemma_edge_reaches(g, start as int, stack@[m] as int);
        }
        assert forall|w: usize| #[trigger] edge(g, start as int, w as int) implies visited@[w as int] || stack@.contains(w) by {
            assert(adj@[start as int]@.contains(w));
        }
    }
    loop
        invariant_except_break
            n == g.productions@.len(),
            refs_in_bounds(g),
            adj@.len() == n,
            forall|v: int, k: int| 0 <= v < n && 0 <= k < adj@[v]@.len() ==> #[trigger] adj@[v]@[k] < n,
            forall|v: int, w: usize| 0 <= v < n ==> (#[trigger] adj@[v]@.contains(w) <==> edge(g, v, w as int)),
            0 <= start < n,
            visited@.len() == n,
            !visited@[start as int],
            forall|m: int| 0 <= m < stack@.len() ==> #[trigger] stack@[m] < n,
            forall|m: int| 0 <= m < stack@.len() ==> #[trigger] reaches(g, start as int, stack@[m] as int),
            forall|v: int, w: usize| 0 <= v < n && visited@[v] && #[trigger] edge(g, v, w as int) ==> visited@[w as int] || stack@.contains(w),
            forall|w: usize| #[trigger] edge(g, start as int, w as int) ==> visited@[w as int] || stack@.contains(w),
        decreases count_unvisited(visited@), stack@.len(),
    {
        let ghost st0 = stack@;
        let top = stack.pop();
        match top {
            None => {
                proof {
                    if reaches(g, start as int, start as int) {
                        let p = choose|p: Seq<int>| #[trigger] is_path(g, p) && p[0] == start as int && p.last() == start as int;
                        lemma_closed_reach(g, visited@, start as int, p, p.len() - 1);
                    }
                }
                return false;
            },
            Some(current) => {
                if current == start {
                    assert(reaches(g, start as int, st0[st0.len() - 1] as int));
                    return true;
                }
                if visited[current] {
                    proof {
                        assert forall|v: int, w: usize| 0 <= v < n && visited@[v] && #[trigger] edge(g, v, w as int)
                            implies visited@[w as int] || stack@.contains(w) by {
                            if w != current && !visited@[w as int] {
                                assert(visited@[w as int] || st0.contains(w));
                                lemma_pop_contains(st0, w);
                            }
                        }
                        assert forall|w: usize| #[trigger] edge(g, start as int, w as int) implies visited@[w as int] || stack@.contains(w) by {
                            if w != current && !visited@[w as int] {
                                lemma_pop_contains(st0, w);
                            }
                        }
                        assert forall|m: int| 0 <= m < stack@.len() implies #[trigger] reaches(g, start as int, stack@[m] as int) by {
                            assert(stack@[m] == st0[m]);
                        }
                    }
                    continue;
                }
                let ghost vis0 = visited@;
                visited.set(current, true);
                proof {
                    lemma_visit_count(vis0, current as int);
                    assert(reaches(g, start as int, st0[st0.len() - 1] as int));
                    assert forall|v: int, w: usize| 0 <= v < n && v != current && visited@[v] && #[trigger] edge(g, v, w as int)
                        implies visited@[w as int] || stack@.contains(w) by {
                        assert(vis0[v]);
                        lemma_edge_bounds(g, v, w as int);
                        if w != current && !visited@[w as int] {
                            lemma_pop_contains(st0, w);
                        }
                    }
                    assert forall|w: usize| #[trigger] edge(g, start as int, w as int) implies visited@[w as int] || stack@.contains(w) by {
                        lemma_edge_bounds(g, start as int, w as int);
                        if w != current && !visited@[w as int] {
                            lemma_pop_contains(st0, w);
                        }
                    }
                    assert forall|m: int| 0 <= m < stack@.len() implies #[trigger] reaches(g, start as int, stack@[m] as int) by {
                        assert(stack@[m] == st0[m]);
                    }
                }
                let row = &adj[current];
                let mut q: usize = 0;
                while q < row.len()
                    invariant
                        n == g.productions@.len(),
                        refs_in_bounds(g),
                        adj@.len() == n,
                        forall|v: int, k: int| 0 <= v < n && 0 <= k < adj@[v]@.len() ==> #[trigger] adj@[v]@[k] < n,
                        forall|v: int, w: usize| 0 <= v < n ==> (#[trigger] adj@[v]@.contains(w) <==> edge(g, v, w as int)),
                        0 <= start < n,
                        0 <= current < n,
                        current != start,
                        *row == adj@[current as int],
                        0 <= q <= row@.len(),
                        visited@.len() == n,
                        visited@[current as int],
                        !visited@[start as int],
                        count_unvisited(visited@) < count_unvisited(vis0),
                        reaches(g, start as int, current as int),
                        forall|m: int| 0 <= m < stack@.len() ==> #[trigger] stack@[m] < n,
                        forall|m: int| 0 <= m < stack@.len() ==> #[trigger] reaches(g, start as int, stack@[m] as int),
                        forall|v: int, w: usize| 0 <= v < n && v != current && visited@[v] && #[trigger] edge(g, v, w as int)
                            ==> visited@[w as int] || stack@.contains(w),
                        forall|w: usize| #[trigger] edge(g, start as int, w as int) ==> visited@[w as int] || stack@.contains(w),
                        forall|m: int| 0 <= m < q ==> visited@[row@[m] as int] || stack@.contains(#[trigger] row@[m]),
                    decreases row@.len() - q,
                {
                    let next = row[q];
                    if !visited[next] || next == start {
                        let ghost st1 = stack@;
                        stack.push(next);
                        proof {
                            assert(adj@[current as int]@.contains(next));
                            lemma_reach_extend(g, start as int, current as int, next as int);
                            assert forall|m: int| 0 <= m < stack@.len() implies #[trigger] reaches(g, start as int, stack@[m] as int) by {
                                if m < st1.len() {
                                    assert(stack@[m] == st1[m]);
                                }
                            }
                            assert forall|w: usize| st1.contains(w) implies #[trigger] stack@.contains(w) by {
                                lemma_push_contains(st1, next, w);
                            }
                            lemma_push_contains(st1, next, next);
                        }
                    }
                    q += 1;
                }
                proof {
                    assert forall|w: usize| #[trigger] edge(g, current as int, w as int) implies visited@[w as int] || stack@.contains(w) by {
                        assert(adj@[current as int]@.contains(w));
                        let m = choose|m: int| 0 <= m < row@.len() && row@[m] == w;
                    }
                }
            },
        }
    }
}

/// Mark productions that can derive themselves through one or more references.
pub fn mark_recursive(ir: &mut GrammarIr)
    requires
        refs_in_bounds(*old(ir)),
    ensures
        final(ir).symbols@ == old(ir).symbols@,
        final(ir).start == old(ir).start,
        final(ir).token_pools@ == old(ir).token_pools@,
        final(ir).productions@.len() == old(ir).productions@.len(),
        forall|i: int| 0 <= i < final(ir).productions@.len() ==> #[trigger] final(ir).productions@[i] == (Production {
            attrs: crate::grammar::ProductionAttrs {
                is_recursive: old(ir).productions@[i].attrs.is_recursive || reaches(*old(ir), i, i),
                ..old(ir).productions@[i].attrs
            },
            ..old(ir).productions@[i]
        }),
{
    let ghost g = *ir;
    let n = ir.productions.len();
    let mut adj: Vec<Vec<usize>> = Vec::new();
    while adj.len() < n
        invariant
            g == *ir,
            refs_in_bounds(g),
            n == g.productions@.len(),
            adj@.len() <= n,
            forall|v: int, k: int| 0 <= v < adj@.len() && 0 <= k < adj@[v]@.len() ==> #[trigger] adj@[v]@[k] < n,
            forall|v: int, w: usize| 0 <= v < adj@.len() ==> (#[trigger] adj@[v]@.contains(w) <==> edge(g, v, w as int)),
        decreases n - adj@.len(),
    {
        let row = references_of(ir, adj.len());
        adj.push(row);
    }
    let mut start: usize = 0;
    while start < n
        invariant
            n == g.productions@.len(),
            refs_in_bounds(g),
            adj@.len() == n,
            forall|v: int, k: int| 0 <= v < n && 0 <= k < adj@[v]@.len() ==> #[trigger] adj@[v]@[k] < n,
            forall|v: int, w: usize| 0 <= v < n ==> (#[trigger] adj@[v]@.contains(w) <==> edge(g, v, w as int)),
            0 <= start <= n,
            ir.symbols@ == g.symbols@,
            ir.start == g.start,
            ir.token_pools@ == g.token_pools@,
            ir.productions@.len() == n,
            forall|k: int| 0 <= k < n ==> #[trigger] ir.productions@[k] == (Production {
                attrs: crate::grammar::ProductionAttrs {
                    is_recursive: g.productions@[k].attrs.is_recursive || (k < start && reaches(g, k, k)),
                    ..g.productions@[k].attrs
                },
                ..g.productions@[k]
            }),
        decreases n - start,
    {
        let found = reaches_itself(&adj, start, Ghost(g));
        if found {
            ir.productions[start].attrs.is_recursive = true;
        }
        start += 1;
    }
}

} // verus!
