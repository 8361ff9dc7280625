//! Run-time checks of the conditions under which a grammar can be expanded:
//! callers that hold a grammar of unknown origin test it here before they
//! generate or decode.

use vstd::prelude::*;
use crate::grammar::{GrammarIr, Alternative, SymbolRef, Symbol, TerminalKind, Modifier};
use crate::profile::Profile;
use crate::engine_spec::{sym_ref_valid, alt_valid, prod_valid, pool_valid, grammar_valid, profile_valid, rep_range};
use crate::generate::{modifier_gen_ok, alt_gen_ok, prod_gen_ok, generate_ready};
use crate::analysis::{ref_in_bounds, refs_in_bounds};
use crate::reachability::ids_in_range;

verus! {

fn sym_ref_ok(g: &GrammarIr, sr: &SymbolRef) -> (r: bool)
    ensures
        r == sym_ref_valid(*g, *sr),
{
    let s = sr.symbol.0 as usize;
    if s >= g.symbols.len() {
        return false;
    }
    match &g.symbols[s] {
        Symbol::NonTerminal(pid) => (pid.0 as usize) < g.productions.len(),
        Symbol::Terminal(TerminalKind::ByteRange(lo, hi)) => *lo <= *hi,
        _ => true,
    }
}

fn alt_ok(g: &GrammarIr, alt: &Alternative) -> (r: bool)
    ensures
        r == alt_valid(*g, *alt),
{
    let mut k: usize = 0;
    while k < alt.symbols.len()
        invariant
            k <= alt.symbols@.len(),
            forall|j: int| 0 <= j < k ==> #[trigger] sym_ref_valid(*g, alt.symbols@[j]),
        decreases alt.symbols@.len() - k,
    {
        if !sym_ref_ok(g, &alt.symbols[k]) {
            return false;
        }
        k += 1;
    }
    true
}

fn alts_ok(g: &GrammarIr, alts: &Vec<Alternative>) -> (r: bool)
    ensures
        r == forall|a: int| 0 <= a < alts@.len() ==> #[trigger] alt_valid(*g, alts@[a]),
{
    let mut a: usize = 0;
    while a < alts.len()
        invariant
            a <= alts@.len(),
            forall|j: int| 0 <= j < a ==> #[trigger] alt_valid(*g, alts@[j]),
        decreases alts@.len() - a,
    {
        if !alt_ok(g, &alts[a]) {
            return false;
        }
        a += 1;
    }
    true
}

/// Whether every production has an alternative, every reference names a
/// known symbol and production, every byte range is ordered, and the start
/// production exists: the condition under which decoding can run.
pub fn grammar_is_valid(g: &GrammarIr) -> (r: bool)
    ensures
        r == grammar_valid(*g),
{
    if g.start.0 as usize >= g.productions.len() {
        return false;
    }
    let mut i: usize = 0;
    while i < g.productions.len()
        invariant
            i <= g.productions@.len(),
            forall|j: int| 0 <= j < i ==> #[trigger] prod_valid(*g, g.productions@[j]),
        decreases g.productions@.len() - i,
    {
        if g.productions[i].alternatives.len() == 0 {
            assert(!prod_valid(*g, g.productions@[i as int]));
            return false;
        }
        if !alts_ok(g, &g.productions[i].alternatives) {
            assert(!prod_valid(*g, g.productions@[i as int]));
            return false;
        }
        i += 1;
    }
    let mut t: usize = 0;
    while t < g.token_pools.len()
        invariant
            t <= g.token_pools@.len(),
            forall|j: int| 0 <= j < g.productions@.len() ==> #[trigger] prod_valid(*g, g.productions@[j]),
            forall|j: int| 0 <= j < t ==> #[trigger] pool_valid(*g, g.token_pools@[j]),
        decreases g.token_pools@.len() - t,
    {
        if !alts_ok(g, &g.token_pools[t].alternatives) {
            assert(!pool_valid(*g, g.token_pools@[t as int]));
            return false;
        }
        t += 1;
    }
    true
}

/// Whether the profile's budgets stay below the limits that the counters reach.
pub fn profile_is_valid(p: &Profile) -> (r: bool)
    ensures
        r == profile_valid(*p),
{
    p.max_depth < u32::MAX && p.max_total_nodes < u32::MAX && p.repetition_bounds.1 < u32::MAX
}

fn modifier_ok(m: Modifier, cap: u32) -> (r: bool)
    ensures
        r == modifier_gen_ok(m, cap),
{
    let (lo, max) = match m {
        Modifier::ZeroOrMore { min, max } => (min, max),
        Modifier::OneOrMore { min, max } => (if min >= 1 { min } else { 1 }, max),
        _ => {
            return true;
        },
    };
    let hi = if max <= cap { max } else { cap };
    assert(rep_range(m, cap) == (lo, hi));
    lo <= hi && hi - lo < 256
}

fn alts_gen_ok(alts: &Vec<Alternative>, cap: u32) -> (r: bool)
    ensures
        r == forall|a: int| 0 <= a < alts@.len() ==> #[trigger] alt_gen_ok(alts@[a], cap),
{
    let mut a: usize = 0;
    while a < alts.len()
        invariant
            a <= alts@.len(),
            forall|j: int| 0 <= j < a ==> #[trigger] alt_gen_ok(alts@[j], cap),
        decreases alts@.len() - a,
    {
        let syms = &alts[a].symbols;
        let mut k: usize = 0;
        while k < syms.len()
            invariant
                syms@ == alts@[a as int].symbols@,
                a < alts@.len(),
                k <= syms@.len(),
                forall|j: int| 0 <= j < k ==> #[trigger] modifier_gen_ok(syms@[j].modifier, cap),
            decreases syms@.len() - k,
        {
            if !modifier_ok(syms[k].modifier, cap) {
                assert(!alt_gen_ok(alts@[a as int], cap));
                return false;
            }
            k += 1;
        }
        assert(alt_gen_ok(alts@[a as int], cap));
        a += 1;
    }
    true
}

/// Whether the grammar and profile are valid and every repetition range
/// under the profile's cap is non-empty and fits in one tape byte: the
/// condition under which generation can run.
pub fn generate_is_ready(g: &GrammarIr, p: &Profile) -> (r: bool)
    ensures
        r == generate_ready(*g, *p),
{
    if !grammar_is_valid(g) || !profile_is_valid(p) {
        return false;
    }
    let cap = p.repetition_bounds.1;
    let mut i: usize = 0;
    while i < g.productions.len()
        invariant
            i <= g.productions@.len(),
            cap == p.repetition_bounds.1,
            forall|j: int| 0 <= j < i ==> #[trigger] prod_gen_ok(g.productions@[j], cap),
        decreases g.productions@.len() - i,
    {
        if !alts_gen_ok(&g.productions[i].alternatives, cap) {
            assert(!prod_gen_ok(g.productions@[i as int], cap));
            return false;
        }
        i += 1;
    }
    true
}

fn ref_ok(g: &GrammarIr, sr: &SymbolRef) -> (r: bool)
    ensures
        r == ref_in_bounds(*g, *sr),
{
    let s = sr.symbol.0 as usize;
    if s >= g.symbols.len() {
        return false;
    }
    match &g.symbols[s] {
        Symbol::NonTerminal(pid) => (pid.0 as usize) < g.productions.len(),
        _ => true,
    }
}

/// Whether every reference names a known symbol and production and every
/// production's id indexes the productions: the condition under which the
/// choke-point analysis can run.
pub fn ids_are_in_range(g: &GrammarIr) -> (r: bool)
    ensures
        r == ids_in_range(*g),
{
    let n = g.productions.len();
    let mut i: usize = 0;
    while i < n
        invariant
            n == g.productions@.len(),
            i <= n,
            forall|a: int| 0 <= a < i ==> (#[trigger] g.productions@[a]).id.0 < n,
            forall|a: int, j: int, k: int|
                0 <= a < i && 0 <= j < g.productions@[a].alternatives@.len()
                    && 0 <= k < g.productions@[a].alternatives@[j].symbols@.len()
                    ==> #[trigger] ref_in_bounds(*g, g.productions@[a].alternatives@[j].symbols@[k]),
        decreases n - i,
    {
        let prod = &g.productions[i];
        if prod.id.0 as usize >= n {
            return false;
        }
        let mut j: usize = 0;
        while j < prod.alternatives.len()
            invariant
                n == g.productions@.len(),
                i < n,
                *prod == g.productions@[i as int],
                j <= prod.alternatives@.len(),
                forall|jj: int, k: int|
                    0 <= jj < j && 0 <= k < prod.alternatives@[jj].symbols@.len()
                        ==> #[trigger] ref_in_bounds(*g, prod.alternatives@[jj].symbols@[k]),
            decreases prod.alternatives@.len() - j,
        {
            let syms = &prod.alternatives[j].symbols;
            let mut k: usize = 0;
            while k < syms.len()
                invariant
                    n == g.productions@.len(),
                    i < n,
                    *prod == g.productions@[i as int],
                    syms@ == prod.alternatives@[j as int].symbols@,
                    j < prod.alternatives@.len(),
                    k <= syms@.len(),
                    forall|kk: int| 0 <= kk < k ==> #[trigger] ref_in_bounds(*g, syms@[kk]),
                decreases syms@.len() - k,
            {
                if !ref_ok(g, &syms[k]) {
                    assert(!refs_in_bounds(*g)) by {
                        assert(!ref_in_bounds(*g, g.productions@[i as int].alternatives@[j as int].symbols@[k as int]));
                    }
                    return false;
                }
                k += 1;
            }
            j += 1;
        }
        i += 1;
    }
    true
}

} // verus!
