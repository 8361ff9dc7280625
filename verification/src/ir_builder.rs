//! Building grammar IR from a parsed grammar: each item becomes symbols and
//! symbol references, nested alternatives become anonymous productions.
use vstd::prelude::*;
use vstd::string::StringExecFns;
use vstd::string::StringSliceAdditionalSpecFns;
use crate::ids::{ProductionId, SymbolId};
use crate::grammar::{GrammarIr, Production, Alternative, SymbolRef, Modifier, Symbol, TerminalKind, ProductionAttrs, TokenPoolEntry};
use crate::parse_error::ParseError;
use crate::raw::{RawGrammar, RawRule, RawAlternative, RawItem, RawQuantifier, ItemV, RuleV, item_view, items_view, alts_view, rules_view};
use vstd::utf8::encode_utf8;
use crate::text::{concat, decimal, debug_quoted, is_ident_char};
use crate::analysis::{alt_depth_upto, best_alt_upto, compute_min_depths, mark_recursive, refs_in_bounds, ref_in_bounds, min_depths_ok, min_depths_of,
    reaches, depth_step, is_depth_fixpoint, edge, is_path, nt_target, slot_valid, depths_le};
use crate::validate::{ir_well_formed, prod_well_formed, alt_well_formed, symref_error};

verus! {

/// A nonterminal names one of the first `n_prod` productions.
pub open spec fn symbol_ok(s: Symbol, n_prod: int) -> bool {
    match s {
        Symbol::NonTerminal(pid) => pid.0 < n_prod,
        _ => true,
    }
}

/// Every reference names one of the first `bound` symbols.
pub open spec fn refs_below(refs: Seq<SymbolRef>, bound: int) -> bool {
    forall|k: int| 0 <= k < refs.len() ==> #[trigger] refs[k].symbol.0 < bound
}

pub open spec fn alts_below(alts: Seq<Alternative>, bound: int) -> bool {
    forall|j: int| 0 <= j < alts.len() ==> #[trigger] refs_below(alts[j].symbols@, bound)
}

/// Attributes as the builder leaves them, before analysis.
pub open spec fn attrs_fresh(a: ProductionAttrs) -> bool {
    &&& a.min_depth == u32::MAX
    &&& !a.is_recursive
    &&& a.token_kind is None
    &&& a.semantic_hook is None
}

pub proof fn lemma_alts_below_mono(alts: Seq<Alternative>, a: int, b: int)
    requires
        alts_below(alts, a),
        a <= b,
    ensures
        alts_below(alts, b),
{
    assert forall|j: int| 0 <= j < alts.len() implies #[trigger] refs_below(alts[j].symbols@, b) by {
        assert(refs_below(alts[j].symbols@, a));
    }
}

/// The first rule named `n` among `names[k..]`.
pub open spec fn find_name(names: Seq<String>, n: Seq<char>, k: int) -> Option<int>
    decreases names.len() - k,
{
    if k < 0 || k >= names.len() {
        None
    } else if names[k]@ == n {
        Some(k)
    } else {
        find_name(names, n, k + 1)
    }
}

proof fn lemma_find_name(names: Seq<String>, n: Seq<char>, k: int)
    requires
        0 <= k,
    ensures
        find_name(names, n, k) matches Some(i) ==> k <= i < names.len() && names[i]@ == n,
        find_name(names, n, k) is None ==> forall|i: int| k <= i < names.len() ==> #[trigger] names[i]@ != n,
    decreases names.len() - k,
{
    if k < names.len() {
        lemma_find_name(names, n, k + 1);
    }
}

/// No further symbol or production fits in the `u32` id space.
pub open spec fn exhausted(b: IrBuilder) -> bool {
    b.symbols@.len() >= u32::MAX || b.n_productions() >= u32::MAX
}

/// The texts of rule names.
pub open spec fn name_views(names: Seq<String>) -> Seq<Seq<char>> {
    names.map_values(|s: String| s@)
}

/// Every name in `it` is one of `names`, and every group, option and
/// repetition in it has an alternative, each of at least one item.
pub open spec fn buildable(names: Seq<Seq<char>>, it: ItemV) -> bool
    decreases it, 2nat,
{
    match it {
        ItemV::NonTerminal(n, _, _) => names.contains(n),
        ItemV::Group(alts) => alts_buildable(names, alts),
        ItemV::Optional(alts) => alts_buildable(names, alts),
        ItemV::Repeat(alts) => alts_buildable(names, alts),
        ItemV::Quantified(inner, _) => buildable(names, *inner),
        ItemV::Factor(_, inner) => buildable(names, *inner),
        _ => true,
    }
}

/// There is an alternative, and every alternative has items, all buildable.
pub open spec fn alts_buildable(names: Seq<Seq<char>>, alts: Seq<Seq<ItemV>>) -> bool
    decreases alts, 1nat,
{
    alts.len() > 0 && forall|j: int| 0 <= j < alts.len() ==> alts[j].len() > 0 && items_buildable(names, #[trigger] alts[j])
}

/// Every item is buildable.
pub open spec fn items_buildable(names: Seq<Seq<char>>, items: Seq<ItemV>) -> bool
    decreases items, 0nat,
{
    forall|k: int| 0 <= k < items.len() ==> buildable(names, #[trigger] items[k])
}

/// At most how many symbols, and how many anonymous productions, building
/// `it` adds: one per item, one more per group, quantifier and factor, and
/// for an option or repetition its alternatives twice over (a single item
/// may be built once alone and once again among the alternatives).
pub open spec fn item_cost(it: ItemV) -> nat
    decreases it, 2nat, 0nat,
{
    match it {
        ItemV::Group(alts) => alts_cost(alts) + 1,
        ItemV::Optional(alts) => 2 * alts_cost(alts) + 1,
        ItemV::Repeat(alts) => 2 * alts_cost(alts) + 1,
        ItemV::Quantified(inner, _) => item_cost(*inner) + 1,
        ItemV::Factor(_, inner) => item_cost(*inner) + 1,
        _ => 1,
    }
}

pub open spec fn alts_cost(alts: Seq<Seq<ItemV>>) -> nat
    decreases alts, 1nat, 0nat,
{
    alts_cost_upto(alts, alts.len() as int)
}

pub open spec fn alts_cost_upto(alts: Seq<Seq<ItemV>>, j: int) -> nat
    decreases alts, 0nat, j,
{
    if j <= 0 || j > alts.len() {
        0
    } else {
        alts_cost_upto(alts, j - 1) + items_cost(alts[j - 1])
    }
}

pub open spec fn items_cost(items: Seq<ItemV>) -> nat
    decreases items, 1nat, 0nat,
{
    items_cost_upto(items, items.len() as int)
}

pub open spec fn items_cost_upto(items: Seq<ItemV>, k: int) -> nat
    decreases items, 0nat, k,
{
    if k <= 0 || k > items.len() {
        0
    } else {
        items_cost_upto(items, k - 1) + item_cost(items[k - 1])
    }
}

/// `b1` has at most `c` more symbols and `c` more anonymous productions than `b0`.
pub open spec fn grows_within(b1: IrBuilder, b0: IrBuilder, c: int) -> bool {
    &&& b1.symbols@.len() <= b0.symbols@.len() + c
    &&& b1.anon_productions@.len() <= b0.anon_productions@.len() + c
}

/// Non-empty anonymous productions stay so.
pub open spec fn keeps_nonempty(b0: IrBuilder, b1: IrBuilder) -> bool {
    prods_nonempty(b0.anon_productions@) ==> prods_nonempty(b1.anon_productions@)
}

pub proof fn lemma_alts_cost_mono(alts: Seq<Seq<ItemV>>, j: int)
    requires
        0 <= j <= alts.len(),
    ensures
        alts_cost_upto(alts, j) <= alts_cost(alts),
    decreases alts.len() - j,
{
    if j < alts.len() {
        lemma_alts_cost_mono(alts, j + 1);
    }
}

pub proof fn lemma_items_cost_mono(items: Seq<ItemV>, k: int)
    requires
        0 <= k <= items.len(),
    ensures
        items_cost_upto(items, k) <= items_cost(items),
    decreases items.len() - k,
{
    if k < items.len() {
        lemma_items_cost_mono(items, k + 1);
    }
}

/// The names of rules.
pub open spec fn rule_names(rs: Seq<RuleV>) -> Seq<Seq<char>> {
    rs.map_values(|r: RuleV| r.name)
}

/// The costs of the first `k` rules together.
pub open spec fn rules_cost(rs: Seq<RuleV>, k: int) -> nat
    decreases k,
{
    if k <= 0 || k > rs.len() {
        0
    } else {
        rules_cost(rs, k - 1) + alts_cost(rs[k - 1].alts)
    }
}

pub proof fn lemma_rules_cost_mono(rs: Seq<RuleV>, k: int)
    requires
        0 <= k <= rs.len(),
    ensures
        rules_cost(rs, k) <= rules_cost(rs, rs.len() as int),
    decreases rs.len() - k,
{
    if k < rs.len() {
        lemma_rules_cost_mono(rs, k + 1);
    }
}

/// Rules that building turns into IR: at least one, no name twice, every
/// rule with alternatives of at least one item each, every name used a
/// rule, every group, option and repetition with alternatives of at least
/// one item each, and few enough items for the `u32` id space.
pub open spec fn rules_ready(rs: Seq<RuleV>) -> bool {
    &&& rs.len() > 0
    &&& forall|i: int, j: int| 0 <= i < j < rs.len() ==> (#[trigger] rs[i]).name != (#[trigger] rs[j]).name
    &&& forall|i: int| 0 <= i < rs.len() ==> alts_buildable(rule_names(rs), (#[trigger] rs[i]).alts)
    &&& rs.len() + rules_cost(rs, rs.len() as int) < u32::MAX
}

/// Adding an anonymous production whose alternatives all have symbols
/// keeps the anonymous productions non-empty.
pub proof fn lemma_push_nonempty(b0: IrBuilder, b1: IrBuilder, alts: Seq<Alternative>)
    requires
        b1.grows_from(b0),
        b1.anon_productions@.len() == b0.anon_productions@.len() + 1,
        b1.anon_productions@.last().alternatives@ == alts,
        alts.len() > 0,
        forall|j: int| 0 <= j < alts.len() ==> (#[trigger] alts[j]).symbols@.len() > 0,
        prods_nonempty(b0.anon_productions@),
    ensures
        prods_nonempty(b1.anon_productions@),
{
    let ps = b1.anon_productions@;
    assert forall|i: int| 0 <= i < ps.len() implies {
        &&& (#[trigger] ps[i]).alternatives@.len() > 0
        &&& forall|a: int| 0 <= a < ps[i].alternatives@.len() ==> (#[trigger] ps[i].alternatives@[a]).symbols@.len() > 0
    } by {
        if i < b0.anon_productions@.len() {
            assert(ps[i] == b0.anon_productions@[i]);
        } else {
            assert(ps[i].alternatives@ == alts);
            assert forall|a: int| 0 <= a < ps[i].alternatives@.len() implies (#[trigger] ps[i].alternatives@[a]).symbols@.len() > 0 by {
                assert(alts[a].symbols@.len() > 0);
            }
        }
    }
}

/// One item that is not buildable makes its sequence not buildable.
pub proof fn lemma_items_not_buildable(names: Seq<Seq<char>>, items: Seq<ItemV>, k: int)
    requires
        0 <= k < items.len(),
        !buildable(names, items[k]),
    ensures
        !items_buildable(names, items),
{
}

/// One alternative that is not buildable makes the alternatives not buildable.
pub proof fn lemma_alts_not_buildable(names: Seq<Seq<char>>, alts: Seq<Seq<ItemV>>, j: int)
    requires
        0 <= j < alts.len(),
        !items_buildable(names, alts[j]),
    ensures
        !alts_buildable(names, alts),
{
}

pub open spec fn too_large_error(e: ParseError) -> bool {
    e.message@ == "grammar too large"@
}

// ── What a built reference stands for ──

/// The symbols, the alternatives of the anonymous productions (whose ids
/// follow the `nn` rules), and the rule names, against which built
/// references are read.
pub struct BuildState {
    pub symbols: Seq<Symbol>,
    pub anon: Seq<Seq<Alternative>>,
    pub nn: int,
    pub names: Seq<String>,
}

/// The modifier a quantifier puts on its item.
pub open spec fn quantifier_modifier(q: RawQuantifier) -> Modifier {
    match q {
        RawQuantifier::Optional => Modifier::Optional,
        RawQuantifier::ZeroOrMore => Modifier::ZeroOrMore { min: 0, max: u32::MAX },
        RawQuantifier::OneOrMore => Modifier::OneOrMore { min: 1, max: u32::MAX },
    }
}

/// Whether an item builds to one reference without modifier.
pub open spec fn builds_once(it: ItemV) -> bool
    decreases it,
{
    match it {
        ItemV::Group(alts) => if alts.len() == 1 && alts[0].len() == 1 { builds_once(alts[0][0]) } else { true },
        ItemV::Quantified(..) | ItemV::Optional(..) | ItemV::Repeat(..) | ItemV::Factor(..) => false,
        _ => true,
    }
}

/// The alternatives of the anonymous production that symbol `sid` names, if it names one.
pub open spec fn anon_of(st: BuildState, sid: SymbolId) -> Option<Seq<Alternative>> {
    if sid.0 < st.symbols.len() {
        match st.symbols[sid.0 as int] {
            Symbol::NonTerminal(p) => if st.nn <= p.0 < st.nn + st.anon.len() { Some(st.anon[p.0 - st.nn]) } else { None },
            _ => None,
        }
    } else {
        None
    }
}

/// Reference `r` stands for item `it`: a literal, rule, class or any-byte
/// terminal without modifier; a group as its single item, or as an
/// anonymous production of its alternatives; a quantified or repeated item
/// as one symbol under the matching modifier.
pub open spec fn ref_means(st: BuildState, r: SymbolRef, it: ItemV) -> bool
    decreases it, 0nat, 0nat,
{
    &&& r.symbol.0 < st.symbols.len()
    &&& match it {
        ItemV::Literal(s) => r.modifier == Modifier::Once
            && (st.symbols[r.symbol.0 as int] matches Symbol::Terminal(TerminalKind::Literal(b)) && b@ == encode_utf8(s)),
        ItemV::NonTerminal(n, _, _) => r.modifier == Modifier::Once && match find_name(st.names, n, 0) {
            Some(i) => st.symbols[r.symbol.0 as int] == Symbol::NonTerminal(ProductionId(i as u32)),
            None => false,
        },
        ItemV::CharClass(rs, neg) => r.modifier == Modifier::Once
            && (st.symbols[r.symbol.0 as int] matches Symbol::Terminal(TerminalKind::CharClass { ranges, negated })
                && ranges@ == rs && negated == neg),
        ItemV::AnyChar => r.modifier == Modifier::Once && (st.symbols[r.symbol.0 as int] matches Symbol::Terminal(TerminalKind::AnyByte)),
        ItemV::Group(alts) => if alts.len() == 1 && alts[0].len() == 1 {
            ref_means(st, r, alts[0][0])
        } else {
            r.modifier == Modifier::Once && anon_means(st, r.symbol, alts)
        },
        ItemV::Quantified(inner, q) => r.modifier == quantifier_modifier(q) && single_means(st, r.symbol, *inner),
        ItemV::Optional(alts) => r.modifier == Modifier::Optional && alts_sym_means(st, r.symbol, alts),
        ItemV::Repeat(alts) => r.modifier == (Modifier::ZeroOrMore { min: 0, max: u32::MAX }) && alts_sym_means(st, r.symbol, alts),
        ItemV::Factor(n, inner) => r.modifier == (Modifier::ZeroOrMore { min: n, max: n }) && single_means(st, r.symbol, *inner),
    }
}

/// Symbol `sid` stands for item `it`: its own symbol when it builds to one
/// reference without modifier, else an anonymous production of that one reference.
pub open spec fn single_means(st: BuildState, sid: SymbolId, it: ItemV) -> bool
    decreases it, 1nat, 0nat,
{
    if builds_once(it) {
        ref_means(st, SymbolRef { symbol: sid, modifier: Modifier::Once }, it)
    } else {
        match anon_of(st, sid) {
            Some(alts) => alts.len() == 1 && alts[0].semantic_tag is None && alts[0].symbols@.len() == 1
                && ref_means(st, alts[0].symbols@[0], it),
            None => false,
        }
    }
}

/// Symbol `sid` stands for alternatives `alts`: the symbol of a single
/// item that builds to one reference without modifier, else an anonymous
/// production of the alternatives.
pub open spec fn alts_sym_means(st: BuildState, sid: SymbolId, alts: Seq<Seq<ItemV>>) -> bool
    decreases alts, 3nat, 0nat,
{
    if alts.len() == 1 && alts[0].len() == 1 && builds_once(alts[0][0]) {
        ref_means(st, SymbolRef { symbol: sid, modifier: Modifier::Once }, alts[0][0])
    } else {
        anon_means(st, sid, alts)
    }
}

/// Symbol `sid` names an anonymous production whose alternatives stand for `alts`.
pub open spec fn anon_means(st: BuildState, sid: SymbolId, alts: Seq<Seq<ItemV>>) -> bool
    decreases alts, 2nat, 0nat,
{
    match anon_of(st, sid) {
        Some(built) => alts_mean(st, built, alts),
        None => false,
    }
}

/// Built alternatives stand for `alts`, one for one.
pub open spec fn alts_mean(st: BuildState, built: Seq<Alternative>, alts: Seq<Seq<ItemV>>) -> bool
    decreases alts, 1nat, 0nat,
{
    built.len() == alts.len() && alts_mean_upto(st, built, alts, alts.len() as int)
}

pub open spec fn alts_mean_upto(st: BuildState, built: Seq<Alternative>, alts: Seq<Seq<ItemV>>, j: int) -> bool
    decreases alts, 0nat, j,
{
    if j <= 0 || j > alts.len() || j > built.len() {
        j <= 0
    } else {
        &&& alts_mean_upto(st, built, alts, j - 1)
        &&& built[j - 1].semantic_tag is None
        &&& refs_mean(st, built[j - 1].symbols@, alts[j - 1])
    }
}

/// References stand for items, one for one.
pub open spec fn refs_mean(st: BuildState, refs: Seq<SymbolRef>, items: Seq<ItemV>) -> bool
    decreases items, 1nat, 0nat,
{
    refs.len() == items.len() && refs_mean_upto(st, refs, items, items.len() as int)
}

pub open spec fn refs_mean_upto(st: BuildState, refs: Seq<SymbolRef>, items: Seq<ItemV>, k: int) -> bool
    decreases items, 0nat, k,
{
    if k <= 0 || k > items.len() || k > refs.len() {
        k <= 0
    } else {
        refs_mean_upto(st, refs, items, k - 1) && ref_means(st, refs[k - 1], items[k - 1])
    }
}

/// `st2` is `st1` with symbols and anonymous productions appended.
pub open spec fn extends(st2: BuildState, st1: BuildState) -> bool {
    &&& st2.nn == st1.nn
    &&& st2.names == st1.names
    &&& st1.symbols.len() <= st2.symbols.len()
    &&& st1.anon.len() <= st2.anon.len()
    &&& forall|s: int| 0 <= s < st1.symbols.len() ==> #[trigger] st2.symbols[s] == st1.symbols[s]
    &&& forall|a: int| 0 <= a < st1.anon.len() ==> #[trigger] st2.anon[a] == st1.anon[a]
}

proof fn lemma_anon_of_grow(st1: BuildState, st2: BuildState, sid: SymbolId)
    requires
        extends(st2, st1),
        anon_of(st1, sid) is Some,
    ensures
        anon_of(st2, sid) == anon_of(st1, sid),
{
    assert(st2.symbols[sid.0 as int] == st1.symbols[sid.0 as int]);
    if let Symbol::NonTerminal(p) = st1.symbols[sid.0 as int] {
        assert(st2.anon[p.0 - st1.nn] == st1.anon[p.0 - st1.nn]);
    }
}

/// What a reference stands for stays so as the build goes on.
pub proof fn lemma_ref_means_grow(st1: BuildState, st2: BuildState, r: SymbolRef, it: ItemV)
    requires
        extends(st2, st1),
        ref_means(st1, r, it),
    ensures
        ref_means(st2, r, it),
    decreases it, 0nat, 0nat,
{
    assert(st2.symbols[r.symbol.0 as int] == st1.symbols[r.symbol.0 as int]);
    match it {
        ItemV::Group(alts) => {
            if alts.len() == 1 && alts[0].len() == 1 {
                lemma_ref_means_grow(st1, st2, r, alts[0][0]);
            } else {
                lemma_anon_means_grow(st1, st2, r.symbol, alts);
            }
        },
        ItemV::Quantified(inner, q) => {
            lemma_single_means_grow(st1, st2, r.symbol, *inner);
        },
        ItemV::Optional(alts) => {
            lemma_alts_sym_means_grow(st1, st2, r.symbol, alts);
        },
        ItemV::Repeat(alts) => {
            lemma_alts_sym_means_grow(st1, st2, r.symbol, alts);
        },
        ItemV::Factor(n, inner) => {
            lemma_single_means_grow(st1, st2, r.symbol, *inner);
        },
        _ => {},
    }
}

proof fn lemma_single_means_grow(st1: BuildState, st2: BuildState, sid: SymbolId, it: ItemV)
    requires
        extends(st2, st1),
        single_means(st1, sid, it),
    ensures
        single_means(st2, sid, it),
    decreases it, 1nat, 0nat,
{
    if builds_once(it) {
        lemma_ref_means_grow(st1, st2, SymbolRef { symbol: sid, modifier: Modifier::Once }, it);
    } else {
        lemma_anon_of_grow(st1, st2, sid);
        let alts = anon_of(st1, sid)->0;
        lemma_ref_means_grow(st1, st2, alts[0].symbols@[0], it);
    }
}

proof fn lemma_alts_sym_means_grow(st1: BuildState, st2: BuildState, sid: SymbolId, alts: Seq<Seq<ItemV>>)
    requires
        extends(st2, st1),
        alts_sym_means(st1, sid, alts),
    ensures
        alts_sym_means(st2, sid, alts),
    decreases alts, 3nat, 0nat,
{
    if alts.len() == 1 && alts[0].len() == 1 && builds_once(alts[0][0]) {
        lemma_ref_means_grow(st1, st2, SymbolRef { symbol: sid, modifier: Modifier::Once }, alts[0][0]);
    } else {
        lemma_anon_means_grow(st1, st2, sid, alts);
    }
}

proof fn lemma_anon_means_grow(st1: BuildState, st2: BuildState, sid: SymbolId, alts: Seq<Seq<ItemV>>)
    requires
        extends(st2, st1),
        anon_means(st1, sid, alts),
    ensures
        anon_means(st2, sid, alts),
    decreases alts, 2nat, 0nat,
{
    lemma_anon_of_grow(st1, st2, sid);
    lemma_alts_mean_grow(st1, st2, anon_of(st1, sid)->0, alts);
}

/// Built alternatives keep standing for theirs as the build goes on.
pub proof fn lemma_alts_mean_grow(st1: BuildState, st2: BuildState, built: Seq<Alternative>, alts: Seq<Seq<ItemV>>)
    requires
        extends(st2, st1),
        alts_mean(st1, built, alts),
    ensures
        alts_mean(st2, built, alts),
    decreases alts, 1nat, 0nat,
{
    lemma_alts_mean_upto_grow(st1, st2, built, alts, alts.len() as int);
}

proof fn lemma_alts_mean_upto_grow(st1: BuildState, st2: BuildState, built: Seq<Alternative>, alts: Seq<Seq<ItemV>>, j: int)
    requires
        extends(st2, st1),
        alts_mean_upto(st1, built, alts, j),
    ensures
        alts_mean_upto(st2, built, alts, j),
    decreases alts, 0nat, j,
{
    if 0 < j <= alts.len() && j <= built.len() {
        lemma_alts_mean_upto_grow(st1, st2, built, alts, j - 1);
        lemma_refs_mean_grow(st1, st2, built[j - 1].symbols@, alts[j - 1]);
    }
}

/// References keep standing for their items as the build goes on.
pub proof fn lemma_refs_mean_grow(st1: BuildState, st2: BuildState, refs: Seq<SymbolRef>, items: Seq<ItemV>)
    requires
        extends(st2, st1),
        refs_mean(st1, refs, items),
    ensures
        refs_mean(st2, refs, items),
    decreases items, 1nat, 0nat,
{
    lemma_refs_mean_upto_grow(st1, st2, refs, items, items.len() as int);
}

proof fn lemma_refs_mean_upto_grow(st1: BuildState, st2: BuildState, refs: Seq<SymbolRef>, items: Seq<ItemV>, k: int)
    requires
        extends(st2, st1),
        refs_mean_upto(st1, refs, items, k),
    ensures
        refs_mean_upto(st2, refs, items, k),
    decreases items, 0nat, k,
{
    if 0 < k <= items.len() && k <= refs.len() {
        lemma_refs_mean_upto_grow(st1, st2, refs, items, k - 1);
        lemma_ref_means_grow(st1, st2, refs[k - 1], items[k - 1]);
    }
}

/// A reference has no modifier exactly when its item builds without one.
pub proof fn lemma_once(st: BuildState, r: SymbolRef, it: ItemV)
    requires
        ref_means(st, r, it),
    ensures
        (r.modifier == Modifier::Once) == builds_once(it),
    decreases it,
{
    if let ItemV::Group(alts) = it {
        if alts.len() == 1 && alts[0].len() == 1 {
            lemma_once(st, r, alts[0][0]);
        }
    }
}

/// `refs_mean_upto` over `k + 1` references, from `k` of them.
proof fn lemma_refs_mean_upto_step(st: BuildState, refs: Seq<SymbolRef>, items: Seq<ItemV>, k: int)
    requires
        0 <= k < items.len(),
        k < refs.len(),
        refs_mean_upto(st, refs, items, k),
        ref_means(st, refs[k], items[k]),
    ensures
        refs_mean_upto(st, refs, items, k + 1),
{
}

/// `refs_mean_upto` depends only on the first `k` references.
proof fn lemma_refs_mean_upto_prefix(st: BuildState, refs: Seq<SymbolRef>, refs2: Seq<SymbolRef>, items: Seq<ItemV>, k: int)
    requires
        0 <= k <= refs.len(),
        k <= refs2.len(),
        refs_mean_upto(st, refs, items, k),
        forall|i: int| 0 <= i < k ==> refs2[i] == refs[i],
    ensures
        refs_mean_upto(st, refs2, items, k),
    decreases k,
{
    if k > 0 && k <= items.len() {
        lemma_refs_mean_upto_prefix(st, refs, refs2, items, k - 1);
    }
}

/// `alts_mean_upto` depends only on the first `j` alternatives.
proof fn lemma_alts_mean_upto_prefix(st: BuildState, built: Seq<Alternative>, built2: Seq<Alternative>, alts: Seq<Seq<ItemV>>, j: int)
    requires
        0 <= j <= built.len(),
        j <= built2.len(),
        alts_mean_upto(st, built, alts, j),
        forall|i: int| 0 <= i < j ==> built2[i] == built[i],
    ensures
        alts_mean_upto(st, built2, alts, j),
    decreases j,
{
    if j > 0 && j <= alts.len() {
        lemma_alts_mean_upto_prefix(st, built, built2, alts, j - 1);
    }
}

/// The views of items, position by position.
pub proof fn lemma_items_view_index(items: Seq<RawItem>)
    ensures
        items_view(items).len() == items.len(),
        forall|k: int| 0 <= k < items.len() ==> #[trigger] items_view(items)[k] == item_view(items[k]),
    decreases items.len(),
{
    if items.len() > 0 {
        lemma_items_view_index(items.drop_last());
    }
}

/// The views of alternatives, position by position.
pub proof fn lemma_alts_view_index(alts: Seq<RawAlternative<RawItem>>)
    ensures
        alts_view(alts).len() == alts.len(),
        forall|j: int| 0 <= j < alts.len() ==> #[trigger] alts_view(alts)[j] == items_view(alts[j].items@),
    decreases alts.len(),
{
    if alts.len() > 0 {
        lemma_alts_view_index(alts.drop_last());
    }
}

/// A builder that grew from another reads what the other read.
pub proof fn lemma_grows_extends(b2: IrBuilder, b1: IrBuilder)
    requires
        b2.grows_from(b1),
    ensures
        extends(b2.state(), b1.state()),
{
    assert forall|a: int| 0 <= a < b1.state().anon.len() implies #[trigger] b2.state().anon[a] == b1.state().anon[a] by {
        assert(b2.anon_productions@[a] == b1.anon_productions@[a]);
    }
}

/// Collects the symbols and anonymous productions of the grammar being built.
pub struct IrBuilder {
    pub symbols: Vec<Symbol>,
    /// The rule names, indexed by production id.
    pub names: Vec<String>,
    pub anon_productions: Vec<Production>,
    pub n_named: u32,
}

impl IrBuilder {
    /// The number of productions so far: the rules, then the anonymous ones.
    pub open spec fn n_productions(&self) -> int {
        self.n_named + self.anon_productions@.len()
    }

    /// Every symbol names a known production, every reference in an
    /// anonymous production a known symbol, and ids fit in `u32`.
    pub open spec fn wf(&self) -> bool {
        &&& self.names@.len() == self.n_named
        &&& self.n_productions() <= u32::MAX
        &&& self.symbols@.len() <= u32::MAX
        &&& forall|s: int| 0 <= s < self.symbols@.len() ==> #[trigger] symbol_ok(self.symbols@[s], self.n_productions())
        &&& forall|a: int| 0 <= a < self.anon_productions@.len()
            ==> #[trigger] alts_below(self.anon_productions@[a].alternatives@, self.symbols@.len() as int)
        &&& forall|a: int| 0 <= a < self.anon_productions@.len()
            ==> (#[trigger] self.anon_productions@[a]).id == ProductionId((self.n_named + a) as u32)
                && attrs_fresh(self.anon_productions@[a].attrs)
    }

    /// `self` is `old` with symbols and anonymous productions appended.
    pub open spec fn grows_from(&self, old: IrBuilder) -> bool {
        &&& self.n_named == old.n_named
        &&& self.names@ == old.names@
        &&& self.symbols@.len() >= old.symbols@.len()
        &&& self.anon_productions@.len() >= old.anon_productions@.len()
        &&& forall|s: int| 0 <= s < old.symbols@.len() ==> #[trigger] self.symbols@[s] == old.symbols@[s]
        &&& forall|a: int| 0 <= a < old.anon_productions@.len() ==> #[trigger] self.anon_productions@[a] == old.anon_productions@[a]
    }

    /// What the built references are read against.
    pub open spec fn state(&self) -> BuildState {
        BuildState {
            symbols: self.symbols@,
            anon: self.anon_productions@.map_values(|p: Production| p.alternatives@),
            nn: self.n_named as int,
            names: self.names@,
        }
    }

    /// A builder for `names.len()` rules with these names.
    pub fn new(names: Vec<String>) -> (b: IrBuilder)
        requires
            names@.len() < u32::MAX,
        ensures
            b.wf(),
            b.names@ == names@,
            b.symbols@.len() == 0,
            b.anon_productions@.len() == 0,
    {
        let n = names.len() as u32;
        IrBuilder { symbols: Vec::new(), names, anon_productions: Vec::new(), n_named: n }
    }

    /// Add a symbol; its id is its index. The id space is `u32`: a grammar
    /// that would need more symbols is refused.
    pub fn alloc_symbol(&mut self, sym: Symbol) -> (r: Result<SymbolId, ParseError>)
        requires
            old(self).wf(),
            symbol_ok(sym, old(self).n_productions()),
        ensures
            final(self).wf(),
            final(self).grows_from(*old(self)),
            final(self).anon_productions@ == old(self).anon_productions@,
            r matches Ok(id) ==> id.0 == old(self).symbols@.len() && final(self).symbols@ == old(self).symbols@.push(sym),
            r matches Err(e) ==> too_large_error(e) && final(self).symbols@ == old(self).symbols@,
            r is Err <==> old(self).symbols@.len() >= u32::MAX,
            r is Err ==> exhausted(*final(self)),
            grows_within(*final(self), *old(self), 1),
    {
        if self.symbols.len() >= 0xffff_ffff {
            return Err(ParseError { line: 0, column: 0, message: String::from_str("grammar too large") });
        }
        let id = SymbolId(self.symbols.len() as u32);
        let ghost b0 = self.symbols@.len() as int;
        self.symbols.push(sym);
        proof {
            assert forall|a: int| 0 <= a < self.anon_productions@.len()
                implies #[trigger] alts_below(self.anon_productions@[a].alternatives@, self.symbols@.len() as int) by {
                lemma_alts_below_mono(self.anon_productions@[a].alternatives@, b0, self.symbols@.len() as int);
            }
        }
        Ok(id)
    }

    /// The id the next anonymous production gets.
    pub fn next_anon_id(&self) -> (id: ProductionId)
        requires
            self.wf(),
        ensures
            id.0 == self.n_productions(),
    {
        ProductionId(self.n_named + self.anon_productions.len() as u32)
    }

    /// Add an anonymous production with these alternatives, named after its
    /// id, and a symbol that refers to it.
    pub fn push_anon_production(&mut self, alternatives: Vec<Alternative>) -> (r: Result<SymbolId, ParseError>)
        requires
            old(self).wf(),
            alts_below(alternatives@, old(self).symbols@.len() as int),
        ensures
            final(self).wf(),
            final(self).grows_from(*old(self)),
            r matches Ok(id) ==> id.0 < final(self).symbols@.len()
                && anon_of(final(self).state(), id) == Some(alternatives@),
            r is Err <==> exhausted(*old(self)),
            r matches Err(e) ==> too_large_error(e) && *final(self) == *old(self),
            grows_within(*final(self), *old(self), 1),
            r is Ok ==> final(self).anon_productions@.len() == old(self).anon_productions@.len() + 1
                && final(self).anon_productions@.last().alternatives@ == alternatives@,
    {
        if self.n_named as u64 + self.anon_productions.len() as u64 >= 0xffff_ffff || self.symbols.len() >= 0xffff_ffff {
            return Err(ParseError { line: 0, column: 0, message: String::from_str("grammar too large") });
        }
        let anon_id = self.next_anon_id();
        let digits = decimal(anon_id.0 as u64);
        let name = concat("__anon_", digits.as_str());
        let ghost n0 = self.n_productions();
        let ghost a0 = self.anon_productions@.len() as int;
        self.anon_productions.push(Production { id: anon_id, name, alternatives, attrs: ProductionAttrs::new() });
        proof {
            assert forall|s: int| 0 <= s < self.symbols@.len() implies #[trigger] symbol_ok(self.symbols@[s], self.n_productions()) by {
                assert(symbol_ok(self.symbols@[s], n0));
            }
            assert forall|a: int| 0 <= a < self.anon_productions@.len()
                implies #[trigger] alts_below(self.anon_productions@[a].alternatives@, self.symbols@.len() as int) by {
                if a < a0 {
                    assert(self.anon_productions@[a] == old(self).anon_productions@[a]);
                }
            }
            assert forall|a: int| 0 <= a < self.anon_productions@.len()
                implies (#[trigger] self.anon_productions@[a]).id == ProductionId((self.n_named + a) as u32)
                    && attrs_fresh(self.anon_productions@[a].attrs) by {
                if a < a0 {
                    assert(self.anon_productions@[a] == old(self).anon_productions@[a]);
                }
            }
        }
        self.alloc_symbol(Symbol::NonTerminal(anon_id))
    }

    /// Add a literal terminal and a reference to it.
    pub fn build_literal(&mut self, s: &str, refs: &mut Vec<SymbolRef>) -> (r: Result<(), ParseError>)
        requires
            old(self).wf(),
        ensures
            final(self).wf(),
            final(self).grows_from(*old(self)),
            final(self).anon_productions@ == old(self).anon_productions@,
            r is Ok ==> final(self).symbols@.len() == old(self).symbols@.len() + 1
                && final(self).symbols@.subrange(0, old(self).symbols@.len() as int) == old(self).symbols@
                && final(refs)@ == old(refs)@.push(SymbolRef { symbol: SymbolId(old(self).symbols@.len() as u32), modifier: Modifier::Once })
                && (final(self).symbols@.last() matches Symbol::Terminal(TerminalKind::Literal(b)) && b@ == s.spec_bytes())
                && ref_means(final(self).state(), final(refs)@.last(), ItemV::Literal(s@)),
            r matches Err(e) ==> too_large_error(e),
            r is Err ==> final(refs)@ == old(refs)@ && exhausted(*final(self)),
            grows_within(*final(self), *old(self), 1),
    {
        let bytes = vstd::slice::slice_to_vec(s.as_bytes());
        let sid = self.alloc_symbol(Symbol::Terminal(TerminalKind::Literal(bytes)));
        match sid {
            Ok(sid) => {
                refs.push(SymbolRef { symbol: sid, modifier: Modifier::Once });
                Ok(())
            },
            Err(e) => Err(e),
        }
    }

    /// Add a reference to the rule called `name`; an error names an undefined rule.
    pub fn build_nonterminal(&mut self, name: &str, line: usize, col: usize, refs: &mut Vec<SymbolRef>) -> (r: Result<(), ParseError>)
        requires
            old(self).wf(),
        ensures
            final(self).wf(),
            final(self).grows_from(*old(self)),
            final(self).anon_productions@ == old(self).anon_productions@,
            match find_name(old(self).names@, name@, 0) {
                Some(i) => match r {
                    Ok(_) => final(self).symbols@ == old(self).symbols@.push(Symbol::NonTerminal(ProductionId(i as u32)))
                        && final(refs)@ == old(refs)@.push(SymbolRef { symbol: SymbolId(old(self).symbols@.len() as u32), modifier: Modifier::Once })
                        && ref_means(final(self).state(), final(refs)@.last(), ItemV::NonTerminal(name@, line, col)),
                    Err(e) => too_large_error(e),
                },
                None => r matches Err(e) && e.line == line && e.column == col
                    && "undefined rule: "@.is_prefix_of(e.message@)
                    && ((forall|k: int| 0 <= k < name@.len() ==> #[trigger] is_ident_char(name@[k]))
                        ==> e.message@ == "undefined rule: "@ + seq!['"'] + name@ + seq!['"'])
                    && final(self).symbols@ == old(self).symbols@,
            },
            r is Err ==> exhausted(*final(self)) || find_name(old(self).names@, name@, 0) is None,
            grows_within(*final(self), *old(self), 1),
    {
        let key = String::from_str(name);
        let mut k: usize = 0;
        let mut found: Option<usize> = None;
        while k < self.names.len()
            invariant_except_break
                0 <= k <= self.names@.len(),
                key@ == name@,
                found is None,
                find_name(self.names@, name@, 0) == find_name(self.names@, name@, k as int),
            ensures
                found matches Some(i) ==> find_name(self.names@, name@, 0) == Some(i as int) && i < self.names@.len(),
                found is None ==> find_name(self.names@, name@, 0) is None,
            decreases self.names@.len() - k,
        {
            if self.names[k] == key {
                found = Some(k);
                break;
            }
            k += 1;
        }
        match found {
            None => {
                let q = debug_quoted(name);
                let message = concat("undefined rule: ", q.as_str());
                proof {
                    reveal_strlit("undefined rule: ");
                    assert("undefined rule: "@.is_prefix_of(message@)) by {
                        assert(message@.subrange(0, "undefined rule: "@.len() as int) =~= "undefined rule: "@);
                    }
                }
                Err(ParseError { line, column: col, message })
            },
            Some(i) => {
                proof {
                    lemma_find_name(self.names@, name@, 0);
                }
                let sid = self.alloc_symbol(Symbol::NonTerminal(ProductionId(i as u32)));
                match sid {
                    Ok(sid) => {
                        refs.push(SymbolRef { symbol: sid, modifier: Modifier::Once });
                        Ok(())
                    },
                    Err(e) => Err(e),
                }
            },
        }
    }

    /// Add a character class terminal and a reference to it.
    pub fn build_charclass(&mut self, ranges: &[(u8, u8)], negated: bool, refs: &mut Vec<SymbolRef>) -> (r: Result<(), ParseError>)
        requires
            old(self).wf(),
        ensures
            final(self).wf(),
            final(self).grows_from(*old(self)),
            final(self).anon_productions@ == old(self).anon_productions@,
            r is Ok ==> final(self).symbols@.len() == old(self).symbols@.len() + 1
                && final(self).symbols@.subrange(0, old(self).symbols@.len() as int) == old(self).symbols@
                && final(refs)@ == old(refs)@.push(SymbolRef { symbol: SymbolId(old(self).symbols@.len() as u32), modifier: Modifier::Once })
                && (final(self).symbols@.last() matches Symbol::Terminal(TerminalKind::CharClass { ranges: rs, negated: ng })
                    && rs@ == ranges@ && ng == negated)
                && ref_means(final(self).state(), final(refs)@.last(), ItemV::CharClass(ranges@, negated)),
            r matches Err(e) ==> too_large_error(e),
            r is Err ==> final(refs)@ == old(refs)@ && exhausted(*final(self)),
            grows_within(*final(self), *old(self), 1),
    {
        let rs = vstd::slice::slice_to_vec(ranges);
        let sid = self.alloc_symbol(Symbol::Terminal(TerminalKind::CharClass { ranges: rs, negated }));
        match sid {
            Ok(sid) => {
                refs.push(SymbolRef { symbol: sid, modifier: Modifier::Once });
                Ok(())
            },
            Err(e) => Err(e),
        }
    }

    /// Add an any-byte terminal and a reference to it.
    pub fn build_anychar(&mut self, refs: &mut Vec<SymbolRef>) -> (r: Result<(), ParseError>)
        requires
            old(self).wf(),
        ensures
            final(self).wf(),
            final(self).grows_from(*old(self)),
            final(self).anon_productions@ == old(self).anon_productions@,
            r is Ok ==> final(self).symbols@ == old(self).symbols@.push(Symbol::Terminal(TerminalKind::AnyByte))
                && final(refs)@ == old(refs)@.push(SymbolRef { symbol: SymbolId(old(self).symbols@.len() as u32), modifier: Modifier::Once })
                && ref_means(final(self).state(), final(refs)@.last(), ItemV::AnyChar),
            r matches Err(e) ==> too_large_error(e),
            r is Err ==> final(refs)@ == old(refs)@ && exhausted(*final(self)),
            grows_within(*final(self), *old(self), 1),
    {
        let sid = self.alloc_symbol(Symbol::Terminal(TerminalKind::AnyByte));
        match sid {
            Ok(sid) => {
                refs.push(SymbolRef { symbol: sid, modifier: Modifier::Once });
                Ok(())
            },
            Err(e) => Err(e),
        }
    }

    /// Build one item, appending exactly one reference for it.
    pub fn build_item(&mut self, item: &RawItem, refs: &mut Vec<SymbolRef>) -> (r: Result<(), ParseError>)
        requires
            old(self).wf(),
            refs_below(old(refs)@, old(self).symbols@.len() as int),
        ensures
            final(self).wf(),
            final(self).grows_from(*old(self)),
            r is Ok ==> final(refs)@.len() == old(refs)@.len() + 1
                && final(refs)@.subrange(0, old(refs)@.len() as int) == old(refs)@
                && refs_below(final(refs)@, final(self).symbols@.len() as int)
                && ref_means(final(self).state(), final(refs)@.last(), item_view(*item)),
            r is Err ==> exhausted(*final(self)) || !buildable(name_views(old(self).names@), item_view(*item)),
            grows_within(*final(self), *old(self), item_cost(item_view(*item)) as int),
            r is Ok && buildable(name_views(old(self).names@), item_view(*item)) ==> keeps_nonempty(*old(self), *final(self)),
        decreases item, 0nat,
    {
        let ghost r0 = refs@;
        let ghost b0 = self.symbols@.len() as int;
        let r = match item {
            RawItem::Literal(s) => self.build_literal(s.as_str(), refs),
            RawItem::NonTerminal(name, line, col) => {
                let r = self.build_nonterminal(name.as_str(), *line, *col, refs);
                proof {
                    lemma_find_name(old(self).names@, name@, 0);
                    if find_name(old(self).names@, name@, 0) is None {
                        assert forall|k: int| 0 <= k < name_views(old(self).names@).len()
                            implies name_views(old(self).names@)[k] != name@ by {
                            assert(old(self).names@[k]@ != name@);
                        }
                    }
                }
                r
            },
            RawItem::CharClass { ranges, negated } => self.build_charclass(ranges.as_slice(), *negated, refs),
            RawItem::AnyChar => self.build_anychar(refs),
            RawItem::Group(alts) => {
                proof {
                    assert(decreases_to!(*item => (*item)->Group_0));
                }
                self.build_group(alts, refs)
            },
            RawItem::Quantified(inner, q) => {
                proof {
                    assert(decreases_to!(*item => (*item)->Quantified_0));
                }
                self.build_quantified(inner, *q, refs)
            },
            RawItem::Optional(alts) => {
                proof {
                    assert(decreases_to!(*item => (*item)->Optional_0));
                }
                let sid = self.build_alts_symbol(alts);
                match sid {
                    Ok(sid) => {
                        refs.push(SymbolRef { symbol: sid, modifier: Modifier::Optional });
                        Ok(())
                    },
                    Err(e) => Err(e),
                }
            },
            RawItem::Repeat(alts) => {
                proof {
                    assert(decreases_to!(*item => (*item)->Repeat_0));
                }
                let sid = self.build_alts_symbol(alts);
                match sid {
                    Ok(sid) => {
                        refs.push(SymbolRef { symbol: sid, modifier: Modifier::ZeroOrMore { min: 0, max: 0xffff_ffff } });
                        Ok(())
                    },
                    Err(e) => Err(e),
                }
            },
            RawItem::Factor(n, inner) => {
                proof {
                    assert(decreases_to!(*item => (*item)->Factor_1));
                }
                let count = *n;
                let sid = self.build_single_symbol(inner);
                match sid {
                    Ok(sid) => {
                        refs.push(SymbolRef { symbol: sid, modifier: Modifier::ZeroOrMore { min: count, max: count } });
                        Ok(())
                    },
                    Err(e) => Err(e),
                }
            },
        };
        proof {
            if r is Ok {
                assert(refs@.subrange(0, r0.len() as int) =~= r0);
                assert forall|k: int| 0 <= k < refs@.len() implies #[trigger] refs@[k].symbol.0 < self.symbols@.len() as int by {
                    if k < r0.len() {
                        assert(refs@[k] == r0[k]);
                    }
                }
            }
        }
        r
    }

    /// Build the items of one alternative, one reference each.
    pub fn build_items(&mut self, items: &Vec<RawItem>) -> (r: Result<Vec<SymbolRef>, ParseError>)
        requires
            old(self).wf(),
        ensures
            final(self).wf(),
            final(self).grows_from(*old(self)),
            r matches Ok(refs) ==> refs@.len() == items@.len() && refs_below(refs@, final(self).symbols@.len() as int)
                && refs_mean(final(self).state(), refs@, items_view(items@)),
            r is Err ==> exhausted(*final(self)) || !items_buildable(name_views(old(self).names@), items_view(items@)),
            grows_within(*final(self), *old(self), items_cost(items_view(items@)) as int),
            r is Ok && items_buildable(name_views(old(self).names@), items_view(items@)) ==> keeps_nonempty(*old(self), *final(self)),
        decreases items, 0nat,
    {
        let mut refs: Vec<SymbolRef> = Vec::new();
        let mut i: usize = 0;
        let mut failure: Option<ParseError> = None;
        let ghost iv = items_view(items@);
        proof {
            lemma_items_view_index(items@);
        }
        while i < items.len()
            invariant_except_break
                self.wf(),
                self.grows_from(*old(self)),
                failure is None,
                0 <= i <= items@.len(),
                refs@.len() == i,
                refs_below(refs@, self.symbols@.len() as int),
                iv == items_view(items@),
                iv.len() == items@.len(),
                forall|k: int| 0 <= k < items@.len() ==> #[trigger] iv[k] == item_view(items@[k]),
                refs_mean_upto(self.state(), refs@, iv, i as int),
                grows_within(*self, *old(self), items_cost_upto(iv, i as int) as int),
                items_buildable(name_views(old(self).names@), iv) ==> keeps_nonempty(*old(self), *self),
            ensures
                self.wf(),
                self.grows_from(*old(self)),
                grows_within(*self, *old(self), items_cost(iv) as int),
                failure is None && items_buildable(name_views(old(self).names@), iv) ==> keeps_nonempty(*old(self), *self),
                failure is None ==> refs@.len() == items@.len() && refs_below(refs@, self.symbols@.len() as int)
                    && refs_mean_upto(self.state(), refs@, iv, items@.len() as int),
                failure is Some ==> exhausted(*self) || !items_buildable(name_views(old(self).names@), iv),
            decreases items@.len() - i,
        {
            proof {
                assert(decreases_to!(items => items@));
                assert(decreases_to!(items@ => items@[i as int]));
            }
            let ghost b1 = *self;
            let ghost refs1 = refs@;
            let r = self.build_item(&items[i], &mut refs);
            proof {
                assert(iv[i as int] == item_view(items@[i as int]));
                assert(items_cost_upto(iv, i + 1) == items_cost_upto(iv, i as int) + item_cost(iv[i as int]));
                lemma_items_cost_mono(iv, i + 1);
                if items_buildable(name_views(old(self).names@), iv) {
                    assert(buildable(name_views(old(self).names@), iv[i as int]));
                }
            }
            if let Err(e) = r {
                proof {
                    assert(exhausted(*self) || !buildable(name_views(b1.names@), item_view(items@[i as int])));
                    if !exhausted(*self) {
                        assert(b1.names@ == old(self).names@);
                        assert(!buildable(name_views(old(self).names@), iv[i as int]));
                        lemma_items_not_buildable(name_views(old(self).names@), iv, i as int);
                    }
                }
                failure = Some(e);
                break;
            }
            proof {
                lemma_grows_extends(*self, b1);
                lemma_refs_mean_upto_grow(b1.state(), self.state(), refs1, iv, i as int);
                assert forall|k: int| 0 <= k < i implies refs@[k] == refs1[k] by {
                    assert(refs@.subrange(0, refs1.len() as int)[k] == refs1[k]);
                }
                lemma_refs_mean_upto_prefix(self.state(), refs1, refs@, iv, i as int);
                assert(refs@.last() == refs@[i as int]);
                lemma_refs_mean_upto_step(self.state(), refs@, iv, i as int);
            }
            i += 1;
        }
        match failure {
            Some(e) => Err(e),
            None => Ok(refs),
        }
    }

    /// Build the alternatives of a rule or group; a rule with none is an error.
    pub fn build_alternatives(&mut self, alts: &Vec<RawAlternative<RawItem>>, rule_line: usize, rule_col: usize) -> (r: Result<Vec<Alternative>, ParseError>)
        requires
            old(self).wf(),
        ensures
            final(self).wf(),
            final(self).grows_from(*old(self)),
            r matches Ok(v) ==> v@.len() == alts@.len() && alts_below(v@, final(self).symbols@.len() as int)
                && (forall|j: int| 0 <= j < v@.len() ==> #[trigger] v@[j].symbols@.len() == alts@[j].items@.len()
                    && v@[j].semantic_tag is None)
                && alts_mean(final(self).state(), v@, alts_view(alts@)),
            alts@.len() == 0 ==> (r matches Err(e) && e.line == rule_line && e.column == rule_col
                && e.message@ == "empty rule body"@),
            r is Err ==> exhausted(*final(self)) || !alts_buildable(name_views(old(self).names@), alts_view(alts@)),
            grows_within(*final(self), *old(self), alts_cost(alts_view(alts@)) as int),
            r is Ok && alts_buildable(name_views(old(self).names@), alts_view(alts@)) ==> keeps_nonempty(*old(self), *final(self)),
        decreases alts, 1nat,
    {
        let mut result: Vec<Alternative> = Vec::new();
        let mut i: usize = 0;
        let mut failure: Option<ParseError> = None;
        let ghost av = alts_view(alts@);
        proof {
            lemma_alts_view_index(alts@);
        }
        while i < alts.len()
            invariant_except_break
                self.wf(),
                self.grows_from(*old(self)),
                failure is None,
                0 <= i <= alts@.len(),
                result@.len() == i,
                alts_below(result@, self.symbols@.len() as int),
                forall|j: int| 0 <= j < i ==> #[trigger] result@[j].symbols@.len() == alts@[j].items@.len()
                    && result@[j].semantic_tag is None,
                av == alts_view(alts@),
                av.len() == alts@.len(),
                forall|j: int| 0 <= j < alts@.len() ==> #[trigger] av[j] == items_view(alts@[j].items@),
                alts_mean_upto(self.state(), result@, av, i as int),
                grows_within(*self, *old(self), alts_cost_upto(av, i as int) as int),
                alts_buildable(name_views(old(self).names@), av) ==> keeps_nonempty(*old(self), *self),
            ensures
                self.wf(),
                self.grows_from(*old(self)),
                grows_within(*self, *old(self), alts_cost(av) as int),
                failure is None && alts_buildable(name_views(old(self).names@), av) ==> keeps_nonempty(*old(self), *self),
                failure is Some ==> alts@.len() > 0,
                failure is Some ==> exhausted(*self) || !alts_buildable(name_views(old(self).names@), av),
                failure is None ==> result@.len() == alts@.len() && alts_below(result@, self.symbols@.len() as int)
                    && (forall|j: int| 0 <= j < result@.len() ==> #[trigger] result@[j].symbols@.len() == alts@[j].items@.len()
                        && result@[j].semantic_tag is None)
                    && alts_mean_upto(self.state(), result@, av, alts@.len() as int),
            decreases alts@.len() - i,
        {
            let ghost b1 = *self;
            let ghost res1 = result@;
            proof {
                assert(decreases_to!(alts => alts@));
                assert(decreases_to!(alts@ => alts@[i as int]));
                assert(decreases_to!(alts@[i as int] => alts@[i as int].items));
            }
            let ghost b0 = self.symbols@.len() as int;
            if alts[i].items.len() == 0 {
                result.push(Alternative { symbols: Vec::new(), semantic_tag: None });
                proof {
                    lemma_items_view_index(alts@[i as int].items@);
                    assert(refs_mean(self.state(), result@[i as int].symbols@, av[i as int]));
                }
            } else {
                let sym_refs = self.build_items(&alts[i].items);
                match sym_refs {
                    Ok(sym_refs) => {
                        result.push(Alternative { symbols: sym_refs, semantic_tag: None });
                    },
                    Err(e) => {
                        proof {
                            if !exhausted(*self) {
                                assert(b1.names@ == old(self).names@);
                                assert(!items_buildable(name_views(old(self).names@), av[i as int]));
                                lemma_alts_not_buildable(name_views(old(self).names@), av, i as int);
                            }
                            assert(alts_cost_upto(av, i + 1) == alts_cost_upto(av, i as int) + items_cost(av[i as int]));
                            lemma_alts_cost_mono(av, i + 1);
                        }
                        failure = Some(e);
                        break;
                    },
                }
            }
            proof {
                lemma_grows_extends(*self, b1);
                lemma_alts_mean_upto_grow(b1.state(), self.state(), res1, av, i as int);
                lemma_alts_mean_upto_prefix(self.state(), res1, result@, av, i as int);
                assert(alts_cost_upto(av, i + 1) == alts_cost_upto(av, i as int) + items_cost(av[i as int]));
                if alts_buildable(name_views(old(self).names@), av) {
                    assert(items_buildable(name_views(old(self).names@), av[i as int]));
                }
            }
            proof {
                assert forall|j: int| 0 <= j < result@.len() implies #[trigger] refs_below(result@[j].symbols@, self.symbols@.len() as int) by {
                    if j < i {
                        assert(refs_below(result@[j].symbols@, b0));
                    }
                }
            }
            i += 1;
        }
        if let Some(e) = failure {
            return Err(e);
        }
        if result.len() == 0 {
            proof {
                reveal_strlit("empty rule body");
            }
            return Err(ParseError { line: rule_line, column: rule_col, message: String::from_str("empty rule body") });
        }
        Ok(result)
    }

    /// Build parenthesised alternatives: a single alternative of a single
    /// item stays that item's reference; anything else becomes an anonymous production.
    pub fn build_group(&mut self, alts: &Vec<RawAlternative<RawItem>>, refs: &mut Vec<SymbolRef>) -> (r: Result<(), ParseError>)
        requires
            old(self).wf(),
            refs_below(old(refs)@, old(self).symbols@.len() as int),
        ensures
            final(self).wf(),
            final(self).grows_from(*old(self)),
            r is Ok ==> final(refs)@.len() == old(refs)@.len() + 1
                && final(refs)@.subrange(0, old(refs)@.len() as int) == old(refs)@
                && refs_below(final(refs)@, final(self).symbols@.len() as int)
                && ref_means(final(self).state(), final(refs)@.last(), ItemV::Group(alts_view(alts@))),
            r is Err ==> exhausted(*final(self)) || !alts_buildable(name_views(old(self).names@), alts_view(alts@)),
            grows_within(*final(self), *old(self), (alts_cost(alts_view(alts@)) + 1) as int),
            r is Ok && alts_buildable(name_views(old(self).names@), alts_view(alts@)) ==> keeps_nonempty(*old(self), *final(self)),
        decreases alts, 2nat,
    {
        let ghost r0 = refs@;
        let ghost av = alts_view(alts@);
        proof {
            lemma_alts_view_index(alts@);
        }
        if alts.len() == 1 && alts[0].items.len() != 0 {
            proof {
                assert(decreases_to!(alts => alts@));
                assert(decreases_to!(alts@ => alts@[0]));
                assert(decreases_to!(alts@[0] => alts@[0].items));
            }
            let inner_refs = self.build_items(&alts[0].items);
            let inner_refs = match inner_refs {
                Ok(v) => v,
                Err(e) => {
                    proof {
                        if !exhausted(*self) {
                            lemma_alts_not_buildable(name_views(old(self).names@), av, 0);
                        }
                    }
                    return Err(e);
                },
            };
            proof {
                lemma_items_view_index(alts@[0].items@);
            }
            if inner_refs.len() == 1 {
                refs.push(inner_refs[0]);
                proof {
                    assert(av[0].len() == 1);
                    assert(ref_means(self.state(), inner_refs@[0], av[0][0]));
                }
            } else {
                let ghost b1 = *self;
                let ghost ir = inner_refs@;
                let mut syms: Vec<Alternative> = Vec::new();
                syms.push(Alternative { symbols: inner_refs, semantic_tag: None });
                let ghost sv = syms@;
                let sid = self.push_anon_production(syms);
                match sid {
                    Ok(sid) => {
                        refs.push(SymbolRef { symbol: sid, modifier: Modifier::Once });
                        proof {
                            if alts_buildable(name_views(old(self).names@), av) && prods_nonempty(old(self).anon_productions@) {
                                assert(items_buildable(name_views(old(self).names@), av[0]));
                                assert(prods_nonempty(b1.anon_productions@));
                                assert(sv[0].symbols@.len() > 0);
                                lemma_push_nonempty(b1, *self, sv);
                            }
                            lemma_grows_extends(*self, b1);
                            lemma_refs_mean_grow(b1.state(), self.state(), ir, av[0]);
                            assert(syms@[0].symbols@ == ir);
                            assert(alts_mean_upto(self.state(), syms@, av, 0));
                            assert(alts_mean_upto(self.state(), syms@, av, 1));
                            assert(anon_means(self.state(), sid, av));
                        }
                    },
                    Err(e) => {
                        return Err(e);
                    },
                }
            }
        } else {
            let built = self.build_alternatives(alts, 0, 0);
            let built = match built {
                Ok(v) => v,
                Err(e) => {
                    return Err(e);
                },
            };
            let ghost b1 = *self;
            let ghost bv = built@;
            let sid = self.push_anon_production(built);
            match sid {
                Ok(sid) => {
                    refs.push(SymbolRef { symbol: sid, modifier: Modifier::Once });
                    proof {
                        if alts_buildable(name_views(old(self).names@), av) && prods_nonempty(old(self).anon_productions@) {
                            assert(prods_nonempty(b1.anon_productions@));
                            assert forall|j: int| 0 <= j < bv.len() implies (#[trigger] bv[j]).symbols@.len() > 0 by {
                                assert(av[j].len() > 0);
                                lemma_items_view_index(alts@[j].items@);
                            }
                            lemma_push_nonempty(b1, *self, bv);
                        }
                        lemma_grows_extends(*self, b1);
                        lemma_alts_mean_grow(b1.state(), self.state(), bv, av);
                        assert(anon_means(self.state(), sid, av));
                        if alts@.len() == 1 {
                            assert(av[0].len() == 0);
                        }
                    }
                },
                Err(e) => {
                    return Err(e);
                },
            }
        }
        proof {
            assert(refs@.subrange(0, r0.len() as int) =~= r0);
            assert forall|k: int| 0 <= k < refs@.len() implies #[trigger] refs@[k].symbol.0 < self.symbols@.len() as int by {
                if k < r0.len() {
                    assert(refs@[k] == r0[k]);
                }
            }
        }
        Ok(())
    }

    /// Build `inner` under a quantifier: one reference with `?`, `*` (no
    /// bound) or `+` (at least one, no bound).
    pub fn build_quantified(&mut self, inner: &RawItem, quantifier: RawQuantifier, refs: &mut Vec<SymbolRef>) -> (r: Result<(), ParseError>)
        requires
            old(self).wf(),
            refs_below(old(refs)@, old(self).symbols@.len() as int),
        ensures
            final(self).wf(),
            final(self).grows_from(*old(self)),
            r is Ok ==> final(refs)@.len() == old(refs)@.len() + 1
                && final(refs)@.subrange(0, old(refs)@.len() as int) == old(refs)@
                && refs_below(final(refs)@, final(self).symbols@.len() as int)
                && final(refs)@.last().modifier == (match quantifier {
                    RawQuantifier::Optional => Modifier::Optional,
                    RawQuantifier::ZeroOrMore => Modifier::ZeroOrMore { min: 0, max: u32::MAX },
                    RawQuantifier::OneOrMore => Modifier::OneOrMore { min: 1, max: u32::MAX },
                })
                && ref_means(final(self).state(), final(refs)@.last(), ItemV::Quantified(Box::new(item_view(*inner)), quantifier)),
            r is Err ==> exhausted(*final(self)) || !buildable(name_views(old(self).names@), item_view(*inner)),
            grows_within(*final(self), *old(self), (item_cost(item_view(*inner)) + 1) as int),
            r is Ok && buildable(name_views(old(self).names@), item_view(*inner)) ==> keeps_nonempty(*old(self), *final(self)),
        decreases inner, 2nat,
    {
        let modifier = match quantifier {
            RawQuantifier::Optional => Modifier::Optional,
            RawQuantifier::ZeroOrMore => Modifier::ZeroOrMore { min: 0, max: 0xffff_ffff },
            RawQuantifier::OneOrMore => Modifier::OneOrMore { min: 1, max: 0xffff_ffff },
        };
        let ghost r0 = refs@;
        let inner_sid = self.build_single_symbol(inner);
        match inner_sid {
            Ok(sid) => {
                refs.push(SymbolRef { symbol: sid, modifier });
                proof {
                    assert(refs@.subrange(0, r0.len() as int) =~= r0);
                    assert forall|k: int| 0 <= k < refs@.len() implies #[trigger] refs@[k].symbol.0 < self.symbols@.len() as int by {
                        if k < r0.len() {
                            assert(refs@[k] == r0[k]);
                        }
                    }
                }
                Ok(())
            },
            Err(e) => Err(e),
        }
    }

    /// Build an item as one symbol: its own symbol when it is a single
    /// reference without modifier, else an anonymous production around it.
    pub fn build_single_symbol(&mut self, item: &RawItem) -> (r: Result<SymbolId, ParseError>)
        requires
            old(self).wf(),
        ensures
            final(self).wf(),
            final(self).grows_from(*old(self)),
            r matches Ok(id) ==> id.0 < final(self).symbols@.len() && single_means(final(self).state(), id, item_view(*item)),
            r is Err ==> exhausted(*final(self)) || !buildable(name_views(old(self).names@), item_view(*item)),
            grows_within(*final(self), *old(self), (item_cost(item_view(*item)) + 1) as int),
            r is Ok && buildable(name_views(old(self).names@), item_view(*item)) ==> keeps_nonempty(*old(self), *final(self)),
        decreases item, 1nat,
    {
        let mut refs: Vec<SymbolRef> = Vec::new();
        let r = self.build_item(item, &mut refs);
        if let Err(e) = r {
            return Err(e);
        }
        proof {
            assert(refs@.last() == refs@[0]);
            lemma_once(self.state(), refs@[0], item_view(*item));
        }
        if refs.len() == 1 && refs[0].modifier == Modifier::Once {
            return Ok(refs[0].symbol);
        }
        let ghost b1 = *self;
        let ghost r0 = refs@[0];
        let mut alts: Vec<Alternative> = Vec::new();
        alts.push(Alternative { symbols: refs, semantic_tag: None });
        let sid = self.push_anon_production(alts);
        proof {
            if let Ok(id) = sid {
                lemma_grows_extends(*self, b1);
                lemma_ref_means_grow(b1.state(), self.state(), r0, item_view(*item));
            }
        }
        sid
    }

    /// Build alternatives as one symbol: the single item's own symbol when
    /// there is one alternative of one unmodified reference, else an
    /// anonymous production.
    pub fn build_alts_symbol(&mut self, alts: &Vec<RawAlternative<RawItem>>) -> (r: Result<SymbolId, ParseError>)
        requires
            old(self).wf(),
        ensures
            final(self).wf(),
            final(self).grows_from(*old(self)),
            r matches Ok(id) ==> id.0 < final(self).symbols@.len() && alts_sym_means(final(self).state(), id, alts_view(alts@)),
            r is Err ==> exhausted(*final(self)) || !alts_buildable(name_views(old(self).names@), alts_view(alts@)),
            grows_within(*final(self), *old(self), (2 * alts_cost(alts_view(alts@)) + 1) as int),
            r is Ok && alts_buildable(name_views(old(self).names@), alts_view(alts@)) ==> keeps_nonempty(*old(self), *final(self)),
        decreases alts, 2nat,
    {
        let ghost av = alts_view(alts@);
        proof {
            lemma_alts_view_index(alts@);
        }
        if alts.len() == 1 && alts[0].items.len() == 1 {
            proof {
                assert(decreases_to!(alts => alts@));
                assert(decreases_to!(alts@ => alts@[0]));
                assert(decreases_to!(alts@[0] => alts@[0].items));
                assert(decreases_to!(alts@[0].items => alts@[0].items@));
                assert(decreases_to!(alts@[0].items@ => alts@[0].items@[0]));
            }
            let mut refs: Vec<SymbolRef> = Vec::new();
            let r = self.build_item(&alts[0].items[0], &mut refs);
            if let Err(e) = r {
                proof {
                    lemma_items_view_index(alts@[0].items@);
                    if !exhausted(*self) {
                        assert(av[0][0] == item_view(alts@[0].items@[0]));
                        lemma_items_not_buildable(name_views(old(self).names@), av[0], 0);
                        lemma_alts_not_buildable(name_views(old(self).names@), av, 0);
                    }
                }
                return Err(e);
            }
            proof {
                lemma_items_view_index(alts@[0].items@);
                assert(av[0][0] == item_view(alts@[0].items@[0]));
                assert(refs@.last() == refs@[0]);
                lemma_once(self.state(), refs@[0], av[0][0]);
            }
            if refs.len() == 1 && refs[0].modifier == Modifier::Once {
                return Ok(refs[0].symbol);
            }
        }
        let ghost bm = *self;
        proof {
            if alts_buildable(name_views(old(self).names@), av) && alts@.len() == 1 && alts@[0].items@.len() == 1 {
                lemma_items_view_index(alts@[0].items@);
                assert(items_buildable(name_views(old(self).names@), av[0]));
                assert(buildable(name_views(old(self).names@), av[0][0]));
            }
        }
        let built = self.build_alternatives(alts, 0, 0);
        match built {
            Ok(built) => {
                let ghost b1 = *self;
                let ghost bv = built@;
                let sid = self.push_anon_production(built);
                proof {
                    if sid is Ok && alts_buildable(name_views(old(self).names@), av) && prods_nonempty(old(self).anon_productions@) {
                        assert(prods_nonempty(bm.anon_productions@));
                        assert(prods_nonempty(b1.anon_productions@));
                        assert forall|j: int| 0 <= j < bv.len() implies (#[trigger] bv[j]).symbols@.len() > 0 by {
                            assert(av[j].len() > 0);
                            lemma_items_view_index(alts@[j].items@);
                        }
                        lemma_push_nonempty(b1, *self, bv);
                    }
                    if let Ok(id) = sid {
                        lemma_grows_extends(*self, b1);
                        lemma_alts_mean_grow(b1.state(), self.state(), bv, av);
                        if alts@.len() == 1 && alts@[0].items@.len() == 1 {
                            lemma_items_view_index(alts@[0].items@);
                        }
                    }
                }
                sid
            },
            Err(e) => Err(e),
        }
    }
}

/// Two grammars with the same symbols and the same alternatives in each
/// production, whatever their attributes.
pub open spec fn same_shape(g1: GrammarIr, g2: GrammarIr) -> bool {
    &&& g1.symbols@ == g2.symbols@
    &&& g1.productions@.len() == g2.productions@.len()
    &&& forall|i: int| 0 <= i < g1.productions@.len() ==> #[trigger] g1.productions@[i].alternatives@ == g2.productions@[i].alternatives@
}

proof fn lemma_same_symbols_alt(g1: GrammarIr, g2: GrammarIr, d: Seq<u32>, syms: Seq<SymbolRef>, k: int)
    requires
        g1.symbols@ == g2.symbols@,
    ensures
        alt_depth_upto(g1, d, syms, k) == alt_depth_upto(g2, d, syms, k),
    decreases k,
{
    if k > 0 {
        lemma_same_symbols_alt(g1, g2, d, syms, k - 1);
    }
}

proof fn lemma_same_symbols_best(g1: GrammarIr, g2: GrammarIr, d: Seq<u32>, alts: Seq<Alternative>, k: int)
    requires
        g1.symbols@ == g2.symbols@,
    ensures
        best_alt_upto(g1, d, alts, k) == best_alt_upto(g2, d, alts, k),
    decreases k,
{
    if k > 0 {
        lemma_same_symbols_best(g1, g2, d, alts, k - 1);
        lemma_same_symbols_alt(g1, g2, d, alts[k - 1].symbols@, alts[k - 1].symbols@.len() as int);
    }
}

/// The analyses depend only on the shape of a grammar.
proof fn lemma_same_shape(g1: GrammarIr, g2: GrammarIr)
    requires
        same_shape(g1, g2),
    ensures
        forall|d: Seq<u32>, i: int| 0 <= i < g1.productions@.len() ==> #[trigger] depth_step(g1, d, i) == depth_step(g2, d, i),
        forall|d: Seq<u32>| #[trigger] is_depth_fixpoint(g1, d) == is_depth_fixpoint(g2, d),
        forall|d: Seq<u32>| #[trigger] min_depths_ok(g1, d) == min_depths_ok(g2, d),
        forall|a: int, b: int| 0 <= a < g1.productions@.len() ==> #[trigger] edge(g1, a, b) == edge(g2, a, b),
        forall|a: int, b: int| #[trigger] reaches(g1, a, b) == reaches(g2, a, b),
        refs_in_bounds(g1) == refs_in_bounds(g2),
{
    assert forall|d: Seq<u32>, i: int| 0 <= i < g1.productions@.len() implies #[trigger] depth_step(g1, d, i) == depth_step(g2, d, i) by {
        let alts = g1.productions@[i].alternatives@;
        assert(alts == g2.productions@[i].alternatives@);
        lemma_same_symbols_best(g1, g2, d, alts, alts.len() as int);
    }
    if refs_in_bounds(g1) {
        assert forall|i: int, j: int, k: int|
            0 <= i < g2.productions@.len() && 0 <= j < g2.productions@[i].alternatives@.len()
                && 0 <= k < g2.productions@[i].alternatives@[j].symbols@.len()
            implies #[trigger] ref_in_bounds(g2, g2.productions@[i].alternatives@[j].symbols@[k]) by {
            assert(g1.productions@[i].alternatives@ == g2.productions@[i].alternatives@);
            assert(ref_in_bounds(g1, g1.productions@[i].alternatives@[j].symbols@[k]));
        }
    }
    if refs_in_bounds(g2) {
        assert forall|i: int, j: int, k: int|
            0 <= i < g1.productions@.len() && 0 <= j < g1.productions@[i].alternatives@.len()
                && 0 <= k < g1.productions@[i].alternatives@[j].symbols@.len()
            implies #[trigger] ref_in_bounds(g1, g1.productions@[i].alternatives@[j].symbols@[k]) by {
            assert(g1.productions@[i].alternatives@ == g2.productions@[i].alternatives@);
            assert(ref_in_bounds(g2, g2.productions@[i].alternatives@[j].symbols@[k]));
        }
    }
    assert forall|d: Seq<u32>| #[trigger] is_depth_fixpoint(g1, d) == is_depth_fixpoint(g2, d) by {
        if is_depth_fixpoint(g1, d) {
            assert forall|i: int| 0 <= i < d.len() implies #[trigger] depth_step(g2, d, i) == d[i] by {
                assert(depth_step(g1, d, i) == d[i]);
            }
        }
        if is_depth_fixpoint(g2, d) {
            assert forall|i: int| 0 <= i < d.len() implies #[trigger] depth_step(g1, d, i) == d[i] by {
                assert(depth_step(g2, d, i) == d[i]);
            }
        }
    }
    assert forall|d: Seq<u32>| #[trigger] min_depths_ok(g1, d) == min_depths_ok(g2, d) by {
        if min_depths_ok(g1, d) {
            assert forall|e: Seq<u32>| #[trigger] is_depth_fixpoint(g2, e) implies depths_le(e, d) by {
                assert(is_depth_fixpoint(g1, e));
            }
        }
        if min_depths_ok(g2, d) {
            assert forall|e: Seq<u32>| #[trigger] is_depth_fixpoint(g1, e) implies depths_le(e, d) by {
                assert(is_depth_fixpoint(g2, e));
            }
        }
    }
    assert forall|a: int, b: int| 0 <= a < g1.productions@.len() implies #[trigger] edge(g1, a, b) == edge(g2, a, b) by {
        assert(g1.productions@[a].alternatives@ == g2.productions@[a].alternatives@);
        if edge(g1, a, b) {
            let (j, k) = choose|j: int, k: int| slot_valid(g1, a, j, k) && #[trigger] nt_target(g1, a, j, k) == Some(b);
            assert(nt_target(g2, a, j, k) == Some(b));
        }
        if edge(g2, a, b) {
            let (j, k) = choose|j: int, k: int| slot_valid(g2, a, j, k) && #[trigger] nt_target(g2, a, j, k) == Some(b);
            assert(nt_target(g1, a, j, k) == Some(b));
        }
    }
    assert forall|p: Seq<int>| #[trigger] is_path(g1, p) == is_path(g2, p) by {
        if is_path(g1, p) {
            assert forall|i: int| 0 <= i < p.len() - 1 implies #[trigger] edge(g2, p[i], p[i + 1]) by {
                assert(edge(g1, p[i], p[i + 1]));
                assert(0 <= p[i] < g1.productions@.len());
            }
        }
        if is_path(g2, p) {
            assert forall|i: int| 0 <= i < p.len() - 1 implies #[trigger] edge(g1, p[i], p[i + 1]) by {
                assert(edge(g2, p[i], p[i + 1]));
                assert(0 <= p[i] < g1.productions@.len());
            }
        }
    }
    assert forall|a: int, b: int| #[trigger] reaches(g1, a, b) == reaches(g2, a, b) by {
        if reaches(g1, a, b) {
            let p = choose|p: Seq<int>| #[trigger] is_path(g1, p) && p[0] == a && p.last() == b;
            assert(is_path(g2, p));
        }
        if reaches(g2, a, b) {
            let p = choose|p: Seq<int>| #[trigger] is_path(g2, p) && p[0] == a && p.last() == b;
            assert(is_path(g1, p));
        }
    }
}

/// An IR read as a build of `rules`: its symbols, the productions after
/// the rules as the anonymous ones, and the rule names.
pub open spec fn ir_state(ir: GrammarIr, rules: Seq<RawRule<RawItem>>) -> BuildState {
    BuildState {
        symbols: ir.symbols@,
        anon: ir.productions@.subrange(rules.len() as int, ir.productions@.len() as int).map_values(|p: Production| p.alternatives@),
        nn: rules.len() as int,
        names: rules.map_values(|r: RawRule<RawItem>| r.name),
    }
}

/// What building and analysing a grammar gives: a valid IR whose first
/// productions are the rules in order, each with alternatives that stand
/// for the rule's, followed by anonymous productions, with minimum depths
/// and recursion flags as the analyses define them.
pub open spec fn built_ok(rules: Seq<RawRule<RawItem>>, start: ProductionId, ir: GrammarIr) -> bool {
    &&& ir_well_formed(ir)
    &&& ir.start == start
    &&& ir.token_pools@.len() == 0
    &&& ir.productions@.len() >= rules.len()
    &&& forall|i: int| 0 <= i < rules.len() ==> {
        &&& (#[trigger] ir.productions@[i]).name@ == rules[i].name@
        &&& ir.productions@[i].id == ProductionId(i as u32)
        &&& ir.productions@[i].alternatives@.len() == rules[i].alternatives@.len()
        &&& alts_mean(ir_state(ir, rules), ir.productions@[i].alternatives@, alts_view(rules[i].alternatives@))
    }
    &&& forall|i: int| 0 <= i < ir.productions@.len() ==> {
        &&& (#[trigger] ir.productions@[i]).attrs.is_recursive == reaches(ir, i, i)
        &&& ir.productions@[i].attrs.token_kind is None
        &&& ir.productions@[i].attrs.semantic_hook is None
    }
    &&& min_depths_ok(ir, min_depths_of(ir))
}

/// Two rules share a name.
pub open spec fn has_duplicate(rules: Seq<RawRule<RawItem>>) -> bool {
    exists|i: int, j: int| 0 <= i < j < rules.len() && #[trigger] rules[i].name@ == #[trigger] rules[j].name@
}

/// Each production has an alternative, and each alternative a symbol.
pub open spec fn prods_nonempty(ps: Seq<Production>) -> bool {
    forall|i: int| 0 <= i < ps.len() ==> {
        &&& (#[trigger] ps[i]).alternatives@.len() > 0
        &&& forall|a: int| 0 <= a < ps[i].alternatives@.len() ==> (#[trigger] ps[i].alternatives@[a]).symbols@.len() > 0
    }
}

/// `ir` is the productions `named` followed by the anonymous ones, with
/// minimum depths and recursion marked, and it is well formed.
pub open spec fn assembled(named: Seq<Production>, start: ProductionId, pools: Seq<TokenPoolEntry>, ir: GrammarIr) -> bool {
    &&& ir_well_formed(ir)
    &&& ir.start == start
    &&& ir.token_pools@ == pools
    &&& ir.productions@.len() >= named.len()
    &&& forall|i: int| 0 <= i < named.len() ==> {
        &&& (#[trigger] ir.productions@[i]).name@ == named[i].name@
        &&& ir.productions@[i].id == named[i].id
        &&& ir.productions@[i].alternatives@ == named[i].alternatives@
    }
    &&& forall|i: int| 0 <= i < ir.productions@.len() ==> {
        &&& (#[trigger] ir.productions@[i]).attrs.is_recursive == reaches(ir, i, i)
        &&& ir.productions@[i].attrs.token_kind is None
        &&& ir.productions@[i].attrs.semantic_hook is None
    }
    &&& min_depths_ok(ir, min_depths_of(ir))
}

/// Put the built productions and the builder's anonymous productions and
/// symbols together, analyse them and validate the result.
pub fn assemble_ir(named: Vec<Production>, builder: IrBuilder, start: ProductionId, token_pools: Vec<TokenPoolEntry>) -> (r: Result<GrammarIr, ParseError>)
    requires
        builder.wf(),
        named@.len() == builder.n_named,
        forall|k: int| 0 <= k < named@.len() ==> {
            &&& (#[trigger] named@[k]).id == ProductionId(k as u32)
            &&& alts_below(named@[k].alternatives@, builder.symbols@.len() as int)
            &&& attrs_fresh(named@[k].attrs)
        },
    ensures
        r matches Ok(ir) ==> assembled(named@, start, token_pools@, ir),
        r matches Ok(ir) ==> ir.symbols@ == builder.symbols@
            && ir.productions@.len() == named@.len() + builder.anon_productions@.len()
            && forall|a: int| 0 <= a < builder.anon_productions@.len()
                ==> #[trigger] ir.productions@[named@.len() + a].alternatives@ == builder.anon_productions@[a].alternatives@,
        r is Ok <==> start.0 < named@.len() + builder.anon_productions@.len()
            && prods_nonempty(named@) && prods_nonempty(builder.anon_productions@),
{
    let n_named = named.len();
    let ghost named_v = named@;
    let ghost anon_v = builder.anon_productions@;
    let n_sym = builder.symbols.len();
    let mut productions = named;
    let mut anon = builder.anon_productions;
    productions.append(&mut anon);
    let mut ir = GrammarIr { productions, symbols: builder.symbols, start, token_pools };
    proof {
        assert(ir.productions@ == named_v + anon_v);
        assert forall|i: int, j: int, k: int|
            0 <= i < ir.productions@.len() && 0 <= j < ir.productions@[i].alternatives@.len()
                && 0 <= k < ir.productions@[i].alternatives@[j].symbols@.len()
            implies #[trigger] ref_in_bounds(ir, ir.productions@[i].alternatives@[j].symbols@[k]) by {
            let sr = ir.productions@[i].alternatives@[j].symbols@[k];
            if i < n_named {
                assert(ir.productions@[i] == named_v[i]);
                assert(alts_below(named_v[i].alternatives@, n_sym as int));
                assert(refs_below(named_v[i].alternatives@[j].symbols@, n_sym as int));
            } else {
                assert(ir.productions@[i] == anon_v[i - n_named]);
                assert(alts_below(anon_v[i - n_named].alternatives@, n_sym as int));
                assert(refs_below(anon_v[i - n_named].alternatives@[j].symbols@, n_sym as int));
            }
            assert(sr.symbol.0 < n_sym);
            assert(symbol_ok(ir.symbols@[sr.symbol.0 as int], ir.productions@.len() as int));
        }
    }
    let ghost ir0 = ir;
    compute_min_depths(&mut ir);
    let ghost ir1 = ir;
    proof {
        assert(same_shape(ir0, ir1));
        lemma_same_shape(ir0, ir1);
    }
    mark_recursive(&mut ir);
    proof {
        assert(same_shape(ir1, ir));
        lemma_same_shape(ir1, ir);
        lemma_same_shape(ir0, ir);
        assert(min_depths_of(ir) =~= min_depths_of(ir1));
        assert forall|i: int| 0 <= i < ir.productions@.len() implies {
            &&& (#[trigger] ir.productions@[i]).attrs.is_recursive == reaches(ir, i, i)
            &&& ir.productions@[i].attrs.token_kind is None
            &&& ir.productions@[i].attrs.semantic_hook is None
        } by {
            if i < n_named {
                assert(ir0.productions@[i] == named_v[i]);
            } else {
                assert(ir0.productions@[i] == anon_v[i - n_named]);
            }
        }
        assert forall|i: int| 0 <= i < named_v.len() implies {
            &&& (#[trigger] ir.productions@[i]).name@ == named_v[i].name@
            &&& ir.productions@[i].id == named_v[i].id
            &&& ir.productions@[i].alternatives@ == named_v[i].alternatives@
        } by {
            assert(ir0.productions@[i] == named_v[i]);
        }
        assert forall|a: int| 0 <= a < anon_v.len()
            implies #[trigger] ir.productions@[named_v.len() + a].alternatives@ == anon_v[a].alternatives@ by {
            assert(ir0.productions@[named_v.len() + a] == anon_v[a]);
        }
    }
    proof {
        let ps = named_v + anon_v;
        assert forall|i: int| 0 <= i < ir.productions@.len() implies
            (#[trigger] ir.productions@[i]).alternatives@ == ps[i].alternatives@ by {
            assert(ir0.productions@[i].alternatives@ == ir.productions@[i].alternatives@);
        }
        if start.0 < ps.len() && prods_nonempty(named_v) && prods_nonempty(anon_v) {
            assert forall|i: int| 0 <= i < ir.productions@.len() implies #[trigger] prod_well_formed(ir, ir.productions@[i]) by {
                let alts = ir.productions@[i].alternatives@;
                assert(alts == ps[i].alternatives@);
                if i < named_v.len() {
                    assert(ps[i] == named_v[i]);
                } else {
                    assert(ps[i] == anon_v[i - named_v.len()]);
                }
                assert forall|a: int| 0 <= a < alts.len() implies #[trigger] alt_well_formed(ir, alts[a]) by {
                    if i < named_v.len() {
                        assert(named_v[i].alternatives@[a] == alts[a]);
                    } else {
                        assert(anon_v[i - named_v.len()].alternatives@[a] == alts[a]);
                    }
                    assert forall|k: int| 0 <= k < alts[a].symbols@.len() implies #[trigger] symref_error(ir, alts[a].symbols@[k]) is None by {
                        assert(ir0.productions@[i].alternatives@[a] == alts[a]);
                        assert(ref_in_bounds(ir0, ir0.productions@[i].alternatives@[a].symbols@[k]));
                    }
                }
            }
            assert(ir_well_formed(ir));
        } else if start.0 < ps.len() {
            if !prods_nonempty(named_v) {
                let i = choose|i: int| 0 <= i < named_v.len() && !({
                    &&& (#[trigger] named_v[i]).alternatives@.len() > 0
                    &&& forall|a: int| 0 <= a < named_v[i].alternatives@.len() ==> (#[trigger] named_v[i].alternatives@[a]).symbols@.len() > 0
                });
                assert(ps[i] == named_v[i]);
                assert(ir.productions@[i].alternatives@ == named_v[i].alternatives@);
                if named_v[i].alternatives@.len() > 0 {
                    let a = choose|a: int| 0 <= a < named_v[i].alternatives@.len() && !((#[trigger] named_v[i].alternatives@[a]).symbols@.len() > 0);
                    assert(!alt_well_formed(ir, ir.productions@[i].alternatives@[a]));
                }
                assert(!prod_well_formed(ir, ir.productions@[i]));
            } else {
                let i = choose|i: int| 0 <= i < anon_v.len() && !({
                    &&& (#[trigger] anon_v[i]).alternatives@.len() > 0
                    &&& forall|a: int| 0 <= a < anon_v[i].alternatives@.len() ==> (#[trigger] anon_v[i].alternatives@[a]).symbols@.len() > 0
                });
                assert(ps[named_v.len() + i] == anon_v[i]);
                assert(ir.productions@[named_v.len() + i].alternatives@ == anon_v[i].alternatives@);
                if anon_v[i].alternatives@.len() > 0 {
                    let a = choose|a: int| 0 <= a < anon_v[i].alternatives@.len() && !((#[trigger] anon_v[i].alternatives@[a]).symbols@.len() > 0);
                    assert(!alt_well_formed(ir, ir.productions@[named_v.len() + i].alternatives@[a]));
                }
                assert(!prod_well_formed(ir, ir.productions@[named_v.len() + i]));
            }
        }
    }
    let v = ir.validate();
    if let Err(e) = v {
        let m = e.message();
        return Err(ParseError { line: 0, column: 0, message: concat("IR validation failed: ", m.as_str()) });
    }
    Ok(ir)
}

/// Build a complete grammar IR from a parsed grammar with start production
/// `start`: check rule names, build every rule, analyse and validate.
pub fn build_ir(raw: RawGrammar<RawItem>, start: ProductionId) -> (r: Result<GrammarIr, ParseError>)
    ensures
        r matches Ok(ir) ==> built_ok(raw.rules@, start, ir),
        has_duplicate(raw.rules@) && raw.rules@.len() < u32::MAX ==> (r matches Err(e)
            && "duplicate rule: "@.is_prefix_of(e.message@)),
        rules_ready(rules_view(raw.rules@)) && start.0 < raw.rules@.len() ==> r is Ok,
{
    let ghost rsv = rules_view(raw.rules@);
    proof {
        if rules_ready(rsv) {
            assert forall|a: int, b: int| 0 <= a < b < raw.rules@.len() implies
                #[trigger] raw.rules@[a].name@ != #[trigger] raw.rules@[b].name@ by {
                assert(rsv[a].name != rsv[b].name);
            }
            assert(!has_duplicate(raw.rules@));
            assert(raw.rules@.len() < u32::MAX);
        }
    }
    let n_named = raw.rules.len();
    if n_named >= 0xffff_ffff {
        return Err(ParseError { line: 0, column: 0, message: String::from_str("grammar too large") });
    }
    let mut names: Vec<String> = Vec::new();
    let mut i: usize = 0;
    let mut duplicate: Option<ParseError> = None;
    while i < n_named
        invariant_except_break
            n_named == raw.rules@.len(),
            0 <= i <= n_named,
            duplicate is None,
            names@.len() == i,
            forall|k: int| 0 <= k < i ==> #[trigger] names@[k]@ == raw.rules@[k].name@,
            forall|k: int| 0 <= k < i ==> #[trigger] names@[k] == raw.rules@[k].name,
            forall|a: int, b: int| 0 <= a < b < i ==> #[trigger] raw.rules@[a].name@ != #[trigger] raw.rules@[b].name@,
        ensures
            n_named == raw.rules@.len(),
            duplicate matches Some(e) ==> "duplicate rule: "@.is_prefix_of(e.message@),
            duplicate is Some ==> has_duplicate(raw.rules@),
            duplicate is None ==> names@.len() == n_named && !has_duplicate(raw.rules@)
                && (forall|k: int| 0 <= k < n_named ==> #[trigger] names@[k]@ == raw.rules@[k].name@)
                && (forall|k: int| 0 <= k < n_named ==> #[trigger] names@[k] == raw.rules@[k].name),
        decreases n_named - i,
    {
        let rule = &raw.rules[i];
        let mut k: usize = 0;
        let mut seen = false;
        while k < i
            invariant_except_break
                0 <= k <= i,
                i < raw.rules@.len(),
                names@.len() == i,
                *rule == raw.rules@[i as int],
                !seen,
                forall|m: int| 0 <= m < i ==> #[trigger] names@[m]@ == raw.rules@[m].name@,
                forall|m: int| 0 <= m < k ==> raw.rules@[m].name@ != rule.name@,
            ensures
                seen ==> exists|m: int| 0 <= m < i && #[trigger] raw.rules@[m].name@ == rule.name@,
                !seen ==> forall|m: int| 0 <= m < i ==> raw.rules@[m].name@ != rule.name@,
            decreases i - k,
        {
            if names[k] == rule.name {
                seen = true;
                break;
            }
            k += 1;
        }
        if seen {
            let q = debug_quoted(rule.name.as_str());
            let message = concat("duplicate rule: ", q.as_str());
            proof {
                reveal_strlit("duplicate rule: ");
                assert(message@.subrange(0, "duplicate rule: "@.len() as int) =~= "duplicate rule: "@);
            }
            proof {
                let m = choose|m: int| 0 <= m < i && #[trigger] raw.rules@[m].name@ == rule.name@;
                assert(raw.rules@[m].name@ == raw.rules@[i as int].name@);
            }
            duplicate = Some(ParseError { line: rule.line, column: rule.col, message });
            break;
        }
        names.push(rule.name.clone());
        i += 1;
    }
    if let Some(e) = duplicate {
        return Err(e);
    }
    assert(names@ =~= raw.rules@.map_values(|r: RawRule<RawItem>| r.name));
    assert(name_views(names@) =~= rule_names(rsv));
    let mut builder = IrBuilder::new(names);
    let ghost b_init = builder;
    let mut named: Vec<Production> = Vec::new();
    let mut i: usize = 0;
    let mut failure: Option<ParseError> = None;
    while i < n_named
        invariant_except_break
            n_named == raw.rules@.len(),
            n_named < u32::MAX,
            builder.wf(),
            builder.n_named == n_named,
            builder.names@.len() == n_named,
            builder.names@ == raw.rules@.map_values(|r: RawRule<RawItem>| r.name),
            failure is None,
            0 <= i <= n_named,
            named@.len() == i,
            forall|k: int| 0 <= k < i ==> {
                &&& (#[trigger] named@[k]).id == ProductionId(k as u32)
                &&& named@[k].name@ == raw.rules@[k].name@
                &&& named@[k].alternatives@.len() == raw.rules@[k].alternatives@.len()
                &&& alts_below(named@[k].alternatives@, builder.symbols@.len() as int)
                &&& attrs_fresh(named@[k].attrs)
                &&& alts_mean(builder.state(), named@[k].alternatives@, alts_view(raw.rules@[k].alternatives@))
            },
            rsv == rules_view(raw.rules@),
            name_views(builder.names@) == rule_names(rsv),
            b_init.symbols@.len() == 0,
            b_init.anon_productions@.len() == 0,
            grows_within(builder, b_init, rules_cost(rsv, i as int) as int),
            rules_ready(rsv) ==> prods_nonempty(builder.anon_productions@) && prods_nonempty(named@),
        ensures
            rules_ready(rsv) ==> failure is None && prods_nonempty(builder.anon_productions@) && prods_nonempty(named@),
            builder.wf(),
            builder.n_named == n_named,
            builder.names@ == raw.rules@.map_values(|r: RawRule<RawItem>| r.name),
            failure is None ==> named@.len() == n_named && forall|k: int| 0 <= k < n_named ==> {
                &&& (#[trigger] named@[k]).id == ProductionId(k as u32)
                &&& named@[k].name@ == raw.rules@[k].name@
                &&& named@[k].alternatives@.len() == raw.rules@[k].alternatives@.len()
                &&& alts_below(named@[k].alternatives@, builder.symbols@.len() as int)
                &&& attrs_fresh(named@[k].attrs)
                &&& alts_mean(builder.state(), named@[k].alternatives@, alts_view(raw.rules@[k].alternatives@))
            },
        decreases n_named - i,
    {
        let rule = &raw.rules[i];
        let ghost b0 = builder.symbols@.len() as int;
        let ghost bb = builder;
        let alts = builder.build_alternatives(&rule.alternatives, rule.line, rule.col);
        proof {
            assert(rsv[i as int].alts == alts_view(raw.rules@[i as int].alternatives@));
            assert(rules_cost(rsv, i + 1) == rules_cost(rsv, i as int) + alts_cost(rsv[i as int].alts));
            lemma_rules_cost_mono(rsv, i + 1);
            lemma_alts_view_index(raw.rules@[i as int].alternatives@);
        }
        match alts {
            Ok(alts) => {
                named.push(Production { id: ProductionId(i as u32), name: rule.name.clone(), alternatives: alts, attrs: ProductionAttrs::new() });
                proof {
                    assert forall|k: int| 0 <= k < named@.len() implies alts_below(#[trigger] named@[k].alternatives@, builder.symbols@.len() as int) by {
                        if k < i {
                            lemma_alts_below_mono(named@[k].alternatives@, b0, builder.symbols@.len() as int);
                        }
                    }
                    lemma_grows_extends(builder, bb);
                    assert forall|k: int| 0 <= k < named@.len() implies
                        alts_mean(builder.state(), #[trigger] named@[k].alternatives@, alts_view(raw.rules@[k].alternatives@)) by {
                        if k < i {
                            lemma_alts_mean_grow(bb.state(), builder.state(), named@[k].alternatives@, alts_view(raw.rules@[k].alternatives@));
                        }
                    }
                    if rules_ready(rsv) {
                        assert(alts_buildable(rule_names(rsv), rsv[i as int].alts));
                        let na = named@[i as int].alternatives@;
                        assert forall|a: int| 0 <= a < na.len() implies (#[trigger] na[a]).symbols@.len() > 0 by {
                            assert(rsv[i as int].alts[a].len() > 0);
                            lemma_items_view_index(raw.rules@[i as int].alternatives@[a].items@);
                        }
                        assert forall|k: int| 0 <= k < named@.len() implies {
                            &&& (#[trigger] named@[k]).alternatives@.len() > 0
                            &&& forall|a: int| 0 <= a < named@[k].alternatives@.len() ==> (#[trigger] named@[k].alternatives@[a]).symbols@.len() > 0
                        } by {
                            if k == i {
                                assert(na.len() > 0);
                            }
                        }
                    }
                }
            },
            Err(e) => {
                proof {
                    if rules_ready(rsv) {
                        assert(alts_buildable(rule_names(rsv), rsv[i as int].alts));
                        assert(!exhausted(builder));
                    }
                }
                failure = Some(e);
                break;
            },
        }
        i += 1;
    }
    if let Some(e) = failure {
        return Err(e);
    }
    let ghost named_v = named@;
    let ghost fb = builder;
    let r = assemble_ir(named, builder, start, Vec::new());
    proof {
        if rules_ready(rsv) && start.0 < raw.rules@.len() {
            assert(r is Ok);
        }
        if r is Ok {
            let ir = r->Ok_0;
            let st = ir_state(ir, raw.rules@);
            assert(st.anon =~= fb.state().anon) by {
                assert forall|a: int| 0 <= a < fb.anon_productions@.len() implies
                    #[trigger] st.anon[a] == fb.state().anon[a] by {
                    assert(ir.productions@[named_v.len() + a].alternatives@ == fb.anon_productions@[a].alternatives@);
                }
            }
            assert(st == fb.state());
            assert forall|i: int| 0 <= i < raw.rules@.len() implies {
                &&& (#[trigger] ir.productions@[i]).name@ == raw.rules@[i].name@
                &&& ir.productions@[i].id == ProductionId(i as u32)
                &&& ir.productions@[i].alternatives@.len() == raw.rules@[i].alternatives@.len()
                &&& alts_mean(ir_state(ir, raw.rules@), ir.productions@[i].alternatives@, alts_view(raw.rules@[i].alternatives@))
            } by {
                assert(ir.productions@[i].name@ == named_v[i].name@);
                assert(ir.productions@[i].alternatives@ == named_v[i].alternatives@);
            }
        }
    }
    r
}

} // verus!
