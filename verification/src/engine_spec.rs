//! The meaning of decoding a tape against a grammar, as spec functions.
//!
//! The state threads the tree under construction, the tape map, the read
//! offset, the node budget spent, and the hooks; the depth is a parameter.
use vstd::prelude::*;
use crate::ids::{NodeId, PoolId, ProductionId, SymbolId};
use crate::grammar::{GrammarIr, Production, Alternative, SymbolRef, Modifier, Symbol, TerminalKind, TokenPoolEntry, required_spec};
use crate::ast::{NodeV, NodeKindV, new_node_spec, add_child_spec};
use crate::tape::{choose_spec, repetition_spec};
use crate::tape_map::{TapeEntry, ModifierByte};
use crate::profile::Profile;
use crate::error::{GenerateError, BudgetKind};
use crate::hooks::SemanticHooks;

verus! {

pub struct DecState<H> {
    pub nodes: Seq<NodeV>,
    pub entries: Seq<TapeEntry>,
    pub mods: Seq<ModifierByte>,
    pub pos: int,
    pub total: u32,
    pub hooks: H,
}

/// The state before decoding: empty tree and map, offset after the header.
pub open spec fn init_state<H>(hooks: H) -> DecState<H> {
    DecState { nodes: seq![], entries: seq![], mods: seq![], pos: 2, total: 0, hooks }
}

pub open spec fn symbol_at(g: GrammarIr, s: SymbolId) -> Symbol {
    g.symbols@[s.0 as int]
}

pub open spec fn production_at(g: GrammarIr, p: ProductionId) -> Production {
    g.productions@[p.0 as int]
}

pub open spec fn min_u32(a: u32, b: u32) -> u32 {
    if a <= b { a } else { b }
}

pub open spec fn max_u32(a: u32, b: u32) -> u32 {
    if a >= b { a } else { b }
}

/// The repetition range `[lo, hi]` of a repeating modifier, capped by the profile.
pub open spec fn rep_range(m: Modifier, cap: u32) -> (u32, u32) {
    match m {
        Modifier::ZeroOrMore { min, max } => (min, min_u32(max, cap)),
        Modifier::OneOrMore { min, max } => (max_u32(min, 1), min_u32(max, cap)),
        _ => (0, 0),
    }
}

/// The tape map's modifier list after recording modifier `m` at `offset`.
pub open spec fn record_modifier_spec(m: Modifier, cap: u32, offset: usize, mods: Seq<ModifierByte>) -> Seq<ModifierByte> {
    match m {
        Modifier::Once => mods,
        Modifier::Optional => mods.push(ModifierByte::Optional { tape_offset: offset }),
        _ => {
            let (lo, hi) = rep_range(m, cap);
            if lo < hi {
                mods.push(ModifierByte::Repetition { tape_offset: offset, min: lo, max: hi })
            } else {
                mods
            }
        },
    }
}

/// The count a modifier reads at `pos`, and the next offset.
pub open spec fn resolve_dec_spec(m: Modifier, cap: u32, t: Seq<u8>, pos: int) -> (int, int) {
    match m {
        Modifier::Once => (1, pos),
        Modifier::Optional => choose_spec(t, pos, 2),
        _ => {
            let (lo, hi) = rep_range(m, cap);
            repetition_spec(t, pos, lo as int, hi as int)
        },
    }
}

/// Whether a child of a node at depth `depth` still fits the depth budget.
pub open spec fn fits_spec(g: GrammarIr, s: SymbolId, depth: u32, max_depth: u32) -> bool {
    match symbol_at(g, s) {
        Symbol::Terminal(_) => true,
        Symbol::NonTerminal(pid) => production_at(g, pid).attrs.min_depth as int <= (if max_depth >= depth + 1 {
            max_depth - (depth + 1)
        } else {
            0
        }),
    }
}

/// The count used when the symbol does not fit: the fewest expansions.
pub open spec fn clamp_count_spec(m: Modifier, raw: int, fits: bool) -> int {
    if fits {
        raw
    } else {
        match m {
            Modifier::Once => 1,
            Modifier::Optional => 0,
            Modifier::ZeroOrMore { .. } => 0,
            Modifier::OneOrMore { min, .. } => max_u32(min, 1) as int,
        }
    }
}

/// A symbol reference that is optional, or whose symbol fits in `remaining` levels.
pub open spec fn sym_ref_ok(g: GrammarIr, sr: SymbolRef, remaining: u32) -> bool {
    !required_spec(sr.modifier) || match symbol_at(g, sr.symbol) {
        Symbol::Terminal(_) => true,
        Symbol::NonTerminal(pid) => production_at(g, pid).attrs.min_depth <= remaining,
    }
}

pub open spec fn alt_ok(g: GrammarIr, alt: Alternative, remaining: u32) -> bool {
    forall|k: int| 0 <= k < alt.symbols@.len() ==> #[trigger] sym_ref_ok(g, alt.symbols@[k], remaining)
}

/// Indices below `i` of the alternatives that fit in `remaining` levels, in order.
pub open spec fn eligible_upto(g: GrammarIr, alts: Seq<Alternative>, remaining: u32, i: int) -> Seq<usize>
    decreases i,
{
    if i <= 0 {
        seq![]
    } else {
        let e = eligible_upto(g, alts, remaining, i - 1);
        if alt_ok(g, alts[i - 1], remaining) {
            e.push((i - 1) as usize)
        } else {
            e
        }
    }
}

pub open spec fn eligible_spec(g: GrammarIr, prod: Production, remaining: u32) -> Seq<usize> {
    eligible_upto(g, prod.alternatives@, remaining, prod.alternatives@.len() as int)
}

/// The alternative a raw tape choice selects: itself if eligible (or nothing
/// is), otherwise an eligible alternative picked by the raw value.
pub open spec fn select_alt_spec(raw: int, elig: Seq<usize>) -> int {
    if elig.len() == 0 || elig.contains(raw as usize) {
        raw
    } else {
        elig[raw % (elig.len() as int)] as int
    }
}

pub open spec fn in_ranges(ranges: Seq<(u8, u8)>, b: u8) -> bool {
    exists|i: int| 0 <= i < ranges.len() && (#[trigger] ranges[i]).0 <= b && b <= ranges[i].1
}

/// The bytes below `k` that a character class admits, in increasing order.
pub open spec fn class_upto(ranges: Seq<(u8, u8)>, negated: bool, k: int) -> Seq<u8>
    decreases k,
{
    if k <= 0 {
        seq![]
    } else {
        let s = class_upto(ranges, negated, k - 1);
        if in_ranges(ranges, (k - 1) as u8) != negated {
            s.push((k - 1) as u8)
        } else {
            s
        }
    }
}

/// All bytes that a character class admits, in increasing order.
pub open spec fn class_bytes(ranges: Seq<(u8, u8)>, negated: bool) -> Seq<u8> {
    class_upto(ranges, negated, 256)
}

/// The bytes and next offset of a terminal decoded at `pos` without hooks.
pub open spec fn emit_plain_dec(tk: TerminalKind, t: Seq<u8>, pos: int) -> (Seq<u8>, int) {
    match tk {
        TerminalKind::Literal(b) => (b@, pos),
        TerminalKind::CharClass { ranges, negated } => {
            let vb = class_bytes(ranges@, negated);
            if vb.len() == 0 {
                (seq![0u8], pos)
            } else {
                let (i, p2) = choose_spec(t, pos, vb.len() as int);
                (seq![vb[i]], p2)
            }
        },
        TerminalKind::AnyByte => {
            let (b, p2) = choose_spec(t, pos, 256);
            (seq![b as u8], p2)
        },
        TerminalKind::ByteRange(lo, hi) => {
            let (i, p2) = choose_spec(t, pos, hi - lo + 1);
            (seq![(lo + i) as u8], p2)
        },
        TerminalKind::TokenPool(_) => (seq![], pos),
    }
}

/// The bytes of the terminals among `syms[i..]`, decoded from `pos`, after `acc`.
pub open spec fn pool_syms_dec(g: GrammarIr, syms: Seq<SymbolRef>, i: int, t: Seq<u8>, pos: int, acc: Seq<u8>) -> (Seq<u8>, int)
    decreases (if i < syms.len() { syms.len() - i } else { 0 }),
{
    if i >= syms.len() || i < 0 {
        (acc, pos)
    } else {
        match symbol_at(g, syms[i].symbol) {
            Symbol::Terminal(tk) => {
                let (b, p2) = emit_plain_dec(tk, t, pos);
                pool_syms_dec(g, syms, i + 1, t, p2, acc + b)
            },
            Symbol::NonTerminal(_) => pool_syms_dec(g, syms, i + 1, t, pos, acc),
        }
    }
}

/// The mechanical expansion of a token pool: the alternative picked by the tape byte.
pub open spec fn pool_dec(g: GrammarIr, pool: PoolId, tb: u8, t: Seq<u8>, pos: int) -> (Seq<u8>, int) {
    if pool.0 >= g.token_pools@.len() {
        (seq![], pos)
    } else {
        let e = g.token_pools@[pool.0 as int];
        if e.alternatives@.len() == 0 {
            (seq![], pos)
        } else {
            let alt = e.alternatives@[(tb as int) % (e.alternatives@.len() as int)];
            pool_syms_dec(g, alt.symbols@, 0, t, pos, seq![])
        }
    }
}

/// The bytes, next offset and hooks after decoding a terminal at `pos`.
pub open spec fn emit_dec<H: SemanticHooks>(g: GrammarIr, tk: TerminalKind, t: Seq<u8>, pos: int, hooks: H) -> (Seq<u8>, int, H) {
    match tk {
        TerminalKind::TokenPool(pool) => {
            let (b, p1) = choose_spec(t, pos, 256);
            let (h1, r) = hooks.token_pool_spec(pool, b as u8);
            match r {
                Some(bytes) => (bytes, p1, h1),
                None => {
                    let (bytes, p2) = pool_dec(g, pool, b as u8, t, p1);
                    (bytes, p2, h1)
                },
            }
        },
        _ => {
            let (b, p2) = emit_plain_dec(tk, t, pos);
            (b, p2, hooks)
        },
    }
}

/// The depth budget left, the first component of the decoding measure.
pub open spec fn dm(p: Profile, d: u32) -> nat {
    if d <= p.max_depth { (p.max_depth - d) as nat } else { 0 }
}

pub open spec fn max_depth_err() -> GenerateError {
    GenerateError::BudgetExhausted { kind: BudgetKind::MaxDepth }
}

pub open spec fn max_nodes_err() -> GenerateError {
    GenerateError::BudgetExhausted { kind: BudgetKind::MaxTotalNodes }
}

/// A hooked production whose hook answered `bytes`: a production node over one terminal.
pub open spec fn hook_node_spec<H: SemanticHooks>(pid: ProductionId, bytes: Seq<u8>, st: DecState<H>) -> (DecState<H>, Result<NodeId, GenerateError>) {
    let term = NodeId(st.nodes.len() as u32);
    let n1 = new_node_spec(st.nodes, NodeKindV::Terminal(bytes));
    let prod_node = NodeId(n1.len() as u32);
    let n2 = new_node_spec(n1, NodeKindV::Production(pid));
    let n3 = add_child_spec(n2, prod_node, term);
    let entry = TapeEntry { tape_offset: (st.pos - 1) as usize, tape_len: 1, node_id: prod_node, production_id: pid };
    (DecState { nodes: n3, entries: st.entries.push(entry), hooks: st.hooks.exit_spec(pid), ..st }, Ok(prod_node))
}

/// Decoding production `pid` at depth `d`.
pub open spec fn dec_prod<H: SemanticHooks>(g: GrammarIr, p: Profile, t: Seq<u8>, pid: ProductionId, d: u32, st: DecState<H>) -> (DecState<H>, Result<NodeId, GenerateError>)
    decreases dm(p, d), 1nat, 0nat, 0nat,
{
    if d >= p.max_depth {
        (st, Err(max_depth_err()))
    } else if st.total as int + 1 > p.max_total_nodes {
        (DecState { total: (st.total + 1) as u32, ..st }, Err(max_nodes_err()))
    } else {
        let st1 = DecState { total: (st.total + 1) as u32, hooks: st.hooks.enter_spec(pid), ..st };
        match production_at(g, pid).attrs.semantic_hook {
            Some(name) => {
                let (b, p1) = choose_spec(t, st1.pos, 256);
                let (h2, r) = st1.hooks.production_spec(name@, b as u8, pid);
                let st2 = DecState { pos: p1, hooks: h2, ..st1 };
                match r {
                    Some(bytes) => hook_node_spec(pid, bytes, st2),
                    None => dec_body(g, p, t, pid, d, st2),
                }
            },
            None => dec_body(g, p, t, pid, d, st1),
        }
    }
}

/// Decoding the chosen alternative of production `pid` at depth `d < max_depth`.
pub open spec fn dec_body<H: SemanticHooks>(g: GrammarIr, p: Profile, t: Seq<u8>, pid: ProductionId, d: u32, st: DecState<H>) -> (DecState<H>, Result<NodeId, GenerateError>)
    decreases dm(p, d), 0nat, 0nat, 0nat,
{
    if d >= p.max_depth {
        (st, Err(max_depth_err()))
    } else {
        let prod = production_at(g, pid);
        let remaining = (p.max_depth - d - 1) as u32;
        let elig = eligible_spec(g, prod, remaining);
        let tape_start = st.pos;
        let (raw, p1) = choose_spec(t, st.pos, prod.alternatives@.len() as int);
        let alt = select_alt_spec(raw, elig);
        let node_id = NodeId(st.nodes.len() as u32);
        let st1 = DecState { nodes: new_node_spec(st.nodes, NodeKindV::Production(pid)), pos: p1, ..st };
        let syms = prod.alternatives@[alt].symbols@;
        let (st2, r) = dec_syms(g, p, t, syms, 0, node_id, (d + 1) as u32, st1);
        body_tail(st2, r, tape_start, node_id, pid)
    }
}

/// After the children of a production: record its tape span and exit it.
pub open spec fn body_tail<H: SemanticHooks>(st2: DecState<H>, r: Result<(), GenerateError>, tape_start: int, node_id: NodeId, pid: ProductionId) -> (DecState<H>, Result<NodeId, GenerateError>) {
    match r {
        Err(e) => (st2, Err(e)),
        Ok(_) => {
            let entry = TapeEntry {
                tape_offset: tape_start as usize,
                tape_len: (st2.pos - tape_start) as usize,
                node_id,
                production_id: pid,
            };
            (DecState { entries: st2.entries.push(entry), hooks: st2.hooks.exit_spec(pid), ..st2 }, Ok(node_id))
        },
    }
}

/// Decoding the symbol references `syms[i..]` as children of `parent` at depth `d`.
pub open spec fn dec_syms<H: SemanticHooks>(g: GrammarIr, p: Profile, t: Seq<u8>, syms: Seq<SymbolRef>, i: int, parent: NodeId, d: u32, st: DecState<H>) -> (DecState<H>, Result<(), GenerateError>)
    decreases dm(p, d), 5nat, (if i < syms.len() { syms.len() - i } else { 0 }) as nat, 0nat,
{
    if i >= syms.len() || i < 0 {
        (st, Ok(()))
    } else {
        let (st1, r) = dec_symref(g, p, t, syms[i], parent, d, st);
        match r {
            Err(e) => (st1, Err(e)),
            Ok(_) => dec_syms(g, p, t, syms, i + 1, parent, d, st1),
        }
    }
}

/// Decoding one symbol reference: its modifier's count, then that many expansions.
pub open spec fn dec_symref<H: SemanticHooks>(g: GrammarIr, p: Profile, t: Seq<u8>, sr: SymbolRef, parent: NodeId, d: u32, st: DecState<H>) -> (DecState<H>, Result<(), GenerateError>)
    decreases dm(p, d), 4nat, 0nat, 0nat,
{
    let cap = p.repetition_bounds.1;
    let mods = record_modifier_spec(sr.modifier, cap, st.pos as usize, st.mods);
    let (raw, p1) = resolve_dec_spec(sr.modifier, cap, t, st.pos);
    let count = clamp_count_spec(sr.modifier, raw, fits_spec(g, sr.symbol, d, p.max_depth));
    dec_repeat(g, p, t, sr.symbol, parent, d, nat_of(count), DecState { mods, pos: p1, ..st })
}

pub open spec fn nat_of(x: int) -> nat {
    if x >= 0 { x as nat } else { 0 }
}

/// `k` expansions of `sym`, each appended to the children of `parent`.
pub open spec fn dec_repeat<H: SemanticHooks>(g: GrammarIr, p: Profile, t: Seq<u8>, sym: SymbolId, parent: NodeId, d: u32, k: nat, st: DecState<H>) -> (DecState<H>, Result<(), GenerateError>)
    decreases dm(p, d), 3nat, k, 0nat,
{
    if k == 0 {
        (st, Ok(()))
    } else {
        let (st1, r) = dec_symbol(g, p, t, sym, d, st);
        match r {
            Err(e) => (st1, Err(e)),
            Ok(child) => dec_repeat(g, p, t, sym, parent, d, (k - 1) as nat, DecState { nodes: add_child_spec(st1.nodes, parent, child), ..st1 }),
        }
    }
}

/// One expansion of `sym` at depth `d`.
pub open spec fn dec_symbol<H: SemanticHooks>(g: GrammarIr, p: Profile, t: Seq<u8>, sym: SymbolId, d: u32, st: DecState<H>) -> (DecState<H>, Result<NodeId, GenerateError>)
    decreases dm(p, d), 2nat, 0nat, 0nat,
{
    match symbol_at(g, sym) {
        Symbol::Terminal(tk) => {
            if st.total as int + 1 > p.max_total_nodes {
                (DecState { total: (st.total + 1) as u32, ..st }, Err(max_nodes_err()))
            } else {
                let (bytes, p1, h1) = emit_dec(g, tk, t, st.pos, st.hooks);
                let id = NodeId(st.nodes.len() as u32);
                (DecState {
                    total: (st.total + 1) as u32,
                    nodes: new_node_spec(st.nodes, NodeKindV::Terminal(bytes)),
                    pos: p1,
                    hooks: h1,
                    ..st
                }, Ok(id))
            }
        },
        Symbol::NonTerminal(pid) => dec_prod(g, p, t, pid, d, st),
    }
}

// ── Well-formedness needed to expand a grammar without panicking ──

/// A referenced symbol exists; a nonterminal names a production; a byte range is ordered.
pub open spec fn sym_ref_valid(g: GrammarIr, sr: SymbolRef) -> bool {
    &&& sr.symbol.0 < g.symbols@.len()
    &&& match symbol_at(g, sr.symbol) {
        Symbol::NonTerminal(pid) => pid.0 < g.productions@.len(),
        Symbol::Terminal(TerminalKind::ByteRange(lo, hi)) => lo <= hi,
        _ => true,
    }
}

pub open spec fn alt_valid(g: GrammarIr, alt: Alternative) -> bool {
    forall|k: int| 0 <= k < alt.symbols@.len() ==> #[trigger] sym_ref_valid(g, alt.symbols@[k])
}

pub open spec fn prod_valid(g: GrammarIr, prod: Production) -> bool {
    &&& prod.alternatives@.len() > 0
    &&& forall|a: int| 0 <= a < prod.alternatives@.len() ==> #[trigger] alt_valid(g, prod.alternatives@[a])
}

pub open spec fn pool_valid(g: GrammarIr, e: TokenPoolEntry) -> bool {
    forall|a: int| 0 <= a < e.alternatives@.len() ==> #[trigger] alt_valid(g, e.alternatives@[a])
}

/// Every production has alternatives and every reference in productions and pools is valid.
pub open spec fn grammar_valid(g: GrammarIr) -> bool {
    &&& g.start.0 < g.productions@.len()
    &&& forall|i: int| 0 <= i < g.productions@.len() ==> #[trigger] prod_valid(g, g.productions@[i])
    &&& forall|i: int| 0 <= i < g.token_pools@.len() ==> #[trigger] pool_valid(g, g.token_pools@[i])
}

/// Budgets below the integer limits that the counters reach.
pub open spec fn profile_valid(p: Profile) -> bool {
    &&& p.max_depth < u32::MAX
    &&& p.max_total_nodes < u32::MAX
    &&& p.repetition_bounds.1 < u32::MAX
}

} // verus!
