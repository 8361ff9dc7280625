//! Decoding: expanding a grammar by the decisions recorded on a tape.
use vstd::prelude::*;
use crate::ids::{NodeId, PoolId, ProductionId, SymbolId};
use crate::grammar::{GrammarIr, Production, Alternative, SymbolRef, Modifier, Symbol, TerminalKind, is_required};
use crate::ast::{Ast, AstNodeKind, AstV};
use crate::tape::TapeReader;
use crate::tape_map::TapeMap;
use crate::profile::Profile;
use crate::error::{GenerateError, BudgetKind};
use crate::hooks::SemanticHooks;
use crate::engine_spec::{DecState, init_state, symbol_at, in_ranges, class_upto, class_bytes, alt_ok, sym_ref_ok,
    eligible_upto, eligible_spec, fits_spec, record_modifier_spec, resolve_dec_spec, emit_plain_dec, pool_syms_dec,
    pool_dec, emit_dec, dm, body_tail, nat_of, clamp_count_spec, max_nodes_err, dec_prod, dec_body, dec_syms, dec_symref, dec_repeat, dec_symbol,
    sym_ref_valid, alt_valid, prod_valid, pool_valid, grammar_valid, profile_valid};

verus! {

/// The tree, map and node budget of one expansion run.
pub struct GenCtx {
    pub ast: Ast,
    pub tape_map: TapeMap,
    pub total_nodes: u32,
}

/// The decoding state that a context, a read offset and hooks stand for.
pub open spec fn st_of<H>(ctx: GenCtx, pos: int, hooks: H) -> DecState<H> {
    DecState {
        nodes: ctx.ast@.nodes,
        entries: ctx.tape_map.entries@,
        mods: ctx.tape_map.modifier_bytes@,
        pos,
        total: ctx.total_nodes,
        hooks,
    }
}

impl GenCtx {
    pub fn new() -> (c: GenCtx)
        ensures
            c.ast@.nodes == Seq::<crate::ast::NodeV>::empty(),
            c.ast.root == NodeId(0),
            c.tape_map.entries@ == Seq::<crate::tape_map::TapeEntry>::empty(),
            c.tape_map.modifier_bytes@ == Seq::<crate::tape_map::ModifierByte>::empty(),
            c.total_nodes == 0,
    {
        let c = GenCtx { ast: Ast { nodes: Vec::new(), root: NodeId(0) }, tape_map: TapeMap::new(), total_nodes: 0 };
        assert(c.ast@.nodes =~= Seq::<crate::ast::NodeV>::empty());
        c
    }

    /// Spend one node of the budget; an error once the budget is exceeded.
    pub fn alloc_node(&mut self, profile: &Profile) -> (r: Result<(), GenerateError>)
        requires
            old(self).total_nodes < u32::MAX,
        ensures
            final(self).total_nodes == old(self).total_nodes + 1,
            final(self).ast == old(self).ast,
            final(self).tape_map == old(self).tape_map,
            r is Ok <==> old(self).total_nodes + 1 <= profile.max_total_nodes,
            r matches Err(e) ==> e == max_nodes_err(),
    {
        self.total_nodes += 1;
        if self.total_nodes > profile.max_total_nodes {
            return Err(GenerateError::BudgetExhausted { kind: BudgetKind::MaxTotalNodes });
        }
        Ok(())
    }
}

/// Whether `x` occurs in `v`.
pub fn contains_index(v: &Vec<usize>, x: usize) -> (r: bool)
    ensures
        r == v@.contains(x),
{
    let mut i: usize = 0;
    while i < v.len()
        invariant
            0 <= i <= v@.len(),
            forall|j: int| 0 <= j < i ==> v@[j] != x,
        decreases v@.len() - i,
    {
        if v[i] == x {
            assert(v@[i as int] == x);
            return true;
        }
        i += 1;
    }
    false
}

/// Whether `b` lies in one of `ranges`.
pub fn byte_in_ranges(ranges: &[(u8, u8)], b: u8) -> (r: bool)
    ensures
        r == in_ranges(ranges@, b),
{
    let mut i: usize = 0;
    while i < ranges.len()
        invariant
            0 <= i <= ranges@.len(),
            forall|j: int| 0 <= j < i ==> !((#[trigger] ranges@[j]).0 <= b && b <= ranges@[j].1),
        decreases ranges@.len() - i,
    {
        let (lo, hi) = ranges[i];
        if b >= lo && b <= hi {
            assert(ranges@[i as int].0 <= b && b <= ranges@[i as int].1);
            return true;
        }
        i += 1;
    }
    false
}

/// All bytes of a character class, in increasing order, for uniform sampling.
pub fn collect_char_class_bytes(ranges: &[(u8, u8)], negated: bool) -> (bytes: Vec<u8>)
    ensures
        bytes@ == class_bytes(ranges@, negated),
{
    let mut bytes = Vec::new();
    let mut k: u32 = 0;
    while k < 256
        invariant
            k <= 256,
            bytes@ == class_upto(ranges@, negated, k as int),
        decreases 256 - k,
    {
        let b = k as u8;
        let in_range = byte_in_ranges(ranges, b);
        if in_range != negated {
            bytes.push(b);
        }
        k += 1;
    }
    bytes
}

pub proof fn lemma_eligible_bounded(g: GrammarIr, alts: Seq<Alternative>, remaining: u32, i: int)
    requires
        0 <= i,
    ensures
        forall|j: int| 0 <= j < eligible_upto(g, alts, remaining, i).len() ==> #[trigger] eligible_upto(g, alts, remaining, i)[j] < i,
    decreases i,
{
    if i > 0 {
        lemma_eligible_bounded(g, alts, remaining, i - 1);
        let e = eligible_upto(g, alts, remaining, i - 1);
        assert forall|j: int| 0 <= j < eligible_upto(g, alts, remaining, i).len() implies #[trigger] eligible_upto(g, alts, remaining, i)[j] < i by {
            if j < e.len() {
                assert(e[j] < i - 1);
            }
        }
    }
}

/// Whether every required symbol of `alt` fits in `remaining` levels.
fn alt_fits(grammar: &GrammarIr, alt: &Alternative, remaining: u32) -> (r: bool)
    requires
        alt_valid(*grammar, *alt),
    ensures
        r == alt_ok(*grammar, *alt, remaining),
{
    let mut k: usize = 0;
    while k < alt.symbols.len()
        invariant
            0 <= k <= alt.symbols@.len(),
            alt_valid(*grammar, *alt),
            forall|j: int| 0 <= j < k ==> #[trigger] sym_ref_ok(*grammar, alt.symbols@[j], remaining),
        decreases alt.symbols@.len() - k,
    {
        let sr = alt.symbols[k];
        assert(sym_ref_valid(*grammar, alt.symbols@[k as int]));
        if is_required(&sr.modifier) {
            match &grammar.symbols[sr.symbol.0 as usize] {
                Symbol::Terminal(_) => {},
                Symbol::NonTerminal(pid) => {
                    if grammar.productions[pid.0 as usize].attrs.min_depth > remaining {
                        assert(!sym_ref_ok(*grammar, alt.symbols@[k as int], remaining));
                        return false;
                    }
                },
            }
        }
        k += 1;
    }
    true
}

/// The indices of the alternatives of `prod` that fit in `remaining` levels.
pub fn eligible_alts(grammar: &GrammarIr, prod: &Production, remaining: u32, buf: &mut Vec<usize>)
    requires
        prod_valid(*grammar, *prod),
    ensures
        final(buf)@ == eligible_spec(*grammar, *prod, remaining),
{
    buf.clear();
    let n = prod.alternatives.len();
    for i in 0..n
        invariant
            n == prod.alternatives@.len(),
            prod_valid(*grammar, *prod),
            buf@ == eligible_upto(*grammar, prod.alternatives@, remaining, i as int),
    {
        assert(alt_valid(*grammar, prod.alternatives@[i as int]));
        if alt_fits(grammar, &prod.alternatives[i], remaining) {
            buf.push(i);
        }
    }
}

/// Whether a symbol's min depth fits the budget left below depth `depth`.
pub fn symbol_fits_depth(grammar: &GrammarIr, sym_id: SymbolId, depth: u32, max_depth: u32) -> (r: bool)
    requires
        sym_id.0 < grammar.symbols@.len(),
        match symbol_at(*grammar, sym_id) {
            Symbol::NonTerminal(pid) => pid.0 < grammar.productions@.len(),
            _ => true,
        },
        depth < u32::MAX,
    ensures
        r == fits_spec(*grammar, sym_id, depth, max_depth),
{
    match &grammar.symbols[sym_id.0 as usize] {
        Symbol::Terminal(_) => true,
        Symbol::NonTerminal(pid) => {
            let remaining = max_depth.saturating_sub(depth + 1);
            grammar.productions[pid.0 as usize].attrs.min_depth <= remaining
        },
    }
}

/// Record a modifier's tape position in the map.
pub fn record_modifier(modifier: &Modifier, profile: &Profile, offset: usize, tape_map: &mut TapeMap)
    ensures
        final(tape_map).entries@ == old(tape_map).entries@,
        final(tape_map).modifier_bytes@ == record_modifier_spec(*modifier, profile.repetition_bounds.1, offset, old(tape_map).modifier_bytes@),
{
    match modifier {
        Modifier::Once => {},
        Modifier::Optional => {
            tape_map.push_optional(offset);
        },
        Modifier::ZeroOrMore { min, max } => {
            let hi = if *max <= profile.repetition_bounds.1 { *max } else { profile.repetition_bounds.1 };
            if *min < hi {
                tape_map.push_repetition(offset, *min, hi);
            }
        },
        Modifier::OneOrMore { min, max } => {
            let lo = if *min >= 1 { *min } else { 1 };
            let hi = if *max <= profile.repetition_bounds.1 { *max } else { profile.repetition_bounds.1 };
            if lo < hi {
                tape_map.push_repetition(offset, lo, hi);
            }
        },
    }
}

/// The count a modifier reads from the tape.
fn resolve_modifier_dec(modifier: &Modifier, profile: &Profile, reader: &mut TapeReader<'_>) -> (c: u32)
    requires
        profile_valid(*profile),
    ensures
        (c as int, final(reader).pos()) == resolve_dec_spec(*modifier, profile.repetition_bounds.1, old(reader).tape(), old(reader).pos()),
        final(reader).tape() == old(reader).tape(),
        final(reader).pos() >= old(reader).pos(),
        old(reader).wf() ==> final(reader).wf(),
{
    match modifier {
        Modifier::Once => 1,
        Modifier::Optional => reader.choose_among(2) as u32,
        Modifier::ZeroOrMore { min, max } => {
            let hi = if *max <= profile.repetition_bounds.1 { *max } else { profile.repetition_bounds.1 };
            reader.repetition(*min, hi)
        },
        Modifier::OneOrMore { min, max } => {
            let lo = if *min >= 1 { *min } else { 1 };
            let hi = if *max <= profile.repetition_bounds.1 { *max } else { profile.repetition_bounds.1 };
            reader.repetition(lo, hi)
        },
    }
}

pub open spec fn terminal_valid(tk: TerminalKind) -> bool {
    match tk {
        TerminalKind::ByteRange(lo, hi) => lo <= hi,
        _ => true,
    }
}

/// One byte in a fresh vector.
pub fn one_byte(b: u8) -> (v: Vec<u8>)
    ensures
        v@ == seq![b],
{
    let mut v = Vec::new();
    v.push(b);
    v
}

/// Terminal expansion without hooks, for mechanical token pool decoding.
fn emit_terminal_dec_no_hooks(tk: &TerminalKind, reader: &mut TapeReader<'_>) -> (bytes: Vec<u8>)
    requires
        terminal_valid(*tk),
    ensures
        (bytes@, final(reader).pos()) == emit_plain_dec(*tk, old(reader).tape(), old(reader).pos()),
        final(reader).tape() == old(reader).tape(),
        final(reader).pos() >= old(reader).pos(),
        old(reader).wf() ==> final(reader).wf(),
{
    match tk {
        TerminalKind::Literal(b) => b.clone(),
        TerminalKind::CharClass { ranges, negated } => {
            let valid_bytes = collect_char_class_bytes(ranges.as_slice(), *negated);
            if valid_bytes.len() == 0 {
                reader.choose_among(1);
                return one_byte(0);
            }
            let idx = reader.choose_among(valid_bytes.len());
            one_byte(valid_bytes[idx])
        },
        TerminalKind::AnyByte => {
            let byte = reader.choose_among(256) as u8;
            one_byte(byte)
        },
        TerminalKind::ByteRange(lo, hi) => {
            let range = (*hi as usize - *lo as usize) + 1;
            let idx = reader.choose_among(range);
            one_byte(*lo + idx as u8)
        },
        TerminalKind::TokenPool(_) => Vec::new(),
    }
}

/// Mechanically expand a token pool entry during decoding.
fn expand_token_pool_dec(grammar: &GrammarIr, pool_id: PoolId, tape_byte: u8, reader: &mut TapeReader<'_>) -> (bytes: Vec<u8>)
    requires
        grammar_valid(*grammar),
    ensures
        (bytes@, final(reader).pos()) == pool_dec(*grammar, pool_id, tape_byte, old(reader).tape(), old(reader).pos()),
        final(reader).tape() == old(reader).tape(),
        final(reader).pos() >= old(reader).pos(),
        old(reader).wf() ==> final(reader).wf(),
{
    let pool_idx = pool_id.0 as usize;
    if pool_idx >= grammar.token_pools.len() {
        return Vec::new();
    }
    let pool = &grammar.token_pools[pool_idx];
    if pool.alternatives.len() == 0 {
        return Vec::new();
    }
    let alt_idx = tape_byte as usize % pool.alternatives.len();
    let alt = &pool.alternatives[alt_idx];
    assert(pool_valid(*grammar, grammar.token_pools@[pool_idx as int]));
    assert(alt_valid(*grammar, pool.alternatives@[alt_idx as int]));
    let ghost t = reader.tape();
    let ghost pos0 = reader.pos();
    let mut result = Vec::new();
    let n = alt.symbols.len();
    for i in 0..n
        invariant
            n == alt.symbols@.len(),
            alt_valid(*grammar, *alt),
            reader.tape() == t,
            old(reader).wf() ==> reader.wf(),
            pool_syms_dec(*grammar, alt.symbols@, 0, t, pos0, seq![]) == pool_syms_dec(*grammar, alt.symbols@, i as int, t, reader.pos(), result@),
            reader.pos() >= pos0,
            pos0 == old(reader).pos(),
    {
        let sr = alt.symbols[i];
        assert(sym_ref_valid(*grammar, alt.symbols@[i as int]));
        match &grammar.symbols[sr.symbol.0 as usize] {
            Symbol::Terminal(tk) => {
                let ghost before = result@;
                let bytes = emit_terminal_dec_no_hooks(tk, reader);
                result.extend_from_slice(bytes.as_slice());
                assert(result@ =~= before + bytes@);
            },
            Symbol::NonTerminal(_) => {},
        }
    }
    result
}

/// Terminal expansion with hooks: a token pool asks the hooks first.
fn emit_terminal_dec<H: SemanticHooks>(grammar: &GrammarIr, tk: &TerminalKind, reader: &mut TapeReader<'_>, hooks: &mut H) -> (bytes: Vec<u8>)
    requires
        grammar_valid(*grammar),
        terminal_valid(*tk),
    ensures
        (bytes@, final(reader).pos(), *final(hooks)) == emit_dec(*grammar, *tk, old(reader).tape(), old(reader).pos(), *old(hooks)),
        final(reader).tape() == old(reader).tape(),
        final(reader).pos() >= old(reader).pos(),
        old(reader).wf() ==> final(reader).wf(),
{
    match tk {
        TerminalKind::TokenPool(pool_id) => {
            let tape_byte = reader.choose_among(256) as u8;
            let r = hooks.on_token_pool(*pool_id, tape_byte);
            match r {
                Some(bytes) => bytes,
                None => expand_token_pool_dec(grammar, *pool_id, tape_byte, reader),
            }
        },
        _ => emit_terminal_dec_no_hooks(tk, reader),
    }
}

/// Decode production `prod_id` at depth `depth`.
fn expand_production_dec<H: SemanticHooks>(
    grammar: &GrammarIr,
    profile: &Profile,
    prod_id: ProductionId,
    depth: u32,
    ctx: &mut GenCtx,
    reader: &mut TapeReader<'_>,
    eligible_buf: &mut Vec<usize>,
    hooks: &mut H,
) -> (r: Result<NodeId, GenerateError>)
    requires
        grammar_valid(*grammar),
        profile_valid(*profile),
        prod_id.0 < grammar.productions@.len(),
        old(ctx).total_nodes <= profile.max_total_nodes,
        old(reader).wf(),
    ensures
        final(reader).tape() == old(reader).tape(),
        final(reader).pos() >= old(reader).pos(),
        final(reader).wf(),
        dec_prod(*grammar, *profile, old(reader).tape(), prod_id, depth, st_of(*old(ctx), old(reader).pos(), *old(hooks)))
            == (st_of(*final(ctx), final(reader).pos(), *final(hooks)), r),
        r is Ok ==> final(ctx).total_nodes <= profile.max_total_nodes,
        final(ctx).ast.nodes@.len() >= old(ctx).ast.nodes@.len(),
    decreases dm(*profile, depth), 1nat, 0nat, 0nat,
{
    if depth >= profile.max_depth {
        return Err(GenerateError::BudgetExhausted { kind: BudgetKind::MaxDepth });
    }
    let a = ctx.alloc_node(profile);
    if let Err(e) = a {
        return Err(e);
    }
    hooks.enter_production(prod_id);
    let prod = &grammar.productions[prod_id.0 as usize];
    assert(prod_valid(*grammar, grammar.productions@[prod_id.0 as int]));
    if let Some(hook_name) = &prod.attrs.semantic_hook {
        let tape_byte = reader.choose_among(256) as u8;
        let r = hooks.on_production(hook_name.as_str(), tape_byte, prod_id);
        if let Some(bytes) = r {
            let tape_start = reader.offset() - 1;
            let node_id = ctx.ast.new_node(AstNodeKind::Terminal(bytes));
            let prod_node = ctx.ast.new_node(AstNodeKind::Production(prod_id));
            ctx.ast.add_child(prod_node, node_id);
            ctx.tape_map.push(tape_start, 1, prod_node, prod_id);
            hooks.exit_production(prod_id);
            return Ok(prod_node);
        }
    }
    expand_body_dec(grammar, profile, prod_id, depth, ctx, reader, eligible_buf, hooks)
}

/// Decode the chosen alternative of `prod_id` at depth `depth < max_depth`.
fn expand_body_dec<H: SemanticHooks>(
    grammar: &GrammarIr,
    profile: &Profile,
    prod_id: ProductionId,
    depth: u32,
    ctx: &mut GenCtx,
    reader: &mut TapeReader<'_>,
    eligible_buf: &mut Vec<usize>,
    hooks: &mut H,
) -> (r: Result<NodeId, GenerateError>)
    requires
        grammar_valid(*grammar),
        profile_valid(*profile),
        prod_id.0 < grammar.productions@.len(),
        depth < profile.max_depth,
        old(ctx).total_nodes <= profile.max_total_nodes,
        old(reader).wf(),
    ensures
        final(reader).tape() == old(reader).tape(),
        final(reader).pos() >= old(reader).pos(),
        final(reader).wf(),
        dec_body(*grammar, *profile, old(reader).tape(), prod_id, depth, st_of(*old(ctx), old(reader).pos(), *old(hooks)))
            == (st_of(*final(ctx), final(reader).pos(), *final(hooks)), r),
        r is Ok ==> final(ctx).total_nodes <= profile.max_total_nodes,
        final(ctx).ast.nodes@.len() >= old(ctx).ast.nodes@.len(),
    decreases dm(*profile, depth), 0nat, 0nat, 0nat,
{
    let ghost t = reader.tape();
    let prod = &grammar.productions[prod_id.0 as usize];
    assert(prod_valid(*grammar, grammar.productions@[prod_id.0 as int]));
    let remaining = profile.max_depth - depth - 1;
    let n_alts = prod.alternatives.len();
    eligible_alts(grammar, prod, remaining, eligible_buf);
    proof {
        lemma_eligible_bounded(*grammar, prod.alternatives@, remaining, n_alts as int);
    }
    let tape_start = reader.offset();
    let raw = reader.choose_among(n_alts);
    let alt_idx = if eligible_buf.len() == 0 || contains_index(eligible_buf, raw) {
        raw
    } else {
        eligible_buf[raw % eligible_buf.len()]
    };
    let ghost st0 = st_of(*old(ctx), old(reader).pos(), *old(hooks));
    let node_id = ctx.ast.new_node(AstNodeKind::Production(prod_id));
    assert(alt_valid(*grammar, prod.alternatives@[alt_idx as int]));
    let n_syms = prod.alternatives[alt_idx].symbols.len();
    let ghost syms = prod.alternatives@[alt_idx as int].symbols@;
    let ghost st1 = st_of(*ctx, reader.pos(), *hooks);
    let d1 = depth + 1;
    assert(dec_body(*grammar, *profile, t, prod_id, depth, st0) == ({
        let (st2, rr) = dec_syms(*grammar, *profile, t, syms, 0, node_id, d1, st1);
        body_tail(st2, rr, tape_start as int, node_id, prod_id)
    }));
    for i in 0..n_syms
        invariant
            grammar_valid(*grammar),
            profile_valid(*profile),
            n_syms == syms.len(),
            syms == grammar.productions@[prod_id.0 as int].alternatives@[alt_idx as int].symbols@,
            alt_valid(*grammar, grammar.productions@[prod_id.0 as int].alternatives@[alt_idx as int]),
            d1 == depth + 1,
            d1 <= profile.max_depth,
            prod_id.0 < grammar.productions@.len(),
            alt_idx < grammar.productions@[prod_id.0 as int].alternatives@.len(),
            t == old(reader).tape(),
            reader.tape() == t,
            reader.pos() >= tape_start,
            tape_start == old(reader).pos(),
            st0 == st_of(*old(ctx), old(reader).pos(), *old(hooks)),
            dec_body(*grammar, *profile, t, prod_id, depth, st0) == ({
                let (st2, rr) = dec_syms(*grammar, *profile, t, syms, 0, node_id, d1, st1);
                body_tail(st2, rr, tape_start as int, node_id, prod_id)
            }),
            reader.wf(),
            ctx.total_nodes <= profile.max_total_nodes,
            node_id.0 < ctx.ast.nodes@.len(),
            ctx.ast.nodes@.len() >= old(ctx).ast.nodes@.len(),
            dec_syms(*grammar, *profile, t, syms, 0, node_id, d1, st1)
                == dec_syms(*grammar, *profile, t, syms, i as int, node_id, d1, st_of(*ctx, reader.pos(), *hooks)),
    {
        let sym_ref = grammar.productions[prod_id.0 as usize].alternatives[alt_idx].symbols[i];
        assert(sym_ref_valid(*grammar, syms[i as int]));
        let ghost st_i = st_of(*ctx, reader.pos(), *hooks);
        let r = expand_symbol_ref_dec(grammar, profile, sym_ref, node_id, d1, ctx, reader, eligible_buf, hooks);
        if let Err(e) = r {
            assert(dec_syms(*grammar, *profile, t, syms, i as int, node_id, d1, st_i) == (st_of(*ctx, reader.pos(), *hooks), Err::<(), GenerateError>(e)));
            return Err(e);
        }
    }
    ctx.tape_map.push(tape_start, reader.offset() - tape_start, node_id, prod_id);
    hooks.exit_production(prod_id);
    Ok(node_id)
}

/// Decode one symbol reference: its modifier's count, then that many expansions.
fn expand_symbol_ref_dec<H: SemanticHooks>(
    grammar: &GrammarIr,
    profile: &Profile,
    sym_ref: SymbolRef,
    parent: NodeId,
    depth: u32,
    ctx: &mut GenCtx,
    reader: &mut TapeReader<'_>,
    eligible_buf: &mut Vec<usize>,
    hooks: &mut H,
) -> (r: Result<(), GenerateError>)
    requires
        grammar_valid(*grammar),
        profile_valid(*profile),
        sym_ref_valid(*grammar, sym_ref),
        depth <= profile.max_depth,
        parent.0 < old(ctx).ast.nodes@.len(),
        old(ctx).total_nodes <= profile.max_total_nodes,
        old(reader).wf(),
    ensures
        final(reader).tape() == old(reader).tape(),
        final(reader).pos() >= old(reader).pos(),
        final(reader).wf(),
        dec_symref(*grammar, *profile, old(reader).tape(), sym_ref, parent, depth, st_of(*old(ctx), old(reader).pos(), *old(hooks)))
            == (st_of(*final(ctx), final(reader).pos(), *final(hooks)), r),
        r is Ok ==> final(ctx).total_nodes <= profile.max_total_nodes,
        final(ctx).ast.nodes@.len() >= old(ctx).ast.nodes@.len(),
    decreases dm(*profile, depth), 4nat, 0nat, 0nat,
{
    let ghost t = reader.tape();
    record_modifier(&sym_ref.modifier, profile, reader.offset(), &mut ctx.tape_map);
    let raw_count = resolve_modifier_dec(&sym_ref.modifier, profile, reader);
    let fits = symbol_fits_depth(grammar, sym_ref.symbol, depth, profile.max_depth);
    let count: u32 = if fits {
        raw_count
    } else {
        match sym_ref.modifier {
            Modifier::Once => 1,
            Modifier::Optional => 0,
            Modifier::ZeroOrMore { .. } => 0,
            Modifier::OneOrMore { min, .. } => if min >= 1 { min } else { 1 },
        }
    };
    let ghost st1 = st_of(*ctx, reader.pos(), *hooks);
    let ghost st0 = st_of(*old(ctx), old(reader).pos(), *old(hooks));
    assert(dec_symref(*grammar, *profile, t, sym_ref, parent, depth, st0)
        == dec_repeat(*grammar, *profile, t, sym_ref.symbol, parent, depth, count as nat, st1));
    let mut j: u32 = 0;
    while j < count
        invariant
            grammar_valid(*grammar),
            profile_valid(*profile),
            sym_ref_valid(*grammar, sym_ref),
            depth <= profile.max_depth,
            j <= count,
            t == old(reader).tape(),
            reader.tape() == t,
            reader.pos() >= old(reader).pos(),
            st0 == st_of(*old(ctx), old(reader).pos(), *old(hooks)),
            dec_symref(*grammar, *profile, t, sym_ref, parent, depth, st0)
                == dec_repeat(*grammar, *profile, t, sym_ref.symbol, parent, depth, count as nat, st1),
            reader.wf(),
            ctx.total_nodes <= profile.max_total_nodes,
            parent.0 < ctx.ast.nodes@.len(),
            ctx.ast.nodes@.len() >= old(ctx).ast.nodes@.len(),
            dec_repeat(*grammar, *profile, t, sym_ref.symbol, parent, depth, count as nat, st1)
                == dec_repeat(*grammar, *profile, t, sym_ref.symbol, parent, depth, (count - j) as nat, st_of(*ctx, reader.pos(), *hooks)),
        decreases count - j,
    {
        let ghost st_j = st_of(*ctx, reader.pos(), *hooks);
        let child = expand_symbol_dec(grammar, profile, sym_ref.symbol, depth, ctx, reader, eligible_buf, hooks);
        match child {
            Err(e) => {
                assert(dec_repeat(*grammar, *profile, t, sym_ref.symbol, parent, depth, (count - j) as nat, st_j)
                    == (st_of(*ctx, reader.pos(), *hooks), Err::<(), GenerateError>(e)));
                return Err(e);
            },
            Ok(c) => {
                ctx.ast.add_child(parent, c);
            },
        }
        j += 1;
    }
    Ok(())
}

/// One expansion of `sym_id` at depth `depth`.
fn expand_symbol_dec<H: SemanticHooks>(
    grammar: &GrammarIr,
    profile: &Profile,
    sym_id: SymbolId,
    depth: u32,
    ctx: &mut GenCtx,
    reader: &mut TapeReader<'_>,
    eligible_buf: &mut Vec<usize>,
    hooks: &mut H,
) -> (r: Result<NodeId, GenerateError>)
    requires
        grammar_valid(*grammar),
        profile_valid(*profile),
        sym_ref_valid(*grammar, SymbolRef { symbol: sym_id, modifier: Modifier::Once }),
        depth <= profile.max_depth,
        old(ctx).total_nodes <= profile.max_total_nodes,
        old(reader).wf(),
    ensures
        final(reader).tape() == old(reader).tape(),
        final(reader).pos() >= old(reader).pos(),
        final(reader).wf(),
        dec_symbol(*grammar, *profile, old(reader).tape(), sym_id, depth, st_of(*old(ctx), old(reader).pos(), *old(hooks)))
            == (st_of(*final(ctx), final(reader).pos(), *final(hooks)), r),
        r is Ok ==> final(ctx).total_nodes <= profile.max_total_nodes,
        final(ctx).ast.nodes@.len() >= old(ctx).ast.nodes@.len(),
    decreases dm(*profile, depth), 2nat, 0nat, 0nat,
{
    match &grammar.symbols[sym_id.0 as usize] {
        Symbol::Terminal(tk) => {
            let a = ctx.alloc_node(profile);
            if let Err(e) = a {
                return Err(e);
            }
            let bytes = emit_terminal_dec(grammar, tk, reader, hooks);
            Ok(ctx.ast.new_node(AstNodeKind::Terminal(bytes)))
        },
        Symbol::NonTerminal(pid) => {
            expand_production_dec(grammar, profile, *pid, depth, ctx, reader, eligible_buf, hooks)
        },
    }
}

/// The outcome of decoding `t` with hooks starting in state `h0` and ending in `h1`.
pub open spec fn decode_outcome<H: SemanticHooks>(g: GrammarIr, p: Profile, t: Seq<u8>, h0: H, h1: H, res: Result<(Ast, TapeMap), GenerateError>) -> bool {
    let (st, r) = dec_prod(g, p, t, g.start, 0, init_state(h0));
    &&& h1 == st.hooks
    &&& match r {
        Ok(root) => res matches Ok((ast, map)) && ast@ == (AstV { nodes: st.nodes, root })
            && map.entries@ == st.entries && map.modifier_bytes@ == st.mods,
        Err(e) => res matches Err(e2) && e2 == e,
    }
}

/// Decode a tree from a grammar using a pre-recorded tape, with semantic hooks.
pub fn decode_with_hooks<H: SemanticHooks>(grammar: &GrammarIr, profile: &Profile, tape: &[u8], hooks: &mut H) -> (res: Result<(Ast, TapeMap), GenerateError>)
    requires
        grammar_valid(*grammar),
        profile_valid(*profile),
    ensures
        decode_outcome(*grammar, *profile, tape@, *old(hooks), *final(hooks), res),
{
    let mut ctx = GenCtx::new();
    let mut reader = TapeReader::new(tape);
    let mut eligible_buf = Vec::new();
    assert(st_of(ctx, reader.pos(), *hooks) == init_state(*hooks));
    let root = expand_production_dec(grammar, profile, grammar.start, 0, &mut ctx, &mut reader, &mut eligible_buf, hooks);
    match root {
        Ok(root) => {
            ctx.ast.root = root;
            Ok((ctx.ast, ctx.tape_map))
        },
        Err(e) => Err(e),
    }
}

/// Decode a tree from a grammar using a pre-recorded tape.
pub fn decode(grammar: &GrammarIr, profile: &Profile, tape: &[u8]) -> (res: Result<(Ast, TapeMap), GenerateError>)
    requires
        grammar_valid(*grammar),
        profile_valid(*profile),
    ensures
        decode_outcome(*grammar, *profile, tape@, (), (), res),
{
    let mut unit = ();
    decode_with_hooks(grammar, profile, tape, &mut unit)
}

} // verus!
