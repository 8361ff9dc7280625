//! Generation: expanding a grammar by random decisions, recording each
//! decision on a tape so that decoding the tape reproduces the expansion.
use vstd::prelude::*;
use rand::rngs::SmallRng;
use crate::ids::{NodeId, PoolId, ProductionId, SymbolId};
use crate::grammar::{GrammarIr, Production, Alternative, SymbolRef, Modifier, Symbol, TerminalKind};
use crate::ast::{Ast, AstNodeKind, AstV};
use crate::tape::{TapeWriter, DecisionTape, wrote_choice, choose_spec, repetition_spec, byte_at, next_pos, extends, agrees,
    lemma_extends_trans, lemma_agrees_narrow, lemma_agrees_split, lemma_agrees_parts, lemma_extends_refl, lemma_wrote_extends,
    lemma_choice_roundtrip, lemma_repetition_roundtrip};
use crate::tape_map::TapeMap;
use crate::profile::{Profile, mode_byte_spec};
use crate::error::{GenerateError, BudgetKind};
use crate::hooks::SemanticHooks;
use crate::rng::{random_below, random_inclusive_u32, random_inclusive_u8, random_byte};
use crate::engine_spec::{DecState, init_state, symbol_at, production_at, class_upto, class_bytes, eligible_upto,
    eligible_spec, select_alt_spec, fits_spec, rep_range, record_modifier_spec, resolve_dec_spec, clamp_count_spec,
    emit_plain_dec, pool_syms_dec, pool_dec, emit_dec, dm, body_tail, nat_of, dec_prod, dec_body, dec_syms,
    dec_symref, dec_repeat, dec_symbol, sym_ref_valid, alt_valid, prod_valid, pool_valid, grammar_valid,
    profile_valid, max_u32, min_u32};
use crate::decode::{GenCtx, st_of, collect_char_class_bytes, eligible_alts, symbol_fits_depth, record_modifier,
    terminal_valid, one_byte, lemma_eligible_bounded, decode_outcome};

verus! {

// ── Preconditions ──

/// A repeating modifier whose range under the profile's cap is not empty and
/// fits in one tape byte.
pub open spec fn modifier_gen_ok(m: Modifier, cap: u32) -> bool {
    match m {
        Modifier::ZeroOrMore { .. } | Modifier::OneOrMore { .. } => {
            let (lo, hi) = rep_range(m, cap);
            lo <= hi && hi - lo < 256
        },
        _ => true,
    }
}

pub open spec fn alt_gen_ok(alt: Alternative, cap: u32) -> bool {
    forall|k: int| 0 <= k < alt.symbols@.len() ==> #[trigger] modifier_gen_ok(alt.symbols@[k].modifier, cap)
}

pub open spec fn prod_gen_ok(prod: Production, cap: u32) -> bool {
    forall|a: int| 0 <= a < prod.alternatives@.len() ==> #[trigger] alt_gen_ok(prod.alternatives@[a], cap)
}

/// A valid grammar and profile in which every repetition range is non-empty.
pub open spec fn generate_ready(g: GrammarIr, p: Profile) -> bool {
    &&& grammar_valid(g)
    &&& profile_valid(p)
    &&& forall|i: int| 0 <= i < g.productions@.len() ==> #[trigger] prod_gen_ok(g.productions@[i], p.repetition_bounds.1)
}

/// A modifier on which the depth-limited paths of generating and decoding agree.
pub open spec fn modifier_law_ok(m: Modifier) -> bool {
    match m {
        Modifier::ZeroOrMore { min, .. } => min == 0,
        _ => true,
    }
}

pub open spec fn alt_law_ok(alt: Alternative) -> bool {
    forall|k: int| 0 <= k < alt.symbols@.len() ==> #[trigger] modifier_law_ok(alt.symbols@[k].modifier)
}

/// At most 256 alternatives (one byte tells them apart) and no repetition with a positive minimum.
pub open spec fn prod_law_ok(prod: Production) -> bool {
    &&& prod.alternatives@.len() <= 256
    &&& forall|a: int| 0 <= a < prod.alternatives@.len() ==> #[trigger] alt_law_ok(prod.alternatives@[a])
}

/// Grammars on which a generated tape decodes to the generated tree.
pub open spec fn roundtrip_ready(g: GrammarIr) -> bool {
    forall|i: int| 0 <= i < g.productions@.len() ==> #[trigger] prod_law_ok(g.productions@[i])
}

proof fn lemma_class_len(ranges: Seq<(u8, u8)>, negated: bool, k: int)
    requires
        0 <= k,
    ensures
        class_upto(ranges, negated, k).len() <= k,
    decreases k,
{
    if k > 0 {
        lemma_class_len(ranges, negated, k - 1);
    }
}

// ── Modifiers ──

/// A random count for a modifier, recorded on the tape.
fn resolve_modifier_gen(modifier: &Modifier, profile: &Profile, writer: &mut TapeWriter, rng: &mut SmallRng) -> (c: u32)
    requires
        profile_valid(*profile),
        modifier_gen_ok(*modifier, profile.repetition_bounds.1),
    ensures
        extends(old(writer).bytes(), final(writer).bytes()),
        forall|t: Seq<u8>|
            #[trigger] agrees(t, final(writer).bytes(), old(writer).bytes().len() as int, final(writer).bytes().len() as int)
                ==> resolve_dec_spec(*modifier, profile.repetition_bounds.1, t, old(writer).bytes().len() as int)
                    == (c as int, final(writer).bytes().len() as int),
{
    let ghost w0 = writer.bytes();
    let ghost cap = profile.repetition_bounds.1;
    match modifier {
        Modifier::Once => {
            assert(w0.subrange(0, w0.len() as int) =~= w0);
            1
        },
        Modifier::Optional => {
            let chosen = random_below(rng, 2);
            writer.write_choice(chosen, 2, rng);
            proof {
                assert forall|t: Seq<u8>| #[trigger] agrees(t, writer.bytes(), w0.len() as int, writer.bytes().len() as int)
                    implies resolve_dec_spec(*modifier, cap, t, w0.len() as int) == (chosen as int, writer.bytes().len() as int) by {
                    lemma_choice_roundtrip(t, w0, writer.bytes(), chosen as int, 2);
                }
                lemma_choice_roundtrip(writer.bytes(), w0, writer.bytes(), chosen as int, 2);
            }
            chosen as u32
        },
        Modifier::ZeroOrMore { min, max } => {
            let hi = if *max <= profile.repetition_bounds.1 { *max } else { profile.repetition_bounds.1 };
            let count = random_inclusive_u32(rng, *min, hi);
            writer.write_repetition(count, *min, hi, rng);
            proof {
                {
                    assert forall|t: Seq<u8>| #[trigger] agrees(t, writer.bytes(), w0.len() as int, writer.bytes().len() as int)
                        implies resolve_dec_spec(*modifier, cap, t, w0.len() as int) == (count as int, writer.bytes().len() as int) by {
                        lemma_repetition_roundtrip(t, w0, writer.bytes(), count as int, *min as int, hi as int);
                    }
                }
                if *min >= hi {
                    assert(w0.subrange(0, w0.len() as int) =~= w0);
                } else {
                    assert(writer.bytes().subrange(0, w0.len() as int) == w0);
                }
            }
            count
        },
        Modifier::OneOrMore { min, max } => {
            let lo = if *min >= 1 { *min } else { 1 };
            let hi = if *max <= profile.repetition_bounds.1 { *max } else { profile.repetition_bounds.1 };
            let count = random_inclusive_u32(rng, lo, hi);
            writer.write_repetition(count, lo, hi, rng);
            proof {
                {
                    assert forall|t: Seq<u8>| #[trigger] agrees(t, writer.bytes(), w0.len() as int, writer.bytes().len() as int)
                        implies resolve_dec_spec(*modifier, cap, t, w0.len() as int) == (count as int, writer.bytes().len() as int) by {
                        lemma_repetition_roundtrip(t, w0, writer.bytes(), count as int, lo as int, hi as int);
                    }
                }
                if lo >= hi {
                    assert(w0.subrange(0, w0.len() as int) =~= w0);
                } else {
                    assert(writer.bytes().subrange(0, w0.len() as int) == w0);
                }
            }
            count
        },
    }
}

/// The fewest expansions a modifier allows, recorded on the tape; used when
/// the symbol does not fit the depth budget.
fn resolve_modifier_min(modifier: &Modifier, profile: &Profile, writer: &mut TapeWriter, rng: &mut SmallRng) -> (c: u32)
    requires
        profile_valid(*profile),
        modifier_gen_ok(*modifier, profile.repetition_bounds.1),
    ensures
        extends(old(writer).bytes(), final(writer).bytes()),
        modifier_law_ok(*modifier) ==> forall|t: Seq<u8>|
            #[trigger] agrees(t, final(writer).bytes(), old(writer).bytes().len() as int, final(writer).bytes().len() as int)
                ==> resolve_dec_spec(*modifier, profile.repetition_bounds.1, t, old(writer).bytes().len() as int).1
                    == final(writer).bytes().len() as int
                && clamp_count_spec(*modifier, resolve_dec_spec(*modifier, profile.repetition_bounds.1, t, old(writer).bytes().len() as int).0, false) == c,
{
    let ghost w0 = writer.bytes();
    let ghost cap = profile.repetition_bounds.1;
    match modifier {
        Modifier::Once => {
            assert(w0.subrange(0, w0.len() as int) =~= w0);
            1
        },
        Modifier::Optional => {
            writer.write_choice(0, 2, rng);
            proof {
                assert forall|t: Seq<u8>| #[trigger] agrees(t, writer.bytes(), w0.len() as int, writer.bytes().len() as int)
                    implies resolve_dec_spec(*modifier, cap, t, w0.len() as int).1 == writer.bytes().len() as int by {
                    lemma_choice_roundtrip(t, w0, writer.bytes(), 0, 2);
                }
                lemma_choice_roundtrip(writer.bytes(), w0, writer.bytes(), 0, 2);
            }
            0
        },
        Modifier::ZeroOrMore { min, max } => {
            let hi = if *max <= profile.repetition_bounds.1 { *max } else { profile.repetition_bounds.1 };
            let count = *min;
            writer.write_repetition(count, *min, hi, rng);
            proof {
                {
                    assert forall|t: Seq<u8>| #[trigger] agrees(t, writer.bytes(), w0.len() as int, writer.bytes().len() as int)
                        implies resolve_dec_spec(*modifier, cap, t, w0.len() as int).1 == writer.bytes().len() as int by {
                        lemma_repetition_roundtrip(t, w0, writer.bytes(), count as int, *min as int, hi as int);
                    }
                }
                if *min >= hi {
                    assert(w0.subrange(0, w0.len() as int) =~= w0);
                } else {
                    assert(writer.bytes().subrange(0, w0.len() as int) == w0);
                }
            }
            count
        },
        Modifier::OneOrMore { min, max } => {
            let lo = if *min >= 1 { *min } else { 1 };
            let hi = if *max <= profile.repetition_bounds.1 { *max } else { profile.repetition_bounds.1 };
            writer.write_repetition(lo, lo, hi, rng);
            proof {
                {
                    assert forall|t: Seq<u8>| #[trigger] agrees(t, writer.bytes(), w0.len() as int, writer.bytes().len() as int)
                        implies resolve_dec_spec(*modifier, cap, t, w0.len() as int).1 == writer.bytes().len() as int by {
                        lemma_repetition_roundtrip(t, w0, writer.bytes(), lo as int, lo as int, hi as int);
                    }
                }
                if lo >= hi {
                    assert(w0.subrange(0, w0.len() as int) =~= w0);
                } else {
                    assert(writer.bytes().subrange(0, w0.len() as int) == w0);
                }
            }
            lo
        },
    }
}


// ── Terminals ──

/// Terminal expansion without hooks, for mechanical token pool expansion.
fn emit_terminal_gen_no_hooks(tk: &TerminalKind, writer: &mut TapeWriter, rng: &mut SmallRng) -> (bytes: Vec<u8>)
    requires
        terminal_valid(*tk),
    ensures
        extends(old(writer).bytes(), final(writer).bytes()),
        forall|t: Seq<u8>|
            #[trigger] agrees(t, final(writer).bytes(), old(writer).bytes().len() as int, final(writer).bytes().len() as int)
                ==> emit_plain_dec(*tk, t, old(writer).bytes().len() as int) == (bytes@, final(writer).bytes().len() as int),
{
    let ghost w0 = writer.bytes();
    match tk {
        TerminalKind::Literal(b) => {
            assert(w0.subrange(0, w0.len() as int) =~= w0);
            b.clone()
        },
        TerminalKind::CharClass { ranges, negated } => {
            let valid_bytes = collect_char_class_bytes(ranges.as_slice(), *negated);
            if valid_bytes.len() == 0 {
                writer.write_choice(0, 1, rng);
                assert(w0.subrange(0, w0.len() as int) =~= w0);
                return one_byte(0);
            }
            proof {
                lemma_class_len(ranges@, *negated, 256);
            }
            let idx = random_below(rng, valid_bytes.len());
            writer.write_choice(idx, valid_bytes.len(), rng);
            proof {
                assert forall|t: Seq<u8>| #[trigger] agrees(t, writer.bytes(), w0.len() as int, writer.bytes().len() as int)
                    implies choose_spec(t, w0.len() as int, valid_bytes@.len() as int) == (idx as int, writer.bytes().len() as int) by {
                    lemma_choice_roundtrip(t, w0, writer.bytes(), idx as int, valid_bytes@.len() as int);
                }
                lemma_choice_roundtrip(writer.bytes(), w0, writer.bytes(), idx as int, valid_bytes@.len() as int);
            }
            one_byte(valid_bytes[idx])
        },
        TerminalKind::AnyByte => {
            let byte = random_inclusive_u8(rng, 0, 255);
            writer.write_choice(byte as usize, 256, rng);
            proof {
                assert forall|t: Seq<u8>| #[trigger] agrees(t, writer.bytes(), w0.len() as int, writer.bytes().len() as int)
                    implies choose_spec(t, w0.len() as int, 256) == (byte as int, writer.bytes().len() as int) by {
                    lemma_choice_roundtrip(t, w0, writer.bytes(), byte as int, 256);
                }
                lemma_choice_roundtrip(writer.bytes(), w0, writer.bytes(), byte as int, 256);
            }
            one_byte(byte)
        },
        TerminalKind::ByteRange(lo, hi) => {
            let range = (*hi as usize - *lo as usize) + 1;
            let idx = random_below(rng, range);
            writer.write_choice(idx, range, rng);
            proof {
                assert forall|t: Seq<u8>| #[trigger] agrees(t, writer.bytes(), w0.len() as int, writer.bytes().len() as int)
                    implies choose_spec(t, w0.len() as int, range as int) == (idx as int, writer.bytes().len() as int) by {
                    lemma_choice_roundtrip(t, w0, writer.bytes(), idx as int, range as int);
                }
                lemma_choice_roundtrip(writer.bytes(), w0, writer.bytes(), idx as int, range as int);
            }
            one_byte(*lo + idx as u8)
        },
        TerminalKind::TokenPool(_) => {
            assert(w0.subrange(0, w0.len() as int) =~= w0);
            Vec::new()
        },
    }
}

/// Mechanically expand a token pool entry: the alternative picked by the tape byte.
fn expand_token_pool_gen(grammar: &GrammarIr, pool_id: PoolId, tape_byte: u8, writer: &mut TapeWriter, rng: &mut SmallRng) -> (bytes: Vec<u8>)
    requires
        grammar_valid(*grammar),
    ensures
        extends(old(writer).bytes(), final(writer).bytes()),
        forall|t: Seq<u8>|
            #[trigger] agrees(t, final(writer).bytes(), old(writer).bytes().len() as int, final(writer).bytes().len() as int)
                ==> pool_dec(*grammar, pool_id, tape_byte, t, old(writer).bytes().len() as int) == (bytes@, final(writer).bytes().len() as int),
{
    let ghost w0 = writer.bytes();
    let pool_idx = pool_id.0 as usize;
    if pool_idx >= grammar.token_pools.len() {
        assert(w0.subrange(0, w0.len() as int) =~= w0);
        return Vec::new();
    }
    let pool = &grammar.token_pools[pool_idx];
    if pool.alternatives.len() == 0 {
        assert(w0.subrange(0, w0.len() as int) =~= w0);
        return Vec::new();
    }
    let alt_idx = tape_byte as usize % pool.alternatives.len();
    let alt = &pool.alternatives[alt_idx];
    assert(pool_valid(*grammar, grammar.token_pools@[pool_idx as int]));
    assert(alt_valid(*grammar, pool.alternatives@[alt_idx as int]));
    let ghost syms = alt.symbols@;
    let mut result = Vec::new();
    let n = alt.symbols.len();
    assert(w0.subrange(0, w0.len() as int) =~= w0);
    for i in 0..n
        invariant
            n == syms.len(),
            syms == alt.symbols@,
            alt_valid(*grammar, *alt),
            w0 == old(writer).bytes(),
            extends(w0, writer.bytes()),
            forall|t: Seq<u8>|
                #[trigger] agrees(t, writer.bytes(), w0.len() as int, writer.bytes().len() as int)
                    ==> pool_syms_dec(*grammar, syms, 0, t, w0.len() as int, seq![])
                        == pool_syms_dec(*grammar, syms, i as int, t, writer.bytes().len() as int, result@),
    {
        let sr = alt.symbols[i];
        assert(sym_ref_valid(*grammar, syms[i as int]));
        let ghost wa = writer.bytes();
        let ghost ra = result@;
        match &grammar.symbols[sr.symbol.0 as usize] {
            Symbol::Terminal(tk) => {
                let bytes = emit_terminal_gen_no_hooks(tk, writer, rng);
                result.extend_from_slice(bytes.as_slice());
                assert(result@ =~= ra + bytes@);
                proof {
                    let wb = writer.bytes();
                    lemma_extends_trans(w0, wa, wb);
                    assert forall|t: Seq<u8>| #[trigger] agrees(t, wb, w0.len() as int, wb.len() as int)
                        implies pool_syms_dec(*grammar, syms, 0, t, w0.len() as int, seq![])
                            == pool_syms_dec(*grammar, syms, i + 1, t, wb.len() as int, result@) by {
                        lemma_agrees_split(t, wb, w0.len() as int, wa.len() as int, wb.len() as int);
                        lemma_agrees_narrow(t, wa, wb, w0.len() as int, wa.len() as int);
                    }
                }
            },
            Symbol::NonTerminal(_) => {
                assert(wa.subrange(0, wa.len() as int) =~= wa);
            },
        }
    }
    result
}

/// Terminal expansion with hooks: a token pool asks the hooks first.
fn emit_terminal_gen<H: SemanticHooks>(grammar: &GrammarIr, tk: &TerminalKind, writer: &mut TapeWriter, rng: &mut SmallRng, hooks: &mut H) -> (bytes: Vec<u8>)
    requires
        grammar_valid(*grammar),
        terminal_valid(*tk),
    ensures
        extends(old(writer).bytes(), final(writer).bytes()),
        forall|t: Seq<u8>|
            #[trigger] agrees(t, final(writer).bytes(), old(writer).bytes().len() as int, final(writer).bytes().len() as int)
                ==> emit_dec(*grammar, *tk, t, old(writer).bytes().len() as int, *old(hooks))
                    == (bytes@, final(writer).bytes().len() as int, *final(hooks)),
{
    let ghost w0 = writer.bytes();
    match tk {
        TerminalKind::TokenPool(pool_id) => {
            let tape_byte = random_byte(rng);
            writer.write_choice(tape_byte as usize, 256, rng);
            let ghost w1 = writer.bytes();
            proof {
                lemma_choice_roundtrip(w1, w0, w1, tape_byte as int, 256);
            }
            let r = hooks.on_token_pool(*pool_id, tape_byte);
            match r {
                Some(bytes) => {
                    proof {
                        assert forall|t: Seq<u8>| #[trigger] agrees(t, w1, w0.len() as int, w1.len() as int)
                            implies choose_spec(t, w0.len() as int, 256) == (tape_byte as int, w1.len() as int) by {
                            lemma_choice_roundtrip(t, w0, w1, tape_byte as int, 256);
                        }
                    }
                    bytes
                },
                None => {
                    let bytes = expand_token_pool_gen(grammar, *pool_id, tape_byte, writer, rng);
                    proof {
                        let w2 = writer.bytes();
                        lemma_extends_trans(w0, w1, w2);
                        assert forall|t: Seq<u8>| #[trigger] agrees(t, w2, w0.len() as int, w2.len() as int)
                            implies emit_dec(*grammar, *tk, t, w0.len() as int, *old(hooks))
                                == (bytes@, w2.len() as int, *hooks) by {
                            lemma_agrees_split(t, w2, w0.len() as int, w1.len() as int, w2.len() as int);
                            lemma_agrees_narrow(t, w1, w2, w0.len() as int, w1.len() as int);
                            lemma_choice_roundtrip(t, w0, w1, tape_byte as int, 256);
                        }
                    }
                    bytes
                },
            }
        },
        _ => emit_terminal_gen_no_hooks(tk, writer, rng),
    }
}

// ── Productions and symbols ──

/// Every tape holding the bytes written between `w0` and `w1` decodes
/// production `pid` at depth `d` from the state before to the state after.
pub open spec fn replays_prod<H: SemanticHooks>(g: GrammarIr, p: Profile, pid: ProductionId, d: u32,
    c0: GenCtx, w0: Seq<u8>, h0: H, c1: GenCtx, w1: Seq<u8>, h1: H, r: Result<NodeId, GenerateError>) -> bool {
    forall|t: Seq<u8>| #[trigger] agrees(t, w1, w0.len() as int, w1.len() as int)
        ==> dec_prod(g, p, t, pid, d, st_of(c0, w0.len() as int, h0)) == (st_of(c1, w1.len() as int, h1), r)
}

/// As [`replays_prod`], for the chosen alternative of a production.
pub open spec fn replays_body<H: SemanticHooks>(g: GrammarIr, p: Profile, pid: ProductionId, d: u32,
    c0: GenCtx, w0: Seq<u8>, h0: H, c1: GenCtx, w1: Seq<u8>, h1: H, r: Result<NodeId, GenerateError>) -> bool {
    forall|t: Seq<u8>| #[trigger] agrees(t, w1, w0.len() as int, w1.len() as int)
        ==> dec_body(g, p, t, pid, d, st_of(c0, w0.len() as int, h0)) == (st_of(c1, w1.len() as int, h1), r)
}

/// As [`replays_prod`], for one symbol reference under `parent`.
pub open spec fn replays_symref<H: SemanticHooks>(g: GrammarIr, p: Profile, sr: SymbolRef, parent: NodeId, d: u32,
    c0: GenCtx, w0: Seq<u8>, h0: H, c1: GenCtx, w1: Seq<u8>, h1: H, r: Result<(), GenerateError>) -> bool {
    forall|t: Seq<u8>| #[trigger] agrees(t, w1, w0.len() as int, w1.len() as int)
        ==> dec_symref(g, p, t, sr, parent, d, st_of(c0, w0.len() as int, h0)) == (st_of(c1, w1.len() as int, h1), r)
}

/// As [`replays_prod`], for one expansion of a symbol.
pub open spec fn replays_symbol<H: SemanticHooks>(g: GrammarIr, p: Profile, sym: SymbolId, d: u32,
    c0: GenCtx, w0: Seq<u8>, h0: H, c1: GenCtx, w1: Seq<u8>, h1: H, r: Result<NodeId, GenerateError>) -> bool {
    forall|t: Seq<u8>| #[trigger] agrees(t, w1, w0.len() as int, w1.len() as int)
        ==> dec_symbol(g, p, t, sym, d, st_of(c0, w0.len() as int, h0)) == (st_of(c1, w1.len() as int, h1), r)
}

/// Generate production `prod_id` at depth `depth`.
fn expand_production_gen<H: SemanticHooks>(
    grammar: &GrammarIr,
    profile: &Profile,
    prod_id: ProductionId,
    depth: u32,
    ctx: &mut GenCtx,
    writer: &mut TapeWriter,
    rng: &mut SmallRng,
    eligible_buf: &mut Vec<usize>,
    hooks: &mut H,
) -> (r: Result<NodeId, GenerateError>)
    requires
        generate_ready(*grammar, *profile),
        prod_id.0 < grammar.productions@.len(),
        old(ctx).total_nodes <= profile.max_total_nodes,
    ensures
        extends(old(writer).bytes(), final(writer).bytes()),
        r is Ok ==> final(ctx).total_nodes <= profile.max_total_nodes,
        final(ctx).ast.nodes@.len() >= old(ctx).ast.nodes@.len(),
        roundtrip_ready(*grammar) ==> replays_prod(*grammar, *profile, prod_id, depth,
            *old(ctx), old(writer).bytes(), *old(hooks), *final(ctx), final(writer).bytes(), *final(hooks), r),
    decreases dm(*profile, depth), 1nat, 0nat, 0nat,
{
    let ghost w0 = writer.bytes();
    if depth >= profile.max_depth {
        proof { lemma_extends_refl(w0); }
        return Err(GenerateError::BudgetExhausted { kind: BudgetKind::MaxDepth });
    }
    let a = ctx.alloc_node(profile);
    if let Err(e) = a {
        proof { lemma_extends_refl(w0); }
        return Err(e);
    }
    hooks.enter_production(prod_id);
    let ghost c1 = *ctx;
    let ghost h1 = *hooks;
    let prod = &grammar.productions[prod_id.0 as usize];
    if let Some(hook_name) = &prod.attrs.semantic_hook {
        let tape_byte = random_byte(rng);
        writer.write_choice(tape_byte as usize, 256, rng);
        let ghost w1 = writer.bytes();
        proof {
            lemma_choice_roundtrip(w1, w0, w1, tape_byte as int, 256);
        }
        let r = hooks.on_production(hook_name.as_str(), tape_byte, prod_id);
        if let Some(bytes) = r {
            let tape_start = writer.offset() - 1;
            let node_id = ctx.ast.new_node(AstNodeKind::Terminal(bytes));
            let prod_node = ctx.ast.new_node(AstNodeKind::Production(prod_id));
            ctx.ast.add_child(prod_node, node_id);
            ctx.tape_map.push(tape_start, 1, prod_node, prod_id);
            hooks.exit_production(prod_id);
            proof {
                assert forall|t: Seq<u8>| #[trigger] agrees(t, w1, w0.len() as int, w1.len() as int)
                    implies choose_spec(t, w0.len() as int, 256) == (tape_byte as int, w1.len() as int) by {
                    lemma_choice_roundtrip(t, w0, w1, tape_byte as int, 256);
                }
            }
            return Ok(prod_node);
        }
        let ghost h2 = *hooks;
        let ghost c2 = *ctx;
        let r = expand_body_gen(grammar, profile, prod_id, depth, ctx, writer, rng, eligible_buf, hooks);
        proof {
            let w2 = writer.bytes();
            lemma_extends_trans(w0, w1, w2);
            if roundtrip_ready(*grammar) {
                assert forall|t: Seq<u8>| #[trigger] agrees(t, w2, w0.len() as int, w2.len() as int)
                    implies dec_prod(*grammar, *profile, t, prod_id, depth, st_of(*old(ctx), w0.len() as int, *old(hooks)))
                        == (st_of(*ctx, w2.len() as int, *hooks), r) by {
                    lemma_agrees_parts(t, w0, w1, w2);
                    lemma_choice_roundtrip(t, w0, w1, tape_byte as int, 256);
                    assert(agrees(t, w2, w1.len() as int, w2.len() as int));
                }
            }
        }
        return r;
    }
    expand_body_gen(grammar, profile, prod_id, depth, ctx, writer, rng, eligible_buf, hooks)
}

/// Generate the chosen alternative of `prod_id` at depth `depth < max_depth`.
fn expand_body_gen<H: SemanticHooks>(
    grammar: &GrammarIr,
    profile: &Profile,
    prod_id: ProductionId,
    depth: u32,
    ctx: &mut GenCtx,
    writer: &mut TapeWriter,
    rng: &mut SmallRng,
    eligible_buf: &mut Vec<usize>,
    hooks: &mut H,
) -> (r: Result<NodeId, GenerateError>)
    requires
        generate_ready(*grammar, *profile),
        prod_id.0 < grammar.productions@.len(),
        depth < profile.max_depth,
        old(ctx).total_nodes <= profile.max_total_nodes,
    ensures
        extends(old(writer).bytes(), final(writer).bytes()),
        r is Ok ==> final(ctx).total_nodes <= profile.max_total_nodes,
        final(ctx).ast.nodes@.len() >= old(ctx).ast.nodes@.len(),
        roundtrip_ready(*grammar) ==> replays_body(*grammar, *profile, prod_id, depth,
            *old(ctx), old(writer).bytes(), *old(hooks), *final(ctx), final(writer).bytes(), *final(hooks), r),
    decreases dm(*profile, depth), 0nat, 0nat, 0nat,
{
    let ghost w0 = writer.bytes();
    let ghost g = *grammar;
    let ghost p = *profile;
    let prod = &grammar.productions[prod_id.0 as usize];
    assert(prod_valid(*grammar, grammar.productions@[prod_id.0 as int]));
    assert(prod_gen_ok(grammar.productions@[prod_id.0 as int], profile.repetition_bounds.1));
    let remaining = profile.max_depth - depth - 1;
    let n_alts = prod.alternatives.len();
    eligible_alts(grammar, prod, remaining, eligible_buf);
    proof {
        lemma_eligible_bounded(*grammar, prod.alternatives@, remaining, n_alts as int);
    }
    let ghost elig = eligible_buf@;
    let tape_start = writer.offset();
    let alt_idx = if eligible_buf.len() == 0 {
        let chosen = random_below(rng, n_alts);
        writer.write_choice(chosen, n_alts, rng);
        chosen
    } else {
        let chosen_eligible = random_below(rng, eligible_buf.len());
        let a = eligible_buf[chosen_eligible];
        assert(elig.contains(a));
        writer.write_choice(a, n_alts, rng);
        a
    };
    let ghost w1 = writer.bytes();
    proof {
        lemma_wrote_extends(w0, w1, alt_idx as int, n_alts as int);
        assert(select_alt_spec(alt_idx as int, elig) == alt_idx as int);
    }
    let node_id = ctx.ast.new_node(AstNodeKind::Production(prod_id));
    assert(alt_valid(*grammar, prod.alternatives@[alt_idx as int]));
    assert(alt_gen_ok(prod.alternatives@[alt_idx as int], profile.repetition_bounds.1));
    let n_syms = prod.alternatives[alt_idx].symbols.len();
    let ghost syms = prod.alternatives@[alt_idx as int].symbols@;
    let ghost st1 = st_of(*ctx, w1.len() as int, *hooks);
    let d1 = depth + 1;
    proof {
        if roundtrip_ready(g) {
            assert(prod_law_ok(grammar.productions@[prod_id.0 as int]));
            assert forall|t: Seq<u8>| #[trigger] agrees(t, w1, w0.len() as int, w1.len() as int)
                implies dec_body(g, p, t, prod_id, depth, st_of(*old(ctx), w0.len() as int, *old(hooks))) == ({
                    let (st2, rr) = dec_syms(g, p, t, syms, 0, node_id, d1, st1);
                    body_tail(st2, rr, tape_start as int, node_id, prod_id)
                }) by {
                lemma_choice_roundtrip(t, w0, w1, alt_idx as int, n_alts as int);
            }
        }
        lemma_extends_refl(w1);
    }
    for i in 0..n_syms
        invariant
            generate_ready(g, p),
            g == *grammar,
            p == *profile,
            n_syms == syms.len(),
            syms == grammar.productions@[prod_id.0 as int].alternatives@[alt_idx as int].symbols@,
            alt_valid(g, grammar.productions@[prod_id.0 as int].alternatives@[alt_idx as int]),
            alt_gen_ok(grammar.productions@[prod_id.0 as int].alternatives@[alt_idx as int], p.repetition_bounds.1),
            roundtrip_ready(g) ==> alt_law_ok(grammar.productions@[prod_id.0 as int].alternatives@[alt_idx as int]),
            prod_id.0 < grammar.productions@.len(),
            alt_idx < grammar.productions@[prod_id.0 as int].alternatives@.len(),
            roundtrip_ready(g) ==> forall|t: Seq<u8>| #[trigger] agrees(t, w1, w0.len() as int, w1.len() as int)
                ==> dec_body(g, p, t, prod_id, depth, st_of(*old(ctx), w0.len() as int, *old(hooks))) == ({
                    let (st2, rr) = dec_syms(g, p, t, syms, 0, node_id, d1, st1);
                    body_tail(st2, rr, tape_start as int, node_id, prod_id)
                }),
            tape_start == w0.len(),
            d1 == depth + 1,
            d1 <= profile.max_depth,
            extends(w0, w1),
            extends(w1, writer.bytes()),
            w0 == old(writer).bytes(),
            ctx.total_nodes <= profile.max_total_nodes,
            node_id.0 < ctx.ast.nodes@.len(),
            ctx.ast.nodes@.len() >= old(ctx).ast.nodes@.len(),
            roundtrip_ready(g) ==> forall|t: Seq<u8>| #[trigger] agrees(t, writer.bytes(), w1.len() as int, writer.bytes().len() as int)
                ==> dec_syms(g, p, t, syms, 0, node_id, d1, st1)
                    == dec_syms(g, p, t, syms, i as int, node_id, d1, st_of(*ctx, writer.bytes().len() as int, *hooks)),
    {
        let sym_ref = grammar.productions[prod_id.0 as usize].alternatives[alt_idx].symbols[i];
        assert(sym_ref_valid(g, syms[i as int]));
        assert(modifier_gen_ok(syms[i as int].modifier, p.repetition_bounds.1));
        let ghost wi = writer.bytes();
        let ghost ci = *ctx;
        let ghost hi = *hooks;
        let r = expand_symbol_ref_gen(grammar, profile, sym_ref, node_id, d1, ctx, writer, rng, eligible_buf, hooks);
        proof {
            let wj = writer.bytes();
            lemma_extends_trans(w1, wi, wj);
            if roundtrip_ready(g) {
                assert(modifier_law_ok(syms[i as int].modifier));
                assert forall|t: Seq<u8>| #[trigger] agrees(t, wj, w1.len() as int, wj.len() as int)
                    implies dec_syms(g, p, t, syms, 0, node_id, d1, st1)
                        == dec_syms(g, p, t, syms, i as int, node_id, d1, st_of(ci, wi.len() as int, hi))
                    && dec_symref(g, p, t, sym_ref, node_id, d1, st_of(ci, wi.len() as int, hi))
                        == (st_of(*ctx, wj.len() as int, *hooks), r) by {
                    lemma_agrees_parts(t, w1, wi, wj);
                }
            }
        }
        if let Err(e) = r {
            proof {
                let wj = writer.bytes();
                lemma_extends_trans(w0, w1, wj);
                if roundtrip_ready(g) {
                    assert forall|t: Seq<u8>| #[trigger] agrees(t, wj, w0.len() as int, wj.len() as int)
                        implies dec_body(g, p, t, prod_id, depth, st_of(*old(ctx), w0.len() as int, *old(hooks)))
                            == (st_of(*ctx, wj.len() as int, *hooks), Err::<NodeId, GenerateError>(e)) by {
                        lemma_agrees_parts(t, w0, w1, wj);
                        assert(dec_syms(g, p, t, syms, i as int, node_id, d1, st_of(ci, wi.len() as int, hi))
                            == (st_of(*ctx, wj.len() as int, *hooks), Err::<(), GenerateError>(e)));
                    }
                }
            }
            return Err(e);
        }
    }
    let ghost wf = writer.bytes();
    let ghost cf = *ctx;
    let ghost hf = *hooks;
    ctx.tape_map.push(tape_start, writer.offset() - tape_start, node_id, prod_id);
    hooks.exit_production(prod_id);
    proof {
        lemma_extends_trans(w0, w1, wf);
        if roundtrip_ready(g) {
            assert forall|t: Seq<u8>| #[trigger] agrees(t, wf, w0.len() as int, wf.len() as int)
                implies dec_body(g, p, t, prod_id, depth, st_of(*old(ctx), w0.len() as int, *old(hooks)))
                    == (st_of(*ctx, wf.len() as int, *hooks), Ok::<NodeId, GenerateError>(node_id)) by {
                lemma_agrees_parts(t, w0, w1, wf);
                assert(dec_syms(g, p, t, syms, n_syms as int, node_id, d1, st_of(cf, wf.len() as int, hf))
                    == (st_of(cf, wf.len() as int, hf), Ok::<(), GenerateError>(())));
            }
        }
    }
    Ok(node_id)
}

/// Generate one symbol reference: a count for its modifier, then that many expansions.
fn expand_symbol_ref_gen<H: SemanticHooks>(
    grammar: &GrammarIr,
    profile: &Profile,
    sym_ref: SymbolRef,
    parent: NodeId,
    depth: u32,
    ctx: &mut GenCtx,
    writer: &mut TapeWriter,
    rng: &mut SmallRng,
    eligible_buf: &mut Vec<usize>,
    hooks: &mut H,
) -> (r: Result<(), GenerateError>)
    requires
        generate_ready(*grammar, *profile),
        sym_ref_valid(*grammar, sym_ref),
        modifier_gen_ok(sym_ref.modifier, profile.repetition_bounds.1),
        depth <= profile.max_depth,
        parent.0 < old(ctx).ast.nodes@.len(),
        old(ctx).total_nodes <= profile.max_total_nodes,
    ensures
        extends(old(writer).bytes(), final(writer).bytes()),
        r is Ok ==> final(ctx).total_nodes <= profile.max_total_nodes,
        final(ctx).ast.nodes@.len() >= old(ctx).ast.nodes@.len(),
        roundtrip_ready(*grammar) && modifier_law_ok(sym_ref.modifier) ==> replays_symref(*grammar, *profile, sym_ref, parent, depth,
            *old(ctx), old(writer).bytes(), *old(hooks), *final(ctx), final(writer).bytes(), *final(hooks), r),
    decreases dm(*profile, depth), 4nat, 0nat, 0nat,
{
    let ghost w0 = writer.bytes();
    let ghost g = *grammar;
    let ghost p = *profile;
    record_modifier(&sym_ref.modifier, profile, writer.offset(), &mut ctx.tape_map);
    let fits = symbol_fits_depth(grammar, sym_ref.symbol, depth, profile.max_depth);
    let count = if fits {
        resolve_modifier_gen(&sym_ref.modifier, profile, writer, rng)
    } else {
        resolve_modifier_min(&sym_ref.modifier, profile, writer, rng)
    };
    let ghost w1 = writer.bytes();
    let ghost st1 = st_of(*ctx, w1.len() as int, *hooks);
    proof {
        if roundtrip_ready(g) && modifier_law_ok(sym_ref.modifier) {
            assert forall|t: Seq<u8>| #[trigger] agrees(t, w1, w0.len() as int, w1.len() as int)
                implies dec_symref(g, p, t, sym_ref, parent, depth, st_of(*old(ctx), w0.len() as int, *old(hooks)))
                    == dec_repeat(g, p, t, sym_ref.symbol, parent, depth, count as nat, st1) by {
            }
        }
        lemma_extends_refl(w1);
    }
    let mut j: u32 = 0;
    while j < count
        invariant
            generate_ready(g, p),
            g == *grammar,
            p == *profile,
            sym_ref_valid(g, sym_ref),
            depth <= profile.max_depth,
            j <= count,
            roundtrip_ready(g) && modifier_law_ok(sym_ref.modifier) ==> forall|t: Seq<u8>| #[trigger] agrees(t, w1, w0.len() as int, w1.len() as int)
                ==> dec_symref(g, p, t, sym_ref, parent, depth, st_of(*old(ctx), w0.len() as int, *old(hooks)))
                    == dec_repeat(g, p, t, sym_ref.symbol, parent, depth, count as nat, st1),
            extends(w0, w1),
            extends(w1, writer.bytes()),
            w0 == old(writer).bytes(),
            ctx.total_nodes <= profile.max_total_nodes,
            parent.0 < ctx.ast.nodes@.len(),
            ctx.ast.nodes@.len() >= old(ctx).ast.nodes@.len(),
            roundtrip_ready(g) && modifier_law_ok(sym_ref.modifier) ==> forall|t: Seq<u8>| #[trigger] agrees(t, writer.bytes(), w1.len() as int, writer.bytes().len() as int)
                ==> dec_repeat(g, p, t, sym_ref.symbol, parent, depth, count as nat, st1)
                    == dec_repeat(g, p, t, sym_ref.symbol, parent, depth, (count - j) as nat, st_of(*ctx, writer.bytes().len() as int, *hooks)),
        decreases count - j,
    {
        let ghost wi = writer.bytes();
        let ghost ci = *ctx;
        let ghost hi = *hooks;
        let child = expand_symbol_gen(grammar, profile, sym_ref.symbol, depth, ctx, writer, rng, eligible_buf, hooks);
        let ghost wj = writer.bytes();
        proof {
            lemma_extends_trans(w1, wi, wj);
        }
        match child {
            Err(e) => {
                proof {
                    lemma_extends_trans(w0, w1, wj);
                    if roundtrip_ready(g) && modifier_law_ok(sym_ref.modifier) {
                        assert forall|t: Seq<u8>| #[trigger] agrees(t, wj, w0.len() as int, wj.len() as int)
                            implies dec_symref(g, p, t, sym_ref, parent, depth, st_of(*old(ctx), w0.len() as int, *old(hooks)))
                                == (st_of(*ctx, wj.len() as int, *hooks), Err::<(), GenerateError>(e)) by {
                            lemma_agrees_parts(t, w0, w1, wj);
                            lemma_agrees_parts(t, w1, wi, wj);
                            assert(dec_symbol(g, p, t, sym_ref.symbol, depth, st_of(ci, wi.len() as int, hi))
                                == (st_of(*ctx, wj.len() as int, *hooks), Err::<NodeId, GenerateError>(e)));
                        }
                    }
                }
                return Err(e);
            },
            Ok(c) => {
                let ghost cm = *ctx;
                ctx.ast.add_child(parent, c);
                proof {
                    if roundtrip_ready(g) && modifier_law_ok(sym_ref.modifier) {
                        assert forall|t: Seq<u8>| #[trigger] agrees(t, wj, w1.len() as int, wj.len() as int)
                            implies dec_repeat(g, p, t, sym_ref.symbol, parent, depth, count as nat, st1)
                                == dec_repeat(g, p, t, sym_ref.symbol, parent, depth, (count - (j + 1)) as nat, st_of(*ctx, wj.len() as int, *hooks)) by {
                            lemma_agrees_parts(t, w1, wi, wj);
                            assert(dec_symbol(g, p, t, sym_ref.symbol, depth, st_of(ci, wi.len() as int, hi))
                                == (st_of(cm, wj.len() as int, *hooks), Ok::<NodeId, GenerateError>(c)));
                        }
                    }
                }
            },
        }
        j += 1;
    }
    proof {
        lemma_extends_trans(w0, w1, writer.bytes());
        if roundtrip_ready(g) && modifier_law_ok(sym_ref.modifier) {
            let wf = writer.bytes();
            assert forall|t: Seq<u8>| #[trigger] agrees(t, wf, w0.len() as int, wf.len() as int)
                implies dec_symref(g, p, t, sym_ref, parent, depth, st_of(*old(ctx), w0.len() as int, *old(hooks)))
                    == (st_of(*ctx, wf.len() as int, *hooks), Ok::<(), GenerateError>(())) by {
                lemma_agrees_parts(t, w0, w1, wf);
            }
        }
    }
    Ok(())
}

/// Generate one expansion of `sym_id` at depth `depth`.
fn expand_symbol_gen<H: SemanticHooks>(
    grammar: &GrammarIr,
    profile: &Profile,
    sym_id: SymbolId,
    depth: u32,
    ctx: &mut GenCtx,
    writer: &mut TapeWriter,
    rng: &mut SmallRng,
    eligible_buf: &mut Vec<usize>,
    hooks: &mut H,
) -> (r: Result<NodeId, GenerateError>)
    requires
        generate_ready(*grammar, *profile),
        sym_ref_valid(*grammar, SymbolRef { symbol: sym_id, modifier: Modifier::Once }),
        depth <= profile.max_depth,
        old(ctx).total_nodes <= profile.max_total_nodes,
    ensures
        extends(old(writer).bytes(), final(writer).bytes()),
        r is Ok ==> final(ctx).total_nodes <= profile.max_total_nodes,
        final(ctx).ast.nodes@.len() >= old(ctx).ast.nodes@.len(),
        roundtrip_ready(*grammar) ==> replays_symbol(*grammar, *profile, sym_id, depth,
            *old(ctx), old(writer).bytes(), *old(hooks), *final(ctx), final(writer).bytes(), *final(hooks), r),
    decreases dm(*profile, depth), 2nat, 0nat, 0nat,
{
    let ghost w0 = writer.bytes();
    match &grammar.symbols[sym_id.0 as usize] {
        Symbol::Terminal(tk) => {
            let a = ctx.alloc_node(profile);
            if let Err(e) = a {
                proof { lemma_extends_refl(w0); }
                return Err(e);
            }
            let bytes = emit_terminal_gen(grammar, tk, writer, rng, hooks);
            Ok(ctx.ast.new_node(AstNodeKind::Terminal(bytes)))
        },
        Symbol::NonTerminal(pid) => {
            expand_production_gen(grammar, profile, *pid, depth, ctx, writer, rng, eligible_buf, hooks)
        },
    }
}

// ── Public entry points ──

/// Every tape that holds `w` past the header fails, decoding from `start`
/// with hooks `h0`, with error `e` and leaves the hooks in state `h1`.
pub open spec fn fails_on<H: SemanticHooks>(g: GrammarIr, p: Profile, start: ProductionId, h0: H, h1: H, e: GenerateError, w: Seq<u8>) -> bool {
    &&& w.len() >= 2
    &&& forall|t: Seq<u8>| #[trigger] agrees(t, w, 2, w.len() as int) ==> {
        let (st, r) = dec_prod(g, p, t, start, 0, init_state(h0));
        r == Err::<NodeId, GenerateError>(e) && st.hooks == h1
    }
}

/// What generating from `start` with hooks `h0` (ending in `h1`) gave, in
/// terms of decoding: the tape of a success decodes from `start`, to its
/// last byte, to exactly the returned tree, map and hook state; a failure is
/// the failure of decoding any tape that holds the decisions made until it.
pub open spec fn generate_outcome<H: SemanticHooks>(g: GrammarIr, p: Profile, start: ProductionId, h0: H, h1: H,
    res: Result<(Ast, DecisionTape, TapeMap), GenerateError>) -> bool {
    match res {
        Ok((ast, tape, map)) => {
            let (st, r) = dec_prod(g, p, tape.bytes@, start, 0, init_state(h0));
            &&& r == Ok::<NodeId, GenerateError>(ast.root)
            &&& ast@.nodes == st.nodes
            &&& map.entries@ == st.entries
            &&& map.modifier_bytes@ == st.mods
            &&& st.hooks == h1
            &&& st.pos == tape.bytes@.len()
        },
        Err(e) => exists|w: Seq<u8>| #[trigger] fails_on(g, p, start, h0, h1, e, w),
    }
}

/// Generate a tree from production `start` with semantic hooks, recording
/// each random decision on the returned tape.
pub fn generate_with_hooks<H: SemanticHooks>(
    grammar: &GrammarIr,
    start: ProductionId,
    profile: &Profile,
    rng: &mut SmallRng,
    hooks: &mut H,
) -> (res: Result<(Ast, DecisionTape, TapeMap), GenerateError>)
    requires
        generate_ready(*grammar, *profile),
        start.0 < grammar.productions@.len(),
    ensures
        res matches Ok((_, tape, _)) ==> tape.bytes@.len() >= 2 && tape.bytes@[0] == mode_byte_spec(profile.validity_mode)
            && tape.bytes@[1] == 0,
        roundtrip_ready(*grammar) ==> generate_outcome(*grammar, *profile, start, *old(hooks), *final(hooks), res),
{
    let mut ctx = GenCtx::new();
    let mut writer = TapeWriter::new(profile.validity_mode);
    let mut eligible_buf = Vec::new();
    let ghost w0 = writer.bytes();
    let ghost c0 = ctx;
    let ghost h0 = *hooks;
    assert(st_of(c0, 2, h0) == init_state(h0));
    let root = expand_production_gen(grammar, profile, start, 0, &mut ctx, &mut writer, rng, &mut eligible_buf, hooks);
    match root {
        Ok(root) => {
            ctx.ast.root = root;
            let tape = writer.finish();
            proof {
                if roundtrip_ready(*grammar) {
                    assert(agrees(tape.bytes@, tape.bytes@, 2, tape.bytes@.len() as int));
                }
            }
            Ok((ctx.ast, tape, ctx.tape_map))
        },
        Err(e) => {
            proof {
                if roundtrip_ready(*grammar) {
                    assert(fails_on(*grammar, *profile, start, h0, *hooks, e, writer.bytes()));
                }
            }
            Err(e)
        },
    }
}

/// Generate a tree from the grammar's start production, recording each
/// random decision on the returned tape.
pub fn generate(grammar: &GrammarIr, profile: &Profile, rng: &mut SmallRng) -> (res: Result<(Ast, DecisionTape, TapeMap), GenerateError>)
    requires
        generate_ready(*grammar, *profile),
    ensures
        res matches Ok((_, tape, _)) ==> tape.bytes@.len() >= 2 && tape.bytes@[0] == mode_byte_spec(profile.validity_mode)
            && tape.bytes@[1] == 0,
        roundtrip_ready(*grammar) ==> generate_outcome(*grammar, *profile, grammar.start, (), (), res),
{
    let mut unit = ();
    generate_with_hooks(grammar, grammar.start, profile, rng, &mut unit)
}

/// Generate a tree from production `start`: a self-contained subtree and the
/// tape that decodes to it from `start`.
pub fn generate_from(grammar: &GrammarIr, start: ProductionId, profile: &Profile, rng: &mut SmallRng) -> (res: Result<(Ast, DecisionTape, TapeMap), GenerateError>)
    requires
        generate_ready(*grammar, *profile),
        start.0 < grammar.productions@.len(),
    ensures
        res matches Ok((_, tape, _)) ==> tape.bytes@.len() >= 2 && tape.bytes@[0] == mode_byte_spec(profile.validity_mode)
            && tape.bytes@[1] == 0,
        roundtrip_ready(*grammar) ==> generate_outcome(*grammar, *profile, start, (), (), res),
{
    let mut unit = ();
    generate_with_hooks(grammar, start, profile, rng, &mut unit)
}

/// Decoding a generated tape, with the hooks in the state generation started
/// from, gives back the generated tree and tape map and leaves the hooks in
/// the state generation left them in.
pub proof fn lemma_generated_tape_decodes<H: SemanticHooks>(
    g: GrammarIr,
    p: Profile,
    h0: H,
    h1: H,
    ast: Ast,
    tape: DecisionTape,
    map: TapeMap,
    h2: H,
    decoded: Result<(Ast, TapeMap), GenerateError>,
)
    requires
        generate_outcome(g, p, g.start, h0, h1, Ok((ast, tape, map))),
        decode_outcome(g, p, tape.bytes@, h0, h2, decoded),
    ensures
        decoded matches Ok((ast2, map2)) && ast2@ == ast@ && map2.entries@ == map.entries@
            && map2.modifier_bytes@ == map.modifier_bytes@,
        h2 == h1,
{
}

} // verus!
