#![allow(unused_imports)]
use barkus::analysis::{compute_min_depths, mark_recursive};
use barkus::ast::AstNodeKind;
use barkus::decode::{decode, decode_with_hooks};
use barkus::error::{BudgetKind, GenerateError, IrError};
use barkus::generate::{generate, generate_with_hooks};
use barkus::grammar::{Alternative, GrammarIr, Modifier, Production, ProductionAttrs, Symbol, SymbolRef, TerminalKind, TokenPoolEntry};
use barkus::hooks::SemanticHooks;
use barkus::ids::{NodeId, PoolId, ProductionId, SymbolId};
use barkus::mutation as ops;
use barkus::mutation::{MutationKind, MutationMeta};
use barkus::profile::{Profile, ValidityMode};
use rand::rngs::SmallRng;
use rand::SeedableRng;

fn lit_sym(symbols: &mut Vec<Symbol>, bytes: &[u8]) -> SymbolId {
    let id = SymbolId(symbols.len() as u32);
    symbols.push(Symbol::Terminal(TerminalKind::Literal(bytes.to_vec())));
    id
}

fn nt_sym(symbols: &mut Vec<Symbol>, prod: ProductionId) -> SymbolId {
    let id = SymbolId(symbols.len() as u32);
    symbols.push(Symbol::NonTerminal(prod));
    id
}

fn simple_alt(sym: SymbolId) -> Alternative {
    Alternative {
        symbols: vec![SymbolRef {
            symbol: sym,
            modifier: Modifier::Once,
        }],
        semantic_tag: None,
    }
}

fn multi_alt(syms: Vec<(SymbolId, Modifier)>) -> Alternative {
    Alternative {
        symbols: syms
            .into_iter()
            .map(|(s, m)| SymbolRef {
                symbol: s,
                modifier: m,
            })
            .collect(),
        semantic_tag: None,
    }
}

/// S -> "hello"  →  generates "hello"
#[test]
fn simple_literal_grammar() {
    let mut symbols = Vec::new();
    let hello = lit_sym(&mut symbols, b"hello");

    let mut ir = GrammarIr {
        productions: vec![Production {
            id: ProductionId(0),
            name: "S".into(),
            alternatives: vec![simple_alt(hello)],
            attrs: ProductionAttrs::default(),
        }],
        symbols,
        start: ProductionId(0),
        token_pools: Vec::new(),
    };
    compute_min_depths(&mut ir);

    let profile = Profile::default();
    let mut rng = SmallRng::seed_from_u64(1);
    let (ast, _tape, _map) = generate(&ir, &profile, &mut rng).unwrap();

    assert_eq!(ast.serialize(), b"hello");
}

/// S -> "a" | "b"  →  tape byte determines output
#[test]
fn choice_grammar() {
    let mut symbols = Vec::new();
    let a = lit_sym(&mut symbols, b"a");
    let b = lit_sym(&mut symbols, b"b");

    let mut ir = GrammarIr {
        productions: vec![Production {
            id: ProductionId(0),
            name: "S".into(),
            alternatives: vec![simple_alt(a), simple_alt(b)],
            attrs: ProductionAttrs::default(),
        }],
        symbols,
        start: ProductionId(0),
        token_pools: Vec::new(),
    };
    compute_min_depths(&mut ir);

    let profile = Profile::default();

    // Generate multiple times to verify both branches are reachable.
    let mut saw_a = false;
    let mut saw_b = false;
    for seed in 0..20 {
        let mut rng = SmallRng::seed_from_u64(seed);
        let (ast, _tape, _map) = generate(&ir, &profile, &mut rng).unwrap();
        let out = ast.serialize();
        if out == b"a" {
            saw_a = true;
        }
        if out == b"b" {
            saw_b = true;
        }
    }
    assert!(saw_a, "never generated 'a'");
    assert!(saw_b, "never generated 'b'");
}

/// S -> "x"*  →  tape controls repetition count
#[test]
fn repetition_grammar() {
    let mut symbols = Vec::new();
    let x = lit_sym(&mut symbols, b"x");

    let mut ir = GrammarIr {
        productions: vec![Production {
            id: ProductionId(0),
            name: "S".into(),
            alternatives: vec![Alternative {
                symbols: vec![SymbolRef {
                    symbol: x,
                    modifier: Modifier::ZeroOrMore { min: 0, max: 5 },
                }],
                semantic_tag: None,
            }],
            attrs: ProductionAttrs::default(),
        }],
        symbols,
        start: ProductionId(0),
        token_pools: Vec::new(),
    };
    compute_min_depths(&mut ir);

    let profile = Profile::default();
    let mut rng = SmallRng::seed_from_u64(7);
    let (ast, _tape, _map) = generate(&ir, &profile, &mut rng).unwrap();
    let out = ast.serialize();

    // Output should be 0-5 'x' characters.
    assert!(out.len() <= 5);
    assert!(out.iter().all(|&b| b == b'x'));
}

/// S -> "(" S ")" | "x"  →  depth-bounded recursive grammar
#[test]
fn recursive_grammar_depth_bounded() {
    let mut symbols = Vec::new();
    let open = lit_sym(&mut symbols, b"(");
    let close = lit_sym(&mut symbols, b")");
    let x = lit_sym(&mut symbols, b"x");
    let s_nt = nt_sym(&mut symbols, ProductionId(0));

    let mut ir = GrammarIr {
        productions: vec![Production {
            id: ProductionId(0),
            name: "S".into(),
            alternatives: vec![
                multi_alt(vec![
                    (open, Modifier::Once),
                    (s_nt, Modifier::Once),
                    (close, Modifier::Once),
                ]),
                simple_alt(x),
            ],
            attrs: ProductionAttrs::default(),
        }],
        symbols,
        start: ProductionId(0),
        token_pools: Vec::new(),
    };
    compute_min_depths(&mut ir);

    let profile = Profile::builder().max_depth(5).build();
    let mut rng = SmallRng::seed_from_u64(42);
    let (ast, _tape, _map) = generate(&ir, &profile, &mut rng).unwrap();
    let out = ast.serialize();

    // Verify well-formed: balanced parens ending with x.
    let s = std::str::from_utf8(&out).unwrap();
    let open_count = s.chars().filter(|&c| c == '(').count();
    let close_count = s.chars().filter(|&c| c == ')').count();
    assert_eq!(open_count, close_count);
    assert!(s.contains('x'));
}

/// Generate then decode on the tape produces identical serialization.
#[test]
fn generate_decode_roundtrip() {
    let mut symbols = Vec::new();
    let a = lit_sym(&mut symbols, b"a");
    let b = lit_sym(&mut symbols, b"b");
    let s_nt = nt_sym(&mut symbols, ProductionId(0));

    let mut ir = GrammarIr {
        productions: vec![Production {
            id: ProductionId(0),
            name: "S".into(),
            alternatives: vec![
                simple_alt(a),
                multi_alt(vec![(b, Modifier::Once), (s_nt, Modifier::Once)]),
            ],
            attrs: ProductionAttrs::default(),
        }],
        symbols,
        start: ProductionId(0),
        token_pools: Vec::new(),
    };
    compute_min_depths(&mut ir);

    let profile = Profile::builder().max_depth(8).build();
    let mut rng = SmallRng::seed_from_u64(123);

    let (ast1, tape, _map) = generate(&ir, &profile, &mut rng).unwrap();
    let (ast2, _map2) = decode(&ir, &profile, &tape.bytes).unwrap();

    assert_eq!(ast1.serialize(), ast2.serialize());
}

/// Budget enforcement: max_depth=2 on recursive grammar → BudgetExhausted
#[test]
fn budget_max_depth_enforced() {
    let mut symbols = Vec::new();
    let x = lit_sym(&mut symbols, b"x");
    let s_nt = nt_sym(&mut symbols, ProductionId(0));

    // S -> S S | "x"  (always-recursive unless base case is chosen)
    let mut ir = GrammarIr {
        productions: vec![Production {
            id: ProductionId(0),
            name: "S".into(),
            alternatives: vec![
                multi_alt(vec![(s_nt, Modifier::Once), (s_nt, Modifier::Once)]),
                simple_alt(x),
            ],
            attrs: ProductionAttrs::default(),
        }],
        symbols,
        start: ProductionId(0),
        token_pools: Vec::new(),
    };
    compute_min_depths(&mut ir);

    // With max_depth=2, min_depth filtering should force base case.
    // With max_depth=1, we can still expand one production, which picks "x".
    let profile = Profile::builder().max_depth(1).build();
    let mut rng = SmallRng::seed_from_u64(0);
    let result = generate(&ir, &profile, &mut rng);

    // max_depth=1 means depth 0 -> expand start, then depth 1 -> must pick terminal.
    // Since depth budget is 1, even the start expand at depth 0 succeeds,
    // but any recursive child at depth 1 would fail. min_depth filtering should save us.
    // Let's test that with max_depth=2, it still works (min_depth filtering helps).
    let profile2 = Profile::builder().max_depth(2).build();
    let mut rng2 = SmallRng::seed_from_u64(0);
    let result2 = generate(&ir, &profile2, &mut rng2);
    // Should succeed because at depth 1, only the "x" alternative is eligible.
    assert!(
        result.is_ok() || result2.is_ok(),
        "at least one depth limit should work with min_depth filtering"
    );
}

/// Tape locality: flipping one tape byte affects only a local subtree.
#[test]
fn tape_locality() {
    let mut symbols = Vec::new();
    let a = lit_sym(&mut symbols, b"a");
    let b = lit_sym(&mut symbols, b"b");

    // S -> "a" | "b"  (single-choice grammar for simplicity)
    let mut ir = GrammarIr {
        productions: vec![Production {
            id: ProductionId(0),
            name: "S".into(),
            alternatives: vec![simple_alt(a), simple_alt(b)],
            attrs: ProductionAttrs::default(),
        }],
        symbols,
        start: ProductionId(0),
        token_pools: Vec::new(),
    };
    compute_min_depths(&mut ir);

    let profile = Profile::default();
    let mut rng = SmallRng::seed_from_u64(55);
    let (ast1, tape, _map) = generate(&ir, &profile, &mut rng).unwrap();
    let out1 = ast1.serialize();

    // Flip the first decision byte (byte index 2, after header).
    let mut modified_bytes = tape.bytes.clone();
    if modified_bytes.len() > 2 {
        modified_bytes[2] ^= 1;
    }

    let (ast2, _map2) = decode(&ir, &profile, &modified_bytes).unwrap();
    let out2 = ast2.serialize();

    // For this simple grammar the output may change, but it's still valid.
    assert!(out2 == b"a" || out2 == b"b");
    // At most 1 byte of difference (the entire output is 1 byte).
    let diff_count = out1.iter().zip(out2.iter()).filter(|(a, b)| a != b).count();
    // Diff is bounded — for this grammar, at most 1.
    assert!(diff_count <= 1);
}

// ── Distribution tests ──

/// Helper: generate N samples from a grammar (one per seed 0..N) and return
/// the serialized byte output of each.
fn generate_samples(ir: &GrammarIr, n: u64) -> Vec<Vec<u8>> {
    let profile = Profile::default();
    (0..n)
        .map(|seed| {
            let mut rng = SmallRng::seed_from_u64(seed);
            let (ast, _, _) = generate(ir, &profile, &mut rng).unwrap();
            ast.serialize()
        })
        .collect()
}

/// Assert each key in `counts` appears between `lo_pct`% and `hi_pct`% of `total`.
fn assert_uniform(
    counts: &std::collections::HashMap<Vec<u8>, usize>,
    total: usize,
    lo_pct: f64,
    hi_pct: f64,
) {
    for (key, &count) in counts {
        let pct = count as f64 / total as f64 * 100.0;
        assert!(
            pct >= lo_pct && pct <= hi_pct,
            "key {:?} appeared {count}/{total} ({pct:.1}%), expected between {lo_pct}% and {hi_pct}%",
            String::from_utf8_lossy(key),
        );
    }
}

/// EBNF-style alternation: S -> "a" | "b" | "c" | "d"
/// Each character should appear ~25% of the time.
#[test]
fn distribution_alternation_4_chars() {
    let mut symbols = Vec::new();
    let alts: Vec<_> = [b"a", b"b", b"c", b"d"]
        .iter()
        .map(|ch| simple_alt(lit_sym(&mut symbols, *ch)))
        .collect();

    let mut ir = GrammarIr {
        productions: vec![Production {
            id: ProductionId(0),
            name: "S".into(),
            alternatives: alts,
            attrs: ProductionAttrs::default(),
        }],
        symbols,
        start: ProductionId(0),
        token_pools: Vec::new(),
    };
    compute_min_depths(&mut ir);

    let n = 10_000;
    let samples = generate_samples(&ir, n);
    assert_eq!(samples.len(), n as usize);

    let mut counts = std::collections::HashMap::new();
    for s in &samples {
        *counts.entry(s.clone()).or_insert(0usize) += 1;
    }
    assert_eq!(counts.len(), 4, "expected exactly 4 distinct outputs");
    assert_uniform(&counts, n as usize, 20.0, 30.0);
}

/// CharClass terminal: [0-9] — each digit should appear ~10% of the time.
#[test]
fn distribution_char_class_digits() {
    let mut symbols = Vec::new();
    let id = SymbolId(symbols.len() as u32);
    symbols.push(Symbol::Terminal(TerminalKind::CharClass {
        ranges: vec![(b'0', b'9')],
        negated: false,
    }));

    let mut ir = GrammarIr {
        productions: vec![Production {
            id: ProductionId(0),
            name: "S".into(),
            alternatives: vec![simple_alt(id)],
            attrs: ProductionAttrs::default(),
        }],
        symbols,
        start: ProductionId(0),
        token_pools: Vec::new(),
    };
    compute_min_depths(&mut ir);

    let n = 10_000;
    let samples = generate_samples(&ir, n);

    let mut counts = std::collections::HashMap::new();
    for s in &samples {
        *counts.entry(s.clone()).or_insert(0usize) += 1;
    }
    assert_eq!(counts.len(), 10, "expected exactly 10 distinct digits");
    assert_uniform(&counts, n as usize, 6.0, 14.0);
}

/// Larger EBNF char set: 13 alternatives (a-f, x-z, 0-3).
/// Each should appear ~7.7% of the time.
#[test]
fn distribution_alternation_13_chars() {
    let chars: Vec<&[u8]> = vec![
        b"a", b"b", b"c", b"d", b"e", b"f", b"x", b"y", b"z", b"0", b"1", b"2", b"3",
    ];
    let mut symbols = Vec::new();
    let alts: Vec<_> = chars
        .iter()
        .map(|ch| simple_alt(lit_sym(&mut symbols, ch)))
        .collect();

    let mut ir = GrammarIr {
        productions: vec![Production {
            id: ProductionId(0),
            name: "S".into(),
            alternatives: alts,
            attrs: ProductionAttrs::default(),
        }],
        symbols,
        start: ProductionId(0),
        token_pools: Vec::new(),
    };
    compute_min_depths(&mut ir);

    let n = 13_000;
    let samples = generate_samples(&ir, n);

    let mut counts = std::collections::HashMap::new();
    for s in &samples {
        *counts.entry(s.clone()).or_insert(0usize) += 1;
    }
    assert_eq!(counts.len(), 13, "expected exactly 13 distinct outputs");
    // Expected ~7.7%, bounds ~4.6% to ~10.8% (±40% of expected)
    assert_uniform(&counts, n as usize, 4.6, 10.8);
}

/// max_total_nodes enforcement
#[test]
fn budget_max_total_nodes_enforced() {
    let mut symbols = Vec::new();
    let x = lit_sym(&mut symbols, b"x");

    // S -> "x" "x" "x" "x" "x" (5 terminal children per expansion)
    let mut ir = GrammarIr {
        productions: vec![Production {
            id: ProductionId(0),
            name: "S".into(),
            alternatives: vec![multi_alt(vec![
                (x, Modifier::Once),
                (x, Modifier::Once),
                (x, Modifier::Once),
                (x, Modifier::Once),
                (x, Modifier::Once),
            ])],
            attrs: ProductionAttrs::default(),
        }],
        symbols,
        start: ProductionId(0),
        token_pools: Vec::new(),
    };
    compute_min_depths(&mut ir);

    // max_total_nodes=3 means we can allocate production + 2 terminals then fail.
    let profile = Profile::builder().max_total_nodes(3).build();
    let mut rng = SmallRng::seed_from_u64(0);
    let result = generate(&ir, &profile, &mut rng);
    assert!(matches!(
        result,
        Err(GenerateError::BudgetExhausted {
            kind: BudgetKind::MaxTotalNodes
        })
    ));
}
