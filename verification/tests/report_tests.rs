use barkus::grammar::{Alternative, GrammarIr, Modifier, Production, ProductionAttrs, Symbol, SymbolRef, TerminalKind};
use barkus::ids::{ProductionId, SymbolId};
use barkus::profile::Profile;
use barkus::readiness::{generate_is_ready, grammar_is_valid, ids_are_in_range, profile_is_valid};
use barkus::reachability::{analyze, low_coverage_productions, starved_alternatives};
use barkus::recommend::{advise, flag_text, LimitFlag};
use barkus::stats::{productions_by_hits, AlternativeStats, CorpusStats, FailureBreakdown, Histogram, ProductionStats};
use barkus::text::html_escape;

fn empty_histogram() -> Histogram {
    Histogram {
        buckets: Vec::new(),
        min: u32::MAX,
        max: 0,
    }
}

fn make_stats(total: u64, failures: u64, max_depth: u64, max_nodes: u64) -> CorpusStats {
    CorpusStats {
        total_payloads: total,
        failures,
        failure_breakdown: FailureBreakdown {
            max_depth,
            max_total_nodes: max_nodes,
        },
        productions: vec![],
        depth_histogram: empty_histogram(),
        node_count_histogram: empty_histogram(),
    }
}

fn prod_stats(name: &str, id: u32, hits: u64, payload_hits: u64, alt_hits: &[u64], hook: bool) -> ProductionStats {
    ProductionStats {
        name: name.into(),
        production_id: id,
        hit_count: hits,
        payload_hit_count: payload_hits,
        alternatives: alt_hits
            .iter()
            .enumerate()
            .map(|(i, &h)| AlternativeStats { index: i, hit_count: h })
            .collect(),
        has_semantic_hook: hook,
    }
}

#[test]
fn no_recommendations_when_failure_rate_low() {
    let stats = make_stats(1000, 50, 30, 20);
    let profile = Profile::default();
    let recs = advise(&stats, &profile);
    assert!(recs.is_empty());
}

#[test]
fn both_ordered_by_severity() {
    let stats = make_stats(1000, 600, 200, 400);
    let profile = Profile::default();
    let recs = advise(&stats, &profile);
    assert_eq!(recs.len(), 2);
    // nodes cause more failures, so nodes first
    assert!(flag_text(&recs[0]).contains("--max-nodes"));
    assert!(flag_text(&recs[1]).contains("--max-depth"));
}

#[test]
fn no_recommendations_when_zero_payloads() {
    let stats = make_stats(0, 0, 0, 0);
    let profile = Profile::default();
    let recs = advise(&stats, &profile);
    assert!(recs.is_empty());
}

#[test]
fn recommends_depth_increase() {
    let stats = make_stats(1000, 600, 500, 100);
    let profile = Profile::default();
    let recs = advise(&stats, &profile);
    assert!(!recs.is_empty());
    assert!(flag_text(&recs[0]).contains("--max-depth 60"));
}

#[test]
fn recommends_nodes_increase() {
    let stats = make_stats(1000, 600, 100, 500);
    let profile = Profile::default();
    let recs = advise(&stats, &profile);
    assert!(!recs.is_empty());
    assert!(flag_text(&recs[0]).contains("--max-nodes 100000"));
}

#[test]
fn advice_triples_depth_limit() {
    let stats = make_stats(1000, 600, 500, 100);
    let profile = Profile::builder().max_depth(30).build();
    let recs = advise(&stats, &profile);
    assert_eq!(recs.len(), 1);
    assert_eq!(recs[0].flag, LimitFlag::MaxDepth);
    assert_eq!(recs[0].current_value, 30);
    assert_eq!(recs[0].new_value, 90);
    assert_eq!(recs[0].cause_count, 500);
    assert_eq!(recs[0].total_failures, 600);
    assert_eq!(flag_text(&recs[0]), "--max-depth 90");
}

#[test]
fn advice_at_exact_tenth_boundaries() {
    // One failure in ten is enough to advise; a cause must exceed a tenth.
    let stats = make_stats(1000, 100, 100, 101);
    let recs = advise(&stats, &Profile::default());
    assert_eq!(recs.len(), 1);
    assert_eq!(recs[0].flag, LimitFlag::MaxNodes);
    let below = make_stats(1000, 99, 99, 0);
    assert!(advise(&below, &Profile::default()).is_empty());
}

#[test]
fn advice_prefers_depth_on_tie() {
    let stats = make_stats(100, 60, 30, 30);
    let recs = advise(&stats, &Profile::default());
    assert_eq!(recs.len(), 2);
    assert_eq!(recs[0].flag, LimitFlag::MaxDepth);
    assert_eq!(recs[1].flag, LimitFlag::MaxNodes);
}

#[test]
fn low_coverage_below_one_percent() {
    let mut stats = make_stats(1000, 0, 0, 0);
    stats.productions = vec![
        prod_stats("common", 0, 900, 900, &[900], false),
        prod_stats("rare", 1, 9, 9, &[9], false),
        prod_stats("edge", 2, 10, 10, &[10], false),
        prod_stats("never", 3, 0, 0, &[0], false),
    ];
    let low = low_coverage_productions(&stats);
    assert_eq!(low.len(), 1);
    assert_eq!(low[0].name, "rare");
    assert_eq!(low[0].production_id, 1);
    assert_eq!(low[0].payload_hit_count, 9);
}

#[test]
fn starved_alternatives_against_uniform_share() {
    let mut stats = make_stats(100, 0, 0, 0);
    stats.productions = vec![
        // 3 alternatives, 90 hits: uniform share 30, half of it 15.
        prod_stats("expr", 0, 90, 50, &[70, 14, 6], false),
        // 4 alternatives, 40 hits: alternative 1 has exactly half of the
        // uniform share, which is not less than half.
        prod_stats("term", 1, 40, 40, &[30, 5, 5, 0], false),
        // Semantic hooks and single alternatives are skipped.
        prod_stats("hooked", 2, 10, 10, &[10, 0], true),
        prod_stats("single", 3, 10, 10, &[10], false),
        // No hits at all: skipped.
        prod_stats("cold", 4, 0, 0, &[0, 0], false),
    ];
    let starved = starved_alternatives(&stats);
    let rows: Vec<(String, usize, u64)> = starved.iter().map(|s| (s.production_name.clone(), s.alt_index, s.hit_count)).collect();
    assert_eq!(
        rows,
        vec![
            ("expr".to_string(), 1, 14),
            ("expr".to_string(), 2, 6),
            ("term".to_string(), 3, 0),
        ]
    );
    assert_eq!(starved[0].sibling_hits, 90);
    assert_eq!(starved[0].sibling_count, 3);
    assert_eq!(starved[2].sibling_hits, 40);
    assert_eq!(starved[2].sibling_count, 4);
}

#[test]
fn coverage_table_order_is_stable_by_hits() {
    let mut stats = make_stats(10, 0, 0, 0);
    stats.productions = vec![
        prod_stats("a", 0, 5, 1, &[5], false),
        prod_stats("b", 1, 9, 1, &[9], false),
        prod_stats("c", 2, 5, 1, &[5], false),
        prod_stats("d", 3, 0, 0, &[0], false),
        prod_stats("e", 4, 9, 1, &[9], false),
    ];
    assert_eq!(productions_by_hits(&stats), vec![1, 4, 0, 2, 3]);
    assert!(productions_by_hits(&make_stats(0, 0, 0, 0)).is_empty());
}

#[test]
fn html_escape_entities() {
    assert_eq!(html_escape("a<b & \"c\">"), "a&lt;b &amp; &quot;c&quot;&gt;");
    assert_eq!(html_escape("grammars/json.ebnf"), "grammars/json.ebnf");
    assert_eq!(html_escape("&amp;"), "&amp;amp;");
    assert_eq!(html_escape(""), "");
}

fn one_prod_grammar(symbols: Vec<Symbol>, refs: Vec<SymbolRef>) -> GrammarIr {
    GrammarIr {
        productions: vec![Production {
            id: ProductionId(0),
            name: "start".into(),
            alternatives: vec![Alternative { symbols: refs, semantic_tag: None }],
            attrs: ProductionAttrs::default(),
        }],
        symbols,
        start: ProductionId(0),
        token_pools: vec![],
    }
}

#[test]
fn readiness_checks() {
    let lit = Symbol::Terminal(TerminalKind::Literal(b"x".to_vec()));
    let ok = one_prod_grammar(vec![lit.clone()], vec![SymbolRef { symbol: SymbolId(0), modifier: Modifier::Once }]);
    let profile = Profile::default();
    assert!(grammar_is_valid(&ok));
    assert!(profile_is_valid(&profile));
    assert!(generate_is_ready(&ok, &profile));

    // A reference past the symbol table.
    let dangling = one_prod_grammar(vec![lit.clone()], vec![SymbolRef { symbol: SymbolId(5), modifier: Modifier::Once }]);
    assert!(!grammar_is_valid(&dangling));
    assert!(!generate_is_ready(&dangling, &profile));

    // A reversed byte range.
    let reversed = one_prod_grammar(
        vec![Symbol::Terminal(TerminalKind::ByteRange(b'z', b'a'))],
        vec![SymbolRef { symbol: SymbolId(0), modifier: Modifier::Once }],
    );
    assert!(!grammar_is_valid(&reversed));

    // A repetition whose minimum is above the profile's cap.
    let too_many = one_prod_grammar(
        vec![lit.clone()],
        vec![SymbolRef { symbol: SymbolId(0), modifier: Modifier::OneOrMore { min: 9, max: 20 } }],
    );
    assert!(grammar_is_valid(&too_many));
    assert!(!generate_is_ready(&too_many, &profile));
    let roomy = Profile::builder().repetition_bounds(0, 12).build();
    assert!(generate_is_ready(&too_many, &roomy));

    // Budgets at the integer limit.
    let unbounded = Profile::builder().max_depth(u32::MAX).build();
    assert!(!profile_is_valid(&unbounded));
    assert!(!generate_is_ready(&ok, &unbounded));
}

#[test]
fn report_gathers_all_findings() {
    // start -> item, item -> leaf: both referred to once.
    let grammar = GrammarIr {
        productions: vec![
            Production {
                id: ProductionId(0),
                name: "start".into(),
                alternatives: vec![Alternative { symbols: vec![SymbolRef { symbol: SymbolId(0), modifier: Modifier::Once }], semantic_tag: None }],
                attrs: ProductionAttrs::default(),
            },
            Production {
                id: ProductionId(1),
                name: "item".into(),
                alternatives: vec![
                    Alternative { symbols: vec![SymbolRef { symbol: SymbolId(1), modifier: Modifier::Once }], semantic_tag: None },
                    Alternative { symbols: vec![SymbolRef { symbol: SymbolId(2), modifier: Modifier::Once }], semantic_tag: None },
                ],
                attrs: ProductionAttrs::default(),
            },
            Production {
                id: ProductionId(2),
                name: "leaf".into(),
                alternatives: vec![Alternative { symbols: vec![SymbolRef { symbol: SymbolId(2), modifier: Modifier::Once }], semantic_tag: None }],
                attrs: ProductionAttrs::default(),
            },
        ],
        symbols: vec![
            Symbol::NonTerminal(ProductionId(1)),
            Symbol::NonTerminal(ProductionId(2)),
            Symbol::Terminal(TerminalKind::Literal(b"x".to_vec())),
        ],
        start: ProductionId(0),
        token_pools: vec![],
    };
    assert!(ids_are_in_range(&grammar));
    let mut stats = make_stats(1000, 0, 0, 0);
    stats.productions = vec![
        prod_stats("start", 0, 1000, 1000, &[1000], false),
        prod_stats("item", 1, 1000, 1000, &[995, 5], false),
        prod_stats("leaf", 2, 5, 5, &[5], false),
    ];
    let report = analyze(&grammar, &stats);
    assert!(report.unreached.is_empty());
    assert_eq!(report.low_coverage.len(), 1);
    assert_eq!(report.low_coverage[0].name, "leaf");
    assert_eq!(report.starved_alternatives.len(), 1);
    assert_eq!(report.starved_alternatives[0].production_name, "item");
    assert_eq!(report.starved_alternatives[0].alt_index, 1);
    let chokes: Vec<(String, String, usize)> = report
        .choke_points
        .iter()
        .map(|c| (c.production_name.clone(), c.parent_name.clone(), c.parent_alt_index))
        .collect();
    assert_eq!(chokes, vec![("item".to_string(), "start".to_string(), 0), ("leaf".to_string(), "item".to_string(), 0)]);

    // An id past the productions is refused before the analysis.
    let mut bad = grammar.clone();
    bad.productions[2].id = ProductionId(7);
    assert!(!ids_are_in_range(&bad));
}
