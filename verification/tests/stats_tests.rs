use barkus::ast::{Ast, AstNodeKind};
use barkus::grammar::{Alternative, GrammarIr, Production, ProductionAttrs};
use barkus::ids::{NodeId, ProductionId};
use barkus::reachability::{choke_points, unreached_productions};
use barkus::stats::{
    compute_max_depth, fmt_num, AlternativeStats, CorpusStats, FailureBreakdown, Histogram, ProductionStats,
};

#[test]
fn test_histogram_build() {
    let values = vec![1, 2, 3, 4, 5, 10, 20];
    let h = Histogram::build_from_raw(&values, 5);
    assert_eq!(h.min, 1);
    assert_eq!(h.max, 20);
    assert!(!h.buckets.is_empty());
    let total: u64 = h.buckets.iter().map(|(_, c)| c).sum();
    assert_eq!(total, 7);
}

#[test]
fn test_histogram_empty() {
    let h = Histogram::build_from_raw(&[], 10);
    assert!(h.buckets.is_empty());
}

#[test]
fn test_histogram_single_value() {
    let values = vec![42, 42, 42];
    let h = Histogram::build_from_raw(&values, 10);
    assert_eq!(h.buckets.len(), 1);
    assert_eq!(h.buckets[0], (42, 3));
}

#[test]
fn test_compute_max_depth() {
    // Build a simple tree: root -> child -> leaf
    let mut ast = Ast {
        nodes: Vec::new(),
        root: NodeId(0),
    };
    let root = ast.new_node(AstNodeKind::Production(ProductionId(0)));
    let child = ast.new_node(AstNodeKind::Production(ProductionId(1)));
    let leaf = ast.new_node(AstNodeKind::Terminal(vec![b'x']));
    ast.add_child(root, child);
    ast.add_child(child, leaf);
    assert_eq!(compute_max_depth(&ast), 3);
}

#[test]
fn test_fmt_num() {
    assert_eq!(fmt_num(0), "0");
    assert_eq!(fmt_num(999), "999");
    assert_eq!(fmt_num(1000), "1,000");
    assert_eq!(fmt_num(1_000_000), "1,000,000");
}

fn empty_histogram() -> Histogram {
    Histogram {
        buckets: Vec::new(),
        min: u32::MAX,
        max: 0,
    }
}

#[test]
fn test_unreached_detection() {
    // Minimal grammar with 2 productions
    let grammar = GrammarIr {
        productions: vec![
            Production {
                id: ProductionId(0),
                name: "root".into(),
                alternatives: vec![Alternative {
                    symbols: vec![],
                    semantic_tag: None,
                }],
                attrs: ProductionAttrs::default(),
            },
            Production {
                id: ProductionId(1),
                name: "unused".into(),
                alternatives: vec![Alternative {
                    symbols: vec![],
                    semantic_tag: None,
                }],
                attrs: ProductionAttrs::default(),
            },
        ],
        symbols: vec![],
        start: ProductionId(0),
        token_pools: vec![],
    };

    let stats = CorpusStats {
        total_payloads: 100,
        failures: 0,
        failure_breakdown: FailureBreakdown {
            max_depth: 0,
            max_total_nodes: 0,
        },
        productions: vec![
            ProductionStats {
                name: "root".into(),
                production_id: 0,
                hit_count: 100,
                payload_hit_count: 100,
                alternatives: vec![AlternativeStats {
                    index: 0,
                    hit_count: 100,
                }],
                has_semantic_hook: false,
            },
            ProductionStats {
                name: "unused".into(),
                production_id: 1,
                hit_count: 0,
                payload_hit_count: 0,
                alternatives: vec![AlternativeStats {
                    index: 0,
                    hit_count: 0,
                }],
                has_semantic_hook: false,
            },
        ],
        depth_histogram: empty_histogram(),
        node_count_histogram: empty_histogram(),
    };

    let unreached = unreached_productions(&stats);
    assert_eq!(unreached.len(), 1);
    assert_eq!(unreached[0].name, "unused");
    // Neither production refers to the other: no choke points.
    assert!(choke_points(&grammar).is_empty());
}
