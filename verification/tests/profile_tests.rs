#![allow(unused_imports)]
use barkus::analysis::{compute_min_depths, mark_recursive};
use barkus::ast::AstNodeKind;
use barkus::decode::{decode, decode_with_hooks};
use barkus::error::{BudgetKind, GenerateError, IrError};
use barkus::generate::{generate, generate_with_hooks};
use barkus::grammar::{Alternative, GrammarIr, Modifier, Production, ProductionAttrs, Symbol, SymbolRef, TerminalKind, TokenPoolEntry};
use barkus::hooks::SemanticHooks;
use barkus::ids::{NodeId, PoolId, ProductionId, SymbolId};
use barkus::mutation as ops;
use barkus::mutation::{MutationKind, MutationMeta};
use barkus::profile::{Profile, ValidityMode};
use rand::rngs::SmallRng;
use rand::SeedableRng;

#[test]
fn profile_defaults() {
    let p = Profile::default();
    assert_eq!(p.max_depth, 20);
    assert_eq!(p.max_total_nodes, 10_000);
    assert_eq!(p.repetition_bounds, (0, 5));
    assert_eq!(p.validity_mode, ValidityMode::Strict);
    assert!(p.dictionary.is_empty());
}

#[test]
fn profile_builder() {
    let p = Profile::builder()
        .max_depth(12)
        .max_total_nodes(5000)
        .validity_mode(ValidityMode::Havoc)
        .repetition_bounds(1, 3)
        .build();

    assert_eq!(p.max_depth, 12);
    assert_eq!(p.max_total_nodes, 5000);
    assert_eq!(p.validity_mode, ValidityMode::Havoc);
    assert_eq!(p.repetition_bounds, (1, 3));
}

