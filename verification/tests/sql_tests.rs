use barkus::hooks::SemanticHooks;
use barkus::ids::{PoolId, ProductionId};
use barkus::sql::{
    classify_pool, classify_prod, MySqlDialect, PoolKind, PostgresDialect, ProdKind, SqlContext, SqlDialect, SqlHooks,
    SqliteDialect,
};

#[test]
fn synthetic_context_has_tables() {
    let ctx = SqlContext::synthetic();
    assert_eq!(ctx.tables.len(), 3);
    assert_eq!(ctx.tables[0].name, "users");
    assert_eq!(ctx.tables[1].name, "orders");
    assert_eq!(ctx.tables[2].name, "products");
}

#[test]
fn pool_names_classified_regardless_of_case() {
    assert!(classify_pool("IDENTIFIER") == PoolKind::Identifier);
    assert!(classify_pool("identifier") == PoolKind::Identifier);
    assert!(classify_pool("Numeric_Literal") == PoolKind::NumericLiteral);
    assert!(classify_pool("STRING_LITERAL") == PoolKind::StringLiteral);
    assert!(classify_pool("WHITESPACE") == PoolKind::Other);
}

#[test]
fn scope_productions_by_suffix_not_substring() {
    assert!(classify_prod("select_from_clause") == ProdKind::ScopeProducer);
    assert!(classify_prod("join_clause") == ProdKind::ScopeProducer);
    assert!(classify_prod("table_or_subquery") == ProdKind::ScopeProducer);
    assert!(classify_prod("transform") == ProdKind::Other);
}

#[test]
fn dialect_formatting() {
    assert_eq!(PostgresDialect.quote_identifier("users"), "\"users\"");
    assert_eq!(MySqlDialect.quote_identifier("users"), "`users`");
    assert_eq!(PostgresDialect.string_literal("it's"), "'it''s'");
    assert_eq!(PostgresDialect.bool_literal(true), "TRUE");
    assert_eq!(SqliteDialect.bool_literal(false), "0");
    assert_eq!(MySqlDialect.name(), "mysql");
}

#[test]
fn hooks_fill_pools_from_schema() {
    let ctx = SqlContext::synthetic();
    let dialect = PostgresDialect;
    let pool_kinds = vec![PoolKind::Identifier, PoolKind::NumericLiteral, PoolKind::StringLiteral, PoolKind::Other];
    let prod_kinds = vec![ProdKind::ScopeProducer, ProdKind::Other];
    let columns: Vec<String> = vec!["id".into(), "name".into()];
    let mut hooks = SqlHooks::new(&ctx, &dialect, &pool_kinds, &prod_kinds, &columns);
    // Even byte: a table, 4 % 3 == 1.
    assert_eq!(hooks.on_token_pool(PoolId(0), 4), Some(b"\"orders\"".to_vec()));
    // Odd byte: a column, 3 % 2 == 1.
    assert_eq!(hooks.on_token_pool(PoolId(0), 3), Some(b"\"name\"".to_vec()));
    // Numbers: 7 * byte + 1.
    assert_eq!(hooks.on_token_pool(PoolId(1), 6), Some(b"43".to_vec()));
    // Strings: word 9 % 8 == 1.
    assert_eq!(hooks.on_token_pool(PoolId(2), 9), Some(b"'bar'".to_vec()));
    assert_eq!(hooks.on_token_pool(PoolId(3), 9), None);
    assert_eq!(hooks.on_token_pool(PoolId(9), 9), None);
    hooks.enter_production(ProductionId(0));
    assert_eq!(hooks.scope_depth, 1);
    hooks.enter_production(ProductionId(1));
    assert_eq!(hooks.scope_depth, 1);
    hooks.exit_production(ProductionId(0));
    hooks.exit_production(ProductionId(0));
    assert_eq!(hooks.scope_depth, 0);
}
