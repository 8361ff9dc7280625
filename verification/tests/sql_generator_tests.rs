use barkus::profile::Profile;
use barkus::sql::{Column, MySqlDialect, PostgresDialect, SqlContext, SqlError, SqlType, Table};
use barkus::sql_gen::SqlGenerator;
use rand::rngs::SmallRng;
use rand::SeedableRng;

const LEXER: &str = r#"
    lexer grammar SqlLexer;
    SELECT : 'SELECT' ;
    STAR : '*' ;
    FROM : 'FROM' ;
    SP : ' ' ;
    IDENTIFIER : 'a' | 'b' ;
"#;

const PARSER: &str = r#"
    parser grammar SqlParser;
    options { tokenVocab = SqlLexer; }
    stmt : SELECT SP STAR SP FROM SP table_name ;
    table_name : IDENTIFIER ;
"#;

fn names(ctx: &SqlContext) -> Vec<String> {
    let mut v: Vec<String> = ctx.tables.iter().map(|t| t.name.clone()).collect();
    for t in &ctx.tables {
        for c in &t.columns {
            v.push(c.name.clone());
        }
    }
    v
}

#[test]
fn generator_without_grammar_fails_to_build() {
    assert!(matches!(SqlGenerator::new(), Err(SqlError::Grammar(_))));
    assert!(matches!(SqlGenerator::builder().build(), Err(SqlError::Grammar(_))));
}

#[test]
fn identifiers_come_from_the_schema() {
    let gen = SqlGenerator::builder().grammar(LEXER, PARSER).build().unwrap();
    assert!(gen.is_ready());
    let allowed = names(&SqlContext::synthetic());
    for seed in 0..20 {
        let mut rng = SmallRng::seed_from_u64(seed);
        let (sql, tape, _map) = gen.generate(&mut rng).unwrap();
        let ident = sql.strip_prefix("SELECT * FROM \"").unwrap().strip_suffix('"').unwrap();
        assert!(allowed.iter().any(|n| n == ident), "unexpected identifier {ident}");
        assert!(tape.bytes.len() >= 2);
    }
}

#[test]
fn sql_decode_roundtrip() {
    let gen = SqlGenerator::builder().grammar(LEXER, PARSER).build().unwrap();
    for seed in 0..20 {
        let mut rng = SmallRng::seed_from_u64(seed);
        let (sql1, tape, map1) = gen.generate(&mut rng).unwrap();
        let (sql2, map2) = gen.decode(&tape).unwrap();
        assert_eq!(sql1, sql2, "decode roundtrip failed for seed {seed}");
        assert_eq!(map1.entries.len(), map2.entries.len());
    }
}

#[test]
fn sql_deterministic_from_seed() {
    let gen = SqlGenerator::builder().grammar(LEXER, PARSER).build().unwrap();
    let mut rng1 = SmallRng::seed_from_u64(42);
    let mut rng2 = SmallRng::seed_from_u64(42);
    let (sql1, _, _) = gen.generate(&mut rng1).unwrap();
    let (sql2, _, _) = gen.generate(&mut rng2).unwrap();
    assert_eq!(sql1, sql2);
}

#[test]
fn custom_context_and_dialect() {
    let ctx = SqlContext {
        tables: vec![Table {
            name: "my_table".into(),
            columns: vec![Column {
                name: "col1".into(),
                ty: SqlType::Text,
                nullable: false,
            }],
        }],
        functions: vec![],
    };
    let gen = SqlGenerator::builder()
        .context(ctx)
        .dialect(MySqlDialect)
        .grammar(LEXER, PARSER)
        .build()
        .unwrap();
    for seed in 0..10 {
        let mut rng = SmallRng::seed_from_u64(seed);
        let (sql, _, _) = gen.generate(&mut rng).unwrap();
        assert!(sql == "SELECT * FROM `my_table`" || sql == "SELECT * FROM `col1`", "{sql}");
    }
    let pg = SqlGenerator::builder().dialect(PostgresDialect).grammar(LEXER, PARSER).build().unwrap();
    let mut rng = SmallRng::seed_from_u64(99);
    let (sql, _, _) = pg.generate(&mut rng).unwrap();
    assert!(sql.starts_with("SELECT * FROM \""));
}

#[test]
fn depth_budget_is_raised_for_sql() {
    // A profile with a shallow depth still generates: the builder raises it.
    let shallow = Profile::builder().max_depth(1).build();
    let gen = SqlGenerator::builder().profile(shallow).grammar(LEXER, PARSER).build().unwrap();
    let mut rng = SmallRng::seed_from_u64(3);
    assert!(gen.generate(&mut rng).is_ok());
}
