//! A SQL generator: an ANTLR split grammar compiled once, a profile with a
//! depth budget fit for deeply recursive SQL grammars, and schema-aware
//! semantic hooks that start afresh for every statement. A generated
//! statement's tape decodes to the same statement.

use vstd::prelude::*;
use vstd::string::{StringExecFns, StrSliceExecFns};
use vstd::utf8::{valid_utf8, decode_utf8};
use rand::rngs::SmallRng;
use crate::antlr::{compile_split, split_built_ok, LexRuleV, antlr_rules, antlr_lexer_rules, split_ready};
use crate::ast::flatten;
use crate::engine_spec::{dec_prod, init_state, grammar_valid, profile_valid};
use crate::error::GenerateError;
use crate::generate::{generate_with_hooks, generate_ready, roundtrip_ready};
use crate::decode::decode_with_hooks;
use crate::grammar::GrammarIr;
use crate::parse_error::ParseError;
use crate::profile::Profile;
use crate::raw::{RawRule, RawItem, rules_view};
use crate::sql::{SqlContext, SqlDialect, SqliteDialect, SqlHooks, HookMetadata, SqlError, pool_kind_spec,
    prod_kind_spec, column_names, synthetic_schema};
use crate::profile::ValidityMode;
use crate::tape::DecisionTape;
use crate::tape_map::{TapeMap, TapeEntry, ModifierByte};

verus! {

/// What `String::from_utf8_lossy` makes of the bytes.
pub uninterp spec fn lossy_text(bytes: Seq<u8>) -> Seq<char>;

/// `String::from_utf8_lossy`, owned: a function of the bytes alone, the
/// decoded text when they are valid UTF-8. Of invalid input nothing more is
/// stated (the call puts U+FFFD in place of each invalid sequence).
#[verifier::external_body]
fn text_lossy(bytes: &[u8]) -> (s: String)
    ensures
        s@ == lossy_text(bytes@),
        valid_utf8(bytes@) ==> s@ == decode_utf8(bytes@),
{
    String::from_utf8_lossy(bytes).into_owned()
}

/// The depth budget below which a generator raises the profile's.
pub const SQL_MIN_DEPTH: u32 = 80;

/// The statement text, tape map entries and modifier bytes of decoding `t`
/// from hooks `h`, or the error.
pub open spec fn sql_decoded<D: SqlDialect>(g: GrammarIr, p: Profile, h: SqlHooks<D>, t: Seq<u8>)
    -> Result<(Seq<char>, Seq<TapeEntry>, Seq<ModifierByte>), GenerateError> {
    let (st, r) = dec_prod(g, p, t, g.start, 0, init_state(h));
    match r {
        Ok(root) => Ok((lossy_text(flatten(st.nodes, root, st.nodes.len())), st.entries, st.mods)),
        Err(e) => Err(e),
    }
}

/// Generates SQL statements from a compiled grammar with schema-aware hooks.
pub struct SqlGenerator<D: SqlDialect> {
    grammar: GrammarIr,
    profile: Profile,
    context: SqlContext,
    dialect: D,
    /// Pool kinds, production kinds and column names, computed once.
    metadata: HookMetadata,
}

/// The decoding of a generated tape, from the hooks every run starts
/// from, gives back the statement and the tape map.
pub open spec fn generated_ok<D: SqlDialect>(gen: SqlGenerator<D>, sql: String, tape: DecisionTape, map: TapeMap) -> bool {
    exists|h: SqlHooks<D>| #[trigger] gen.start_hooks(h)
        && sql_decoded(gen.grammar_spec(), gen.profile_spec(), h, tape.bytes@)
            == Ok::<(Seq<char>, Seq<TapeEntry>, Seq<ModifierByte>), GenerateError>((sql@, map.entries@, map.modifier_bytes@))
}

/// What decoding `t` gave: the decoded statement and map, or the decoding error.
pub open spec fn decoded_ok<D: SqlDialect>(gen: SqlGenerator<D>, t: Seq<u8>, res: Result<(String, TapeMap), SqlError>) -> bool {
    forall|h: SqlHooks<D>| #[trigger] gen.start_hooks(h) ==> match sql_decoded(gen.grammar_spec(), gen.profile_spec(), h, t) {
        Ok((s, e, m)) => res matches Ok((sql, map)) && sql@ == s && map.entries@ == e && map.modifier_bytes@ == m,
        Err(e) => res matches Err(SqlError::Generate(e2)) && e2 == e,
    }
}

impl<D: SqlDialect> SqlGenerator<D> {
    pub closed spec fn grammar_spec(&self) -> GrammarIr {
        self.grammar
    }

    pub closed spec fn profile_spec(&self) -> Profile {
        self.profile
    }

    pub closed spec fn context_spec(&self) -> SqlContext {
        self.context
    }

    pub closed spec fn dialect_spec(&self) -> D {
        self.dialect
    }

    /// The hooks every run starts from: over this generator's schema,
    /// dialect and kinds, with no scope open.
    pub closed spec fn start_hooks(&self, h: SqlHooks<D>) -> bool {
        &&& *h.context == self.context
        &&& *h.dialect == self.dialect
        &&& h.pool_kinds@ == self.metadata.pool_kinds@
        &&& h.prod_kinds@ == self.metadata.prod_kinds@
        &&& h.all_columns@ == self.metadata.all_columns@
        &&& h.scope_depth == 0
    }

    /// Whether generation can run: the grammar and profile are ready.
    pub fn is_ready(&self) -> (b: bool)
        ensures
            b == generate_ready(self.grammar_spec(), self.profile_spec()),
    {
        crate::readiness::generate_is_ready(&self.grammar, &self.profile)
    }

    /// Whether decoding can run: the grammar and profile are valid.
    pub fn is_valid(&self) -> (b: bool)
        ensures
            b == (grammar_valid(self.grammar_spec()) && profile_valid(self.profile_spec())),
    {
        crate::readiness::grammar_is_valid(&self.grammar) && crate::readiness::profile_is_valid(&self.profile)
    }

    /// Two hook states that both start a run are the same.
    proof fn lemma_start_hooks_unique(&self, h1: SqlHooks<D>, h2: SqlHooks<D>)
        requires
            self.start_hooks(h1),
            self.start_hooks(h2),
        ensures
            h1 == h2,
    {
        broadcast use vstd::slice::group_slice_axioms;
        assert(h1.pool_kinds =~= h2.pool_kinds);
        assert(h1.prod_kinds =~= h2.prod_kinds);
        assert(h1.all_columns =~= h2.all_columns);
    }

    /// Generate a statement: its text, the tape of the decisions made, and
    /// the tape map.
    pub fn generate(&self, rng: &mut SmallRng) -> (res: Result<(String, DecisionTape, TapeMap), SqlError>)
        requires
            generate_ready(self.grammar_spec(), self.profile_spec()),
        ensures
            res matches Err(e) ==> e is Generate,
            roundtrip_ready(self.grammar_spec()) ==> (res matches Ok((sql, tape, map)) ==> generated_ok(*self, sql, tape, map)),
    {
        let mut hooks = SqlHooks::new(
            &self.context,
            &self.dialect,
            self.metadata.pool_kinds.as_slice(),
            self.metadata.prod_kinds.as_slice(),
            self.metadata.all_columns.as_slice(),
        );
        let ghost h0 = hooks;
        assert(self.start_hooks(h0));
        let r = generate_with_hooks(&self.grammar, self.grammar.start, &self.profile, rng, &mut hooks);
        match r {
            Ok((ast, tape, map)) => {
                let bytes = ast.serialize();
                let sql = text_lossy(bytes.as_slice());
                proof {
                    if roundtrip_ready(self.grammar) {
                        assert(ast.nodes@.len() == ast@.nodes.len());
                        assert(self.start_hooks(h0) && sql_decoded(self.grammar, self.profile, h0, tape.bytes@)
                            == Ok::<(Seq<char>, Seq<TapeEntry>, Seq<ModifierByte>), GenerateError>((sql@, map.entries@, map.modifier_bytes@)));
                    }
                }
                Ok((sql, tape, map))
            },
            Err(e) => Err(SqlError::Generate(e)),
        }
    }

    /// Decode a statement from a recorded tape.
    pub fn decode(&self, tape: &DecisionTape) -> (res: Result<(String, TapeMap), SqlError>)
        requires
            grammar_valid(self.grammar_spec()),
            profile_valid(self.profile_spec()),
        ensures
            decoded_ok(*self, tape.bytes@, res),
    {
        let mut hooks = SqlHooks::new(
            &self.context,
            &self.dialect,
            self.metadata.pool_kinds.as_slice(),
            self.metadata.prod_kinds.as_slice(),
            self.metadata.all_columns.as_slice(),
        );
        let ghost h0 = hooks;
        assert(self.start_hooks(h0));
        let r = decode_with_hooks(&self.grammar, &self.profile, tape.bytes.as_slice(), &mut hooks);
        let res = match r {
            Ok((ast, map)) => {
                let bytes = ast.serialize();
                let sql = text_lossy(bytes.as_slice());
                assert(ast.nodes@.len() == ast@.nodes.len());
                Ok((sql, map))
            },
            Err(e) => Err(SqlError::Generate(e)),
        };
        proof {
            assert forall|h: SqlHooks<D>| #[trigger] self.start_hooks(h) implies match sql_decoded(self.grammar, self.profile, h, tape.bytes@) {
                Ok((s, e, m)) => res matches Ok((sql, map)) && sql@ == s && map.entries@ == e && map.modifier_bytes@ == m,
                Err(e) => res matches Err(SqlError::Generate(e2)) && e2 == e,
            } by {
                self.lemma_start_hooks_unique(h, h0);
            }
        }
        res
    }
}

/// Hook metadata that describes grammar `g` and schema `c`: the kind of
/// each pool and production by name, and every column name in order.
pub open spec fn metadata_describes(m: HookMetadata, g: GrammarIr, c: SqlContext) -> bool {
    &&& m.pool_kinds@.len() == g.token_pools@.len()
    &&& forall|i: int| 0 <= i < m.pool_kinds@.len() ==> #[trigger] m.pool_kinds@[i] == pool_kind_spec(g.token_pools@[i].name@)
    &&& m.prod_kinds@.len() == g.productions@.len()
    &&& forall|i: int| 0 <= i < m.prod_kinds@.len() ==> #[trigger] m.prod_kinds@[i] == prod_kind_spec(g.productions@[i].name@)
    &&& m.all_columns@.map_values(|s: String| s@) == column_names(c.tables@)
}

/// The profile a generator runs with: the given one, its depth budget
/// raised to at least [`SQL_MIN_DEPTH`].
pub open spec fn sql_profile(given: Profile, used: Profile) -> bool {
    &&& used.validity_mode == given.validity_mode
    &&& used.max_depth == if given.max_depth < SQL_MIN_DEPTH { SQL_MIN_DEPTH } else { given.max_depth }
    &&& used.max_total_nodes == given.max_total_nodes
    &&& used.repetition_bounds == given.repetition_bounds
    &&& used.dictionary@ == given.dictionary@
}

/// The default profile, as [`Profile::default_profile`] makes it.
pub open spec fn default_profile_spec(p: Profile) -> bool {
    &&& p.validity_mode == ValidityMode::Strict
    &&& p.max_depth == 20
    &&& p.max_total_nodes == 10_000
    &&& p.repetition_bounds == (0u32, 5u32)
    &&& p.dictionary@.len() == 0
}

impl<D: SqlDialect> SqlGenerator<D> {
    pub closed spec fn metadata_spec(&self) -> HookMetadata {
        self.metadata
    }
}

impl SqlGenerator<SqliteDialect> {
    /// A generator with the default settings: SQLite dialect, synthetic
    /// schema, default profile, and the grammar sources of a fresh builder,
    /// which are empty and so fail to compile.
    pub fn new() -> (r: Result<SqlGenerator<SqliteDialect>, SqlError>)
        ensures
            r matches Err(SqlError::Grammar(_)),
    {
        SqlGeneratorBuilder::new().build()
    }

    /// A builder with nothing set.
    pub fn builder() -> (b: SqlGeneratorBuilder<SqliteDialect>)
        ensures
            b.context_spec() is None,
            b.profile_spec() is None,
            b.lexer_spec() is None,
            b.parser_spec() is None,
    {
        SqlGeneratorBuilder::new()
    }
}

/// Settings for a [`SqlGenerator`]: schema, dialect, profile and the
/// lexer and parser sources of the split grammar.
pub struct SqlGeneratorBuilder<D: SqlDialect> {
    context: Option<SqlContext>,
    dialect: D,
    profile: Option<Profile>,
    lexer_source: Option<String>,
    parser_source: Option<String>,
}

/// The text of a source that may be unset: empty when it is.
pub open spec fn text_or_empty(o: Option<Seq<char>>) -> Seq<char> {
    match o {
        Some(t) => t,
        None => Seq::empty(),
    }
}

pub open spec fn opt_text(o: Option<String>) -> Option<Seq<char>> {
    match o {
        Some(s) => Some(s@),
        None => None,
    }
}

impl SqlGeneratorBuilder<SqliteDialect> {
    /// A builder with the SQLite dialect and nothing else set.
    pub fn new() -> (b: SqlGeneratorBuilder<SqliteDialect>)
        ensures
            b.context_spec() is None,
            b.profile_spec() is None,
            b.lexer_spec() is None,
            b.parser_spec() is None,
    {
        SqlGeneratorBuilder { context: None, dialect: SqliteDialect, profile: None, lexer_source: None, parser_source: None }
    }
}

impl<D: SqlDialect> SqlGeneratorBuilder<D> {
    pub closed spec fn context_spec(&self) -> Option<SqlContext> {
        self.context
    }

    pub closed spec fn dialect_spec(&self) -> D {
        self.dialect
    }

    pub closed spec fn profile_spec(&self) -> Option<Profile> {
        self.profile
    }

    pub closed spec fn lexer_spec(&self) -> Option<Seq<char>> {
        opt_text(self.lexer_source)
    }

    pub closed spec fn parser_spec(&self) -> Option<Seq<char>> {
        opt_text(self.parser_source)
    }

    /// Set the schema.
    pub fn context(self, ctx: SqlContext) -> (b: Self)
        ensures
            b.context_spec() == Some(ctx),
            b.dialect_spec() == self.dialect_spec(),
            b.profile_spec() == self.profile_spec(),
            b.lexer_spec() == self.lexer_spec(),
            b.parser_spec() == self.parser_spec(),
    {
        SqlGeneratorBuilder { context: Some(ctx), ..self }
    }

    /// Set the dialect.
    pub fn dialect<E: SqlDialect>(self, d: E) -> (b: SqlGeneratorBuilder<E>)
        ensures
            b.context_spec() == self.context_spec(),
            b.dialect_spec() == d,
            b.profile_spec() == self.profile_spec(),
            b.lexer_spec() == self.lexer_spec(),
            b.parser_spec() == self.parser_spec(),
    {
        SqlGeneratorBuilder {
            context: self.context,
            dialect: d,
            profile: self.profile,
            lexer_source: self.lexer_source,
            parser_source: self.parser_source,
        }
    }

    /// Set the generation profile.
    pub fn profile(self, p: Profile) -> (b: Self)
        ensures
            b.context_spec() == self.context_spec(),
            b.dialect_spec() == self.dialect_spec(),
            b.profile_spec() == Some(p),
            b.lexer_spec() == self.lexer_spec(),
            b.parser_spec() == self.parser_spec(),
    {
        SqlGeneratorBuilder { profile: Some(p), ..self }
    }

    /// Set the sources of the split grammar.
    pub fn grammar(self, lexer_source: &str, parser_source: &str) -> (b: Self)
        ensures
            b.context_spec() == self.context_spec(),
            b.dialect_spec() == self.dialect_spec(),
            b.profile_spec() == self.profile_spec(),
            b.lexer_spec() == Some(lexer_source@),
            b.parser_spec() == Some(parser_source@),
    {
        SqlGeneratorBuilder {
            lexer_source: Some(String::from_str(lexer_source)),
            parser_source: Some(String::from_str(parser_source)),
            ..self
        }
    }

    /// Compile the grammar and assemble the generator: the schema or the
    /// synthetic one, the profile or the default one with its depth budget
    /// raised, and the hook metadata of grammar and schema. A source that is
    /// not set is empty; without a parser source compilation fails.
    pub fn build(self) -> (r: Result<SqlGenerator<D>, SqlError>)
        ensures
            r matches Err(e) ==> e is Grammar,
            (self.parser_spec() is None || self.parser_spec() == Some(Seq::<char>::empty())) ==> r is Err,
            antlr_rules(text_or_empty(self.parser_spec())) matches Some(rs)
                && antlr_lexer_rules(text_or_empty(self.lexer_spec())) matches Some(lx)
                && split_ready(rs, lx)
                && text_or_empty(self.parser_spec()).len() < usize::MAX / 4
                && text_or_empty(self.lexer_spec()).len() < usize::MAX / 4 ==> r is Ok,
            r matches Ok(gen) ==> {
                &&& exists|rules: Seq<RawRule<RawItem>>, lexer: Seq<LexRuleV>| rules.len() > 0
                    && antlr_rules(text_or_empty(self.parser_spec())) == Some(rules_view(rules))
                    && antlr_lexer_rules(text_or_empty(self.lexer_spec())) == Some(lexer)
                    && #[trigger] split_built_ok(rules, lexer, gen.grammar_spec())
                &&& gen.dialect_spec() == self.dialect_spec()
                &&& match self.context_spec() {
                    Some(c) => gen.context_spec() == c,
                    None => synthetic_schema(gen.context_spec()),
                }
                &&& exists|given: Profile| #[trigger] sql_profile(given, gen.profile_spec()) && match self.profile_spec() {
                    Some(p) => given == p,
                    None => default_profile_spec(given),
                }
                &&& metadata_describes(gen.metadata_spec(), gen.grammar_spec(), gen.context_spec())
            },
    {
        let lexer_src = match self.lexer_source {
            Some(s) => s,
            None => String::new(),
        };
        let parser_src = match self.parser_source {
            Some(s) => s,
            None => String::new(),
        };
        if lexer_src.as_str().unicode_len() >= usize::MAX / 4 || parser_src.as_str().unicode_len() >= usize::MAX / 4 {
            return Err(SqlError::Grammar(ParseError { line: 0, column: 0, message: String::from_str("grammar too large") }));
        }
        let grammar = match compile_split(lexer_src.as_str(), parser_src.as_str()) {
            Ok(g) => g,
            Err(e) => {
                return Err(SqlError::Grammar(e));
            },
        };
        let context = match self.context {
            Some(c) => c,
            None => SqlContext::synthetic(),
        };
        let given = match self.profile {
            Some(p) => p,
            None => Profile::default_profile(),
        };
        let ghost given_v = given;
        let mut profile = given;
        if profile.max_depth < SQL_MIN_DEPTH {
            profile.max_depth = SQL_MIN_DEPTH;
        }
        assert(sql_profile(given_v, profile));
        let metadata = HookMetadata::new(&grammar, &context);
        Ok(SqlGenerator { grammar, profile, context, dialect: self.dialect, metadata })
    }
}

/// A generated statement's tape decodes to the same statement and tape map.
pub proof fn lemma_sql_tape_roundtrip<D: SqlDialect>(
    gen: SqlGenerator<D>,
    sql: String,
    tape: DecisionTape,
    map: TapeMap,
    decoded: Result<(String, TapeMap), SqlError>,
)
    requires
        generated_ok(gen, sql, tape, map),
        decoded_ok(gen, tape.bytes@, decoded),
    ensures
        decoded matches Ok((sql2, map2)) && sql2@ == sql@ && map2.entries@ == map.entries@
            && map2.modifier_bytes@ == map.modifier_bytes@,
{
    let h = choose|h: SqlHooks<D>| #[trigger] gen.start_hooks(h)
        && sql_decoded(gen.grammar_spec(), gen.profile_spec(), h, tape.bytes@)
            == Ok::<(Seq<char>, Seq<TapeEntry>, Seq<ModifierByte>), GenerateError>((sql@, map.entries@, map.modifier_bytes@));
    assert(gen.start_hooks(h));
}

} // verus!
