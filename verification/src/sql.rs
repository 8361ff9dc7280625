//! The SQL layer: a schema context, dialect formatting rules, and semantic
//! hooks that put schema identifiers and typed literals into token pools.
use vstd::prelude::*;
use vstd::string::StringExecFns;
use vstd::string::StrSliceExecFns;
use vstd::utf8::encode_utf8;
use crate::ids::{PoolId, ProductionId};
use crate::grammar::GrammarIr;
use crate::hooks::{SemanticHooks, opt_bytes};
use crate::parse_error::ParseError;
use crate::error::GenerateError;
use crate::text::{chars_of, string_of, concat, decimal, decimal_spec, push_char};

verus! {

// ── Schema context ──

/// Schema context for SQL generation: tables, columns and functions, so
/// that generated SQL names real identifiers.
#[derive(Debug, Clone)]
pub struct SqlContext {
    pub tables: Vec<Table>,
    pub functions: Vec<Function>,
}

#[derive(Debug, Clone)]
pub struct Table {
    pub name: String,
    pub columns: Vec<Column>,
}

#[derive(Debug, Clone)]
pub struct Column {
    pub name: String,
    pub ty: SqlType,
    pub nullable: bool,
}

#[derive(Debug, Clone)]
pub struct Function {
    pub name: String,
    pub args: Vec<SqlType>,
    pub ret: SqlType,
}

#[derive(Debug, Clone)]
pub enum SqlType {
    Integer,
    Float,
    Text,
    Boolean,
    Timestamp,
    Blob,
    Custom(String),
}

/// A column with this name, type and nullability.
pub open spec fn column_is(c: Column, name: Seq<char>, ty: SqlType, nullable: bool) -> bool {
    &&& c.name@ == name
    &&& c.ty == ty
    &&& c.nullable == nullable
}

/// A function of one argument with this name, argument type and result type.
pub open spec fn function_is(f: Function, name: Seq<char>, arg: SqlType, ret: SqlType) -> bool {
    &&& f.name@ == name
    &&& f.args@ == seq![arg]
    &&& f.ret == ret
}

fn column(name: &str, ty: SqlType, nullable: bool) -> (c: Column)
    ensures
        c.name@ == name@,
        c.ty == ty,
        c.nullable == nullable,
{
    Column { name: String::from_str(name), ty, nullable }
}

fn function(name: &str, arg: SqlType, ret: SqlType) -> (f: Function)
    ensures
        function_is(f, name@, arg, ret),
{
    let mut args: Vec<SqlType> = Vec::new();
    args.push(arg);
    Function { name: String::from_str(name), args, ret }
}

/// The synthetic schema: `users`, `orders` and `products` with their
/// columns, and the aggregate functions.
pub open spec fn synthetic_schema(ctx: SqlContext) -> bool {
    &&& ctx.tables@.len() == 3
    &&& ctx.tables@[0].name@ == "users"@
    &&& ctx.tables@[0].columns@.len() == 6
    &&& column_is(ctx.tables@[0].columns@[0], "id"@, SqlType::Integer, false)
    &&& column_is(ctx.tables@[0].columns@[1], "name"@, SqlType::Text, false)
    &&& column_is(ctx.tables@[0].columns@[2], "email"@, SqlType::Text, true)
    &&& column_is(ctx.tables@[0].columns@[3], "age"@, SqlType::Integer, true)
    &&& column_is(ctx.tables@[0].columns@[4], "active"@, SqlType::Boolean, false)
    &&& column_is(ctx.tables@[0].columns@[5], "created_at"@, SqlType::Timestamp, false)
    &&& ctx.tables@[1].name@ == "orders"@
    &&& ctx.tables@[1].columns@.len() == 6
    &&& column_is(ctx.tables@[1].columns@[0], "id"@, SqlType::Integer, false)
    &&& column_is(ctx.tables@[1].columns@[1], "user_id"@, SqlType::Integer, false)
    &&& column_is(ctx.tables@[1].columns@[2], "product_id"@, SqlType::Integer, false)
    &&& column_is(ctx.tables@[1].columns@[3], "quantity"@, SqlType::Integer, false)
    &&& column_is(ctx.tables@[1].columns@[4], "total"@, SqlType::Float, false)
    &&& column_is(ctx.tables@[1].columns@[5], "status"@, SqlType::Text, false)
    &&& ctx.tables@[2].name@ == "products"@
    &&& ctx.tables@[2].columns@.len() == 4
    &&& column_is(ctx.tables@[2].columns@[0], "id"@, SqlType::Integer, false)
    &&& column_is(ctx.tables@[2].columns@[1], "name"@, SqlType::Text, false)
    &&& column_is(ctx.tables@[2].columns@[2], "price"@, SqlType::Float, false)
    &&& column_is(ctx.tables@[2].columns@[3], "category"@, SqlType::Text, true)
    &&& ctx.functions@.len() == 5
    &&& function_is(ctx.functions@[0], "COUNT"@, SqlType::Integer, SqlType::Integer)
    &&& function_is(ctx.functions@[1], "SUM"@, SqlType::Float, SqlType::Float)
    &&& function_is(ctx.functions@[2], "MAX"@, SqlType::Integer, SqlType::Integer)
    &&& function_is(ctx.functions@[3], "MIN"@, SqlType::Integer, SqlType::Integer)
    &&& function_is(ctx.functions@[4], "AVG"@, SqlType::Float, SqlType::Float)
}

impl SqlContext {
    /// A synthetic schema for zero-config use: `users`, `orders` and
    /// `products`, and the aggregate functions.
    pub fn synthetic() -> (ctx: SqlContext)
        ensures
            synthetic_schema(ctx),
    {
        let mut users: Vec<Column> = Vec::new();
        users.push(column("id", SqlType::Integer, false));
        users.push(column("name", SqlType::Text, false));
        users.push(column("email", SqlType::Text, true));
        users.push(column("age", SqlType::Integer, true));
        users.push(column("active", SqlType::Boolean, false));
        users.push(column("created_at", SqlType::Timestamp, false));
        let mut orders: Vec<Column> = Vec::new();
        orders.push(column("id", SqlType::Integer, false));
        orders.push(column("user_id", SqlType::Integer, false));
        orders.push(column("product_id", SqlType::Integer, false));
        orders.push(column("quantity", SqlType::Integer, false));
        orders.push(column("total", SqlType::Float, false));
        orders.push(column("status", SqlType::Text, false));
        let mut products: Vec<Column> = Vec::new();
        products.push(column("id", SqlType::Integer, false));
        products.push(column("name", SqlType::Text, false));
        products.push(column("price", SqlType::Float, false));
        products.push(column("category", SqlType::Text, true));
        let mut tables: Vec<Table> = Vec::new();
        tables.push(Table { name: String::from_str("users"), columns: users });
        tables.push(Table { name: String::from_str("orders"), columns: orders });
        tables.push(Table { name: String::from_str("products"), columns: products });
        let mut functions: Vec<Function> = Vec::new();
        functions.push(function("COUNT", SqlType::Integer, SqlType::Integer));
        functions.push(function("SUM", SqlType::Float, SqlType::Float));
        functions.push(function("MAX", SqlType::Integer, SqlType::Integer));
        functions.push(function("MIN", SqlType::Integer, SqlType::Integer));
        functions.push(function("AVG", SqlType::Float, SqlType::Float));
        SqlContext { tables, functions }
    }
}

// ── Dialects ──

/// `'`-quoted with each `'` doubled.
pub open spec fn escape_quotes(v: Seq<char>) -> Seq<char>
    decreases v.len(),
{
    if v.len() == 0 {
        seq![]
    } else if v.last() == '\'' {
        escape_quotes(v.drop_last()) + seq!['\'', '\'']
    } else {
        escape_quotes(v.drop_last()).push(v.last())
    }
}

/// The ANSI string literal of `v`.
pub open spec fn string_literal_spec(v: Seq<char>) -> Seq<char> {
    seq!['\''] + escape_quotes(v) + seq!['\'']
}

/// Dialect-specific SQL formatting rules.
pub trait SqlDialect {
    spec fn name_spec(&self) -> Seq<char>;

    /// How an identifier is quoted.
    spec fn quote_spec(&self, name: Seq<char>) -> Seq<char>;

    /// How a boolean is written.
    spec fn bool_spec(&self, val: bool) -> Seq<char>;

    fn name(&self) -> (r: &str)
        ensures
            r@ == self.name_spec(),
    ;

    fn quote_identifier(&self, name: &str) -> (r: String)
        ensures
            r@ == self.quote_spec(name@),
    ;

    /// A string literal: single quotes, inner single quotes doubled.
    fn string_literal(&self, val: &str) -> (r: String)
        ensures
            r@ == string_literal_spec(val@),
    ;

    fn bool_literal(&self, val: bool) -> (r: String)
        ensures
            r@ == self.bool_spec(val),
    ;
}

/// `"name"`: ANSI identifier quoting.
pub open spec fn ansi_quote_spec(name: Seq<char>) -> Seq<char> {
    seq!['"'] + name + seq!['"']
}

/// `TRUE` / `FALSE`.
pub open spec fn ansi_bool_spec(val: bool) -> Seq<char> {
    if val { "TRUE"@ } else { "FALSE"@ }
}

/// `1` / `0`.
pub open spec fn numeric_bool_spec(val: bool) -> Seq<char> {
    if val { "1"@ } else { "0"@ }
}

fn wrap(open: char, s: &str, close: char) -> (r: String)
    ensures
        r@ == seq![open] + s@ + seq![close],
{
    let mut out = String::new();
    push_char(&mut out, open);
    let body = concat(out.as_str(), s);
    let mut out = body;
    push_char(&mut out, close);
    out
}

fn ansi_string_literal(val: &str) -> (r: String)
    ensures
        r@ == string_literal_spec(val@),
{
    let cs = chars_of(val);
    let mut out: Vec<char> = Vec::new();
    out.push('\'');
    let mut i: usize = 0;
    while i < cs.len()
        invariant
            0 <= i <= cs@.len(),
            cs@ == val@,
            out@ == seq!['\''] + escape_quotes(cs@.take(i as int)),
        decreases cs@.len() - i,
    {
        let c = cs[i];
        assert(cs@.take(i as int + 1).drop_last() =~= cs@.take(i as int));
        if c == '\'' {
            out.push('\'');
            out.push('\'');
        } else {
            out.push(c);
        }
        i += 1;
    }
    out.push('\'');
    assert(cs@.take(cs@.len() as int) =~= cs@);
    string_of(&out)
}

fn ansi_bool_literal(val: bool) -> (r: String)
    ensures
        r@ == ansi_bool_spec(val),
{
    if val {
        String::from_str("TRUE")
    } else {
        String::from_str("FALSE")
    }
}

fn numeric_bool_literal(val: bool) -> (r: String)
    ensures
        r@ == numeric_bool_spec(val),
{
    if val {
        String::from_str("1")
    } else {
        String::from_str("0")
    }
}

pub struct GenericDialect;

pub struct PostgresDialect;

pub struct TrinoDialect;

pub struct SqliteDialect;

pub struct MySqlDialect;

impl SqlDialect for GenericDialect {
    open spec fn name_spec(&self) -> Seq<char> {
        "generic"@
    }

    open spec fn quote_spec(&self, name: Seq<char>) -> Seq<char> {
        ansi_quote_spec(name)
    }

    open spec fn bool_spec(&self, val: bool) -> Seq<char> {
        ansi_bool_spec(val)
    }

    fn name(&self) -> (r: &str) {
        "generic"
    }

    fn quote_identifier(&self, name: &str) -> (r: String) {
        wrap('"', name, '"')
    }

    fn string_literal(&self, val: &str) -> (r: String) {
        ansi_string_literal(val)
    }

    fn bool_literal(&self, val: bool) -> (r: String) {
        ansi_bool_literal(val)
    }
}

impl SqlDialect for PostgresDialect {
    open spec fn name_spec(&self) -> Seq<char> {
        "postgresql"@
    }

    open spec fn quote_spec(&self, name: Seq<char>) -> Seq<char> {
        ansi_quote_spec(name)
    }

    open spec fn bool_spec(&self, val: bool) -> Seq<char> {
        ansi_bool_spec(val)
    }

    fn name(&self) -> (r: &str) {
        "postgresql"
    }

    fn quote_identifier(&self, name: &str) -> (r: String) {
        wrap('"', name, '"')
    }

    fn string_literal(&self, val: &str) -> (r: String) {
        ansi_string_literal(val)
    }

    fn bool_literal(&self, val: bool) -> (r: String) {
        ansi_bool_literal(val)
    }
}

impl SqlDialect for TrinoDialect {
    open spec fn name_spec(&self) -> Seq<char> {
        "trino"@
    }

    open spec fn quote_spec(&self, name: Seq<char>) -> Seq<char> {
        ansi_quote_spec(name)
    }

    open spec fn bool_spec(&self, val: bool) -> Seq<char> {
        ansi_bool_spec(val)
    }

    fn name(&self) -> (r: &str) {
        "trino"
    }

    fn quote_identifier(&self, name: &str) -> (r: String) {
        wrap('"', name, '"')
    }

    fn string_literal(&self, val: &str) -> (r: String) {
        ansi_string_literal(val)
    }

    fn bool_literal(&self, val: bool) -> (r: String) {
        ansi_bool_literal(val)
    }
}

/// SQLite: booleans are `1` and `0`.
impl SqlDialect for SqliteDialect {
    open spec fn name_spec(&self) -> Seq<char> {
        "sqlite"@
    }

    open spec fn quote_spec(&self, name: Seq<char>) -> Seq<char> {
        ansi_quote_spec(name)
    }

    open spec fn bool_spec(&self, val: bool) -> Seq<char> {
        numeric_bool_spec(val)
    }

    fn name(&self) -> (r: &str) {
        "sqlite"
    }

    fn quote_identifier(&self, name: &str) -> (r: String) {
        wrap('"', name, '"')
    }

    fn string_literal(&self, val: &str) -> (r: String) {
        ansi_string_literal(val)
    }

    fn bool_literal(&self, val: bool) -> (r: String) {
        numeric_bool_literal(val)
    }
}

/// MySQL: identifiers in backticks (double quotes only under the
/// non-default ANSI_QUOTES mode), booleans as `1` and `0`, which is what
/// MySQL resolves `TRUE` and `FALSE` to.
impl SqlDialect for MySqlDialect {
    open spec fn name_spec(&self) -> Seq<char> {
        "mysql"@
    }

    open spec fn quote_spec(&self, name: Seq<char>) -> Seq<char> {
        seq!['`'] + name + seq!['`']
    }

    open spec fn bool_spec(&self, val: bool) -> Seq<char> {
        numeric_bool_spec(val)
    }

    fn name(&self) -> (r: &str) {
        "mysql"
    }

    fn quote_identifier(&self, name: &str) -> (r: String) {
        wrap('`', name, '`')
    }

    fn string_literal(&self, val: &str) -> (r: String) {
        ansi_string_literal(val)
    }

    fn bool_literal(&self, val: bool) -> (r: String) {
        numeric_bool_literal(val)
    }
}

// ── Semantic hooks ──

/// The kind of a token pool, from the name of its lexer rule.
#[derive(Clone, Copy, PartialEq, Eq, Debug, Structural)]
pub enum PoolKind {
    Identifier,
    NumericLiteral,
    StringLiteral,
    Other,
}

/// The kind of a production, for scope tracking.
#[derive(Clone, Copy, PartialEq, Eq, Debug, Structural)]
pub enum ProdKind {
    /// FROM/JOIN-like: opens a scope.
    ScopeProducer,
    Other,
}

/// ASCII upper case of one character.
pub open spec fn ascii_upper(c: char) -> char {
    if 'a' <= c && c <= 'z' {
        ((c as u32) - 32) as char
    } else {
        c
    }
}

pub open spec fn upper_spec(s: Seq<char>) -> Seq<char> {
    s.map_values(|c: char| ascii_upper(c))
}

/// A pool name's kind, by its upper-case form.
pub open spec fn pool_kind_spec(name: Seq<char>) -> PoolKind {
    let u = upper_spec(name);
    if u == "IDENTIFIER"@ || u == "ID"@ || u == "SIMPLE_ID"@ || u == "GENERAL_ID"@ {
        PoolKind::Identifier
    } else if u == "NUMERIC_LITERAL"@ || u == "NUMBER_LITERAL"@ || u == "INTEGER_LITERAL"@
        || u == "DECIMAL_LITERAL"@ || u == "INT_NUMBER"@ || u == "REAL_NUMBER"@ {
        PoolKind::NumericLiteral
    } else if u == "STRING_LITERAL"@ || u == "DQSTRING_LITERAL"@ || u == "SQSTRING_LITERAL"@ {
        PoolKind::StringLiteral
    } else {
        PoolKind::Other
    }
}

pub open spec fn ends_with_spec(s: Seq<char>, suffix: Seq<char>) -> bool {
    s.len() >= suffix.len() && s.subrange(s.len() - suffix.len(), s.len() as int) == suffix
}

/// A production name's kind: FROM and JOIN clauses, FROM items and table
/// references open a scope. Names are matched exactly or by suffix, not
/// by substring.
pub open spec fn prod_kind_spec(name: Seq<char>) -> ProdKind {
    if ends_with_spec(name, "from_clause"@) || ends_with_spec(name, "join_clause"@)
        || name == "from_item"@ || name == "table_or_subquery"@ {
        ProdKind::ScopeProducer
    } else {
        ProdKind::Other
    }
}

fn to_ascii_upper(name: &str) -> (u: String)
    ensures
        u@ == upper_spec(name@),
{
    let cs = chars_of(name);
    let mut out: Vec<char> = Vec::new();
    let mut i: usize = 0;
    while i < cs.len()
        invariant
            0 <= i <= cs@.len(),
            cs@ == name@,
            out@ == upper_spec(cs@.take(i as int)),
        decreases cs@.len() - i,
    {
        let c = cs[i];
        let u = if c >= 'a' && c <= 'z' {
            ((c as u8) - 32) as char
        } else {
            c
        };
        assert(u == ascii_upper(c));
        out.push(u);
        assert(upper_spec(cs@.take(i as int + 1)) =~= upper_spec(cs@.take(i as int)).push(ascii_upper(c)));
        i += 1;
    }
    assert(cs@.take(cs@.len() as int) =~= cs@);
    string_of(&out)
}

fn same(a: &String, b: &str) -> (r: bool)
    ensures
        r <==> a@ == b@,
{
    let b = String::from_str(b);
    *a == b
}

/// Classify a pool name (a lexer rule's name) regardless of case.
pub fn classify_pool(name: &str) -> (k: PoolKind)
    ensures
        k == pool_kind_spec(name@),
{
    let u = to_ascii_upper(name);
    if same(&u, "IDENTIFIER") || same(&u, "ID") || same(&u, "SIMPLE_ID") || same(&u, "GENERAL_ID") {
        PoolKind::Identifier
    } else if same(&u, "NUMERIC_LITERAL") || same(&u, "NUMBER_LITERAL") || same(&u, "INTEGER_LITERAL")
        || same(&u, "DECIMAL_LITERAL") || same(&u, "INT_NUMBER") || same(&u, "REAL_NUMBER") {
        PoolKind::NumericLiteral
    } else if same(&u, "STRING_LITERAL") || same(&u, "DQSTRING_LITERAL") || same(&u, "SQSTRING_LITERAL") {
        PoolKind::StringLiteral
    } else {
        PoolKind::Other
    }
}

fn ends_with(cs: &Vec<char>, suffix: &str) -> (r: bool)
    ensures
        r <==> ends_with_spec(cs@, suffix@),
{
    let sc = chars_of(suffix);
    if sc.len() > cs.len() {
        return false;
    }
    let n = cs.len();
    let off = n - sc.len();
    let mut i: usize = 0;
    while i < sc.len()
        invariant
            0 <= i <= sc@.len(),
            n == cs@.len(),
            sc@ == suffix@,
            off + sc@.len() == cs@.len(),
            forall|k: int| 0 <= k < i ==> cs@[off + k] == #[trigger] sc@[k],
        decreases sc@.len() - i,
    {
        if cs[off + i] != sc[i] {
            assert(cs@.subrange(off as int, cs@.len() as int)[i as int] != suffix@[i as int]);
            return false;
        }
        i += 1;
    }
    assert(cs@.subrange(off as int, cs@.len() as int) =~= suffix@);
    true
}

/// Classify a production name for scope tracking.
pub fn classify_prod(name: &str) -> (k: ProdKind)
    ensures
        k == prod_kind_spec(name@),
{
    let cs = chars_of(name);
    let n = String::from_str(name);
    if ends_with(&cs, "from_clause") || ends_with(&cs, "join_clause") || same(&n, "from_item") || same(&n, "table_or_subquery") {
        ProdKind::ScopeProducer
    } else {
        ProdKind::Other
    }
}

/// The words a string-literal pool draws from.
pub open spec fn word_spec(i: int) -> Seq<char> {
    if i == 0 {
        "foo"@
    } else if i == 1 {
        "bar"@
    } else if i == 2 {
        "baz"@
    } else if i == 3 {
        "qux"@
    } else if i == 4 {
        "hello"@
    } else if i == 5 {
        "world"@
    } else if i == 6 {
        "test"@
    } else {
        "data"@
    }
}

fn word(i: usize) -> (w: &'static str)
    requires
        i < 8,
    ensures
        w@ == word_spec(i as int),
{
    if i == 0 {
        "foo"
    } else if i == 1 {
        "bar"
    } else if i == 2 {
        "baz"
    } else if i == 3 {
        "qux"
    } else if i == 4 {
        "hello"
    } else if i == 5 {
        "world"
    } else if i == 6 {
        "test"
    } else {
        "data"
    }
}

/// The UTF-8 bytes of a string.
fn utf8_bytes(s: &String) -> (b: Vec<u8>)
    ensures
        b@ == encode_utf8(s@),
{
    vstd::slice::slice_to_vec(s.as_str().as_bytes())
}

/// SQL-aware semantic hooks: token pools of identifiers get table and
/// column names of the schema, numeric and string pools get literals; the
/// depth of FROM/JOIN scopes is tracked.
pub struct SqlHooks<'a, D: SqlDialect> {
    pub context: &'a SqlContext,
    pub dialect: &'a D,
    pub pool_kinds: &'a [PoolKind],
    pub prod_kinds: &'a [ProdKind],
    /// Every column name of every table, in order.
    pub all_columns: &'a [String],
    /// The number of open FROM/JOIN scopes.
    pub scope_depth: u32,
}

/// The kind of pool `pool_id`: `Other` when it has none.
pub open spec fn kind_of_pool(kinds: Seq<PoolKind>, pool_id: PoolId) -> PoolKind {
    if pool_id.0 < kinds.len() {
        kinds[pool_id.0 as int]
    } else {
        PoolKind::Other
    }
}

/// Whether production `prod_id` opens a scope.
pub open spec fn opens_scope(kinds: Seq<ProdKind>, prod_id: ProductionId) -> bool {
    prod_id.0 < kinds.len() && kinds[prod_id.0 as int] == ProdKind::ScopeProducer
}

impl<'a, D: SqlDialect> SqlHooks<'a, D> {
    /// Hooks over a schema, a dialect, and the kinds of the grammar's pools
    /// and productions; no scope open.
    pub fn new(context: &'a SqlContext, dialect: &'a D, pool_kinds: &'a [PoolKind], prod_kinds: &'a [ProdKind], all_columns: &'a [String]) -> (h: Self)
        ensures
            h.context == context,
            h.dialect == dialect,
            h.pool_kinds@ == pool_kinds@,
            h.prod_kinds@ == prod_kinds@,
            h.all_columns@ == all_columns@,
            h.scope_depth == 0,
    {
        SqlHooks { context, dialect, pool_kinds, prod_kinds, all_columns, scope_depth: 0 }
    }

    /// A quoted table name, picked by the byte; none without tables.
    pub open spec fn table_answer(&self, tape_byte: u8) -> Option<Seq<u8>> {
        let n = self.context.tables@.len();
        if n == 0 {
            None
        } else {
            Some(encode_utf8(self.dialect.quote_spec(self.context.tables@[tape_byte as int % n as int].name@)))
        }
    }

    /// A quoted column name, picked by the byte; none without columns.
    pub open spec fn column_answer(&self, tape_byte: u8) -> Option<Seq<u8>> {
        let n = self.all_columns@.len();
        if n == 0 {
            None
        } else {
            Some(encode_utf8(self.dialect.quote_spec(self.all_columns@[tape_byte as int % n as int]@)))
        }
    }

    /// What a pool of each kind expands to: identifiers alternate tables
    /// (even bytes) and columns (odd bytes), numbers are `7 * byte + 1`,
    /// strings one of eight words; other pools fall through.
    pub open spec fn pool_answer(&self, pool_id: PoolId, tape_byte: u8) -> Option<Seq<u8>> {
        match kind_of_pool(self.pool_kinds@, pool_id) {
            PoolKind::Identifier => if tape_byte % 2 == 0 {
                self.table_answer(tape_byte)
            } else {
                self.column_answer(tape_byte)
            },
            PoolKind::NumericLiteral => Some(encode_utf8(decimal_spec((tape_byte * 7 + 1) as nat))),
            PoolKind::StringLiteral => Some(encode_utf8(string_literal_spec(word_spec(tape_byte as int % 8)))),
            PoolKind::Other => None,
        }
    }

    fn pick_table_name(&self, tape_byte: u8) -> (r: Option<Vec<u8>>)
        ensures
            opt_bytes(r) == self.table_answer(tape_byte),
    {
        if self.context.tables.len() == 0 {
            return None;
        }
        let idx = tape_byte as usize % self.context.tables.len();
        let q = self.dialect.quote_identifier(self.context.tables[idx].name.as_str());
        Some(utf8_bytes(&q))
    }

    fn pick_column_name(&self, tape_byte: u8) -> (r: Option<Vec<u8>>)
        ensures
            opt_bytes(r) == self.column_answer(tape_byte),
    {
        if self.all_columns.len() == 0 {
            return None;
        }
        let idx = tape_byte as usize % self.all_columns.len();
        let q = self.dialect.quote_identifier(self.all_columns[idx].as_str());
        Some(utf8_bytes(&q))
    }

    fn pick_number(&self, tape_byte: u8) -> (b: Vec<u8>)
        ensures
            b@ == encode_utf8(decimal_spec((tape_byte * 7 + 1) as nat)),
    {
        let d = decimal(tape_byte as u64 * 7 + 1);
        utf8_bytes(&d)
    }

    fn pick_string_literal(&self, tape_byte: u8) -> (b: Vec<u8>)
        ensures
            b@ == encode_utf8(string_literal_spec(word_spec(tape_byte as int % 8))),
    {
        let idx = tape_byte as usize % 8;
        let lit = self.dialect.string_literal(word(idx));
        utf8_bytes(&lit)
    }
}

impl<'a, D: SqlDialect> SemanticHooks for SqlHooks<'a, D> {
    open spec fn production_spec(&self, hook_name: Seq<char>, tape_byte: u8, prod_id: ProductionId) -> (Self, Option<Seq<u8>>) {
        (*self, None)
    }

    open spec fn token_pool_spec(&self, pool_id: PoolId, tape_byte: u8) -> (Self, Option<Seq<u8>>) {
        (*self, self.pool_answer(pool_id, tape_byte))
    }

    open spec fn enter_spec(&self, prod_id: ProductionId) -> Self {
        if opens_scope(self.prod_kinds@, prod_id) {
            SqlHooks { scope_depth: (if self.scope_depth == u32::MAX { 0 } else { self.scope_depth + 1 }) as u32, ..*self }
        } else {
            *self
        }
    }

    open spec fn exit_spec(&self, prod_id: ProductionId) -> Self {
        if opens_scope(self.prod_kinds@, prod_id) {
            SqlHooks { scope_depth: (if self.scope_depth == 0 { 0 } else { self.scope_depth - 1 }) as u32, ..*self }
        } else {
            *self
        }
    }

    fn on_production(&mut self, hook_name: &str, tape_byte: u8, prod_id: ProductionId) -> (r: Option<Vec<u8>>) {
        None
    }

    fn on_token_pool(&mut self, pool_id: PoolId, tape_byte: u8) -> (r: Option<Vec<u8>>) {
        let kind = if (pool_id.0 as usize) < self.pool_kinds.len() {
            self.pool_kinds[pool_id.0 as usize]
        } else {
            PoolKind::Other
        };
        match kind {
            PoolKind::Identifier => {
                if tape_byte % 2 == 0 {
                    self.pick_table_name(tape_byte)
                } else {
                    self.pick_column_name(tape_byte)
                }
            },
            PoolKind::NumericLiteral => Some(self.pick_number(tape_byte)),
            PoolKind::StringLiteral => Some(self.pick_string_literal(tape_byte)),
            PoolKind::Other => None,
        }
    }

    fn enter_production(&mut self, prod_id: ProductionId) {
        if (prod_id.0 as usize) < self.prod_kinds.len() && self.prod_kinds[prod_id.0 as usize] == ProdKind::ScopeProducer {
            self.scope_depth = self.scope_depth.wrapping_add(1);
        }
    }

    fn exit_production(&mut self, prod_id: ProductionId) {
        if (prod_id.0 as usize) < self.prod_kinds.len() && self.prod_kinds[prod_id.0 as usize] == ProdKind::ScopeProducer {
            self.scope_depth = self.scope_depth.saturating_sub(1);
        }
    }
}

/// Every column name of every table, table by table.
pub open spec fn column_names(tables: Seq<Table>) -> Seq<Seq<char>>
    decreases tables.len(),
{
    if tables.len() == 0 {
        seq![]
    } else {
        column_names(tables.drop_last()) + tables.last().columns@.map_values(|c: Column| c.name@)
    }
}

/// What the hooks need of a grammar and a schema, computed once.
pub struct HookMetadata {
    pub pool_kinds: Vec<PoolKind>,
    pub prod_kinds: Vec<ProdKind>,
    pub all_columns: Vec<String>,
}

impl HookMetadata {
    /// The kinds of the grammar's pools and productions, and the schema's
    /// column names.
    pub fn new(grammar: &GrammarIr, context: &SqlContext) -> (m: HookMetadata)
        ensures
            m.pool_kinds@.len() == grammar.token_pools@.len(),
            forall|i: int| 0 <= i < m.pool_kinds@.len() ==> #[trigger] m.pool_kinds@[i] == pool_kind_spec(grammar.token_pools@[i].name@),
            m.prod_kinds@.len() == grammar.productions@.len(),
            forall|i: int| 0 <= i < m.prod_kinds@.len() ==> #[trigger] m.prod_kinds@[i] == prod_kind_spec(grammar.productions@[i].name@),
            m.all_columns@.map_values(|s: String| s@) == column_names(context.tables@),
    {
        let mut pool_kinds: Vec<PoolKind> = Vec::new();
        let mut i: usize = 0;
        while i < grammar.token_pools.len()
            invariant
                0 <= i <= grammar.token_pools@.len(),
                pool_kinds@.len() == i,
                forall|k: int| 0 <= k < i ==> #[trigger] pool_kinds@[k] == pool_kind_spec(grammar.token_pools@[k].name@),
            decreases grammar.token_pools@.len() - i,
        {
            pool_kinds.push(classify_pool(grammar.token_pools[i].name.as_str()));
            i += 1;
        }
        let mut prod_kinds: Vec<ProdKind> = Vec::new();
        let mut i: usize = 0;
        while i < grammar.productions.len()
            invariant
                0 <= i <= grammar.productions@.len(),
                prod_kinds@.len() == i,
                forall|k: int| 0 <= k < i ==> #[trigger] prod_kinds@[k] == prod_kind_spec(grammar.productions@[k].name@),
            decreases grammar.productions@.len() - i,
        {
            prod_kinds.push(classify_prod(grammar.productions[i].name.as_str()));
            i += 1;
        }
        let mut all_columns: Vec<String> = Vec::new();
        let mut t: usize = 0;
        while t < context.tables.len()
            invariant
                0 <= t <= context.tables@.len(),
                all_columns@.map_values(|s: String| s@) == column_names(context.tables@.take(t as int)),
            decreases context.tables@.len() - t,
        {
            let table = &context.tables[t];
            let ghost before = all_columns@.map_values(|s: String| s@);
            let mut c: usize = 0;
            while c < table.columns.len()
                invariant
                    0 <= c <= table.columns@.len(),
                    all_columns@.map_values(|s: String| s@) == before + table.columns@.take(c as int).map_values(|col: Column| col.name@),
                decreases table.columns@.len() - c,
            {
                let ghost prev = all_columns@;
                all_columns.push(table.columns[c].name.clone());
                assert(all_columns@.map_values(|s: String| s@) =~= prev.map_values(|s: String| s@).push(table.columns@[c as int].name@));
                assert(table.columns@.take(c as int + 1).map_values(|col: Column| col.name@)
                    =~= table.columns@.take(c as int).map_values(|col: Column| col.name@).push(table.columns@[c as int].name@));
                c += 1;
            }
            assert(table.columns@.take(table.columns@.len() as int) =~= table.columns@);
            assert(context.tables@.take(t as int + 1).drop_last() =~= context.tables@.take(t as int));
            t += 1;
        }
        assert(context.tables@.take(context.tables@.len() as int) =~= context.tables@);
        HookMetadata { pool_kinds, prod_kinds, all_columns }
    }
}

// ── Errors ──

/// Why a SQL generator could not be built or could not generate.
#[derive(Debug)]
pub enum SqlError {
    Grammar(ParseError),
    Generate(GenerateError),
}

impl SqlError {
    /// The error as text.
    pub fn message(&self) -> (s: String)
        ensures
            s@ == match self {
                SqlError::Grammar(e) => "grammar error: "@ + e.message@,
                SqlError::Generate(e) => "generation error: "@ + crate::error::generate_error_text(*e),
            },
    {
        match self {
            SqlError::Grammar(e) => concat("grammar error: ", e.message.as_str()),
            SqlError::Generate(e) => {
                let m = e.message();
                concat("generation error: ", m.as_str())
            },
        }
    }
}

} // verus!
