//! The ANTLR v4 front end (combined grammars): `name : alternatives ;`
//! rules, parser and lexer rules alike, with the header, `options { }`,
//! actions, labels and lexer commands read and dropped.
use vstd::prelude::*;
use vstd::string::StringExecFns;
use vstd::string::StrSliceExecFns;
use vstd::string::StringSliceAdditionalSpecFns;
use crate::ids::ProductionId;
use crate::grammar::GrammarIr;
use crate::parse_error::ParseError;
use crate::raw::{RawGrammar, RawRule, RawAlternative, RawItem, RawQuantifier, ItemV, RuleV, item_view, items_view, alts_view, rule_view, rules_view};
use vstd::utf8::encode_utf8;
use crate::validate::ir_well_formed;
use crate::analysis::{reaches, min_depths_ok, min_depths_of};
use crate::engine_spec::in_ranges;
use crate::ir_builder::{ref_means, rules_ready, build_ir, built_ok, has_duplicate, IrBuilder, assemble_ir, assembled, refs_below, alts_below, attrs_fresh, symbol_ok, too_large_error,
    BuildState, anon_of, extends, lemma_grows_extends, ir_state, exhausted,
    keeps_nonempty, prods_nonempty, lemma_push_nonempty};
use crate::grammar::{Production, Alternative, SymbolRef, Modifier, Symbol, TerminalKind, TokenPoolEntry, ProductionAttrs};
use crate::ids::{PoolId, SymbolId};
use crate::tokenizer::{parse_string_literal, parse_char_class_contents, scan_identifier, skip_block_comment, skip_line_comment,
    lit_scan, line_end, block_scan, class_scan, ident_end, lemma_lit_scan, lemma_line_end, lemma_block_scan, lemma_class_scan,
    lemma_ident_end};
use crate::text::{is_ascii_space_spec, is_ascii_alpha_spec};
use crate::text::{debug_wrap, debug_wrapped, ends_with};
use crate::text::{chars_of, is_ascii_space, is_ascii_alpha, debug_char, debug_quoted, debug_ranges, concat};

verus! {

enum TokenKind {
    Ident(String),
    StringLit(String),
    CharClass { ranges: Vec<(u8, u8)>, negated: bool },
    Colon,
    Semicolon,
    Pipe,
    LParen,
    RParen,
    LBrace,
    RBrace,
    Question,
    Star,
    Plus,
    Dot,
    Arrow,
    Comma,
    Assign,
    Hash,
    At,
    Tilde,
}

struct Token {
    kind: TokenKind,
    line: usize,
    col: usize,
}

/// The index of the first rule whose name starts with an ASCII lowercase
/// letter (a parser rule), or 0.
pub open spec fn first_parser_rule(rules: Seq<RawRule<RawItem>>, k: int) -> int
    decreases rules.len() - k,
{
    if k < 0 || k >= rules.len() {
        0
    } else if rules[k].name@.len() > 0 && 'a' <= rules[k].name@[0] && rules[k].name@[0] <= 'z' {
        k
    } else {
        first_parser_rule(rules, k + 1)
    }
}

pub proof fn lemma_first_parser_rule(rules: Seq<RawRule<RawItem>>, k: int)
    requires
        0 <= k,
        rules.len() > 0,
    ensures
        0 <= first_parser_rule(rules, k) < rules.len(),
    decreases rules.len() - k,
{
    if k < rules.len() {
        lemma_first_parser_rule(rules, k + 1);
    }
}

/// The start production: the first parser rule, or the first rule.
pub fn pick_start(rules: &Vec<RawRule<RawItem>>) -> (id: ProductionId)
    ensures
        id.0 == first_parser_rule(rules@, 0) as u32,
{
    let mut i: usize = 0;
    while i < rules.len()
        invariant
            0 <= i <= rules@.len(),
            first_parser_rule(rules@, 0) == first_parser_rule(rules@, i as int),
        decreases rules@.len() - i,
    {
        let name = rules[i].name.as_str();
        if name.unicode_len() > 0 {
            let c = name.get_char(0);
            if c >= 'a' && c <= 'z' {
                return ProductionId(#[verifier::truncate] (i as u32));
            }
        }
        i += 1;
    }
    ProductionId(0)
}

/// A token as a value: its kind, with text by its characters.
pub enum TokV {
    Ident(Seq<char>),
    StringLit(Seq<char>),
    CharClass(Seq<(u8, u8)>, bool),
    Colon,
    Semicolon,
    Pipe,
    LParen,
    RParen,
    LBrace,
    RBrace,
    Question,
    Star,
    Plus,
    Dot,
    Arrow,
    Comma,
    Assign,
    Hash,
    At,
    Tilde,
}

spec fn kind_view(k: TokenKind) -> TokV {
    match k {
        TokenKind::Ident(s) => TokV::Ident(s@),
        TokenKind::StringLit(s) => TokV::StringLit(s@),
        TokenKind::CharClass { ranges, negated } => TokV::CharClass(ranges@, negated),
        TokenKind::Colon => TokV::Colon,
        TokenKind::Semicolon => TokV::Semicolon,
        TokenKind::Pipe => TokV::Pipe,
        TokenKind::LParen => TokV::LParen,
        TokenKind::RParen => TokV::RParen,
        TokenKind::LBrace => TokV::LBrace,
        TokenKind::RBrace => TokV::RBrace,
        TokenKind::Question => TokV::Question,
        TokenKind::Star => TokV::Star,
        TokenKind::Plus => TokV::Plus,
        TokenKind::Dot => TokV::Dot,
        TokenKind::Arrow => TokV::Arrow,
        TokenKind::Comma => TokV::Comma,
        TokenKind::Assign => TokV::Assign,
        TokenKind::Hash => TokV::Hash,
        TokenKind::At => TokV::At,
        TokenKind::Tilde => TokV::Tilde,
    }
}

spec fn toks_view(ts: Seq<Token>) -> Seq<(TokV, int, int)> {
    ts.map_values(|t: Token| (kind_view(t.kind), t.line as int, t.col as int))
}

/// The token that a single punctuation character makes, if any.
pub open spec fn single_token(c: char) -> Option<TokV> {
    if c == ':' {
        Some(TokV::Colon)
    } else if c == ';' {
        Some(TokV::Semicolon)
    } else if c == '|' {
        Some(TokV::Pipe)
    } else if c == '(' {
        Some(TokV::LParen)
    } else if c == ')' {
        Some(TokV::RParen)
    } else if c == '{' {
        Some(TokV::LBrace)
    } else if c == '}' {
        Some(TokV::RBrace)
    } else if c == '?' {
        Some(TokV::Question)
    } else if c == '*' {
        Some(TokV::Star)
    } else if c == '+' {
        Some(TokV::Plus)
    } else if c == '.' {
        Some(TokV::Dot)
    } else if c == ',' {
        Some(TokV::Comma)
    } else if c == '=' {
        Some(TokV::Assign)
    } else if c == '#' {
        Some(TokV::Hash)
    } else if c == '@' {
        Some(TokV::At)
    } else {
        None
    }
}

pub open spec fn prepend_tok(t: (TokV, int, int), r: Option<Seq<(TokV, int, int)>>) -> Option<Seq<(TokV, int, int)>> {
    match r {
        Some(ts) => Some(seq![t] + ts),
        None => None,
    }
}

pub open spec fn join_toks(v: Seq<(TokV, int, int)>, r: Option<Seq<(TokV, int, int)>>) -> Option<Seq<(TokV, int, int)>> {
    match r {
        Some(w) => Some(v + w),
        None => None,
    }
}

/// The tokens of `cs` from position `p` at line `line` and column `col`,
/// each with the line and column where it was read (a string literal with
/// the line where it ends); none on a lexical error. Whitespace, `//` and
/// `/* */` comments and `$` are skipped; `~[...]` is a negated class.
pub open spec fn lex(cs: Seq<char>, p: int, line: int, col: int) -> Option<Seq<(TokV, int, int)>>
    decreases cs.len() - p,
{
    if p < 0 || p >= cs.len() {
        Some(seq![])
    } else {
        let ch = cs[p];
        let next = if p + 1 < cs.len() { cs[p + 1] } else { ' ' };
        if ch == '\n' {
            lex(cs, p + 1, line + 1, 1)
        } else if is_ascii_space_spec(ch) {
            lex(cs, p + 1, line, col + 1)
        } else if ch == '/' && p + 1 < cs.len() && next == '/' {
            proof { lemma_line_end(cs, p + 2); }
            lex(cs, line_end(cs, p + 2), line, col)
        } else if ch == '/' && p + 1 < cs.len() && next == '*' {
            let (ok, q, l, c) = block_scan(cs, '*', '/', p + 2, line, col + 2);
            proof { lemma_block_scan(cs, '*', '/', p + 2, line, col + 2); }
            if ok { lex(cs, q, l, c) } else { None }
        } else if (ch == '~' && p + 1 < cs.len() && next == '[') || ch == '[' {
            let neg = ch == '~';
            let q0 = if neg { p + 2 } else { p + 1 };
            let (k, q, c, ranges) = class_scan(cs, q0, col + (q0 - p), seq![]);
            proof { lemma_class_scan(cs, q0, col + (q0 - p), seq![]); }
            if k == 0 {
                prepend_tok((TokV::CharClass(ranges, neg), line, col), lex(cs, q, line, c))
            } else {
                None
            }
        } else if ch == '~' {
            prepend_tok((TokV::Tilde, line, col), lex(cs, p + 1, line, col + 1))
        } else if ch == '-' && p + 1 < cs.len() && next == '>' {
            prepend_tok((TokV::Arrow, line, col), lex(cs, p + 2, line, col + 2))
        } else if single_token(ch) is Some {
            prepend_tok((single_token(ch)->0, line, col), lex(cs, p + 1, line, col + 1))
        } else if ch == '\'' {
            let (ok, q, l, c, text) = lit_scan(cs, ch, p + 1, line, col + 1, seq![]);
            proof { lemma_lit_scan(cs, ch, p + 1, line, col + 1, seq![]); }
            if ok { prepend_tok((TokV::StringLit(text), l, col), lex(cs, q, l, c)) } else { None }
        } else if ch == '$' {
            lex(cs, p + 1, line, col + 1)
        } else if is_ascii_alpha_spec(ch) || ch == '_' {
            let q = ident_end(cs, p);
            proof { lemma_ident_end(cs, p); }
            if q > p {
                prepend_tok((TokV::Ident(cs.subrange(p, q)), line, col), lex(cs, q, line, col + (q - p)))
            } else {
                None
            }
        } else {
            None
        }
    }
}

/// Split ANTLR source into tokens, skipping whitespace, comments and `$`.
#[verifier::spinoff_prover]
#[verifier::rlimit(80)]
fn tokenize(source: &str) -> (r: Result<Vec<Token>, ParseError>)
    requires
        source@.len() < usize::MAX / 4,
    ensures
        source@.len() == 0 ==> (r matches Ok(t) && t@.len() == 0),
        r matches Ok(t) ==> t@.len() <= source@.len(),
        match lex(source@, 0, 1, 1) {
            Some(v) => r matches Ok(t) && toks_view(t@) == v,
            None => r is Err,
        },
{
    let chars = chars_of(source);
    let mut tokens: Vec<Token> = Vec::new();
    let mut pos: usize = 0;
    let mut line: usize = 1;
    let mut col: usize = 1;
    let mut failure: Option<ParseError> = None;
    assert(toks_view(tokens@) =~= Seq::<(TokV, int, int)>::empty());
    assert(join_toks(seq![], lex(chars@, 0, 1, 1)) =~= lex(chars@, 0, 1, 1)) by {
        match lex(chars@, 0, 1, 1) {
            Some(w) => { assert(Seq::<(TokV, int, int)>::empty() + w =~= w); },
            None => {},
        }
    }
    while pos < chars.len()
        invariant_except_break
            chars@.len() < usize::MAX / 4,
            chars@ == source@,
            pos <= chars@.len(),
            1 <= line <= 1 + pos,
            1 <= col <= 1 + pos,
            failure is None,
            chars@.len() == 0 ==> tokens@.len() == 0,
            tokens@.len() <= pos,
            lex(chars@, 0, 1, 1) == join_toks(toks_view(tokens@), lex(chars@, pos as int, line as int, col as int)),
        ensures
            failure is None ==> pos >= chars@.len() && tokens@.len() <= chars@.len(),
            chars@.len() == 0 ==> tokens@.len() == 0 && failure is None,
            failure is None ==> lex(chars@, 0, 1, 1) == Some(toks_view(tokens@)),
            failure is Some ==> lex(chars@, 0, 1, 1) is None,
        decreases chars@.len() - pos,
    {
        let ghost gp = pos as int;
        let ghost gl = line as int;
        let ghost gc = col as int;
        let ghost before = toks_view(tokens@);
        let ch = chars[pos];
        if ch == '\n' {
            line += 1;
            col = 1;
            pos += 1;
            assert(lex(chars@, gp, gl, gc) == lex(chars@, pos as int, line as int, col as int));
            continue;
        }
        if is_ascii_space(ch) {
            col += 1;
            pos += 1;
            assert(lex(chars@, gp, gl, gc) == lex(chars@, pos as int, line as int, col as int));
            continue;
        }
        if ch == '/' && pos + 1 < chars.len() && chars[pos + 1] == '/' {
            pos += 2;
            skip_line_comment(chars.as_slice(), &mut pos);
            proof {
                lemma_line_end(chars@, gp + 2);
            }
            assert(lex(chars@, gp, gl, gc) == lex(chars@, pos as int, line as int, col as int));
            continue;
        }
        if ch == '/' && pos + 1 < chars.len() && chars[pos + 1] == '*' {
            let start_line = line;
            let start_col = col;
            pos += 2;
            col += 2;
            let r = skip_block_comment(chars.as_slice(), &mut pos, &mut line, &mut col, '*', '/', start_line, start_col);
            if let Err(e) = r {
                assert(lex(chars@, gp, gl, gc) is None);
                failure = Some(e);
                break;
            }
            assert(lex(chars@, gp, gl, gc) == lex(chars@, pos as int, line as int, col as int));
            continue;
        }
        if (ch == '~' && pos + 1 < chars.len() && chars[pos + 1] == '[') || ch == '[' {
            let negated = ch == '~';
            let start_col = col;
            if negated {
                pos += 2;
                col += 2;
            } else {
                pos += 1;
                col += 1;
            }
            proof {
                lemma_class_scan(chars@, pos as int, col as int, seq![]);
            }
            let ranges = parse_char_class_contents(chars.as_slice(), &mut pos, &mut line, &mut col);
            match ranges {
                Ok(ranges) => {
                    let ghost t = (TokV::CharClass(ranges@, negated), gl, gc);
                    assert(lex(chars@, gp, gl, gc) == prepend_tok(t, lex(chars@, pos as int, line as int, col as int)));
                    tokens.push(Token { kind: TokenKind::CharClass { ranges, negated }, line, col: start_col });
                    proof {
                        assert(toks_view(tokens@) =~= before.push(t));
                        match lex(chars@, pos as int, line as int, col as int) {
                            Some(w) => { assert(before + (seq![t] + w) =~= before.push(t) + w); },
                            None => {},
                        }
                    }
                },
                Err(e) => {
                    assert(lex(chars@, gp, gl, gc) is None);
                    failure = Some(e);
                    break;
                },
            }
            continue;
        }
        if ch == '~' {
            let ghost t = (TokV::Tilde, gl, gc);
            tokens.push(Token { kind: TokenKind::Tilde, line, col });
            pos += 1;
            col += 1;
            proof {
                assert(toks_view(tokens@) =~= before.push(t));
                match lex(chars@, pos as int, line as int, col as int) {
                    Some(w) => { assert(before + (seq![t] + w) =~= before.push(t) + w); },
                    None => {},
                }
            }
            continue;
        }
        if ch == '-' && pos + 1 < chars.len() && chars[pos + 1] == '>' {
            let ghost t = (TokV::Arrow, gl, gc);
            tokens.push(Token { kind: TokenKind::Arrow, line, col });
            pos += 2;
            col += 2;
            proof {
                assert(toks_view(tokens@) =~= before.push(t));
                match lex(chars@, pos as int, line as int, col as int) {
                    Some(w) => { assert(before + (seq![t] + w) =~= before.push(t) + w); },
                    None => {},
                }
            }
            continue;
        }
        let single: Option<TokenKind> = if ch == ':' {
            Some(TokenKind::Colon)
        } else if ch == ';' {
            Some(TokenKind::Semicolon)
        } else if ch == '|' {
            Some(TokenKind::Pipe)
        } else if ch == '(' {
            Some(TokenKind::LParen)
        } else if ch == ')' {
            Some(TokenKind::RParen)
        } else if ch == '{' {
            Some(TokenKind::LBrace)
        } else if ch == '}' {
            Some(TokenKind::RBrace)
        } else if ch == '?' {
            Some(TokenKind::Question)
        } else if ch == '*' {
            Some(TokenKind::Star)
        } else if ch == '+' {
            Some(TokenKind::Plus)
        } else if ch == '.' {
            Some(TokenKind::Dot)
        } else if ch == ',' {
            Some(TokenKind::Comma)
        } else if ch == '=' {
            Some(TokenKind::Assign)
        } else if ch == '#' {
            Some(TokenKind::Hash)
        } else if ch == '@' {
            Some(TokenKind::At)
        } else {
            None
        };
        assert(single is Some <==> single_token(ch) is Some);
        if let Some(kind) = single {
            assert(kind_view(kind) == single_token(ch)->0);
            tokens.push(Token { kind, line, col });
            pos += 1;
            col += 1;
            proof {
                assert(toks_view(tokens@) =~= before.push((kind_view(kind), gl, gc)));
                match lex(chars@, pos as int, line as int, col as int) {
                    Some(w) => { assert(before + (seq![(kind_view(kind), gl, gc)] + w) =~= before.push((kind_view(kind), gl, gc)) + w); },
                    None => {},
                }
            }
            continue;
        }
        if ch == '\'' {
            let start_col = col;
            let s = parse_string_literal(chars.as_slice(), &mut pos, &mut line, &mut col, '\'');
            proof {
                lemma_lit_scan(chars@, ch, gp + 1, gl, gc + 1, seq![]);
            }
            match s {
                Ok(s) => {
                    let ghost t = (TokV::StringLit(s@), line as int, gc);
                    tokens.push(Token { kind: TokenKind::StringLit(s), line, col: start_col });
                    proof {
                        assert(toks_view(tokens@) =~= before.push(t));
                        match lex(chars@, pos as int, line as int, col as int) {
                            Some(w) => { assert(before + (seq![t] + w) =~= before.push(t) + w); },
                            None => {},
                        }
                    }
                },
                Err(e) => {
                    assert(lex(chars@, gp, gl, gc) is None);
                    failure = Some(e);
                    break;
                },
            }
            continue;
        }
        if ch == '$' {
            pos += 1;
            col += 1;
            assert(lex(chars@, gp, gl, gc) == lex(chars@, pos as int, line as int, col as int));
            continue;
        }
        if is_ascii_alpha(ch) || ch == '_' {
            let start_col = col;
            let ident = scan_identifier(chars.as_slice(), &mut pos, &mut col);
            proof {
                lemma_ident_end(chars@, gp);
                assert(ident@ =~= chars@.subrange(gp, pos as int));
            }
            let ghost t = (TokV::Ident(ident@), gl, gc);
            tokens.push(Token { kind: TokenKind::Ident(ident), line, col: start_col });
            proof {
                assert(toks_view(tokens@) =~= before.push(t));
                match lex(chars@, pos as int, line as int, col as int) {
                    Some(w) => { assert(before + (seq![t] + w) =~= before.push(t) + w); },
                    None => {},
                }
            }
            continue;
        }
        assert(lex(chars@, gp, gl, gc) is None);
        let shown = debug_char(ch);
        failure = Some(ParseError { line, column: col, message: concat("unexpected character: ", shown.as_str()) });
        break;
    }
    match failure {
        Some(e) => Err(e),
        None => Ok(tokens),
    }
}

/// `s` is the `Debug` text of a token of kind `k`, as far as the texts of
/// names and class ranges are stated.
spec fn kind_debug_ok(k: TokV, s: Seq<char>) -> bool {
    match k {
        TokV::Ident(n) => debug_wrapped("Ident("@, n, s),
        TokV::StringLit(t) => debug_wrapped("StringLit("@, t, s),
        TokV::CharClass(_, neg) => "CharClass { ranges: "@.is_prefix_of(s)
            && ends_with(s, if neg { ", negated: true"@ + " }"@ } else { ", negated: false"@ + " }"@ }),
        TokV::Colon => s == "Colon"@,
        TokV::Semicolon => s == "Semicolon"@,
        TokV::Pipe => s == "Pipe"@,
        TokV::LParen => s == "LParen"@,
        TokV::RParen => s == "RParen"@,
        TokV::LBrace => s == "LBrace"@,
        TokV::RBrace => s == "RBrace"@,
        TokV::Question => s == "Question"@,
        TokV::Star => s == "Star"@,
        TokV::Plus => s == "Plus"@,
        TokV::Dot => s == "Dot"@,
        TokV::Arrow => s == "Arrow"@,
        TokV::Comma => s == "Comma"@,
        TokV::Assign => s == "Assign"@,
        TokV::Hash => s == "Hash"@,
        TokV::At => s == "At"@,
        TokV::Tilde => s == "Tilde"@,
    }
}

/// `format!("{:?}", kind)`: the token kind as `Debug` prints it.
fn token_kind_debug(kind: &TokenKind) -> (s: String)
    ensures
        kind_debug_ok(kind_view(*kind), s@),
{
    match kind {
        TokenKind::Ident(name) => debug_wrap("Ident(", name.as_str()),
        TokenKind::StringLit(text) => debug_wrap("StringLit(", text.as_str()),
        TokenKind::CharClass { ranges, negated } => {
            let rs = debug_ranges(ranges.as_slice());
            let a = concat("CharClass { ranges: ", rs.as_str());
            let tail = if *negated { ", negated: true" } else { ", negated: false" };
            let b = concat(a.as_str(), tail);
            let s = concat(b.as_str(), " }");
            proof {
                assert(s@.subrange(0, "CharClass { ranges: "@.len() as int) =~= "CharClass { ranges: "@);
                assert(s@.subrange(s@.len() - (tail@ + " }"@).len(), s@.len() as int) =~= tail@ + " }"@);
            }
            s
        },
        TokenKind::Colon => String::from_str("Colon"),
        TokenKind::Semicolon => String::from_str("Semicolon"),
        TokenKind::Pipe => String::from_str("Pipe"),
        TokenKind::LParen => String::from_str("LParen"),
        TokenKind::RParen => String::from_str("RParen"),
        TokenKind::LBrace => String::from_str("LBrace"),
        TokenKind::RBrace => String::from_str("RBrace"),
        TokenKind::Question => String::from_str("Question"),
        TokenKind::Star => String::from_str("Star"),
        TokenKind::Plus => String::from_str("Plus"),
        TokenKind::Dot => String::from_str("Dot"),
        TokenKind::Arrow => String::from_str("Arrow"),
        TokenKind::Comma => String::from_str("Comma"),
        TokenKind::Assign => String::from_str("Assign"),
        TokenKind::Hash => String::from_str("Hash"),
        TokenKind::At => String::from_str("At"),
        TokenKind::Tilde => String::from_str("Tilde"),
    }
}

/// The token kinds that `expect` looks for.
#[derive(Clone, Copy, PartialEq, Eq, Structural)]
enum Expected {
    Ident,
    Colon,
    Semicolon,
    LBrace,
    RParen,
}

/// `format!("{:?}", kind)` of the empty-payload kind that `expect` is given.
fn expected_debug(which: Expected) -> (s: String)
    ensures
        s@ == match which {
            Expected::Ident => "Ident(\"\")"@,
            Expected::Colon => "Colon"@,
            Expected::Semicolon => "Semicolon"@,
            Expected::LBrace => "LBrace"@,
            Expected::RParen => "RParen"@,
        },
{
    match which {
        Expected::Ident => String::from_str("Ident(\"\")"),
        Expected::Colon => String::from_str("Colon"),
        Expected::Semicolon => String::from_str("Semicolon"),
        Expected::LBrace => String::from_str("LBrace"),
        Expected::RParen => String::from_str("RParen"),
    }
}

fn kind_is(kind: &TokenKind, which: Expected) -> (b: bool)
    ensures
        b == expected_spec(kind_view(*kind), which),
{
    match kind {
        TokenKind::Ident(_) => which == Expected::Ident,
        TokenKind::Colon => which == Expected::Colon,
        TokenKind::Semicolon => which == Expected::Semicolon,
        TokenKind::LBrace => which == Expected::LBrace,
        TokenKind::RParen => which == Expected::RParen,
        _ => false,
    }
}

// ── What the parser reads ──

/// The kind of the token at `pos`.
pub open spec fn kind_at(ts: Seq<(TokV, int, int)>, pos: int) -> TokV {
    ts[pos].0
}

/// The token at `pos` is the name `w`.
pub open spec fn word_at(ts: Seq<(TokV, int, int)>, pos: int, w: Seq<char>) -> bool {
    0 <= pos < ts.len() && kind_at(ts, pos) == TokV::Ident(w)
}

/// The token at `pos` is a name.
pub open spec fn ident_at(ts: Seq<(TokV, int, int)>, pos: int) -> bool {
    0 <= pos < ts.len() && kind_at(ts, pos) is Ident
}

/// The token at `pos` has kind `k`.
pub open spec fn tok_at(ts: Seq<(TokV, int, int)>, pos: int, k: TokV) -> bool {
    0 <= pos < ts.len() && kind_at(ts, pos) == k
}

/// Where a `{ ... }` block ends, `depth` braces being open at `pos`.
pub open spec fn skip_brace(ts: Seq<(TokV, int, int)>, pos: int, depth: nat) -> int
    decreases ts.len() - pos,
{
    if pos < 0 || pos >= ts.len() || depth == 0 {
        pos
    } else if kind_at(ts, pos) is LBrace {
        skip_brace(ts, pos + 1, depth + 1)
    } else if kind_at(ts, pos) is RBrace {
        skip_brace(ts, pos + 1, (depth - 1) as nat)
    } else {
        skip_brace(ts, pos + 1, depth)
    }
}

pub proof fn lemma_skip_brace(ts: Seq<(TokV, int, int)>, pos: int, depth: nat)
    requires
        0 <= pos <= ts.len(),
    ensures
        pos <= skip_brace(ts, pos, depth) <= ts.len(),
    decreases ts.len() - pos,
{
    if pos < ts.len() && depth > 0 {
        if kind_at(ts, pos) is LBrace {
            lemma_skip_brace(ts, pos + 1, depth + 1);
        } else if kind_at(ts, pos) is RBrace {
            lemma_skip_brace(ts, pos + 1, (depth - 1) as nat);
        } else {
            lemma_skip_brace(ts, pos + 1, depth);
        }
    }
}

/// Where the header ends: `[lexer|parser] grammar Name ;` and an
/// `options { ... }` block, each if present; none on a malformed header.
pub open spec fn skip_header(ts: Seq<(TokV, int, int)>, pos: int) -> Option<int> {
    let starts = word_at(ts, pos, "grammar"@) || word_at(ts, pos, "lexer"@) || word_at(ts, pos, "parser"@);
    let after_name: Option<int> = if starts {
        let a = if word_at(ts, pos, "lexer"@) || word_at(ts, pos, "parser"@) { pos + 1 } else { pos };
        let b = if word_at(ts, a, "grammar"@) { a + 1 } else { a };
        if ident_at(ts, b) && tok_at(ts, b + 1, TokV::Semicolon) { Some(b + 2) } else { None }
    } else {
        Some(pos)
    };
    match after_name {
        Some(p) => if word_at(ts, p, "options"@) {
            if tok_at(ts, p + 1, TokV::LBrace) { Some(skip_brace(ts, p + 2, 1)) } else { None }
        } else {
            Some(p)
        },
        None => None,
    }
}

/// Where the text inside `( ... )` of a lexer command ends: past the `)`, or the end.
pub open spec fn skip_parens(ts: Seq<(TokV, int, int)>, pos: int) -> int
    decreases ts.len() - pos,
{
    if pos < 0 || pos >= ts.len() {
        pos
    } else if kind_at(ts, pos) is RParen {
        pos + 1
    } else {
        skip_parens(ts, pos + 1)
    }
}

pub proof fn lemma_skip_parens(ts: Seq<(TokV, int, int)>, pos: int)
    requires
        0 <= pos <= ts.len(),
    ensures
        pos <= skip_parens(ts, pos) <= ts.len(),
    decreases ts.len() - pos,
{
    if pos < ts.len() && !(kind_at(ts, pos) is RParen) {
        lemma_skip_parens(ts, pos + 1);
    }
}

/// Where a lexer command list after `->` ends: names, each with an
/// optional `( ... )`, separated by commas.
pub open spec fn skip_commands(ts: Seq<(TokV, int, int)>, pos: int) -> int
    decreases ts.len() - pos,
{
    if pos < 0 || pos > ts.len() {
        pos
    } else {
        let p1 = if ident_at(ts, pos) { pos + 1 } else { pos };
        let p2 = if tok_at(ts, p1, TokV::LParen) { skip_parens(ts, p1 + 1) } else { p1 };
        proof {
            if tok_at(ts, p1, TokV::LParen) {
                lemma_skip_parens(ts, p1 + 1);
            }
        }
        if tok_at(ts, p2, TokV::Comma) { skip_commands(ts, p2 + 1) } else { p2 }
    }
}

pub proof fn lemma_skip_commands(ts: Seq<(TokV, int, int)>, pos: int)
    requires
        0 <= pos <= ts.len(),
    ensures
        pos <= skip_commands(ts, pos) <= ts.len(),
    decreases ts.len() - pos,
{
    let p1 = if ident_at(ts, pos) { pos + 1 } else { pos };
    if tok_at(ts, p1, TokV::LParen) {
        lemma_skip_parens(ts, p1 + 1);
    }
    let p2 = if tok_at(ts, p1, TokV::LParen) { skip_parens(ts, p1 + 1) } else { p1 };
    if tok_at(ts, p2, TokV::Comma) {
        lemma_skip_commands(ts, p2 + 1);
    }
}

/// An item under the quantifier at `pos`, if one is there, and where it ends.
pub open spec fn quantified(ts: Seq<(TokV, int, int)>, pos: int, it: ItemV) -> (ItemV, int) {
    if tok_at(ts, pos, TokV::Question) {
        (ItemV::Quantified(Box::new(it), RawQuantifier::Optional), pos + 1)
    } else if tok_at(ts, pos, TokV::Star) {
        (ItemV::Quantified(Box::new(it), RawQuantifier::ZeroOrMore), pos + 1)
    } else if tok_at(ts, pos, TokV::Plus) {
        (ItemV::Quantified(Box::new(it), RawQuantifier::OneOrMore), pos + 1)
    } else {
        (it, pos)
    }
}

/// One-byte ranges for each byte of a string.
pub open spec fn byte_ranges(s: Seq<char>) -> Seq<(u8, u8)> {
    encode_utf8(s).map_values(|b: u8| (b, b))
}

/// What the reference built for an atom stands for: a string its bytes,
/// a class its ranges and negation, `.` any byte, each once; `( alts )`
/// its alternatives once (a single item inside stands for itself).
pub proof fn lemma_atom_meaning(ts: Seq<(TokV, int, int)>, pos: int, st: BuildState, r: SymbolRef)
    requires
        p_atom(ts, pos) matches Some((Some(it), _)) && ref_means(st, r, it),
    ensures
        0 <= pos < ts.len(),
        kind_at(ts, pos) matches TokV::StringLit(s) ==> r.modifier == Modifier::Once
            && (st.symbols[r.symbol.0 as int] matches Symbol::Terminal(TerminalKind::Literal(b)) && b@ == encode_utf8(s)),
        kind_at(ts, pos) matches TokV::CharClass(rs, neg) ==> r.modifier == Modifier::Once
            && (st.symbols[r.symbol.0 as int] matches Symbol::Terminal(TerminalKind::CharClass { ranges, negated })
                && ranges@ == rs && negated == neg),
        kind_at(ts, pos) is Dot ==> r.modifier == Modifier::Once
            && (st.symbols[r.symbol.0 as int] matches Symbol::Terminal(TerminalKind::AnyByte)),
        kind_at(ts, pos) is LParen ==> (p_atom(ts, pos) matches Some((Some(ItemV::Group(alts)), _))
            && if alts.len() == 1 && alts[0].len() == 1 {
                ref_means(st, r, alts[0][0])
            } else {
                r.modifier == Modifier::Once
            }),
{
}

/// A quantifier after an item sets the count of its reference: `?` at most
/// once, `*` any number of times, `+` at least once; without one the
/// reference stands for the item itself.
pub proof fn lemma_quantifier_meaning(ts: Seq<(TokV, int, int)>, q: int, it: ItemV, st: BuildState, r: SymbolRef)
    requires
        ref_means(st, r, quantified(ts, q, it).0),
    ensures
        tok_at(ts, q, TokV::Question) ==> r.modifier == Modifier::Optional,
        tok_at(ts, q, TokV::Star) ==> r.modifier == (Modifier::ZeroOrMore { min: 0, max: u32::MAX }),
        tok_at(ts, q, TokV::Plus) ==> r.modifier == (Modifier::OneOrMore { min: 1, max: u32::MAX }),
        !(tok_at(ts, q, TokV::Question)) && !(tok_at(ts, q, TokV::Star)) && !(tok_at(ts, q, TokV::Plus)) ==> ref_means(st, r, it),
{
}

/// A class of the bytes of a string admits a byte exactly when the string has it.
pub proof fn lemma_byte_ranges(s: Seq<char>, b: u8)
    ensures
        in_ranges(byte_ranges(s), b) <==> encode_utf8(s).contains(b),
{
    let e = encode_utf8(s);
    if in_ranges(byte_ranges(s), b) {
        let i = choose|i: int| 0 <= i < byte_ranges(s).len() && (#[trigger] byte_ranges(s)[i]).0 <= b && b <= byte_ranges(s)[i].1;
        assert(e[i] == b);
    }
    if e.contains(b) {
        let i = choose|i: int| 0 <= i < e.len() && e[i] == b;
        assert(byte_ranges(s)[i] == (b, b));
    }
}

/// `~'s'` is read as one item, and the reference built for it stands for a
/// terminal that admits exactly the bytes that do not occur in `s`; `~[...]`
/// admits exactly the bytes outside the class's ranges.
pub proof fn lemma_tilde_admits_the_other_bytes(ts: Seq<(TokV, int, int)>, pos: int, st: BuildState, r: SymbolRef)
    requires
        0 <= pos,
        pos + 1 < ts.len(),
        kind_at(ts, pos) == TokV::Tilde,
        kind_at(ts, pos + 1) is StringLit || kind_at(ts, pos + 1) is CharClass,
        p_atom(ts, pos) matches Some((Some(it), _)) && ref_means(st, r, it),
    ensures
        p_atom(ts, pos) matches Some((_, q)) && q == pos + 2,
        r.modifier == Modifier::Once,
        st.symbols[r.symbol.0 as int] matches Symbol::Terminal(TerminalKind::CharClass { ranges, negated })
            && (kind_at(ts, pos + 1) matches TokV::StringLit(s)
                ==> forall|b: u8| #![trigger encode_utf8(s).contains(b)] (in_ranges(ranges@, b) != negated) <==> !encode_utf8(s).contains(b))
            && (kind_at(ts, pos + 1) matches TokV::CharClass(rs, _)
                ==> forall|b: u8| #![trigger in_ranges(rs, b)] (in_ranges(ranges@, b) != negated) <==> !in_ranges(rs, b)),
{
    if let TokV::StringLit(s) = kind_at(ts, pos + 1) {
        assert forall|b: u8| #![trigger encode_utf8(s).contains(b)] (in_ranges(byte_ranges(s), b) != true) <==> !encode_utf8(s).contains(b) by {
            lemma_byte_ranges(s, b);
        }
    }
}

/// Alternatives from `pos`: sequences separated by `|`, at least one; the
/// alternatives and where they end, or none on a syntax error.
pub open spec fn p_alts(ts: Seq<(TokV, int, int)>, pos: int) -> Option<(Seq<Seq<ItemV>>, int)>
    decreases ts.len() - pos, 4nat,
{
    if pos < 0 || pos > ts.len() {
        None
    } else {
        match p_seq(ts, pos, seq![]) {
            Some((first, q)) => if pos <= q <= ts.len() { p_alts_more(ts, q, seq![first]) } else { None },
            None => None,
        }
    }
}

/// More alternatives after `acc`, each after a `|`.
pub open spec fn p_alts_more(ts: Seq<(TokV, int, int)>, pos: int, acc: Seq<Seq<ItemV>>) -> Option<(Seq<Seq<ItemV>>, int)>
    decreases ts.len() - pos, 3nat,
{
    if !tok_at(ts, pos, TokV::Pipe) {
        Some((acc, pos))
    } else {
        match p_seq(ts, pos + 1, seq![]) {
            Some((s, q)) => if pos + 1 <= q <= ts.len() { p_alts_more(ts, q, acc.push(s)) } else { None },
            None => None,
        }
    }
}

/// Items after `acc` up to `|`, `;`, `)` or the end; a lexer command
/// (read and dropped) ends the sequence; actions `{ ... }` and labels
/// `# name` are skipped; tokens that start no item are dropped.
pub open spec fn p_seq(ts: Seq<(TokV, int, int)>, pos: int, acc: Seq<ItemV>) -> Option<(Seq<ItemV>, int)>
    decreases ts.len() - pos, 2nat,
{
    if pos < 0 || pos > ts.len() {
        None
    } else if pos == ts.len() {
        Some((acc, pos))
    } else {
        match kind_at(ts, pos) {
            TokV::Pipe | TokV::Semicolon | TokV::RParen => Some((acc, pos)),
            TokV::Arrow => Some((acc, skip_commands(ts, pos + 1))),
            TokV::LBrace => {
                let q = skip_brace(ts, pos + 1, 1);
                if pos < q <= ts.len() { p_seq(ts, q, acc) } else { None }
            },
            TokV::Hash => p_seq(ts, if ident_at(ts, pos + 1) { pos + 2 } else { pos + 1 }, acc),
            _ => match p_atom(ts, pos) {
                Some((Some(it), q)) => {
                    let (it2, q2) = quantified(ts, q, it);
                    if pos < q2 <= ts.len() { p_seq(ts, q2, acc.push(it2)) } else { None }
                },
                Some((None, q)) => {
                    let q2 = if q < ts.len() { q + 1 } else { q };
                    if pos < q2 <= ts.len() { p_seq(ts, q2, acc) } else { None }
                },
                None => None,
            },
        }
    }
}

/// One atom at `pos`: a string, a name (with where it stands), a class,
/// `.`, a negation `~x` (of a string or class: a negated class of its
/// bytes; of anything else: any byte), or a parenthesised group; no item
/// when nothing starts here.
pub open spec fn p_atom(ts: Seq<(TokV, int, int)>, pos: int) -> Option<(Option<ItemV>, int)>
    decreases ts.len() - pos, 0nat,
{
    if pos < 0 || pos >= ts.len() {
        Some((None, pos))
    } else {
        match kind_at(ts, pos) {
            TokV::StringLit(s) => Some((Some(ItemV::Literal(s)), pos + 1)),
            TokV::Ident(s) => Some((Some(ItemV::NonTerminal(s, ts[pos].1 as usize, ts[pos].2 as usize)), pos + 1)),
            TokV::CharClass(rs, neg) => Some((Some(ItemV::CharClass(rs, neg)), pos + 1)),
            TokV::Dot => Some((Some(ItemV::AnyChar), pos + 1)),
            TokV::Tilde => if pos + 1 < ts.len() {
                match kind_at(ts, pos + 1) {
                    TokV::StringLit(s) => Some((Some(ItemV::CharClass(byte_ranges(s), true)), pos + 2)),
                    TokV::CharClass(rs, _) => Some((Some(ItemV::CharClass(rs, true)), pos + 2)),
                    _ => Some((Some(ItemV::AnyChar), pos + 1)),
                }
            } else {
                Some((Some(ItemV::AnyChar), pos + 1))
            },
            TokV::LParen => match p_alts(ts, pos + 1) {
                Some((alts, q)) => if tok_at(ts, q, TokV::RParen) { Some((Some(ItemV::Group(alts)), q + 1)) } else { None },
                None => None,
            },
            _ => Some((None, pos)),
        }
    }
}

/// `[fragment] name : alternatives ;` at `pos`.
pub open spec fn p_rule(ts: Seq<(TokV, int, int)>, pos: int) -> Option<(RuleV, int)> {
    let p0 = if word_at(ts, pos, "fragment"@) { pos + 1 } else { pos };
    if ident_at(ts, p0) && tok_at(ts, p0 + 1, TokV::Colon) {
        match p_alts(ts, p0 + 2) {
            Some((alts, q)) => if tok_at(ts, q, TokV::Semicolon) {
                Some((RuleV { name: kind_at(ts, p0)->Ident_0, alts, line: ts[p0].1 as usize, col: ts[p0].2 as usize }, q + 1))
            } else {
                None
            },
            None => None,
        }
    } else {
        None
    }
}

/// Rules after `acc` from `pos` to the end of the tokens; none at all, or
/// a syntax error, gives none.
pub open spec fn p_rules(ts: Seq<(TokV, int, int)>, pos: int, acc: Seq<RuleV>) -> Option<Seq<RuleV>>
    decreases ts.len() - pos,
{
    if pos < 0 || pos >= ts.len() {
        if acc.len() == 0 { None } else { Some(acc) }
    } else {
        match p_rule(ts, pos) {
            Some((r, q)) => if pos < q <= ts.len() { p_rules(ts, q, acc.push(r)) } else { None },
            None => None,
        }
    }
}

/// The header, then the rules.
pub open spec fn p_grammar(ts: Seq<(TokV, int, int)>, pos: int) -> Option<Seq<RuleV>> {
    match skip_header(ts, pos) {
        Some(p) => p_rules(ts, p, seq![]),
        None => None,
    }
}

/// The rules of ANTLR source text, or none on a lexical or syntax error or
/// an empty grammar.
pub open spec fn antlr_rules(source: Seq<char>) -> Option<Seq<RuleV>> {
    match lex(source, 0, 1, 1) {
        Some(ts) => p_grammar(ts, 0),
        None => None,
    }
}

proof fn lemma_items_push(v: Seq<RawItem>, it: RawItem)
    ensures
        items_view(v.push(it)) == items_view(v).push(item_view(it)),
{
    assert(v.push(it).drop_last() =~= v);
}

proof fn lemma_alts_push(v: Seq<RawAlternative<RawItem>>, a: RawAlternative<RawItem>)
    ensures
        alts_view(v.push(a)) == alts_view(v).push(items_view(a.items@)),
{
    assert(v.push(a).drop_last() =~= v);
}

spec fn expected_spec(k: TokV, which: Expected) -> bool {
    match k {
        TokV::Ident(_) => which == Expected::Ident,
        TokV::Colon => which == Expected::Colon,
        TokV::Semicolon => which == Expected::Semicolon,
        TokV::LBrace => which == Expected::LBrace,
        TokV::RParen => which == Expected::RParen,
        _ => false,
    }
}

/// A recursive-descent parser over the token list.
struct Parser {
    tokens: Vec<Token>,
    pos: usize,
}

impl Parser {
    spec fn wf(&self) -> bool {
        &&& self.pos <= self.tokens@.len()
        &&& self.tokens@.len() < usize::MAX
    }

    spec fn tv(&self) -> Seq<(TokV, int, int)> {
        toks_view(self.tokens@)
    }

    /// Where the next token is, else where the last one was, else 1:1.
    fn current_loc(&self) -> (loc: (usize, usize))
        ensures
            loc == if self.pos < self.tokens@.len() {
                (self.tokens@[self.pos as int].line, self.tokens@[self.pos as int].col)
            } else if self.tokens@.len() > 0 {
                (self.tokens@.last().line, self.tokens@.last().col)
            } else {
                (1usize, 1usize)
            },
    {
        if self.pos < self.tokens.len() {
            (self.tokens[self.pos].line, self.tokens[self.pos].col)
        } else if self.tokens.len() > 0 {
            let last = &self.tokens[self.tokens.len() - 1];
            (last.line, last.col)
        } else {
            (1, 1)
        }
    }

    /// Whether the next token is of the given kind.
    fn next_is(&self, which: Expected) -> (b: bool)
        ensures
            b == (self.pos < self.tokens@.len() && expected_spec(kind_at(self.tv(), self.pos as int), which)),
    {
        self.pos < self.tokens.len() && kind_is(&self.tokens[self.pos].kind, which)
    }

    /// Whether the next token is `|` (0), `,` (1) or `(` (2).
    fn next_is_kind(&self, k: u8) -> (b: bool)
        ensures
            b == (self.pos < self.tokens@.len() && match kind_at(self.tv(), self.pos as int) {
                TokV::Pipe => k == 0,
                TokV::Comma => k == 1,
                TokV::LParen => k == 2,
                _ => false,
            }),
    {
        self.pos < self.tokens.len() && (match &self.tokens[self.pos].kind {
            TokenKind::Pipe => k == 0,
            TokenKind::Comma => k == 1,
            TokenKind::LParen => k == 2,
            _ => false,
        })
    }

    /// The next token if it is an identifier equal to `word`.
    fn next_word_is(&self, word: &str) -> (b: bool)
        ensures
            b == word_at(self.tv(), self.pos as int, word@),
    {
        if self.pos < self.tokens.len() {
            match &self.tokens[self.pos].kind {
                TokenKind::Ident(s) => *s == String::from_str(word),
                _ => false,
            }
        } else {
            false
        }
    }

    /// Consume a token of the given kind; report what was found otherwise.
    fn expect(&mut self, which: Expected) -> (r: Result<(usize, usize), ParseError>)
        requires
            old(self).wf(),
        ensures
            final(self).wf(),
            final(self).tokens@ == old(self).tokens@,
            r is Ok ==> final(self).pos == old(self).pos + 1,
            r is Err ==> final(self).pos == old(self).pos,
            r is Ok == (old(self).pos < old(self).tokens@.len() && expected_spec(kind_at(old(self).tv(), old(self).pos as int), which)),
            r matches Ok(loc) ==> loc.0 == old(self).tv()[old(self).pos as int].1 && loc.1 == old(self).tv()[old(self).pos as int].2,
    {
        if self.pos < self.tokens.len() {
            if kind_is(&self.tokens[self.pos].kind, which) {
                let loc = (self.tokens[self.pos].line, self.tokens[self.pos].col);
                self.pos += 1;
                return Ok(loc);
            }
            let want = expected_debug(which);
            let found = token_kind_debug(&self.tokens[self.pos].kind);
            let a = concat("expected ", want.as_str());
            let b = concat(a.as_str(), ", found ");
            return Err(ParseError {
                line: self.tokens[self.pos].line,
                column: self.tokens[self.pos].col,
                message: concat(b.as_str(), found.as_str()),
            });
        }
        let (line, col) = self.current_loc();
        let want = expected_debug(which);
        let a = concat("expected ", want.as_str());
        Err(ParseError { line, column: col, message: concat(a.as_str(), ", found end of input") })
    }

    /// Skip a `{ ... }` block whose opening brace is already consumed.
    fn skip_brace_block(&mut self)
        requires
            old(self).wf(),
        ensures
            final(self).wf(),
            final(self).tokens@ == old(self).tokens@,
            final(self).pos >= old(self).pos,
            final(self).pos == skip_brace(old(self).tv(), old(self).pos as int, 1),
    {
        let mut depth: usize = 1;
        let ghost p0 = self.pos;
        let ghost ts = self.tv();
        while self.pos < self.tokens.len() && depth > 0
            invariant
                self.wf(),
                self.tokens@ == old(self).tokens@,
                ts == self.tv(),
                self.pos >= p0,
                p0 == old(self).pos,
                depth <= 1 + (self.pos - p0),
                skip_brace(ts, p0 as int, 1) == skip_brace(ts, self.pos as int, depth as nat),
            decreases self.tokens@.len() - self.pos,
        {
            match &self.tokens[self.pos].kind {
                TokenKind::LBrace => {
                    depth += 1;
                },
                TokenKind::RBrace => {
                    depth -= 1;
                },
                _ => {},
            }
            self.pos += 1;
        }
    }

    /// Skip `[lexer|parser] grammar Name ;` and an `options { ... }` block.
    fn skip_grammar_header(&mut self) -> (r: Result<(), ParseError>)
        requires
            old(self).wf(),
        ensures
            final(self).wf(),
            final(self).tokens@ == old(self).tokens@,
            final(self).pos >= old(self).pos,
            old(self).tokens@.len() == 0 ==> r is Ok && final(self).pos == 0,
            match skip_header(old(self).tv(), old(self).pos as int) {
                Some(p) => r is Ok && final(self).pos == p,
                None => r is Err,
            },
    {
        let starts = self.next_word_is("grammar") || self.next_word_is("lexer") || self.next_word_is("parser");
        if starts {
            if self.next_word_is("lexer") || self.next_word_is("parser") {
                self.pos += 1;
            }
            if self.next_word_is("grammar") {
                self.pos += 1;
            }
            if let Err(e) = self.expect(Expected::Ident) {
                return Err(e);
            }
            if let Err(e) = self.expect(Expected::Semicolon) {
                return Err(e);
            }
        }
        if self.next_word_is("options") {
            self.pos += 1;
            if let Err(e) = self.expect(Expected::LBrace) {
                return Err(e);
            }
            self.skip_brace_block();
        }
        Ok(())
    }

    /// The header, then every rule up to the end of input; none is an error.
    #[verifier::spinoff_prover]
    #[verifier::rlimit(60)]
    fn parse_grammar(&mut self) -> (r: Result<RawGrammar<RawItem>, ParseError>)
        requires
            old(self).wf(),
        ensures
            match p_grammar(old(self).tv(), old(self).pos as int) {
                Some(v) => r matches Ok(g) && rules_view(g.rules@) == v,
                None => r is Err,
            },
            r matches Ok(g) ==> g.rules@.len() > 0,
            old(self).tokens@.len() == 0 ==> (r matches Err(e) && e.message@ == "empty grammar"@),
            skip_header(old(self).tv(), old(self).pos as int) matches Some(p) && p >= old(self).tokens@.len()
                ==> (r matches Err(e) && e.line == 1 && e.column == 1 && e.message@ == "empty grammar"@),
    {
        let ghost ts = self.tv();
        if let Err(e) = self.skip_grammar_header() {
            return Err(e);
        }
        let ghost p0 = self.pos as int;
        let mut rules: Vec<RawRule<RawItem>> = Vec::new();
        let mut failure: Option<ParseError> = None;
        assert(rules_view(rules@) =~= Seq::<RuleV>::empty());
        while self.pos < self.tokens.len()
            invariant_except_break
                self.wf(),
                failure is None,
                self.tokens@ == old(self).tokens@,
                ts == self.tv(),
                p_rules(ts, p0, seq![]) == p_rules(ts, self.pos as int, rules_view(rules@)),
                old(self).tokens@.len() == 0 ==> rules@.len() == 0,
                p0 >= self.tokens@.len() ==> rules@.len() == 0,
                self.pos >= p0,
            ensures
                self.tokens@ == old(self).tokens@,
                p0 >= self.tokens@.len() ==> rules@.len() == 0 && failure is None,
                failure is None ==> p_rules(ts, p0, seq![]) == p_rules(ts, self.pos as int, rules_view(rules@))
                    && self.pos >= self.tokens@.len(),
                failure is Some ==> p_rules(ts, p0, seq![]) is None,
                old(self).tokens@.len() == 0 ==> rules@.len() == 0 && failure is None,
            decreases self.tokens@.len() - self.pos,
        {
            let ghost before = rules@;
            let rule = self.parse_rule();
            match rule {
                Ok(rule) => {
                    rules.push(rule);
                    assert(rules_view(rules@) =~= rules_view(before).push(rule_view(rule)));
                },
                Err(e) => {
                    failure = Some(e);
                    break;
                },
            }
        }
        if let Some(e) = failure {
            return Err(e);
        }
        if rules.len() == 0 {
            return Err(ParseError { line: 1, column: 1, message: String::from_str("empty grammar") });
        }
        Ok(RawGrammar { rules })
    }

    /// `[fragment] name : alternatives ;`.
    fn parse_rule(&mut self) -> (r: Result<RawRule<RawItem>, ParseError>)
        requires
            old(self).wf(),
        ensures
            final(self).wf(),
            final(self).tokens@ == old(self).tokens@,
            r is Ok ==> final(self).pos > old(self).pos,
            final(self).pos >= old(self).pos,
            match p_rule(old(self).tv(), old(self).pos as int) {
                Some((v, q)) => r matches Ok(rule) && rule_view(rule) == v && final(self).pos == q,
                None => r is Err,
            },
    {
        if self.next_word_is("fragment") {
            self.pos += 1;
        }
        let name = if self.pos < self.tokens.len() {
            match &self.tokens[self.pos].kind {
                TokenKind::Ident(s) => Some(s.clone()),
                _ => None,
            }
        } else {
            None
        };
        let (name_line, name_col) = match self.expect(Expected::Ident) {
            Ok(loc) => loc,
            Err(e) => {
                return Err(e);
            },
        };
        let name = match name {
            Some(n) => n,
            None => String::new(),
        };
        if let Err(e) = self.expect(Expected::Colon) {
            return Err(e);
        }
        let alternatives = match self.parse_alternatives() {
            Ok(a) => a,
            Err(e) => {
                return Err(e);
            },
        };
        if let Err(e) = self.expect(Expected::Semicolon) {
            return Err(e);
        }
        Ok(RawRule { name, alternatives, line: name_line, col: name_col })
    }

    /// Sequences separated by `|`; at least one.
    fn parse_alternatives(&mut self) -> (r: Result<Vec<RawAlternative<RawItem>>, ParseError>)
        requires
            old(self).wf(),
        ensures
            final(self).wf(),
            final(self).tokens@ == old(self).tokens@,
            final(self).pos >= old(self).pos,
            r matches Ok(alts) ==> alts@.len() >= 1,
            match p_alts(old(self).tv(), old(self).pos as int) {
                Some((v, q)) => r matches Ok(alts) && alts_view(alts@) == v && final(self).pos == q,
                None => r is Err,
            },
        decreases old(self).tokens@.len() - old(self).pos, 3nat,
    {
        let ghost ts = self.tv();
        let ghost p0 = self.pos as int;
        let mut alts: Vec<RawAlternative<RawItem>> = Vec::new();
        let first = match self.parse_sequence() {
            Ok(s) => s,
            Err(e) => {
                return Err(e);
            },
        };
        alts.push(first);
        proof {
            lemma_alts_push(seq![], first);
            assert(seq![first] =~= Seq::<RawAlternative<RawItem>>::empty().push(first));
            assert(alts_view(Seq::<RawAlternative<RawItem>>::empty()) =~= Seq::<Seq<ItemV>>::empty());
            assert(seq![items_view(first.items@)] =~= Seq::<Seq<ItemV>>::empty().push(items_view(first.items@)));
        }
        let mut failure: Option<ParseError> = None;
        loop
            invariant_except_break
                self.wf(),
                self.tokens@ == old(self).tokens@,
                ts == self.tv(),
                self.pos >= old(self).pos,
                alts@.len() >= 1,
                failure is None,
                p_alts(ts, p0) == p_alts_more(ts, self.pos as int, alts_view(alts@)),
            ensures
                self.wf(),
                self.tokens@ == old(self).tokens@,
                self.pos >= old(self).pos,
                alts@.len() >= 1,
                failure is None ==> p_alts(ts, p0) == Some((alts_view(alts@), self.pos as int)),
                failure is Some ==> p_alts(ts, p0) is None,
            decreases self.tokens@.len() - self.pos,
        {
            let more = self.next_is_kind(0);
            if !more {
                break;
            }
            let ghost before = alts@;
            self.pos += 1;
            match self.parse_sequence() {
                Ok(s) => {
                    alts.push(s);
                    proof {
                        lemma_alts_push(before, s);
                    }
                },
                Err(e) => {
                    failure = Some(e);
                    break;
                },
            }
        }
        match failure {
            Some(e) => Err(e),
            None => Ok(alts),
        }
    }

    /// Items up to `|`, `;`, `)` or the end; a lexer command ends the
    /// sequence, actions and labels are skipped, unknown tokens dropped.
    fn parse_sequence(&mut self) -> (r: Result<RawAlternative<RawItem>, ParseError>)
        requires
            old(self).wf(),
        ensures
            final(self).wf(),
            final(self).tokens@ == old(self).tokens@,
            final(self).pos >= old(self).pos,
            match p_seq(old(self).tv(), old(self).pos as int, seq![]) {
                Some((v, q)) => r matches Ok(alt) && items_view(alt.items@) == v && final(self).pos == q,
                None => r is Err,
            },
        decreases old(self).tokens@.len() - old(self).pos, 2nat,
    {
        let ghost ts = self.tv();
        let ghost p0 = self.pos as int;
        let mut items: Vec<RawItem> = Vec::new();
        let mut failure: Option<ParseError> = None;
        assert(items_view(items@) =~= Seq::<ItemV>::empty());
        loop
            invariant_except_break
                self.wf(),
                self.tokens@ == old(self).tokens@,
                ts == self.tv(),
                self.pos >= old(self).pos,
                failure is None,
                p_seq(ts, p0, seq![]) == p_seq(ts, self.pos as int, items_view(items@)),
            ensures
                self.wf(),
                self.tokens@ == old(self).tokens@,
                self.pos >= old(self).pos,
                failure is None ==> p_seq(ts, p0, seq![]) == Some((items_view(items@), self.pos as int)),
                failure is Some ==> p_seq(ts, p0, seq![]) is None,
            decreases self.tokens@.len() - self.pos,
        {
            if self.pos >= self.tokens.len() {
                break;
            }
            let what: u8 = match &self.tokens[self.pos].kind {
                TokenKind::Pipe | TokenKind::Semicolon | TokenKind::RParen => 0,
                TokenKind::Arrow => 1,
                TokenKind::LBrace => 2,
                TokenKind::Hash => 3,
                _ => 4,
            };
            if what == 0 {
                break;
            }
            if what == 1 {
                self.skip_action();
                break;
            }
            if what == 2 {
                self.pos += 1;
                self.skip_brace_block();
                proof {
                    lemma_skip_brace(ts, self.pos as int, 1);
                }
                continue;
            }
            if what == 3 {
                self.pos += 1;
                let label = self.pos < self.tokens.len() && (match &self.tokens[self.pos].kind {
                    TokenKind::Ident(_) => true,
                    _ => false,
                });
                if label {
                    self.pos += 1;
                }
                continue;
            }
            let ghost items0 = items@;
            match self.parse_atom() {
                Ok(Some(item)) => {
                    let item = self.maybe_quantified(item);
                    items.push(item);
                    proof {
                        lemma_items_push(items0, item);
                    }
                },
                Ok(None) => {
                    if self.pos < self.tokens.len() {
                        self.pos += 1;
                    }
                },
                Err(e) => {
                    failure = Some(e);
                    break;
                },
            }
        }
        match failure {
            Some(e) => Err(e),
            None => Ok(RawAlternative { items }),
        }
    }

    /// Skip a lexer command list `-> name(args), name ...`.
    fn skip_action(&mut self)
        requires
            old(self).wf(),
            old(self).pos < old(self).tokens@.len(),
        ensures
            final(self).wf(),
            final(self).tokens@ == old(self).tokens@,
            final(self).pos > old(self).pos,
            final(self).pos == skip_commands(old(self).tv(), old(self).pos + 1),
    {
        let ghost ts = self.tv();
        self.pos += 1;
        loop
            invariant_except_break
                skip_commands(ts, old(self).pos + 1) == skip_commands(ts, self.pos as int),
            invariant
                self.wf(),
                self.tokens@ == old(self).tokens@,
                ts == self.tv(),
                self.pos > old(self).pos,
            ensures
                self.wf(),
                self.tokens@ == old(self).tokens@,
                self.pos > old(self).pos,
                skip_commands(ts, old(self).pos + 1) == self.pos,
            decreases self.tokens@.len() - self.pos,
        {
            let ghost p_iter = self.pos;
            let ident = self.pos < self.tokens.len() && (match &self.tokens[self.pos].kind {
                TokenKind::Ident(_) => true,
                _ => false,
            });
            if ident {
                self.pos += 1;
            }
            let ghost p1 = self.pos as int;
            if self.next_is_kind(2) {
                self.pos += 1;
                while self.pos < self.tokens.len()
                    invariant_except_break
                        self.wf(),
                        self.tokens@ == old(self).tokens@,
                        ts == self.tv(),
                        self.pos > old(self).pos,
                        self.pos >= p_iter,
                        skip_parens(ts, p1 + 1) == skip_parens(ts, self.pos as int),
                    ensures
                        self.wf(),
                        self.tokens@ == old(self).tokens@,
                        self.pos > old(self).pos,
                        self.pos >= p_iter,
                        skip_parens(ts, p1 + 1) == self.pos,
                    decreases self.tokens@.len() - self.pos,
                {
                    let close = match &self.tokens[self.pos].kind {
                        TokenKind::RParen => true,
                        _ => false,
                    };
                    self.pos += 1;
                    if close {
                        break;
                    }
                }
            }
            proof {
                assert(skip_commands(ts, p_iter as int) == if tok_at(ts, self.pos as int, TokV::Comma) {
                    skip_commands(ts, self.pos + 1)
                } else {
                    self.pos as int
                });
            }
            if self.next_is_kind(1) {
                self.pos += 1;
            } else {
                break;
            }
        }
    }

    /// One atom: a literal, a name, a class, a negation, `.`, or a group.
    /// `None` when nothing starts here.
    fn parse_atom(&mut self) -> (r: Result<Option<RawItem>, ParseError>)
        requires
            old(self).wf(),
        ensures
            final(self).wf(),
            final(self).tokens@ == old(self).tokens@,
            final(self).pos >= old(self).pos,
            r matches Ok(Some(_)) ==> final(self).pos > old(self).pos,
            match p_atom(old(self).tv(), old(self).pos as int) {
                Some((Some(v), q)) => r matches Ok(Some(it)) && item_view(it) == v && final(self).pos == q,
                Some((None, q)) => r matches Ok(None) && final(self).pos == q,
                None => r is Err,
            },
        decreases old(self).tokens@.len() - old(self).pos, 0nat,
    {
        if self.pos >= self.tokens.len() {
            return Ok(None);
        }
        let line = self.tokens[self.pos].line;
        let col = self.tokens[self.pos].col;
        let next: u8 = match &self.tokens[self.pos].kind {
            TokenKind::StringLit(s) => {
                let s = s.clone();
                self.pos += 1;
                return Ok(Some(RawItem::Literal(s)));
            },
            TokenKind::Ident(s) => {
                let s = s.clone();
                self.pos += 1;
                return Ok(Some(RawItem::NonTerminal(s, line, col)));
            },
            TokenKind::CharClass { ranges, negated } => {
                let ranges = vstd::slice::slice_to_vec(ranges.as_slice());
                let negated = *negated;
                self.pos += 1;
                return Ok(Some(RawItem::CharClass { ranges, negated }));
            },
            TokenKind::Dot => {
                self.pos += 1;
                return Ok(Some(RawItem::AnyChar));
            },
            TokenKind::Tilde => 0,
            TokenKind::LParen => 1,
            _ => {
                return Ok(None);
            },
        };
        self.pos += 1;
        if next == 0 {
            if self.pos < self.tokens.len() {
                let negated_class: Option<Vec<(u8, u8)>> = match &self.tokens[self.pos].kind {
                    TokenKind::StringLit(s) => {
                        let bytes = s.as_str().as_bytes();
                        let mut ranges: Vec<(u8, u8)> = Vec::new();
                        let mut k: usize = 0;
                        while k < bytes.len()
                            invariant
                                0 <= k <= bytes@.len(),
                                ranges@ == bytes@.take(k as int).map_values(|b: u8| (b, b)),
                            decreases bytes@.len() - k,
                        {
                            ranges.push((bytes[k], bytes[k]));
                            assert(bytes@.take(k as int + 1).map_values(|b: u8| (b, b))
                                =~= bytes@.take(k as int).map_values(|b: u8| (b, b)).push((bytes@[k as int], bytes@[k as int])));
                            k += 1;
                        }
                        assert(bytes@.take(bytes@.len() as int) =~= bytes@);
                        Some(ranges)
                    },
                    TokenKind::CharClass { ranges, .. } => Some(vstd::slice::slice_to_vec(ranges.as_slice())),
                    _ => None,
                };
                if let Some(ranges) = negated_class {
                    self.pos += 1;
                    return Ok(Some(RawItem::CharClass { ranges, negated: true }));
                }
            }
            return Ok(Some(RawItem::AnyChar));
        }
        let alts = match self.parse_alternatives() {
            Ok(a) => a,
            Err(e) => {
                return Err(e);
            },
        };
        if let Err(e) = self.expect(Expected::RParen) {
            return Err(e);
        }
        Ok(Some(RawItem::Group(alts)))
    }

    /// `item?`, `item*`, `item+`, or `item` itself.
    fn maybe_quantified(&mut self, item: RawItem) -> (r: RawItem)
        requires
            old(self).wf(),
        ensures
            final(self).wf(),
            final(self).tokens@ == old(self).tokens@,
            final(self).pos >= old(self).pos,
            (item_view(r), final(self).pos as int) == quantified(old(self).tv(), old(self).pos as int, item_view(item)),
    {
        if self.pos >= self.tokens.len() {
            return item;
        }
        let q: Option<RawQuantifier> = match &self.tokens[self.pos].kind {
            TokenKind::Question => Some(RawQuantifier::Optional),
            TokenKind::Star => Some(RawQuantifier::ZeroOrMore),
            TokenKind::Plus => Some(RawQuantifier::OneOrMore),
            _ => None,
        };
        match q {
            Some(q) => {
                self.pos += 1;
                RawItem::Quantified(Box::new(item), q)
            },
            None => item,
        }
    }
}

/// Two rules of `rs` share a name.
pub open spec fn names_repeat(rs: Seq<RuleV>) -> bool {
    exists|i: int, j: int| 0 <= i < j < rs.len() && #[trigger] rs[i].name == #[trigger] rs[j].name
}

/// Compile a combined ANTLR grammar into grammar IR; the start is the first
/// parser rule (lowercase name), else the first rule.
#[verifier::spinoff_prover]
#[verifier::rlimit(60)]
pub fn compile(source: &str) -> (r: Result<GrammarIr, ParseError>)
    requires
        source@.len() < usize::MAX / 4,
    ensures
        antlr_rules(source@) is None ==> r is Err,
        antlr_rules(source@) matches Some(rs) && rules_ready(rs) ==> r is Ok,
        antlr_rules(source@) matches Some(rs) && names_repeat(rs) && rs.len() < u32::MAX
            ==> (r matches Err(e) && "duplicate rule: "@.is_prefix_of(e.message@)),
        r matches Ok(ir) ==> exists|rules: Seq<RawRule<RawItem>>| rules.len() > 0
            && antlr_rules(source@) == Some(rules_view(rules))
            && #[trigger] built_ok(rules, ProductionId(first_parser_rule(rules, 0) as u32), ir),
        source@.len() == 0 ==> (r matches Err(e) && e.message@ == "empty grammar"@),
        lex(source@, 0, 1, 1) matches Some(ts) && skip_header(ts, 0) matches Some(p) && p >= ts.len()
            ==> (r matches Err(e) && e.line == 1 && e.column == 1 && e.message@ == "empty grammar"@),
{
    let tokens = match tokenize(source) {
        Ok(t) => t,
        Err(e) => {
            return Err(e);
        },
    };
    let n = tokens.len();
    let mut parser = Parser { tokens, pos: 0 };
    let raw = match parser.parse_grammar() {
        Ok(g) => g,
        Err(e) => {
            return Err(e);
        },
    };
    let ghost rules = raw.rules@;
    proof {
        if let Some(rs) = antlr_rules(source@) {
            if names_repeat(rs) {
                let (i, j) = choose|i: int, j: int| 0 <= i < j < rs.len() && #[trigger] rs[i].name == #[trigger] rs[j].name;
                assert(rules[i].name@ == rules[j].name@);
                assert(has_duplicate(rules));
            }
        }
    }
    let start = pick_start(&raw.rules);
    proof {
        if raw.rules@.len() > 0 {
            lemma_first_parser_rule(rules, 0);
        }
    }
    match build_ir(raw, start) {
        Ok(ir) => {
            assert(built_ok(rules, ProductionId(first_parser_rule(rules, 0) as u32), ir));
            Ok(ir)
        },
        Err(e) => Err(e),
    }
}


// ── Split grammars: a lexer grammar and a parser grammar ──

/// A rule of a lexer grammar, with the annotations that decide its fate.
struct LexerRule {
    name: String,
    alternatives: Vec<RawAlternative<RawItem>>,
    is_fragment: bool,
    is_skip: bool,
    is_channel_hidden: bool,
}

/// The command after an arrow at `i`: `-> skip` (true) or `-> channel`
/// (false); none when no arrow with one of them stands there.
pub open spec fn command_at(ts: Seq<(TokV, int, int)>, i: int) -> Option<bool> {
    if 0 <= i && i + 1 < ts.len() && ts[i].0 is Arrow {
        match ts[i + 1].0 {
            TokV::Ident(a) => if a == "skip"@ {
                Some(true)
            } else if a == "channel"@ {
                Some(false)
            } else {
                None
            },
            _ => None,
        }
    } else {
        None
    }
}

/// Some arrow among `ts[lo..hi]` carries a command of the given kind.
pub open spec fn command_within(ts: Seq<(TokV, int, int)>, lo: int, hi: int, skip: bool) -> bool {
    exists|i: int| lo <= i < hi && #[trigger] command_at(ts, i) == Some(skip)
}

/// Whether an arrow among `tokens[lo..hi]` carries `-> skip` (`skip`) or
/// `-> channel` (not `skip`).
fn command_in(tokens: &Vec<Token>, lo: usize, hi: usize, skip: bool) -> (b: bool)
    requires
        lo <= hi <= tokens@.len(),
    ensures
        b == command_within(toks_view(tokens@), lo as int, hi as int, skip),
{
    let ghost tv = toks_view(tokens@);
    let mut i: usize = lo;
    while i < hi
        invariant
            lo <= i <= hi <= tokens@.len(),
            tv == toks_view(tokens@),
            forall|m: int| lo <= m < i ==> #[trigger] command_at(tv, m) != Some(skip),
        decreases hi - i,
    {
        let arrow = i + 1 < tokens.len() && (match &tokens[i].kind {
            TokenKind::Arrow => true,
            _ => false,
        });
        if arrow {
            let which: u8 = match &tokens[i + 1].kind {
                TokenKind::Ident(a) => if *a == String::from_str("skip") {
                    1
                } else if *a == String::from_str("channel") {
                    2
                } else {
                    0
                },
                _ => 0,
            };
            assert(command_at(tv, i as int) == if which == 1 { Some(true) } else if which == 2 { Some(false) } else { None::<bool> });
            if (which == 1 && skip) || (which == 2 && !skip) {
                return true;
            }
        } else {
            assert(command_at(tv, i as int) is None);
        }
        i += 1;
    }
    false
}

/// Past the first `;` from `pos`, or the end.
pub open spec fn after_semicolon(ts: Seq<(TokV, int, int)>, pos: int) -> int
    decreases ts.len() - pos,
{
    if pos < 0 || pos >= ts.len() {
        pos
    } else if ts[pos].0 is Semicolon {
        pos + 1
    } else {
        after_semicolon(ts, pos + 1)
    }
}

pub proof fn lemma_after_semicolon(ts: Seq<(TokV, int, int)>, pos: int)
    requires
        0 <= pos <= ts.len(),
    ensures
        pos <= after_semicolon(ts, pos) <= ts.len(),
        pos < ts.len() ==> pos < after_semicolon(ts, pos),
    decreases ts.len() - pos,
{
    if pos < ts.len() && !(ts[pos].0 is Semicolon) {
        lemma_after_semicolon(ts, pos + 1);
    }
}

/// The rules of a lexer grammar from `pos`, after `acc`: `[fragment] name
/// : alternatives ;`, marked skipped or hidden when its body carries a
/// `-> skip` or `-> channel` command. A token that does not start a rule is
/// passed over, and so is a name not followed by `:`, up to and past the
/// next `;`. None on a syntax error in
/// a rule body.
pub open spec fn p_lexer_rules(ts: Seq<(TokV, int, int)>, pos: int, acc: Seq<LexRuleV>) -> Option<Seq<LexRuleV>>
    decreases ts.len() - pos,
{
    if pos < 0 || pos >= ts.len() {
        Some(acc)
    } else {
        let frag = word_at(ts, pos, "fragment"@);
        let p0 = if frag { pos + 1 } else { pos };
        if !ident_at(ts, p0) {
            p_lexer_rules(ts, if p0 < ts.len() { p0 + 1 } else { p0 }, acc)
        } else if !tok_at(ts, p0 + 1, TokV::Colon) {
            proof {
                lemma_after_semicolon(ts, p0 + 1);
            }
            p_lexer_rules(ts, after_semicolon(ts, p0 + 1), acc)
        } else {
            match p_alts(ts, p0 + 2) {
                Some((alts, q)) => if tok_at(ts, q, TokV::Semicolon) && pos < q {
                    let rule = LexRuleV {
                        name: kind_at(ts, p0)->Ident_0,
                        alts,
                        fragment: frag,
                        skip: command_within(ts, p0 + 2, q, true),
                        hidden: command_within(ts, p0 + 2, q, false),
                    };
                    p_lexer_rules(ts, q + 1, acc.push(rule))
                } else {
                    None
                },
                None => None,
            }
        }
    }
}

/// The lexer rules of ANTLR lexer-grammar source text, or none on a
/// lexical error, a malformed header or a syntax error in a rule body.
pub open spec fn antlr_lexer_rules(source: Seq<char>) -> Option<Seq<LexRuleV>> {
    match lex(source, 0, 1, 1) {
        Some(ts) => match skip_header(ts, 0) {
            Some(p) => p_lexer_rules(ts, p, seq![]),
            None => None,
        },
        None => None,
    }
}

impl Parser {
    /// The rules of a lexer grammar, noting `fragment` and the `-> skip` and
    /// `-> channel(...)` commands in each rule's body.
    /// Tokens that do not start a rule are skipped, and so is a name not
    /// followed by `:` up to the next `;`.
    #[verifier::spinoff_prover]
    #[verifier::rlimit(100)]
    fn parse_lexer_rules(&mut self) -> (r: Result<Vec<LexerRule>, ParseError>)
        requires
            old(self).wf(),
        ensures
            old(self).tokens@.len() == 0 ==> (r matches Ok(rules) && rules@.len() == 0),
            match skip_header(old(self).tv(), old(self).pos as int) {
                Some(p) => match p_lexer_rules(old(self).tv(), p, seq![]) {
                    Some(v) => r matches Ok(rules) && lexer_view(rules@) == v,
                    None => r is Err,
                },
                None => r is Err,
            },
    {
        let ghost ts = self.tv();
        if let Err(e) = self.skip_grammar_header() {
            return Err(e);
        }
        let ghost ph = self.pos as int;
        let mut rules: Vec<LexerRule> = Vec::new();
        let mut failure: Option<ParseError> = None;
        assert(lexer_view(rules@) =~= Seq::<LexRuleV>::empty());
        while self.pos < self.tokens.len()
            invariant_except_break
                self.wf(),
                failure is None,
                self.tokens@ == old(self).tokens@,
                ts == self.tv(),
                old(self).tokens@.len() == 0 ==> rules@.len() == 0,
                p_lexer_rules(ts, ph, seq![]) == p_lexer_rules(ts, self.pos as int, lexer_view(rules@)),
                ts.len() == self.tokens@.len(),
            ensures
                old(self).tokens@.len() == 0 ==> rules@.len() == 0 && failure is None,
                failure is None ==> p_lexer_rules(ts, ph, seq![]) == Some(lexer_view(rules@)),
                failure is Some ==> p_lexer_rules(ts, ph, seq![]) is None,
            decreases self.tokens@.len() - self.pos,
        {
            let ghost p0 = self.pos;
            let ghost acc = lexer_view(rules@);
            let is_fragment = self.next_word_is("fragment");
            if is_fragment {
                self.pos += 1;
            }
            let name_pos = self.pos;
            let ghost pn = self.pos as int;
            let name = if self.pos < self.tokens.len() {
                match &self.tokens[self.pos].kind {
                    TokenKind::Ident(s) => Some(s.clone()),
                    _ => None,
                }
            } else {
                None
            };
            match self.expect(Expected::Ident) {
                Ok(_) => {},
                Err(_) => {
                    if self.pos < self.tokens.len() {
                        self.pos += 1;
                    }
                    assert(self.pos > p0);
                    assert(!ident_at(ts, pn));
                    assert(p_lexer_rules(ts, p0 as int, acc) == p_lexer_rules(ts, self.pos as int, acc));
                    continue;
                },
            }
            let name = match name {
                Some(n) => n,
                None => String::new(),
            };
            if self.expect(Expected::Colon).is_err() {
                proof {
                    lemma_after_semicolon(ts, pn + 1);
                }
                while self.pos < self.tokens.len()
                    invariant_except_break
                        after_semicolon(ts, pn + 1) == after_semicolon(ts, self.pos as int),
                    invariant
                        self.wf(),
                        self.tokens@ == old(self).tokens@,
                        ts == self.tv(),
                        self.pos > p0,
                    ensures
                        self.wf(),
                        self.tokens@ == old(self).tokens@,
                        self.pos > p0,
                        after_semicolon(ts, pn + 1) == self.pos,
                    decreases self.tokens@.len() - self.pos,
                {
                    let semi = match &self.tokens[self.pos].kind {
                        TokenKind::Semicolon => true,
                        _ => false,
                    };
                    self.pos += 1;
                    if semi {
                        break;
                    }
                }
                assert(ident_at(ts, pn) && !tok_at(ts, pn + 1, TokV::Colon));
                assert(p_lexer_rules(ts, p0 as int, acc) == p_lexer_rules(ts, self.pos as int, acc));
                continue;
            }
            let alternatives = match self.parse_alternatives() {
                Ok(a) => a,
                Err(e) => {
                    assert(p_alts(ts, pn + 2) is None);
                    assert(p_lexer_rules(ts, p0 as int, acc) is None);
                    failure = Some(e);
                    break;
                },
            };
            let ghost q = self.pos as int;
            let is_skip = if self.pos < self.tokens.len() { command_in(&self.tokens, name_pos + 2, self.pos, true) } else { false };
            let is_channel_hidden = if self.pos < self.tokens.len() { command_in(&self.tokens, name_pos + 2, self.pos, false) } else { false };
            if let Err(e) = self.expect(Expected::Semicolon) {
                assert(!tok_at(ts, q, TokV::Semicolon));
                assert(p_lexer_rules(ts, p0 as int, acc) is None);
                failure = Some(e);
                break;
            }
            let rule = LexerRule { name, alternatives, is_fragment, is_skip, is_channel_hidden };
            proof {
                assert(lexer_view(rules@.push(rule)) =~= acc.push(lex_view(rule)));
                assert(p_lexer_rules(ts, p0 as int, acc) == p_lexer_rules(ts, q + 1, acc.push(lex_view(rule))));
            }
            rules.push(rule);
        }
        match failure {
            Some(e) => Err(e),
            None => Ok(rules),
        }
    }
}

/// The last of `names[..k]` equal to `n`.
pub open spec fn find_last(names: Seq<String>, n: Seq<char>, k: int) -> Option<int>
    decreases k,
{
    if k <= 0 || k > names.len() {
        None
    } else if names[k - 1]@ == n {
        Some(k - 1)
    } else {
        find_last(names, n, k - 1)
    }
}

pub proof fn lemma_find_last(names: Seq<String>, n: Seq<char>, k: int)
    requires
        0 <= k <= names.len(),
    ensures
        find_last(names, n, k) matches Some(i) ==> 0 <= i < k && names[i]@ == n,
    decreases k,
{
    if k > 0 {
        lemma_find_last(names, n, k - 1);
    }
}

fn find_last_name(names: &Vec<String>, name: &str) -> (r: Option<usize>)
    ensures
        r matches Some(i) ==> find_last(names@, name@, names@.len() as int) == Some(i as int),
        r is None ==> find_last(names@, name@, names@.len() as int) is None,
{
    let key = String::from_str(name);
    let mut k: usize = names.len();
    while k > 0
        invariant
            0 <= k <= names@.len(),
            key@ == name@,
            find_last(names@, name@, names@.len() as int) == find_last(names@, name@, k as int),
        decreases k,
    {
        if names[k - 1] == key {
            return Some(k - 1);
        }
        k -= 1;
    }
    None
}

/// A lexer rule as a value: its name, its alternatives, and whether it is
/// a fragment, skipped, or sent to a hidden channel.
pub struct LexRuleV {
    pub name: Seq<char>,
    pub alts: Seq<Seq<ItemV>>,
    pub fragment: bool,
    pub skip: bool,
    pub hidden: bool,
}

spec fn lex_view(r: LexerRule) -> LexRuleV {
    LexRuleV {
        name: r.name@,
        alts: alts_view(r.alternatives@),
        fragment: r.is_fragment,
        skip: r.is_skip,
        hidden: r.is_channel_hidden,
    }
}

spec fn lexer_view(s: Seq<LexerRule>) -> Seq<LexRuleV> {
    s.map_values(|r: LexerRule| lex_view(r))
}

/// A rule dropped from the parser's view: `-> skip` or `-> channel(...)`.
pub open spec fn skipped(r: LexRuleV) -> bool {
    !r.fragment && (r.skip || r.hidden)
}

/// A rule that becomes a token pool or a keyword.
pub open spec fn regular(r: LexRuleV) -> bool {
    !r.fragment && !r.skip && !r.hidden
}

/// The last regular rule of `lexer[..k]` named `n`.
pub open spec fn last_regular(lexer: Seq<LexRuleV>, n: Seq<char>, k: int) -> Option<int>
    decreases k,
{
    if k <= 0 || k > lexer.len() {
        None
    } else if regular(lexer[k - 1]) && lexer[k - 1].name == n {
        Some(k - 1)
    } else {
        last_regular(lexer, n, k - 1)
    }
}

pub proof fn lemma_last_regular(lexer: Seq<LexRuleV>, n: Seq<char>, k: int)
    requires
        0 <= k <= lexer.len(),
    ensures
        last_regular(lexer, n, k) matches Some(i) ==> 0 <= i < k && regular(lexer[i]) && lexer[i].name == n,
    decreases k,
{
    if k > 0 {
        lemma_last_regular(lexer, n, k - 1);
    }
}

fn is_skipped_name(lexer: &Vec<LexerRule>, name: &str) -> (b: bool)
    ensures
        b <==> exists|i: int| 0 <= i < lexer@.len() && skipped(#[trigger] lexer_view(lexer@)[i]) && lexer_view(lexer@)[i].name == name@,
{
    let key = String::from_str(name);
    let mut k: usize = 0;
    while k < lexer.len()
        invariant
            0 <= k <= lexer@.len(),
            key@ == name@,
            forall|i: int| 0 <= i < k ==> !(skipped(#[trigger] lexer_view(lexer@)[i]) && lexer_view(lexer@)[i].name == name@),
        decreases lexer@.len() - k,
    {
        let r = &lexer[k];
        assert(lexer_view(lexer@)[k as int] == lex_view(lexer@[k as int]));
        if !r.is_fragment && (r.is_skip || r.is_channel_hidden) && r.name == key {
            return true;
        }
        k += 1;
    }
    false
}

fn find_last_regular(lexer: &Vec<LexerRule>, name: &str) -> (r: Option<usize>)
    ensures
        r matches Some(i) ==> last_regular(lexer_view(lexer@), name@, lexer@.len() as int) == Some(i as int),
        r is None ==> last_regular(lexer_view(lexer@), name@, lexer@.len() as int) is None,
{
    let key = String::from_str(name);
    let mut k: usize = lexer.len();
    while k > 0
        invariant
            0 <= k <= lexer@.len(),
            key@ == name@,
            last_regular(lexer_view(lexer@), name@, lexer@.len() as int) == last_regular(lexer_view(lexer@), name@, k as int),
        decreases k,
    {
        let r = &lexer[k - 1];
        assert(lexer_view(lexer@)[k - 1] == lex_view(lexer@[k - 1]));
        if !r.is_fragment && !r.is_skip && !r.is_channel_hidden && r.name == key {
            return Some(k - 1);
        }
        k -= 1;
    }
    None
}

/// The keyword a lexer rule stands for: its body is one alternative of
/// one quoted string.
pub open spec fn keyword_of(alts: Seq<Seq<ItemV>>) -> Option<Seq<char>> {
    if alts.len() == 1 && alts[0].len() == 1 && alts[0][0] is Literal {
        Some(alts[0][0]->Literal_0)
    } else {
        None
    }
}

fn keyword_literal(alts: &Vec<RawAlternative<RawItem>>) -> (r: Option<&String>)
    ensures
        r matches Some(s) ==> keyword_of(alts_view(alts@)) == Some(s@),
        r is None ==> keyword_of(alts_view(alts@)) is None,
{
    proof {
        crate::ir_builder::lemma_alts_view_index(alts@);
        if alts@.len() > 0 {
            crate::ir_builder::lemma_items_view_index(alts@[0].items@);
        }
    }
    if alts.len() == 1 && alts[0].items.len() == 1 {
        match &alts[0].items[0] {
            RawItem::Literal(s) => Some(s),
            _ => None,
        }
    } else {
        None
    }
}

/// What a name in a parser rule stands for.
pub enum NameUse {
    /// The parser rule with this index.
    Rule(int),
    /// Nothing: `EOF`, or a token that is skipped or hidden.
    Dropped,
    /// This keyword, the body of a one-string lexer rule.
    Keyword(Seq<char>),
    /// The token pool of the lexer rule with this index.
    Pool(int),
    /// The name itself, as a literal.
    Unknown,
}

/// What name `n` stands for in a parser rule of a split grammar: the last
/// parser rule of that name; else nothing for `EOF` or a skipped or hidden
/// token; else the last regular lexer rule of that name, as its keyword if
/// its body is one string, else as its pool; else the name as a literal.
pub open spec fn name_use(names: Seq<String>, lexer: Seq<LexRuleV>, n: Seq<char>) -> NameUse {
    match find_last(names, n, names.len() as int) {
        Some(i) => NameUse::Rule(i),
        None => if n == "EOF"@ || exists|i: int| 0 <= i < lexer.len() && skipped(#[trigger] lexer[i]) && lexer[i].name == n {
            NameUse::Dropped
        } else {
            match last_regular(lexer, n, lexer.len() as int) {
                Some(j) => match keyword_of(lexer[j].alts) {
                    Some(kw) => NameUse::Keyword(kw),
                    None => NameUse::Pool(j),
                },
                None => NameUse::Unknown,
            }
        },
    }
}

/// The pools so far are a prefix of `after`.
pub open spec fn pools_grow(before: Seq<TokenPoolEntry>, after: Seq<TokenPoolEntry>) -> bool {
    &&& after.len() >= before.len()
    &&& forall|i: int| 0 <= i < before.len() ==> #[trigger] after[i] == before[i]
}

// ── What a built reference of a split grammar stands for ──

/// Item `it` of a parser rule adds no reference: a name that stands for
/// nothing, or such an item under a quantifier.
pub open spec fn split_drops(names: Seq<String>, lexer: Seq<LexRuleV>, it: ItemV) -> bool
    decreases it,
{
    match it {
        ItemV::NonTerminal(n, _, _) => name_use(names, lexer, n) is Dropped,
        ItemV::Quantified(inner, _) => split_drops(names, lexer, *inner),
        _ => false,
    }
}

/// The modifier on the reference an item adds.
pub open spec fn split_modifier(it: ItemV) -> Modifier {
    match it {
        ItemV::Quantified(_, q) => crate::ir_builder::quantifier_modifier(q),
        _ => Modifier::Once,
    }
}

/// How many of `items[..k]` add a reference.
pub open spec fn split_width(names: Seq<String>, lexer: Seq<LexRuleV>, items: Seq<ItemV>, k: int) -> int
    decreases k,
{
    if k <= 0 || k > items.len() {
        0
    } else {
        split_width(names, lexer, items, k - 1) + if split_drops(names, lexer, items[k - 1]) { 0int } else { 1int }
    }
}

pub proof fn lemma_split_width(names: Seq<String>, lexer: Seq<LexRuleV>, items: Seq<ItemV>, k: int)
    requires
        0 <= k <= items.len(),
    ensures
        0 <= split_width(names, lexer, items, k) <= k,
    decreases k,
{
    if k > 0 {
        lemma_split_width(names, lexer, items, k - 1);
    }
}

/// Symbol `sid` stands for item `it` of a parser rule: a string, class or
/// `.` as its terminal; a name as what `name_use` says, a pool by the
/// pool's name; a group as an anonymous production of its alternatives
/// (always, also for one item); a quantified item as the symbol of its
/// item.
pub open spec fn split_sym_means(st: BuildState, lexer: Seq<LexRuleV>, pools: Seq<TokenPoolEntry>, sid: SymbolId, it: ItemV) -> bool
    decreases it, 3nat, 0nat,
{
    &&& sid.0 < st.symbols.len()
    &&& match it {
        ItemV::Literal(s) => (st.symbols[sid.0 as int] matches Symbol::Terminal(TerminalKind::Literal(b)) && b@ == encode_utf8(s)),
        ItemV::CharClass(rs, neg) => (st.symbols[sid.0 as int] matches Symbol::Terminal(TerminalKind::CharClass { ranges, negated })
            && ranges@ == rs && negated == neg),
        ItemV::AnyChar => (st.symbols[sid.0 as int] matches Symbol::Terminal(TerminalKind::AnyByte)),
        ItemV::NonTerminal(n, _, _) => match name_use(st.names, lexer, n) {
            NameUse::Rule(i) => st.symbols[sid.0 as int] == Symbol::NonTerminal(ProductionId(i as u32)),
            NameUse::Dropped => false,
            NameUse::Keyword(kw) => (st.symbols[sid.0 as int] matches Symbol::Terminal(TerminalKind::Literal(b)) && b@ == encode_utf8(kw)),
            NameUse::Pool(_) => (st.symbols[sid.0 as int] matches Symbol::Terminal(TerminalKind::TokenPool(p))
                && p.0 < pools.len() && pools[p.0 as int].name@ == n),
            NameUse::Unknown => (st.symbols[sid.0 as int] matches Symbol::Terminal(TerminalKind::Literal(b)) && b@ == encode_utf8(n)),
        },
        ItemV::Group(alts) => match anon_of(st, sid) {
            Some(built) => split_alts_mean(st, lexer, pools, built, alts),
            None => false,
        },
        ItemV::Quantified(inner, _) => split_sym_means(st, lexer, pools, sid, *inner),
        _ => false,
    }
}

/// Built alternatives stand for the alternatives of a parser rule or group, one for one.
pub open spec fn split_alts_mean(st: BuildState, lexer: Seq<LexRuleV>, pools: Seq<TokenPoolEntry>, built: Seq<Alternative>, alts: Seq<Seq<ItemV>>) -> bool
    decreases alts, 1nat, 0nat,
{
    built.len() == alts.len() && split_alts_upto(st, lexer, pools, built, alts, alts.len() as int)
}

pub open spec fn split_alts_upto(st: BuildState, lexer: Seq<LexRuleV>, pools: Seq<TokenPoolEntry>, built: Seq<Alternative>, alts: Seq<Seq<ItemV>>, j: int) -> bool
    decreases alts, 0nat, j,
{
    if j <= 0 || j > alts.len() || j > built.len() {
        j <= 0
    } else {
        &&& split_alts_upto(st, lexer, pools, built, alts, j - 1)
        &&& built[j - 1].semantic_tag is None
        &&& split_alt_means(st, lexer, pools, built[j - 1].symbols@, alts[j - 1])
    }
}

/// References stand for the items of one alternative: one for each item
/// that adds one, in order, under its modifier; when no item adds one, a
/// single empty literal.
pub open spec fn split_alt_means(st: BuildState, lexer: Seq<LexRuleV>, pools: Seq<TokenPoolEntry>, refs: Seq<SymbolRef>, items: Seq<ItemV>) -> bool
    decreases items, 2nat, 0nat,
{
    if split_width(st.names, lexer, items, items.len() as int) == 0 {
        &&& refs.len() == 1
        &&& refs[0].modifier == Modifier::Once
        &&& refs[0].symbol.0 < st.symbols.len()
        &&& (st.symbols[refs[0].symbol.0 as int] matches Symbol::Terminal(TerminalKind::Literal(b)) && b@.len() == 0)
    } else {
        &&& refs.len() == split_width(st.names, lexer, items, items.len() as int)
        &&& split_refs_upto(st, lexer, pools, refs, items, items.len() as int)
    }
}

/// The references for `items[..k]` come first in `refs`, in order.
pub open spec fn split_refs_upto(st: BuildState, lexer: Seq<LexRuleV>, pools: Seq<TokenPoolEntry>, refs: Seq<SymbolRef>, items: Seq<ItemV>, k: int) -> bool
    decreases items, 0nat, k,
{
    if k <= 0 || k > items.len() {
        k <= 0
    } else {
        &&& split_refs_upto(st, lexer, pools, refs, items, k - 1)
        &&& !split_drops(st.names, lexer, items[k - 1]) ==> {
            let w = split_width(st.names, lexer, items, k - 1);
            &&& 0 <= w < refs.len()
            &&& refs[w].modifier == split_modifier(items[k - 1])
            &&& split_sym_means(st, lexer, pools, refs[w].symbol, items[k - 1])
        }
    }
}

/// An item a split grammar can build: no `[...]`, `{...}` or `n *` in it.
pub open spec fn split_supported(it: ItemV) -> bool
    decreases it, 2nat,
{
    match it {
        ItemV::Group(alts) => alts_supported(alts),
        ItemV::Quantified(inner, _) => split_supported(*inner),
        ItemV::Optional(_) => false,
        ItemV::Repeat(_) => false,
        ItemV::Factor(..) => false,
        _ => true,
    }
}

pub open spec fn alts_supported(alts: Seq<Seq<ItemV>>) -> bool
    decreases alts, 1nat,
{
    alts.len() > 0 && forall|j: int| 0 <= j < alts.len() ==> items_supported(#[trigger] alts[j])
}

pub open spec fn items_supported(items: Seq<ItemV>) -> bool
    decreases items, 0nat,
{
    forall|k: int| 0 <= k < items.len() ==> split_supported(#[trigger] items[k])
}

/// The items of alternatives, counted.
pub open spec fn alts_items(alts: Seq<Seq<ItemV>>, j: int) -> nat
    decreases j,
{
    if j <= 0 || j > alts.len() { 0 } else { alts_items(alts, j - 1) + alts[j - 1].len() }
}

/// The items of the first `k` lexer rules, counted.
pub open spec fn lexer_items(lexer: Seq<LexRuleV>, k: int) -> nat
    decreases k,
{
    if k <= 0 || k > lexer.len() {
        0
    } else {
        lexer_items(lexer, k - 1) + alts_items(lexer[k - 1].alts, lexer[k - 1].alts.len() as int)
    }
}

pub proof fn lemma_lexer_items(lexer: Seq<LexRuleV>, j: int, k: int)
    requires
        0 <= j < k <= lexer.len(),
    ensures
        alts_items(lexer[j].alts, lexer[j].alts.len() as int) <= lexer_items(lexer, k),
    decreases k,
{
    if j < k - 1 {
        lemma_lexer_items(lexer, j, k - 1);
    }
}

pub proof fn lemma_alts_items_mono(alts: Seq<Seq<ItemV>>, j: int)
    requires
        0 <= j <= alts.len(),
    ensures
        alts_items(alts, j) <= alts_items(alts, alts.len() as int),
    decreases alts.len() - j,
{
    if j < alts.len() {
        lemma_alts_items_mono(alts, j + 1);
    }
}

/// At most how many symbols, token pools and anonymous productions building
/// split item `it` adds, the lexer rules holding `lex` items in all.
pub open spec fn split_cost(it: ItemV, lex: nat) -> nat
    decreases it, 2nat, 0nat,
{
    match it {
        ItemV::NonTerminal(..) => lex + 1,
        ItemV::Group(alts) => split_alts_cost(alts, lex) + 1,
        ItemV::Quantified(inner, _) => split_cost(*inner, lex) + 1,
        _ => 1,
    }
}

pub open spec fn split_alts_cost(alts: Seq<Seq<ItemV>>, lex: nat) -> nat
    decreases alts, 1nat, 0nat,
{
    split_alts_cost_upto(alts, lex, alts.len() as int)
}

pub open spec fn split_alts_cost_upto(alts: Seq<Seq<ItemV>>, lex: nat, j: int) -> nat
    decreases alts, 0nat, j,
{
    if j <= 0 || j > alts.len() {
        0
    } else {
        split_alts_cost_upto(alts, lex, j - 1) + split_items_cost(alts[j - 1], lex) + 1
    }
}

pub open spec fn split_items_cost(items: Seq<ItemV>, lex: nat) -> nat
    decreases items, 1nat, 0nat,
{
    split_items_cost_upto(items, lex, items.len() as int)
}

pub open spec fn split_items_cost_upto(items: Seq<ItemV>, lex: nat, k: int) -> nat
    decreases items, 0nat, k,
{
    if k <= 0 || k > items.len() {
        0
    } else {
        split_items_cost_upto(items, lex, k - 1) + split_cost(items[k - 1], lex)
    }
}

pub proof fn lemma_split_alts_cost_mono(alts: Seq<Seq<ItemV>>, lex: nat, j: int)
    requires
        0 <= j <= alts.len(),
    ensures
        split_alts_cost_upto(alts, lex, j) <= split_alts_cost(alts, lex),
    decreases alts.len() - j,
{
    if j < alts.len() {
        lemma_split_alts_cost_mono(alts, lex, j + 1);
    }
}

pub proof fn lemma_split_items_cost_mono(items: Seq<ItemV>, lex: nat, k: int)
    requires
        0 <= k <= items.len(),
    ensures
        split_items_cost_upto(items, lex, k) <= split_items_cost(items, lex),
    decreases items.len() - k,
{
    if k < items.len() {
        lemma_split_items_cost_mono(items, lex, k + 1);
    }
}

/// `b1` and `p1` have at most `c` more symbols, anonymous productions and
/// pools than `b0` and `p0`.
pub open spec fn split_grows(b1: IrBuilder, b0: IrBuilder, p1: Seq<TokenPoolEntry>, p0: Seq<TokenPoolEntry>, c: int) -> bool {
    &&& b1.symbols@.len() <= b0.symbols@.len() + c
    &&& b1.anon_productions@.len() <= b0.anon_productions@.len() + c
    &&& p1.len() <= p0.len() + c
}

proof fn lemma_items_unsupported(items: Seq<ItemV>, k: int)
    requires
        0 <= k < items.len(),
        !split_supported(items[k]),
    ensures
        !items_supported(items),
{
}

proof fn lemma_alts_unsupported(alts: Seq<Seq<ItemV>>, j: int)
    requires
        0 <= j < alts.len(),
        !items_supported(alts[j]),
    ensures
        !alts_supported(alts),
{
}

/// The references one item adds: none when it drops, else one.
pub open spec fn split_adds(st: BuildState, lexer: Seq<LexRuleV>, pools: Seq<TokenPoolEntry>, added: Seq<SymbolRef>, it: ItemV) -> bool {
    if split_drops(st.names, lexer, it) {
        added.len() == 0
    } else {
        &&& added.len() == 1
        &&& added[0].modifier == split_modifier(it)
        &&& split_sym_means(st, lexer, pools, added[0].symbol, it)
    }
}

/// What a split reference stands for stays so as the build goes on.
pub proof fn lemma_split_sym_grow(st1: BuildState, st2: BuildState, lexer: Seq<LexRuleV>, p1: Seq<TokenPoolEntry>, p2: Seq<TokenPoolEntry>, sid: SymbolId, it: ItemV)
    requires
        extends(st2, st1),
        pools_grow(p1, p2),
        split_sym_means(st1, lexer, p1, sid, it),
    ensures
        split_sym_means(st2, lexer, p2, sid, it),
    decreases it, 3nat, 0nat,
{
    assert(st2.symbols[sid.0 as int] == st1.symbols[sid.0 as int]);
    match it {
        ItemV::NonTerminal(n, _, _) => {
            if let Symbol::Terminal(TerminalKind::TokenPool(p)) = st1.symbols[sid.0 as int] {
                if p.0 < p1.len() {
                    assert(p2[p.0 as int] == p1[p.0 as int]);
                }
            }
        },
        ItemV::Group(alts) => {
            let built = anon_of(st1, sid)->0;
            if let Symbol::NonTerminal(p) = st1.symbols[sid.0 as int] {
                assert(st2.anon[p.0 - st1.nn] == st1.anon[p.0 - st1.nn]);
            }
            assert(anon_of(st2, sid) == Some(built));
            lemma_split_alts_grow(st1, st2, lexer, p1, p2, built, alts);
        },
        ItemV::Quantified(inner, _) => {
            lemma_split_sym_grow(st1, st2, lexer, p1, p2, sid, *inner);
        },
        _ => {},
    }
}

pub proof fn lemma_split_alts_grow(st1: BuildState, st2: BuildState, lexer: Seq<LexRuleV>, p1: Seq<TokenPoolEntry>, p2: Seq<TokenPoolEntry>, built: Seq<Alternative>, alts: Seq<Seq<ItemV>>)
    requires
        extends(st2, st1),
        pools_grow(p1, p2),
        split_alts_mean(st1, lexer, p1, built, alts),
    ensures
        split_alts_mean(st2, lexer, p2, built, alts),
    decreases alts, 1nat, 0nat,
{
    lemma_split_alts_upto_grow(st1, st2, lexer, p1, p2, built, alts, alts.len() as int);
}

proof fn lemma_split_alts_upto_grow(st1: BuildState, st2: BuildState, lexer: Seq<LexRuleV>, p1: Seq<TokenPoolEntry>, p2: Seq<TokenPoolEntry>, built: Seq<Alternative>, alts: Seq<Seq<ItemV>>, j: int)
    requires
        extends(st2, st1),
        pools_grow(p1, p2),
        split_alts_upto(st1, lexer, p1, built, alts, j),
    ensures
        split_alts_upto(st2, lexer, p2, built, alts, j),
    decreases alts, 0nat, j,
{
    if j > 0 && j <= alts.len() && j <= built.len() {
        lemma_split_alts_upto_grow(st1, st2, lexer, p1, p2, built, alts, j - 1);
        lemma_split_alt_grow(st1, st2, lexer, p1, p2, built[j - 1].symbols@, alts[j - 1]);
    }
}

pub proof fn lemma_split_alt_grow(st1: BuildState, st2: BuildState, lexer: Seq<LexRuleV>, p1: Seq<TokenPoolEntry>, p2: Seq<TokenPoolEntry>, refs: Seq<SymbolRef>, items: Seq<ItemV>)
    requires
        extends(st2, st1),
        pools_grow(p1, p2),
        split_alt_means(st1, lexer, p1, refs, items),
    ensures
        split_alt_means(st2, lexer, p2, refs, items),
    decreases items, 2nat, 0nat,
{
    if split_width(st1.names, lexer, items, items.len() as int) == 0 {
        assert(st2.symbols[refs[0].symbol.0 as int] == st1.symbols[refs[0].symbol.0 as int]);
    } else {
        lemma_split_refs_upto_grow(st1, st2, lexer, p1, p2, refs, items, items.len() as int);
    }
}

pub proof fn lemma_split_refs_upto_grow(st1: BuildState, st2: BuildState, lexer: Seq<LexRuleV>, p1: Seq<TokenPoolEntry>, p2: Seq<TokenPoolEntry>, refs: Seq<SymbolRef>, items: Seq<ItemV>, k: int)
    requires
        extends(st2, st1),
        pools_grow(p1, p2),
        split_refs_upto(st1, lexer, p1, refs, items, k),
    ensures
        split_refs_upto(st2, lexer, p2, refs, items, k),
    decreases items, 0nat, k,
{
    if k > 0 && k <= items.len() {
        lemma_split_refs_upto_grow(st1, st2, lexer, p1, p2, refs, items, k - 1);
        if !split_drops(st1.names, lexer, items[k - 1]) {
            let w = split_width(st1.names, lexer, items, k - 1);
            lemma_split_sym_grow(st1, st2, lexer, p1, p2, refs[w].symbol, items[k - 1]);
        }
    }
}

/// `split_refs_upto` depends only on the references of `items[..k]`.
pub proof fn lemma_split_refs_upto_prefix(st: BuildState, lexer: Seq<LexRuleV>, pools: Seq<TokenPoolEntry>, refs: Seq<SymbolRef>, refs2: Seq<SymbolRef>, items: Seq<ItemV>, k: int)
    requires
        0 <= k <= items.len(),
        split_refs_upto(st, lexer, pools, refs, items, k),
        split_width(st.names, lexer, items, k) <= refs2.len(),
        forall|i: int| 0 <= i < split_width(st.names, lexer, items, k) ==> refs2[i] == refs[i],
    ensures
        split_refs_upto(st, lexer, pools, refs2, items, k),
    decreases k,
{
    if k > 0 {
        lemma_split_width(st.names, lexer, items, k - 1);
        lemma_split_refs_upto_prefix(st, lexer, pools, refs, refs2, items, k - 1);
    }
}

/// `split_alts_upto` depends only on the first `j` alternatives.
pub proof fn lemma_split_alts_upto_prefix(st: BuildState, lexer: Seq<LexRuleV>, pools: Seq<TokenPoolEntry>, built: Seq<Alternative>, built2: Seq<Alternative>, alts: Seq<Seq<ItemV>>, j: int)
    requires
        0 <= j <= built.len(),
        j <= built2.len(),
        split_alts_upto(st, lexer, pools, built, alts, j),
        forall|i: int| 0 <= i < j ==> built2[i] == built[i],
    ensures
        split_alts_upto(st, lexer, pools, built2, alts, j),
    decreases j,
{
    if j > 0 && j <= alts.len() {
        lemma_split_alts_upto_prefix(st, lexer, pools, built, built2, alts, j - 1);
    }
}

/// A lexer item as a terminal reference: strings, classes and `.` become
/// terminals, a quantified one keeps its quantifier; references and
/// groups are left out (`None`).
fn lexer_item_terminal(item: &RawItem, builder: &mut IrBuilder) -> (r: Result<Option<SymbolRef>, ParseError>)
    requires
        old(builder).wf(),
    ensures
        final(builder).wf(),
        final(builder).grows_from(*old(builder)),
        final(builder).anon_productions@ == old(builder).anon_productions@,
        r matches Ok(Some(sr)) ==> sr.symbol.0 < final(builder).symbols@.len(),
        r is Err ==> exhausted(*final(builder)),
        final(builder).symbols@.len() <= old(builder).symbols@.len() + 1,
    decreases item,
{
    let mut refs: Vec<SymbolRef> = Vec::new();
    match item {
        RawItem::Literal(s) => {
            match builder.build_literal(s.as_str(), &mut refs) {
                Ok(()) => Ok(Some(refs[0])),
                Err(e) => Err(e),
            }
        },
        RawItem::CharClass { ranges, negated } => {
            match builder.build_charclass(ranges.as_slice(), *negated, &mut refs) {
                Ok(()) => Ok(Some(refs[0])),
                Err(e) => Err(e),
            }
        },
        RawItem::AnyChar => {
            match builder.build_anychar(&mut refs) {
                Ok(()) => Ok(Some(refs[0])),
                Err(e) => Err(e),
            }
        },
        RawItem::Quantified(inner, q) => {
            proof {
                assert(decreases_to!(*item => (*item)->Quantified_0));
            }
            let modifier = quantifier_modifier(*q);
            match lexer_item_terminal(inner, builder) {
                Ok(Some(sr)) => Ok(Some(SymbolRef { symbol: sr.symbol, modifier })),
                Ok(None) => Ok(None),
                Err(e) => Err(e),
            }
        },
        _ => Ok(None),
    }
}

/// The modifier of a quantifier: unbounded above.
fn quantifier_modifier(q: RawQuantifier) -> (m: Modifier)
    ensures
        m == match q {
            RawQuantifier::Optional => Modifier::Optional,
            RawQuantifier::ZeroOrMore => Modifier::ZeroOrMore { min: 0, max: u32::MAX },
            RawQuantifier::OneOrMore => Modifier::OneOrMore { min: 1, max: u32::MAX },
        },
{
    match q {
        RawQuantifier::Optional => Modifier::Optional,
        RawQuantifier::ZeroOrMore => Modifier::ZeroOrMore { min: 0, max: 0xffff_ffff },
        RawQuantifier::OneOrMore => Modifier::OneOrMore { min: 1, max: 0xffff_ffff },
    }
}

/// The pool of the lexer rule `name`, made on first use: one alternative
/// per alternative of the rule, of its terminal items, leaving out those
/// that keep none.
fn pool_for(name: &str, alts: &Vec<RawAlternative<RawItem>>, pools: &mut Vec<TokenPoolEntry>, builder: &mut IrBuilder) -> (r: Result<PoolId, ParseError>)
    requires
        old(builder).wf(),
        old(pools)@.len() <= u32::MAX,
    ensures
        final(pools)@.len() <= u32::MAX,
        final(builder).wf(),
        final(builder).grows_from(*old(builder)),
        final(builder).anon_productions@ == old(builder).anon_productions@,
        pools_grow(old(pools)@, final(pools)@),
        r matches Ok(p) ==> p.0 < final(pools)@.len() && final(pools)@[p.0 as int].name@ == name@,
        r is Err ==> exhausted(*final(builder)) || final(pools)@.len() >= u32::MAX,
        final(builder).symbols@.len() <= old(builder).symbols@.len() + alts_items(alts_view(alts@), alts@.len() as int),
        final(pools)@.len() <= old(pools)@.len() + 1,
{
    let key = String::from_str(name);
    let mut k: usize = 0;
    let mut found: Option<usize> = None;
    while k < pools.len()
        invariant_except_break
            0 <= k <= pools@.len(),
            found is None,
            key@ == name@,
            pools@ == old(pools)@,
        ensures
            pools@ == old(pools)@,
            found matches Some(i) ==> i < pools@.len() && pools@[i as int].name@ == name@,
        decreases pools@.len() - k,
    {
        if pools[k].name == key {
            found = Some(k);
            break;
        }
        k += 1;
    }
    if let Some(i) = found {
        return Ok(PoolId(i as u32));
    }
    if pools.len() >= 0xffff_ffff {
        return Err(ParseError { line: 0, column: 0, message: String::from_str("grammar too large") });
    }
    let pool_id = PoolId(pools.len() as u32);
    let mut ir_alts: Vec<Alternative> = Vec::new();
    let mut failure: Option<ParseError> = None;
    let mut i: usize = 0;
    let ghost av = alts_view(alts@);
    let ghost s0 = old(builder).symbols@.len() as int;
    proof {
        crate::ir_builder::lemma_alts_view_index(alts@);
    }
    while i < alts.len()
        invariant_except_break
            0 <= i <= alts@.len(),
            failure is None,
            builder.wf(),
            builder.grows_from(*old(builder)),
            builder.anon_productions@ == old(builder).anon_productions@,
            av == alts_view(alts@),
            av.len() == alts@.len(),
            forall|j: int| 0 <= j < alts@.len() ==> #[trigger] av[j] == items_view(alts@[j].items@),
            s0 == old(builder).symbols@.len(),
            builder.symbols@.len() <= s0 + alts_items(av, i as int),
        ensures
            builder.wf(),
            builder.grows_from(*old(builder)),
            builder.anon_productions@ == old(builder).anon_productions@,
            failure is Some ==> exhausted(*builder),
            builder.symbols@.len() <= s0 + alts_items(av, av.len() as int),
        decreases alts@.len() - i,
    {
        let mut syms: Vec<SymbolRef> = Vec::new();
        let mut k: usize = 0;
        proof {
            crate::ir_builder::lemma_items_view_index(alts@[i as int].items@);
            assert(alts_items(av, i + 1) == alts_items(av, i as int) + av[i as int].len());
            lemma_alts_items_mono(av, i + 1);
        }
        let ghost si = builder.symbols@.len() as int;
        while k < alts[i].items.len()
            invariant_except_break
                0 <= i < alts@.len(),
                0 <= k <= alts@[i as int].items@.len(),
                failure is None,
                builder.wf(),
                builder.grows_from(*old(builder)),
                builder.anon_productions@ == old(builder).anon_productions@,
                builder.symbols@.len() <= si + k,
            ensures
                builder.wf(),
                builder.grows_from(*old(builder)),
                builder.anon_productions@ == old(builder).anon_productions@,
                failure is Some ==> exhausted(*builder),
                builder.symbols@.len() <= si + alts@[i as int].items@.len(),
            decreases alts@[i as int].items@.len() - k,
        {
            match lexer_item_terminal(&alts[i].items[k], builder) {
                Ok(Some(sr)) => syms.push(sr),
                Ok(None) => {},
                Err(e) => {
                    failure = Some(e);
                    break;
                },
            }
            k += 1;
        }
        if failure.is_some() {
            break;
        }
        if syms.len() > 0 {
            ir_alts.push(Alternative { symbols: syms, semantic_tag: None });
        }
        i += 1;
    }
    if let Some(e) = failure {
        return Err(e);
    }
    pools.push(TokenPoolEntry { name: String::from_str(name), alternatives: ir_alts });
    Ok(pool_id)
}

/// Add the references a name in a parser rule stands for (see `name_use`).
fn build_split_name(name: &str, lexer: &Vec<LexerRule>, pools: &mut Vec<TokenPoolEntry>, builder: &mut IrBuilder, refs: &mut Vec<SymbolRef>) -> (r: Result<(), ParseError>)
    requires
        old(builder).wf(),
        old(pools)@.len() <= u32::MAX,
        refs_below(old(refs)@, old(builder).symbols@.len() as int),
    ensures
        final(builder).wf(),
        final(builder).grows_from(*old(builder)),
        final(builder).anon_productions@ == old(builder).anon_productions@,
        pools_grow(old(pools)@, final(pools)@),
        final(pools)@.len() <= u32::MAX,
        refs_below(final(refs)@, final(builder).symbols@.len() as int),
        old(refs)@.len() <= final(refs)@.len() <= old(refs)@.len() + 1,
        final(refs)@.subrange(0, old(refs)@.len() as int) == old(refs)@,
        r is Ok ==> match name_use(old(builder).names@, lexer_view(lexer@), name@) {
            NameUse::Dropped => final(refs)@ == old(refs)@,
            _ => final(refs)@.len() == old(refs)@.len() + 1 && final(refs)@.last().modifier == Modifier::Once
                && split_sym_means(final(builder).state(), lexer_view(lexer@), final(pools)@, final(refs)@.last().symbol,
                    ItemV::NonTerminal(name@, 0, 0)),
        },
        old(builder).symbols@.len() < u32::MAX && old(builder).names@.len() < u32::MAX
            && name_use(old(builder).names@, lexer_view(lexer@), name@) is Dropped ==> r is Ok,
        r is Err ==> exhausted(*final(builder)) || final(pools)@.len() >= u32::MAX,
        split_grows(*final(builder), *old(builder), final(pools)@, old(pools)@, (lexer_items(lexer_view(lexer@), lexer@.len() as int) + 1) as int),
{
    proof {
        lemma_find_last(builder.names@, name@, builder.names@.len() as int);
        lemma_last_regular(lexer_view(lexer@), name@, lexer@.len() as int);
        assert(refs@.subrange(0, refs@.len() as int) =~= refs@);
    }
    let ghost r0 = refs@;
    let ghost b0 = builder.symbols@.len() as int;
    if let Some(i) = find_last_name(&builder.names, name) {
        let sid = builder.alloc_symbol(Symbol::NonTerminal(ProductionId(i as u32)));
        return match sid {
            Ok(sid) => {
                refs.push(SymbolRef { symbol: sid, modifier: Modifier::Once });
                proof {
                    assert(refs@.subrange(0, r0.len() as int) =~= r0);
                    assert forall|k: int| 0 <= k < refs@.len() implies #[trigger] refs@[k].symbol.0 < builder.symbols@.len() as int by {
                        if k < r0.len() {
                            assert(refs@[k] == r0[k]);
                        }
                    }
                }
                Ok(())
            },
            Err(e) => Err(e),
        };
    }
    let key = String::from_str(name);
    let eof = String::from_str("EOF");
    if key == eof || is_skipped_name(lexer, name) {
        return Ok(());
    }
    let ghost p0 = pools@;
    let r = match find_last_regular(lexer, name) {
        Some(j) => {
            proof {
                lemma_last_regular(lexer_view(lexer@), name@, lexer@.len() as int);
                crate::ir_builder::lemma_alts_view_index(lexer@[j as int].alternatives@);
                assert(lexer_view(lexer@)[j as int].alts == alts_view(lexer@[j as int].alternatives@));
                lemma_lexer_items(lexer_view(lexer@), j as int, lexer@.len() as int);
            }
            match keyword_literal(&lexer[j].alternatives) {
                Some(kw) => builder.build_literal(kw.as_str(), refs),
                None => {
                    match pool_for(name, &lexer[j].alternatives, pools, builder) {
                        Ok(pool_id) => {
                            let sid = builder.alloc_symbol(Symbol::Terminal(TerminalKind::TokenPool(pool_id)));
                            match sid {
                                Ok(sid) => {
                                    refs.push(SymbolRef { symbol: sid, modifier: Modifier::Once });
                                    Ok(())
                                },
                                Err(e) => Err(e),
                            }
                        },
                        Err(e) => Err(e),
                    }
                },
            }
        },
        None => builder.build_literal(name, refs),
    };
    proof {
        if r is Err {
            assert(refs@ == r0);
            assert(refs@.subrange(0, r0.len() as int) =~= r0);
        }
        if r is Ok {
            assert(refs@.subrange(0, r0.len() as int) =~= r0);
            assert forall|k: int| 0 <= k < refs@.len() implies #[trigger] refs@[k].symbol.0 < builder.symbols@.len() as int by {
                if k < r0.len() {
                    assert(refs@[k] == r0[k]);
                }
            }
        }
        assert forall|i: int| 0 <= i < p0.len() implies #[trigger] pools@[i].name@ == p0[i].name@ by {}
    }
    r
}

/// What building one item of a split grammar keeps: the builder well
/// formed and grown, references within its symbols, pools grown.
spec fn split_step(b0: IrBuilder, b1: IrBuilder, p0: Seq<TokenPoolEntry>, p1: Seq<TokenPoolEntry>) -> bool {
    &&& b1.wf()
    &&& b1.grows_from(b0)
    &&& pools_grow(p0, p1)
    &&& p1.len() <= u32::MAX
}

/// Add the references for one parser item of a split grammar: at most
/// one. A group becomes an anonymous production; a quantified item keeps
/// its single reference under the quantifier.
fn build_split_item(item: &RawItem, lexer: &Vec<LexerRule>, pools: &mut Vec<TokenPoolEntry>, builder: &mut IrBuilder, refs: &mut Vec<SymbolRef>) -> (r: Result<(), ParseError>)
    requires
        old(builder).wf(),
        old(pools)@.len() <= u32::MAX,
        refs_below(old(refs)@, old(builder).symbols@.len() as int),
    ensures
        split_step(*old(builder), *final(builder), old(pools)@, final(pools)@),
        refs_below(final(refs)@, final(builder).symbols@.len() as int),
        old(refs)@.len() <= final(refs)@.len() <= old(refs)@.len() + 1,
        final(refs)@.subrange(0, old(refs)@.len() as int) == old(refs)@,
        item is NonTerminal && r is Ok ==> final(builder).anon_productions@ == old(builder).anon_productions@,
        r is Ok ==> split_adds(final(builder).state(), lexer_view(lexer@), final(pools)@,
            final(refs)@.subrange(old(refs)@.len() as int, final(refs)@.len() as int), item_view(*item)),
        r is Err ==> exhausted(*final(builder)) || final(pools)@.len() >= u32::MAX || !split_supported(item_view(*item)),
        split_grows(*final(builder), *old(builder), final(pools)@, old(pools)@, split_cost(item_view(*item), lexer_items(lexer_view(lexer@), lexer@.len() as int)) as int),
        r is Ok && split_supported(item_view(*item)) ==> keeps_nonempty(*old(builder), *final(builder)),
    decreases item, 0nat,
{
    let ghost r0 = refs@;
    let ghost p0 = pools@;
    let ghost lv = lexer_view(lexer@);
    proof {
        assert(refs@.subrange(0, refs@.len() as int) =~= refs@);
    }
    let r = match item {
        RawItem::Literal(s) => builder.build_literal(s.as_str(), refs),
        RawItem::NonTerminal(name, _, _) => build_split_name(name.as_str(), lexer, pools, builder, refs),
        RawItem::CharClass { ranges, negated } => builder.build_charclass(ranges.as_slice(), *negated, refs),
        RawItem::AnyChar => builder.build_anychar(refs),
        RawItem::Group(alts) => {
            proof {
                assert(decreases_to!(*item => (*item)->Group_0));
            }
            match build_split_alts(alts, lexer, pools, builder) {
                Ok(ir_alts) => {
                    let ghost b1 = *builder;
                    let ghost v = ir_alts@;
                    match builder.push_anon_production(ir_alts) {
                        Ok(sid) => {
                            refs.push(SymbolRef { symbol: sid, modifier: Modifier::Once });
                            proof {
                                lemma_grows_extends(*builder, b1);
                                lemma_split_alts_grow(b1.state(), builder.state(), lv, pools@, pools@, v, alts_view(alts@));
                                if split_supported(item_view(*item)) && prods_nonempty(old(builder).anon_productions@) {
                                    assert(prods_nonempty(b1.anon_productions@));
                                    crate::ir_builder::lemma_alts_view_index(alts@);
                                    assert(builder.grows_from(b1));
                                    assert(builder.anon_productions@.len() == b1.anon_productions@.len() + 1);
                                    assert(builder.anon_productions@.last().alternatives@ == v);
                                    assert(item_view(*item) == ItemV::Group(alts_view(alts@)));
                                    assert(alts_supported(alts_view(alts@)));
                                    assert(alts_view(alts@).len() > 0);
                                    assert(v.len() == alts@.len());
                                    assert(v.len() > 0);
                                    assert(forall|j: int| 0 <= j < v.len() ==> (#[trigger] v[j]).symbols@.len() > 0);
                                    lemma_push_nonempty(b1, *builder, v);
                                }
                            }
                            Ok(())
                        },
                        Err(e) => Err(e),
                    }
                },
                Err(e) => Err(e),
            }
        },
        RawItem::Quantified(inner, q) => {
            proof {
                assert(decreases_to!(*item => (*item)->Quantified_0));
            }
            let modifier = quantifier_modifier(*q);
            let mut inner_refs: Vec<SymbolRef> = Vec::new();
            match build_split_item(inner, lexer, pools, builder, &mut inner_refs) {
                Ok(()) => {
                    proof {
                        assert(inner_refs@.subrange(0, inner_refs@.len() as int) =~= inner_refs@);
                    }
                    if inner_refs.len() == 1 {
                        refs.push(SymbolRef { symbol: inner_refs[0].symbol, modifier });
                        Ok(())
                    } else if inner_refs.len() > 1 {
                        let alt = Alternative { symbols: inner_refs, semantic_tag: None };
                        let mut one: Vec<Alternative> = Vec::new();
                        one.push(alt);
                        match builder.push_anon_production(one) {
                            Ok(sid) => {
                                refs.push(SymbolRef { symbol: sid, modifier });
                                Ok(())
                            },
                            Err(e) => Err(e),
                        }
                    } else {
                        Ok(())
                    }
                },
                Err(e) => Err(e),
            }
        },
        _ => Err(ParseError { line: 0, column: 0, message: String::from_str("unsupported item in a split grammar") }),
    };
    proof {
        assert(refs@.len() >= r0.len());
        assert(refs@.subrange(0, r0.len() as int) =~= r0);
        assert forall|k: int| 0 <= k < refs@.len() implies #[trigger] refs@[k].symbol.0 < builder.symbols@.len() as int by {
            if k < r0.len() {
                assert(refs@.subrange(0, r0.len() as int)[k] == r0[k]);
            }
        }
        if r is Ok {
            let added = refs@.subrange(r0.len() as int, refs@.len() as int);
            if refs@.len() == r0.len() {
                assert(added =~= Seq::<SymbolRef>::empty());
            } else {
                assert(added =~= seq![refs@.last()]);
            }
        }
    }
    r
}

/// The alternatives of a parser rule or group of a split grammar; an
/// alternative left with no reference gets an empty literal.
fn build_split_alts(alts: &Vec<RawAlternative<RawItem>>, lexer: &Vec<LexerRule>, pools: &mut Vec<TokenPoolEntry>, builder: &mut IrBuilder) -> (r: Result<Vec<Alternative>, ParseError>)
    requires
        old(builder).wf(),
        old(pools)@.len() <= u32::MAX,
    ensures
        split_step(*old(builder), *final(builder), old(pools)@, final(pools)@),
        r matches Ok(v) ==> v@.len() == alts@.len() && alts_below(v@, final(builder).symbols@.len() as int)
            && forall|j: int| 0 <= j < v@.len() ==> (#[trigger] v@[j]).symbols@.len() > 0 && v@[j].semantic_tag is None,
        r matches Ok(v) ==> split_alts_mean(final(builder).state(), lexer_view(lexer@), final(pools)@, v@, alts_view(alts@)),
        r is Err ==> exhausted(*final(builder)) || final(pools)@.len() >= u32::MAX || !alts_supported(alts_view(alts@)),
        split_grows(*final(builder), *old(builder), final(pools)@, old(pools)@, split_alts_cost(alts_view(alts@), lexer_items(lexer_view(lexer@), lexer@.len() as int)) as int),
        r is Ok && alts_supported(alts_view(alts@)) ==> keeps_nonempty(*old(builder), *final(builder)),
    decreases alts, 1nat,
{
    let ghost lv = lexer_view(lexer@);
    let ghost av = alts_view(alts@);
    let ghost names = builder.names@;
    proof {
        crate::ir_builder::lemma_alts_view_index(alts@);
    }
    let mut result: Vec<Alternative> = Vec::new();
    let mut failure: Option<ParseError> = None;
    let mut i: usize = 0;
    while i < alts.len()
        invariant_except_break
            0 <= i <= alts@.len(),
            failure is None,
            split_step(*old(builder), *builder, old(pools)@, pools@),
            result@.len() == i,
            alts_below(result@, builder.symbols@.len() as int),
            forall|j: int| 0 <= j < i ==> (#[trigger] result@[j]).symbols@.len() > 0 && result@[j].semantic_tag is None,
            lv == lexer_view(lexer@),
            av == alts_view(alts@),
            av.len() == alts@.len(),
            forall|j: int| 0 <= j < alts@.len() ==> #[trigger] av[j] == items_view(alts@[j].items@),
            names == builder.names@,
            split_alts_upto(builder.state(), lv, pools@, result@, av, i as int),
            split_grows(*builder, *old(builder), pools@, old(pools)@, split_alts_cost_upto(av, lexer_items(lv, lexer@.len() as int), i as int) as int),
            alts_supported(av) ==> keeps_nonempty(*old(builder), *builder),
        ensures
            split_grows(*builder, *old(builder), pools@, old(pools)@, split_alts_cost(av, lexer_items(lv, lexer@.len() as int)) as int),
            failure is None && alts_supported(av) ==> keeps_nonempty(*old(builder), *builder),
            split_step(*old(builder), *builder, old(pools)@, pools@),
            failure is None ==> result@.len() == alts@.len() && alts_below(result@, builder.symbols@.len() as int)
                && (forall|j: int| 0 <= j < result@.len() ==> (#[trigger] result@[j]).symbols@.len() > 0 && result@[j].semantic_tag is None)
                && split_alts_upto(builder.state(), lv, pools@, result@, av, alts@.len() as int),
            failure is Some ==> exhausted(*builder) || pools@.len() >= u32::MAX || !alts_supported(av),
        decreases alts@.len() - i,
    {
        let ghost b_alt = builder.symbols@.len() as int;
        let ghost its = av[i as int];
        proof {
            crate::ir_builder::lemma_items_view_index(alts@[i as int].items@);
        }
        let mut inner: Vec<SymbolRef> = Vec::new();
        let ghost bi = *builder;
        let ghost pi = pools@;
        proof {
            assert(split_alts_cost_upto(av, lexer_items(lv, lexer@.len() as int), i + 1) == split_alts_cost_upto(av, lexer_items(lv, lexer@.len() as int), i as int) + split_items_cost(its, lexer_items(lv, lexer@.len() as int)) + 1);
            lemma_split_alts_cost_mono(av, lexer_items(lv, lexer@.len() as int), i + 1);
            if alts_supported(av) {
                assert(items_supported(av[i as int]));
            }
        }
        let mut k: usize = 0;
        while k < alts[i].items.len()
            invariant_except_break
                0 <= i < alts@.len(),
                0 <= k <= alts@[i as int].items@.len(),
                failure is None,
                split_step(*old(builder), *builder, old(pools)@, pools@),
                builder.symbols@.len() >= b_alt,
                refs_below(inner@, builder.symbols@.len() as int),
                names == builder.names@,
                lv == lexer_view(lexer@),
                its == items_view(alts@[i as int].items@),
                its.len() == alts@[i as int].items@.len(),
                forall|m: int| 0 <= m < its.len() ==> #[trigger] its[m] == item_view(alts@[i as int].items@[m]),
                inner@.len() == split_width(names, lv, its, k as int),
                split_refs_upto(builder.state(), lv, pools@, inner@, its, k as int),
                split_alts_upto(builder.state(), lv, pools@, result@, av, i as int),
                split_grows(*builder, bi, pools@, pi, split_items_cost_upto(its, lexer_items(lv, lexer@.len() as int), k as int) as int),
                items_supported(its) ==> keeps_nonempty(bi, *builder),
            ensures
                split_grows(*builder, bi, pools@, pi, split_items_cost(its, lexer_items(lv, lexer@.len() as int)) as int),
                failure is None && items_supported(its) ==> keeps_nonempty(bi, *builder),
                split_step(*old(builder), *builder, old(pools)@, pools@),
                builder.symbols@.len() >= b_alt,
                refs_below(inner@, builder.symbols@.len() as int),
                names == builder.names@,
                failure is None ==> inner@.len() == split_width(names, lv, its, its.len() as int)
                    && split_refs_upto(builder.state(), lv, pools@, inner@, its, its.len() as int)
                    && split_alts_upto(builder.state(), lv, pools@, result@, av, i as int),
                failure is Some ==> exhausted(*builder) || pools@.len() >= u32::MAX || !items_supported(its),
            decreases alts@[i as int].items@.len() - k,
        {
            proof {
                assert(decreases_to!(alts => alts@));
                assert(decreases_to!(alts@ => alts@[i as int]));
                assert(decreases_to!(alts@[i as int] => alts@[i as int].items));
                assert(decreases_to!(alts@[i as int].items => alts@[i as int].items@));
                assert(decreases_to!(alts@[i as int].items@ => alts@[i as int].items@[k as int]));
            }
            let ghost bb = *builder;
            proof {
                assert(split_items_cost_upto(its, lexer_items(lv, lexer@.len() as int), k + 1) == split_items_cost_upto(its, lexer_items(lv, lexer@.len() as int), k as int) + split_cost(its[k as int], lexer_items(lv, lexer@.len() as int)));
                lemma_split_items_cost_mono(its, lexer_items(lv, lexer@.len() as int), k + 1);
                if items_supported(its) {
                    assert(split_supported(its[k as int]));
                }
            }
            let ghost pp = pools@;
            let ghost in0 = inner@;
            if let Err(e) = build_split_item(&alts[i].items[k], lexer, pools, builder, &mut inner) {
                proof {
                    if !exhausted(*builder) && pools@.len() < u32::MAX {
                        assert(its[k as int] == item_view(alts@[i as int].items@[k as int]));
                        lemma_items_unsupported(its, k as int);
                    }
                    assert(pools_grow(old(pools)@, pools@)) by {
                        assert forall|m: int| 0 <= m < old(pools)@.len() implies #[trigger] pools@[m] == old(pools)@[m] by {
                            assert(pp[m] == old(pools)@[m]);
                        }
                    }
                }
                failure = Some(e);
                break;
            }
            proof {
                assert forall|m: int| 0 <= m < old(pools)@.len() implies #[trigger] pools@[m] == old(pools)@[m] by {
                    assert(pp[m] == old(pools)@[m]);
                }
                lemma_grows_extends(*builder, bb);
                lemma_split_width(names, lv, its, k as int);
                lemma_split_refs_upto_grow(bb.state(), builder.state(), lv, pp, pools@, in0, its, k as int);
                assert forall|m: int| 0 <= m < split_width(names, lv, its, k as int) implies inner@[m] == in0[m] by {
                    assert(inner@.subrange(0, in0.len() as int)[m] == in0[m]);
                }
                lemma_split_refs_upto_prefix(builder.state(), lv, pools@, in0, inner@, its, k as int);
                lemma_split_alts_upto_grow(bb.state(), builder.state(), lv, pp, pools@, result@, av, i as int);
                let added = inner@.subrange(in0.len() as int, inner@.len() as int);
                assert(its[k as int] == item_view(alts@[i as int].items@[k as int]));
                if !split_drops(names, lv, its[k as int]) {
                    assert(added[0] == inner@[in0.len() as int]);
                }
            }
            k += 1;
        }
        if failure.is_some() {
            proof {
                if !exhausted(*builder) && pools@.len() < u32::MAX {
                    lemma_alts_unsupported(av, i as int);
                }
            }
            break;
        }
        let ghost bl = *builder;
        if inner.len() == 0 {
            if let Err(e) = builder.build_literal("", &mut inner) {
                failure = Some(e);
                break;
            }
            proof {
                reveal_strlit("");
                lemma_grows_extends(*builder, bl);
                lemma_split_alts_upto_grow(bl.state(), builder.state(), lv, pools@, pools@, result@, av, i as int);
            }
        }
        let ghost r_old = result@;
        result.push(Alternative { symbols: inner, semantic_tag: None });
        proof {
            assert forall|j: int| 0 <= j < result@.len() implies #[trigger] refs_below(result@[j].symbols@, builder.symbols@.len() as int) by {
                if j < i {
                    assert(refs_below(result@[j].symbols@, b_alt));
                }
            }
            assert(split_alt_means(builder.state(), lv, pools@, result@[i as int].symbols@, its));
            lemma_split_alts_upto_prefix(builder.state(), lv, pools@, r_old, result@, av, i as int);
        }
        i += 1;
    }
    match failure {
        Some(e) => Err(e),
        None => Ok(result),
    }
}

/// The costs of the first `k` parser rules of a split grammar together.
pub open spec fn split_rules_cost(rs: Seq<RuleV>, lex: nat, k: int) -> nat
    decreases k,
{
    if k <= 0 || k > rs.len() {
        0
    } else {
        split_rules_cost(rs, lex, k - 1) + split_alts_cost(rs[k - 1].alts, lex)
    }
}

pub proof fn lemma_split_rules_cost_mono(rs: Seq<RuleV>, lex: nat, k: int)
    requires
        0 <= k <= rs.len(),
    ensures
        split_rules_cost(rs, lex, k) <= split_rules_cost(rs, lex, rs.len() as int),
    decreases rs.len() - k,
{
    if k < rs.len() {
        lemma_split_rules_cost_mono(rs, lex, k + 1);
    }
}

/// Parser rules that building a split grammar turns into IR against the
/// lexer rules `lexer`: at least one, each with alternatives, none holding
/// an option, a repetition, a factor or a group without alternatives, and
/// few enough items (the lexer's counted into each name) for the `u32` id
/// space.
pub open spec fn split_ready(rs: Seq<RuleV>, lexer: Seq<LexRuleV>) -> bool {
    &&& rs.len() > 0
    &&& forall|i: int| 0 <= i < rs.len() ==> alts_supported((#[trigger] rs[i]).alts)
    &&& rs.len() + split_rules_cost(rs, lexer_items(lexer, lexer.len() as int), rs.len() as int) < u32::MAX
}

/// `ir` was built from the split parser rules `rules` against the lexer
/// rules `lexer`: well formed, started at the first parser rule, one
/// production per rule in order whose alternatives stand for the rule's
/// (`split_alts_mean`), followed by the anonymous productions, analysed.
pub open spec fn split_built_ok(rules: Seq<RawRule<RawItem>>, lexer: Seq<LexRuleV>, ir: GrammarIr) -> bool {
    &&& ir_well_formed(ir)
    &&& ir.start == ProductionId(first_parser_rule(rules, 0) as u32)
    &&& ir.productions@.len() >= rules.len()
    &&& forall|i: int| 0 <= i < rules.len() ==> {
        &&& (#[trigger] ir.productions@[i]).name@ == rules[i].name@
        &&& ir.productions@[i].id == ProductionId(i as u32)
        &&& ir.productions@[i].alternatives@.len() == rules[i].alternatives@.len()
        &&& split_alts_mean(ir_state(ir, rules), lexer, ir.token_pools@, ir.productions@[i].alternatives@, alts_view(rules[i].alternatives@))
    }
    &&& forall|i: int| 0 <= i < ir.productions@.len() ==> {
        &&& (#[trigger] ir.productions@[i]).attrs.is_recursive == reaches(ir, i, i)
        &&& ir.productions@[i].attrs.token_kind is None
        &&& ir.productions@[i].attrs.semantic_hook is None
    }
    &&& min_depths_ok(ir, min_depths_of(ir))
}

/// Compile a split ANTLR grammar, a lexer grammar and a parser grammar,
/// into grammar IR.
///
/// Parser rules become productions. A name in a parser rule stands for
/// the parser rule of that name; else for nothing when it is `EOF` or a
/// token the lexer skips or hides; else for the keyword of a lexer rule
/// whose body is one string; else for the token pool of that lexer rule,
/// made of its terminal items; else for itself as a literal. Fragment
/// rules are not exposed.
pub fn compile_split(lexer_source: &str, parser_source: &str) -> (r: Result<GrammarIr, ParseError>)
    requires
        lexer_source@.len() < usize::MAX / 4,
        parser_source@.len() < usize::MAX / 4,
    ensures
        antlr_rules(parser_source@) is None ==> r is Err,
        antlr_lexer_rules(lexer_source@) is None ==> r is Err,
        antlr_rules(parser_source@) matches Some(rs) && antlr_lexer_rules(lexer_source@) matches Some(lx)
            && split_ready(rs, lx) ==> r is Ok,
        r matches Ok(ir) ==> exists|rules: Seq<RawRule<RawItem>>, lexer: Seq<LexRuleV>| rules.len() > 0
            && antlr_rules(parser_source@) == Some(rules_view(rules))
            && antlr_lexer_rules(lexer_source@) == Some(lexer)
            && #[trigger] split_built_ok(rules, lexer, ir),
        parser_source@.len() == 0 ==> r is Err,
{
    let lexer_tokens = match tokenize(lexer_source) {
        Ok(t) => t,
        Err(e) => {
            return Err(e);
        },
    };
    let mut lexer_parser = Parser { tokens: lexer_tokens, pos: 0 };
    let lexer = match lexer_parser.parse_lexer_rules() {
        Ok(rules) => rules,
        Err(e) => {
            return Err(e);
        },
    };
    let parser_tokens = match tokenize(parser_source) {
        Ok(t) => t,
        Err(e) => {
            return Err(e);
        },
    };
    let mut parser = Parser { tokens: parser_tokens, pos: 0 };
    let raw = match parser.parse_grammar() {
        Ok(g) => g,
        Err(e) => {
            return Err(e);
        },
    };
    let n = raw.rules.len();
    if n >= 0xffff_ffff {
        return Err(ParseError { line: 0, column: 0, message: String::from_str("grammar too large") });
    }
    let mut names: Vec<String> = Vec::new();
    let mut i: usize = 0;
    while i < n
        invariant
            n == raw.rules@.len(),
            0 <= i <= n,
            names@.len() == i,
            forall|k: int| 0 <= k < i ==> #[trigger] names@[k] == raw.rules@[k].name,
        decreases n - i,
    {
        names.push(raw.rules[i].name.clone());
        i += 1;
    }
    assert(names@ =~= raw.rules@.map_values(|r: RawRule<RawItem>| r.name));
    let ghost lv = lexer_view(lexer@);
    let ghost lc = lexer_items(lv, lexer@.len() as int);
    let ghost rsv = rules_view(raw.rules@);
    let ghost ready = split_ready(rsv, lv);
    let mut builder = IrBuilder::new(names);
    let ghost b_init = builder;
    let mut pools: Vec<TokenPoolEntry> = Vec::new();
    let mut named: Vec<Production> = Vec::new();
    let mut failure: Option<ParseError> = None;
    let mut i: usize = 0;
    while i < n
        invariant_except_break
            n == raw.rules@.len(),
            n < u32::MAX,
            builder.wf(),
            builder.n_named == n,
            pools@.len() <= u32::MAX,
            failure is None,
            0 <= i <= n,
            named@.len() == i,
            forall|k: int| 0 <= k < i ==> {
                &&& (#[trigger] named@[k]).id == ProductionId(k as u32)
                &&& named@[k].name@ == raw.rules@[k].name@
                &&& named@[k].alternatives@.len() == raw.rules@[k].alternatives@.len()
                &&& alts_below(named@[k].alternatives@, builder.symbols@.len() as int)
                &&& attrs_fresh(named@[k].attrs)
                &&& split_alts_mean(builder.state(), lv, pools@, named@[k].alternatives@, alts_view(raw.rules@[k].alternatives@))
            },
            builder.names@ == raw.rules@.map_values(|r: RawRule<RawItem>| r.name),
            lv == lexer_view(lexer@),
            lc == lexer_items(lv, lexer@.len() as int),
            rsv == rules_view(raw.rules@),
            ready == split_ready(rsv, lv),
            b_init.symbols@.len() == 0,
            b_init.anon_productions@.len() == 0,
            split_grows(builder, b_init, pools@, Seq::<TokenPoolEntry>::empty(), split_rules_cost(rsv, lc, i as int) as int),
            ready ==> prods_nonempty(builder.anon_productions@) && prods_nonempty(named@),
        ensures
            ready ==> failure is None && prods_nonempty(builder.anon_productions@) && prods_nonempty(named@),
            builder.wf(),
            builder.n_named == n,
            builder.names@ == raw.rules@.map_values(|r: RawRule<RawItem>| r.name),
            failure is None ==> named@.len() == n && forall|k: int| 0 <= k < n ==> {
                &&& (#[trigger] named@[k]).id == ProductionId(k as u32)
                &&& named@[k].name@ == raw.rules@[k].name@
                &&& named@[k].alternatives@.len() == raw.rules@[k].alternatives@.len()
                &&& alts_below(named@[k].alternatives@, builder.symbols@.len() as int)
                &&& attrs_fresh(named@[k].attrs)
                &&& split_alts_mean(builder.state(), lv, pools@, named@[k].alternatives@, alts_view(raw.rules@[k].alternatives@))
            },
        decreases n - i,
    {
        let ghost b0 = builder.symbols@.len() as int;
        let ghost bb = builder;
        let ghost pp = pools@;
        proof {
            assert(rsv[i as int].alts == alts_view(raw.rules@[i as int].alternatives@));
            assert(split_rules_cost(rsv, lc, i + 1) == split_rules_cost(rsv, lc, i as int) + split_alts_cost(rsv[i as int].alts, lc));
            lemma_split_rules_cost_mono(rsv, lc, i + 1);
            crate::ir_builder::lemma_alts_view_index(raw.rules@[i as int].alternatives@);
            if ready {
                assert(alts_supported(rsv[i as int].alts));
            }
        }
        match build_split_alts(&raw.rules[i].alternatives, &lexer, &mut pools, &mut builder) {
            Ok(alts) => {
                named.push(Production { id: ProductionId(i as u32), name: raw.rules[i].name.clone(), alternatives: alts, attrs: ProductionAttrs::new() });
                proof {
                    assert forall|k: int| 0 <= k < named@.len() implies alts_below(#[trigger] named@[k].alternatives@, builder.symbols@.len() as int) by {
                        if k < i {
                            crate::ir_builder::lemma_alts_below_mono(named@[k].alternatives@, b0, builder.symbols@.len() as int);
                        }
                    }
                    lemma_grows_extends(builder, bb);
                    assert forall|k: int| 0 <= k < named@.len() implies
                        split_alts_mean(builder.state(), lv, pools@, #[trigger] named@[k].alternatives@, alts_view(raw.rules@[k].alternatives@)) by {
                        if k < i {
                            lemma_split_alts_grow(bb.state(), builder.state(), lv, pp, pools@, named@[k].alternatives@, alts_view(raw.rules@[k].alternatives@));
                        }
                    }
                    if ready {
                        let na = named@[i as int].alternatives@;
                        assert(na.len() > 0);
                        assert forall|k: int| 0 <= k < named@.len() implies {
                            &&& (#[trigger] named@[k]).alternatives@.len() > 0
                            &&& forall|a: int| 0 <= a < named@[k].alternatives@.len() ==> (#[trigger] named@[k].alternatives@[a]).symbols@.len() > 0
                        } by {
                            if k == i {
                                assert(na.len() > 0);
                            }
                        }
                    }
                }
            },
            Err(e) => {
                proof {
                    if ready {
                        assert(!exhausted(builder));
                        assert(pools@.len() < u32::MAX);
                    }
                }
                failure = Some(e);
                break;
            },
        }
        i += 1;
    }
    if let Some(e) = failure {
        return Err(e);
    }
    let ghost rules = raw.rules@;
    let ghost named_v = named@;
    let ghost fb = builder;
    let ghost fp = pools@;
    let start = pick_start(&raw.rules);
    let r = assemble_ir(named, builder, start, pools);
    proof {
        if ready {
            lemma_first_parser_rule(rules, 0);
            assert(r is Ok);
        }
        if r is Ok {
            let ir = r->Ok_0;
            let st = ir_state(ir, rules);
            assert(st.anon =~= fb.state().anon) by {
                assert forall|a: int| 0 <= a < fb.anon_productions@.len() implies
                    #[trigger] st.anon[a] == fb.state().anon[a] by {
                    assert(ir.productions@[named_v.len() + a].alternatives@ == fb.anon_productions@[a].alternatives@);
                }
            }
            assert(st == fb.state());
            assert forall|i: int| 0 <= i < rules.len() implies {
                &&& (#[trigger] ir.productions@[i]).name@ == rules[i].name@
                &&& ir.productions@[i].id == ProductionId(i as u32)
                &&& ir.productions@[i].alternatives@.len() == rules[i].alternatives@.len()
                &&& split_alts_mean(ir_state(ir, rules), lv, ir.token_pools@, ir.productions@[i].alternatives@, alts_view(rules[i].alternatives@))
            } by {
                assert(ir.productions@[i].name@ == named_v[i].name@);
                assert(ir.productions@[i].alternatives@ == named_v[i].alternatives@);
            }
            assert(split_built_ok(rules, lv, ir));
        }
    }
    r
}

} // verus!
