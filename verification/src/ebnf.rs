//! The EBNF front end: ISO-style EBNF with `=` rules ended by `;` or `.`,
//! `|` or `/` alternation, `,` or juxtaposition for sequence, `[...]`,
//! `{...}`, `(...)`, `n * item` factors and `a - b` exceptions (the
//! exception is read and dropped).
use vstd::prelude::*;
use vstd::string::StringExecFns;
use crate::ids::ProductionId;
use crate::grammar::GrammarIr;
use crate::parse_error::ParseError;
use crate::raw::{RawGrammar, RawRule, RawAlternative, RawItem, ItemV, RuleV, item_view, items_view, alts_view, rule_view, rules_view};
use crate::ir_builder::{rules_ready, build_ir, built_ok, has_duplicate, ref_means, BuildState};
use crate::grammar::{SymbolRef, Modifier, Symbol, TerminalKind};
use vstd::utf8::encode_utf8;
use crate::tokenizer::{parse_string_literal, scan_identifier, skip_block_comment, skip_line_comment, lit_scan, line_end,
    block_scan, ident_end, lemma_lit_scan, lemma_line_end, lemma_block_scan, lemma_ident_end};
use crate::text::{debug_wrap, debug_wrapped, decimal_spec};
use crate::text::{is_ascii_space_spec, is_ascii_alpha_spec, is_ascii_digit_spec};
use crate::text::{chars_of, is_ascii_space, is_ascii_alpha, is_ascii_digit, debug_char, debug_quoted, decimal, concat};

verus! {

enum TokenKind {
    Ident(String),
    IntLit(u32),
    StringLit(String),
    Equals,
    Semicolon,
    Dot,
    Pipe,
    Slash,
    Comma,
    Star,
    Minus,
    LParen,
    RParen,
    LBracket,
    RBracket,
    LBrace,
    RBrace,
}

struct Token {
    kind: TokenKind,
    line: usize,
    col: usize,
}

/// A token as a value: its kind, with text by its characters.
pub enum TokV {
    Ident(Seq<char>),
    IntLit(u32),
    StringLit(Seq<char>),
    Equals,
    Semicolon,
    Dot,
    Pipe,
    Slash,
    Comma,
    Star,
    Minus,
    LParen,
    RParen,
    LBracket,
    RBracket,
    LBrace,
    RBrace,
}

spec fn kind_view(k: TokenKind) -> TokV {
    match k {
        TokenKind::Ident(s) => TokV::Ident(s@),
        TokenKind::IntLit(n) => TokV::IntLit(n),
        TokenKind::StringLit(s) => TokV::StringLit(s@),
        TokenKind::Equals => TokV::Equals,
        TokenKind::Semicolon => TokV::Semicolon,
        TokenKind::Dot => TokV::Dot,
        TokenKind::Pipe => TokV::Pipe,
        TokenKind::Slash => TokV::Slash,
        TokenKind::Comma => TokV::Comma,
        TokenKind::Star => TokV::Star,
        TokenKind::Minus => TokV::Minus,
        TokenKind::LParen => TokV::LParen,
        TokenKind::RParen => TokV::RParen,
        TokenKind::LBracket => TokV::LBracket,
        TokenKind::RBracket => TokV::RBracket,
        TokenKind::LBrace => TokV::LBrace,
        TokenKind::RBrace => TokV::RBrace,
    }
}

spec fn toks_view(ts: Seq<Token>) -> Seq<(TokV, int, int)> {
    ts.map_values(|t: Token| (kind_view(t.kind), t.line as int, t.col as int))
}

/// The token that a single punctuation character makes, if any.
pub open spec fn single_token(c: char) -> Option<TokV> {
    if c == '=' {
        Some(TokV::Equals)
    } else if c == ';' {
        Some(TokV::Semicolon)
    } else if c == '.' {
        Some(TokV::Dot)
    } else if c == '|' {
        Some(TokV::Pipe)
    } else if c == '/' {
        Some(TokV::Slash)
    } else if c == ',' {
        Some(TokV::Comma)
    } else if c == '*' {
        Some(TokV::Star)
    } else if c == '-' {
        Some(TokV::Minus)
    } else if c == '(' {
        Some(TokV::LParen)
    } else if c == ')' {
        Some(TokV::RParen)
    } else if c == '[' {
        Some(TokV::LBracket)
    } else if c == ']' {
        Some(TokV::RBracket)
    } else if c == '{' {
        Some(TokV::LBrace)
    } else if c == '}' {
        Some(TokV::RBrace)
    } else {
        None
    }
}

/// Where the decimal digits starting at `p` end.
pub open spec fn digits_end(cs: Seq<char>, p: int) -> int
    decreases cs.len() - p,
{
    if p < 0 || p >= cs.len() || !is_ascii_digit_spec(cs[p]) {
        p
    } else {
        digits_end(cs, p + 1)
    }
}

pub proof fn lemma_digits_end(cs: Seq<char>, p: int)
    requires
        0 <= p <= cs.len(),
    ensures
        p <= digits_end(cs, p) <= cs.len(),
    decreases cs.len() - p,
{
    if p < cs.len() && is_ascii_digit_spec(cs[p]) {
        lemma_digits_end(cs, p + 1);
    }
}

/// The value of the digits `cs[p..q]`, saturating at `u32::MAX`.
pub open spec fn digits_value(cs: Seq<char>, p: int, q: int) -> u32
    decreases q - p,
{
    if q <= p {
        0
    } else {
        let v = 10 * digits_value(cs, p, q - 1) + (cs[q - 1] as int - '0' as int);
        if v > u32::MAX { u32::MAX } else { v as u32 }
    }
}

/// Scanning a `? ... ?` special sequence from `p`: whether it closed, and
/// the position, line and column after it.
pub open spec fn special_scan(cs: Seq<char>, p: int, line: int, col: int) -> (bool, int, int, int)
    decreases cs.len() - p,
{
    if p < 0 || p >= cs.len() {
        (false, p, line, col)
    } else if cs[p] == '?' {
        (true, p + 1, line, col + 1)
    } else if cs[p] == '\n' {
        special_scan(cs, p + 1, line + 1, 1)
    } else {
        special_scan(cs, p + 1, line, col + 1)
    }
}

pub proof fn lemma_special_scan(cs: Seq<char>, p: int, line: int, col: int)
    requires
        0 <= p <= cs.len(),
    ensures
        p <= special_scan(cs, p, line, col).1 <= cs.len(),
    decreases cs.len() - p,
{
    if p < cs.len() && cs[p] != '?' {
        if cs[p] == '\n' {
            lemma_special_scan(cs, p + 1, line + 1, 1);
        } else {
            lemma_special_scan(cs, p + 1, line, col + 1);
        }
    }
}

pub open spec fn prepend_tok(t: (TokV, int, int), r: Option<Seq<(TokV, int, int)>>) -> Option<Seq<(TokV, int, int)>> {
    match r {
        Some(ts) => Some(seq![t] + ts),
        None => None,
    }
}

/// The tokens of `cs` from position `p` at line `line` and column `col`,
/// each with the line and column where it was read (a string literal with
/// the line where it ends); none on a lexical error. Whitespace, `//` and
/// `/* */` and `(* *)` comments and `? ... ?` special sequences are skipped.
pub open spec fn lex(cs: Seq<char>, p: int, line: int, col: int) -> Option<Seq<(TokV, int, int)>>
    decreases cs.len() - p,
{
    if p < 0 || p >= cs.len() {
        Some(seq![])
    } else {
        let ch = cs[p];
        let next = if p + 1 < cs.len() { cs[p + 1] } else { ' ' };
        if ch == '\n' {
            lex(cs, p + 1, line + 1, 1)
        } else if is_ascii_space_spec(ch) {
            lex(cs, p + 1, line, col + 1)
        } else if ch == '/' && p + 1 < cs.len() && next == '/' {
            proof { lemma_line_end(cs, p + 2); }
            lex(cs, line_end(cs, p + 2), line, col)
        } else if (ch == '/' || ch == '(') && p + 1 < cs.len() && next == '*' {
            let (ok, q, l, c) = block_scan(cs, '*', if ch == '/' { '/' } else { ')' }, p + 2, line, col + 2);
            proof { lemma_block_scan(cs, '*', if ch == '/' { '/' } else { ')' }, p + 2, line, col + 2); }
            if ok { lex(cs, q, l, c) } else { None }
        } else if ch == '?' {
            let (ok, q, l, c) = special_scan(cs, p + 1, line, col + 1);
            proof { lemma_special_scan(cs, p + 1, line, col + 1); }
            if ok { lex(cs, q, l, c) } else { None }
        } else if single_token(ch) is Some {
            prepend_tok((single_token(ch)->0, line, col), lex(cs, p + 1, line, col + 1))
        } else if ch == '"' || ch == '\'' {
            let (ok, q, l, c, text) = lit_scan(cs, ch, p + 1, line, col + 1, seq![]);
            proof { lemma_lit_scan(cs, ch, p + 1, line, col + 1, seq![]); }
            if ok { prepend_tok((TokV::StringLit(text), l, col), lex(cs, q, l, c)) } else { None }
        } else if is_ascii_alpha_spec(ch) || ch == '_' {
            let q = ident_end(cs, p);
            proof { lemma_ident_end(cs, p); }
            if q > p {
                prepend_tok((TokV::Ident(cs.subrange(p, q)), line, col), lex(cs, q, line, col + (q - p)))
            } else {
                None
            }
        } else if is_ascii_digit_spec(ch) {
            let q = digits_end(cs, p);
            proof { lemma_digits_end(cs, p); }
            if q > p {
                prepend_tok((TokV::IntLit(digits_value(cs, p, q)), line, col), lex(cs, q, line, col + (q - p)))
            } else {
                None
            }
        } else {
            None
        }
    }
}

/// `min(10 * n + d, u32::MAX)`: the next digit of a saturating decimal number.
fn push_digit(n: u32, d: u32) -> (r: u32)
    requires
        d < 10,
    ensures
        r == (if 10 * n + d > u32::MAX { u32::MAX as int } else { 10 * n + d }),
{
    let m = match n.checked_mul(10) {
        Some(v) => v,
        None => 0xffff_ffff,
    };
    m.saturating_add(d)
}

pub open spec fn join_toks(v: Seq<(TokV, int, int)>, r: Option<Seq<(TokV, int, int)>>) -> Option<Seq<(TokV, int, int)>> {
    match r {
        Some(w) => Some(v + w),
        None => None,
    }
}

/// Split EBNF source into tokens, skipping whitespace, `//`, `/* */` and
/// `(* *)` comments and `? ... ?` special sequences.
fn tokenize(source: &str) -> (r: Result<Vec<Token>, ParseError>)
    requires
        source@.len() < usize::MAX / 4,
    ensures
        match lex(source@, 0, 1, 1) {
            Some(v) => r matches Ok(t) && toks_view(t@) == v,
            None => r is Err,
        },
{
    let chars = chars_of(source);
    let mut tokens: Vec<Token> = Vec::new();
    let mut pos: usize = 0;
    let mut line: usize = 1;
    let mut col: usize = 1;
    let mut failure: Option<ParseError> = None;
    assert(toks_view(tokens@) =~= Seq::<(TokV, int, int)>::empty());
    assert(join_toks(seq![], lex(chars@, 0, 1, 1)) =~= lex(chars@, 0, 1, 1)) by {
        match lex(chars@, 0, 1, 1) {
            Some(w) => { assert(Seq::<(TokV, int, int)>::empty() + w =~= w); },
            None => {},
        }
    }
    while pos < chars.len()
        invariant_except_break
            chars@.len() < usize::MAX / 4,
            chars@ == source@,
            pos <= chars@.len(),
            1 <= line <= 1 + pos,
            1 <= col <= 1 + pos,
            failure is None,
            lex(chars@, 0, 1, 1) == join_toks(toks_view(tokens@), lex(chars@, pos as int, line as int, col as int)),
        ensures
            failure is None ==> lex(chars@, 0, 1, 1) == Some(toks_view(tokens@)),
            failure is Some ==> lex(chars@, 0, 1, 1) is None,
        decreases chars@.len() - pos,
    {
        let ghost gp = pos as int;
        let ghost gl = line as int;
        let ghost gc = col as int;
        let ghost before = toks_view(tokens@);
        let ch = chars[pos];
        if ch == '\n' {
            line += 1;
            col = 1;
            pos += 1;
            assert(lex(chars@, gp, gl, gc) == lex(chars@, pos as int, line as int, col as int));
            continue;
        }
        if is_ascii_space(ch) {
            col += 1;
            pos += 1;
            assert(lex(chars@, gp, gl, gc) == lex(chars@, pos as int, line as int, col as int));
            continue;
        }
        if ch == '/' && pos + 1 < chars.len() && chars[pos + 1] == '/' {
            pos += 2;
            skip_line_comment(chars.as_slice(), &mut pos);
            proof {
                lemma_line_end(chars@, gp + 2);
            }
            assert(lex(chars@, gp, gl, gc) == lex(chars@, pos as int, line as int, col as int));
            continue;
        }
        if ch == '/' && pos + 1 < chars.len() && chars[pos + 1] == '*' {
            let start_line = line;
            let start_col = col;
            pos += 2;
            col += 2;
            let r = skip_block_comment(chars.as_slice(), &mut pos, &mut line, &mut col, '*', '/', start_line, start_col);
            if let Err(e) = r {
                assert(lex(chars@, gp, gl, gc) is None);
                failure = Some(e);
                break;
            }
            assert(lex(chars@, gp, gl, gc) == lex(chars@, pos as int, line as int, col as int));
            continue;
        }
        if ch == '(' && pos + 1 < chars.len() && chars[pos + 1] == '*' {
            let start_line = line;
            let start_col = col;
            pos += 2;
            col += 2;
            let r = skip_block_comment(chars.as_slice(), &mut pos, &mut line, &mut col, '*', ')', start_line, start_col);
            if let Err(e) = r {
                assert(lex(chars@, gp, gl, gc) is None);
                failure = Some(e);
                break;
            }
            assert(lex(chars@, gp, gl, gc) == lex(chars@, pos as int, line as int, col as int));
            continue;
        }
        if ch == '?' {
            let start_col = col;
            pos += 1;
            col += 1;
            let ghost p1 = pos as int;
            let ghost c1 = col as int;
            let mut closed = false;
            while pos < chars.len()
                invariant_except_break
                    chars@.len() < usize::MAX / 4,
                    pos <= chars@.len(),
                    pos >= p1,
                    1 <= line <= 1 + pos,
                    1 <= col <= 1 + pos,
                    !closed,
                    special_scan(chars@, p1, gl, c1) == special_scan(chars@, pos as int, line as int, col as int),
                ensures
                    pos >= p1,
                    pos <= chars@.len(),
                    1 <= line <= 1 + pos,
                    1 <= col <= 1 + pos,
                    special_scan(chars@, p1, gl, c1) == (closed, pos as int, line as int, col as int),
                decreases chars@.len() - pos,
            {
                if chars[pos] == '?' {
                    pos += 1;
                    col += 1;
                    closed = true;
                    break;
                }
                if chars[pos] == '\n' {
                    line += 1;
                    col = 1;
                } else {
                    col += 1;
                }
                pos += 1;
            }
            if !closed {
                assert(lex(chars@, gp, gl, gc) is None);
                failure = Some(ParseError { line, column: start_col, message: String::from_str("unterminated special sequence") });
                break;
            }
            assert(lex(chars@, gp, gl, gc) == lex(chars@, pos as int, line as int, col as int));
            continue;
        }
        let single: Option<TokenKind> = if ch == '=' {
            Some(TokenKind::Equals)
        } else if ch == ';' {
            Some(TokenKind::Semicolon)
        } else if ch == '.' {
            Some(TokenKind::Dot)
        } else if ch == '|' {
            Some(TokenKind::Pipe)
        } else if ch == '/' {
            Some(TokenKind::Slash)
        } else if ch == ',' {
            Some(TokenKind::Comma)
        } else if ch == '*' {
            Some(TokenKind::Star)
        } else if ch == '-' {
            Some(TokenKind::Minus)
        } else if ch == '(' {
            Some(TokenKind::LParen)
        } else if ch == ')' {
            Some(TokenKind::RParen)
        } else if ch == '[' {
            Some(TokenKind::LBracket)
        } else if ch == ']' {
            Some(TokenKind::RBracket)
        } else if ch == '{' {
            Some(TokenKind::LBrace)
        } else if ch == '}' {
            Some(TokenKind::RBrace)
        } else {
            None
        };
        assert(single is Some <==> single_token(ch) is Some);
        if let Some(kind) = single {
            assert(kind_view(kind) == single_token(ch)->0);
            tokens.push(Token { kind, line, col });
            pos += 1;
            col += 1;
            proof {
                assert(toks_view(tokens@) =~= before.push((kind_view(kind), gl, gc)));
                match lex(chars@, pos as int, line as int, col as int) {
                    Some(w) => { assert(before + (seq![(kind_view(kind), gl, gc)] + w) =~= before.push((kind_view(kind), gl, gc)) + w); },
                    None => {},
                }
            }
            continue;
        }
        if ch == '"' || ch == '\'' {
            let start_col = col;
            let s = parse_string_literal(chars.as_slice(), &mut pos, &mut line, &mut col, ch);
            proof {
                lemma_lit_scan(chars@, ch, gp + 1, gl, gc + 1, seq![]);
            }
            match s {
                Ok(s) => {
                    let ghost t = (TokV::StringLit(s@), line as int, gc);
                    tokens.push(Token { kind: TokenKind::StringLit(s), line, col: start_col });
                    proof {
                        assert(toks_view(tokens@) =~= before.push(t));
                        match lex(chars@, pos as int, line as int, col as int) {
                            Some(w) => { assert(before + (seq![t] + w) =~= before.push(t) + w); },
                            None => {},
                        }
                    }
                },
                Err(e) => {
                    assert(lex(chars@, gp, gl, gc) is None);
                    failure = Some(e);
                    break;
                },
            }
            continue;
        }
        if is_ascii_alpha(ch) || ch == '_' {
            let start_col = col;
            let ident = scan_identifier(chars.as_slice(), &mut pos, &mut col);
            proof {
                lemma_ident_end(chars@, gp);
                assert(ident@ =~= chars@.subrange(gp, pos as int));
            }
            let ghost t = (TokV::Ident(ident@), gl, gc);
            tokens.push(Token { kind: TokenKind::Ident(ident), line, col: start_col });
            proof {
                assert(toks_view(tokens@) =~= before.push(t));
                match lex(chars@, pos as int, line as int, col as int) {
                    Some(w) => { assert(before + (seq![t] + w) =~= before.push(t) + w); },
                    None => {},
                }
            }
            continue;
        }
        if is_ascii_digit(ch) {
            let start_col = col;
            let mut num: u32 = 0;
            let ghost p1 = pos as int;
            proof {
                lemma_digits_end(chars@, p1);
            }
            while pos < chars.len() && is_ascii_digit(chars[pos])
                invariant
                    chars@.len() < usize::MAX / 4,
                    pos <= chars@.len(),
                    pos >= p1,
                    col == gc + (pos - p1),
                    1 <= gc <= 1 + p1,
                    1 <= line <= 1 + p1,
                    digits_end(chars@, p1) == digits_end(chars@, pos as int),
                    num == digits_value(chars@, p1, pos as int),
                decreases chars@.len() - pos,
            {
                let d = (chars[pos] as u32) - ('0' as u32);
                num = push_digit(num, d);
                pos += 1;
                col += 1;
            }
            let ghost t = (TokV::IntLit(num), gl, gc);
            tokens.push(Token { kind: TokenKind::IntLit(num), line, col: start_col });
            proof {
                assert(toks_view(tokens@) =~= before.push(t));
                match lex(chars@, pos as int, line as int, col as int) {
                    Some(w) => { assert(before + (seq![t] + w) =~= before.push(t) + w); },
                    None => {},
                }
            }
            continue;
        }
        assert(lex(chars@, gp, gl, gc) is None);
        let shown = debug_char(ch);
        failure = Some(ParseError { line, column: col, message: concat("unexpected character: ", shown.as_str()) });
        break;
    }
    match failure {
        Some(e) => Err(e),
        None => Ok(tokens),
    }
}

/// `format!("{:?}", kind)`: the token kind as `Debug` prints it.
/// `s` is the `Debug` text of a token of kind `k`, as far as the texts of
/// names are stated.
spec fn kind_debug_ok(k: TokV, s: Seq<char>) -> bool {
    match k {
        TokV::Ident(n) => debug_wrapped("Ident("@, n, s),
        TokV::StringLit(t) => debug_wrapped("StringLit("@, t, s),
        TokV::IntLit(n) => s == "IntLit("@ + decimal_spec(n as nat) + ")"@,
        TokV::Equals => s == "Equals"@,
        TokV::Semicolon => s == "Semicolon"@,
        TokV::Dot => s == "Dot"@,
        TokV::Pipe => s == "Pipe"@,
        TokV::Slash => s == "Slash"@,
        TokV::Comma => s == "Comma"@,
        TokV::Star => s == "Star"@,
        TokV::Minus => s == "Minus"@,
        TokV::LParen => s == "LParen"@,
        TokV::RParen => s == "RParen"@,
        TokV::LBracket => s == "LBracket"@,
        TokV::RBracket => s == "RBracket"@,
        TokV::LBrace => s == "LBrace"@,
        TokV::RBrace => s == "RBrace"@,
    }
}

fn token_kind_debug(kind: &TokenKind) -> (s: String)
    ensures
        kind_debug_ok(kind_view(*kind), s@),
{
    match kind {
        TokenKind::Ident(name) => debug_wrap("Ident(", name.as_str()),
        TokenKind::StringLit(text) => debug_wrap("StringLit(", text.as_str()),
        TokenKind::IntLit(n) => {
            let d = decimal(*n as u64);
            let a = concat("IntLit(", d.as_str());
            concat(a.as_str(), ")")
        },
        TokenKind::Equals => String::from_str("Equals"),
        TokenKind::Semicolon => String::from_str("Semicolon"),
        TokenKind::Dot => String::from_str("Dot"),
        TokenKind::Pipe => String::from_str("Pipe"),
        TokenKind::Slash => String::from_str("Slash"),
        TokenKind::Comma => String::from_str("Comma"),
        TokenKind::Star => String::from_str("Star"),
        TokenKind::Minus => String::from_str("Minus"),
        TokenKind::LParen => String::from_str("LParen"),
        TokenKind::RParen => String::from_str("RParen"),
        TokenKind::LBracket => String::from_str("LBracket"),
        TokenKind::RBracket => String::from_str("RBracket"),
        TokenKind::LBrace => String::from_str("LBrace"),
        TokenKind::RBrace => String::from_str("RBrace"),
    }
}

// ── What the parser reads ──

/// The kind of the token at `pos`.
pub open spec fn kind_at(ts: Seq<(TokV, int, int)>, pos: int) -> TokV {
    ts[pos].0
}

/// A token that ends a sequence: `|`, `/`, `;`, `.` or a closing bracket.
pub open spec fn ends_sequence(k: TokV) -> bool {
    match k {
        TokV::Pipe | TokV::Slash | TokV::Semicolon | TokV::Dot | TokV::RParen | TokV::RBracket | TokV::RBrace => true,
        _ => false,
    }
}

pub open spec fn at_sequence_end_spec(ts: Seq<(TokV, int, int)>, pos: int) -> bool {
    pos >= ts.len() || ends_sequence(kind_at(ts, pos))
}

/// A position that a parse may move on to: not back, not past the end.
pub open spec fn advances(pos: int, q: int, ts: Seq<(TokV, int, int)>) -> bool {
    pos <= q <= ts.len()
}

/// Alternatives from `pos`: sequences separated by `|` or `/`, at least
/// one; the alternatives and where they end, or none on a syntax error.
pub open spec fn p_alts(ts: Seq<(TokV, int, int)>, pos: int) -> Option<(Seq<Seq<ItemV>>, int)>
    decreases ts.len() - pos, 4nat,
{
    if pos < 0 || pos > ts.len() {
        None
    } else {
        match p_seq(ts, pos, seq![]) {
            Some((first, q)) => if advances(pos, q, ts) { p_alts_more(ts, q, seq![first]) } else { None },
            None => None,
        }
    }
}

/// More alternatives after `acc`, each after a `|` or `/`.
pub open spec fn p_alts_more(ts: Seq<(TokV, int, int)>, pos: int, acc: Seq<Seq<ItemV>>) -> Option<(Seq<Seq<ItemV>>, int)>
    decreases ts.len() - pos, 3nat,
{
    if pos < 0 || pos >= ts.len() || !(kind_at(ts, pos) is Pipe || kind_at(ts, pos) is Slash) {
        Some((acc, pos))
    } else {
        match p_seq(ts, pos + 1, seq![]) {
            Some((s, q)) => if advances(pos + 1, q, ts) { p_alts_more(ts, q, acc.push(s)) } else { None },
            None => None,
        }
    }
}

/// Items after `acc` up to the end of a sequence; commas are skipped and
/// in `a - b` the exception `b` is read and dropped.
pub open spec fn p_seq(ts: Seq<(TokV, int, int)>, pos: int, acc: Seq<ItemV>) -> Option<(Seq<ItemV>, int)>
    decreases ts.len() - pos, 2nat,
{
    if pos < 0 || pos > ts.len() {
        None
    } else if at_sequence_end_spec(ts, pos) {
        Some((acc, pos))
    } else if kind_at(ts, pos) is Comma {
        p_seq(ts, pos + 1, acc)
    } else {
        match p_item(ts, pos) {
            Some((item, q)) => if advances(pos + 1, q, ts) {
                if q < ts.len() && kind_at(ts, q) is Minus {
                    match p_item(ts, q + 1) {
                        Some((_, q2)) => if advances(q + 1, q2, ts) { p_seq(ts, q2, acc.push(item)) } else { None },
                        None => None,
                    }
                } else {
                    p_seq(ts, q, acc.push(item))
                }
            } else {
                None
            },
            None => None,
        }
    }
}

/// `n * item`, or an atom.
pub open spec fn p_item(ts: Seq<(TokV, int, int)>, pos: int) -> Option<(ItemV, int)>
    decreases ts.len() - pos, 1nat,
{
    if pos < 0 || pos > ts.len() {
        None
    } else if pos + 1 < ts.len() && kind_at(ts, pos) is IntLit && kind_at(ts, pos + 1) is Star {
        match p_item(ts, pos + 2) {
            Some((inner, q)) => Some((ItemV::Factor(kind_at(ts, pos)->IntLit_0, Box::new(inner)), q)),
            None => None,
        }
    } else {
        p_atom(ts, pos)
    }
}

/// The closing token of a bracketed item opened by `open`.
pub open spec fn closes(open: TokV, k: TokV) -> bool {
    match open {
        TokV::LBracket => k is RBracket,
        TokV::LBrace => k is RBrace,
        _ => k is RParen,
    }
}

/// A string, a rule name (with where it stands), or bracketed `[...]`,
/// braced `{...}` or parenthesised `(...)` alternatives.
pub open spec fn p_atom(ts: Seq<(TokV, int, int)>, pos: int) -> Option<(ItemV, int)>
    decreases ts.len() - pos, 0nat,
{
    if pos < 0 || pos >= ts.len() {
        None
    } else {
        let k = kind_at(ts, pos);
        match k {
            TokV::StringLit(s) => Some((ItemV::Literal(s), pos + 1)),
            TokV::Ident(s) => Some((ItemV::NonTerminal(s, ts[pos].1 as usize, ts[pos].2 as usize), pos + 1)),
            TokV::LBracket | TokV::LBrace | TokV::LParen => match p_alts(ts, pos + 1) {
                Some((alts, q)) => if 0 <= q < ts.len() && closes(k, kind_at(ts, q)) {
                    Some((match k {
                        TokV::LBracket => ItemV::Optional(alts),
                        TokV::LBrace => ItemV::Repeat(alts),
                        _ => ItemV::Group(alts),
                    }, q + 1))
                } else {
                    None
                },
                None => None,
            },
            _ => None,
        }
    }
}

/// What the reference built for an atom stands for: a string its bytes,
/// once; `( alts )` its alternatives once (a single item inside stands for
/// itself); `[ alts ]` at most once; `{ alts }` any number of times.
pub proof fn lemma_brackets_set_the_count(ts: Seq<(TokV, int, int)>, pos: int, st: BuildState, r: SymbolRef)
    requires
        p_atom(ts, pos) matches Some((it, _)) && ref_means(st, r, it),
    ensures
        kind_at(ts, pos) is LParen ==> (p_atom(ts, pos) matches Some((ItemV::Group(alts), _))
            && if alts.len() == 1 && alts[0].len() == 1 {
                ref_means(st, r, alts[0][0])
            } else {
                r.modifier == Modifier::Once
            }),
        kind_at(ts, pos) matches TokV::StringLit(s) ==> r.modifier == Modifier::Once
            && (st.symbols[r.symbol.0 as int] matches Symbol::Terminal(TerminalKind::Literal(b)) && b@ == encode_utf8(s)),
        kind_at(ts, pos) is LBracket ==> r.modifier == Modifier::Optional,
        kind_at(ts, pos) is LBrace ==> r.modifier == (Modifier::ZeroOrMore { min: 0, max: u32::MAX }),
{
}

/// `name = alternatives ;` (or `.`) at `pos`.
pub open spec fn p_rule(ts: Seq<(TokV, int, int)>, pos: int) -> Option<(RuleV, int)> {
    if 0 <= pos && pos + 1 < ts.len() && kind_at(ts, pos) is Ident && kind_at(ts, pos + 1) is Equals {
        match p_alts(ts, pos + 2) {
            Some((alts, q)) => if 0 <= q < ts.len() && (kind_at(ts, q) is Semicolon || kind_at(ts, q) is Dot) {
                Some((RuleV { name: kind_at(ts, pos)->Ident_0, alts, line: ts[pos].1 as usize, col: ts[pos].2 as usize }, q + 1))
            } else {
                None
            },
            None => None,
        }
    } else {
        None
    }
}

/// Rules after `acc` from `pos` to the end of the tokens; none at all, or
/// a syntax error, gives none.
pub open spec fn p_rules(ts: Seq<(TokV, int, int)>, pos: int, acc: Seq<RuleV>) -> Option<Seq<RuleV>>
    decreases ts.len() - pos,
{
    if pos < 0 || pos >= ts.len() {
        if acc.len() == 0 { None } else { Some(acc) }
    } else {
        match p_rule(ts, pos) {
            Some((r, q)) => if pos < q <= ts.len() { p_rules(ts, q, acc.push(r)) } else { None },
            None => None,
        }
    }
}

/// The rules of EBNF source text, or none on a lexical or syntax error or
/// an empty grammar.
pub open spec fn ebnf_rules(source: Seq<char>) -> Option<Seq<RuleV>> {
    match lex(source, 0, 1, 1) {
        Some(ts) => p_rules(ts, 0, seq![]),
        None => None,
    }
}

/// A recursive-descent parser over the token list.
struct Parser {
    tokens: Vec<Token>,
    pos: usize,
}

proof fn lemma_items_push(v: Seq<RawItem>, it: RawItem)
    ensures
        items_view(v.push(it)) == items_view(v).push(item_view(it)),
{
    assert(v.push(it).drop_last() =~= v);
}

proof fn lemma_alts_push(v: Seq<RawAlternative<RawItem>>, a: RawAlternative<RawItem>)
    ensures
        alts_view(v.push(a)) == alts_view(v).push(items_view(a.items@)),
{
    assert(v.push(a).drop_last() =~= v);
}

impl Parser {
    spec fn wf(&self) -> bool {
        &&& self.pos <= self.tokens@.len()
        &&& self.tokens@.len() <= usize::MAX
    }

    spec fn tv(&self) -> Seq<(TokV, int, int)> {
        toks_view(self.tokens@)
    }

    /// Where the next token is, else where the last one was, else 1:1.
    fn current_loc(&self) -> (loc: (usize, usize))
        ensures
            loc == if self.pos < self.tokens@.len() {
                (self.tokens@[self.pos as int].line, self.tokens@[self.pos as int].col)
            } else if self.tokens@.len() > 0 {
                (self.tokens@.last().line, self.tokens@.last().col)
            } else {
                (1usize, 1usize)
            },
    {
        if self.pos < self.tokens.len() {
            (self.tokens[self.pos].line, self.tokens[self.pos].col)
        } else if self.tokens.len() > 0 {
            let last = &self.tokens[self.tokens.len() - 1];
            (last.line, last.col)
        } else {
            (1, 1)
        }
    }

    fn error_here(&self, message: &str) -> (e: ParseError)
        ensures
            e.message@ == message@,
    {
        let (line, column) = self.current_loc();
        ParseError { line, column, message: String::from_str(message) }
    }

    /// The next token's kind matches one of the closers of a sequence.
    fn at_sequence_end(&self) -> (b: bool)
        requires
            self.wf(),
        ensures
            b == at_sequence_end_spec(self.tv(), self.pos as int),
            !b ==> self.pos < self.tokens@.len(),
    {
        if self.pos >= self.tokens.len() {
            return true;
        }
        match &self.tokens[self.pos].kind {
            TokenKind::Pipe | TokenKind::Slash | TokenKind::Semicolon | TokenKind::Dot | TokenKind::RParen
            | TokenKind::RBracket | TokenKind::RBrace => true,
            _ => false,
        }
    }

    fn next_is_minus(&self) -> (b: bool)
        ensures
            b == (self.pos < self.tokens@.len() && kind_at(self.tv(), self.pos as int) is Minus),
    {
        self.pos < self.tokens.len() && (match &self.tokens[self.pos].kind {
            TokenKind::Minus => true,
            _ => false,
        })
    }

    fn next_is_alternation(&self) -> (b: bool)
        ensures
            b == (self.pos < self.tokens@.len() && (kind_at(self.tv(), self.pos as int) is Pipe
                || kind_at(self.tv(), self.pos as int) is Slash)),
    {
        self.pos < self.tokens.len() && (match &self.tokens[self.pos].kind {
            TokenKind::Pipe | TokenKind::Slash => true,
            _ => false,
        })
    }

    /// Every rule up to the end of input; none at all is an error.
    fn parse_grammar(&mut self) -> (r: Result<RawGrammar<RawItem>, ParseError>)
        requires
            old(self).wf(),
        ensures
            match p_rules(old(self).tv(), old(self).pos as int, seq![]) {
                Some(v) => r matches Ok(g) && rules_view(g.rules@) == v,
                None => r is Err,
            },
            r matches Ok(g) ==> g.rules@.len() > 0,
            old(self).tokens@.len() == 0 ==> (r matches Err(e) && e.message@ == "empty grammar"@),
    {
        let ghost ts = self.tv();
        let ghost p0 = self.pos as int;
        let mut rules: Vec<RawRule<RawItem>> = Vec::new();
        let mut failure: Option<ParseError> = None;
        assert(rules_view(rules@) =~= Seq::<RuleV>::empty());
        while self.pos < self.tokens.len()
            invariant_except_break
                self.wf(),
                failure is None,
                self.tokens@ == old(self).tokens@,
                ts == self.tv(),
                p_rules(ts, p0, seq![]) == p_rules(ts, self.pos as int, rules_view(rules@)),
                old(self).tokens@.len() == 0 ==> rules@.len() == 0,
            ensures
                self.tokens@ == old(self).tokens@,
                failure is None ==> p_rules(ts, p0, seq![]) == p_rules(ts, self.pos as int, rules_view(rules@))
                    && self.pos >= self.tokens@.len(),
                failure is Some ==> p_rules(ts, p0, seq![]) is None,
                old(self).tokens@.len() == 0 ==> rules@.len() == 0 && failure is None,
            decreases self.tokens@.len() - self.pos,
        {
            let ghost before = rules@;
            let ghost pb = self.pos as int;
            let rule = self.parse_rule();
            match rule {
                Ok(rule) => {
                    rules.push(rule);
                    assert(rules_view(rules@) =~= rules_view(before).push(rule_view(rule)));
                },
                Err(e) => {
                    failure = Some(e);
                    break;
                },
            }
        }
        if let Some(e) = failure {
            return Err(e);
        }
        if rules.len() == 0 {
            return Err(ParseError { line: 1, column: 1, message: String::from_str("empty grammar") });
        }
        Ok(RawGrammar { rules })
    }

    /// `name = alternatives ;` (or `.`).
    fn parse_rule(&mut self) -> (r: Result<RawRule<RawItem>, ParseError>)
        requires
            old(self).wf(),
        ensures
            final(self).wf(),
            final(self).tokens@ == old(self).tokens@,
            r is Ok ==> final(self).pos > old(self).pos,
            final(self).pos >= old(self).pos,
            match p_rule(old(self).tv(), old(self).pos as int) {
                Some((v, q)) => r matches Ok(rule) && rule_view(rule) == v && final(self).pos == q,
                None => r is Err,
            },
    {
        let ghost ts = self.tv();
        let ghost p0 = self.pos as int;
        if self.pos >= self.tokens.len() {
            return Err(self.error_here("expected rule name"));
        }
        let name_line = self.tokens[self.pos].line;
        let name_col = self.tokens[self.pos].col;
        let name = match &self.tokens[self.pos].kind {
            TokenKind::Ident(s) => s.clone(),
            _ => {
                return Err(self.error_here("expected rule name"));
            },
        };
        self.pos += 1;
        let is_equals = self.pos < self.tokens.len() && (match &self.tokens[self.pos].kind {
            TokenKind::Equals => true,
            _ => false,
        });
        if !is_equals {
            return Err(self.error_here("expected '='"));
        }
        self.pos += 1;
        let alternatives = match self.parse_alternatives() {
            Ok(a) => a,
            Err(e) => {
                return Err(e);
            },
        };
        let is_end = self.pos < self.tokens.len() && (match &self.tokens[self.pos].kind {
            TokenKind::Semicolon | TokenKind::Dot => true,
            _ => false,
        });
        if !is_end {
            return Err(self.error_here("expected ';' or '.' to end rule"));
        }
        self.pos += 1;
        Ok(RawRule { name, alternatives, line: name_line, col: name_col })
    }

    /// Sequences separated by `|` or `/`; at least one.
    fn parse_alternatives(&mut self) -> (r: Result<Vec<RawAlternative<RawItem>>, ParseError>)
        requires
            old(self).wf(),
        ensures
            final(self).wf(),
            final(self).tokens@ == old(self).tokens@,
            final(self).pos >= old(self).pos,
            r matches Ok(alts) ==> alts@.len() >= 1,
            match p_alts(old(self).tv(), old(self).pos as int) {
                Some((v, q)) => r matches Ok(alts) && alts_view(alts@) == v && final(self).pos == q,
                None => r is Err,
            },
        decreases old(self).tokens@.len() - old(self).pos, 3nat,
    {
        let ghost ts = self.tv();
        let ghost p0 = self.pos as int;
        let mut alts: Vec<RawAlternative<RawItem>> = Vec::new();
        let first = match self.parse_sequence() {
            Ok(s) => s,
            Err(e) => {
                return Err(e);
            },
        };
        alts.push(first);
        proof {
            lemma_alts_push(seq![], first);
            assert(seq![first] =~= Seq::<RawAlternative<RawItem>>::empty().push(first));
            assert(alts_view(Seq::<RawAlternative<RawItem>>::empty()) =~= Seq::<Seq<ItemV>>::empty());
            assert(seq![items_view(first.items@)] =~= Seq::<Seq<ItemV>>::empty().push(items_view(first.items@)));
        }
        let mut failure: Option<ParseError> = None;
        loop
            invariant_except_break
                self.wf(),
                self.tokens@ == old(self).tokens@,
                ts == self.tv(),
                self.pos >= old(self).pos,
                alts@.len() >= 1,
                failure is None,
                p_alts(ts, p0) == p_alts_more(ts, self.pos as int, alts_view(alts@)),
            ensures
                self.wf(),
                self.tokens@ == old(self).tokens@,
                self.pos >= old(self).pos,
                alts@.len() >= 1,
                failure is None ==> p_alts(ts, p0) == Some((alts_view(alts@), self.pos as int)),
                failure is Some ==> p_alts(ts, p0) is None,
            decreases self.tokens@.len() - self.pos,
        {
            let more = self.next_is_alternation();
            if !more {
                break;
            }
            let ghost before = alts@;
            self.pos += 1;
            match self.parse_sequence() {
                Ok(s) => {
                    alts.push(s);
                    proof {
                        lemma_alts_push(before, s);
                    }
                },
                Err(e) => {
                    failure = Some(e);
                    break;
                },
            }
        }
        match failure {
            Some(e) => Err(e),
            None => Ok(alts),
        }
    }

    /// Items up to a closer; commas separate, `a - b` keeps `a`.
    fn parse_sequence(&mut self) -> (r: Result<RawAlternative<RawItem>, ParseError>)
        requires
            old(self).wf(),
        ensures
            final(self).wf(),
            final(self).tokens@ == old(self).tokens@,
            final(self).pos >= old(self).pos,
            match p_seq(old(self).tv(), old(self).pos as int, seq![]) {
                Some((v, q)) => r matches Ok(alt) && items_view(alt.items@) == v && final(self).pos == q,
                None => r is Err,
            },
        decreases old(self).tokens@.len() - old(self).pos, 2nat,
    {
        let ghost ts = self.tv();
        let ghost p0 = self.pos as int;
        let mut items: Vec<RawItem> = Vec::new();
        let mut failure: Option<ParseError> = None;
        assert(items_view(items@) =~= Seq::<ItemV>::empty());
        loop
            invariant_except_break
                self.wf(),
                self.tokens@ == old(self).tokens@,
                ts == self.tv(),
                self.pos >= old(self).pos,
                failure is None,
                p_seq(ts, p0, seq![]) == p_seq(ts, self.pos as int, items_view(items@)),
            ensures
                self.wf(),
                self.tokens@ == old(self).tokens@,
                self.pos >= old(self).pos,
                failure is None ==> p_seq(ts, p0, seq![]) == Some((items_view(items@), self.pos as int)),
                failure is Some ==> p_seq(ts, p0, seq![]) is None,
            decreases self.tokens@.len() - self.pos,
        {
            let done = self.at_sequence_end();
            if done {
                break;
            }
            let is_comma = match &self.tokens[self.pos].kind {
                TokenKind::Comma => true,
                _ => false,
            };
            if is_comma {
                self.pos += 1;
                continue;
            }
            let ghost before = items@;
            let item = match self.parse_item() {
                Ok(item) => item,
                Err(e) => {
                    failure = Some(e);
                    break;
                },
            };
            let minus = self.next_is_minus();
            if minus {
                self.pos += 1;
                match self.parse_item() {
                    Ok(_) => {},
                    Err(e) => {
                        failure = Some(e);
                        break;
                    },
                }
            }
            items.push(item);
            proof {
                lemma_items_push(before, item);
            }
        }
        match failure {
            Some(e) => Err(e),
            None => Ok(RawAlternative { items }),
        }
    }

    /// `n * item`, or an atom.
    fn parse_item(&mut self) -> (r: Result<RawItem, ParseError>)
        requires
            old(self).wf(),
        ensures
            final(self).wf(),
            final(self).tokens@ == old(self).tokens@,
            final(self).pos >= old(self).pos,
            r is Ok ==> final(self).pos > old(self).pos,
            match p_item(old(self).tv(), old(self).pos as int) {
                Some((v, q)) => r matches Ok(it) && item_view(it) == v && final(self).pos == q,
                None => r is Err,
            },
        decreases old(self).tokens@.len() - old(self).pos, 1nat,
    {
        if self.pos < self.tokens.len() && self.pos + 1 < self.tokens.len() {
            let factor = match &self.tokens[self.pos].kind {
                TokenKind::IntLit(n) => match &self.tokens[self.pos + 1].kind {
                    TokenKind::Star => Some(*n),
                    _ => None,
                },
                _ => None,
            };
            if let Some(n) = factor {
                self.pos += 2;
                let inner = match self.parse_item() {
                    Ok(i) => i,
                    Err(e) => {
                        return Err(e);
                    },
                };
                return Ok(RawItem::Factor(n, Box::new(inner)));
            }
        }
        self.parse_atom()
    }

    /// Expect the closing token of a bracketed item: `]`, `}` or `)` for
    /// closer 0, 1 or 2.
    fn close(&mut self, closer: u8, message: &str) -> (r: Result<(), ParseError>)
        requires
            old(self).wf(),
        ensures
            final(self).wf(),
            final(self).tokens@ == old(self).tokens@,
            final(self).pos >= old(self).pos,
            r is Ok == (old(self).pos < old(self).tokens@.len() && match kind_at(old(self).tv(), old(self).pos as int) {
                TokV::RBracket => closer == 0,
                TokV::RBrace => closer == 1,
                TokV::RParen => closer == 2,
                _ => false,
            }),
            r is Ok ==> final(self).pos == old(self).pos + 1,
    {
        let found = self.pos < self.tokens.len() && (match &self.tokens[self.pos].kind {
            TokenKind::RBracket => closer == 0,
            TokenKind::RBrace => closer == 1,
            TokenKind::RParen => closer == 2,
            _ => false,
        });
        if !found {
            return Err(self.error_here(message));
        }
        self.pos += 1;
        Ok(())
    }

    /// A string, a rule name, or a bracketed, braced or parenthesised group.
    fn parse_atom(&mut self) -> (r: Result<RawItem, ParseError>)
        requires
            old(self).wf(),
        ensures
            final(self).wf(),
            final(self).tokens@ == old(self).tokens@,
            final(self).pos >= old(self).pos,
            r is Ok ==> final(self).pos > old(self).pos,
            match p_atom(old(self).tv(), old(self).pos as int) {
                Some((v, q)) => r matches Ok(it) && item_view(it) == v && final(self).pos == q,
                None => r is Err,
            },
        decreases old(self).tokens@.len() - old(self).pos, 0nat,
    {
        if self.pos >= self.tokens.len() {
            return Err(self.error_here("unexpected end of input"));
        }
        let line = self.tokens[self.pos].line;
        let col = self.tokens[self.pos].col;
        let opener: u8 = match &self.tokens[self.pos].kind {
            TokenKind::StringLit(s) => {
                let s = s.clone();
                self.pos += 1;
                return Ok(RawItem::Literal(s));
            },
            TokenKind::Ident(s) => {
                let s = s.clone();
                self.pos += 1;
                return Ok(RawItem::NonTerminal(s, line, col));
            },
            TokenKind::LBracket => 0,
            TokenKind::LBrace => 1,
            TokenKind::LParen => 2,
            other => {
                let shown = token_kind_debug(other);
                let (l, c) = self.current_loc();
                return Err(ParseError { line: l, column: c, message: concat("unexpected token: ", shown.as_str()) });
            },
        };
        self.pos += 1;
        let alts = match self.parse_alternatives() {
            Ok(a) => a,
            Err(e) => {
                return Err(e);
            },
        };
        if opener == 0 {
            match self.close(0, "expected ']'") {
                Ok(()) => Ok(RawItem::Optional(alts)),
                Err(e) => Err(e),
            }
        } else if opener == 1 {
            match self.close(1, "expected '}'") {
                Ok(()) => Ok(RawItem::Repeat(alts)),
                Err(e) => Err(e),
            }
        } else {
            match self.close(2, "expected ')'") {
                Ok(()) => Ok(RawItem::Group(alts)),
                Err(e) => Err(e),
            }
        }
    }
}

/// Two rules of `rs` share a name.
pub open spec fn names_repeat(rs: Seq<RuleV>) -> bool {
    exists|i: int, j: int| 0 <= i < j < rs.len() && #[trigger] rs[i].name == #[trigger] rs[j].name
}

/// Compile EBNF source into grammar IR; the first rule is the start. The
/// IR is built from the rules the source reads as; a source that does not
/// read as rules, or that names a rule twice, is an error.
pub fn compile(source: &str) -> (r: Result<GrammarIr, ParseError>)
    requires
        source@.len() < usize::MAX / 4,
    ensures
        ebnf_rules(source@) is None ==> r is Err,
        ebnf_rules(source@) matches Some(rs) && rules_ready(rs) ==> r is Ok,
        ebnf_rules(source@) matches Some(rs) && names_repeat(rs) && rs.len() < u32::MAX
            ==> (r matches Err(e) && "duplicate rule: "@.is_prefix_of(e.message@)),
        r matches Ok(ir) ==> exists|rules: Seq<RawRule<RawItem>>| rules.len() > 0
            && ebnf_rules(source@) == Some(rules_view(rules)) && #[trigger] built_ok(rules, ProductionId(0), ir),
        source@.len() == 0 ==> (r matches Err(e) && e.message@ == "empty grammar"@),
{
    let tokens = match tokenize(source) {
        Ok(t) => t,
        Err(e) => {
            return Err(e);
        },
    };
    let n = tokens.len();
    let mut parser = Parser { tokens, pos: 0 };
    let raw = match parser.parse_grammar() {
        Ok(g) => g,
        Err(e) => {
            return Err(e);
        },
    };
    let ghost rules = raw.rules@;
    proof {
        if let Some(rs) = ebnf_rules(source@) {
            if names_repeat(rs) {
                let (i, j) = choose|i: int, j: int| 0 <= i < j < rs.len() && #[trigger] rs[i].name == #[trigger] rs[j].name;
                assert(rules[i].name@ == rules[j].name@);
                assert(has_duplicate(rules));
            }
        }
    }
    match build_ir(raw, ProductionId(0)) {
        Ok(ir) => {
            assert(built_ok(rules, ProductionId(0), ir));
            Ok(ir)
        },
        Err(e) => Err(e),
    }
}

} // verus!
