//! The PEG front end: rules `name <- expr` (or `=`, or `←`), optional `;`,
//! `/` ordered choice read as plain alternation, `?` `*` `+` quantifiers,
//! `[...]` classes, `.` for any byte, and `&e` / `!e` lookaheads, which
//! are read and dropped.
use vstd::prelude::*;
use vstd::string::StringExecFns;
use crate::ids::ProductionId;
use crate::grammar::GrammarIr;
use crate::parse_error::ParseError;
use crate::raw::{RawGrammar, RawRule, RawAlternative, RawItem, RawQuantifier, ItemV, RuleV, item_view, items_view, alts_view, rule_view, rules_view};
use crate::ir_builder::{rules_ready, build_ir, built_ok, has_duplicate, ref_means, BuildState};
use crate::grammar::{SymbolRef, Modifier, Symbol, TerminalKind};
use vstd::utf8::encode_utf8;
use crate::tokenizer::{parse_string_literal, parse_char_class_contents, scan_identifier, skip_line_comment, lit_scan, line_end,
    class_scan, ident_end, lemma_lit_scan, lemma_line_end, lemma_class_scan, lemma_ident_end};
use crate::text::{debug_wrap, debug_wrapped, ends_with};
use crate::text::{is_ascii_space_spec, is_ascii_alpha_spec};
use crate::text::{chars_of, is_ascii_space, is_ascii_alpha, debug_char, debug_quoted, debug_ranges, concat};

verus! {

enum TokenKind {
    Ident(String),
    StringLit(String),
    CharClass { ranges: Vec<(u8, u8)>, negated: bool },
    Arrow,
    Equals,
    Slash,
    Question,
    Star,
    Plus,
    Ampersand,
    Bang,
    Dot,
    LParen,
    RParen,
    Semicolon,
}

struct Token {
    kind: TokenKind,
    line: usize,
    col: usize,
}

/// A token as a value: its kind, with text by its characters.
pub enum TokV {
    Ident(Seq<char>),
    StringLit(Seq<char>),
    CharClass(Seq<(u8, u8)>, bool),
    Arrow,
    Equals,
    Slash,
    Question,
    Star,
    Plus,
    Ampersand,
    Bang,
    Dot,
    LParen,
    RParen,
    Semicolon,
}

spec fn kind_view(k: TokenKind) -> TokV {
    match k {
        TokenKind::Ident(s) => TokV::Ident(s@),
        TokenKind::StringLit(s) => TokV::StringLit(s@),
        TokenKind::CharClass { ranges, negated } => TokV::CharClass(ranges@, negated),
        TokenKind::Arrow => TokV::Arrow,
        TokenKind::Equals => TokV::Equals,
        TokenKind::Slash => TokV::Slash,
        TokenKind::Question => TokV::Question,
        TokenKind::Star => TokV::Star,
        TokenKind::Plus => TokV::Plus,
        TokenKind::Ampersand => TokV::Ampersand,
        TokenKind::Bang => TokV::Bang,
        TokenKind::Dot => TokV::Dot,
        TokenKind::LParen => TokV::LParen,
        TokenKind::RParen => TokV::RParen,
        TokenKind::Semicolon => TokV::Semicolon,
    }
}

spec fn toks_view(ts: Seq<Token>) -> Seq<(TokV, int, int)> {
    ts.map_values(|t: Token| (kind_view(t.kind), t.line as int, t.col as int))
}

/// The token that a single punctuation character makes, if any.
pub open spec fn single_token(c: char) -> Option<TokV> {
    if c == '=' {
        Some(TokV::Equals)
    } else if c == '/' {
        Some(TokV::Slash)
    } else if c == '?' {
        Some(TokV::Question)
    } else if c == '*' {
        Some(TokV::Star)
    } else if c == '+' {
        Some(TokV::Plus)
    } else if c == '&' {
        Some(TokV::Ampersand)
    } else if c == '!' {
        Some(TokV::Bang)
    } else if c == '.' {
        Some(TokV::Dot)
    } else if c == '(' {
        Some(TokV::LParen)
    } else if c == ')' {
        Some(TokV::RParen)
    } else if c == ';' {
        Some(TokV::Semicolon)
    } else {
        None
    }
}

pub open spec fn prepend_tok(t: (TokV, int, int), r: Option<Seq<(TokV, int, int)>>) -> Option<Seq<(TokV, int, int)>> {
    match r {
        Some(ts) => Some(seq![t] + ts),
        None => None,
    }
}

pub open spec fn join_toks(v: Seq<(TokV, int, int)>, r: Option<Seq<(TokV, int, int)>>) -> Option<Seq<(TokV, int, int)>> {
    match r {
        Some(w) => Some(v + w),
        None => None,
    }
}

/// The tokens of `cs` from position `p` at line `line` and column `col`,
/// each with the line and column where it was read (a string literal with
/// the line where it ends); none on a lexical error. Whitespace and `#` and
/// `//` comments are skipped; `<-` and `←` are arrows.
pub open spec fn lex(cs: Seq<char>, p: int, line: int, col: int) -> Option<Seq<(TokV, int, int)>>
    decreases cs.len() - p,
{
    if p < 0 || p >= cs.len() {
        Some(seq![])
    } else {
        let ch = cs[p];
        let next = if p + 1 < cs.len() { cs[p + 1] } else { ' ' };
        if ch == '\n' {
            lex(cs, p + 1, line + 1, 1)
        } else if is_ascii_space_spec(ch) {
            lex(cs, p + 1, line, col + 1)
        } else if ch == '#' {
            proof { lemma_line_end(cs, p + 1); }
            lex(cs, line_end(cs, p + 1), line, col)
        } else if ch == '/' && p + 1 < cs.len() && next == '/' {
            proof { lemma_line_end(cs, p + 2); }
            lex(cs, line_end(cs, p + 2), line, col)
        } else if ch == '<' && p + 1 < cs.len() && next == '-' {
            prepend_tok((TokV::Arrow, line, col), lex(cs, p + 2, line, col + 2))
        } else if ch == '\u{2190}' {
            prepend_tok((TokV::Arrow, line, col), lex(cs, p + 1, line, col + 1))
        } else if ch == '[' {
            let neg = p + 1 < cs.len() && next == '^';
            let q0 = if neg { p + 2 } else { p + 1 };
            let (k, q, c, ranges) = class_scan(cs, q0, col + (q0 - p), seq![]);
            proof { lemma_class_scan(cs, q0, col + (q0 - p), seq![]); }
            if k == 0 {
                prepend_tok((TokV::CharClass(ranges, neg), line, col), lex(cs, q, line, c))
            } else {
                None
            }
        } else if single_token(ch) is Some {
            prepend_tok((single_token(ch)->0, line, col), lex(cs, p + 1, line, col + 1))
        } else if ch == '"' || ch == '\'' {
            let (ok, q, l, c, text) = lit_scan(cs, ch, p + 1, line, col + 1, seq![]);
            proof { lemma_lit_scan(cs, ch, p + 1, line, col + 1, seq![]); }
            if ok { prepend_tok((TokV::StringLit(text), l, col), lex(cs, q, l, c)) } else { None }
        } else if is_ascii_alpha_spec(ch) || ch == '_' {
            let q = ident_end(cs, p);
            proof { lemma_ident_end(cs, p); }
            if q > p {
                prepend_tok((TokV::Ident(cs.subrange(p, q)), line, col), lex(cs, q, line, col + (q - p)))
            } else {
                None
            }
        } else {
            None
        }
    }
}

/// Split PEG source into tokens, skipping whitespace and `#` or `//` comments.
#[verifier::spinoff_prover]
#[verifier::rlimit(60)]
fn tokenize(source: &str) -> (r: Result<Vec<Token>, ParseError>)
    requires
        source@.len() < usize::MAX / 4,
    ensures
        match lex(source@, 0, 1, 1) {
            Some(v) => r matches Ok(t) && toks_view(t@) == v,
            None => r is Err,
        },
{
    let chars = chars_of(source);
    let mut tokens: Vec<Token> = Vec::new();
    let mut pos: usize = 0;
    let mut line: usize = 1;
    let mut col: usize = 1;
    let mut failure: Option<ParseError> = None;
    assert(toks_view(tokens@) =~= Seq::<(TokV, int, int)>::empty());
    assert(join_toks(seq![], lex(chars@, 0, 1, 1)) =~= lex(chars@, 0, 1, 1)) by {
        match lex(chars@, 0, 1, 1) {
            Some(w) => { assert(Seq::<(TokV, int, int)>::empty() + w =~= w); },
            None => {},
        }
    }
    while pos < chars.len()
        invariant_except_break
            chars@.len() < usize::MAX / 4,
            chars@ == source@,
            pos <= chars@.len(),
            1 <= line <= 1 + pos,
            1 <= col <= 1 + pos,
            failure is None,
            lex(chars@, 0, 1, 1) == join_toks(toks_view(tokens@), lex(chars@, pos as int, line as int, col as int)),
        ensures
            failure is None ==> lex(chars@, 0, 1, 1) == Some(toks_view(tokens@)),
            failure is Some ==> lex(chars@, 0, 1, 1) is None,
        decreases chars@.len() - pos,
    {
        let ghost gp = pos as int;
        let ghost gl = line as int;
        let ghost gc = col as int;
        let ghost before = toks_view(tokens@);
        let ch = chars[pos];
        if ch == '\n' {
            line += 1;
            col = 1;
            pos += 1;
            assert(lex(chars@, gp, gl, gc) == lex(chars@, pos as int, line as int, col as int));
            continue;
        }
        if is_ascii_space(ch) {
            col += 1;
            pos += 1;
            assert(lex(chars@, gp, gl, gc) == lex(chars@, pos as int, line as int, col as int));
            continue;
        }
        if ch == '#' {
            pos += 1;
            skip_line_comment(chars.as_slice(), &mut pos);
            proof {
                lemma_line_end(chars@, gp + 1);
            }
            assert(lex(chars@, gp, gl, gc) == lex(chars@, pos as int, line as int, col as int));
            continue;
        }
        if ch == '/' && pos + 1 < chars.len() && chars[pos + 1] == '/' {
            pos += 2;
            skip_line_comment(chars.as_slice(), &mut pos);
            proof {
                lemma_line_end(chars@, gp + 2);
            }
            assert(lex(chars@, gp, gl, gc) == lex(chars@, pos as int, line as int, col as int));
            continue;
        }
        if ch == '<' && pos + 1 < chars.len() && chars[pos + 1] == '-' {
            let ghost t = (TokV::Arrow, gl, gc);
            tokens.push(Token { kind: TokenKind::Arrow, line, col });
            pos += 2;
            col += 2;
            proof {
                assert(toks_view(tokens@) =~= before.push(t));
                match lex(chars@, pos as int, line as int, col as int) {
                    Some(w) => { assert(before + (seq![t] + w) =~= before.push(t) + w); },
                    None => {},
                }
            }
            continue;
        }
        if ch == '\u{2190}' {
            let ghost t = (TokV::Arrow, gl, gc);
            tokens.push(Token { kind: TokenKind::Arrow, line, col });
            pos += 1;
            col += 1;
            proof {
                assert(toks_view(tokens@) =~= before.push(t));
                match lex(chars@, pos as int, line as int, col as int) {
                    Some(w) => { assert(before + (seq![t] + w) =~= before.push(t) + w); },
                    None => {},
                }
            }
            continue;
        }
        if ch == '[' {
            let start_col = col;
            pos += 1;
            col += 1;
            let negated = pos < chars.len() && chars[pos] == '^';
            if negated {
                pos += 1;
                col += 1;
            }
            proof {
                lemma_class_scan(chars@, pos as int, col as int, seq![]);
            }
            let ranges = parse_char_class_contents(chars.as_slice(), &mut pos, &mut line, &mut col);
            match ranges {
                Ok(ranges) => {
                    let ghost t = (TokV::CharClass(ranges@, negated), gl, gc);
                    assert(lex(chars@, gp, gl, gc) == prepend_tok(t, lex(chars@, pos as int, line as int, col as int)));
                    tokens.push(Token { kind: TokenKind::CharClass { ranges, negated }, line, col: start_col });
                    proof {
                        assert(toks_view(tokens@) =~= before.push(t));
                        match lex(chars@, pos as int, line as int, col as int) {
                            Some(w) => { assert(before + (seq![t] + w) =~= before.push(t) + w); },
                            None => {},
                        }
                    }
                },
                Err(e) => {
                    assert(lex(chars@, gp, gl, gc) is None);
                    failure = Some(e);
                    break;
                },
            }
            continue;
        }
        let single: Option<TokenKind> = if ch == '=' {
            Some(TokenKind::Equals)
        } else if ch == '/' {
            Some(TokenKind::Slash)
        } else if ch == '?' {
            Some(TokenKind::Question)
        } else if ch == '*' {
            Some(TokenKind::Star)
        } else if ch == '+' {
            Some(TokenKind::Plus)
        } else if ch == '&' {
            Some(TokenKind::Ampersand)
        } else if ch == '!' {
            Some(TokenKind::Bang)
        } else if ch == '.' {
            Some(TokenKind::Dot)
        } else if ch == '(' {
            Some(TokenKind::LParen)
        } else if ch == ')' {
            Some(TokenKind::RParen)
        } else if ch == ';' {
            Some(TokenKind::Semicolon)
        } else {
            None
        };
        assert(single is Some <==> single_token(ch) is Some);
        if let Some(kind) = single {
            assert(kind_view(kind) == single_token(ch)->0);
            tokens.push(Token { kind, line, col });
            pos += 1;
            col += 1;
            proof {
                assert(toks_view(tokens@) =~= before.push((kind_view(kind), gl, gc)));
                match lex(chars@, pos as int, line as int, col as int) {
                    Some(w) => { assert(before + (seq![(kind_view(kind), gl, gc)] + w) =~= before.push((kind_view(kind), gl, gc)) + w); },
                    None => {},
                }
            }
            continue;
        }
        if ch == '\'' || ch == '"' {
            let start_col = col;
            let s = parse_string_literal(chars.as_slice(), &mut pos, &mut line, &mut col, ch);
            proof {
                lemma_lit_scan(chars@, ch, gp + 1, gl, gc + 1, seq![]);
            }
            match s {
                Ok(s) => {
                    let ghost t = (TokV::StringLit(s@), line as int, gc);
                    tokens.push(Token { kind: TokenKind::StringLit(s), line, col: start_col });
                    proof {
                        assert(toks_view(tokens@) =~= before.push(t));
                        match lex(chars@, pos as int, line as int, col as int) {
                            Some(w) => { assert(before + (seq![t] + w) =~= before.push(t) + w); },
                            None => {},
                        }
                    }
                },
                Err(e) => {
                    assert(lex(chars@, gp, gl, gc) is None);
                    failure = Some(e);
                    break;
                },
            }
            continue;
        }
        if is_ascii_alpha(ch) || ch == '_' {
            let start_col = col;
            let ident = scan_identifier(chars.as_slice(), &mut pos, &mut col);
            proof {
                lemma_ident_end(chars@, gp);
                assert(ident@ =~= chars@.subrange(gp, pos as int));
            }
            let ghost t = (TokV::Ident(ident@), gl, gc);
            tokens.push(Token { kind: TokenKind::Ident(ident), line, col: start_col });
            proof {
                assert(toks_view(tokens@) =~= before.push(t));
                match lex(chars@, pos as int, line as int, col as int) {
                    Some(w) => { assert(before + (seq![t] + w) =~= before.push(t) + w); },
                    None => {},
                }
            }
            continue;
        }
        assert(lex(chars@, gp, gl, gc) is None);
        let shown = debug_char(ch);
        failure = Some(ParseError { line, column: col, message: concat("unexpected character: ", shown.as_str()) });
        break;
    }
    match failure {
        Some(e) => Err(e),
        None => Ok(tokens),
    }
}

/// `format!("{:?}", kind)`: the token kind as `Debug` prints it.
/// `s` is the `Debug` text of a token of kind `k`, as far as the texts of
/// names are stated.
spec fn kind_debug_ok(k: TokV, s: Seq<char>) -> bool {
    match k {
        TokV::Ident(n) => debug_wrapped("Ident("@, n, s),
        TokV::StringLit(t) => debug_wrapped("StringLit("@, t, s),
        TokV::CharClass(_, neg) => "CharClass { ranges: "@.is_prefix_of(s)
            && ends_with(s, if neg { ", negated: true"@ + " }"@ } else { ", negated: false"@ + " }"@ }),
        TokV::Arrow => s == "Arrow"@,
        TokV::Equals => s == "Equals"@,
        TokV::Slash => s == "Slash"@,
        TokV::Question => s == "Question"@,
        TokV::Star => s == "Star"@,
        TokV::Plus => s == "Plus"@,
        TokV::Ampersand => s == "Ampersand"@,
        TokV::Bang => s == "Bang"@,
        TokV::Dot => s == "Dot"@,
        TokV::LParen => s == "LParen"@,
        TokV::RParen => s == "RParen"@,
        TokV::Semicolon => s == "Semicolon"@,
    }
}

fn token_kind_debug(kind: &TokenKind) -> (s: String)
    ensures
        kind_debug_ok(kind_view(*kind), s@),
{
    match kind {
        TokenKind::Ident(name) => debug_wrap("Ident(", name.as_str()),
        TokenKind::StringLit(text) => debug_wrap("StringLit(", text.as_str()),
        TokenKind::CharClass { ranges, negated } => {
            let rs = debug_ranges(ranges.as_slice());
            let a = concat("CharClass { ranges: ", rs.as_str());
            let tail = if *negated { ", negated: true" } else { ", negated: false" };
            let b = concat(a.as_str(), tail);
            let s = concat(b.as_str(), " }");
            proof {
                assert(s@.subrange(0, "CharClass { ranges: "@.len() as int) =~= "CharClass { ranges: "@);
                assert(s@.subrange(s@.len() - (tail@ + " }"@).len(), s@.len() as int) =~= tail@ + " }"@);
            }
            s
        },
        TokenKind::Arrow => String::from_str("Arrow"),
        TokenKind::Equals => String::from_str("Equals"),
        TokenKind::Slash => String::from_str("Slash"),
        TokenKind::Question => String::from_str("Question"),
        TokenKind::Star => String::from_str("Star"),
        TokenKind::Plus => String::from_str("Plus"),
        TokenKind::Ampersand => String::from_str("Ampersand"),
        TokenKind::Bang => String::from_str("Bang"),
        TokenKind::Dot => String::from_str("Dot"),
        TokenKind::LParen => String::from_str("LParen"),
        TokenKind::RParen => String::from_str("RParen"),
        TokenKind::Semicolon => String::from_str("Semicolon"),
    }
}

// ── What the parser reads ──

/// The kind of the token at `pos`.
pub open spec fn kind_at(ts: Seq<(TokV, int, int)>, pos: int) -> TokV {
    ts[pos].0
}

/// The end of a sequence: the end of input, `/`, `;` or `)`.
pub open spec fn at_sequence_end_spec(ts: Seq<(TokV, int, int)>, pos: int) -> bool {
    pos >= ts.len() || kind_at(ts, pos) is Slash || kind_at(ts, pos) is Semicolon || kind_at(ts, pos) is RParen
}

/// A name followed by `<-` or `=`: where a new rule starts.
pub open spec fn at_rule_start_spec(ts: Seq<(TokV, int, int)>, pos: int) -> bool {
    0 <= pos && pos + 1 < ts.len() && kind_at(ts, pos) is Ident && (kind_at(ts, pos + 1) is Arrow || kind_at(ts, pos + 1) is Equals)
}

/// An item under the quantifier at `pos`, if one is there, and where it ends.
pub open spec fn quantified(ts: Seq<(TokV, int, int)>, pos: int, it: ItemV) -> (ItemV, int) {
    if 0 <= pos < ts.len() && kind_at(ts, pos) is Question {
        (ItemV::Quantified(Box::new(it), RawQuantifier::Optional), pos + 1)
    } else if 0 <= pos < ts.len() && kind_at(ts, pos) is Star {
        (ItemV::Quantified(Box::new(it), RawQuantifier::ZeroOrMore), pos + 1)
    } else if 0 <= pos < ts.len() && kind_at(ts, pos) is Plus {
        (ItemV::Quantified(Box::new(it), RawQuantifier::OneOrMore), pos + 1)
    } else {
        (it, pos)
    }
}

/// What the reference built for an atom stands for: a string its bytes,
/// a class its ranges and negation, `.` any byte, each once; `( alts )`
/// its alternatives once (a single item inside stands for itself).
pub proof fn lemma_atom_meaning(ts: Seq<(TokV, int, int)>, pos: int, st: BuildState, r: SymbolRef)
    requires
        p_atom(ts, pos) matches Some((Some(it), _)) && ref_means(st, r, it),
    ensures
        0 <= pos < ts.len(),
        kind_at(ts, pos) matches TokV::StringLit(s) ==> r.modifier == Modifier::Once
            && (st.symbols[r.symbol.0 as int] matches Symbol::Terminal(TerminalKind::Literal(b)) && b@ == encode_utf8(s)),
        kind_at(ts, pos) matches TokV::CharClass(rs, neg) ==> r.modifier == Modifier::Once
            && (st.symbols[r.symbol.0 as int] matches Symbol::Terminal(TerminalKind::CharClass { ranges, negated })
                && ranges@ == rs && negated == neg),
        kind_at(ts, pos) is Dot ==> r.modifier == Modifier::Once
            && (st.symbols[r.symbol.0 as int] matches Symbol::Terminal(TerminalKind::AnyByte)),
        kind_at(ts, pos) is LParen ==> (p_atom(ts, pos) matches Some((Some(ItemV::Group(alts)), _))
            && if alts.len() == 1 && alts[0].len() == 1 {
                ref_means(st, r, alts[0][0])
            } else {
                r.modifier == Modifier::Once
            }),
{
}

/// A quantifier after an item sets the count of its reference: `?` at most
/// once, `*` any number of times, `+` at least once; without one the
/// reference stands for the item itself.
pub proof fn lemma_quantifier_meaning(ts: Seq<(TokV, int, int)>, q: int, it: ItemV, st: BuildState, r: SymbolRef)
    requires
        ref_means(st, r, quantified(ts, q, it).0),
    ensures
        0 <= q < ts.len() && kind_at(ts, q) is Question ==> r.modifier == Modifier::Optional,
        0 <= q < ts.len() && kind_at(ts, q) is Star ==> r.modifier == (Modifier::ZeroOrMore { min: 0, max: u32::MAX }),
        0 <= q < ts.len() && kind_at(ts, q) is Plus ==> r.modifier == (Modifier::OneOrMore { min: 1, max: u32::MAX }),
        !(0 <= q < ts.len() && kind_at(ts, q) is Question) && !(0 <= q < ts.len() && kind_at(ts, q) is Star) && !(0 <= q < ts.len() && kind_at(ts, q) is Plus) ==> ref_means(st, r, it),
{
}

/// Alternatives from `pos`: sequences separated by `/`, at least one; the
/// alternatives and where they end, or none on a syntax error.
pub open spec fn p_alts(ts: Seq<(TokV, int, int)>, pos: int) -> Option<(Seq<Seq<ItemV>>, int)>
    decreases ts.len() - pos, 4nat,
{
    if pos < 0 || pos > ts.len() {
        None
    } else {
        match p_seq(ts, pos, seq![]) {
            Some((first, q)) => if pos <= q <= ts.len() { p_alts_more(ts, q, seq![first]) } else { None },
            None => None,
        }
    }
}

/// More alternatives after `acc`, each after a `/`.
pub open spec fn p_alts_more(ts: Seq<(TokV, int, int)>, pos: int, acc: Seq<Seq<ItemV>>) -> Option<(Seq<Seq<ItemV>>, int)>
    decreases ts.len() - pos, 3nat,
{
    if pos < 0 || pos >= ts.len() || !(kind_at(ts, pos) is Slash) {
        Some((acc, pos))
    } else {
        match p_seq(ts, pos + 1, seq![]) {
            Some((s, q)) => if pos + 1 <= q <= ts.len() { p_alts_more(ts, q, acc.push(s)) } else { None },
            None => None,
        }
    }
}

/// Atoms after `acc` up to `/`, `;`, `)`, the end, or the start of the next
/// rule; each item may carry a quantifier, and lookaheads give no item.
pub open spec fn p_seq(ts: Seq<(TokV, int, int)>, pos: int, acc: Seq<ItemV>) -> Option<(Seq<ItemV>, int)>
    decreases ts.len() - pos, 2nat,
{
    if pos < 0 || pos > ts.len() {
        None
    } else if at_sequence_end_spec(ts, pos) || at_rule_start_spec(ts, pos) {
        Some((acc, pos))
    } else {
        match p_atom(ts, pos) {
            Some((Some(it), q)) => {
                let (it2, q2) = quantified(ts, q, it);
                if pos < q2 <= ts.len() { p_seq(ts, q2, acc.push(it2)) } else { None }
            },
            Some((None, q)) => if q == pos {
                Some((acc, pos))
            } else if pos < q <= ts.len() {
                p_seq(ts, q, acc)
            } else {
                None
            },
            None => None,
        }
    }
}

/// One atom at `pos`: a string, a name (with where it stands), a class,
/// `.`, a parenthesised group, or a lookahead `&e` / `!e` (read and
/// dropped, giving no item); no item when nothing starts here.
pub open spec fn p_atom(ts: Seq<(TokV, int, int)>, pos: int) -> Option<(Option<ItemV>, int)>
    decreases ts.len() - pos, 0nat,
{
    if pos < 0 || pos >= ts.len() {
        Some((None, pos))
    } else {
        match kind_at(ts, pos) {
            TokV::StringLit(s) => Some((Some(ItemV::Literal(s)), pos + 1)),
            TokV::Ident(s) => Some((Some(ItemV::NonTerminal(s, ts[pos].1 as usize, ts[pos].2 as usize)), pos + 1)),
            TokV::CharClass(rs, neg) => Some((Some(ItemV::CharClass(rs, neg)), pos + 1)),
            TokV::Dot => Some((Some(ItemV::AnyChar), pos + 1)),
            TokV::LParen => match p_alts(ts, pos + 1) {
                Some((alts, q)) => if 0 <= q < ts.len() && kind_at(ts, q) is RParen {
                    Some((Some(ItemV::Group(alts)), q + 1))
                } else {
                    None
                },
                None => None,
            },
            TokV::Ampersand | TokV::Bang => match p_atom(ts, pos + 1) {
                Some((Some(it), q)) => Some((None, quantified(ts, q, it).1)),
                Some((None, q)) => Some((None, q)),
                None => None,
            },
            _ => Some((None, pos)),
        }
    }
}

/// `name <- alternatives` (or `=`) at `pos`, with an optional `;`.
pub open spec fn p_rule(ts: Seq<(TokV, int, int)>, pos: int) -> Option<(RuleV, int)> {
    if at_rule_start_spec(ts, pos) {
        match p_alts(ts, pos + 2) {
            Some((alts, q)) => {
                let end = if 0 <= q < ts.len() && kind_at(ts, q) is Semicolon { q + 1 } else { q };
                Some((RuleV { name: kind_at(ts, pos)->Ident_0, alts, line: ts[pos].1 as usize, col: ts[pos].2 as usize }, end))
            },
            None => None,
        }
    } else {
        None
    }
}

/// Rules after `acc` from `pos` to the end of the tokens; none at all, or
/// a syntax error, gives none.
pub open spec fn p_rules(ts: Seq<(TokV, int, int)>, pos: int, acc: Seq<RuleV>) -> Option<Seq<RuleV>>
    decreases ts.len() - pos,
{
    if pos < 0 || pos >= ts.len() {
        if acc.len() == 0 { None } else { Some(acc) }
    } else {
        match p_rule(ts, pos) {
            Some((r, q)) => if pos < q <= ts.len() { p_rules(ts, q, acc.push(r)) } else { None },
            None => None,
        }
    }
}

/// The rules of PEG source text, or none on a lexical or syntax error or
/// an empty grammar.
pub open spec fn peg_rules(source: Seq<char>) -> Option<Seq<RuleV>> {
    match lex(source, 0, 1, 1) {
        Some(ts) => p_rules(ts, 0, seq![]),
        None => None,
    }
}

proof fn lemma_items_push(v: Seq<RawItem>, it: RawItem)
    ensures
        items_view(v.push(it)) == items_view(v).push(item_view(it)),
{
    assert(v.push(it).drop_last() =~= v);
}

proof fn lemma_alts_push(v: Seq<RawAlternative<RawItem>>, a: RawAlternative<RawItem>)
    ensures
        alts_view(v.push(a)) == alts_view(v).push(items_view(a.items@)),
{
    assert(v.push(a).drop_last() =~= v);
}

/// A recursive-descent parser over the token list.
struct Parser {
    tokens: Vec<Token>,
    pos: usize,
}

impl Parser {
    spec fn wf(&self) -> bool {
        &&& self.pos <= self.tokens@.len()
        &&& self.tokens@.len() <= usize::MAX
    }

    spec fn tv(&self) -> Seq<(TokV, int, int)> {
        toks_view(self.tokens@)
    }

    /// Where the next token is, else where the last one was, else 1:1.
    fn current_loc(&self) -> (loc: (usize, usize))
        ensures
            loc == if self.pos < self.tokens@.len() {
                (self.tokens@[self.pos as int].line, self.tokens@[self.pos as int].col)
            } else if self.tokens@.len() > 0 {
                (self.tokens@.last().line, self.tokens@.last().col)
            } else {
                (1usize, 1usize)
            },
    {
        if self.pos < self.tokens.len() {
            (self.tokens[self.pos].line, self.tokens[self.pos].col)
        } else if self.tokens.len() > 0 {
            let last = &self.tokens[self.tokens.len() - 1];
            (last.line, last.col)
        } else {
            (1, 1)
        }
    }

    fn error_here(&self, message: &str) -> (e: ParseError)
        ensures
            e.message@ == message@,
    {
        let (line, column) = self.current_loc();
        ParseError { line, column, message: String::from_str(message) }
    }

    /// The next two tokens are a name and `<-` or `=`: a new rule starts.
    fn at_rule_start(&self) -> (b: bool)
        ensures
            b == at_rule_start_spec(self.tv(), self.pos as int),
    {
        if self.pos < self.tokens.len() && self.pos + 1 < self.tokens.len() {
            let is_ident = match &self.tokens[self.pos].kind {
                TokenKind::Ident(_) => true,
                _ => false,
            };
            is_ident && (match &self.tokens[self.pos + 1].kind {
                TokenKind::Arrow | TokenKind::Equals => true,
                _ => false,
            })
        } else {
            false
        }
    }

    /// The next token ends a sequence: `/`, `;`, `)` or the end of input.
    fn at_sequence_end(&self) -> (b: bool)
        requires
            self.wf(),
        ensures
            b == at_sequence_end_spec(self.tv(), self.pos as int),
            !b ==> self.pos < self.tokens@.len(),
    {
        if self.pos >= self.tokens.len() {
            return true;
        }
        match &self.tokens[self.pos].kind {
            TokenKind::Slash | TokenKind::Semicolon | TokenKind::RParen => true,
            _ => false,
        }
    }

    /// Whether the next token is `/` (0), `;` (1) or `)` (2).
    fn next_is(&self, which: u8) -> (b: bool)
        ensures
            b == (self.pos < self.tokens@.len() && match kind_at(self.tv(), self.pos as int) {
                TokV::Slash => which == 0,
                TokV::Semicolon => which == 1,
                TokV::RParen => which == 2,
                _ => false,
            }),
    {
        self.pos < self.tokens.len() && (match &self.tokens[self.pos].kind {
            TokenKind::Slash => which == 0,
            TokenKind::Semicolon => which == 1,
            TokenKind::RParen => which == 2,
            _ => false,
        })
    }

    /// Every rule up to the end of input; none at all is an error.
    fn parse_grammar(&mut self) -> (r: Result<RawGrammar<RawItem>, ParseError>)
        requires
            old(self).wf(),
        ensures
            match p_rules(old(self).tv(), old(self).pos as int, seq![]) {
                Some(v) => r matches Ok(g) && rules_view(g.rules@) == v,
                None => r is Err,
            },
            r matches Ok(g) ==> g.rules@.len() > 0,
            old(self).tokens@.len() == 0 ==> (r matches Err(e) && e.message@ == "empty grammar"@),
    {
        let ghost ts = self.tv();
        let ghost p0 = self.pos as int;
        let mut rules: Vec<RawRule<RawItem>> = Vec::new();
        let mut failure: Option<ParseError> = None;
        assert(rules_view(rules@) =~= Seq::<RuleV>::empty());
        while self.pos < self.tokens.len()
            invariant_except_break
                self.wf(),
                failure is None,
                self.tokens@ == old(self).tokens@,
                ts == self.tv(),
                p_rules(ts, p0, seq![]) == p_rules(ts, self.pos as int, rules_view(rules@)),
                old(self).tokens@.len() == 0 ==> rules@.len() == 0,
            ensures
                self.tokens@ == old(self).tokens@,
                failure is None ==> p_rules(ts, p0, seq![]) == p_rules(ts, self.pos as int, rules_view(rules@))
                    && self.pos >= self.tokens@.len(),
                failure is Some ==> p_rules(ts, p0, seq![]) is None,
                old(self).tokens@.len() == 0 ==> rules@.len() == 0 && failure is None,
            decreases self.tokens@.len() - self.pos,
        {
            let ghost before = rules@;
            let rule = self.parse_rule();
            match rule {
                Ok(rule) => {
                    rules.push(rule);
                    assert(rules_view(rules@) =~= rules_view(before).push(rule_view(rule)));
                },
                Err(e) => {
                    failure = Some(e);
                    break;
                },
            }
        }
        if let Some(e) = failure {
            return Err(e);
        }
        if rules.len() == 0 {
            return Err(ParseError { line: 1, column: 1, message: String::from_str("empty grammar") });
        }
        Ok(RawGrammar { rules })
    }

    /// `name <- alternatives`, with an optional `;`.
    fn parse_rule(&mut self) -> (r: Result<RawRule<RawItem>, ParseError>)
        requires
            old(self).wf(),
        ensures
            final(self).wf(),
            final(self).tokens@ == old(self).tokens@,
            r is Ok ==> final(self).pos > old(self).pos,
            final(self).pos >= old(self).pos,
            match p_rule(old(self).tv(), old(self).pos as int) {
                Some((v, q)) => r matches Ok(rule) && rule_view(rule) == v && final(self).pos == q,
                None => r is Err,
            },
    {
        if self.pos >= self.tokens.len() {
            return Err(self.error_here("expected rule name"));
        }
        let name_line = self.tokens[self.pos].line;
        let name_col = self.tokens[self.pos].col;
        let name = match &self.tokens[self.pos].kind {
            TokenKind::Ident(s) => s.clone(),
            _ => {
                return Err(self.error_here("expected rule name"));
            },
        };
        self.pos += 1;
        if self.pos >= self.tokens.len() {
            return Err(self.error_here("expected '<-' or '=', found end of input"));
        }
        let is_arrow = match &self.tokens[self.pos].kind {
            TokenKind::Arrow | TokenKind::Equals => true,
            _ => false,
        };
        if !is_arrow {
            let shown = token_kind_debug(&self.tokens[self.pos].kind);
            return Err(ParseError {
                line: self.tokens[self.pos].line,
                column: self.tokens[self.pos].col,
                message: concat("expected '<-' or '=', found ", shown.as_str()),
            });
        }
        self.pos += 1;
        let alternatives = match self.parse_alternatives() {
            Ok(a) => a,
            Err(e) => {
                return Err(e);
            },
        };
        let semi = self.next_is(1);
        if semi {
            self.pos += 1;
        }
        Ok(RawRule { name, alternatives, line: name_line, col: name_col })
    }

    /// Sequences separated by `/`; at least one.
    fn parse_alternatives(&mut self) -> (r: Result<Vec<RawAlternative<RawItem>>, ParseError>)
        requires
            old(self).wf(),
        ensures
            final(self).wf(),
            final(self).tokens@ == old(self).tokens@,
            final(self).pos >= old(self).pos,
            r matches Ok(alts) ==> alts@.len() >= 1,
            match p_alts(old(self).tv(), old(self).pos as int) {
                Some((v, q)) => r matches Ok(alts) && alts_view(alts@) == v && final(self).pos == q,
                None => r is Err,
            },
        decreases old(self).tokens@.len() - old(self).pos, 3nat,
    {
        let ghost ts = self.tv();
        let ghost p0 = self.pos as int;
        let mut alts: Vec<RawAlternative<RawItem>> = Vec::new();
        let first = match self.parse_sequence() {
            Ok(s) => s,
            Err(e) => {
                return Err(e);
            },
        };
        alts.push(first);
        proof {
            lemma_alts_push(seq![], first);
            assert(seq![first] =~= Seq::<RawAlternative<RawItem>>::empty().push(first));
            assert(alts_view(Seq::<RawAlternative<RawItem>>::empty()) =~= Seq::<Seq<ItemV>>::empty());
            assert(seq![items_view(first.items@)] =~= Seq::<Seq<ItemV>>::empty().push(items_view(first.items@)));
        }
        let mut failure: Option<ParseError> = None;
        loop
            invariant_except_break
                self.wf(),
                self.tokens@ == old(self).tokens@,
                ts == self.tv(),
                self.pos >= old(self).pos,
                alts@.len() >= 1,
                failure is None,
                p_alts(ts, p0) == p_alts_more(ts, self.pos as int, alts_view(alts@)),
            ensures
                self.wf(),
                self.tokens@ == old(self).tokens@,
                self.pos >= old(self).pos,
                alts@.len() >= 1,
                failure is None ==> p_alts(ts, p0) == Some((alts_view(alts@), self.pos as int)),
                failure is Some ==> p_alts(ts, p0) is None,
            decreases self.tokens@.len() - self.pos,
        {
            let more = self.next_is(0);
            if !more {
                break;
            }
            let ghost before = alts@;
            self.pos += 1;
            match self.parse_sequence() {
                Ok(s) => {
                    alts.push(s);
                    proof {
                        lemma_alts_push(before, s);
                    }
                },
                Err(e) => {
                    failure = Some(e);
                    break;
                },
            }
        }
        match failure {
            Some(e) => Err(e),
            None => Ok(alts),
        }
    }

    /// Atoms up to `/`, `;`, `)`, the end, or the start of the next rule.
    fn parse_sequence(&mut self) -> (r: Result<RawAlternative<RawItem>, ParseError>)
        requires
            old(self).wf(),
        ensures
            final(self).wf(),
            final(self).tokens@ == old(self).tokens@,
            final(self).pos >= old(self).pos,
            match p_seq(old(self).tv(), old(self).pos as int, seq![]) {
                Some((v, q)) => r matches Ok(alt) && items_view(alt.items@) == v && final(self).pos == q,
                None => r is Err,
            },
        decreases old(self).tokens@.len() - old(self).pos, 2nat,
    {
        let ghost ts = self.tv();
        let ghost p0 = self.pos as int;
        let mut items: Vec<RawItem> = Vec::new();
        let mut failure: Option<ParseError> = None;
        assert(items_view(items@) =~= Seq::<ItemV>::empty());
        loop
            invariant_except_break
                self.wf(),
                self.tokens@ == old(self).tokens@,
                ts == self.tv(),
                self.pos >= old(self).pos,
                failure is None,
                p_seq(ts, p0, seq![]) == p_seq(ts, self.pos as int, items_view(items@)),
            ensures
                self.wf(),
                self.tokens@ == old(self).tokens@,
                self.pos >= old(self).pos,
                failure is None ==> p_seq(ts, p0, seq![]) == Some((items_view(items@), self.pos as int)),
                failure is Some ==> p_seq(ts, p0, seq![]) is None,
            decreases self.tokens@.len() - self.pos,
        {
            let done = self.at_sequence_end();
            if done {
                break;
            }
            if self.at_rule_start() {
                break;
            }
            let before = self.pos;
            let ghost items0 = items@;
            match self.parse_atom() {
                Ok(Some(item)) => {
                    let item = self.maybe_quantified(item);
                    items.push(item);
                    proof {
                        lemma_items_push(items0, item);
                    }
                },
                Ok(None) => {
                    if self.pos == before {
                        break;
                    }
                },
                Err(e) => {
                    failure = Some(e);
                    break;
                },
            }
        }
        match failure {
            Some(e) => Err(e),
            None => Ok(RawAlternative { items }),
        }
    }

    /// One atom: a string, a name, a class, `.`, a group, or a lookahead
    /// (read and dropped, giving no item). `None` when nothing starts here.
    fn parse_atom(&mut self) -> (r: Result<Option<RawItem>, ParseError>)
        requires
            old(self).wf(),
        ensures
            final(self).wf(),
            final(self).tokens@ == old(self).tokens@,
            final(self).pos >= old(self).pos,
            r matches Ok(Some(_)) ==> final(self).pos > old(self).pos,
            match p_atom(old(self).tv(), old(self).pos as int) {
                Some((Some(v), q)) => r matches Ok(Some(it)) && item_view(it) == v && final(self).pos == q,
                Some((None, q)) => r matches Ok(None) && final(self).pos == q,
                None => r is Err,
            },
        decreases old(self).tokens@.len() - old(self).pos, 0nat,
    {
        if self.pos >= self.tokens.len() {
            return Ok(None);
        }
        let line = self.tokens[self.pos].line;
        let col = self.tokens[self.pos].col;
        let next: u8 = match &self.tokens[self.pos].kind {
            TokenKind::StringLit(s) => {
                let s = s.clone();
                self.pos += 1;
                return Ok(Some(RawItem::Literal(s)));
            },
            TokenKind::Ident(s) => {
                let s = s.clone();
                self.pos += 1;
                return Ok(Some(RawItem::NonTerminal(s, line, col)));
            },
            TokenKind::CharClass { ranges, negated } => {
                let ranges = vstd::slice::slice_to_vec(ranges.as_slice());
                let negated = *negated;
                self.pos += 1;
                return Ok(Some(RawItem::CharClass { ranges, negated }));
            },
            TokenKind::Dot => {
                self.pos += 1;
                return Ok(Some(RawItem::AnyChar));
            },
            TokenKind::LParen => 0,
            TokenKind::Ampersand | TokenKind::Bang => 1,
            _ => {
                return Ok(None);
            },
        };
        self.pos += 1;
        if next == 0 {
            let alts = match self.parse_alternatives() {
                Ok(a) => a,
                Err(e) => {
                    return Err(e);
                },
            };
            let close = self.next_is(2);
            if !close {
                return Err(self.error_here("expected ')'"));
            }
            self.pos += 1;
            Ok(Some(RawItem::Group(alts)))
        } else {
            match self.parse_atom() {
                Ok(Some(item)) => {
                    let _discarded = self.maybe_quantified(item);
                    Ok(None)
                },
                Ok(None) => Ok(None),
                Err(e) => Err(e),
            }
        }
    }

    /// `item?`, `item*`, `item+`, or `item` itself.
    fn maybe_quantified(&mut self, item: RawItem) -> (r: RawItem)
        requires
            old(self).wf(),
        ensures
            final(self).wf(),
            final(self).tokens@ == old(self).tokens@,
            final(self).pos >= old(self).pos,
            (item_view(r), final(self).pos as int) == quantified(old(self).tv(), old(self).pos as int, item_view(item)),
    {
        if self.pos >= self.tokens.len() {
            return item;
        }
        let q: Option<RawQuantifier> = match &self.tokens[self.pos].kind {
            TokenKind::Question => Some(RawQuantifier::Optional),
            TokenKind::Star => Some(RawQuantifier::ZeroOrMore),
            TokenKind::Plus => Some(RawQuantifier::OneOrMore),
            _ => None,
        };
        match q {
            Some(q) => {
                self.pos += 1;
                RawItem::Quantified(Box::new(item), q)
            },
            None => item,
        }
    }
}

/// Two rules of `rs` share a name.
pub open spec fn names_repeat(rs: Seq<RuleV>) -> bool {
    exists|i: int, j: int| 0 <= i < j < rs.len() && #[trigger] rs[i].name == #[trigger] rs[j].name
}

/// Compile PEG source into grammar IR; the first rule is the start. The
/// IR is built from the rules the source reads as; a source that does not
/// read as rules, or that names a rule twice, is an error.
pub fn compile(source: &str) -> (r: Result<GrammarIr, ParseError>)
    requires
        source@.len() < usize::MAX / 4,
    ensures
        peg_rules(source@) is None ==> r is Err,
        peg_rules(source@) matches Some(rs) && rules_ready(rs) ==> r is Ok,
        peg_rules(source@) matches Some(rs) && names_repeat(rs) && rs.len() < u32::MAX
            ==> (r matches Err(e) && "duplicate rule: "@.is_prefix_of(e.message@)),
        r matches Ok(ir) ==> exists|rules: Seq<RawRule<RawItem>>| rules.len() > 0
            && peg_rules(source@) == Some(rules_view(rules)) && #[trigger] built_ok(rules, ProductionId(0), ir),
        source@.len() == 0 ==> (r matches Err(e) && e.message@ == "empty grammar"@),
{
    let tokens = match tokenize(source) {
        Ok(t) => t,
        Err(e) => {
            return Err(e);
        },
    };
    let n = tokens.len();
    let mut parser = Parser { tokens, pos: 0 };
    let raw = match parser.parse_grammar() {
        Ok(g) => g,
        Err(e) => {
            return Err(e);
        },
    };
    let ghost rules = raw.rules@;
    proof {
        if let Some(rs) = peg_rules(source@) {
            if names_repeat(rs) {
                let (i, j) = choose|i: int, j: int| 0 <= i < j < rs.len() && #[trigger] rs[i].name == #[trigger] rs[j].name;
                assert(rules[i].name@ == rules[j].name@);
                assert(has_duplicate(rules));
            }
        }
    }
    match build_ir(raw, ProductionId(0)) {
        Ok(ir) => {
            assert(built_ok(rules, ProductionId(0), ir));
            Ok(ir)
        },
        Err(e) => Err(e),
    }
}

} // verus!
