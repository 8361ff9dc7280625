//! Lexing helpers shared by the grammar front ends. Each works on a slice of
//! characters at a position, and keeps a 1-based line and column.
use vstd::prelude::*;
use vstd::string::StringExecFns;
use crate::parse_error::ParseError;
use crate::text::{push_char, is_ascii_alnum, is_ident_char};

verus! {

/// Room for the position, line and column to advance over every character.
pub open spec fn room(cs: Seq<char>, line: usize, col: usize) -> bool {
    &&& line + cs.len() <= usize::MAX
    &&& col + cs.len() <= usize::MAX
}

/// What the escape `\e` stands for inside a string literal quoted by `q`;
/// an unknown escape stands for itself, backslash included.
pub open spec fn escape_spec(e: char, q: char) -> Seq<char> {
    if e == 'n' {
        seq!['\n']
    } else if e == 'r' {
        seq!['\r']
    } else if e == 't' {
        seq!['\t']
    } else if e == '\\' {
        seq!['\\']
    } else if e == q {
        seq![e]
    } else {
        seq!['\\', e]
    }
}

/// Scanning a string literal's body from `p`: whether the closing quote `q`
/// was found, then the position, line and column after the scan, and the text.
pub open spec fn lit_scan(cs: Seq<char>, q: char, p: int, line: int, col: int, text: Seq<char>) -> (bool, int, int, int, Seq<char>)
    decreases cs.len() - p,
{
    if p < 0 || p >= cs.len() {
        (false, p, line, col, text)
    } else if cs[p] == q {
        (true, p + 1, line, col + 1, text)
    } else if cs[p] == '\\' && p + 1 < cs.len() {
        lit_scan(cs, q, p + 2, line, col + 2, text + escape_spec(cs[p + 1], q))
    } else if cs[p] == '\n' {
        lit_scan(cs, q, p + 1, line + 1, 1, text.push(cs[p]))
    } else {
        lit_scan(cs, q, p + 1, line, col + 1, text.push(cs[p]))
    }
}

/// Inside a string literal, a backslash and the next character stand for:
/// `\n` a newline, `\r` a carriage return, `\t` a tab, `\\` one
/// backslash, the backslash and the quote the quote itself, and any other
/// character the backslash followed by that character; the scan goes on
/// after the two characters, two columns further.
pub proof fn lemma_lit_scan_escapes(cs: Seq<char>, q: char, p: int, line: int, col: int, text: Seq<char>)
    requires
        0 <= p,
        p + 1 < cs.len(),
        cs[p] == '\\',
        q != '\\',
    ensures
        cs[p + 1] == 'n' ==> lit_scan(cs, q, p, line, col, text) == lit_scan(cs, q, p + 2, line, col + 2, text.push('\n')),
        cs[p + 1] == 'r' ==> lit_scan(cs, q, p, line, col, text) == lit_scan(cs, q, p + 2, line, col + 2, text.push('\r')),
        cs[p + 1] == 't' ==> lit_scan(cs, q, p, line, col, text) == lit_scan(cs, q, p + 2, line, col + 2, text.push('\t')),
        cs[p + 1] == '\\' ==> lit_scan(cs, q, p, line, col, text) == lit_scan(cs, q, p + 2, line, col + 2, text.push('\\')),
        cs[p + 1] == q && q != 'n' && q != 'r' && q != 't'
            ==> lit_scan(cs, q, p, line, col, text) == lit_scan(cs, q, p + 2, line, col + 2, text.push(q)),
        cs[p + 1] != 'n' && cs[p + 1] != 'r' && cs[p + 1] != 't' && cs[p + 1] != '\\' && cs[p + 1] != q
            ==> lit_scan(cs, q, p, line, col, text) == lit_scan(cs, q, p + 2, line, col + 2, text.push('\\').push(cs[p + 1])),
{
    assert(text + seq!['\n'] =~= text.push('\n'));
    assert(text + seq!['\r'] =~= text.push('\r'));
    assert(text + seq!['\t'] =~= text.push('\t'));
    assert(text + seq!['\\'] =~= text.push('\\'));
    assert(text + seq![q] =~= text.push(q));
    assert(text + seq!['\\', cs[p + 1]] =~= text.push('\\').push(cs[p + 1]));
}

/// Parse a string literal whose opening quote is at `pos`; on success `pos`
/// is past the closing quote. An unterminated literal is reported at the
/// line where the input ends and the column of the opening quote.
pub fn parse_string_literal(chars: &[char], pos: &mut usize, line: &mut usize, col: &mut usize, quote_char: char) -> (r: Result<String, ParseError>)
    requires
        *old(pos) < chars@.len(),
        room(chars@, *old(line), *old(col)),
    ensures
        ({
            let (ok, p, l, c, text) = lit_scan(chars@, quote_char, *old(pos) + 1, *old(line) as int, *old(col) + 1, seq![]);
            &&& *final(pos) == p
            &&& *final(line) == l
            &&& *final(col) == c
            &&& ok ==> (r matches Ok(s) && s@ == text)
            &&& !ok ==> (r matches Err(e) && e.line == l && e.column == *old(col) && e.message@ == "unterminated string literal"@)
        }),
        *old(pos) < *final(pos) <= chars@.len(),
        *old(line) <= *final(line) <= *old(line) + (*final(pos) - *old(pos)),
        *final(col) <= *old(col) + (*final(pos) - *old(pos)),
        *final(col) >= 1 || *final(col) > *old(col),
{
    let ghost p0 = *pos;
    let ghost l0 = *line;
    let ghost c0 = *col;
    let start_col = *col;
    *pos += 1;
    *col += 1;
    let mut s = String::new();
    let mut closed = false;
    loop
        invariant_except_break
            !closed,
            p0 < *pos <= chars@.len(),
            l0 <= *line <= l0 + (*pos - p0),
            *col <= c0 + (*pos - p0),
            *col >= 1 || *col > c0,
            room(chars@, l0, c0),
            lit_scan(chars@, quote_char, p0 + 1, l0 as int, c0 + 1, seq![])
                == lit_scan(chars@, quote_char, *pos as int, *line as int, *col as int, s@),
        ensures
            lit_scan(chars@, quote_char, p0 + 1, l0 as int, c0 + 1, seq![])
                == (closed, *pos as int, *line as int, *col as int, s@),
            p0 < *pos <= chars@.len(),
            l0 <= *line <= l0 + (*pos - p0),
            *col <= c0 + (*pos - p0),
            *col >= 1 || *col > c0,
        decreases chars@.len() + 1 - *pos,
    {
        if *pos >= chars.len() {
            break;
        }
        let c = chars[*pos];
        if c == quote_char {
            *pos += 1;
            *col += 1;
            closed = true;
            break;
        }
        if c == '\\' && *pos + 1 < chars.len() {
            *pos += 1;
            *col += 1;
            let escaped = chars[*pos];
            let ghost before = s@;
            if escaped == 'n' {
                push_char(&mut s, '\n');
            } else if escaped == 'r' {
                push_char(&mut s, '\r');
            } else if escaped == 't' {
                push_char(&mut s, '\t');
            } else if escaped == '\\' {
                push_char(&mut s, '\\');
            } else if escaped == quote_char {
                push_char(&mut s, escaped);
            } else {
                push_char(&mut s, '\\');
                push_char(&mut s, escaped);
            }
            assert(s@ =~= before + escape_spec(escaped, quote_char));
            *pos += 1;
            *col += 1;
            continue;
        }
        if c == '\n' {
            *line += 1;
            *col = 1;
        } else {
            *col += 1;
        }
        push_char(&mut s, c);
        *pos += 1;
    }
    if !closed {
        proof {
            reveal_strlit("unterminated string literal");
        }
        return Err(ParseError { line: *line, column: start_col, message: String::from_str("unterminated string literal") });
    }
    Ok(s)
}

/// The byte that the escape `\e` stands for inside a character class.
pub open spec fn class_escape(e: char) -> u8 {
    if e == 'n' {
        10
    } else if e == 'r' {
        13
    } else if e == 't' {
        9
    } else {
        e as u8
    }
}

/// Reading one class character at `p`: its byte and the position after it,
/// or `None` at the end of input or after a backslash that ends the input.
pub open spec fn read_cc(cs: Seq<char>, p: int) -> Option<(u8, int)> {
    if p < 0 || p >= cs.len() {
        None
    } else if cs[p] == '\\' {
        if p + 1 >= cs.len() {
            None
        } else {
            Some((class_escape(cs[p + 1]), p + 2))
        }
    } else {
        Some((cs[p] as u8, p + 1))
    }
}

/// Inside a character class a backslash and the next character stand for
/// one byte: `\n` 10, `\r` 13, `\t` 9, and any other character its own
/// (low) byte, so `\\`, `\]`, `\[` and `\-` stand for those characters;
/// reading goes on after the two characters. An unescaped character stands
/// for its own byte.
pub proof fn lemma_read_cc_escapes(cs: Seq<char>, p: int)
    requires
        0 <= p < cs.len(),
    ensures
        cs[p] != '\\' ==> read_cc(cs, p) == Some((cs[p] as u8, p + 1)),
        cs[p] == '\\' && p + 1 < cs.len() ==> {
            &&& cs[p + 1] == 'n' ==> read_cc(cs, p) == Some((10u8, p + 2))
            &&& cs[p + 1] == 'r' ==> read_cc(cs, p) == Some((13u8, p + 2))
            &&& cs[p + 1] == 't' ==> read_cc(cs, p) == Some((9u8, p + 2))
            &&& cs[p + 1] != 'n' && cs[p + 1] != 'r' && cs[p + 1] != 't' ==> read_cc(cs, p) == Some((cs[p + 1] as u8, p + 2))
        },
        cs[p] == '\\' && p + 1 >= cs.len() ==> read_cc(cs, p) is None,
{
}

/// Read one character of a character class, with escapes, as a byte (a
/// character beyond one byte keeps its low byte).
pub fn read_char_class_char(chars: &[char], pos: &mut usize, line: &mut usize, col: &mut usize) -> (r: Result<u8, ParseError>)
    requires
        *old(col) + 2 <= usize::MAX,
    ensures
        *final(line) == *old(line),
        match read_cc(chars@, *old(pos) as int) {
            Some((b, p2)) => r == Ok::<u8, ParseError>(b) && *final(pos) == p2 && *final(col) == *old(col) + (p2 - *old(pos)),
            None => r matches Err(e) && e.line == *old(line) && e.column == *final(col) && (if *old(pos) >= chars@.len() {
                *final(pos) == *old(pos) && *final(col) == *old(col) && e.message@ == "unexpected end of character class"@
            } else {
                *final(pos) == *old(pos) + 1 && *final(col) == *old(col) + 1
                    && e.message@ == "unexpected end of escape in character class"@
            }),
        },
{
    if *pos >= chars.len() {
        proof {
            reveal_strlit("unexpected end of character class");
        }
        return Err(ParseError { line: *line, column: *col, message: String::from_str("unexpected end of character class") });
    }
    let ch = chars[*pos];
    if ch == '\\' {
        *pos += 1;
        *col += 1;
        if *pos >= chars.len() {
            proof {
                reveal_strlit("unexpected end of escape in character class");
            }
            return Err(ParseError {
                line: *line,
                column: *col,
                message: String::from_str("unexpected end of escape in character class"),
            });
        }
        let escaped = chars[*pos];
        *pos += 1;
        *col += 1;
        let byte: u8 = if escaped == 'n' {
            10
        } else if escaped == 'r' {
            13
        } else if escaped == 't' {
            9
        } else if escaped == '\\' {
            92
        } else if escaped == ']' {
            93
        } else if escaped == '[' {
            91
        } else if escaped == '-' {
            45
        } else {
            #[verifier::truncate] (escaped as u8)
        };
        Ok(byte)
    } else {
        *pos += 1;
        *col += 1;
        Ok(#[verifier::truncate] (ch as u8))
    }
}

/// Scanning a character class body from `p` up to its `]`: the outcome
/// (0 closed, 1 an escape cut off by the end, 2 no closing bracket), then
/// the position and column after the scan, and the ranges read.
pub open spec fn class_scan(cs: Seq<char>, p: int, col: int, acc: Seq<(u8, u8)>) -> (int, int, int, Seq<(u8, u8)>)
    decreases cs.len() - p,
{
    if p < 0 || p >= cs.len() {
        (2, p, col, acc)
    } else if cs[p] == ']' {
        (0, p + 1, col + 1, acc)
    } else {
        match read_cc(cs, p) {
            None => (1, p + 1, col + 1, acc),
            Some((c, p1)) => {
                let col1 = col + (p1 - p);
                if p1 + 1 < cs.len() && cs[p1] == '-' && cs[p1 + 1] != ']' {
                    match read_cc(cs, p1 + 1) {
                        None => (1, p1 + 2, col1 + 2, acc),
                        Some((e, p2)) => class_scan(cs, p2, col1 + 1 + (p2 - (p1 + 1)), acc.push((c, e))),
                    }
                } else {
                    class_scan(cs, p1, col1, acc.push((c, c)))
                }
            },
        }
    }
}

/// Parse the body of a character class (after `[` and any negation) up to
/// and including its `]`, as byte ranges; `a-b` is a range, anything else one byte.
pub fn parse_char_class_contents(chars: &[char], pos: &mut usize, line: &mut usize, col: &mut usize) -> (r: Result<Vec<(u8, u8)>, ParseError>)
    requires
        *old(pos) <= chars@.len(),
        *old(col) + chars@.len() + 2 <= usize::MAX,
    ensures
        *final(line) == *old(line),
        ({
            let (k, p, c, ranges) = class_scan(chars@, *old(pos) as int, *old(col) as int, seq![]);
            &&& *final(pos) == p
            &&& *final(col) == c
            &&& k == 0 ==> (r matches Ok(v) && v@ == ranges)
            &&& k == 1 ==> (r matches Err(e) && e.line == *old(line) && e.column == c
                && e.message@ == "unexpected end of escape in character class"@)
            &&& k == 2 ==> (r matches Err(e) && e.line == *old(line) && e.column == c
                && e.message@ == "unterminated character class"@)
        }),
        *old(pos) <= *final(pos) <= chars@.len(),
        *final(col) == *old(col) + (*final(pos) - *old(pos)),
        r is Ok ==> *final(pos) > *old(pos),
{
    let ghost p0 = *pos;
    let ghost c0 = *col;
    let ghost l0 = *line;
    let mut ranges: Vec<(u8, u8)> = Vec::new();
    let mut failure: Option<ParseError> = None;
    while *pos < chars.len() && chars[*pos] != ']'
        invariant_except_break
            p0 <= *pos <= chars@.len(),
            *col == c0 + (*pos - p0),
            c0 + chars@.len() + 2 <= usize::MAX,
            *line == l0,
            failure is None,
            class_scan(chars@, p0 as int, c0 as int, seq![]) == class_scan(chars@, *pos as int, *col as int, ranges@),
        ensures
            *line == l0,
            failure matches Some(e) ==> ({
                let (k, p, c, _) = class_scan(chars@, p0 as int, c0 as int, seq![]);
                k == 1 && *pos == p && *col == c && e.line == l0 && e.column == c
                    && e.message@ == "unexpected end of escape in character class"@
            }),
            p0 <= *pos <= chars@.len(),
            *col == c0 + (*pos - p0),
            failure is None ==> p0 <= *pos <= chars@.len() && (*pos == chars@.len() || chars@[*pos as int] == ']')
                && *col == c0 + (*pos - p0)
                && class_scan(chars@, p0 as int, c0 as int, seq![]) == class_scan(chars@, *pos as int, *col as int, ranges@),
        decreases chars@.len() - *pos,
    {
        let c = read_char_class_char(chars, pos, line, col);
        let c = match c {
            Ok(b) => b,
            Err(e) => {
                failure = Some(e);
                break;
            },
        };
        if *pos + 1 < chars.len() && chars[*pos] == '-' && chars[*pos + 1] != ']' {
            *pos += 1;
            *col += 1;
            let end = read_char_class_char(chars, pos, line, col);
            let end = match end {
                Ok(b) => b,
                Err(e) => {
                    failure = Some(e);
                    break;
                },
            };
            ranges.push((c, end));
        } else {
            ranges.push((c, c));
        }
    }
    if let Some(e) = failure {
        return Err(e);
    }
    if *pos >= chars.len() {
        proof {
            reveal_strlit("unterminated character class");
        }
        return Err(ParseError { line: *line, column: *col, message: String::from_str("unterminated character class") });
    }
    *pos += 1;
    *col += 1;
    Ok(ranges)
}

/// Where the identifier characters starting at `p` end.
pub open spec fn ident_end(cs: Seq<char>, p: int) -> int
    decreases cs.len() - p,
{
    if p < 0 || p >= cs.len() || !is_ident_char(cs[p]) {
        p
    } else {
        ident_end(cs, p + 1)
    }
}

pub proof fn lemma_ident_end(cs: Seq<char>, p: int)
    requires
        0 <= p,
    ensures
        p <= ident_end(cs, p),
        p <= cs.len() ==> ident_end(cs, p) <= cs.len(),
        forall|i: int| p <= i < ident_end(cs, p) ==> #[trigger] is_ident_char(cs[i]),
    decreases cs.len() - p,
{
    if p < cs.len() && is_ident_char(cs[p]) {
        lemma_ident_end(cs, p + 1);
    }
}

/// Scan the identifier (ASCII letters, digits, `_`) that starts at `pos`,
/// advancing `pos` and `col` past it.
pub fn scan_identifier(chars: &[char], pos: &mut usize, col: &mut usize) -> (ident: String)
    requires
        *old(col) + chars@.len() <= usize::MAX,
    ensures
        *final(pos) == ident_end(chars@, *old(pos) as int),
        *old(pos) <= *final(pos),
        *old(pos) <= chars@.len() ==> *final(pos) <= chars@.len(),
        *old(pos) < chars@.len() && is_ident_char(chars@[*old(pos) as int]) ==> *final(pos) > *old(pos),
        *final(col) == *old(col) + (*final(pos) - *old(pos)),
        ident@ == Seq::new((*final(pos) - *old(pos)) as nat, |i: int| chars@[*old(pos) + i]),
{
    let ghost p0 = *pos;
    let ghost c0 = *col;
    proof {
        lemma_ident_end(chars@, p0 as int);
    }
    let mut ident = String::new();
    while *pos < chars.len() && (is_ascii_alnum(chars[*pos]) || chars[*pos] == '_')
        invariant
            p0 <= *pos,
            *pos <= chars@.len() || *pos == p0,
            *col == c0 + (*pos - p0),
            c0 + chars@.len() <= usize::MAX,
            ident_end(chars@, p0 as int) == ident_end(chars@, *pos as int),
            ident@ == Seq::new((*pos - p0) as nat, |i: int| chars@[p0 + i]),
        decreases chars@.len() - *pos,
    {
        let ghost before = ident@;
        push_char(&mut ident, chars[*pos]);
        assert(ident@ =~= Seq::new((*pos + 1 - p0) as nat, |i: int| chars@[p0 + i]));
        *pos += 1;
        *col += 1;
    }
    ident
}

/// Where the line that contains `p` ends: the next line feed, or the end.
pub open spec fn line_end(cs: Seq<char>, p: int) -> int
    decreases cs.len() - p,
{
    if p < 0 || p >= cs.len() || cs[p] == '\n' {
        p
    } else {
        line_end(cs, p + 1)
    }
}

/// Skip a line comment: advance `pos` to the line feed that ends it (not past it).
pub fn skip_line_comment(chars: &[char], pos: &mut usize)
    ensures
        *final(pos) == line_end(chars@, *old(pos) as int),
        *old(pos) <= *final(pos),
        *old(pos) <= chars@.len() ==> *final(pos) <= chars@.len(),
{
    let ghost p0 = *pos;
    while *pos < chars.len() && chars[*pos] != '\n'
        invariant
            p0 <= *pos,
            p0 <= chars@.len() ==> *pos <= chars@.len(),
            line_end(chars@, p0 as int) == line_end(chars@, *pos as int),
        decreases chars@.len() - *pos,
    {
        *pos += 1;
    }
}

/// Scanning a block comment's body from `p` for the closing pair `a b`:
/// whether it was found, then the position, line and column after the scan.
pub open spec fn block_scan(cs: Seq<char>, a: char, b: char, p: int, line: int, col: int) -> (bool, int, int, int)
    decreases cs.len() - p,
{
    if p < 0 || p >= cs.len() {
        (false, p, line, col)
    } else if cs[p] == a && p + 1 < cs.len() && cs[p + 1] == b {
        (true, p + 2, line, col + 2)
    } else if cs[p] == '\n' {
        block_scan(cs, a, b, p + 1, line + 1, 1)
    } else {
        block_scan(cs, a, b, p + 1, line, col + 1)
    }
}

/// Skip a block comment whose opening sequence is behind `pos`, up to and
/// including the closing pair `close_first close_second`. An unterminated
/// comment is reported where it opened.
pub fn skip_block_comment(
    chars: &[char],
    pos: &mut usize,
    line: &mut usize,
    col: &mut usize,
    close_first: char,
    close_second: char,
    start_line: usize,
    start_col: usize,
) -> (r: Result<(), ParseError>)
    requires
        room(chars@, *old(line), *old(col)),
        *old(col) + chars@.len() + 2 <= usize::MAX,
    ensures
        ({
            let (ok, p, l, c) = block_scan(chars@, close_first, close_second, *old(pos) as int, *old(line) as int, *old(col) as int);
            &&& *final(pos) == p
            &&& *final(line) == l
            &&& *final(col) == c
            &&& ok ==> r is Ok
            &&& !ok ==> (r matches Err(e) && e.line == start_line && e.column == start_col
                && e.message@ == "unterminated block comment"@)
        }),
        *old(pos) <= *final(pos),
        *final(pos) <= chars@.len() || *final(pos) == *old(pos),
        *old(line) <= *final(line) <= *old(line) + (*final(pos) - *old(pos)),
        *final(col) <= *old(col) + (*final(pos) - *old(pos)),
        *final(col) >= 1 || *final(col) >= *old(col),
{
    let ghost p0 = *pos;
    let ghost l0 = *line;
    let ghost c0 = *col;
    let mut closed = false;
    loop
        invariant_except_break
            !closed,
            p0 <= *pos,
            *pos <= chars@.len() || *pos == p0,
            l0 <= *line <= l0 + (*pos - p0),
            *col <= c0 + (*pos - p0),
            *col >= 1 || *col >= c0,
            room(chars@, l0, c0),
            c0 + chars@.len() + 2 <= usize::MAX,
            block_scan(chars@, close_first, close_second, p0 as int, l0 as int, c0 as int)
                == block_scan(chars@, close_first, close_second, *pos as int, *line as int, *col as int),
        ensures
            block_scan(chars@, close_first, close_second, p0 as int, l0 as int, c0 as int)
                == (closed, *pos as int, *line as int, *col as int),
            p0 <= *pos,
            *pos <= chars@.len() || *pos == p0,
            l0 <= *line <= l0 + (*pos - p0),
            *col <= c0 + (*pos - p0),
            *col >= 1 || *col >= c0,
        decreases chars@.len() - *pos,
    {
        if *pos >= chars.len() {
            break;
        }
        if chars[*pos] == close_first && *pos + 1 < chars.len() && chars[*pos + 1] == close_second {
            *pos += 2;
            *col += 2;
            closed = true;
            break;
        }
        if chars[*pos] == '\n' {
            *line += 1;
            *col = 1;
        } else {
            *col += 1;
        }
        *pos += 1;
    }
    if !closed {
        proof {
            reveal_strlit("unterminated block comment");
        }
        return Err(ParseError { line: start_line, column: start_col, message: String::from_str("unterminated block comment") });
    }
    Ok(())
}

/// A string literal's scan ends inside the input, past where it started.
pub proof fn lemma_lit_scan(cs: Seq<char>, q: char, p: int, line: int, col: int, text: Seq<char>)
    requires
        0 <= p <= cs.len(),
    ensures
        p <= lit_scan(cs, q, p, line, col, text).1 <= cs.len(),
    decreases cs.len() - p,
{
    if p < cs.len() {
        if cs[p] == q {
        } else if cs[p] == '\\' && p + 1 < cs.len() {
            lemma_lit_scan(cs, q, p + 2, line, col + 2, text + escape_spec(cs[p + 1], q));
        } else if cs[p] == '\n' {
            lemma_lit_scan(cs, q, p + 1, line + 1, 1, text.push(cs[p]));
        } else {
            lemma_lit_scan(cs, q, p + 1, line, col + 1, text.push(cs[p]));
        }
    }
}

/// A line ends inside the input, at or after where the scan starts.
pub proof fn lemma_line_end(cs: Seq<char>, p: int)
    requires
        0 <= p <= cs.len(),
    ensures
        p <= line_end(cs, p) <= cs.len(),
    decreases cs.len() - p,
{
    if p < cs.len() && cs[p] != '\n' {
        lemma_line_end(cs, p + 1);
    }
}

/// A block comment's scan ends inside the input, at or after where it starts.
pub proof fn lemma_block_scan(cs: Seq<char>, a: char, b: char, p: int, line: int, col: int)
    requires
        0 <= p <= cs.len(),
    ensures
        p <= block_scan(cs, a, b, p, line, col).1 <= cs.len(),
    decreases cs.len() - p,
{
    if p < cs.len() {
        if cs[p] == a && p + 1 < cs.len() && cs[p + 1] == b {
        } else if cs[p] == '\n' {
            lemma_block_scan(cs, a, b, p + 1, line + 1, 1);
        } else {
            lemma_block_scan(cs, a, b, p + 1, line, col + 1);
        }
    }
}

/// A character class scan ends inside the input, past where it started.
pub proof fn lemma_class_scan(cs: Seq<char>, p: int, col: int, acc: Seq<(u8, u8)>)
    requires
        0 <= p <= cs.len(),
    ensures
        p <= class_scan(cs, p, col, acc).1 <= cs.len(),
        class_scan(cs, p, col, acc).0 == 0 ==> p < class_scan(cs, p, col, acc).1,
        0 <= class_scan(cs, p, col, acc).0 <= 2,
    decreases cs.len() - p,
{
    if p < cs.len() && cs[p] != ']' {
        match read_cc(cs, p) {
            None => {},
            Some((c, p1)) => {
                let col1 = col + (p1 - p);
                if p1 + 1 < cs.len() && cs[p1] == '-' && cs[p1 + 1] != ']' {
                    match read_cc(cs, p1 + 1) {
                        None => {},
                        Some((e, p2)) => {
                            lemma_class_scan(cs, p2, col1 + 1 + (p2 - (p1 + 1)), acc.push((c, e)));
                        },
                    }
                } else {
                    lemma_class_scan(cs, p1, col1, acc.push((c, c)));
                }
            },
        }
    }
}

} // verus!
