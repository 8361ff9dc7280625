//! Small text utilities: character classes, and the calls into std's
//! string formatting that grammar front ends use for their messages.
use vstd::prelude::*;
use vstd::string::StringExecFns;

verus! {

pub open spec fn is_ascii_digit_spec(c: char) -> bool {
    '0' <= c && c <= '9'
}

pub open spec fn is_ascii_alpha_spec(c: char) -> bool {
    ('a' <= c && c <= 'z') || ('A' <= c && c <= 'Z')
}

pub open spec fn is_ascii_alnum_spec(c: char) -> bool {
    is_ascii_alpha_spec(c) || is_ascii_digit_spec(c)
}

/// Space, tab, line feed, form feed and carriage return.
pub open spec fn is_ascii_space_spec(c: char) -> bool {
    c == ' ' || c == '\t' || c == '\n' || c == '\x0C' || c == '\r'
}

/// A character that may continue an identifier.
pub open spec fn is_ident_char(c: char) -> bool {
    is_ascii_alnum_spec(c) || c == '_'
}

/// `char::is_ascii_digit`.
pub fn is_ascii_digit(c: char) -> (b: bool)
    ensures
        b == is_ascii_digit_spec(c),
{
    c >= '0' && c <= '9'
}

/// `char::is_ascii_alphabetic`.
pub fn is_ascii_alpha(c: char) -> (b: bool)
    ensures
        b == is_ascii_alpha_spec(c),
{
    (c >= 'a' && c <= 'z') || (c >= 'A' && c <= 'Z')
}

/// `char::is_ascii_alphanumeric`.
pub fn is_ascii_alnum(c: char) -> (b: bool)
    ensures
        b == is_ascii_alnum_spec(c),
{
    is_ascii_alpha(c) || is_ascii_digit(c)
}

/// `char::is_ascii_whitespace`.
pub fn is_ascii_space(c: char) -> (b: bool)
    ensures
        b == is_ascii_space_spec(c),
{
    c == ' ' || c == '\t' || c == '\n' || c == '\x0C' || c == '\r'
}

/// The characters of a string slice, in order.
pub fn chars_of(s: &str) -> (v: Vec<char>)
    ensures
        v@ == s@,
{
    broadcast use vstd::string::group_string_axioms;
    let mut v: Vec<char> = Vec::new();
    for c in it: s.chars()
        invariant
            v@ == it.seq().take(it.index() as int),
            it.seq() == s@,
    {
        v.push(c);
    }
    v
}

/// `String::push`: appends one character.
#[verifier::external_body]
pub fn push_char(s: &mut String, c: char)
    ensures
        final(s)@ == old(s)@.push(c),
{
    s.push(c);
}

/// A string of the given characters, in order.
pub fn string_of(cs: &Vec<char>) -> (s: String)
    ensures
        s@ == cs@,
{
    let mut s = String::new();
    let mut i: usize = 0;
    while i < cs.len()
        invariant
            0 <= i <= cs@.len(),
            s@ == cs@.take(i as int),
        decreases cs@.len() - i,
    {
        push_char(&mut s, cs[i]);
        assert(cs@.take(i as int).push(cs@[i as int]) =~= cs@.take(i as int + 1));
        i += 1;
    }
    assert(cs@.take(cs@.len() as int) =~= cs@);
    s
}

/// `a` followed by `b`.
pub fn concat(a: &str, b: &str) -> (s: String)
    ensures
        s@ == a@ + b@,
{
    String::from_str(a).concat(b)
}

/// The HTML text for one character: `&`, `<`, `>` and `"` as entities.
pub open spec fn html_escape_char(c: char) -> Seq<char> {
    if c == '&' {
        seq!['&', 'a', 'm', 'p', ';']
    } else if c == '<' {
        seq!['&', 'l', 't', ';']
    } else if c == '>' {
        seq!['&', 'g', 't', ';']
    } else if c == '"' {
        seq!['&', 'q', 'u', 'o', 't', ';']
    } else {
        seq![c]
    }
}

pub open spec fn html_escape_spec(s: Seq<char>) -> Seq<char>
    decreases s.len(),
{
    if s.len() == 0 {
        seq![]
    } else {
        html_escape_spec(s.drop_last()) + html_escape_char(s.last())
    }
}

/// `s` with `&`, `<`, `>` and `"` written as HTML entities.
pub fn html_escape(s: &str) -> (e: String)
    ensures
        e@ == html_escape_spec(s@),
{
    let cs = chars_of(s);
    let mut out: Vec<char> = Vec::new();
    let mut i: usize = 0;
    while i < cs.len()
        invariant
            0 <= i <= cs@.len(),
            out@ == html_escape_spec(cs@.take(i as int)),
        decreases cs@.len() - i,
    {
        let c = cs[i];
        let ghost before = out@;
        if c == '&' {
            out.push('&'); out.push('a'); out.push('m'); out.push('p'); out.push(';');
        } else if c == '<' {
            out.push('&'); out.push('l'); out.push('t'); out.push(';');
        } else if c == '>' {
            out.push('&'); out.push('g'); out.push('t'); out.push(';');
        } else if c == '"' {
            out.push('&'); out.push('q'); out.push('u'); out.push('o'); out.push('t'); out.push(';');
        } else {
            out.push(c);
        }
        assert(out@ =~= before + html_escape_char(c));
        assert(cs@.take(i as int + 1).drop_last() =~= cs@.take(i as int));
        i += 1;
    }
    assert(cs@.take(cs@.len() as int) =~= cs@);
    string_of(&out)
}

/// The decimal digits of `n`.
pub open spec fn decimal_spec(n: nat) -> Seq<char>
    decreases n,
{
    let d = (('0' as u32) + (n % 10) as u32) as char;
    if n < 10 {
        seq![d]
    } else {
        decimal_spec(n / 10).push(d)
    }
}

/// `u64::to_string`: the decimal digits of `n`, without sign or padding.
#[verifier::external_body]
pub fn decimal(n: u64) -> (s: String)
    ensures
        s@ == decimal_spec(n as nat),
{
    n.to_string()
}

/// `s` is `head`, the `Debug` text of the string `inner`, and `)`; that
/// text is `inner` between double quotes when every character of `inner`
/// is an identifier character.
pub open spec fn debug_wrapped(head: Seq<char>, inner: Seq<char>, s: Seq<char>) -> bool {
    &&& head.is_prefix_of(s)
    &&& s.len() > head.len()
    &&& s.last() == ')'
    &&& (forall|i: int| 0 <= i < inner.len() ==> #[trigger] is_ident_char(inner[i]))
        ==> s == head + seq!['"'] + inner + seq!['"'] + seq![')']
}

/// `s` ends with `t`.
pub open spec fn ends_with(s: Seq<char>, t: Seq<char>) -> bool {
    t.len() <= s.len() && s.subrange(s.len() - t.len(), s.len() as int) == t
}

/// `head`, the `Debug` text of `inner` and `)`, as `debug_wrapped` says.
pub fn debug_wrap(head: &str, inner: &str) -> (s: String)
    ensures
        debug_wrapped(head@, inner@, s@),
{
    let q = debug_quoted(inner);
    let a = concat(head, q.as_str());
    let s = concat(a.as_str(), ")");
    proof {
        reveal_strlit(")");
        assert(head@.is_prefix_of(s@)) by {
            assert(s@.subrange(0, head@.len() as int) =~= head@);
        }
        if forall|i: int| 0 <= i < inner@.len() ==> #[trigger] is_ident_char(inner@[i]) {
            assert(s@ =~= head@ + seq!['"'] + inner@ + seq!['"'] + seq![')']);
        }
    }
    s
}

/// `format!("{:?}", s)` on a string made of identifier characters: the
/// string between double quotes (no character of it is escaped). Nothing is
/// stated of strings with other characters, which `Debug` escapes.
#[verifier::external_body]
pub fn debug_quoted(s: &str) -> (q: String)
    ensures
        (forall|i: int| 0 <= i < s@.len() ==> #[trigger] is_ident_char(s@[i])) ==> q@ == seq!['"'] + s@ + seq!['"'],
{
    format!("{:?}", s)
}

/// `format!("{:?}", c)` on a printable ASCII character other than a quote
/// or backslash: the character between single quotes. Nothing is stated of
/// other characters, which `Debug` escapes.
#[verifier::external_body]
pub fn debug_char(c: char) -> (q: String)
    ensures
        (' ' <= c && c <= '~' && c != '\'' && c != '\\') ==> q@ == seq!['\'', c, '\''],
{
    format!("{:?}", c)
}

/// `format!("{:?}", ranges)`: a list of byte pairs as `Debug` prints it.
/// Only the text's use in error messages depends on it; nothing is stated of it.
#[verifier::external_body]
pub fn debug_ranges(ranges: &[(u8, u8)]) -> (q: String) {
    format!("{:?}", ranges)
}

} // verus!
