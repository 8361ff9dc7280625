//! Reading fuzz corpus files: raw binary tapes, and Go fuzz v1 files
//! (a `go test fuzz v1` header line, then `[]byte("...")` or
//! `string("...")` lines of which the first counts).
use vstd::prelude::*;
use vstd::string::StringExecFns;
use vstd::utf8::{encode_utf8, valid_utf8, decode_utf8};
use crate::text::{chars_of, concat, push_char, string_of};

verus! {

/// `std::str::from_utf8`, the text owned: the string when the bytes are
/// valid UTF-8, else the error's `Display` text, of which nothing is stated.
#[verifier::external_body]
fn text_of_utf8(data: &[u8]) -> (r: Result<String, String>)
    ensures
        r is Ok <==> valid_utf8(data@),
        r matches Ok(s) ==> s@ == decode_utf8(data@),
{
    match std::str::from_utf8(data) {
        Ok(s) => Ok(s.to_string()),
        Err(e) => Err(e.to_string()),
    }
}

/// `char::from_u32`: the character with this code point, none for a
/// surrogate or a value past `0x10FFFF`.
#[verifier::external_body]
fn char_of_code(cp: u32) -> (r: Option<char>)
    ensures
        r is Some <==> (cp <= 0x10FFFF && (cp < 0xD800 || cp > 0xDFFF)),
        r is Some ==> r->Some_0 == cp as char,
{
    char::from_u32(cp)
}

/// The UTF-8 encoding of one character.
fn char_utf8(c: char) -> (v: Vec<u8>)
    ensures
        v@ == encode_utf8(seq![c]),
{
    let mut s = String::new();
    push_char(&mut s, c);
    assert(s@ == seq![c]);
    vstd::slice::slice_to_vec(s.as_str().as_bytes())
}

/// The value of a hexadecimal digit, or -1.
pub open spec fn hex_val(c: char) -> int {
    if '0' <= c && c <= '9' {
        c as int - '0' as int
    } else if 'a' <= c && c <= 'f' {
        c as int - 'a' as int + 10
    } else if 'A' <= c && c <= 'F' {
        c as int - 'A' as int + 10
    } else {
        -1
    }
}

/// The value of the `n` hex digits at `s[start..]`, none when one is missing or not a digit.
pub open spec fn hex_value(s: Seq<char>, start: int, n: nat) -> Option<int>
    decreases n,
{
    if n == 0 {
        Some(0)
    } else if start + n > s.len() || hex_val(s[start + n - 1]) < 0 {
        None
    } else {
        match hex_value(s, start, (n - 1) as nat) {
            Some(v) => Some(v * 16 + hex_val(s[start + n - 1])),
            None => None,
        }
    }
}

/// The text inside the quotes of a Go string literal, unquoted: its bytes,
/// or a malformed escape, or an octal escape above 255.
pub enum Unquoted {
    Bytes(Seq<u8>),
    Invalid,
    Overflow,
}

pub open spec fn prepend(b: Seq<u8>, r: Unquoted) -> Unquoted {
    match r {
        Unquoted::Bytes(x) => Unquoted::Bytes(b + x),
        other => other,
    }
}

pub open spec fn is_octal(c: char) -> bool {
    '0' <= c && c <= '7'
}

/// The number of octal digits of an escape that starts at `s[1]`: one to three.
pub open spec fn octal_len(s: Seq<char>) -> int {
    if s.len() > 2 && is_octal(s[2]) {
        if s.len() > 3 && is_octal(s[3]) { 3 } else { 2 }
    } else {
        1
    }
}

pub open spec fn octal_value(s: Seq<char>) -> int {
    let d1 = s[1] as int - '0' as int;
    let n = octal_len(s);
    if n == 1 {
        d1
    } else if n == 2 {
        d1 * 8 + (s[2] as int - '0' as int)
    } else {
        (d1 * 8 + (s[2] as int - '0' as int)) * 8 + (s[3] as int - '0' as int)
    }
}

/// The character of a code point escape of `n` hex digits at `s[2..]`:
/// none when a digit is missing or the code point is not a character.
pub open spec fn code_char(s: Seq<char>, n: nat) -> Option<char> {
    match hex_value(s, 2, n) {
        Some(cp) => if cp <= 0x10FFFF && !(0xD800 <= cp <= 0xDFFF) {
            Some((cp as u32) as char)
        } else {
            None
        },
        None => None,
    }
}

/// The bytes a Go string literal's body stands for: characters as UTF-8,
/// and the escapes `\n \t \r \\ \" \a \b \f \v`, `\xHH`, `\uHHHH`,
/// `\UHHHHHHHH` and octal `\NNN`.
pub open spec fn go_unquote(s: Seq<char>) -> Unquoted
    decreases s.len(),
{
    if s.len() == 0 {
        Unquoted::Bytes(seq![])
    } else if s[0] != '\\' {
        prepend(encode_utf8(seq![s[0]]), go_unquote(s.skip(1)))
    } else if s.len() < 2 {
        Unquoted::Invalid
    } else {
        let e = s[1];
        if e == 'n' {
            prepend(seq![10u8], go_unquote(s.skip(2)))
        } else if e == 't' {
            prepend(seq![9u8], go_unquote(s.skip(2)))
        } else if e == 'r' {
            prepend(seq![13u8], go_unquote(s.skip(2)))
        } else if e == '\\' {
            prepend(seq![92u8], go_unquote(s.skip(2)))
        } else if e == '"' {
            prepend(seq![34u8], go_unquote(s.skip(2)))
        } else if e == 'a' {
            prepend(seq![7u8], go_unquote(s.skip(2)))
        } else if e == 'b' {
            prepend(seq![8u8], go_unquote(s.skip(2)))
        } else if e == 'f' {
            prepend(seq![12u8], go_unquote(s.skip(2)))
        } else if e == 'v' {
            prepend(seq![11u8], go_unquote(s.skip(2)))
        } else if e == 'x' {
            match hex_value(s, 2, 2) {
                Some(v) => if s.len() >= 4 { prepend(seq![v as u8], go_unquote(s.skip(4))) } else { Unquoted::Invalid },
                None => Unquoted::Invalid,
            }
        } else if e == 'u' {
            match code_char(s, 4) {
                Some(c) => if s.len() >= 6 { prepend(encode_utf8(seq![c]), go_unquote(s.skip(6))) } else { Unquoted::Invalid },
                None => Unquoted::Invalid,
            }
        } else if e == 'U' {
            match code_char(s, 8) {
                Some(c) => if s.len() >= 10 { prepend(encode_utf8(seq![c]), go_unquote(s.skip(10))) } else { Unquoted::Invalid },
                None => Unquoted::Invalid,
            }
        } else if is_octal(e) {
            if octal_value(s) > 255 {
                Unquoted::Overflow
            } else {
                prepend(seq![octal_value(s) as u8], go_unquote(s.skip(1 + octal_len(s))))
            }
        } else {
            Unquoted::Invalid
        }
    }
}

/// `"{path}: {what}"`.
fn path_error(path: &str, what: &str) -> (m: String)
    ensures
        m@ == path@ + ": "@ + what@,
{
    let a = concat(path, ": ");
    concat(a.as_str(), what)
}

pub open spec fn path_prefixed(m: Seq<char>, path: Seq<char>) -> bool {
    (path + ": "@).is_prefix_of(m)
}

proof fn lemma_path_prefix(path: Seq<char>, what: Seq<char>)
    ensures
        path_prefixed(path + ": "@ + what, path),
{
    assert((path + ": "@ + what).subrange(0, (path + ": "@).len() as int) =~= path + ": "@);
}

fn hex_digit(c: char) -> (d: Option<u32>)
    ensures
        d matches Some(v) ==> hex_val(c) == v,
        d is None <==> hex_val(c) < 0,
{
    if c >= '0' && c <= '9' {
        Some(c as u32 - '0' as u32)
    } else if c >= 'a' && c <= 'f' {
        Some(c as u32 - 'a' as u32 + 10)
    } else if c >= 'A' && c <= 'F' {
        Some(c as u32 - 'A' as u32 + 10)
    } else {
        None
    }
}

/// The value of `n` hex digits at `cs[start..]`.
fn hex_n(cs: &Vec<char>, start: usize, n: usize) -> (r: Option<u32>)
    requires
        n <= 8,
        start + n <= cs@.len(),
    ensures
        r matches Some(v) ==> hex_value(cs@, start as int, n as nat) == Some(v as int),
        r is None ==> hex_value(cs@, start as int, n as nat) is None,
{
    let len = cs.len();
    let mut val: u32 = 0;
    let mut k: usize = 0;
    while k < n
        invariant
            0 <= k <= n,
            len == cs@.len(),
            n <= 8,
            start + n <= cs@.len(),
            hex_value(cs@, start as int, k as nat) == Some(val as int),
            val < pow16(k as nat),
        decreases n - k,
    {
        match hex_digit(cs[start + k]) {
            Some(d) => {
                assert(val * 16 + d < pow16(k as nat + 1)) by (nonlinear_arith)
                    requires
                        val < pow16(k as nat),
                        d < 16,
                        pow16(k as nat + 1) == pow16(k as nat) * 16,
                ;
                assert(pow16(k as nat + 1) <= 0x1_0000_0000) by {
                    lemma_pow16_bound(k as nat + 1);
                }
                val = val * 16 + d;
            },
            None => {
                proof {
                    lemma_hex_none(cs@, start as int, k as nat, n as nat);
                }
                return None;
            },
        }
        k += 1;
    }
    Some(val)
}

pub open spec fn pow16(k: nat) -> int
    decreases k,
{
    if k == 0 { 1 } else { 16 * pow16((k - 1) as nat) }
}

proof fn lemma_pow16_bound(k: nat)
    requires
        k <= 8,
    ensures
        pow16(k) <= 0x1_0000_0000,
        pow16(k) >= 1,
    decreases k,
{
    if k > 0 {
        lemma_pow16_bound((k - 1) as nat);
    }
    reveal_with_fuel(pow16, 9);
}

proof fn lemma_hex_none(s: Seq<char>, start: int, k: nat, n: nat)
    requires
        k < n,
        0 <= start,
        start + k < s.len(),
        hex_val(s[start + k]) < 0,
    ensures
        hex_value(s, start, n) is None,
    decreases n,
{
    if n > k + 1 {
        lemma_hex_none(s, start, k, (n - 1) as nat);
    }
}

proof fn lemma_prepend_assoc(a: Seq<u8>, b: Seq<u8>, r: Unquoted)
    ensures
        prepend(a, prepend(b, r)) == prepend(a + b, r),
{
    if let Unquoted::Bytes(x) = r {
        assert(a + (b + x) =~= (a + b) + x);
    }
}

proof fn lemma_hex_value_skip(s: Seq<char>, i: int, start: int, n: nat)
    requires
        0 <= i <= s.len(),
        0 <= start,
    ensures
        hex_value(s.skip(i), start, n) == hex_value(s, i + start, n),
    decreases n,
{
    if n > 0 {
        lemma_hex_value_skip(s, i, start, (n - 1) as nat);
        if i + start + n <= s.len() {
            assert(s.skip(i)[start + n - 1] == s[i + start + n - 1]);
        }
    }
}

/// The uppercase hex digit for `d` (below 16).
pub open spec fn hex_char(d: u32) -> char {
    if d < 10 { ('0' as u8 + d as u8) as char } else { ('A' as u8 + (d - 10) as u8) as char }
}

/// The eight hex digits of `cp`, most significant first.
pub open spec fn hex8(cp: u32) -> Seq<char> {
    Seq::new(8, |i: int| hex_char((cp >> ((4 * (7 - i)) as u32)) & 15))
}

/// `s` with leading zeros dropped while more than `m` digits remain.
pub open spec fn strip_zeros(s: Seq<char>, m: int) -> Seq<char>
    decreases s.len(),
{
    if s.len() > m && s.len() > 0 && s[0] == '0' { strip_zeros(s.drop_first(), m) } else { s }
}

/// Four or more uppercase hex digits of `cp`, as `{:04X}` writes them.
fn hex_upper4(cp: u32) -> (s: String)
    ensures
        s@ == strip_zeros(hex8(cp), 4),
{
    let ghost full = hex8(cp);
    let mut digits: Vec<char> = Vec::new();
    let mut k: u32 = 8;
    assert(full.subrange(0, 8) =~= full);
    while k > 0
        invariant
            k <= 8,
            full == hex8(cp),
            digits@.len() > 0 ==> strip_zeros(full, 4) == digits@ + full.subrange(8 - k, 8),
            digits@.len() == 0 ==> k >= 4 && strip_zeros(full, 4) == strip_zeros(full.subrange(8 - k, 8), 4),
        decreases k,
    {
        k -= 1;
        let d = (cp >> (4 * k)) & 15;
        assert(d < 16) by (bit_vector)
            requires
                d == (cp >> (4 * k)) & 15,
        ;
        let c = if d < 10 { ('0' as u8 + d as u8) as char } else { ('A' as u8 + (d - 10) as u8) as char };
        proof {
            assert(full[7 - k as int] == hex_char((cp >> ((4 * (7 - (7 - k as int))) as u32)) & 15));
            assert((4 * (7 - (7 - k as int))) as u32 == 4 * k);
            assert(c == full[7 - k as int]);
            let rest = full.subrange(8 - (k + 1), 8);
            assert(rest[0] == c);
            assert(rest.drop_first() =~= full.subrange(8 - k, 8));
            assert(rest =~= seq![c] + full.subrange(8 - k, 8));
        }
        if c != '0' || digits.len() > 0 || k < 4 {
            let ghost before = digits@;
            digits.push(c);
            proof {
                assert(before + full.subrange(8 - (k + 1), 8) =~= digits@ + full.subrange(8 - k, 8));
            }
        }
    }
    proof {
        assert(full.subrange(8, 8) =~= Seq::<char>::empty());
        if digits@.len() == 0 {
            assert(false);
        }
        assert(digits@ + full.subrange(8, 8) =~= digits@);
    }
    string_of(&digits)
}

/// The outcome of unquoting, with no message for an octal escape above 255.
pub open spec fn unquote_outcome(u: Unquoted, path: Seq<char>, r: Result<Vec<u8>, Option<String>>) -> bool {
    match u {
        Unquoted::Bytes(b) => r matches Ok(v) && v@ == b,
        Unquoted::Invalid => r matches Err(Some(m)) && path_prefixed(m@, path),
        Unquoted::Overflow => r matches Err(None),
    }
}

/// Unquote the body of a Go string literal (see `go_unquote`): the bytes,
/// a message that names the file `path` and the bad escape, or no message
/// for an octal escape above 255.
#[verifier::spinoff_prover]
#[verifier::rlimit(60)]
fn unquote_go_literal(s: &str, path: &str) -> (r: Result<Vec<u8>, Option<String>>)
    ensures
        unquote_outcome(go_unquote(s@), path@, r),
{
    let cs = chars_of(s);
    let len = cs.len();
    let mut out: Vec<u8> = Vec::new();
    let mut i: usize = 0;
    assert(cs@.skip(0) =~= cs@);
    while i < len
        invariant
            0 <= i <= len,
            len == cs@.len(),
            cs@ == s@,
            go_unquote(cs@) == prepend(out@, go_unquote(cs@.skip(i as int))),
        decreases len - i,
    {
        let ghost t = cs@.skip(i as int);
        let ghost o0 = out@;
        let c = cs[i];
        assert(t[0] == c);
        if c != '\\' {
            let enc = char_utf8(c);
            let mut k: usize = 0;
            while k < enc.len()
                invariant
                    0 <= k <= enc@.len(),
                    out@ == o0 + enc@.take(k as int),
                decreases enc@.len() - k,
            {
                out.push(enc[k]);
                assert(o0 + enc@.take(k as int + 1) =~= (o0 + enc@.take(k as int)).push(enc@[k as int]));
                k += 1;
            }
            assert(enc@.take(enc@.len() as int) =~= enc@);
            assert(t.skip(1) =~= cs@.skip(i as int + 1));
            proof {
                lemma_prepend_assoc(o0, enc@, go_unquote(t.skip(1)));
            }
            i += 1;
            continue;
        }
        if i + 1 >= len {
            let m = path_error(path, "trailing backslash in Go string");
            proof {
                lemma_path_prefix(path@, "trailing backslash in Go string"@);
            }
            return Err(Some(m));
        }
        let e = cs[i + 1];
        assert(t[1] == e);
        let simple: Option<u8> = if e == 'n' {
            Some(10)
        } else if e == 't' {
            Some(9)
        } else if e == 'r' {
            Some(13)
        } else if e == '\\' {
            Some(92)
        } else if e == '"' {
            Some(34)
        } else if e == 'a' {
            Some(7)
        } else if e == 'b' {
            Some(8)
        } else if e == 'f' {
            Some(12)
        } else if e == 'v' {
            Some(11)
        } else {
            None
        };
        if let Some(b) = simple {
            out.push(b);
            assert(t.skip(2) =~= cs@.skip(i as int + 2));
            proof {
                lemma_prepend_assoc(o0, seq![b], go_unquote(t.skip(2)));
                assert(o0.push(b) =~= o0 + seq![b]);
            }
            i += 2;
            continue;
        }
        if e == 'x' || e == 'u' || e == 'U' {
            let n: usize = if e == 'x' { 2 } else if e == 'u' { 4 } else { 8 };
            proof {
                lemma_hex_value_skip(cs@, i as int, 2, n as nat);
            }
            let mut k: usize = 0;
            let mut problem: u8 = 0;
            let mut bad: char = ' ';
            while k < n
                invariant_except_break
                    0 <= k <= n,
                    n <= 8,
                    i + 1 < len,
                    len == cs@.len(),
                    problem == 0,
                    i + 2 + k <= len,
                    forall|m: int| 0 <= m < k ==> hex_val(#[trigger] cs@[i + 2 + m]) >= 0,
                ensures
                    problem <= 2,
                    problem == 0 ==> k == n && i + 2 + n <= len,
                    problem == 1 ==> i + 2 + n > len,
                    problem == 2 ==> k < n && i + 2 + k < len && hex_val(cs@[i + 2 + k]) < 0,
                decreases n - k,
            {
                if k >= len - i - 2 {
                    problem = 1;
                    break;
                }
                if hex_digit(cs[i + 2 + k]).is_none() {
                    problem = 2;
                    bad = cs[i + 2 + k];
                    break;
                }
                k += 1;
            }
            if problem == 1 {
                let m = path_error(path, "truncated \\x escape");
                proof {
                    lemma_path_prefix(path@, "truncated \\x escape"@);
                    assert(hex_value(cs@, i + 2, n as nat) is None);
                }
                return Err(Some(m));
            }
            if problem == 2 {
                let mut what = String::from_str("invalid hex digit '");
                push_char(&mut what, bad);
                let what = concat(what.as_str(), "' in escape");
                let m = path_error(path, what.as_str());
                proof {
                    lemma_path_prefix(path@, what@);
                    lemma_hex_none(cs@, i + 2, k as nat, n as nat);
                }
                return Err(Some(m));
            }
            let v = match hex_n(&cs, i + 2, n) {
                Some(v) => v,
                None => {
                    let m = path_error(path, "invalid hex digit in escape");
                    proof {
                        lemma_path_prefix(path@, "invalid hex digit in escape"@);
                    }
                    return Err(Some(m));
                },
            };
            assert(t.skip(2 + n as int) =~= cs@.skip(i + 2 + n));
            if e == 'x' {
                let b: u8 = #[verifier::truncate] (v as u8);
                assert(v < 256) by {
                    reveal_with_fuel(hex_value, 3);
                }
                out.push(b);
                proof {
                    lemma_prepend_assoc(o0, seq![b], go_unquote(t.skip(4)));
                    assert(o0.push(b) =~= o0 + seq![b]);
                }
                i += 4;
                continue;
            }
            match char_of_code(v) {
                Some(ch) => {
                    let enc = char_utf8(ch);
                    let mut k: usize = 0;
                    while k < enc.len()
                        invariant
                            0 <= k <= enc@.len(),
                            out@ == o0 + enc@.take(k as int),
                        decreases enc@.len() - k,
                    {
                        out.push(enc[k]);
                        assert(o0 + enc@.take(k as int + 1) =~= (o0 + enc@.take(k as int)).push(enc@[k as int]));
                        k += 1;
                    }
                    assert(enc@.take(enc@.len() as int) =~= enc@);
                    assert(((v as int) as u32) as char == ch);
                    proof {
                        lemma_prepend_assoc(o0, enc@, go_unquote(t.skip(2 + n as int)));
                    }
                    i += 2 + n;
                    continue;
                },
                None => {
                    let hex = hex_upper4(v);
                    let what = concat("invalid Unicode codepoint U+", hex.as_str());
                    let m = path_error(path, what.as_str());
                    proof {
                        lemma_path_prefix(path@, what@);
                    }
                    return Err(Some(m));
                },
            }
        }
        if e >= '0' && e <= '7' {
            let mut val: u32 = e as u32 - '0' as u32;
            let mut used: usize = 2;
            if i + 2 < len && cs[i + 2] >= '0' && cs[i + 2] <= '7' {
                val = val * 8 + (cs[i + 2] as u32 - '0' as u32);
                used = 3;
                if i + 3 < len && cs[i + 3] >= '0' && cs[i + 3] <= '7' {
                    val = val * 8 + (cs[i + 3] as u32 - '0' as u32);
                    used = 4;
                }
            }
            proof {
                if i + 2 < len {
                    assert(t[2] == cs@[i + 2]);
                }
                if i + 3 < len {
                    assert(t[3] == cs@[i + 3]);
                }
                assert(octal_len(t) == used - 1);
                assert(octal_value(t) == val);
            }
            if val > 255 {
                return Err(None);
            }
            let b: u8 = val as u8;
            out.push(b);
            assert(t.skip(used as int) =~= cs@.skip(i + used));
            proof {
                lemma_prepend_assoc(o0, seq![b], go_unquote(t.skip(used as int)));
                assert(o0.push(b) =~= o0 + seq![b]);
            }
            i += used;
            continue;
        }
        let mut what = String::from_str("unknown escape \\");
        push_char(&mut what, e);
        let what = concat(what.as_str(), " in Go string");
        let m = path_error(path, what.as_str());
        proof {
            lemma_path_prefix(path@, what@);
        }
        return Err(Some(m));
    }
    assert(cs@.skip(len as int) =~= Seq::<char>::empty());
    assert(out@ + seq![] =~= out@);
    Ok(out)
}

/// Unquote the body of a Go string literal (see `go_unquote`); an error
/// names the file `path` and the bad escape, or an octal escape above 255.
pub fn parse_go_string_literal(s: &str, path: &str) -> (r: Result<Vec<u8>, String>)
    ensures
        match go_unquote(s@) {
            Unquoted::Bytes(b) => r matches Ok(v) && v@ == b,
            _ => r matches Err(m) && path_prefixed(m@, path@),
        },
{
    match unquote_go_literal(s, path) {
        Ok(v) => Ok(v),
        Err(Some(m)) => Err(m),
        Err(None) => {
            let m = path_error(path, "octal escape value above 255");
            proof {
                lemma_path_prefix(path@, "octal escape value above 255"@);
            }
            Err(m)
        },
    }
}


// ── Go fuzz v1 files ──

/// `char::is_whitespace`: the Unicode `White_Space` characters.
pub open spec fn is_whitespace_spec(c: char) -> bool {
    ||| c == ' '
    ||| ('\t' <= c && c <= '\r')
    ||| c == '\u{85}'
    ||| c == '\u{a0}'
    ||| c == '\u{1680}'
    ||| ('\u{2000}' <= c && c <= '\u{200a}')
    ||| c == '\u{2028}'
    ||| c == '\u{2029}'
    ||| c == '\u{202f}'
    ||| c == '\u{205f}'
    ||| c == '\u{3000}'
}

fn is_whitespace(c: char) -> (b: bool)
    ensures
        b == is_whitespace_spec(c),
{
    c == ' ' || (c >= '\t' && c <= '\r') || c == '\u{85}' || c == '\u{a0}' || c == '\u{1680}'
        || (c >= '\u{2000}' && c <= '\u{200a}') || c == '\u{2028}' || c == '\u{2029}' || c == '\u{202f}'
        || c == '\u{205f}' || c == '\u{3000}'
}

/// The number of leading whitespace characters of `s[from..]`.
pub open spec fn ws_run(s: Seq<char>, from: int) -> int
    decreases s.len() - from,
{
    if from < 0 || from >= s.len() || !is_whitespace_spec(s[from]) {
        0
    } else {
        1 + ws_run(s, from + 1)
    }
}

/// The number of trailing whitespace characters of `s[..to]`.
pub open spec fn ws_tail(s: Seq<char>, to: int) -> int
    decreases to,
{
    if to <= 0 || to > s.len() || !is_whitespace_spec(s[to - 1]) {
        0
    } else {
        1 + ws_tail(s, to - 1)
    }
}

/// `str::trim`: without leading and trailing whitespace.
pub open spec fn trim_spec(s: Seq<char>) -> Seq<char> {
    let a = ws_run(s, 0);
    if a >= s.len() {
        seq![]
    } else {
        s.subrange(a, s.len() - ws_tail(s, s.len() as int))
    }
}

/// The lines of `s`: the pieces between newlines.
pub open spec fn split_lines(s: Seq<char>) -> Seq<Seq<char>>
    decreases s.len(),
{
    if s.len() == 0 {
        seq![seq![]]
    } else {
        let rest = split_lines(s.drop_last());
        if s.last() == '\n' {
            rest.push(seq![])
        } else {
            rest.update(rest.len() - 1, rest.last().push(s.last()))
        }
    }
}

proof fn lemma_split_lines_len(s: Seq<char>)
    ensures
        split_lines(s).len() >= 1,
    decreases s.len(),
{
    if s.len() > 0 {
        lemma_split_lines_len(s.drop_last());
    }
}

/// The first line from `lines[k..]` that is not blank, trimmed.
pub open spec fn first_value_line(lines: Seq<Seq<char>>, k: int) -> Option<Seq<char>>
    decreases lines.len() - k,
{
    if k < 0 || k >= lines.len() {
        None
    } else if trim_spec(lines[k]).len() > 0 {
        Some(trim_spec(lines[k]))
    } else {
        first_value_line(lines, k + 1)
    }
}

/// The quoted body of `[]byte("...")` or `string("...")`.
pub open spec fn value_body(line: Seq<char>) -> Option<Seq<char>> {
    let b = "[]byte(\""@;
    let t = "string(\""@;
    let close = "\")"@;
    if b.is_prefix_of(line) && line.len() >= b.len() + close.len() && close.is_suffix_of(line) {
        Some(line.subrange(b.len() as int, line.len() - close.len()))
    } else if t.is_prefix_of(line) && line.len() >= t.len() + close.len() && close.is_suffix_of(line) {
        Some(line.subrange(t.len() as int, line.len() - close.len()))
    } else {
        None
    }
}

/// A Go fuzz file's text gives bytes without an octal escape above 255.
pub open spec fn go_text_ok(text: Seq<char>) -> bool {
    match first_value_line(split_lines(text), 1) {
        Some(line) => match value_body(line) {
            Some(body) => !(go_unquote(body) is Overflow),
            None => true,
        },
        None => true,
    }
}

/// What a Go fuzz file's text stands for: the bytes of its first value
/// line after the header, or none (an error).
pub open spec fn go_text_bytes(text: Seq<char>) -> Option<Seq<u8>> {
    match first_value_line(split_lines(text), 1) {
        Some(line) => match value_body(line) {
            Some(body) => match go_unquote(body) {
                Unquoted::Bytes(b) => Some(b),
                _ => None,
            },
            None => None,
        },
        None => None,
    }
}

pub fn trimmed(line: &Vec<char>) -> (t: Vec<char>)
    ensures
        t@ == trim_spec(line@),
{
    let n = line.len();
    let mut a: usize = 0;
    while a < n && is_whitespace(line[a])
        invariant
            0 <= a <= n,
            n == line@.len(),
            ws_run(line@, 0) == a + ws_run(line@, a as int),
        decreases n - a,
    {
        a += 1;
    }
    if a >= n {
        return Vec::new();
    }
    let mut b: usize = n;
    while b > a && is_whitespace(line[b - 1])
        invariant
            a < n,
            a <= b <= n,
            n == line@.len(),
            ws_run(line@, 0) == a,
            ws_tail(line@, n as int) == (n - b) + ws_tail(line@, b as int),
            forall|j: int| b <= j < n ==> is_whitespace_spec(#[trigger] line@[j]),
        decreases b,
    {
        b -= 1;
    }
    proof {
        assert(!is_whitespace_spec(line@[a as int]));
        if b == a {
            assert(false);
        }
    }
    let mut t: Vec<char> = Vec::new();
    let mut k: usize = a;
    while k < b
        invariant
            a <= k <= b,
            b <= line@.len(),
            t@ == line@.subrange(a as int, k as int),
        decreases b - k,
    {
        t.push(line[k]);
        assert(line@.subrange(a as int, k as int + 1) =~= line@.subrange(a as int, k as int).push(line@[k as int]));
        k += 1;
    }
    t
}

fn has_prefix(cs: &Vec<char>, p: &str) -> (b: bool)
    ensures
        b <==> p@.is_prefix_of(cs@),
{
    let pc = chars_of(p);
    if pc.len() > cs.len() {
        return false;
    }
    let mut i: usize = 0;
    while i < pc.len()
        invariant
            0 <= i <= pc@.len(),
            pc@.len() <= cs@.len(),
            pc@ == p@,
            forall|k: int| 0 <= k < i ==> cs@[k] == pc@[k],
        decreases pc@.len() - i,
    {
        if cs[i] != pc[i] {
            return false;
        }
        i += 1;
    }
    assert(cs@.subrange(0, pc@.len() as int) =~= pc@);
    true
}

fn has_suffix(cs: &Vec<char>, p: &str) -> (b: bool)
    ensures
        b <==> p@.is_suffix_of(cs@),
{
    let pc = chars_of(p);
    let n = cs.len();
    if pc.len() > n {
        return false;
    }
    let off = n - pc.len();
    let mut i: usize = 0;
    while i < pc.len()
        invariant
            0 <= i <= pc@.len(),
            n == cs@.len(),
            off + pc@.len() == n,
            pc@ == p@,
            forall|k: int| 0 <= k < i ==> cs@[off + k] == pc@[k],
        decreases pc@.len() - i,
    {
        if cs[off + i] != pc[i] {
            assert(cs@.subrange(off as int, n as int)[i as int] != pc@[i as int]);
            return false;
        }
        i += 1;
    }
    assert(cs@.subrange(off as int, n as int) =~= pc@);
    true
}

fn value_body_exec(line: &Vec<char>) -> (r: Option<String>)
    ensures
        r matches Some(s) ==> value_body(line@) == Some(s@),
        r is None ==> value_body(line@) is None,
{
    let n = line.len();
    let open_len: usize = if has_prefix(line, "[]byte(\"") {
        8
    } else if has_prefix(line, "string(\"") {
        8
    } else {
        0
    };
    proof {
        reveal_strlit("[]byte(\"");
        reveal_strlit("string(\"");
        reveal_strlit("\")");
    }
    if open_len == 0 || n < 10 || !has_suffix(line, "\")") {
        return None;
    }
    let mut body: Vec<char> = Vec::new();
    let mut k: usize = 8;
    while k < n - 2
        invariant
            8 <= k <= n - 2,
            n == line@.len(),
            n >= 10,
            body@ == line@.subrange(8, k as int),
        decreases n - 2 - k,
    {
        body.push(line[k]);
        assert(line@.subrange(8, k as int + 1) =~= line@.subrange(8, k as int).push(line@[k as int]));
        k += 1;
    }
    Some(string_of(&body))
}

proof fn lemma_split_step(s: Seq<char>, k: int)
    requires
        0 <= k < s.len(),
    ensures
        split_lines(s.take(k + 1)).len() >= split_lines(s.take(k)).len(),
        forall|j: int| 0 <= j < split_lines(s.take(k)).len() - 1
            ==> #[trigger] split_lines(s.take(k + 1))[j] == split_lines(s.take(k))[j],
        s[k] == '\n' ==> split_lines(s.take(k + 1)) == split_lines(s.take(k)).push(seq![]),
        s[k] != '\n' ==> split_lines(s.take(k + 1)).len() == split_lines(s.take(k)).len(),
{
    assert(s.take(k + 1).drop_last() =~= s.take(k));
    lemma_split_lines_len(s.take(k));
}

/// Lines before the last line of a prefix stay as they are in longer prefixes.
proof fn lemma_split_prefix(s: Seq<char>, i: int, k: int)
    requires
        0 <= i <= k <= s.len(),
    ensures
        split_lines(s.take(k)).len() >= split_lines(s.take(i)).len(),
        forall|j: int| 0 <= j < split_lines(s.take(i)).len() - 1
            ==> #[trigger] split_lines(s.take(k))[j] == split_lines(s.take(i))[j],
    decreases k - i,
{
    if k > i {
        lemma_split_prefix(s, i, k - 1);
        lemma_split_step(s, k - 1);
        lemma_split_lines_len(s.take(i));
    }
}

/// At a newline or the end, the last line of the prefix is a line of the whole.
proof fn lemma_line_complete(s: Seq<char>, i: int)
    requires
        0 <= i <= s.len(),
        i == s.len() || s[i] == '\n',
    ensures
        forall|j: int| 0 <= j < split_lines(s.take(i)).len()
            ==> #[trigger] split_lines(s)[j] == split_lines(s.take(i))[j],
        split_lines(s).len() >= split_lines(s.take(i)).len(),
{
    assert(s.take(s.len() as int) =~= s);
    lemma_split_lines_len(s.take(i));
    if i < s.len() {
        lemma_split_step(s, i);
        lemma_split_prefix(s, i + 1, s.len() as int);
        assert forall|j: int| 0 <= j < split_lines(s.take(i)).len() implies #[trigger] split_lines(s)[j] == split_lines(s.take(i))[j] by {
            assert(split_lines(s.take(i + 1))[j] == split_lines(s.take(i))[j]);
        }
    }
}

proof fn lemma_line_grows(s: Seq<char>, i: int)
    requires
        0 <= i < s.len(),
        s[i] != '\n',
    ensures
        split_lines(s.take(i + 1)).len() == split_lines(s.take(i)).len(),
        split_lines(s.take(i + 1)).last() == split_lines(s.take(i)).last().push(s[i]),
        forall|j: int| 0 <= j < split_lines(s.take(i)).len() - 1
            ==> #[trigger] split_lines(s.take(i + 1))[j] == split_lines(s.take(i))[j],
{
    lemma_split_step(s, i);
    lemma_split_lines_len(s.take(i));
    assert(s.take(i + 1).drop_last() =~= s.take(i));
    assert(s.take(i + 1).last() == s[i]);
    let rest = split_lines(s.take(i));
    assert(split_lines(s.take(i + 1)) == rest.update(rest.len() - 1, rest.last().push(s[i])));
}

proof fn lemma_first_value_at(lines: Seq<Seq<char>>, k: int, m: int)
    requires
        1 <= k <= m < lines.len(),
        forall|j: int| k <= j < m ==> trim_spec(#[trigger] lines[j]).len() == 0,
        trim_spec(lines[m]).len() > 0,
    ensures
        first_value_line(lines, k) == Some(trim_spec(lines[m])),
    decreases m - k,
{
    if k < m {
        lemma_first_value_at(lines, k + 1, m);
    }
}

proof fn lemma_first_value_none(lines: Seq<Seq<char>>, k: int)
    requires
        1 <= k,
        forall|j: int| k <= j < lines.len() ==> trim_spec(#[trigger] lines[j]).len() == 0,
    ensures
        first_value_line(lines, k) is None,
    decreases lines.len() - k,
{
    if k < lines.len() {
        lemma_first_value_none(lines, k + 1);
    }
}

/// The outcome of reading a Go fuzz v1 file: no message for an octal
/// escape above 255, else what `go_text_bytes` gives, errors naming the file.
pub open spec fn go_fuzz_outcome(data: Seq<u8>, path: Seq<char>, r: Result<Vec<u8>, Option<String>>) -> bool {
    &&& !valid_utf8(data) ==> (r matches Err(Some(_)))
    &&& valid_utf8(data) && !go_text_ok(decode_utf8(data)) ==> (r matches Err(None))
    &&& valid_utf8(data) && go_text_ok(decode_utf8(data)) ==> match go_text_bytes(decode_utf8(data)) {
        Some(b) => r matches Ok(v) && v@ == b,
        None => r matches Err(Some(_)),
    }
    &&& match r {
        Err(Some(m)) => path_prefixed(m@, path),
        _ => true,
    }
}

/// Read the bytes of a Go fuzz v1 file (see `parse_go_fuzz_v1`), with no
/// message for an octal escape above 255.
fn go_fuzz_value(data: &[u8], path: &str) -> (r: Result<Vec<u8>, Option<String>>)
    ensures
        go_fuzz_outcome(data@, path@, r),
{
    let text = match text_of_utf8(data) {
        Ok(t) => t,
        Err(e) => {
            let what = concat("invalid UTF-8 in Go fuzz file: ", e.as_str());
            proof {
                lemma_path_prefix(path@, what@);
            }
            return Err(Some(path_error(path, what.as_str())));
        },
    };
    let cs = chars_of(text.as_str());
    let ghost lines = split_lines(cs@);
    let n = cs.len();
    let mut line_no: usize = 0;
    let mut cur: Vec<char> = Vec::new();
    let mut i: usize = 0;
    let mut found: Option<Vec<char>> = None;
    proof {
        lemma_split_lines_len(cs@);
        assert(cs@.take(0) =~= Seq::<char>::empty());
        assert(cs@.take(n as int) =~= cs@);
    }
    while i <= n
        invariant_except_break
            0 <= i <= n,
            n == cs@.len(),
            lines == split_lines(cs@),
            found is None,
            line_no <= i,
            split_lines(cs@.take(i as int)).len() == line_no + 1,
            split_lines(cs@.take(i as int)).last() == cur@,
            forall|j: int| 1 <= j < line_no ==> trim_spec(#[trigger] lines[j]).len() == 0,
            forall|j: int| 0 <= j < line_no ==> #[trigger] lines[j] == split_lines(cs@.take(i as int))[j],
            line_no < lines.len(),
        ensures
            found matches Some(v) ==> first_value_line(lines, 1) == Some(v@),
            found is None ==> first_value_line(lines, 1) is None,
        decreases n + 1 - i,
    {
        let ghost pre = split_lines(cs@.take(i as int));
        if i == n || cs[i] == '\n' {
            proof {
                lemma_line_complete(cs@, i as int);
            }
            if line_no >= 1 {
                let t = trimmed(&cur);
                if t.len() > 0 {
                    proof {
                        lemma_first_value_at(lines, 1, line_no as int);
                    }
                    found = Some(t);
                    break;
                }
            }
            if i == n {
                proof {
                    assert(cs@.take(n as int) =~= cs@);
                    lemma_first_value_none(lines, 1);
                }
                break;
            }
            proof {
                assert(cs@.take(i as int + 1).drop_last() =~= cs@.take(i as int));
                lemma_split_lines_len(cs@.take(i as int));
                lemma_split_step(cs@, i as int);
                lemma_split_prefix(cs@, i as int + 1, n as int);
                assert(cs@.take(n as int) =~= cs@);
            }
            line_no += 1;
            cur = Vec::new();
        } else {
            proof {
                assert(cs@.take(i as int + 1).drop_last() =~= cs@.take(i as int));
                lemma_split_lines_len(cs@.take(i as int));
                lemma_line_grows(cs@, i as int);
            }
            cur.push(cs[i]);
        }
        i += 1;
    }
    let line = match found {
        None => {
            proof {
                lemma_path_prefix(path@, "Go fuzz file has no value line"@);
            }
            return Err(Some(path_error(path, "Go fuzz file has no value line")));
        },
        Some(l) => l,
    };
    match value_body_exec(&line) {
        Some(body) => unquote_go_literal(body.as_str(), path),
        None => {
            let l = string_of(&line);
            let what = concat("unsupported Go fuzz value line: ", l.as_str());
            proof {
                lemma_path_prefix(path@, what@);
            }
            Err(Some(path_error(path, what.as_str())))
        },
    }
}

/// Read the bytes of a Go fuzz v1 file: the first non-blank line after
/// the header must be `[]byte("...")` or `string("...")`, whose body is
/// unquoted. An error names the file `path`.
pub fn parse_go_fuzz_v1(data: &[u8], path: &str) -> (r: Result<Vec<u8>, String>)
    requires
        valid_utf8(data@) ==> go_text_ok(decode_utf8(data@)),
    ensures
        !valid_utf8(data@) ==> r is Err,
        valid_utf8(data@) ==> match go_text_bytes(decode_utf8(data@)) {
            Some(b) => r matches Ok(v) && v@ == b,
            None => r is Err,
        },
        r matches Err(m) ==> path_prefixed(m@, path@),
{
    match go_fuzz_value(data, path) {
        Ok(v) => Ok(v),
        Err(Some(m)) => Err(m),
        Err(None) => {
            let m = path_error(path, "octal escape value above 255");
            proof {
                lemma_path_prefix(path@, "octal escape value above 255"@);
            }
            Err(m)
        },
    }
}


/// The first line of a Go fuzz v1 file, as bytes.
pub open spec fn go_header() -> Seq<u8> {
    encode_utf8("go test fuzz v1\n"@)
}

/// Whether a corpus file is a Go fuzz v1 file whose value holds an octal
/// escape above 255, which does not fit in a byte.
pub open spec fn octal_overflow(raw: Seq<u8>) -> bool {
    go_header().is_prefix_of(raw) && valid_utf8(raw) && !go_text_ok(decode_utf8(raw))
}

/// The tape a corpus file holds (see `parse_tape_bytes`), or none when its
/// Go fuzz value has an octal escape above 255.
pub fn parse_tape_bytes_checked(raw: &[u8], path: &str) -> (r: Option<Result<Vec<u8>, String>>)
    ensures
        r is None <==> octal_overflow(raw@),
        r matches Some(x) ==> {
            &&& !go_header().is_prefix_of(raw@) ==> (x matches Ok(v) && v@ == raw@)
            &&& go_header().is_prefix_of(raw@) ==> {
                &&& !valid_utf8(raw@) ==> x is Err
                &&& valid_utf8(raw@) ==> match go_text_bytes(decode_utf8(raw@)) {
                    Some(b) => x matches Ok(v) && v@ == b,
                    None => x is Err,
                }
            }
            &&& match x {
                Err(m) => path_prefixed(m@, path@),
                _ => true,
            }
        },
{
    let header = "go test fuzz v1\n".as_bytes();
    let mut is_go = header.len() <= raw.len();
    let mut i: usize = 0;
    while is_go && i < header.len()
        invariant
            0 <= i <= header@.len(),
            header@ == go_header(),
            is_go ==> header@.len() <= raw@.len() && forall|k: int| 0 <= k < i ==> raw@[k] == header@[k],
            !is_go ==> !go_header().is_prefix_of(raw@),
        decreases header@.len() - i,
    {
        if raw[i] != header[i] {
            is_go = false;
        }
        i += 1;
    }
    if is_go {
        assert(raw@.subrange(0, header@.len() as int) =~= header@);
        match go_fuzz_value(raw, path) {
            Ok(v) => Some(Ok(v)),
            Err(Some(m)) => Some(Err(m)),
            Err(None) => None,
        }
    } else {
        Some(Ok(vstd::slice::slice_to_vec(raw)))
    }
}

/// The tape a corpus file holds: the value of a Go fuzz v1 file (one that
/// starts with its header line), else the raw bytes themselves. An error
/// names the file `path`.
pub fn parse_tape_bytes(raw: &[u8], path: &str) -> (r: Result<Vec<u8>, String>)
    ensures
        !go_header().is_prefix_of(raw@) ==> (r matches Ok(v) && v@ == raw@),
        go_header().is_prefix_of(raw@) ==> {
            &&& !valid_utf8(raw@) ==> r is Err
            &&& valid_utf8(raw@) ==> match go_text_bytes(decode_utf8(raw@)) {
                Some(b) => r matches Ok(v) && v@ == b,
                None => r is Err,
            }
        },
        r matches Err(m) ==> path_prefixed(m@, path@),
{
    match parse_tape_bytes_checked(raw, path) {
        Some(x) => x,
        None => {
            let m = path_error(path, "octal escape value above 255");
            proof {
                lemma_path_prefix(path@, "octal escape value above 255"@);
            }
            Err(m)
        },
    }
}

} // verus!
