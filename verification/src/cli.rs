//! What the command-line front end decides: which front end compiles a
//! grammar file, which rule starts, which profile applies, and how tapes
//! are written as hex.
use vstd::prelude::*;
use vstd::string::StringSliceAdditionalSpecFns;
use vstd::utf8::encode_utf8;
use crate::ids::ProductionId;
use crate::grammar::GrammarIr;
use crate::parse_error::ParseError;
use crate::profile::Profile;
use crate::corpus::{trim_spec, trimmed};
use crate::text::{chars_of, string_of};
use crate::raw::{RawRule, RawItem, rules_view};
use crate::ir_builder::{built_ok, rules_ready};
use crate::ebnf::ebnf_rules;
use crate::peg::peg_rules;
use crate::antlr::{antlr_rules, first_parser_rule};

verus! {

/// The grammar notations a file can be written in.
#[derive(Debug, Clone, Copy, PartialEq, Eq, Structural)]
pub enum GrammarFormat {
    Ebnf,
    Antlr,
    Peg,
}

/// The notation of a grammar file by its extension: `g4` is ANTLR v4,
/// `peg` is PEG, anything else EBNF.
pub open spec fn format_spec(ext: Seq<char>) -> GrammarFormat {
    if ext == "g4"@ {
        GrammarFormat::Antlr
    } else if ext == "peg"@ {
        GrammarFormat::Peg
    } else {
        GrammarFormat::Ebnf
    }
}

pub fn format_of_extension(ext: &str) -> (f: GrammarFormat)
    ensures
        f == format_spec(ext@),
{
    let e = String::from_str(ext);
    if e == String::from_str("g4") {
        GrammarFormat::Antlr
    } else if e == String::from_str("peg") {
        GrammarFormat::Peg
    } else {
        GrammarFormat::Ebnf
    }
}

/// Compile a grammar source in the given notation.
pub fn compile_grammar(format: GrammarFormat, source: &str) -> (r: Result<GrammarIr, ParseError>)
    requires
        source@.len() < usize::MAX / 4,
    ensures
        source@.len() == 0 ==> (r matches Err(e) && e.message@ == "empty grammar"@),
        format == GrammarFormat::Ebnf ==> {
            &&& ebnf_rules(source@) is None ==> r is Err
            &&& (ebnf_rules(source@) matches Some(rs) && rules_ready(rs) ==> r is Ok)
            &&& (ebnf_rules(source@) matches Some(rs) && crate::ebnf::names_repeat(rs) && rs.len() < u32::MAX ==> r is Err)
            &&& (r matches Ok(ir) ==> exists|rules: Seq<RawRule<RawItem>>| rules.len() > 0
                && ebnf_rules(source@) == Some(rules_view(rules)) && #[trigger] built_ok(rules, ProductionId(0), ir))
        },
        format == GrammarFormat::Peg ==> {
            &&& peg_rules(source@) is None ==> r is Err
            &&& (peg_rules(source@) matches Some(rs) && rules_ready(rs) ==> r is Ok)
            &&& (peg_rules(source@) matches Some(rs) && crate::peg::names_repeat(rs) && rs.len() < u32::MAX ==> r is Err)
            &&& (r matches Ok(ir) ==> exists|rules: Seq<RawRule<RawItem>>| rules.len() > 0
                && peg_rules(source@) == Some(rules_view(rules)) && #[trigger] built_ok(rules, ProductionId(0), ir))
        },
        format == GrammarFormat::Antlr ==> {
            &&& antlr_rules(source@) is None ==> r is Err
            &&& (antlr_rules(source@) matches Some(rs) && rules_ready(rs) ==> r is Ok)
            &&& (antlr_rules(source@) matches Some(rs) && crate::antlr::names_repeat(rs) && rs.len() < u32::MAX ==> r is Err)
            &&& (r matches Ok(ir) ==> exists|rules: Seq<RawRule<RawItem>>| rules.len() > 0
                && antlr_rules(source@) == Some(rules_view(rules))
                && #[trigger] built_ok(rules, ProductionId(first_parser_rule(rules, 0) as u32), ir))
        },
{
    match format {
        GrammarFormat::Antlr => crate::antlr::compile(source),
        GrammarFormat::Peg => crate::peg::compile(source),
        GrammarFormat::Ebnf => crate::ebnf::compile(source),
    }
}

/// The first production named `n` among `ps[k..]`, by index.
pub open spec fn first_named(g: GrammarIr, n: Seq<char>, k: int) -> Option<int>
    decreases g.productions@.len() - k,
{
    if k < 0 || k >= g.productions@.len() {
        None
    } else if g.productions@[k].name@ == n {
        Some(k)
    } else {
        first_named(g, n, k + 1)
    }
}

/// The id of the first production called `name`, if any.
pub fn find_production(grammar: &GrammarIr, name: &str) -> (r: Option<ProductionId>)
    ensures
        match first_named(*grammar, name@, 0) {
            Some(i) => r == Some(grammar.productions@[i].id),
            None => r is None,
        },
{
    let key = String::from_str(name);
    let mut i: usize = 0;
    while i < grammar.productions.len()
        invariant
            0 <= i <= grammar.productions@.len(),
            key@ == name@,
            first_named(*grammar, name@, 0) == first_named(*grammar, name@, i as int),
        decreases grammar.productions@.len() - i,
    {
        if grammar.productions[i].name == key {
            return Some(grammar.productions[i].id);
        }
        i += 1;
    }
    None
}

/// The profile for a run: the default one, with the depth limit replaced
/// when one is given.
pub fn cli_profile(max_depth: Option<u32>) -> (p: Profile)
    ensures
        p.max_depth == match max_depth {
            Some(d) => d,
            None => 20u32,
        },
        p.max_total_nodes == 10_000,
        p.repetition_bounds == (0u32, 5u32),
        p.dictionary@.len() == 0,
{
    match max_depth {
        Some(d) => Profile::builder().max_depth(d).build(),
        None => Profile::default_profile(),
    }
}

/// The lowercase hex digit of a value below 16.
pub open spec fn hex_digit_spec(v: int) -> char {
    if v < 10 {
        (('0' as int) + v) as char
    } else {
        (('a' as int) + v - 10) as char
    }
}

/// Two lowercase hex digits per byte.
pub open spec fn hex_spec(bytes: Seq<u8>) -> Seq<char>
    decreases bytes.len(),
{
    if bytes.len() == 0 {
        seq![]
    } else {
        hex_spec(bytes.drop_last()) + seq![hex_digit_spec(bytes.last() as int / 16), hex_digit_spec(bytes.last() as int % 16)]
    }
}

/// `hex::encode`: the bytes as lowercase hex, two digits each.
#[verifier::external_body]
fn encode_hex(bytes: &[u8]) -> (s: String)
    ensures
        s@ == hex_spec(bytes@),
{
    hex::encode(bytes)
}

/// The value of a hex digit byte (either case), or -1.
pub open spec fn hex_byte_val(b: u8) -> int {
    if 48 <= b <= 57 {
        b - 48
    } else if 97 <= b <= 102 {
        b - 87
    } else if 65 <= b <= 70 {
        b - 55
    } else {
        -1
    }
}

/// The bytes that hex text (of UTF-8 bytes `t`) stands for, none unless
/// its length is even and every byte is a hex digit.
pub open spec fn unhex_spec(t: Seq<u8>) -> Option<Seq<u8>>
    decreases t.len(),
{
    if t.len() == 0 {
        Some(seq![])
    } else if t.len() == 1 || hex_byte_val(t[0]) < 0 || hex_byte_val(t[1]) < 0 {
        None
    } else {
        match unhex_spec(t.skip(2)) {
            Some(rest) => Some(seq![(hex_byte_val(t[0]) * 16 + hex_byte_val(t[1])) as u8] + rest),
            None => None,
        }
    }
}

/// `hex::decode`: the bytes of hex text, or the error's `Display` text
/// (of which nothing is stated).
#[verifier::external_body]
fn decode_hex(text: &str) -> (r: Result<Vec<u8>, String>)
    ensures
        match unhex_spec(encode_utf8(text@)) {
            Some(b) => r matches Ok(v) && v@ == b,
            None => r is Err,
        },
{
    match hex::decode(text) {
        Ok(v) => Ok(v),
        Err(e) => Err(e.to_string()),
    }
}

/// A tape written as hex, as `--emit-tape` prints it.
pub fn tape_to_hex(bytes: &[u8]) -> (s: String)
    ensures
        s@ == hex_spec(bytes@),
{
    encode_hex(bytes)
}

/// The tape a hex argument stands for: surrounding whitespace is ignored.
pub fn tape_from_hex(text: &str) -> (r: Result<Vec<u8>, String>)
    ensures
        match unhex_spec(encode_utf8(trim_spec(text@))) {
            Some(b) => r matches Ok(v) && v@ == b,
            None => r is Err,
        },
{
    let cs = chars_of(text);
    let t = trimmed(&cs);
    let s = string_of(&t);
    decode_hex(s.as_str())
}

} // verus!
