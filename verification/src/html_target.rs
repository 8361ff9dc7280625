//! The html5ever fuzz target: decoded tapes, raw strings and raw bytes are
//! parsed as HTML documents.
use vstd::prelude::*;
use html5ever::tendril::TendrilSink;
use crate::grammar::GrammarIr;
use crate::profile::ValidityMode;
use crate::engine_spec::grammar_valid;
use crate::fuzz_target::{decode_text, mode_profile};

verus! {

/// `html5ever::parse_document` into a `markup5ever_rcdom::RcDom`, on the
/// whole string at once; the tree is dropped. Nothing is stated: the
/// target is exercised for its own failures.
#[verifier::external_body]
fn parse_html(s: &str) {
    let _ = html5ever::parse_document(markup5ever_rcdom::RcDom::default(), html5ever::ParseOpts::default()).one(s);
}

/// `std::str::from_utf8`, owned; none for invalid UTF-8.
#[verifier::external_body]
fn text_if_utf8(bytes: &[u8]) -> (r: Option<String>)
    ensures
        r is Some <==> vstd::utf8::valid_utf8(bytes@),
        r matches Some(s) ==> s@ == vstd::utf8::decode_utf8(bytes@),
{
    match std::str::from_utf8(bytes) {
        Ok(s) => Some(s.to_string()),
        Err(_) => None,
    }
}

/// Decode `tape` with the HTML grammar under validity mode `mode` and parse
/// the text, when there is some.
pub fn run_with_mode(grammar: &GrammarIr, tape: &[u8], mode: ValidityMode)
    requires
        grammar_valid(*grammar),
{
    let profile = mode_profile(mode);
    if let Some(text) = decode_text(grammar, &profile, tape) {
        parse_html(text.as_str());
    }
}

/// Parse a string as HTML.
pub fn run_str(s: &str) {
    parse_html(s);
}

/// Parse bytes as HTML when they are UTF-8.
pub fn run_raw(data: &[u8]) {
    if let Some(text) = text_if_utf8(data) {
        parse_html(text.as_str());
    }
}

} // verus!
