//! The cssparser fuzz target: decoded tapes are tokenized as CSS.
use vstd::prelude::*;
use crate::grammar::GrammarIr;
use crate::profile::ValidityMode;
use crate::engine_spec::grammar_valid;
use crate::fuzz_target::{decode_text, mode_profile};

verus! {

/// `cssparser::Parser::new` on the string, then `Parser::next` until it
/// reports an error or the end. Nothing is stated: the target is
/// exercised for its own failures.
#[verifier::external_body]
fn tokenize_css(s: &str) {
    let mut p = cssparser::Parser::new(s);
    while p.next().is_ok() {}
}

/// Decode `tape` with the CSS grammar under validity mode `mode` and
/// tokenize the text, when there is some.
pub fn run_with_mode(grammar: &GrammarIr, tape: &[u8], mode: ValidityMode)
    requires
        grammar_valid(*grammar),
{
    let profile = mode_profile(mode);
    if let Some(text) = decode_text(grammar, &profile, tape) {
        tokenize_css(text.as_str());
    }
}

} // verus!
