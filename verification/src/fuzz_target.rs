//! Fuzz-target helpers: decode a tape with a grammar into text, and hand
//! the text to a parser under test (an HTML tree builder, a CSS tokenizer).
use vstd::prelude::*;
use vstd::utf8::{valid_utf8, decode_utf8};
use crate::ast::{flatten, AstV};
use crate::grammar::GrammarIr;
use crate::profile::{Profile, ValidityMode};
use crate::decode::decode;
use crate::engine_spec::{dec_prod, init_state};
use crate::engine_spec::{grammar_valid, profile_valid};

verus! {

/// The text a tape decodes to under `g` and `p`: the serialized tree, when
/// decoding succeeds and its bytes are UTF-8.
pub open spec fn decoded_text(g: GrammarIr, p: Profile, t: Seq<u8>) -> Option<Seq<char>> {
    let (st, r) = dec_prod(g, p, t, g.start, 0, init_state(()));
    match r {
        Ok(root) => {
            let bytes = flatten(st.nodes, root, st.nodes.len() as nat);
            if valid_utf8(bytes) {
                Some(decode_utf8(bytes))
            } else {
                None
            }
        },
        Err(_) => None,
    }
}

/// `std::str::from_utf8`, the text owned; none for invalid UTF-8.
#[verifier::external_body]
fn utf8_text(bytes: &[u8]) -> (r: Option<String>)
    ensures
        r is Some <==> valid_utf8(bytes@),
        r matches Some(s) ==> s@ == decode_utf8(bytes@),
{
    match std::str::from_utf8(bytes) {
        Ok(s) => Some(s.to_string()),
        Err(_) => None,
    }
}

/// Decode a tape into text: none for an empty tape, a tape that does not
/// decode, or output that is not UTF-8.
pub fn decode_text(grammar: &GrammarIr, profile: &Profile, tape: &[u8]) -> (r: Option<String>)
    requires
        grammar_valid(*grammar),
        profile_valid(*profile),
    ensures
        tape@.len() == 0 ==> r is None,
        tape@.len() > 0 ==> match decoded_text(*grammar, *profile, tape@) {
            Some(s) => r matches Some(v) && v@ == s,
            None => r is None,
        },
{
    if tape.len() == 0 {
        return None;
    }
    match decode(grammar, profile, tape) {
        Ok((ast, _map)) => {
            let bytes = ast.serialize();
            utf8_text(bytes.as_slice())
        },
        Err(_) => None,
    }
}

/// The default profile with validity mode `mode`.
pub fn mode_profile(mode: ValidityMode) -> (p: Profile)
    ensures
        p.validity_mode == mode,
        p.max_depth == 20,
        p.max_total_nodes == 10_000,
        p.repetition_bounds == (0u32, 5u32),
        p.dictionary@.len() == 0,
        profile_valid(p),
{
    Profile::builder().validity_mode(mode).build()
}

} // verus!
