//! Decoding JSON string literals with escapes, which `serde_json` does.

use vstd::prelude::*;

verus! {

/// The string that the JSON string literal `literal` (quotes included)
/// denotes, as `serde_json::from_str::<String>` decodes it, or `None` where
/// that function refuses the literal.
pub uninterp spec fn json_string_value(literal: Seq<char>) -> Option<Seq<char>>;

/// Calls `serde_json::from_str::<String>` on a string literal. Trusted: the
/// result is `Ok` exactly when the decoder accepts the literal, and then it is
/// the decoded string; both are given by the name `json_string_value`, which
/// depends on the literal alone. On refusal, the decoder's message is handed
/// back, and nothing is claimed of its text.
#[verifier::external_body]
pub(crate) fn decode_string_literal(literal: &str) -> (res: Result<String, String>)
    ensures
        match res {
            Ok(v) => json_string_value(literal@) == Some(v@),
            Err(_) => json_string_value(literal@) is None,
        },
{
    serde_json::from_str::<String>(literal).map_err(|e| e.to_string())
}

} // verus!
