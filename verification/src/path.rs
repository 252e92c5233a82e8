//! Path parameters of requests.

use vstd::prelude::*;
use vstd::string::*;

verus! {

/// The text that percent-decoding gives for `raw`: every `%` that two
/// hexadecimal digits follow stands for the byte they name, and the bytes
/// are read as UTF-8 with a replacement character for each invalid sequence.
pub uninterp spec fn percent_decoded(raw: Seq<char>) -> Seq<char>;

/// Calls `percent_encoding::percent_decode_str` and then `decode_utf8_lossy`
/// on its result. The contract claims that the text returned depends on the
/// text given alone, and calls it `percent_decoded`.
#[verifier::external_body]
fn percent_decode_lossy(raw: &str) -> (decoded: String)
    ensures
        decoded@ == percent_decoded(raw@),
{
    percent_encoding::percent_decode_str(raw).decode_utf8_lossy().to_string()
}

/// Decodes a path parameter before it is used as an identifier.
pub fn decode_path_param(raw: &str) -> (id: String)
    ensures
        id@ == percent_decoded(raw@),
{
    percent_decode_lossy(raw)
}

} // verus!
