//! The outside functions that the replace loop relies on: KaTeX, which
//! typesets a formula, and the lossy UTF-8 decoder of the standard library.
//! Nothing in this file is proved; each contract says what is taken on trust.

use vstd::prelude::*;
use vstd::utf8::{decode_utf8, valid_utf8};

verus! {

/// The error type of the `katex` crate. Its contents are not looked into.
#[verifier::external_type_specification]
#[verifier::external_body]
pub struct ExKatexError(katex::Error);

/// Calls `katex::render_with_opts` on `input`, with options that set nothing
/// but the display mode. Nothing is claimed of what comes back. The markup
/// is KaTeX's business. Whether the call succeeds depends on more than the
/// formula: KaTeX runs in a JavaScript engine that is made once for each
/// thread, an engine that could not be made fails every call of its thread,
/// and the engine's stack limit is measured from where it was made, so that
/// one and the same call may fail further down the stack.
#[verifier::external_body]
pub(crate) fn katex_render(input: &str, block_mode: bool) -> (rendered: Result<
    String,
    katex::Error,
>) {
    let opts = katex::Opts::builder().display_mode(block_mode).build().unwrap();
    katex::render_with_opts(input, &opts)
}

/// The text of a KaTeX error, as its `Display` impl writes it. Nothing is
/// claimed of the text.
#[verifier::external_body]
pub(crate) fn failure_message(error: &katex::Error) -> (message: String) {
    format!("{}", error)
}

/// The text that `String::from_utf8_lossy` makes of `bytes`: their decoding,
/// with U+FFFD in the place of each invalid sequence.
pub uninterp spec fn lossy_text(bytes: Seq<u8>) -> Seq<char>;

/// `text` is what lossy decoding makes of `bytes`; of valid UTF-8 it makes
/// the plain decoding.
pub open spec fn decoded(bytes: Seq<u8>, text: Seq<char>) -> bool {
    &&& text == lossy_text(bytes)
    &&& valid_utf8(bytes) ==> text == decode_utf8(bytes)
}

/// Calls `String::from_utf8_lossy`. The result is a function of the bytes
/// alone, and for valid UTF-8 it is the plain decoding, as the standard
/// library documents.
#[verifier::external_body]
pub(crate) fn decode_lossy(bytes: &[u8]) -> (text: String)
    ensures
        text@ == lossy_text(bytes@),
        valid_utf8(bytes@) ==> text@ == decode_utf8(bytes@),
{
    String::from_utf8_lossy(bytes).into_owned()
}

} // verus!
