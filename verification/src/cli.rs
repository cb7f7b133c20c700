//! What a run is asked to do: the arguments, and the outputs that follow
//! from them.

use vstd::prelude::*;
use vstd::string::StringExecFns;
use vstd::utf8::{
    encode_utf8, encode_utf8_decode_utf8, encode_utf8_valid_utf8, is_ascii_chars,
    is_ascii_chars_encode_utf8,
};
use crate::render::decode_lossy;

verus! {

/// The arguments of a run.
#[derive(Debug, Clone)]
pub struct CliArgs {
    /// The input Markdown file
    pub input: String,
    /// Converted HTML output
    pub html_out: Option<String>,
    /// Converted PDF output
    pub pdf_out: Option<String>,
}

/// The outputs of a run, each with the path that it goes to.
#[derive(Debug, Clone, PartialEq, Eq)]
pub enum Outputs {
    /// No output was asked for: nothing is written.
    Nothing,
    /// The HTML file alone.
    Html { html: String },
    /// The PDF file alone. It is printed from an HTML file, so the HTML goes
    /// to a temporary file that is removed afterwards.
    Pdf { pdf: String },
    /// The HTML file, and the PDF file printed from it.
    HtmlAndPdf { html: String, pdf: String },
}

impl CliArgs {
    /// The outputs that these arguments ask for.
    pub open spec fn spec_outputs(&self) -> Outputs {
        match (self.html_out, self.pdf_out) {
            (Some(html), Some(pdf)) => Outputs::HtmlAndPdf { html, pdf },
            (Some(html), None) => Outputs::Html { html },
            (None, Some(pdf)) => Outputs::Pdf { pdf },
            (None, None) => Outputs::Nothing,
        }
    }

    /// The outputs that these arguments ask for.
    #[verifier::when_used_as_spec(spec_outputs)]
    pub fn outputs(&self) -> (outputs: Outputs)
        ensures
            outputs == self.spec_outputs(),
    {
        match (&self.html_out, &self.pdf_out) {
            (Some(html), Some(pdf)) => Outputs::HtmlAndPdf { html: html.clone(), pdf: pdf.clone() },
            (Some(html), None) => Outputs::Html { html: html.clone() },
            (None, Some(pdf)) => Outputs::Pdf { pdf: pdf.clone() },
            (None, None) => Outputs::Nothing,
        }
    }
}

/// The decimal digit `d` as a character.
pub open spec fn digit(d: nat) -> char
    recommends
        d < 10,
{
    ((0x30 + d) as u8) as char
}

/// `n` in decimal, without leading zeros.
pub open spec fn decimal(n: nat) -> Seq<char>
    decreases n,
{
    if n < 10 {
        seq![digit(n)]
    } else {
        decimal(n / 10).push(digit(n % 10))
    }
}

/// The name of the temporary HTML file with the number `nonce`.
pub open spec fn temp_name(nonce: u64) -> Seq<char> {
    "temp-html-pdf-"@ + decimal(nonce as nat) + ".html"@
}

/// The bytes of some characters that are all ASCII.
spec fn ascii_bytes(chars: Seq<char>) -> Seq<u8> {
    Seq::new(chars.len(), |i: int| chars[i] as u8)
}

proof fn lemma_decimal_ascii(n: nat)
    ensures
        is_ascii_chars(decimal(n)),
    decreases n,
{
    if n >= 10 {
        lemma_decimal_ascii(n / 10);
    }
}

fn push_decimal(digits: &mut Vec<u8>, n: u64)
    ensures
        final(digits)@ == old(digits)@ + ascii_bytes(decimal(n as nat)),
    decreases n,
{
    if n >= 10 {
        push_decimal(digits, n / 10);
    }
    let d: u8 = (n % 10) as u8;
    digits.push(0x30 + d);
    proof {
        if n >= 10 {
            assert(ascii_bytes(decimal(n as nat)) =~= ascii_bytes(decimal(n as nat / 10)).push(
                digit(n as nat % 10) as u8,
            ));
        }
        assert(digit(n as nat % 10) as u8 == 0x30 + d);
        assert(final(digits)@ =~= old(digits)@ + ascii_bytes(decimal(n as nat)));
    }
}

/// The name of the temporary HTML file with the number `nonce`:
/// `temp-html-pdf-`, the number in decimal, `.html`.
pub fn temp_html_name(nonce: u64) -> (name: String)
    ensures
        name@ == temp_name(nonce),
{
    let mut digits: Vec<u8> = Vec::new();
    push_decimal(&mut digits, nonce);
    proof {
        let chars = decimal(nonce as nat);
        lemma_decimal_ascii(nonce as nat);
        is_ascii_chars_encode_utf8(chars);
        encode_utf8_valid_utf8(chars);
        encode_utf8_decode_utf8(chars);
        assert(digits@ =~= encode_utf8(chars));
    }
    let number = decode_lossy(digits.as_slice());
    let name = String::from_str("temp-html-pdf-");
    let name = name.concat(number.as_str());
    name.concat(".html")
}

/// A number to tell one run's temporary file from another's. Calls
/// `rand::random`; any number may come back.
#[verifier::external_body]
fn random_nonce() -> (nonce: u64) {
    rand::random::<u64>()
}

/// A name for a temporary HTML file that no other run is likely to use: the
/// name of a number drawn at random.
pub fn fresh_temp_html_name() -> (name: String)
    ensures
        exists|nonce: u64| name@ == #[trigger] temp_name(nonce),
{
    temp_html_name(random_nonce())
}

} // verus!
