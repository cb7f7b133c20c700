//! Escapes that are written before the pass runs, so that it finds `\$`
//! where a literal dollar is meant.

use vstd::prelude::*;
use vstd::utf8::{decode_utf8, encode_utf8, encode_utf8_valid_utf8, valid_utf8};
use crate::encoding::lemma_backslash_keeps_valid;
use crate::render::decode_lossy;
use crate::scope::{escapes_dollar, BACKSLASH, DOLLAR};

verus! {

/// The first `n` bytes of `text`, each backslash that escapes a `$` written
/// twice.
pub open spec fn doubled_upto(text: Seq<u8>, n: int) -> Seq<u8>
    decreases n,
{
    if n <= 0 {
        Seq::empty()
    } else if escapes_dollar(text, n - 1) {
        doubled_upto(text, n - 1).push(BACKSLASH).push(BACKSLASH)
    } else {
        doubled_upto(text, n - 1).push(text[n - 1])
    }
}

/// `text` with `\$` written as `\\$` throughout.
pub open spec fn escapes_doubled(text: Seq<u8>) -> Seq<u8> {
    doubled_upto(text, text.len() as int)
}

/// The first `n` bytes of `text`, with a backslash before each `$`.
pub open spec fn escaped_upto(text: Seq<u8>, n: int) -> Seq<u8>
    decreases n,
{
    if n <= 0 {
        Seq::empty()
    } else if text[n - 1] == DOLLAR {
        escaped_upto(text, n - 1).push(BACKSLASH).push(DOLLAR)
    } else {
        escaped_upto(text, n - 1).push(text[n - 1])
    }
}

/// `text` with `$` written as `\$` throughout.
pub open spec fn dollars_escaped(text: Seq<u8>) -> Seq<u8> {
    escaped_upto(text, text.len() as int)
}

fn double_escapes_in(text: &[u8]) -> (doubled: Vec<u8>)
    ensures
        doubled@ == escapes_doubled(text@),
        valid_utf8(text@) ==> valid_utf8(doubled@),
{
    let len = text.len();
    let mut doubled: Vec<u8> = Vec::with_capacity(len);
    let mut i: usize = 0;
    proof {
        assert(doubled@ + text@.skip(0) =~= text@);
    }
    while i < len
        invariant
            len == text@.len(),
            i <= len,
            doubled@ == doubled_upto(text@, i as int),
            valid_utf8(text@) ==> valid_utf8(doubled@ + text@.skip(i as int)),
        decreases len - i,
    {
        let ghost before = doubled@;
        let here = text[i];
        if here == BACKSLASH && i + 1 < len && text[i + 1] == DOLLAR {
            doubled.push(BACKSLASH);
            proof {
                if valid_utf8(text@) {
                    lemma_backslash_keeps_valid(before, text@.skip(i as int));
                }
            }
        }
        let ghost inserted = doubled@;
        doubled.push(here);
        i += 1;
        proof {
            assert(doubled@ + text@.skip(i as int) =~= inserted + text@.skip(i - 1));
        }
    }
    proof {
        assert(doubled@ + text@.skip(i as int) =~= doubled@);
    }
    doubled
}

fn escape_dollars_in(text: &[u8]) -> (escaped: Vec<u8>)
    ensures
        escaped@ == dollars_escaped(text@),
        valid_utf8(text@) ==> valid_utf8(escaped@),
{
    let len = text.len();
    let mut escaped: Vec<u8> = Vec::with_capacity(len);
    let mut i: usize = 0;
    proof {
        assert(escaped@ + text@.skip(0) =~= text@);
    }
    while i < len
        invariant
            len == text@.len(),
            i <= len,
            escaped@ == escaped_upto(text@, i as int),
            valid_utf8(text@) ==> valid_utf8(escaped@ + text@.skip(i as int)),
        decreases len - i,
    {
        let ghost before = escaped@;
        let here = text[i];
        if here == DOLLAR {
            escaped.push(BACKSLASH);
            proof {
                if valid_utf8(text@) {
                    lemma_backslash_keeps_valid(before, text@.skip(i as int));
                }
            }
        }
        let ghost inserted = escaped@;
        escaped.push(here);
        i += 1;
        proof {
            assert(escaped@ + text@.skip(i as int) =~= inserted + text@.skip(i - 1));
        }
    }
    proof {
        assert(escaped@ + text@.skip(i as int) =~= escaped@);
    }
    escaped
}

/// Doubles the backslash of every `\$` in a markdown source: `\$` becomes
/// `\\$`. The markdown converter takes one backslash of the two away again,
/// so that the pass over its HTML still finds `\$`. To be applied once,
/// before the conversion.
pub fn double_dollar_escapes(markdown: &str) -> (doubled: String)
    ensures
        encode_utf8(doubled@) == escapes_doubled(encode_utf8(markdown@)),
        doubled@ == decode_utf8(escapes_doubled(encode_utf8(markdown@))),
{
    let bytes = double_escapes_in(markdown.as_bytes());
    proof {
        encode_utf8_valid_utf8(markdown@);
        vstd::utf8::decode_utf8_encode_utf8(bytes@);
    }
    decode_lossy(bytes.as_slice())
}

/// Puts a backslash before every `$` of a piece of code, so that the pass
/// takes none of them for a delimiter and writes each as a plain `$`.
pub fn escape_code_dollars(code: &str) -> (escaped: String)
    ensures
        encode_utf8(escaped@) == dollars_escaped(encode_utf8(code@)),
        escaped@ == decode_utf8(dollars_escaped(encode_utf8(code@))),
{
    let bytes = escape_dollars_in(code.as_bytes());
    proof {
        encode_utf8_valid_utf8(code@);
        vstd::utf8::decode_utf8_encode_utf8(bytes@);
    }
    decode_lossy(bytes.as_slice())
}

} // verus!
