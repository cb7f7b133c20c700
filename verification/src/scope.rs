//! Boundary extraction: where a math scope that has just been opened ends.

use vstd::prelude::*;

verus! {

/// The delimiter byte, `$`.
pub const DOLLAR: u8 = 0x24;

/// The escape byte, `\`.
pub const BACKSLASH: u8 = 0x5c;

/// First byte of a closing HTML tag, `<`.
pub const LESS_THAN: u8 = 0x3c;

/// Second byte of a closing HTML tag, `/`.
pub const SLASH: u8 = 0x2f;

/// The width of a delimiter: 2 for `$$`, 1 for `$`.
pub open spec fn delimiter_width(block_mode: bool) -> int {
    if block_mode {
        2
    } else {
        1
    }
}

/// The delimiter itself.
pub open spec fn delimiter(block_mode: bool) -> Seq<u8> {
    if block_mode {
        seq![DOLLAR, DOLLAR]
    } else {
        seq![DOLLAR]
    }
}

/// A `$` stands directly behind position `i`.
pub open spec fn dollar_follows(text: Seq<u8>, i: int) -> bool {
    0 <= i + 1 < text.len() && text[i + 1] == DOLLAR
}

/// The byte at `i` is a backslash that escapes a `$`.
pub open spec fn escapes_dollar(text: Seq<u8>, i: int) -> bool {
    0 <= i < text.len() && text[i] == BACKSLASH && dollar_follows(text, i)
}

/// The byte at `i` is a `$` that directly follows a backslash, so it is no
/// delimiter candidate.
pub open spec fn escaped_at(text: Seq<u8>, i: int) -> bool {
    0 < i < text.len() && text[i] == DOLLAR && text[i - 1] == BACKSLASH
}

/// A closing delimiter starts at `i`: an unescaped `$`, which in block mode
/// must be followed by a second `$`.
pub open spec fn closes_at(text: Seq<u8>, block_mode: bool, i: int) -> bool {
    &&& 0 <= i < text.len()
    &&& text[i] == DOLLAR
    &&& !escaped_at(text, i)
    &&& block_mode ==> i + 1 < text.len() && text[i + 1] == DOLLAR
}

/// The pair `</` starts at `i`: the enclosing HTML element ends here, and no
/// scope may reach across it. A formula that holds a literal `</` is
/// therefore never found; that is the price for a scan that cannot run away
/// with the rest of the document behind a `$` that was never closed.
pub open spec fn stops_at(text: Seq<u8>, i: int) -> bool {
    0 <= i && i + 1 < text.len() && text[i] == LESS_THAN && text[i + 1] == SLASH
}

/// The scan cannot pass `i`: a scope either closes or is given up there.
pub open spec fn halts_at(text: Seq<u8>, block_mode: bool, i: int) -> bool {
    closes_at(text, block_mode, i) || stops_at(text, i)
}

/// `n` is the length of the scope that `text` begins with: the closing
/// delimiter starts at `n`, and nothing before it closes or stops the scan.
pub open spec fn is_scope_end(text: Seq<u8>, block_mode: bool, n: int) -> bool {
    &&& closes_at(text, block_mode, n)
    &&& forall|k: int| 0 <= k < n ==> !halts_at(text, block_mode, k)
}

/// The length of the scope that `text` begins with, if it begins with one.
/// `text` starts directly behind the opening delimiter.
pub open spec fn scope_end(text: Seq<u8>, block_mode: bool) -> Option<int> {
    if exists|n: int| is_scope_end(text, block_mode, n) {
        Some(choose|n: int| is_scope_end(text, block_mode, n))
    } else {
        None
    }
}

/// A text begins with at most one scope.
pub proof fn lemma_scope_end_unique(text: Seq<u8>, block_mode: bool, n: int, m: int)
    requires
        is_scope_end(text, block_mode, n),
        is_scope_end(text, block_mode, m),
    ensures
        n == m,
{
    if n < m {
        assert(halts_at(text, block_mode, n));
    } else if m < n {
        assert(halts_at(text, block_mode, m));
    }
}

/// What the scan finds behind an opening delimiter, stated both ways: `n`
/// is the end of the scope exactly when `scope_end` names it.
pub proof fn lemma_scope_end_is(text: Seq<u8>, block_mode: bool, n: int)
    ensures
        is_scope_end(text, block_mode, n) <==> scope_end(text, block_mode) == Some(n),
{
    if is_scope_end(text, block_mode, n) {
        let m = choose|m: int| is_scope_end(text, block_mode, m);
        lemma_scope_end_unique(text, block_mode, n, m);
    }
}

/// No byte of `bytes` is a `$`.
pub open spec fn dollar_free(bytes: Seq<u8>) -> bool {
    forall|k: int| 0 <= k < bytes.len() ==> bytes[k] != DOLLAR
}

/// Without a `$` nothing closes a scope.
pub proof fn lemma_never_closed(body: Seq<u8>, block_mode: bool)
    requires
        dollar_free(body),
    ensures
        scope_end(body, block_mode) is None,
{
    assert forall|n: int| !is_scope_end(body, block_mode, n) by {}
}

/// `</` before any closing delimiter: the scan for the end of the scope is
/// given up, in either mode.
pub proof fn lemma_closing_tag_stops(body: Seq<u8>, rest: Seq<u8>, block_mode: bool)
    requires
        dollar_free(body),
    ensures
        scope_end(body + seq![LESS_THAN, SLASH] + rest, block_mode) is None,
{
    let text = body + seq![LESS_THAN, SLASH] + rest;
    let at = body.len() as int;
    assert forall|n: int| !is_scope_end(text, block_mode, n) by {
        if closes_at(text, block_mode, n) && n >= at {
            assert(halts_at(text, block_mode, at));
        }
    }
}

/// Every `$` of `bytes` stands behind a backslash.
pub open spec fn no_bare_dollar(bytes: Seq<u8>) -> bool {
    forall|k: int| 0 <= k < bytes.len() && bytes[k] == DOLLAR ==> escaped_at(bytes, k)
}

/// A formula is closed by the delimiter that follows it, and is extracted as
/// it is written, where each `$` of it is escaped, it holds no `</`, and it
/// does not end in a backslash.
pub proof fn lemma_formula_closes(formula: Seq<u8>, block_mode: bool, rest: Seq<u8>)
    requires
        no_bare_dollar(formula),
        forall|k: int| !stops_at(formula, k),
        formula.len() > 0 ==> formula.last() != BACKSLASH,
    ensures
        is_scope_end(formula + delimiter(block_mode) + rest, block_mode, formula.len() as int),
{
    let text = formula + delimiter(block_mode) + rest;
    let n = formula.len() as int;
    assert forall|k: int| 0 <= k < n implies !halts_at(text, block_mode, k) by {
        if text[k] == DOLLAR {
            assert(escaped_at(formula, k));
        }
        if k + 1 < n {
            assert(!stops_at(formula, k));
        }
    }
}

/// Extracts the contents of a scope whose opening delimiter has just been
/// read: `text` starts behind that delimiter. In block mode the scope is
/// closed by `$$`, otherwise by `$`; a `$` behind a backslash closes nothing.
/// The contents are returned without the closing delimiter and with their
/// escapes untouched. `None` is returned when `</` or the end of `text` comes
/// before a closing delimiter.
pub fn extract_tex_math<'a>(text: &'a [u8], block_mode: bool) -> (contents: Option<&'a [u8]>)
    ensures
        match contents {
            Some(c) => is_scope_end(text@, block_mode, c@.len() as int) && c@ == text@.take(
                c@.len() as int,
            ),
            None => forall|n: int| !is_scope_end(text@, block_mode, n),
        },
        scope_end(text@, block_mode) == match contents {
            Some(c) => Some(c@.len() as int),
            None => None,
        },
{
    let len = text.len();
    let mut i: usize = 0;
    loop
        invariant
            len == text@.len(),
            i <= len,
            !escaped_at(text@, i as int),
            forall|k: int| 0 <= k < i ==> !halts_at(text@, block_mode, k),
        ensures
            is_scope_end(text@, block_mode, i as int),
        decreases len - i,
    {
        if i >= len {
            assert forall|n: int| !is_scope_end(text@, block_mode, n) by {
                if 0 <= n < len {
                    assert(!halts_at(text@, block_mode, n));
                }
            }
            return None;
        }
        let here = text[i];
        let has_next = i + 1 < len;
        let next_is_dollar = has_next && text[i + 1] == DOLLAR;
        if here == DOLLAR && (!block_mode || next_is_dollar) {
            break;
        } else if here == BACKSLASH && next_is_dollar {
            i += 2;
        } else if here == LESS_THAN && has_next && text[i + 1] == SLASH {
            assert forall|n: int| !is_scope_end(text@, block_mode, n) by {
                assert(halts_at(text@, block_mode, i as int));
                if 0 <= n < i {
                    assert(!halts_at(text@, block_mode, n));
                }
            }
            return None;
        } else if block_mode && !has_next {
            assert forall|n: int| !is_scope_end(text@, block_mode, n) by {
                if 0 <= n < i {
                    assert(!halts_at(text@, block_mode, n));
                }
            }
            return None;
        } else {
            i += 1;
        }
    }
    proof {
        lemma_scope_end_is(text@, block_mode, i as int);
    }
    Some(&text[0..i])
}

} // verus!
