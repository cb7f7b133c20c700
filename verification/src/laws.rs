//! What holds of the tokens and of the output for every buffer.

use vstd::prelude::*;
use crate::escape::{dollars_escaped, escaped_upto};
use crate::scope::{
    delimiter, delimiter_width, dollar_follows, dollar_free, halts_at, is_scope_end,
    lemma_closing_tag_stops, lemma_formula_closes, lemma_never_closed, lemma_scope_end_is,
    no_bare_dollar, scope_end, stops_at, BACKSLASH, DOLLAR, LESS_THAN, SLASH,
};
use crate::tokens::{
    assembled, formulas, lemma_behind_literal, lemma_behind_scope, lemma_formulas_behind_scope,
    lemma_tokens_from_skip, replaced, scopes, token_at, tokens, tokens_from, Formula, Token,
};

verus! {

/// One `Byte` token for each of `bytes`.
pub open spec fn byte_tokens(bytes: Seq<u8>) -> Seq<Token> {
    Seq::new(bytes.len(), |k: int| Token::Byte(bytes[k]))
}

/// A stretch without `$` is copied byte by byte, whatever follows it, unless
/// it ends in a backslash that escapes a `$` behind it.
pub proof fn lemma_plain_prefix(prefix: Seq<u8>, rest: Seq<u8>, markups: Seq<Seq<u8>>)
    requires
        dollar_free(prefix),
        !(prefix.len() > 0 && prefix.last() == BACKSLASH && rest.len() > 0 && rest[0] == DOLLAR),
    ensures
        tokens(prefix + rest) == byte_tokens(prefix) + tokens(rest),
        scopes(prefix + rest) == scopes(rest),
        replaced(prefix + rest, markups) == prefix + replaced(rest, markups),
    decreases prefix.len(),
{
    if prefix.len() > 0 {
        let text = prefix + rest;
        let tail = prefix.skip(1);
        lemma_tokens_from_skip(text, 1, 0);
        assert(text.skip(1) =~= tail + rest);
        lemma_plain_prefix(tail, rest, markups);
        lemma_behind_literal(Token::Byte(prefix[0]), tokens(tail + rest), markups);
    }
}

/// A buffer without `$` holds no scope and passes unchanged.
pub proof fn lemma_without_dollar(text: Seq<u8>, markups: Seq<Seq<u8>>)
    requires
        dollar_free(text),
    ensures
        scopes(text).len() == 0,
        replaced(text, markups) == text,
{
    lemma_plain_prefix(text, Seq::empty(), markups);
}

/// `\$` behind a stretch without `$` becomes a single `$`, and the pass
/// goes on behind it as on a buffer of its own.
pub proof fn lemma_escaped_dollar(prefix: Seq<u8>, rest: Seq<u8>, markups: Seq<Seq<u8>>)
    requires
        dollar_free(prefix),
    ensures
        scopes(prefix + seq![BACKSLASH, DOLLAR] + rest) == scopes(rest),
        replaced(prefix + seq![BACKSLASH, DOLLAR] + rest, markups) == prefix + seq![DOLLAR]
            + replaced(rest, markups),
{
    let tail = seq![BACKSLASH, DOLLAR] + rest;
    lemma_tokens_from_skip(tail, 2, 0);
    assert(tail.skip(2) =~= rest);
    lemma_behind_literal(Token::EscapedDollar, tokens(rest), markups);
    lemma_plain_prefix(prefix, tail, markups);
    assert(prefix + seq![BACKSLASH, DOLLAR] + rest =~= prefix + tail);
}

/// A scope at the head of a buffer: its formula is what stands between the
/// delimiters, its place in the output is taken by the first markup, and the
/// pass goes on behind the closing delimiter as on a buffer of its own.
pub proof fn lemma_scope_replaced(
    formula: Seq<u8>,
    block_mode: bool,
    rest: Seq<u8>,
    markups: Seq<Seq<u8>>,
)
    requires
        is_scope_end(formula + delimiter(block_mode) + rest, block_mode, formula.len() as int),
        !block_mode ==> formula.len() > 0,
        markups.len() == scopes(rest).len() + 1,
    ensures
        scopes(delimiter(block_mode) + formula + delimiter(block_mode) + rest) == seq![
            Formula { source: formula, block_mode },
        ] + scopes(rest),
        replaced(delimiter(block_mode) + formula + delimiter(block_mode) + rest, markups)
            == markups[0] + replaced(rest, markups.skip(1)),
{
    let inner = formula + delimiter(block_mode) + rest;
    let text = delimiter(block_mode) + formula + delimiter(block_mode) + rest;
    let n = formula.len() as int;
    let w = delimiter_width(block_mode);
    let token = Token::Math { formula, block_mode };
    if !block_mode {
        assert(!halts_at(inner, block_mode, 0));
    }
    assert(text.skip(w) =~= inner);
    lemma_scope_end_is(inner, block_mode, n);
    assert(text.subrange(w, w + n) =~= formula);
    lemma_tokens_from_skip(text, n + 2 * w, 0);
    assert(text.skip(n + 2 * w) =~= rest);
    lemma_formulas_behind_scope(token, tokens(rest));
    lemma_behind_scope(token, tokens(rest), markups);
}

/// An opening delimiter whose scope is not closed is copied, and the pass
/// goes on behind it as on a buffer of its own.
pub proof fn lemma_unclosed_opener(block_mode: bool, rest: Seq<u8>, markups: Seq<Seq<u8>>)
    requires
        scope_end(rest, block_mode) is None,
        !block_mode ==> rest.len() == 0 || rest[0] != DOLLAR,
    ensures
        scopes(delimiter(block_mode) + rest) == scopes(rest),
        replaced(delimiter(block_mode) + rest, markups) == delimiter(block_mode) + replaced(
            rest,
            markups,
        ),
{
    let text = delimiter(block_mode) + rest;
    let w = delimiter_width(block_mode);
    assert(text.skip(w) =~= rest);
    lemma_tokens_from_skip(text, w, 0);
    lemma_behind_literal(Token::Opener { block_mode }, tokens(rest), markups);
}

/// A formula between its delimiters, at the head of a buffer: where each `$`
/// of the formula is escaped, it holds no `</` and it does not end in a
/// backslash, the closing delimiter is the first one behind the opening one,
/// the formula is handed over as it is written, and the first markup stands
/// in the output for all of it, delimiters included.
pub proof fn lemma_formula_replaced(
    formula: Seq<u8>,
    block_mode: bool,
    rest: Seq<u8>,
    markups: Seq<Seq<u8>>,
)
    requires
        no_bare_dollar(formula),
        forall|k: int| !stops_at(formula, k),
        formula.len() > 0 ==> formula.last() != BACKSLASH,
        !block_mode ==> formula.len() > 0,
        markups.len() == scopes(rest).len() + 1,
    ensures
        scopes(delimiter(block_mode) + formula + delimiter(block_mode) + rest) == seq![
            Formula { source: formula, block_mode },
        ] + scopes(rest),
        replaced(delimiter(block_mode) + formula + delimiter(block_mode) + rest, markups)
            == markups[0] + replaced(rest, markups.skip(1)),
{
    lemma_formula_closes(formula, block_mode, rest);
    lemma_scope_replaced(formula, block_mode, rest, markups);
}

/// An unterminated scope: an opening delimiter with no `$` behind it. The
/// buffer passes unchanged.
pub proof fn lemma_unterminated_scope(block_mode: bool, body: Seq<u8>, markups: Seq<Seq<u8>>)
    requires
        dollar_free(body),
    ensures
        scopes(delimiter(block_mode) + body).len() == 0,
        replaced(delimiter(block_mode) + body, markups) == delimiter(block_mode) + body,
{
    lemma_never_closed(body, block_mode);
    lemma_unclosed_opener(block_mode, body, markups);
    lemma_without_dollar(body, markups);
}

/// An opening delimiter whose scope would reach across `</`: the delimiter,
/// what follows it and the `</` pass unchanged, and the pass goes on behind
/// the `</` as on a buffer of its own.
pub proof fn lemma_scope_across_closing_tag(
    block_mode: bool,
    body: Seq<u8>,
    rest: Seq<u8>,
    markups: Seq<Seq<u8>>,
)
    requires
        dollar_free(body),
    ensures
        scopes(delimiter(block_mode) + body + seq![LESS_THAN, SLASH] + rest) == scopes(rest),
        replaced(delimiter(block_mode) + body + seq![LESS_THAN, SLASH] + rest, markups)
            == delimiter(block_mode) + body + seq![LESS_THAN, SLASH] + replaced(rest, markups),
{
    let plain = body + seq![LESS_THAN, SLASH];
    let inner = plain + rest;
    lemma_closing_tag_stops(body, rest, block_mode);
    assert(inner[0] != DOLLAR);
    lemma_unclosed_opener(block_mode, inner, markups);
    lemma_plain_prefix(plain, rest, markups);
    assert(delimiter(block_mode) + body + seq![LESS_THAN, SLASH] + rest =~= delimiter(block_mode)
        + inner);
}

/// The token copies the bytes that it spans.
pub open spec fn copies(token: Token) -> bool {
    token is Byte || token is Opener
}

/// The pass leaves `text` as it is: it holds no scope and no `\$`.
pub open spec fn settled(text: Seq<u8>) -> bool {
    forall|k: int| 0 <= k < tokens(text).len() ==> copies(#[trigger] tokens(text)[k])
}

proof fn lemma_settled_from(text: Seq<u8>, i: int, markups: Seq<Seq<u8>>)
    requires
        0 <= i <= text.len(),
        forall|k: int|
            0 <= k < tokens_from(text, i).len() ==> copies(#[trigger] tokens_from(text, i)[k]),
    ensures
        formulas(tokens_from(text, i)).len() == 0,
        assembled(tokens_from(text, i), markups) == text.skip(i),
    decreases text.len() - i,
{
    if i < text.len() {
        let token = token_at(text, i);
        let w = token.width();
        let rest = tokens_from(text, i + w);
        assert(tokens_from(text, i)[0] == token);
        assert forall|k: int| 0 <= k < rest.len() implies copies(#[trigger] rest[k]) by {
            assert(rest[k] == tokens_from(text, i)[k + 1]);
        }
        lemma_settled_from(text, i + w, markups);
        lemma_behind_literal(token, rest, markups);
    }
}

/// A settled buffer holds no scope and passes unchanged.
pub proof fn lemma_settled_unchanged(text: Seq<u8>, markups: Seq<Seq<u8>>)
    requires
        settled(text),
    ensures
        scopes(text).len() == 0,
        replaced(text, markups) == text,
{
    assert forall|k: int| 0 <= k < tokens_from(text, 0).len() implies copies(
        #[trigger] tokens_from(text, 0)[k],
    ) by {
        assert(copies(tokens(text)[k]));
    }
    lemma_settled_from(text, 0, markups);
}

/// A buffer without `$` is settled.
pub proof fn lemma_without_dollar_settled(text: Seq<u8>)
    requires
        dollar_free(text),
    ensures
        settled(text),
{
    lemma_plain_prefix(text, Seq::empty(), Seq::empty());
}

/// A second pass over the output of a first one changes nothing and finds
/// no scope, where that output is settled, as it is where no `$` is left in
/// it. Where it is not settled, a second pass does change it: it takes the
/// backslash of a `\$` away, or has a scope rendered.
pub proof fn lemma_second_pass(text: Seq<u8>, markups: Seq<Seq<u8>>, again: Seq<Seq<u8>>)
    requires
        settled(replaced(text, markups)),
    ensures
        scopes(replaced(text, markups)).len() == 0,
        replaced(replaced(text, markups), again) == replaced(text, markups),
{
    lemma_settled_unchanged(replaced(text, markups), again);
}

proof fn lemma_escaped_upto_take(text: Seq<u8>, n: int, m: int)
    requires
        0 <= n <= m <= text.len(),
    ensures
        escaped_upto(text.take(m), n) == escaped_upto(text, n),
    decreases n,
{
    if n > 0 {
        lemma_escaped_upto_take(text, n - 1, m);
    }
}

/// Code whose dollars were escaped passes as the code itself: the pass finds
/// no scope in it and writes every `$` of it once, whatever follows, unless
/// the code ends in a backslash that meets a `$` behind it.
pub proof fn lemma_escaped_code_passes(code: Seq<u8>, rest: Seq<u8>, markups: Seq<Seq<u8>>)
    requires
        !(code.len() > 0 && code.last() == BACKSLASH && rest.len() > 0 && rest[0] == DOLLAR),
    ensures
        scopes(dollars_escaped(code) + rest) == scopes(rest),
        replaced(dollars_escaped(code) + rest, markups) == code + replaced(rest, markups),
    decreases code.len(),
{
    if code.len() > 0 {
        let init = code.drop_last();
        let last = code.last();
        lemma_escaped_upto_take(code, init.len() as int, init.len() as int);
        let piece = if last == DOLLAR {
            seq![BACKSLASH, DOLLAR]
        } else {
            seq![last]
        };
        assert(dollars_escaped(code) + rest =~= dollars_escaped(init) + (piece + rest));
        lemma_escaped_code_passes(init, piece + rest, markups);
        if last == DOLLAR {
            lemma_escaped_dollar(Seq::empty(), rest, markups);
        } else {
            lemma_plain_prefix(piece, rest, markups);
        }
    }
}

} // verus!
