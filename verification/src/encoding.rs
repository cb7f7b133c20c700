//! UTF-8 and the pass: every cut that the pass makes falls on an ASCII byte,
//! so no character is ever split.

use vstd::prelude::*;
use vstd::utf8::{
    char_u32_cast, encode_scalar, encode_utf8, has_width_1_encoding, has_width_2_encoding,
    has_width_3_encoding, is_char_boundary_iff_not_is_continuation_byte, valid_utf8,
    valid_utf8_concat, valid_utf8_split,
};
use crate::scope::{delimiter_width, dollar_free, lemma_scope_end_is, BACKSLASH, DOLLAR};
use crate::tokens::{
    assembled, formulas, lemma_behind_literal, lemma_formulas_behind_scope, lemma_token_within,
    replaced, scopes, token_at, tokens, tokens_from, Token,
};

verus! {

/// A valid buffer can be cut before and behind any of its ASCII bytes.
pub proof fn lemma_cut_at_ascii(bytes: Seq<u8>, p: int)
    requires
        valid_utf8(bytes),
        0 <= p < bytes.len(),
        bytes[p] < 0x80,
    ensures
        valid_utf8(bytes.take(p)),
        valid_utf8(bytes.skip(p)),
        valid_utf8(bytes.skip(p + 1)),
{
    is_char_boundary_iff_not_is_continuation_byte(bytes, p);
    valid_utf8_split(bytes, p);
    let tail = bytes.skip(p);
    assert(tail[0] == bytes[p]);
    assert(bytes.skip(p + 1) =~= tail.subrange(1, tail.len() as int));
}

/// A single ASCII byte is valid UTF-8.
pub proof fn lemma_ascii_byte_valid(byte: u8)
    requires
        byte < 0x80,
    ensures
        valid_utf8(seq![byte]),
{
    let bytes = seq![byte];
    assert(byte & 0x7f == byte) by (bit_vector)
        requires
            byte < 0x80,
    ;
    assert(bytes.subrange(1, 1) =~= Seq::<u8>::empty());
    reveal_with_fuel(valid_utf8, 2);
}

/// A backslash put in front of an ASCII byte keeps a buffer valid. `head` is
/// what stands before that byte, `tail` begins with it.
pub proof fn lemma_backslash_keeps_valid(head: Seq<u8>, tail: Seq<u8>)
    requires
        valid_utf8(head + tail),
        tail.len() > 0,
        tail[0] < 0x80,
    ensures
        valid_utf8(head.push(BACKSLASH) + tail),
{
    let whole = head + tail;
    let at = head.len() as int;
    assert(whole[at] == tail[0]);
    lemma_cut_at_ascii(whole, at);
    assert(whole.take(at) =~= head);
    assert(whole.skip(at) =~= tail);
    lemma_ascii_byte_valid(BACKSLASH);
    valid_utf8_concat(head, seq![BACKSLASH]);
    assert(head + seq![BACKSLASH] =~= head.push(BACKSLASH));
    valid_utf8_concat(head.push(BACKSLASH), tail);
}

/// The formula of a scope in a valid buffer is valid by itself.
pub proof fn lemma_formula_valid(text: Seq<u8>, i: int)
    requires
        valid_utf8(text),
        0 <= i < text.len(),
        token_at(text, i) is Math,
    ensures
        valid_utf8(token_at(text, i)->formula),
{
    lemma_token_within(text, i);
    let token = token_at(text, i);
    let formula = token->formula;
    let start = i + delimiter_width(token->Math_block_mode);
    let inner = text.skip(start);
    let n = formula.len() as int;
    lemma_scope_end_is(inner, token->Math_block_mode, n);
    assert(text[start - 1] == DOLLAR);
    lemma_cut_at_ascii(text, start - 1);
    assert(inner[n] == DOLLAR);
    lemma_cut_at_ascii(inner, n);
    assert(inner.take(n) =~= formula);
}

proof fn lemma_formulas_valid_from(text: Seq<u8>, i: int)
    requires
        valid_utf8(text),
        0 <= i <= text.len(),
    ensures
        forall|k: int|
            0 <= k < formulas(tokens_from(text, i)).len() ==> valid_utf8(
                #[trigger] formulas(tokens_from(text, i))[k].source,
            ),
    decreases text.len() - i,
{
    if i < text.len() {
        let token = token_at(text, i);
        lemma_token_within(text, i);
        let rest = tokens_from(text, i + token.width());
        lemma_formulas_valid_from(text, i + token.width());
        if token is Math {
            lemma_formula_valid(text, i);
            lemma_formulas_behind_scope(token, rest);
        } else {
            lemma_behind_literal(token, rest, Seq::empty());
        }
    }
}

/// Every formula that the pass cuts out of a valid buffer is valid UTF-8:
/// decoding it loses nothing.
pub proof fn lemma_scopes_valid_utf8(text: Seq<u8>)
    requires
        valid_utf8(text),
    ensures
        forall|k: int|
            0 <= k < scopes(text).len() ==> valid_utf8(#[trigger] scopes(text)[k].source),
{
    lemma_formulas_valid_from(text, 0);
}

/// Every one of `markups` is valid UTF-8.
pub open spec fn all_valid_utf8(markups: Seq<Seq<u8>>) -> bool {
    forall|k: int| 0 <= k < markups.len() ==> valid_utf8(#[trigger] markups[k])
}

proof fn lemma_replaced_valid_from(
    text: Seq<u8>,
    i: int,
    done: Seq<Token>,
    used: Seq<Seq<u8>>,
    left: Seq<Seq<u8>>,
)
    requires
        valid_utf8(text),
        0 <= i <= text.len(),
        all_valid_utf8(left),
        left.len() == formulas(tokens_from(text, i)).len(),
        valid_utf8(assembled(done, used) + text.skip(i)),
    ensures
        valid_utf8(assembled(done + tokens_from(text, i), used + left)),
    decreases text.len() - i,
{
    let output = assembled(done, used);
    if i < text.len() {
        let token = token_at(text, i);
        let w = token.width();
        let rest = tokens_from(text, i + w);
        let before = output + text.skip(i);
        let behind = text.skip(i + w);
        let next = done.push(token);
        lemma_token_within(text, i);
        assert(next.drop_last() =~= done);
        assert(done + tokens_from(text, i) =~= next + rest);
        assert(before[output.len() as int] == text[i]);
        if token is Math {
            lemma_formulas_behind_scope(token, rest);
            let html = left[0];
            let used_next = used.push(html);
            assert(used_next.drop_last() =~= used);
            assert(used + left =~= used_next + left.skip(1));
            assert(all_valid_utf8(left.skip(1))) by {
                assert forall|k: int| 0 <= k < left.skip(1).len() implies valid_utf8(
                    #[trigger] left.skip(1)[k],
                ) by {
                    assert(left.skip(1)[k] == left[k + 1]);
                }
            }
            lemma_cut_at_ascii(before, output.len() as int);
            assert(before.take(output.len() as int) =~= output);
            lemma_cut_at_ascii(text, i + w - 1);
            valid_utf8_concat(output, html);
            valid_utf8_concat(output + html, behind);
            assert(assembled(next, used_next) =~= output + html);
            lemma_replaced_valid_from(text, i + w, next, used_next, left.skip(1));
        } else {
            lemma_behind_literal(token, rest, Seq::empty());
            if token is EscapedDollar {
                lemma_cut_at_ascii(before, output.len() as int);
                assert(before.take(output.len() as int) =~= output);
                assert(before.skip(output.len() as int + 1) =~= seq![DOLLAR] + behind);
                valid_utf8_concat(output, seq![DOLLAR] + behind);
                assert(assembled(next, used) + behind =~= output + (seq![DOLLAR] + behind));
            } else {
                assert(token.literal() =~= text.subrange(i, i + w));
                assert(assembled(next, used) + behind =~= before);
            }
            lemma_replaced_valid_from(text, i + w, next, used, left);
        }
    } else {
        assert(done + tokens_from(text, i) =~= done);
        assert(used + left =~= used);
        assert(output + text.skip(i) =~= output);
    }
}

/// The pass keeps a buffer valid: where the buffer and every markup are
/// valid UTF-8, so is the output.
pub proof fn lemma_replaced_valid_utf8(text: Seq<u8>, markups: Seq<Seq<u8>>)
    requires
        valid_utf8(text),
        all_valid_utf8(markups),
        markups.len() == scopes(text).len(),
    ensures
        valid_utf8(replaced(text, markups)),
{
    let done = Seq::<Token>::empty();
    let used = Seq::<Seq<u8>>::empty();
    assert(assembled(done, used) + text.skip(0) =~= text);
    lemma_replaced_valid_from(text, 0, done, used, markups);
    assert(done + tokens_from(text, 0) =~= tokens(text));
    assert(used + markups =~= markups);
}

/// No character of `text` is a dollar sign.
pub open spec fn without_dollar_sign(text: Seq<char>) -> bool {
    forall|i: int| 0 <= i < text.len() ==> text[i] != '$'
}

proof fn lemma_scalar_without_dollar(scalar: u32)
    requires
        scalar != 0x24,
    ensures
        dollar_free(encode_scalar(scalar)),
{
    let bytes = encode_scalar(scalar);
    if has_width_1_encoding(scalar) {
        assert((scalar & 0x7f) as u8 != 0x24) by (bit_vector)
            requires
                scalar != 0x24,
                scalar <= 0x7f,
        ;
    } else {
        assert forall|x: u8| (0x80 | x) != 0x24 && (0xc0 | x) != 0x24 && (0xe0 | x) != 0x24 && (
        0xf0 | x) != 0x24 by {
            assert((0x80 | x) != 0x24 && (0xc0 | x) != 0x24 && (0xe0 | x) != 0x24 && (0xf0 | x)
                != 0x24) by (bit_vector);
        }
        assert forall|k: int| 0 <= k < bytes.len() implies bytes[k] != DOLLAR by {
            if has_width_2_encoding(scalar) {
                assert(k == 0 || k == 1);
            } else if has_width_3_encoding(scalar) {
                assert(k == 0 || k == 1 || k == 2);
            } else {
                assert(k == 0 || k == 1 || k == 2 || k == 3);
            }
        }
    }
}

/// Text without a dollar sign has no `$` among its bytes.
pub proof fn lemma_text_without_dollar(text: Seq<char>)
    requires
        without_dollar_sign(text),
    ensures
        dollar_free(encode_utf8(text)),
    decreases text.len(),
{
    if text.len() > 0 {
        let head = encode_scalar(text[0] as u32);
        let tail = encode_utf8(text.drop_first());
        assert(text[0] as u32 != 0x24) by {
            char_u32_cast(text[0], text[0] as u32);
            char_u32_cast('$', 0x24);
        }
        lemma_scalar_without_dollar(text[0] as u32);
        assert(without_dollar_sign(text.drop_first())) by {
            assert forall|i: int| 0 <= i < text.drop_first().len() implies text.drop_first()[i]
                != '$' by {
                assert(text.drop_first()[i] == text[i + 1]);
            }
        }
        lemma_text_without_dollar(text.drop_first());
        assert forall|k: int| 0 <= k < (head + tail).len() implies (head + tail)[k] != DOLLAR by {
            if k < head.len() {
                assert((head + tail)[k] == head[k]);
            } else {
                assert((head + tail)[k] == tail[k - head.len()]);
            }
        }
    }
}

} // verus!
