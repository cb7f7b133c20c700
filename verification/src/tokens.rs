//! The lexical structure of a buffer: what the replace loop sees at each
//! position, and what it writes for it.

use vstd::prelude::*;
use crate::scope::{
    delimiter, delimiter_width, dollar_follows, escapes_dollar, lemma_scope_end_is, scope_end,
    DOLLAR,
};

verus! {

/// What a single step of the left-to-right pass consumes.
pub enum Token {
    /// A byte that is copied unchanged.
    Byte(u8),
    /// The pair `\$`, which stands for a literal `$`.
    EscapedDollar,
    /// An opening delimiter, `$` or `$$`, that opens no scope.
    Opener { block_mode: bool },
    /// A scope with both of its delimiters; `formula` is what stands between
    /// them, escapes included.
    Math { formula: Seq<u8>, block_mode: bool },
}

impl Token {
    /// The number of input bytes that the token spans.
    pub open spec fn width(self) -> int {
        match self {
            Token::Byte(_) => 1,
            Token::EscapedDollar => 2,
            Token::Opener { block_mode } => delimiter_width(block_mode),
            Token::Math { formula, block_mode } => formula.len() + 2 * delimiter_width(block_mode),
        }
    }

    /// The bytes that the token puts into the output. A scope puts nothing
    /// there by itself: its place is taken by what the renderer returns.
    pub open spec fn literal(self) -> Seq<u8> {
        match self {
            Token::Byte(b) => seq![b],
            Token::EscapedDollar => seq![DOLLAR],
            Token::Opener { block_mode } => delimiter(block_mode),
            Token::Math { .. } => Seq::empty(),
        }
    }
}

/// The token that starts at position `i` of `text`.
pub open spec fn token_at(text: Seq<u8>, i: int) -> Token
    recommends
        0 <= i < text.len(),
{
    if escapes_dollar(text, i) {
        Token::EscapedDollar
    } else if text[i] == DOLLAR {
        // a `$` is read as `$$` exactly when a second `$` follows it
        let block_mode = dollar_follows(text, i);
        let start = i + delimiter_width(block_mode);
        match scope_end(text.skip(start), block_mode) {
            Some(n) => Token::Math { formula: text.subrange(start, start + n), block_mode },
            None => Token::Opener { block_mode },
        }
    } else {
        Token::Byte(text[i])
    }
}

/// The tokens of `text` from position `i` to its end.
pub open spec fn tokens_from(text: Seq<u8>, i: int) -> Seq<Token>
    decreases text.len() - i,
{
    if 0 <= i < text.len() {
        seq![token_at(text, i)] + tokens_from(text, i + token_at(text, i).width())
    } else {
        Seq::empty()
    }
}

/// The tokens of `text`.
pub open spec fn tokens(text: Seq<u8>) -> Seq<Token> {
    tokens_from(text, 0)
}

/// A formula as it is cut out of the buffer, with the mode of its scope.
pub struct Formula {
    pub source: Seq<u8>,
    pub block_mode: bool,
}

/// The formulas among `toks`, in their order.
pub open spec fn formulas(toks: Seq<Token>) -> Seq<Formula>
    decreases toks.len(),
{
    if toks.len() == 0 {
        Seq::empty()
    } else {
        match toks.last() {
            Token::Math { formula, block_mode } => formulas(toks.drop_last()).push(
                Formula { source: formula, block_mode },
            ),
            _ => formulas(toks.drop_last()),
        }
    }
}

/// The output for `toks`, where `markups` holds, in order, what stands in the
/// place of each scope.
pub open spec fn assembled(toks: Seq<Token>, markups: Seq<Seq<u8>>) -> Seq<u8>
    decreases toks.len(),
{
    if toks.len() == 0 {
        Seq::empty()
    } else if toks.last() is Math {
        if markups.len() == 0 {
            assembled(toks.drop_last(), markups)
        } else {
            assembled(toks.drop_last(), markups.drop_last()) + markups.last()
        }
    } else {
        assembled(toks.drop_last(), markups) + toks.last().literal()
    }
}

/// The formulas of the scopes of `text`, in document order.
pub open spec fn scopes(text: Seq<u8>) -> Seq<Formula> {
    formulas(tokens(text))
}

/// `text` after the pass, where `markups` holds, in order, what stands in
/// the place of each of its scopes.
pub open spec fn replaced(text: Seq<u8>, markups: Seq<Seq<u8>>) -> Seq<u8> {
    assembled(tokens(text), markups)
}

/// The token at a position depends on nothing before that position.
pub proof fn lemma_token_at_skip(text: Seq<u8>, p: int, j: int)
    requires
        0 <= p,
        0 <= j,
        p + j < text.len(),
    ensures
        token_at(text, p + j) == token_at(text.skip(p), j),
{
    let tail = text.skip(p);
    if text[p + j] == DOLLAR {
        let block_mode = dollar_follows(text, p + j);
        let w = delimiter_width(block_mode);
        assert(text.skip(p + j + w) =~= tail.skip(j + w));
        match scope_end(text.skip(p + j + w), block_mode) {
            Some(n) => {
                lemma_scope_end_is(text.skip(p + j + w), block_mode, n);
                assert(text.subrange(p + j + w, p + j + w + n) =~= tail.subrange(j + w, j + w + n));
            },
            None => {},
        }
    }
}

/// The tokens from a position on are the tokens of what stands there.
pub proof fn lemma_tokens_from_skip(text: Seq<u8>, p: int, j: int)
    requires
        0 <= p <= text.len(),
        0 <= j,
    ensures
        tokens_from(text, p + j) == tokens_from(text.skip(p), j),
    decreases text.len() - (p + j),
{
    if p + j < text.len() {
        lemma_token_at_skip(text, p, j);
        let w = token_at(text, p + j).width();
        lemma_tokens_from_skip(text, p, j + w);
    }
}

/// Behind a token that is no scope, the output goes on as it would without
/// it, and the token adds no formula.
pub proof fn lemma_behind_literal(token: Token, rest: Seq<Token>, markups: Seq<Seq<u8>>)
    requires
        !(token is Math),
    ensures
        assembled(seq![token] + rest, markups) == token.literal() + assembled(rest, markups),
        formulas(seq![token] + rest) == formulas(rest),
    decreases rest.len(),
{
    let all = seq![token] + rest;
    if rest.len() == 0 {
        reveal_with_fuel(assembled, 2);
        reveal_with_fuel(formulas, 2);
    } else {
        assert(all.drop_last() =~= seq![token] + rest.drop_last());
        lemma_behind_literal(token, rest.drop_last(), markups);
        if markups.len() > 0 {
            lemma_behind_literal(token, rest.drop_last(), markups.drop_last());
        }
    }
}

/// A scope at the head of the tokens puts its formula at the head of the
/// formulas.
pub proof fn lemma_formulas_behind_scope(token: Token, rest: Seq<Token>)
    requires
        token is Math,
    ensures
        formulas(seq![token] + rest) == seq![
            Formula { source: token->formula, block_mode: token->Math_block_mode },
        ] + formulas(rest),
    decreases rest.len(),
{
    let all = seq![token] + rest;
    if rest.len() == 0 {
        reveal_with_fuel(formulas, 2);
    } else {
        assert(all.drop_last() =~= seq![token] + rest.drop_last());
        lemma_formulas_behind_scope(token, rest.drop_last());
    }
}

/// Behind a scope, the output goes on with the markups that are left.
pub proof fn lemma_behind_scope(token: Token, rest: Seq<Token>, markups: Seq<Seq<u8>>)
    requires
        token is Math,
        markups.len() == formulas(rest).len() + 1,
    ensures
        assembled(seq![token] + rest, markups) == markups[0] + assembled(rest, markups.skip(1)),
    decreases rest.len(),
{
    let all = seq![token] + rest;
    if rest.len() == 0 {
        reveal_with_fuel(assembled, 2);
    } else {
        assert(all.drop_last() =~= seq![token] + rest.drop_last());
        if rest.last() is Math {
            assert(markups.drop_last().skip(1) =~= markups.skip(1).drop_last());
            lemma_behind_scope(token, rest.drop_last(), markups.drop_last());
        } else {
            lemma_behind_scope(token, rest.drop_last(), markups);
        }
    }
}

/// A token lies within the buffer. A scope begins and ends with a `$`, and
/// its formula is what stands between its delimiters.
pub proof fn lemma_token_within(text: Seq<u8>, i: int)
    requires
        0 <= i < text.len(),
    ensures
        1 <= token_at(text, i).width(),
        i + token_at(text, i).width() <= text.len(),
        token_at(text, i) matches Token::Math { formula, block_mode } ==> {
            &&& text[i] == DOLLAR
            &&& text[i + token_at(text, i).width() - 1] == DOLLAR
            &&& formula == text.subrange(
                i + delimiter_width(block_mode),
                i + delimiter_width(block_mode) + formula.len(),
            )
        },
{
    if text[i] == DOLLAR {
        let block_mode = dollar_follows(text, i);
        let start = i + delimiter_width(block_mode);
        let inner = text.skip(start);
        match scope_end(inner, block_mode) {
            Some(n) => {
                lemma_scope_end_is(inner, block_mode, n);
            },
            None => {},
        }
    }
}

} // verus!
