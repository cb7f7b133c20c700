//! The replace loop: one pass over a buffer that hands every math scope to a
//! renderer and copies the rest.

use vstd::prelude::*;
use vstd::utf8::{
    decode_utf8, encode_utf8, encode_utf8_decode_utf8, encode_utf8_valid_utf8, valid_utf8,
};
use crate::encoding::{
    all_valid_utf8, lemma_replaced_valid_utf8, lemma_text_without_dollar, without_dollar_sign,
};
use crate::escape::{double_dollar_escapes, escapes_doubled};
use crate::laws::lemma_without_dollar;
use crate::render::{decode_lossy, decoded, failure_message, katex_render};
use crate::scope::{dollar_free, extract_tex_math, BACKSLASH, DOLLAR};
use crate::tokens::{
    assembled, formulas, replaced, scopes, token_at, tokens, tokens_from, Formula, Token,
};

verus! {

/// What one call of a renderer gave: markup, or the message of a failure.
pub type Outcome = Result<String, String>;

/// The buffer after the pass, and the messages of the renderer's failures in
/// the order of their scopes.
#[derive(Debug, Clone, PartialEq, Eq)]
pub struct Replaced {
    pub html: String,
    pub diagnostics: Vec<String>,
}

/// `outcome` is something that `render` may return for `formula`: for its
/// bytes decoded as text, and the mode of its scope.
pub open spec fn renders<F: Fn(&str, bool) -> Outcome>(
    render: F,
    formula: Formula,
    outcome: Outcome,
) -> bool {
    exists|text: &str|
        decoded(formula.source, text@) && call_ensures(
            render,
            (text, formula.block_mode),
            outcome,
        )
}

/// `outcomes` holds one outcome of `render` for each of `formulas`, in order.
pub open spec fn rendering<F: Fn(&str, bool) -> Outcome>(
    render: F,
    formulas: Seq<Formula>,
    outcomes: Seq<Outcome>,
) -> bool {
    &&& outcomes.len() == formulas.len()
    &&& forall|k: int|
        0 <= k < formulas.len() ==> renders(render, formulas[k], #[trigger] outcomes[k])
}

/// What an outcome puts into the output: the markup, or nothing at all.
pub open spec fn markup(outcome: Outcome) -> Seq<u8> {
    match outcome {
        Ok(html) => encode_utf8(html@),
        Err(_) => Seq::empty(),
    }
}

/// The markup of each outcome.
pub open spec fn markups(outcomes: Seq<Outcome>) -> Seq<Seq<u8>> {
    Seq::new(outcomes.len(), |k: int| markup(outcomes[k]))
}

/// The messages of the failures among `outcomes`, in their order.
pub open spec fn failures(outcomes: Seq<Outcome>) -> Seq<String>
    decreases outcomes.len(),
{
    if outcomes.len() == 0 {
        Seq::empty()
    } else {
        match outcomes.last() {
            Ok(_) => failures(outcomes.drop_last()),
            Err(message) => failures(outcomes.drop_last()).push(message),
        }
    }
}

/// Replaces every math scope of `text` by what `render` returns for it.
///
/// The pass goes from left to right. `\$` becomes `$`. A `$` opens a scope,
/// a block scope if a second `$` follows; where the scope is not closed the
/// delimiter is copied and the pass goes on behind it. A closed scope is
/// decoded, handed to `render` with its mode, and replaced by the markup; on
/// a failure nothing is written in its place and the message is kept. Every
/// other byte is copied.
pub fn replace_scopes<F: Fn(&str, bool) -> Outcome>(text: &[u8], render: F) -> (res: Replaced)
    requires
        forall|formula: &str, block_mode: bool| call_requires(render, (formula, block_mode)),
    ensures
        exists|outcomes: Seq<Outcome>|
            {
                &&& rendering(render, scopes(text@), outcomes)
                &&& decoded(#[trigger] replaced(text@, markups(outcomes)), res.html@)
                &&& res.diagnostics@ == failures(outcomes)
            },
        dollar_free(text@) ==> decoded(text@, res.html@) && res.diagnostics@.len() == 0,
{
    let len = text.len();
    let mut output: Vec<u8> = Vec::with_capacity(len);
    let mut diagnostics: Vec<String> = Vec::new();
    let mut i: usize = 0;
    let ghost mut done: Seq<Token> = Seq::empty();
    let ghost mut outcomes: Seq<Outcome> = Seq::empty();
    while i < len
        invariant
            len == text@.len(),
            i <= len,
            forall|formula: &str, block_mode: bool| call_requires(render, (formula, block_mode)),
            tokens(text@) == done + tokens_from(text@, i as int),
            rendering(render, formulas(done), outcomes),
            output@ == assembled(done, markups(outcomes)),
            diagnostics@ == failures(outcomes),
        decreases len - i,
    {
        let ghost token = token_at(text@, i as int);
        let ghost before = done;
        let here = text[i];
        let next_is_dollar = i + 1 < len && text[i + 1] == DOLLAR;
        if here == BACKSLASH && next_is_dollar {
            output.push(DOLLAR);
            i += 2;
        } else if here == DOLLAR {
            let block_mode = next_is_dollar;
            let offset: usize = if block_mode { 2 } else { 1 };
            match extract_tex_math(&text[i + offset..len], block_mode) {
                None => {
                    output.push(DOLLAR);
                    if block_mode {
                        output.push(DOLLAR);
                    }
                    i += offset;
                },
                Some(formula) => {
                    assert(formula@ == text@.subrange(i + offset, i + offset + formula@.len()));
                    i += formula.len() + offset * 2;
                    let source = decode_lossy(formula);
                    let outcome = render(source.as_str(), block_mode);
                    proof {
                        assert(renders(render, Formula { source: formula@, block_mode }, outcome));
                        let html = markup(outcome);
                        assert(markups(outcomes.push(outcome)) =~= markups(outcomes).push(html));
                        assert(markups(outcomes).push(html).drop_last() =~= markups(outcomes));
                        assert(outcomes.push(outcome).drop_last() =~= outcomes);
                        outcomes = outcomes.push(outcome);
                    }
                    match outcome {
                        Ok(html) => {
                            output.extend_from_slice(html.as_str().as_bytes());
                        },
                        Err(message) => {
                            diagnostics.push(message);
                        },
                    }
                },
            }
        } else {
            output.push(here);
            i += 1;
        }
        proof {
            done = before.push(token);
            assert(done.drop_last() =~= before);
            assert(before + tokens_from(text@, i - token.width()) =~= done + tokens_from(
                text@,
                i as int,
            ));
        }
    }
    let html = decode_lossy(output.as_slice());
    proof {
        assert(tokens(text@) =~= done);
        assert(decoded(replaced(text@, markups(outcomes)), html@));
        if dollar_free(text@) {
            lemma_without_dollar(text@, markups(outcomes));
        }
    }
    Replaced { html, diagnostics }
}

/// Every markup is valid UTF-8: it is a string's bytes, or nothing.
pub proof fn lemma_markups_valid_utf8(outcomes: Seq<Outcome>)
    ensures
        all_valid_utf8(markups(outcomes)),
{
    assert forall|k: int| 0 <= k < outcomes.len() implies valid_utf8(
        #[trigger] markups(outcomes)[k],
    ) by {
        match outcomes[k] {
            Ok(html) => encode_utf8_valid_utf8(html@),
            Err(_) => {},
        }
    }
}

/// Asks KaTeX for `formula`, in display mode for a block scope, and returns
/// what it gives: its markup unchanged, or the message of its error.
pub fn katex_outcome(formula: &str, block_mode: bool) -> (outcome: Outcome)
    ensures
        katex_gave(formula, block_mode, outcome),
{
    match katex_render(formula, block_mode) {
        Ok(html) => Ok(html),
        Err(error) => Err(failure_message(&error)),
    }
}

/// `outcome` is what KaTeX gave for `formula`, in display mode where
/// `block_mode` is set.
pub closed spec fn katex_gave(formula: &str, block_mode: bool, outcome: Outcome) -> bool {
    exists|rendered: Result<String, katex::Error>|
        #[trigger] call_ensures(katex_render, (formula, block_mode), rendered) && outcome_of(
            rendered,
            outcome,
        )
}

/// `outcome` is what is made of `rendered`, a result of KaTeX: its markup as
/// it is, or the message that its error gives for itself.
pub closed spec fn outcome_of(rendered: Result<String, katex::Error>, outcome: Outcome) -> bool {
    match rendered {
        Ok(html) => outcome == Ok::<String, String>(html),
        Err(error) => outcome matches Err(message) && call_ensures(
            failure_message,
            (&error,),
            message,
        ),
    }
}

/// `res` is `input` with each of its math scopes replaced by an outcome of
/// KaTeX for it.
pub open spec fn katex_replaced(input: Seq<char>, res: Replaced) -> bool {
    exists|outcomes: Seq<Outcome>|
        {
            &&& rendering(katex_outcome, scopes(encode_utf8(input)), outcomes)
            &&& res.html@ == decode_utf8(#[trigger] replaced(encode_utf8(input), markups(outcomes)))
            &&& res.diagnostics@ == failures(outcomes)
        }
}

/// Replaces every math scope of `input` by KaTeX's markup for it: inline
/// markup for `$...$`, display markup for `$$...$$`.
///
/// The input is text, so every formula and the output are valid UTF-8 and
/// no decoding loses anything. A scope that KaTeX fails on leaves nothing in
/// the output; its message is among the diagnostics.
pub fn katex_replace(input: &str) -> (res: Replaced)
    ensures
        katex_replaced(input@, res),
        without_dollar_sign(input@) ==> res.html@ == input@ && res.diagnostics@.len() == 0,
{
    let res = replace_scopes(input.as_bytes(), katex_outcome);
    proof {
        let text = encode_utf8(input@);
        encode_utf8_valid_utf8(input@);
        encode_utf8_decode_utf8(input@);
        if without_dollar_sign(input@) {
            lemma_text_without_dollar(input@);
        }
        let outcomes = choose|outcomes: Seq<Outcome>|
            {
                &&& rendering(katex_outcome, scopes(text), outcomes)
                &&& decoded(#[trigger] replaced(text, markups(outcomes)), res.html@)
                &&& res.diagnostics@ == failures(outcomes)
            };
        lemma_markups_valid_utf8(outcomes);
        lemma_replaced_valid_utf8(text, markups(outcomes));
    }
    res
}

/// Converts a Markdown source to HTML with its math typeset, in the order
/// that the escapes depend on: the backslash of every `\$` is doubled, once
/// and first; the result goes through `to_html`, the Markdown converter, which
/// takes one of the two backslashes away again; the math scopes of its HTML
/// are then replaced by KaTeX's markup.
pub fn convert_with_math<C: Fn(&str) -> String>(markdown: &str, to_html: C) -> (res: Replaced)
    requires
        forall|source: &str| call_requires(to_html, (source,)),
    ensures
        exists|source: &str, html: String|
            {
                &&& source@ == decode_utf8(escapes_doubled(encode_utf8(markdown@)))
                &&& #[trigger] call_ensures(to_html, (source,), html)
                &&& katex_replaced(html@, res)
            },
{
    let source = double_dollar_escapes(markdown);
    let html = to_html(source.as_str());
    katex_replace(html.as_str())
}

} // verus!
