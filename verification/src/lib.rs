//! Math in rendered Markdown.
//!
//! A Markdown converter leaves formulas in its HTML as it found them: `$...$`
//! for math in a line, `$$...$$` for math on display. This library finds
//! these scopes in the HTML and puts markup in their place that a math
//! renderer, KaTeX, makes of each formula.
//!
//! * [`scope`] says where a scope that was opened ends, and finds that end:
//!   [`extract_tex_math`].
//! * [`tokens`] says what a buffer consists of for the pass, and what the
//!   pass writes for each part.
//! * [`replace`] is the pass itself: [`replace_scopes`] with a renderer of
//!   the caller's choice, [`katex_replace`] with KaTeX, and
//!   [`convert_with_math`] for a whole Markdown source.
//! * [`escape`] writes the escapes that keep a dollar sign out of the math.
//! * [`laws`] and [`encoding`] prove what holds of every buffer: what passes
//!   unchanged, what becomes of a scope, and that no character is ever cut.
//! * [`render`] holds what is taken on trust of KaTeX and of the standard
//!   library.
//! * [`cli`] holds the arguments of a run and what they ask for.

pub mod scope;
pub mod tokens;
pub mod render;
pub mod replace;
pub mod laws;
pub mod encoding;
pub mod escape;
pub mod cli;

pub use cli::{CliArgs, Outputs};
pub use escape::{double_dollar_escapes, escape_code_dollars};
pub use replace::{
    convert_with_math, katex_outcome, katex_replace, replace_scopes, Outcome, Replaced,
};
pub use scope::extract_tex_math;
