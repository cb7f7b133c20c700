use math_scopes::escape::{double_dollar_escapes, escape_code_dollars};
use math_scopes::{replace_scopes, Outcome};

fn echo(formula: &str, block_mode: bool) -> Outcome {
    Ok(format!("[{}|{}]", formula, block_mode))
}

#[test]
fn backslash_before_dollar_is_doubled() {
    assert_eq!(double_dollar_escapes("\\$"), "\\\\$");
    assert_eq!(double_dollar_escapes("costs 5\\$ or 6\\$"), "costs 5\\\\$ or 6\\\\$");
}

#[test]
fn doubling_matches_the_standard_replace() {
    for text in ["", "$", "\\", "a\\b", "\\\\$", "\\$\\$", "$\\$x$", "é\\$ü", "\\\\\\$ \\ $"] {
        assert_eq!(double_dollar_escapes(text), text.replace("\\$", "\\\\$"));
    }
}

#[test]
fn doubling_leaves_other_backslashes_and_dollars() {
    assert_eq!(double_dollar_escapes("\\alpha $x$ \\\\"), "\\alpha $x$ \\\\");
    assert_eq!(double_dollar_escapes("trailing \\"), "trailing \\");
}

#[test]
fn every_code_dollar_gets_a_backslash() {
    assert_eq!(escape_code_dollars("$"), "\\$");
    assert_eq!(escape_code_dollars("echo $HOME $$"), "echo \\$HOME \\$\\$");
    assert_eq!(escape_code_dollars("no dollars"), "no dollars");
    assert_eq!(escape_code_dollars(""), "");
}

#[test]
fn code_escaping_matches_the_standard_replace() {
    for text in ["", "$", "\\$", "a$b$c", "$$", "π$π", "\\"] {
        assert_eq!(escape_code_dollars(text), text.replace('$', "\\$"));
    }
}

#[test]
fn escaped_code_comes_out_of_the_pass_as_written() {
    for code in ["echo $HOME", "$$", "a\\$b", "price: $5 and $6", "$x$", "π$"] {
        let html = format!("<code>{}</code>", escape_code_dollars(code));
        let res = replace_scopes(html.as_bytes(), echo);
        assert_eq!(res.html, format!("<code>{}</code>", code));
        assert!(res.diagnostics.is_empty());
    }
}
