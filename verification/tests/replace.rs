use math_scopes::{replace_scopes, Outcome, Replaced};

fn echo(formula: &str, block_mode: bool) -> Outcome {
    if block_mode {
        Ok(format!("[[{}]]", formula))
    } else {
        Ok(format!("[{}]", formula))
    }
}

fn refuse(formula: &str, block_mode: bool) -> Outcome {
    Err(format!("cannot render {:?} (block: {})", formula, block_mode))
}

fn run(text: &str) -> Replaced {
    replace_scopes(text.as_bytes(), echo)
}

#[test]
fn text_without_dollar_passes_unchanged() {
    for text in ["", "plain", "<p>a &lt; b</p>\n", "back\\slash", "trailing \\", "€ π é"] {
        let res = run(text);
        assert_eq!(res.html, text);
        assert!(res.diagnostics.is_empty());
    }
}

#[test]
fn escaped_dollar_becomes_a_dollar() {
    assert_eq!(run("\\$").html, "$");
    assert_eq!(run("costs 5\\$ today").html, "costs 5$ today");
    assert_eq!(run("\\$\\$").html, "$$");
    assert_eq!(run("a\\\\$b").html, "a\\$b");
}

#[test]
fn inline_scope_is_replaced_by_inline_markup() {
    assert_eq!(run("$x$").html, "[x]");
    assert_eq!(run("a $x+y$ b").html, "a [x+y] b");
}

#[test]
fn block_scope_is_replaced_by_block_markup() {
    assert_eq!(run("$$x$$").html, "[[x]]");
    assert_eq!(run("a $$x+y$$ b").html, "a [[x+y]] b");
    assert_eq!(run("$$$$").html, "[[]]");
}

#[test]
fn several_scopes_are_rendered_in_document_order() {
    assert_eq!(run("$a$ then $$b$$ then $c$").html, "[a] then [[b]] then [c]");
    assert_eq!(run("$a$$b$").html, "[a][b]");
}

#[test]
fn unterminated_scope_is_left_alone() {
    assert_eq!(run("$abc").html, "$abc");
    assert_eq!(run("$").html, "$");
    assert_eq!(run("$$abc").html, "$$abc");
    assert_eq!(run("$$").html, "$$");
    assert_eq!(run("$$abc$").html, "$$abc$");
}

#[test]
fn failed_block_opener_is_skipped_as_a_whole() {
    assert_eq!(run("$$a$</p>").html, "$$a$</p>");
    assert_eq!(run("$$a</p>$b$").html, "$$a</p>[b]");
}

#[test]
fn closing_tag_inside_scope_gives_it_up() {
    assert_eq!(run("$a</b>$").html, "$a</b>$");
    assert_eq!(run("<p>$a</p><p>b$</p>").html, "<p>$a</p><p>b$</p>");
    assert_eq!(run("$a</b>$x$").html, "$a</b>[x]");
}

#[test]
fn escaped_dollar_inside_scope_is_handed_over_as_written() {
    assert_eq!(run("$a\\$b$").html, "[a\\$b]");
    assert_eq!(run("$$a\\$$$").html, "[[a\\$]]");
}

#[test]
fn first_unescaped_dollar_closes_the_scope() {
    assert_eq!(run("$a$b$").html, "[a]b$");
    assert_eq!(run("$a$b$c$").html, "[a]b[c]");
}

#[test]
fn three_dollars_open_a_block_scope() {
    assert_eq!(run("$$$a$$").html, "[[$a]]");
    assert_eq!(run("$$$").html, "$$$");
}

#[test]
fn renderer_failure_drops_the_scope_and_is_reported() {
    let res = replace_scopes("a $x$ b $$y$$ c".as_bytes(), refuse);
    assert_eq!(res.html, "a  b  c");
    assert_eq!(
        res.diagnostics,
        vec![
            "cannot render \"x\" (block: false)".to_string(),
            "cannot render \"y\" (block: true)".to_string(),
        ]
    );
}

#[test]
fn only_failures_are_reported() {
    let picky = |formula: &str, block_mode: bool| -> Outcome {
        if formula.contains('!') {
            Err(format!("bad: {}", formula))
        } else {
            echo(formula, block_mode)
        }
    };
    let res = replace_scopes("$a$ $b!$ $$c$$ $$d!$$".as_bytes(), picky);
    assert_eq!(res.html, "[a]  [[c]] ");
    assert_eq!(res.diagnostics, vec!["bad: b!".to_string(), "bad: d!".to_string()]);
}

#[test]
fn second_pass_over_settled_output_changes_nothing() {
    let first = run("<p>$a$ and $$b$$, 5\\\\ and $c</p>");
    assert_eq!(first.html, "<p>[a] and [[b]], 5\\\\ and $c</p>");
    let second = run(&first.html);
    assert_eq!(second.html, first.html);
    assert!(second.diagnostics.is_empty());
}

#[test]
fn second_pass_sees_dollars_that_the_first_one_unescaped() {
    let first = run("\\$a\\$");
    assert_eq!(first.html, "$a$");
    assert_eq!(run(&first.html).html, "[a]");
}

#[test]
fn multibyte_text_survives_around_and_inside_scopes() {
    assert_eq!(run("é $π$ ü").html, "é [π] ü");
    assert_eq!(run("€$$∑ x$$€").html, "€[[∑ x]]€");
    assert_eq!(run("日本語\\$").html, "日本語$");
}

#[test]
fn invalid_bytes_are_replaced_not_fatal() {
    let res = replace_scopes(b"a\xff $x\xfe$ b", echo);
    assert_eq!(res.html, "a\u{fffd} [x\u{fffd}] b");
    assert!(res.diagnostics.is_empty());
}
