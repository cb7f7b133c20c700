use math_scopes::{katex_outcome, katex_replace};

fn katex(formula: &str, display: bool) -> String {
    let opts = katex::Opts::builder().display_mode(display).build().unwrap();
    katex::render_with_opts(formula, &opts).unwrap()
}

#[test]
fn inline_scope_gets_inline_katex_markup() {
    let res = katex_replace("$x$");
    assert_eq!(res.html, katex("x", false));
    assert!(!res.html.contains('$'));
    assert!(!res.html.contains("katex-display"));
    assert!(res.diagnostics.is_empty());
}

#[test]
fn block_scope_gets_display_katex_markup() {
    let res = katex_replace("$$x$$");
    assert_eq!(res.html, katex("x", true));
    assert!(res.html.contains("katex-display"));
    assert!(res.diagnostics.is_empty());
}

#[test]
fn markup_stands_where_the_scope_stood() {
    let res = katex_replace("<p>Let $a^2$ be: $$\\frac{1}{2}$$</p>");
    let expected = format!(
        "<p>Let {} be: {}</p>",
        katex("a^2", false),
        katex("\\frac{1}{2}", true)
    );
    assert_eq!(res.html, expected);
}

#[test]
fn escaped_dollar_reaches_katex_as_written() {
    let res = katex_replace("$a\\$b$");
    assert_eq!(res.html, katex("a\\$b", false));
}

#[test]
fn text_without_scopes_is_untouched_by_katex() {
    let text = "<h1>Title</h1>\n<p>5\\\\ no math here, é</p>";
    let res = katex_replace(text);
    assert_eq!(res.html, text);
    assert!(res.diagnostics.is_empty());
}

#[test]
fn unterminated_and_escaped_dollars_with_katex() {
    assert_eq!(katex_replace("$abc").html, "$abc");
    assert_eq!(katex_replace("5\\$").html, "5$");
    assert_eq!(katex_replace("$a</b>$").html, "$a</b>$");
    assert_eq!(katex_replace("$a$b$").html, format!("{}b$", katex("a", false)));
}

#[test]
fn malformed_formula_is_dropped_with_a_diagnostic() {
    let res = katex_replace("a $\\frac{1$ b");
    assert_eq!(res.html, "a  b");
    assert_eq!(res.diagnostics.len(), 1);
    assert!(res.diagnostics[0].contains("ParseError"));
    assert!(res.diagnostics[0].starts_with("failed to execute js"));
}

#[test]
fn failure_does_not_stop_the_pass() {
    let res = katex_replace("$\\frac{$ and $x$");
    assert_eq!(res.html, format!(" and {}", katex("x", false)));
    assert_eq!(res.diagnostics.len(), 1);
}

#[test]
fn katex_outcome_is_markup_or_message() {
    assert_eq!(katex_outcome("x", false), Ok(katex("x", false)));
    assert_eq!(katex_outcome("x", true), Ok(katex("x", true)));
    let failure = katex_outcome("\\", false);
    assert!(failure.unwrap_err().contains("ParseError"));
}

/// Stands for a Markdown converter: takes one backslash of each pair away
/// and wraps the text in a paragraph.
fn paragraph(source: &str) -> String {
    format!("<p>{}</p>", source.replace("\\\\", "\\"))
}

#[test]
fn conversion_keeps_escaped_dollars_out_of_the_math() {
    let res = math_scopes::convert_with_math("costs 5\\$ and $x$", paragraph);
    assert_eq!(res.html, format!("<p>costs 5$ and {}</p>", katex("x", false)));
    assert!(res.diagnostics.is_empty());
}

#[test]
fn conversion_hands_the_doubled_source_to_the_converter() {
    let seen = std::cell::RefCell::new(Vec::new());
    let record = |source: &str| -> String {
        seen.borrow_mut().push(source.to_string());
        String::new()
    };
    let res = math_scopes::convert_with_math("a\\$b \\\\ $c$", record);
    assert_eq!(res.html, "");
    assert_eq!(*seen.borrow(), vec!["a\\\\$b \\\\ $c$".to_string()]);
}

#[test]
fn conversion_reports_what_katex_refuses() {
    let res = math_scopes::convert_with_math("$\\frac{1$ then $$y$$", paragraph);
    assert_eq!(res.html, format!("<p> then {}</p>", katex("y", true)));
    assert_eq!(res.diagnostics.len(), 1);
}
