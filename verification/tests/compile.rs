use mustache::parser::tokenize;
use mustache::template::CompileContext;
use mustache::token::{sources_of, ParseError, Token};

fn s(x: &str) -> String {
    x.to_string()
}

fn compile(template: &str) -> Vec<Token> {
    tokenize(template, "{{", "}}").unwrap().0
}

fn same(actual: Vec<Token>, expected: Vec<Token>) -> bool {
    format!("{:?}", actual) == format!("{:?}", expected)
}

#[test]
fn test_compile_texts() {
    assert!(same(compile("hello world"), vec![Token::Text(s("hello world"))]));
    assert!(same(compile("hello {world"), vec![Token::Text(s("hello {world"))]));
    assert!(same(compile("hello world}"), vec![Token::Text(s("hello world}"))]));
    assert!(same(compile("hello world}}"), vec![Token::Text(s("hello world}}"))]));
}

#[test]
fn test_compile_etags() {
    assert!(same(compile("{{ name }}"), vec![Token::ETag(vec![s("name")], s("{{ name }}"))]));
    assert!(same(
        compile("before {{name}} after"),
        vec![
            Token::Text(s("before ")),
            Token::ETag(vec![s("name")], s("{{name}}")),
            Token::Text(s(" after")),
        ]
    ));
    assert!(same(
        compile("before {{name}}"),
        vec![Token::Text(s("before ")), Token::ETag(vec![s("name")], s("{{name}}"))]
    ));
    assert!(same(
        compile("{{name}} after"),
        vec![Token::ETag(vec![s("name")], s("{{name}}")), Token::Text(s(" after"))]
    ));
}

#[test]
fn test_compile_utags() {
    assert!(same(compile("{{{name}}}"), vec![Token::UTag(vec![s("name")], s("{{{name}}}"))]));
    assert!(same(
        compile("before {{{name}}} after"),
        vec![
            Token::Text(s("before ")),
            Token::UTag(vec![s("name")], s("{{{name}}}")),
            Token::Text(s(" after")),
        ]
    ));
    assert!(same(
        compile("before {{{name}}}"),
        vec![Token::Text(s("before ")), Token::UTag(vec![s("name")], s("{{{name}}}"))]
    ));
    assert!(same(
        compile("{{{name}}} after"),
        vec![Token::UTag(vec![s("name")], s("{{{name}}}")), Token::Text(s(" after"))]
    ));
}

fn section(
    name: &str,
    inverted: bool,
    children: Vec<Token>,
    osection: &str,
    src: &str,
    csection: &str,
) -> Token {
    Token::Section(
        vec![s(name)],
        inverted,
        children,
        s("{{"),
        s(osection),
        s(src),
        s(csection),
        s("}}"),
    )
}

#[test]
fn test_compile_sections() {
    assert!(same(
        compile("{{# name}}{{/name}}"),
        vec![section("name", false, vec![], "{{# name}}", "", "{{/name}}")]
    ));
    assert!(same(
        compile("before {{^name}}{{/name}} after"),
        vec![
            Token::Text(s("before ")),
            section("name", true, vec![], "{{^name}}", "", "{{/name}}"),
            Token::Text(s(" after")),
        ]
    ));
    assert!(same(
        compile("before {{#name}}{{/name}}"),
        vec![
            Token::Text(s("before ")),
            section("name", false, vec![], "{{#name}}", "", "{{/name}}"),
        ]
    ));
    assert!(same(
        compile("{{#name}}{{/name}} after"),
        vec![
            section("name", false, vec![], "{{#name}}", "", "{{/name}}"),
            Token::Text(s(" after")),
        ]
    ));
    assert!(same(
        compile("before {{#a}} 1 {{^b}} 2 {{/b}} {{/a}} after"),
        vec![
            Token::Text(s("before ")),
            section(
                "a",
                false,
                vec![
                    Token::Text(s(" 1 ")),
                    section("b", true, vec![Token::Text(s(" 2 "))], "{{^b}}", " 2 ", "{{/b}}"),
                    Token::Text(s(" ")),
                ],
                "{{#a}}",
                " 1 {{^b}} 2 {{/b}} ",
                "{{/a}}",
            ),
            Token::Text(s(" after")),
        ]
    ));
}

#[test]
fn test_compile_partials() {
    assert!(same(compile("{{> test}}"), vec![Token::Partial(s("test"), s(""), s("{{> test}}"))]));
    assert!(same(
        compile("before {{>test}} after"),
        vec![
            Token::Text(s("before ")),
            Token::Partial(s("test"), s(""), s("{{>test}}")),
            Token::Text(s(" after")),
        ]
    ));
    assert!(same(
        compile("before {{> test}}"),
        vec![Token::Text(s("before ")), Token::Partial(s("test"), s(""), s("{{> test}}"))]
    ));
    assert!(same(
        compile("{{>test}} after"),
        vec![Token::Partial(s("test"), s(""), s("{{>test}}")), Token::Text(s(" after"))]
    ));
}

#[test]
fn test_compile_delimiters() {
    assert!(same(
        compile("before {{=<% %>=}}<%name%> after"),
        vec![
            Token::Text(s("before ")),
            Token::ETag(vec![s("name")], s("<%name%>")),
            Token::Text(s(" after")),
        ]
    ));
}

#[test]
fn compile_empty_template_has_no_tokens() {
    assert!(same(compile(""), vec![]));
}

#[test]
fn compile_reports_partial_names() {
    let (_, names) = tokenize("{{>a}} {{> b }} {{>a}}", "{{", "}}").unwrap();
    assert_eq!(names, vec![s("a"), s("b"), s("a")]);
}

#[test]
fn compile_dotted_and_dot_names() {
    assert!(same(
        compile("{{a.b}}{{.}}{{&c.}}"),
        vec![
            Token::ETag(vec![s("a"), s("b")], s("{{a.b}}")),
            Token::ETag(vec![], s("{{.}}")),
            Token::UTag(vec![s("c")], s("{{&c.}}")),
        ]
    ));
}

#[test]
fn compile_drops_comments() {
    assert!(same(
        compile("a{{! note }}b"),
        vec![Token::Text(s("a")), Token::Text(s("b"))]
    ));
}

#[test]
fn compile_standalone_section_lines() {
    assert!(same(
        compile("a\n{{#s}}\nb\n{{/s}}\nc"),
        vec![
            Token::Text(s("a\n")),
            section("s", false, vec![Token::Text(s("b\n"))], "{{#s}}", "b\n", "{{/s}}"),
            Token::Text(s("c")),
        ]
    ));
}

#[test]
fn compile_standalone_partial_indent() {
    assert!(same(
        compile("x\n  {{>p}}\ny"),
        vec![
            Token::Text(s("x\n")),
            Token::Partial(s("p"), s("  "), s("{{>p}}")),
            Token::Text(s("y")),
        ]
    ));
}

#[test]
fn compile_errors() {
    assert_eq!(tokenize("{{name", "{{", "}}").unwrap_err(), ParseError::UnclosedTag);
    assert_eq!(tokenize("{{#a}}x", "{{", "}}").unwrap_err(), ParseError::UnclosedSection);
    assert_eq!(tokenize("{{# }}", "{{", "}}").unwrap_err(), ParseError::EmptyTag);
    assert_eq!(tokenize("{{}}", "{{", "}}").unwrap_err(), ParseError::EmptyTagContent);
    assert_eq!(tokenize("{{{a}b}}", "{{", "}}").unwrap_err(), ParseError::UnbalancedBrace);
    assert_eq!(tokenize("{{/a}}", "{{", "}}").unwrap_err(), ParseError::ClosingUnopenedSection);
    assert_eq!(tokenize("{{#a}}{{/b}}", "{{", "}}").unwrap_err(), ParseError::MismatchedSection);
    assert_eq!(tokenize("{{=<%=}}", "{{", "}}").unwrap_err(), ParseError::InvalidDelimiter);
    assert_eq!(tokenize("x", "", "}}").unwrap_err(), ParseError::EmptyDelimiter);
    assert_eq!(tokenize("{{a}b}}", "{{", "}}").unwrap_err(), ParseError::NotPartOfCtag('b', '}'));
}

#[test]
fn compile_unfinished_delimiters_become_text() {
    assert!(same(compile("a {"), vec![Token::Text(s("a {"))]));
    assert!(same(compile("{{a}"), vec![Token::Text(s("a}"))]));
    assert!(same(compile("x {"), vec![Token::Text(s("x {"))]));
}

#[test]
fn compile_context_loads_each_partial_once() {
    let mut cc = CompileContext::new(s("{{"), s("}}"));
    cc.tokenize_template("{{>p}}{{>q}}{{>p}}").unwrap();
    assert_eq!(cc.next_partial(), Some(s("p")));
    assert_eq!(cc.next_partial(), Some(s("q")));
    assert_eq!(cc.next_partial(), None);
    let mut inner = cc.nested();
    inner.tokenize_template("{{>p}}{{>r}}").unwrap();
    assert_eq!(inner.next_partial(), Some(s("r")));
    assert_eq!(inner.next_partial(), None);
}

#[test]
fn compiled_sources_give_back_the_template() {
    let template = "a {{x}} {{{y}}} {{&z}} {{#s}}b{{^t}}c{{/t}}{{/s}} {{>p}} e";
    let tokens = compile(template);
    assert_eq!(sources_of(&tokens), s(template));
    let clone = tokens.clone();
    assert!(same(clone, compile(template)));
}
