use std::path::PathBuf;

use mustache::data::{map_insert, Data, Lambda};
use mustache::render::{render_helper, RenderContext, RenderError};
use mustache::template::{CompileContext, Context, Template};
use mustache::token::{ParseError, Token};

fn s(x: &str) -> String {
    x.to_string()
}

/// A lambda given by a plain function.
struct Fun(fn(String) -> String);

impl Lambda for Fun {
    fn call(&self, text: String) -> String {
        (self.0)(text)
    }
}

type D = Data<Fun>;

/// Compiles a template; partials are given as (name, source) pairs.
fn compile_with(template: &str, sources: &[(&str, &str)]) -> Template {
    let mut cc = CompileContext::new(s("{{"), s("}}"));
    let tokens = cc.tokenize_template(template).unwrap();
    while let Some(name) = cc.next_partial() {
        if let Some((_, src)) = sources.iter().find(|(n, _)| *n == name) {
            let mut inner = cc.nested();
            let toks = inner.tokenize_template(src).unwrap();
            cc.insert_partial(name, toks);
        }
    }
    Template::new(Context::new(PathBuf::from(".")), tokens, cc.into_partials())
}

fn compile_str(template: &str) -> Template {
    compile_with(template, &[])
}

fn map(entries: Vec<(&str, D)>) -> D {
    let mut m = Vec::new();
    for (k, v) in entries {
        map_insert(&mut m, s(k), v);
    }
    Data::Dict(m)
}

fn name_world() -> D {
    map(vec![("name", Data::Str(s("world")))])
}

fn render_str(template: &str, data: D) -> Result<String, RenderError> {
    compile_str(template).render_data(data)
}

#[test]
fn test_render_texts() {
    assert_eq!(render_str("hello world", name_world()).unwrap(), s("hello world"));
    assert_eq!(render_str("hello {world", name_world()).unwrap(), s("hello {world"));
    assert_eq!(render_str("hello world}", name_world()).unwrap(), s("hello world}"));
    assert_eq!(render_str("hello {world}", name_world()).unwrap(), s("hello {world}"));
    assert_eq!(render_str("hello world}}", name_world()).unwrap(), s("hello world}}"));
}

#[test]
fn test_render_etags() {
    assert_eq!(render_str("hello {{name}}", name_world()).unwrap(), s("hello world"));
}

#[test]
fn test_render_utags() {
    assert_eq!(render_str("hello {{{name}}}", name_world()).unwrap(), s("hello world"));
}

#[test]
fn test_render_sections() {
    let template = compile_str("0{{#a}}1 {{n}} 3{{/a}}5");

    assert_eq!(template.render_data(map(vec![])).unwrap(), s("05"));
    assert_eq!(template.render_data(map(vec![("a", Data::Vec(vec![]))])).unwrap(), s("05"));
    assert_eq!(
        template.render_data(map(vec![("a", Data::Vec(vec![map(vec![])]))])).unwrap(),
        s("01  35")
    );
    assert_eq!(
        template
            .render_data(map(vec![("a", Data::Vec(vec![map(vec![("n", Data::Str(s("a")))])]))]))
            .unwrap(),
        s("01 a 35")
    );
}

#[test]
fn test_render_inverted_sections() {
    let template = compile_str("0{{^a}}1 3{{/a}}5");

    assert_eq!(template.render_data(map(vec![])).unwrap(), s("01 35"));
    assert_eq!(template.render_data(map(vec![("a", Data::Vec(vec![]))])).unwrap(), s("01 35"));
    assert_eq!(
        template.render_data(map(vec![("a", Data::Vec(vec![map(vec![])]))])).unwrap(),
        s("05")
    );
    assert_eq!(
        template
            .render_data(map(vec![("a", Data::Vec(vec![map(vec![("n", Data::Str(s("a")))])]))]))
            .unwrap(),
        s("05")
    );
}

#[test]
fn render_escapes_variables() {
    let data = || map(vec![("x", Data::Str(s("<a & 'b'> \"c\"")))]);
    assert_eq!(
        render_str("{{x}}", data()).unwrap(),
        s("&lt;a &amp; &#39;b&#39;&gt; &quot;c&quot;")
    );
    assert_eq!(render_str("{{{x}}}", data()).unwrap(), s("<a & 'b'> \"c\""));
    assert_eq!(render_str("{{&x}}", data()).unwrap(), s("<a & 'b'> \"c\""));
}

#[test]
fn render_dotted_names_and_dot() {
    let data = map(vec![("a", map(vec![("b", Data::Str(s("c")))]))]);
    assert_eq!(render_str("{{a.b}}", data).unwrap(), s("c"));
    let list = map(vec![("l", Data::Vec(vec![Data::Str(s("x")), Data::Str(s("y"))]))]);
    assert_eq!(render_str("{{#l}}{{.}},{{/l}}", list).unwrap(), s("x,y,"));
}

#[test]
fn render_outer_context_is_visible_in_sections() {
    let data = map(vec![
        ("who", Data::Str(s("me"))),
        ("s", map(vec![("x", Data::Str(s("1")))])),
    ]);
    assert_eq!(render_str("{{#s}}{{x}}{{who}}{{/s}}", data).unwrap(), s("1me"));
}

#[test]
fn render_booleans() {
    let t = compile_str("{{#b}}yes{{/b}}{{^b}}no{{/b}}");
    assert_eq!(t.render_data(map(vec![("b", Data::Bool(true))])).unwrap(), s("yes"));
    assert_eq!(t.render_data(map(vec![("b", Data::Bool(false))])).unwrap(), s("no"));
}

#[test]
fn render_missing_names_render_nothing() {
    assert_eq!(render_str("[{{x}}|{{{y}}}|{{#z}}z{{/z}}]", map(vec![])).unwrap(), s("[||]"));
}

#[test]
fn render_partials_with_indentation() {
    let t = compile_with("x\n  {{>p}}\ny", &[("p", "a\nb\n")]);
    assert_eq!(t.render_data(map(vec![])).unwrap(), s("x\n  a\n  b\ny"));
}

#[test]
fn render_unknown_partial_renders_nothing() {
    let t = compile_with("a{{>nope}}b", &[]);
    assert_eq!(t.render_data(map(vec![])).unwrap(), s("ab"));
}

#[test]
fn render_lambdas() {
    fn planet(_: String) -> String {
        s("{{planet}}")
    }
    fn yes_for_x(text: String) -> String {
        if text == "{{x}}" {
            s("yes")
        } else {
            s("no")
        }
    }
    fn wrap(text: String) -> String {
        format!("__{}__", text)
    }
    let data = || {
        map(vec![
            ("planet", Data::Str(s("world"))),
            ("expand", Data::Fun(Fun(planet))),
            ("check", Data::Fun(Fun(yes_for_x))),
            ("wrap", Data::Fun(Fun(wrap))),
        ])
    };
    assert_eq!(render_str("hello {{expand}}", data()).unwrap(), s("hello world"));
    assert_eq!(render_str("<{{#check}}{{x}}{{/check}}>", data()).unwrap(), s("<yes>"));
    assert_eq!(render_str("{{#wrap}}{{planet}}{{/wrap}}", data()).unwrap(), s("__world__"));
}

#[test]
fn render_errors() {
    assert_eq!(
        render_str("{{a}}", map(vec![("a", Data::Bool(true))])).unwrap_err(),
        RenderError::NotAString
    );
    assert_eq!(
        render_str("{{#a}}x{{/a}}", map(vec![("a", Data::Str(s("s")))])).unwrap_err(),
        RenderError::NotASection
    );
    assert_eq!(render_str("{{a}}", Data::Str(s("x"))).unwrap_err(), RenderError::ContextNotAMap);
    let t = Template::new(
        Context::new(PathBuf::from(".")),
        vec![Token::IncompleteSection(vec![s("a")], false, s("{{#a}}"), false)],
        CompileContext::new(s("{{"), s("}}")).into_partials(),
    );
    assert_eq!(t.render_data(map(vec![])).unwrap_err(), RenderError::IncompleteSection);
    fn broken(_: String) -> String {
        s("{{")
    }
    assert_eq!(
        render_str("{{f}}", map(vec![("f", Data::Fun(Fun(broken)))])).unwrap_err(),
        RenderError::Lambda(ParseError::UnclosedTag)
    );
}

#[test]
fn map_insert_replaces_values() {
    let mut m: Vec<(String, D)> = Vec::new();
    map_insert(&mut m, s("k"), Data::Str(s("1")));
    map_insert(&mut m, s("k"), Data::Str(s("2")));
    assert_eq!(m.len(), 1);
    assert_eq!(render_str("{{k}}", Data::Dict(m)).unwrap(), s("2"));
}

#[test]
fn context_defaults() {
    let c = Context::new(PathBuf::from("templates"));
    assert_eq!(c.template_path(), &PathBuf::from("templates"));
    assert_eq!(c.template_extension(), "mustache");
}

#[test]
fn render_depth_limits_partials() {
    let t = compile_with("[{{>a}}]", &[("a", "<{{>b}}>"), ("b", "x")]);
    let data = map(vec![]);
    let ctx = RenderContext { partials: t.partials(), stack: vec![&data], indent: s("") };
    assert_eq!(render_helper(&t.tokens, &ctx, 0).unwrap_err(), RenderError::TooDeep);
    // The partial "b" is only referenced inside "a", so it is not compiled.
    assert_eq!(render_helper(&t.tokens, &ctx, 1).unwrap(), s("[<>]"));
    assert_eq!(render_helper(&t.tokens, &ctx, 5).unwrap(), s("[<>]"));
}

#[test]
fn render_inverted_missing_name() {
    assert_eq!(render_str("{{^z}}z{{/z}}", map(vec![])).unwrap(), s("z"));
}

#[test]
fn render_concatenates_token_outputs() {
    let data = || map(vec![("x", Data::Str(s("1"))), ("y", Data::Str(s("2")))]);
    let a = render_str("{{x}}-", data()).unwrap();
    let b = render_str("{{y}}", data()).unwrap();
    assert_eq!(render_str("{{x}}-{{y}}", data()).unwrap(), format!("{}{}", a, b));
}

#[test]
fn render_standalone_section_lines() {
    let t = compile_str("a\n{{#s}}\nb\n{{/s}}\nc");
    assert_eq!(t.render_data(map(vec![("s", Data::Bool(true))])).unwrap(), s("a\nb\nc"));
    assert_eq!(t.render_data(map(vec![("s", Data::Bool(false))])).unwrap(), s("a\nc"));
}

#[test]
fn render_lambdas_with_delimiters_escaping_and_depth() {
    fn wrap(text: String) -> String {
        format!("__{}__", text)
    }
    fn bold(_: String) -> String {
        s("<b>{{planet}}</b>")
    }
    let data = || {
        map(vec![
            ("planet", Data::Str(s("world"))),
            ("wrap", Data::Fun(Fun(wrap))),
            ("bold", Data::Fun(Fun(bold))),
        ])
    };
    // A section's lambda gets the section's source and its output is
    // compiled with the delimiters in force.
    assert_eq!(render_str("{{=| |=}}|#wrap||planet||/wrap|", data()).unwrap(), s("__world__"));
    // A variable's lambda output is compiled with the default delimiters,
    // and escaped unless the tag is triple.
    assert_eq!(render_str("{{=| |=}}|bold|", data()).unwrap(), s("&lt;b&gt;world&lt;/b&gt;"));
    assert_eq!(render_str("{{{bold}}}", data()).unwrap(), s("<b>world</b>"));
    let t = compile_str("{{#wrap}}x{{/wrap}}");
    let d = data();
    let ctx = RenderContext { partials: t.partials(), stack: vec![&d], indent: s("") };
    assert_eq!(render_helper(&t.tokens, &ctx, 0).unwrap_err(), RenderError::TooDeep);
    assert_eq!(render_helper(&t.tokens, &ctx, 1).unwrap(), s("__x__"));
}

#[test]
fn sections_and_inverted_sections_complement_over_lists_and_maps() {
    let values = || {
        vec![
            Data::Bool(true),
            Data::Bool(false),
            Data::Vec(vec![]),
            Data::Vec(vec![Data::Str(s("1")), Data::Str(s("2"))]),
            map(vec![]),
        ]
    };
    let expected_sections = ["x", "", "", "xx", "x"];
    for (v, sec) in values().into_iter().zip(expected_sections.iter()) {
        let out = render_str("{{#a}}x{{/a}}", map(vec![("a", v)])).unwrap();
        assert_eq!(out, s(sec));
    }
    for (v, sec) in values().into_iter().zip(expected_sections.iter()) {
        let inv = render_str("{{^a}}x{{/a}}", map(vec![("a", v)])).unwrap();
        assert_eq!(inv.is_empty(), !sec.is_empty());
        assert!(inv == "x" || inv.is_empty());
    }
}

#[test]
fn map_insert_keeps_names_distinct() {
    let mut m: Vec<(String, D)> = Vec::new();
    map_insert(&mut m, s("a"), Data::Str(s("1")));
    map_insert(&mut m, s("b"), Data::Str(s("2")));
    map_insert(&mut m, s("a"), Data::Str(s("3")));
    let names: Vec<&String> = m.iter().map(|(k, _)| k).collect();
    assert_eq!(names, vec![&s("a"), &s("b")]);
    assert_eq!(render_str("{{a}}{{b}}", Data::Dict(m)).unwrap(), s("32"));
}

#[test]
fn self_referring_partial_is_compiled_once_and_ends() {
    let t = compile_with("{{>node}}", &[("node", "{{>node}}")]);
    let data = map(vec![]);
    let ctx = RenderContext { partials: t.partials(), stack: vec![&data], indent: s("") };
    // The partial holds itself, so rendering it nests until the depth limit.
    assert_eq!(render_helper(&t.tokens, &ctx, 3).unwrap_err(), RenderError::TooDeep);
}

#[test]
fn render_lambda_tokens_keep_what_follows() {
    fn shout(_: String) -> String {
        s("HEY")
    }
    let data = || map(vec![("f", Data::Fun(Fun(shout))), ("x", Data::Str(s("1")))]);
    let a = render_str("{{f}}-", data()).unwrap();
    let b = render_str("{{x}}{{#f}}z{{/f}}", data()).unwrap();
    assert_eq!(render_str("{{f}}-{{x}}{{#f}}z{{/f}}", data()).unwrap(), format!("{}{}", a, b));
    assert_eq!(a, s("HEY-"));
    assert_eq!(b, s("1HEY"));
}
