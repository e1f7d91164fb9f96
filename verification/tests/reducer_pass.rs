use alias8n::alias::AliasError;
use alias8n::reducer::Reducer;
use alias8n::reducer::ReducerConfig;
use alias8n::scan::resolve_document;
use alias8n::text::marker;
use alias8n::text::replace_all;
use alias8n::text::trim;
use alias8n::text::split_char;
use alias8n::value::JsonValue;

fn entries(list: Vec<(&str, JsonValue)>) -> Vec<(String, JsonValue)> {
    list.into_iter().map(|(k, v)| (k.to_string(), v)).collect()
}

fn s(text: &str) -> JsonValue {
    JsonValue::Str(text.to_string())
}

fn run(src: &str, ctx: Vec<(String, JsonValue)>, aliases: Vec<&str>) -> (String, Vec<String>) {
    let config = ReducerConfig {
        src_string: src.to_string(),
        ctx,
        aliases: aliases.into_iter().map(|a| a.to_string()).collect(),
    };
    let mut reducer = Reducer::new(config);
    let out = reducer.init();
    let kinds = reducer
        .diagnostics
        .iter()
        .map(|d| match &d.error {
            AliasError::InvalidAlias(_) => format!("alias:{}", d.token),
            AliasError::InvalidContext(_) => format!("context:{}", d.token),
        })
        .collect();
    (out, kinds)
}

#[test]
fn end_to_end_string_value() {
    let ctx = JsonValue::Obj(entries(vec![("name", s("John"))]));
    let out = resolve_document("Hello a(:name:)!", ctx);
    assert_eq!(out, "Hello John!");
}

#[test]
fn end_to_end_number_value() {
    let ctx = JsonValue::Obj(entries(vec![("age", JsonValue::Num("30".to_string()))]));
    let out = resolve_document("age: a(:age:)", ctx);
    assert_eq!(out, "age: 30");
}

#[test]
fn end_to_end_nested_value() {
    let inner = JsonValue::Obj(entries(vec![("car1", s("Ford"))]));
    let ctx = JsonValue::Obj(entries(vec![("cars", inner)]));
    let out = resolve_document("I drive a a(:cars.car1:)", ctx);
    assert_eq!(out, "I drive a Ford");
}

#[test]
fn end_to_end_template_arguments() {
    let ctx = JsonValue::Obj(entries(vec![("template", s("Hello, <1>! You are <2>."))]));
    let out = resolve_document("a(:template, Nick, 99:)", ctx);
    assert_eq!(out, "Hello, Nick! You are 99.");
}

#[test]
fn end_to_end_unknown_key_left_verbatim() {
    let ctx = JsonValue::Obj(entries(vec![("name", s("John"))]));
    let out = resolve_document("see a(:unknown:) here", ctx);
    assert_eq!(out, "see a(:unknown:) here");
}

#[test]
fn reducer_resolves_scalars_and_paths() {
    let cars = JsonValue::Obj(entries(vec![("car1", s("Ford"))]));
    let ctx = entries(vec![("name", s("John")), ("cars", cars)]);
    let (out, kinds) = run(
        "a(:name:) drives a a(:cars.car1:)",
        ctx,
        vec!["a(:name:)", "a(:cars.car1:)"],
    );
    assert_eq!(out, "John drives a Ford");
    assert_eq!(kinds, Vec::<String>::new());
}

#[test]
fn reducer_array_applies_elements_in_order() {
    let ctx = entries(vec![("list", JsonValue::Arr(vec![s("one"), s("two")]))]);
    let (out, kinds) = run(
        "x a(:list:) y a(:list:) z",
        ctx,
        vec!["a(:list:)", "a(:list:)"],
    );
    // the first element's commit replaces every occurrence of the token at
    // once, so later elements find nothing left to rewrite
    assert_eq!(out, "x one y one z");
    assert_eq!(kinds, Vec::<String>::new());
}

#[test]
fn reducer_nested_array_elements_are_terminals() {
    let inner = JsonValue::Arr(vec![s("deep")]);
    let ctx = entries(vec![("list", JsonValue::Arr(vec![inner]))]);
    let (out, kinds) = run("a(:list:)", ctx, vec!["a(:list:)"]);
    assert_eq!(out, "deep");
    assert_eq!(kinds, Vec::<String>::new());
}

#[test]
fn reducer_missing_key_reports_invalid_alias() {
    let ctx = entries(vec![("name", s("John"))]);
    let (out, kinds) = run("keep a(:unknown:)", ctx, vec!["a(:unknown:)"]);
    assert_eq!(out, "keep a(:unknown:)");
    assert_eq!(kinds, vec!["alias:a(:unknown:)".to_string()]);
}

#[test]
fn reducer_null_leaf_reports_invalid_alias() {
    let ctx = entries(vec![("nothing", JsonValue::Null)]);
    let (out, kinds) = run("keep a(:nothing:)", ctx, vec!["a(:nothing:)"]);
    assert_eq!(out, "keep a(:nothing:)");
    assert_eq!(kinds, vec!["alias:a(:nothing:)".to_string()]);
}

#[test]
fn reducer_bare_object_reports_invalid_context() {
    let inner = JsonValue::Obj(entries(vec![("k", s("v"))]));
    let outer = JsonValue::Obj(entries(vec![("inner", inner)]));
    let ctx = entries(vec![("o", outer)]);
    let (out, kinds) = run("keep a(:o:)", ctx, vec!["a(:o:)"]);
    assert_eq!(out, "keep a(:o:)");
    assert_eq!(kinds, vec!["context:a(:o:)".to_string()]);
}

#[test]
fn reducer_one_failure_does_not_stop_the_pass() {
    let ctx = entries(vec![("name", s("John"))]);
    let (out, kinds) = run(
        "a(:bad:) then a(:name:)",
        ctx,
        vec!["a(:bad:)", "a(:name:)"],
    );
    assert_eq!(out, "a(:bad:) then John");
    assert_eq!(kinds, vec!["alias:a(:bad:)".to_string()]);
}

#[test]
fn replace_all_is_global_and_left_to_right() {
    assert_eq!(replace_all("abb", "ab", "a"), "ab");
    assert_eq!(replace_all("xxx", "xx", "y"), "yx");
    assert_eq!(replace_all("none", "zz", "y"), "none");
    assert_eq!(replace_all("abc", "", "y"), "abc");
}

#[test]
fn trim_removes_surrounding_whitespace_only() {
    assert_eq!(trim("  a b \t"), "a b");
    assert_eq!(trim("ab"), "ab");
    assert_eq!(trim(" \n "), "");
}

#[test]
fn split_keeps_empty_segments() {
    assert_eq!(split_char("a,b", ','), vec!["a", "b"]);
    assert_eq!(split_char("", ','), vec![""]);
    assert_eq!(split_char(",", ','), vec!["", ""]);
    assert_eq!(split_char("a.b.c", '.'), vec!["a", "b", "c"]);
}

#[test]
fn markers_render_in_decimal() {
    assert_eq!(marker(1), "<1>");
    assert_eq!(marker(12), "<12>");
    assert_eq!(marker(305), "<305>");
}
