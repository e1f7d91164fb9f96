use alias8n::alias::process_alias;
use alias8n::alias::get_value_from_ctx;
use alias8n::alias::replace_aliases;
use alias8n::alias::AliasError;
use alias8n::value::JsonValue;

fn obj(entries: Vec<(&str, JsonValue)>) -> JsonValue {
    JsonValue::Obj(entries.into_iter().map(|(k, v)| (k.to_string(), v)).collect())
}

fn s(text: &str) -> JsonValue {
    JsonValue::Str(text.to_string())
}

fn sample_ctx() -> JsonValue {
    obj(vec![
        ("name", s("John")),
        ("age", JsonValue::Num("30".to_string())),
        ("cars", obj(vec![("car1", s("Ford")), ("car2", s("BMW")), ("car3", s("Fiat"))])),
        (
            "template",
            s("Hello, <1>! You are <2> years old. You have <3>, <4> and <5> cars."),
        ),
    ])
}

#[test]
fn test_get_value_from_ctx() {
    let ctx = sample_ctx();
    let value = get_value_from_ctx(vec!["name"], &ctx).unwrap();
    assert_eq!(value, "John");
    let value = get_value_from_ctx(vec!["age"], &ctx).unwrap();
    assert_eq!(value, "30");
    let value = get_value_from_ctx(vec!["cars", "car1"], &ctx).unwrap();
    assert_eq!(value, "Ford");
    let value = get_value_from_ctx(vec!["cars", "car2"], &ctx).unwrap();
    assert_eq!(value, "BMW");
    let value = get_value_from_ctx(vec!["cars", "car3"], &ctx).unwrap();
    assert_eq!(value, "Fiat");
}

#[test]
fn test_process_alias() {
    let ctx = sample_ctx();
    let alias = "a(:name:)";
    let value = process_alias(alias, &ctx).unwrap();
    assert_eq!(value, "John");
    let alias = "a(:age:)";
    let value = process_alias(alias, &ctx).unwrap();
    assert_eq!(value, "30");
    let alias = "a(:cars.car1:)";
    let value = process_alias(alias, &ctx).unwrap();
    assert_eq!(value, "Ford");
    let alias = "a(:cars.car2:)";
    let value = process_alias(alias, &ctx).unwrap();
    assert_eq!(value, "BMW");
    let alias = "a(:cars.car3:)";
    let value = process_alias(alias, &ctx).unwrap();
    assert_eq!(value, "Fiat");
    let alias = "a(:template, Nick, 99, X, Y, Z:)";
    let value = process_alias(alias, &ctx).unwrap();
    assert_eq!(value, "Hello, Nick! You are 99 years old. You have X, Y and Z cars.");
}

#[test]
fn missing_key_is_invalid_alias() {
    let ctx = sample_ctx();
    let err = process_alias("a(:unknown:)", &ctx).unwrap_err();
    assert!(matches!(err, AliasError::InvalidAlias(_)));
}

#[test]
fn missing_nested_segment_is_invalid_alias() {
    let ctx = sample_ctx();
    let err = process_alias("a(:cars.car9:)", &ctx).unwrap_err();
    assert!(matches!(err, AliasError::InvalidAlias(_)));
}

#[test]
fn null_leaf_is_invalid_alias() {
    let ctx = obj(vec![("nothing", JsonValue::Null)]);
    let err = process_alias("a(:nothing:)", &ctx).unwrap_err();
    assert!(matches!(err, AliasError::InvalidAlias(_)));
}

#[test]
fn bare_object_is_invalid_context() {
    let ctx = sample_ctx();
    let err = process_alias("a(:cars:)", &ctx).unwrap_err();
    assert!(matches!(err, AliasError::InvalidContext(_)));
}

#[test]
fn array_leaf_is_invalid_context_in_simple_engine() {
    let ctx = obj(vec![("list", JsonValue::Arr(vec![s("a"), s("b")]))]);
    let err = process_alias("a(:list:)", &ctx).unwrap_err();
    assert!(matches!(err, AliasError::InvalidContext(_)));
}

#[test]
fn boolean_leaf_renders_canonically() {
    let ctx = obj(vec![("yes", JsonValue::Bool(true)), ("no", JsonValue::Bool(false))]);
    assert_eq!(process_alias("a(:yes:)", &ctx).unwrap(), "true");
    assert_eq!(process_alias("a(:no:)", &ctx).unwrap(), "false");
}

#[test]
fn template_arguments_are_trimmed() {
    let ctx = obj(vec![("greet", s("Hi <1> and <2>!"))]);
    let value = process_alias("a(:greet,   Ann  ,\tBob:)", &ctx).unwrap();
    assert_eq!(value, "Hi Ann and Bob!");
}

#[test]
fn unmatched_markers_stay_literal() {
    let ctx = obj(vec![("greet", s("Hi <1>, <2> and <3>!"))]);
    let value = process_alias("a(:greet, Ann:)", &ctx).unwrap();
    assert_eq!(value, "Hi Ann, <2> and <3>!");
}

#[test]
fn arguments_substitute_sequentially() {
    // markers are replaced one argument at a time, in order, so an argument
    // that itself reads like a later marker is rewritten by that later pass
    let ctx = obj(vec![("t", s("<1>"))]);
    let value = process_alias("a(:t, <2>, Z:)", &ctx).unwrap();
    assert_eq!(value, "Z");
}

#[test]
fn extra_arguments_are_unused() {
    let ctx = obj(vec![("greet", s("Hi <1>!"))]);
    let value = process_alias("a(:greet, Ann, Bob, Cid:)", &ctx).unwrap();
    assert_eq!(value, "Hi Ann!");
}

#[test]
fn every_occurrence_is_replaced() {
    let ctx = sample_ctx();
    let aliases = vec!["a(:name:)".to_string()];
    let out = replace_aliases("a(:name:) meets a(:name:)", &aliases, ctx);
    assert_eq!(out, "John meets John");
}

#[test]
fn unresolved_token_left_verbatim() {
    let ctx = sample_ctx();
    let aliases = vec!["a(:unknown:)".to_string(), "a(:name:)".to_string()];
    let out = replace_aliases("a(:unknown:) / a(:name:)", &aliases, ctx);
    assert_eq!(out, "a(:unknown:) / John");
}
