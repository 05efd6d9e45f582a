use html_modal::render::{token_kind, TokenKind};
use html_modal::scan::{capture_body, parse_token_key, parse_token_type};
use html_modal::{get_display_string, get_display_value, process_string, Number, Value};

fn s(t: &str) -> Value {
    Value::Str(String::from(t))
}

fn obj(members: Vec<(&str, Value)>) -> Value {
    Value::Object(members.into_iter().map(|(k, v)| (String::from(k), v)).collect())
}

fn integer(n: i128) -> Value {
    Value::Number(Number::Int(n))
}

fn chars(t: &str) -> Vec<char> {
    t.chars().collect()
}

fn render(doc: &str, ctx: &Value) -> String {
    process_string(&String::from(doc), ctx)
}

fn empty() -> Value {
    obj(vec![])
}

#[test]
fn plain_text_comes_out_unchanged() {
    let doc = "Hello <b>world</b> {x} ; : . [0]";
    assert_eq!(render(doc, &obj(vec![("x", s("y"))])), doc);
}

#[test]
fn escaped_token_is_literal() {
    assert_eq!(render("\\@value:x;", &obj(vec![("x", s("1"))])), "@value:x;");
}

#[test]
fn trailing_backslash_is_dropped() {
    assert_eq!(render("abc\\", &empty()), "abc");
}

#[test]
fn escape_copies_any_character() {
    assert_eq!(render("a\\\\b\\{c", &empty()), "a\\b{c");
}

#[test]
fn simple_substitution() {
    assert_eq!(render("@value:name;", &obj(vec![("name", s("Bob"))])), "Bob");
}

#[test]
fn type_name_is_case_insensitive() {
    assert_eq!(render("@VALUE:name;", &obj(vec![("name", s("Bob"))])), "Bob");
    assert_eq!(render("@If:b;{Y}", &obj(vec![("b", Value::Bool(true))])), "Y");
}

#[test]
fn conditional_true_and_false() {
    assert_eq!(render("@if:b;{Y}", &obj(vec![("b", Value::Bool(true))])), "Y");
    assert_eq!(render("@if:b;{Y}", &obj(vec![("b", Value::Bool(false))])), "");
}

#[test]
fn conditional_on_non_bool_is_false() {
    assert_eq!(render("@if:b;{Y}z", &obj(vec![("b", s("true"))])), "z");
    assert_eq!(render("@if:missing;{Y}z", &empty()), "z");
}

#[test]
fn loop_with_scoped_addressing() {
    let ctx = obj(vec![(
        "users",
        Value::Array(vec![obj(vec![("name", s("A"))]), obj(vec![("name", s("B"))])]),
    )]);
    assert_eq!(render("@for:users;{@forvalue:0.name;,}", &ctx), "A,B,");
}

#[test]
fn loop_over_non_array_emits_nothing() {
    assert_eq!(render("@for:u;{x}!", &obj(vec![("u", s("abc"))])), "!");
}

#[test]
fn nested_loop_addresses_by_absolute_index() {
    let ctx = obj(vec![(
        "groups",
        Value::Array(vec![
            obj(vec![
                ("x", s("G1")),
                (
                    "members",
                    Value::Array(vec![obj(vec![("name", s("a"))]), obj(vec![("name", s("b"))])]),
                ),
            ]),
            obj(vec![
                ("x", s("G2")),
                ("members", Value::Array(vec![obj(vec![("name", s("c"))])])),
            ]),
        ]),
    )]);
    let doc = "@for:groups;{@forfor:0.members;{@forvalue:1.name;/@forvalue:0.x;,}|}";
    assert_eq!(render(doc, &ctx), "a/G1,b/G1,|c/G2,|");
}

#[test]
fn forif_reads_the_scope_entry() {
    let ctx = obj(vec![(
        "users",
        Value::Array(vec![
            obj(vec![("name", s("A")), ("admin", Value::Bool(true))]),
            obj(vec![("name", s("B")), ("admin", Value::Bool(false))]),
        ]),
    )]);
    let doc = "@for:users;{@forif:0.admin;{*}@forvalue:0.name;,}";
    assert_eq!(render(doc, &ctx), "*A,B,");
}

#[test]
fn scoped_tokens_with_bad_index_emit_nothing() {
    let ctx = obj(vec![("l", Value::Array(vec![obj(vec![("n", s("v"))])]))]);
    assert_eq!(render("@forvalue:0.name;x", &empty()), "x");
    assert_eq!(render("@for:l;{@forvalue:1.n;@forvalue:z.n;@forvalue:0.n;}", &ctx), "v");
    assert_eq!(render("@for:l;{@forfor:0;{q}@forif:7.n;{q}.}", &ctx), ".");
}

#[test]
fn chained_bracket_indexing() {
    let ctx = obj(vec![(
        "matrix",
        Value::Array(vec![
            Value::Array(vec![integer(0), integer(1)]),
            Value::Array(vec![integer(3), integer(4)]),
        ]),
    )]);
    assert_eq!(get_display_value(&ctx, "matrix[1][0]"), Some(&integer(3)));
    assert_eq!(render("@value:matrix[1][0];", &ctx), "3");
}

#[test]
fn out_of_range_index_keeps_the_value() {
    let ctx = obj(vec![("a", Value::Array(vec![s("x"), s("y")]))]);
    assert_eq!(
        get_display_value(&ctx, "a[5]"),
        Some(&Value::Array(vec![s("x"), s("y")]))
    );
    assert_eq!(get_display_value(&ctx, "a[5][1]"), Some(&s("y")));
    assert_eq!(get_display_value(&ctx, "a[+1]"), Some(&s("y")));
    assert_eq!(get_display_value(&ctx, "a[q]"), Some(&Value::Array(vec![s("x"), s("y")])));
}

#[test]
fn walk_stops_at_scalars_and_plain_segments_on_arrays() {
    let ctx = obj(vec![("a", s("x")), ("l", Value::Array(vec![s("p")]))]);
    assert_eq!(get_display_value(&ctx, "a.b.c"), Some(&s("x")));
    assert_eq!(get_display_value(&ctx, "l.b"), Some(&Value::Array(vec![s("p")])));
    assert_eq!(get_display_value(&ctx, "missing.b"), None);
    assert_eq!(get_display_value(&Value::Array(vec![s("p")]), "x[0]"), None);
}

#[test]
fn unknown_type_passes_through() {
    assert_eq!(render("@foo:bar;", &empty()), "@foo:bar;");
    assert_eq!(render("@foo:bar{x}", &empty()), "@foo:bar;{x}");
}

#[test]
fn balanced_body_is_captured_whole() {
    let ctx = obj(vec![("b", Value::Bool(true)), ("n", s("N"))]);
    assert_eq!(render("@if:b;{a{b}c}d", &ctx), "a{b}cd");
    assert_eq!(render("@if:b;{[{@value:n;}]}", &ctx), "[{N}]");
}

#[test]
fn body_search_skips_text_and_needs_no_semicolon() {
    let ctx = obj(vec![("b", Value::Bool(true))]);
    assert_eq!(render("@if:b; junk {Y}z", &ctx), "Yz");
    assert_eq!(render("@if:b{Y}z", &ctx), "Yz");
}

#[test]
fn block_without_body_consumes_the_rest() {
    let ctx = obj(vec![("b", Value::Bool(true))]);
    assert_eq!(render("x@if:b; no body", &ctx), "x");
}

#[test]
fn unclosed_body_ends_before_the_last_character() {
    let ctx = obj(vec![("b", Value::Bool(true))]);
    assert_eq!(render("@if:b;{abc", &ctx), "ab");
    assert_eq!(render("@if:b;{", &ctx), "");
}

#[test]
fn malformed_tokens_are_copied() {
    let ctx = obj(vec![("value", s("V"))]);
    assert_eq!(render("@a b:c;", &ctx), "@a b:c;");
    assert_eq!(render("mail a@b.com today", &ctx), "mail a@b.com today");
    assert_eq!(render("x@abc", &ctx), "x@abc");
    assert_eq!(render("@value:name", &ctx), "@value:name");
    assert_eq!(render("@value:", &ctx), "@value:");
    assert_eq!(render("@value:a b;", &ctx), "@value:a b;");
}

#[test]
fn key_length_limit() {
    let ok_key = "a".repeat(1000);
    let long_key = "a".repeat(1001);
    let ctx = empty();
    assert_eq!(render(&format!("@value:{};", ok_key), &ctx), "");
    let doc = format!("@value:{};", long_key);
    assert_eq!(render(&doc, &ctx), doc);
}

#[test]
fn number_and_bool_display() {
    let ctx = obj(vec![
        ("neg", integer(-42)),
        ("zero", integer(0)),
        ("min", integer(i128::MIN)),
        ("f", Value::Number(Number::Float(String::from("1.5")))),
        ("no", Value::Bool(false)),
        ("nil", Value::Null),
        ("o", obj(vec![("k", s("v"))])),
    ]);
    assert_eq!(get_display_string(&ctx, &String::from("neg")), "-42");
    assert_eq!(get_display_string(&ctx, &String::from("zero")), "0");
    assert_eq!(
        get_display_string(&ctx, &String::from("min")),
        "-170141183460469231731687303715884105728"
    );
    assert_eq!(get_display_string(&ctx, &String::from("f")), "1.5");
    assert_eq!(get_display_string(&ctx, &String::from("no")), "false");
    assert_eq!(get_display_string(&ctx, &String::from("nil")), "");
    assert_eq!(get_display_string(&ctx, &String::from("o")), "");
}

#[test]
fn token_type_and_key_reading() {
    let doc = chars("@value:x;rest");
    let mut i: usize = 1;
    assert_eq!(parse_token_type(&doc, doc.len(), &mut i), Ok(String::from("value")));
    assert_eq!(i, 7);
    assert_eq!(parse_token_key(&doc, doc.len(), &mut i), Ok(String::from("x")));
    assert_eq!(i, 9);

    let doc = chars("if:k{body}");
    let mut i: usize = 0;
    assert_eq!(parse_token_type(&doc, doc.len(), &mut i), Ok(String::from("if")));
    assert_eq!(parse_token_key(&doc, doc.len(), &mut i), Ok(String::from("k")));
    assert_eq!(i, 4);

    let doc = chars("ab cd:x;");
    let mut i: usize = 0;
    assert!(parse_token_type(&doc, doc.len(), &mut i).is_err());
    assert_eq!(i, 3);
}

#[test]
fn body_capture() {
    let doc = chars("; x{a{b}c}tail");
    let mut i: usize = 0;
    let body = capture_body(&doc, doc.len(), &mut i);
    assert_eq!(body, Some(&chars("a{b}c")[..]));
    assert_eq!(i, 10);

    let doc = chars("no brace");
    let mut i: usize = 0;
    assert_eq!(capture_body(&doc, doc.len(), &mut i), None);
    assert_eq!(i, doc.len());
}

#[test]
fn token_kinds() {
    assert_eq!(token_kind("value"), TokenKind::Value);
    assert_eq!(token_kind("forvalue"), TokenKind::ForValue);
    assert_eq!(token_kind("for"), TokenKind::For);
    assert_eq!(token_kind("forfor"), TokenKind::ForFor);
    assert_eq!(token_kind("if"), TokenKind::If);
    assert_eq!(token_kind("forif"), TokenKind::ForIf);
    assert_eq!(token_kind("Value"), TokenKind::Unknown);
    assert_eq!(token_kind("values"), TokenKind::Unknown);
}
