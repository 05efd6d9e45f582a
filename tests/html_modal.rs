use html_modal::render::{parse_for, parse_if, parse_value};
use html_modal::{get_display_string, get_display_value, parse, Number, Value};

fn s(t: &str) -> Value {
    Value::Str(String::from(t))
}

fn obj(members: Vec<(&str, Value)>) -> Value {
    Value::Object(members.into_iter().map(|(k, v)| (String::from(k), v)).collect())
}

fn chars(t: &str) -> Vec<char> {
    t.chars().collect()
}

fn text(v: &[char]) -> String {
    v.iter().collect()
}

fn users() -> Value {
    obj(vec![(
        "users",
        Value::Array(vec![
            obj(vec![("name", s("Alice"))]),
            obj(vec![("name", s("Bob"))]),
            obj(vec![("name", s("Carol"))]),
        ]),
    )])
}

#[test]
fn test_get_display_value_simple() {
    let modal = obj(vec![("name", s("Test"))]);
    let result = get_display_value(&modal, &"name".to_string());
    assert_eq!(result, Some(&s("Test")));
}

#[test]
fn test_get_display_value_nested() {
    let modal = obj(vec![("user", obj(vec![("name", s("Alice"))]))]);
    let result = get_display_value(&modal, &"user.name".to_string());
    assert_eq!(result, Some(&s("Alice")));
}

#[test]
fn test_get_display_value_indexed() {
    let modal = obj(vec![("users", Value::Array(vec![s("Alice"), s("Ben"), s("Rob")]))]);
    let result = get_display_value(&modal, &"users[1]".to_string());
    assert_eq!(result, Some(&s("Ben")));
}

#[test]
fn test_get_display_value_empty() {
    let modal = s("Alice");
    let result = get_display_value(&modal, &"".to_string());
    assert_eq!(result, Some(&s("Alice")));
}

#[test]
fn test_get_display_value_empty_indexed() {
    let modal = Value::Array(vec![s("Alice"), s("Ben"), s("Rob")]);
    let result = get_display_value(&modal, &"[2]".to_string());
    assert_eq!(result, Some(&s("Rob")));
}

#[test]
fn test_get_display_string_string() {
    let modal = obj(vec![("name", s("Test"))]);
    let result = get_display_string(&modal, &"name".to_string());
    assert_eq!(result, "Test");
}

#[test]
fn test_get_display_string_bool() {
    let modal = obj(vec![("name", Value::Bool(true))]);
    let result = get_display_string(&modal, &"name".to_string());
    assert_eq!(result, "true");
}

#[test]
fn test_get_display_string_int() {
    let modal = obj(vec![("name", Value::Number(Number::Int(3)))]);
    let result = get_display_string(&modal, &"name".to_string());
    assert_eq!(result, "3");
}

#[test]
fn test_get_display_string_float() {
    let n = serde_json::Number::from_f64(3.14).unwrap();
    let modal = obj(vec![("name", Value::Number(Number::Float(n.to_string())))]);
    let result = get_display_string(&modal, &"name".to_string());
    assert_eq!(result, "3.14");
}

#[test]
fn test_get_display_string_invalid() {
    let modal = obj(vec![("name", Value::Array(vec![]))]);
    let result = get_display_string(&modal, &"name".to_string());
    assert_eq!(result, String::new());
}

#[test]
fn test_parse_value() {
    let modal = obj(vec![("user", s("Bob"))]);
    let mut ret_vec: Vec<char> = vec![];
    parse_value(&modal, &mut ret_vec, &String::from("user"));
    assert_eq!(text(&ret_vec), "Bob");
}

#[test]
fn test_parse_for() {
    let modal = users();
    let mut foreach_modal: Vec<&Value> = vec![];
    let html = chars("@for:users;{Name: @forvalue:0.name;<br/>}");
    let mut i: usize = 0;
    let mut ret_vec: Vec<char> = vec![];
    parse_for(&modal, &mut foreach_modal, &mut ret_vec, &html, html.len(), &mut i, &String::from("users"));
    assert_eq!(text(&ret_vec), "Name: Alice<br/>Name: Bob<br/>Name: Carol<br/>");
}

#[test]
fn test_parse_if_true() {
    let modal = obj(vec![("bool", Value::Bool(true))]);
    let mut foreach_modal: Vec<&Value> = vec![];
    let html = chars("@if:bool;{I am displaying!}");
    let mut i: usize = 0;
    let mut ret_vec: Vec<char> = vec![];
    parse_if(&modal, &mut foreach_modal, &mut ret_vec, &html, html.len(), &mut i, &String::from("bool"));
    assert_eq!(text(&ret_vec), "I am displaying!");
}

#[test]
fn test_parse_if_false() {
    let modal = obj(vec![("bool", Value::Bool(false))]);
    let mut foreach_modal: Vec<&Value> = vec![];
    let html = chars("@if:bool;{I am not displaying!}");
    let mut i: usize = 0;
    let mut ret_vec: Vec<char> = vec![];
    parse_if(&modal, &mut foreach_modal, &mut ret_vec, &html, html.len(), &mut i, &String::from("bool"));
    assert_eq!(text(&ret_vec), "");
}

#[test]
fn test_parse_escaped_token() {
    let modal = obj(vec![("user", s("Bob"))]);
    let html = String::from("Name: \\@value:user;<br/>");
    let mut foreach_modal: Vec<&Value> = vec![];
    let result = parse(&html, &modal, &mut foreach_modal);
    assert_eq!(result, "Name: @value:user;<br/>");
}

#[test]
fn test_parse_value_token() {
    let modal = obj(vec![("user", s("Bob"))]);
    let html = String::from("Name: @value:user;<br/>");
    let mut foreach_modal: Vec<&Value> = vec![];
    let result = parse(&html, &modal, &mut foreach_modal);
    assert_eq!(result, "Name: Bob<br/>");
}

#[test]
fn test_parse_for_token() {
    let modal = users();
    let html = String::from("@for:users;{Name: @forvalue:0.name;<br/>}");
    let mut foreach_modal: Vec<&Value> = vec![];
    let result = parse(&html, &modal, &mut foreach_modal);
    assert_eq!(result, "Name: Alice<br/>Name: Bob<br/>Name: Carol<br/>");
}
