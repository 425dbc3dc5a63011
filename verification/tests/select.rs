use jsonpath_lib::select::json_value::JsonValue;
use jsonpath_lib::parser::parser::{NodeVisit, Parser};
use jsonpath_lib::select::selector::{select, Selector};
use jsonpath_lib::select::JsonPathError;

fn s(v: &str) -> JsonValue {
    JsonValue::String(v.to_string())
}

fn n(v: &str) -> JsonValue {
    JsonValue::Number(v.to_string())
}

fn obj(members: Vec<(&str, JsonValue)>) -> JsonValue {
    JsonValue::Object(members.into_iter().map(|(k, v)| (k.to_string(), v)).collect())
}

fn book(category: &str, author: &str, title: &str, isbn: Option<&str>, price: &str) -> JsonValue {
    let mut m = vec![("category", s(category)), ("author", s(author)), ("title", s(title))];
    if let Some(i) = isbn {
        m.push(("isbn", s(i)));
    }
    m.push(("price", n(price)));
    obj(m)
}

fn books() -> Vec<JsonValue> {
    vec![
        book("reference", "Nigel Rees", "Sayings of the Century", None, "8.95"),
        book("fiction", "Evelyn Waugh", "Sword of Honour", None, "12.99"),
        book("fiction", "Herman Melville", "Moby Dick", Some("0-553-21311-3"), "8.99"),
        book("fiction", "J. R. R. Tolkien", "The Lord of the Rings", Some("0-395-19395-8"), "22.99"),
    ]
}

fn bicycle() -> JsonValue {
    obj(vec![("color", s("red")), ("price", n("19.95"))])
}

fn store() -> JsonValue {
    obj(vec![
        ("store", obj(vec![("book", JsonValue::Array(books())), ("bicycle", bicycle())])),
        ("expensive", n("10")),
    ])
}

fn run(json: &JsonValue, path: &str) -> Vec<JsonValue> {
    select(json, path).unwrap().unwrap().into_iter().map(|v| copy(v)).collect()
}

fn copy(v: &JsonValue) -> JsonValue {
    match v {
        JsonValue::Null => JsonValue::Null,
        JsonValue::Bool(b) => JsonValue::Bool(*b),
        JsonValue::Number(x) => JsonValue::Number(x.clone()),
        JsonValue::String(x) => JsonValue::String(x.clone()),
        JsonValue::Array(vs) => JsonValue::Array(vs.iter().map(copy).collect()),
        JsonValue::Object(ms) => JsonValue::Object(ms.iter().map(|(k, v)| (k.clone(), copy(v))).collect()),
    }
}

fn authors() -> Vec<JsonValue> {
    vec![s("Nigel Rees"), s("Evelyn Waugh"), s("Herman Melville"), s("J. R. R. Tolkien")]
}

#[test]
fn select_children_of_every_element() {
    assert_eq!(run(&store(), "$.store.book[*].author"), authors());
}

#[test]
fn select_at_every_depth() {
    assert_eq!(run(&store(), "$..author"), authors());
    assert_eq!(
        run(&store(), "$.store..price"),
        vec![n("8.95"), n("12.99"), n("8.99"), n("22.99"), n("19.95")]
    );
}

#[test]
fn select_all_members() {
    assert_eq!(run(&store(), "$.store.*"), vec![JsonValue::Array(books()), bicycle()]);
}

#[test]
fn select_by_index_union_and_range() {
    let b = books();
    assert_eq!(run(&store(), "$..book[2]"), vec![copy(&b[2])]);
    assert_eq!(run(&store(), "$..book[-2]"), vec![copy(&b[2])]);
    assert_eq!(run(&store(), "$..book[0,1]"), vec![copy(&b[0]), copy(&b[1])]);
    assert_eq!(run(&store(), "$..book[:2]"), vec![copy(&b[0]), copy(&b[1])]);
    assert_eq!(run(&store(), "$..book[2:]"), vec![copy(&b[2]), copy(&b[3])]);
    assert_eq!(run(&store(), "$..book[::2]"), vec![copy(&b[0]), copy(&b[2])]);
}

#[test]
fn select_first_friend_at_every_depth() {
    let friend = |name: &str, age: Option<&str>| {
        let mut m = vec![("name", s(name))];
        if let Some(a) = age {
            m.push(("age", n(a)));
        }
        obj(m)
    };
    let json = obj(vec![
        (
            "school",
            obj(vec![("friends", JsonValue::Array(vec![friend("a1", Some("20")), friend("a2", Some("20"))]))]),
        ),
        ("friends", JsonValue::Array(vec![friend("b3", Some("30")), friend("b4", None)])),
    ]);
    assert_eq!(run(&json, "$..friends[0]"), vec![friend("b3", Some("30")), friend("a1", Some("20"))]);
}

#[test]
fn select_missing_key_gives_null() {
    assert_eq!(run(&store(), "$.nothing"), vec![JsonValue::Null]);
    assert_eq!(run(&store(), "$.store['bicycle']['color']"), vec![s("red")]);
}

#[test]
fn select_filter_is_not_evaluated() {
    assert!(select(&store(), "$..book[?(@.isbn)]").is_none());
    assert!(select(&store(), "$..book[?(@.price < 10)]").is_none());
}

#[test]
fn select_bad_path_gives_its_error() {
    match select(&store(), "$[") {
        Some(Err(JsonPathError::Path(_))) => {}
        _ => panic!("expected a path error"),
    }
}

#[test]
fn selector_with_held_path() {
    let json = store();
    let mut sel = Selector::new();
    sel.value(&json);
    assert_eq!(sel.select(), Some(Err(JsonPathError::EmptyPath)));
    assert!(sel.str_path("$..author").is_ok());
    let got: Vec<JsonValue> = sel.select().unwrap().unwrap().into_iter().map(copy).collect();
    assert_eq!(got, authors());
    assert!(sel.str_path("$[").is_err());
}

#[test]
fn selector_as_node_visitor() {
    let json = store();
    let node = Parser::compile("$.store.bicycle.color").unwrap();
    let mut sel = Selector::new();
    sel.value(&json);
    sel.visit(&node);
    assert!(!sel.refused());
    let got: Vec<JsonValue> = sel.current_values().unwrap().into_iter().map(copy).collect();
    assert_eq!(got, vec![s("red")]);
    let filter = Parser::compile("$..book[?(@.price < 10)]").unwrap();
    let mut sel = Selector::new();
    sel.value(&json);
    sel.visit(&filter);
    assert!(sel.refused());
}
