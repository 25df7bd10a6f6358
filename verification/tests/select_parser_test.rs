use json_db::database::query::select_parser::SelectParser;
use json_db::json::{Json, JsonMap};

fn leaf(s: &str) -> Json {
    Json::Str(s.to_string())
}

fn object(pairs: Vec<(&str, Json)>) -> Json {
    let mut m = JsonMap::new();
    for (k, v) in pairs {
        m.insert(k.to_string(), v);
    }
    Json::Object(m)
}

/// Whether `actual` holds everything that `expected` holds.
fn includes(actual: &Json, expected: &Json) -> bool {
    match (actual, expected) {
        (Json::Object(a), Json::Object(e)) => (0..e.len()).all(|i| match a.get(e.key_at(i).as_str()) {
            Some(v) => includes(v, e.value_at(i)),
            None => false,
        }),
        (Json::Array(a), Json::Array(e)) => e.len() <= a.len() && e.iter().zip(a.iter()).all(|(x, y)| includes(y, x)),
        _ => actual == expected,
    }
}

#[test]
fn should_parse_selector_recursive() {
    let output = SelectParser::parse_selector_recursive(vec!["id", "food", "relation.*", "relation.food.*"]);
    let expected = object(vec![
        ("id", leaf("id")),
        ("food", leaf("food")),
        ("relation", object(vec![("*", leaf("*")), ("food", object(vec![("*", leaf("*"))]))])),
    ]);
    assert!(includes(&output, &expected));
}

#[test]
fn should_parse_selector_recursive_one_level() {
    let output = SelectParser::parse_selector_recursive(vec!["id", "name", "foods.*"]);
    println!("{:?}", output);
    let expected = object(vec![("id", leaf("id")), ("name", leaf("name")), ("foods", object(vec![("*", leaf("*"))]))]);
    assert!(includes(&output, &expected));
}
