use json_db::database::index::Index;
use json_db::database::row::Row;
use json_db::database::table::Table;
use json_db::json::{Json, JsonMap, JsonNum};

fn num(n: u64) -> Json {
    Json::Number(JsonNum::PosInt(n))
}

fn text(s: &str) -> Json {
    Json::Str(s.to_string())
}

fn row(pairs: Vec<(&str, Json)>) -> Row {
    let mut m = JsonMap::new();
    for (k, v) in pairs {
        m.insert(k.to_string(), v);
    }
    Row::new(m)
}

fn cats_with_race_index(desc: bool, unique: bool) -> Table {
    let indexes = vec![("race".to_string(), Index::new("race".to_string(), Some(desc), Some(unique)))];
    Table::new("Cats", "id", Some(indexes), None)
}

#[test]
fn should_create_string_index_and_find_two_results() {
    let mut table = cats_with_race_index(false, false);
    let _ = table.insert_row(row(vec![("id", num(1)), ("name", text("Ozzy")), ("race", text("cat"))]));
    let _ = table.insert_row(row(vec![("id", num(2)), ("name", text("Simon")), ("race", text("cat"))]));
    let _ = table.insert_row(row(vec![("id", num(3)), ("name", text("Gosa")), ("race", text("dog"))]));

    let result = table.get_pks_by_index("race".to_string(), text("cat"));

    assert_eq!(result.is_ok(), true);

    let ids = result.unwrap();
    assert_eq!(ids, vec![1, 2]);

    let rows = table.find_by_pks(ids.clone());

    assert_eq!(rows.len(), 2);
    for r in rows {
        assert_eq!(r.is_ok(), true);
        println!("Found Row: {:?}", r.unwrap());
    }
}

#[test]
fn should_create_reverse_index() {
    let mut table = cats_with_race_index(true, false);
    let _ = table.insert_row(row(vec![("id", num(1)), ("name", text("Ozzy")), ("race", text("cat"))]));
    let _ = table.insert_row(row(vec![("id", num(2)), ("name", text("Simon")), ("race", text("cat"))]));
    let _ = table.insert_row(row(vec![("id", num(3)), ("name", text("Gosa")), ("race", text("dog"))]));

    let result = table.get_pks_by_index("race".to_string(), text("cat"));

    assert_eq!(result.is_ok(), true);

    let ids = result.unwrap();
    assert_eq!(ids, vec![2, 1]);
}

#[test]
fn should_create_unique_index_and_fail_insert() {
    let mut table = cats_with_race_index(false, true);
    let _ = table.insert_row(row(vec![("id", num(1)), ("name", text("Ozzy")), ("race", text("cat"))]));
    let _ = table.insert_row(row(vec![("id", num(3)), ("name", text("Gosa")), ("race", text("dog"))]));

    let err = table.insert_row(row(vec![("id", num(2)), ("name", text("Simon")), ("race", text("cat"))]));
    assert_eq!(err.is_err(), true);
}

#[test]
fn should_create_unique_index() {
    let mut table = cats_with_race_index(false, true);
    let _ = table.insert_row(row(vec![("id", num(1)), ("name", text("Ozzy")), ("race", text("cat"))]));
    let _ = table.insert_row(row(vec![("id", num(3)), ("name", text("Gosa")), ("race", text("dog"))]));

    let result = table.get_pks_by_index("race".to_string(), text("cat"));

    assert_eq!(result.is_ok(), true);

    let ids = result.unwrap();
    assert_eq!(ids, vec![1]);

    let result = table.get_pks_by_index("race".to_string(), text("dog"));

    assert_eq!(result.is_ok(), true);

    let ids = result.unwrap();
    assert_eq!(ids, vec![3]);
}
