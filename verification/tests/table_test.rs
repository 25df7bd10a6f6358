use json_db::database::row::Row;
use json_db::database::table::Table;
use json_db::json::{Json, JsonMap, JsonNum};

fn cell_num(n: u64) -> Json {
    Json::Number(JsonNum::PosInt(n))
}

fn cell_text(s: &str) -> Json {
    Json::Str(s.to_string())
}

fn make_row(pairs: Vec<(&str, Json)>) -> Row {
    let mut m = JsonMap::new();
    for (k, v) in pairs {
        m.insert(k.to_string(), v);
    }
    Row::new(m)
}

#[test]
fn should_find_two_rows() {
    let mut table: Table = Table::new("Cats", "id", None, None);
    let _ = table.insert_row(make_row(vec![("id", cell_num(1)), ("name", cell_text("Ozzy"))]));
    let _ = table.insert_row(make_row(vec![("id", cell_num(2)), ("name", cell_text("Simon"))]));

    let row = table.find_by_pk(1u64);
    assert_eq!(row.is_err(), false);
    println!("Found Row: {:?}", row.unwrap());
    let row = table.find_by_pk(2u64);
    println!("Found Row: {:?}", row.unwrap());
}

#[test]
fn should_fail_to_find_row() {
    let mut table: Table = Table::new("Cats", "id", None, None);
    let _ = table.insert_row(make_row(vec![("id", cell_num(1)), ("name", cell_text("Ozzy"))]));
    let _ = table.insert_row(make_row(vec![("id", cell_num(2)), ("name", cell_text("Simon"))]));

    let row = table.find_by_pk(3u64);
    assert_eq!(row.is_err(), true);
}
