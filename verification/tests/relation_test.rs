use json_db::database::relation::{OneToMany, OneToOne, Relation};
use json_db::database::row::Row;
use json_db::database::table::Table;
use json_db::database::Database;
use json_db::json::{Json, JsonMap, JsonNum};

fn rel_num(n: u64) -> Json {
    Json::Number(JsonNum::PosInt(n))
}

fn rel_text(s: &str) -> Json {
    Json::Str(s.to_string())
}

fn rel_row(pairs: Vec<(&str, Json)>) -> Row {
    let mut m = JsonMap::new();
    for (k, v) in pairs {
        m.insert(k.to_string(), v);
    }
    Row::new(m)
}

fn cat_with_food(food: Json) -> Row {
    rel_row(vec![("id", rel_num(1)), ("name", rel_text("Ozzy")), ("breed", rel_text("mixed")), ("food", food)])
}

#[test]
fn should_succed_one_to_one_relationship_found() {
    let cat_relations = vec![("cat_food".to_string(), Relation::new("Foods".to_string(), "one_to_one".to_string()))];
    let cat_table: Table = Table::new("Cats", "id", None, Some(cat_relations));

    let food_table: Table = Table::new("Foods", "id", None, None);

    let mut database: Database = Database::new(vec![cat_table, food_table]);

    let _ = database
        .get_table_mut("Foods".to_string())
        .unwrap()
        .insert_row(rel_row(vec![("id", rel_num(123)), ("name", rel_text("Dry Feed"))]));
    let _ = database
        .get_table_mut("Cats".to_string())
        .unwrap()
        .insert_row(cat_with_food(OneToOne::new(123u64, "cat_food".to_string()).to_value()));

    let cat_table = database.get_table_mut("Cats".to_string()).unwrap();
    let cat_1 = cat_table.find_by_pk(1u64).unwrap();

    let cat_1_food = cat_1.get("food").unwrap();

    let relation = OneToOne::from_value(cat_1_food.deep_copy());
    assert_eq!(relation.get_id(), 123u64);

    let foreign_row = relation.get("Cats".to_string(), &database);

    assert_eq!(foreign_row.is_ok(), true);

    let foreign_row_unwrapped = foreign_row.unwrap();

    assert_eq!(foreign_row_unwrapped.pk_value("id").unwrap(), 123u64);
    println!("Printing foreign row {:?}", foreign_row_unwrapped);
}

#[test]
fn should_fail_no_one_to_one_relation_found() {
    let cat_table: Table = Table::new("Cats", "id", None, None);

    let food_table: Table = Table::new("Foods", "id", None, None);

    let mut database: Database = Database::new(vec![cat_table, food_table]);

    let _ = database
        .get_table_mut("Foods".to_string())
        .unwrap()
        .insert_row(rel_row(vec![("id", rel_num(123)), ("name", rel_text("Dry Feed"))]));
    let _ = database
        .get_table_mut("Cats".to_string())
        .unwrap()
        .insert_row(cat_with_food(OneToOne::new(123u64, "cat_food".to_string()).to_value()));

    let cat_table = database.get_table_mut("Cats".to_string()).unwrap();
    let cat_1 = cat_table.find_by_pk(1u64).unwrap();

    let cat_1_food = cat_1.get("food").unwrap();

    let relation = OneToOne::from_value(cat_1_food.deep_copy());
    assert_eq!(relation.get_id(), 123u64);

    let foreign_row = relation.get("Foods".to_string(), &database);

    assert_eq!(foreign_row.is_err(), true);
}

#[test]
fn should_fail_no_table_found() {
    let cat_table: Table = Table::new("Cats", "id", None, None);

    let mut database: Database = Database::new(vec![cat_table]);

    let _ = database
        .get_table_mut("Cats".to_string())
        .unwrap()
        .insert_row(cat_with_food(OneToOne::new(123u64, "cat_food".to_string()).to_value()));

    let cat_table = database.get_table_mut("Cats".to_string()).unwrap();
    let cat_1 = cat_table.find_by_pk(1u64).unwrap();

    let cat_1_food = cat_1.get("food").unwrap();

    let relation = OneToOne::from_value(cat_1_food.deep_copy());
    assert_eq!(relation.get_id(), 123u64);

    let foreign_row = relation.get("Foods".to_string(), &database);
    println!("Printing foreign row error {}", &foreign_row.unwrap_err().as_str());
}

#[test]
fn should_fail_no_one_to_one_row_found() {
    let cat_table: Table = Table::new("Cats", "id", None, None);

    let food_table: Table = Table::new("Foodss", "id", None, None);

    let mut database: Database = Database::new(vec![cat_table, food_table]);

    let _ = database
        .get_table_mut("Cats".to_string())
        .unwrap()
        .insert_row(cat_with_food(OneToOne::new(123u64, "cat_food".to_string()).to_value()));

    let cat_table = database.get_table_mut("Cats".to_string()).unwrap();
    let cat_1 = cat_table.find_by_pk(1u64).unwrap();

    let cat_1_food = cat_1.get("food").unwrap();

    let relation = OneToOne::from_value(cat_1_food.deep_copy());
    assert_eq!(relation.get_id(), 123u64);

    let foreign_row = relation.get("Cats".to_string(), &database);
    println!("Printing foreign row error {}", &foreign_row.unwrap_err().as_str());
}

#[test]
fn should_succed_one_to_many_relationship_found() {
    let cat_relations = vec![("cat_food".to_string(), Relation::new("Foods".to_string(), "one_to_many".to_string()))];
    let cat_table: Table = Table::new("Cats", "id", None, Some(cat_relations));

    let food_table: Table = Table::new("Foods", "id", None, None);

    let mut database: Database = Database::new(vec![cat_table, food_table]);

    let _ = database
        .get_table_mut("Foods".to_string())
        .unwrap()
        .insert_row(rel_row(vec![("id", rel_num(123)), ("name", rel_text("Dry Feed"))]));
    let _ = database
        .get_table_mut("Foods".to_string())
        .unwrap()
        .insert_row(rel_row(vec![("id", rel_num(12)), ("name", rel_text("Dry Feed"))]));
    let _ = database.get_table_mut("Cats".to_string()).unwrap().insert_row(rel_row(vec![
        ("id", rel_num(1)),
        ("name", rel_text("Ozzy")),
        ("breed", rel_text("mixed")),
        ("foods", OneToMany::new(vec![123u64, 12u64], "cat_food".to_string()).to_value()),
    ]));

    let cat_table = database.get_table("Cats".to_string()).unwrap();
    let cat_1 = cat_table.find_by_pk(1u64).unwrap();

    let cat_1_food = cat_1.get("foods").unwrap();

    let relation = OneToMany::from_value(cat_1_food.deep_copy());
    assert_eq!(relation.get_ids(), vec![123u64, 12u64]);

    let foreign_row = relation.get("Cats".to_string(), &database);

    assert_eq!(foreign_row.is_ok(), true);

    let foreign_rows_unwrapped = foreign_row.unwrap();

    assert_eq!(foreign_rows_unwrapped.len(), 2);
    for r in foreign_rows_unwrapped.into_iter() {
        println!("Printing foreign row {:?}", r);
    }
}
