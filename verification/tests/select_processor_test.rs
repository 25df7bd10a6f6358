use json_db::database::query::select_processor::SelectProcessor;
use json_db::database::relation::{OneToMany, OneToOne, Relation};
use json_db::database::row::Row;
use json_db::database::table::Table;
use json_db::database::Database;
use json_db::json::{Json, JsonMap, JsonNum};

fn sp_num(n: u64) -> Json {
    Json::Number(JsonNum::PosInt(n))
}

fn sp_text(s: &str) -> Json {
    Json::Str(s.to_string())
}

fn sp_map(pairs: Vec<(&str, Json)>) -> JsonMap {
    let mut m = JsonMap::new();
    for (k, v) in pairs {
        m.insert(k.to_string(), v);
    }
    m
}

fn sp_obj(pairs: Vec<(&str, Json)>) -> Json {
    Json::Object(sp_map(pairs))
}

fn sp_row(pairs: Vec<(&str, Json)>) -> Row {
    Row::new(sp_map(pairs))
}

/// Whether `actual` holds everything that `expected` holds.
fn sp_includes(actual: &Json, expected: &Json) -> bool {
    match (actual, expected) {
        (Json::Object(a), Json::Object(e)) => (0..e.len()).all(|i| match a.get(e.key_at(i).as_str()) {
            Some(v) => sp_includes(v, e.value_at(i)),
            None => false,
        }),
        (Json::Array(a), Json::Array(e)) => e.len() <= a.len() && e.iter().zip(a.iter()).all(|(x, y)| sp_includes(y, x)),
        _ => actual == expected,
    }
}

pub fn initialize() -> Database {
    let cat_relations = vec![
        ("cat_food".to_string(), Relation::new("Food".to_string(), "one_to_many".to_string())),
        ("cat_age_group".to_string(), Relation::new("AgeGroup".to_string(), "one_to_one".to_string())),
    ];
    let food_relations =
        vec![("food_ingredient".to_string(), Relation::new("Ingredient".to_string(), "one_to_many".to_string()))];
    let cat_table: Table = Table::new("Cats", "id", None, Some(cat_relations));

    let food_table: Table = Table::new("Food", "id", None, Some(food_relations));
    let ingredient_table: Table = Table::new("Ingredient", "id", None, None);
    let age_table: Table = Table::new("AgeGroup", "id", None, None);

    let mut database: Database = Database::new(vec![cat_table, food_table, age_table, ingredient_table]);

    let _ = database.get_table_mut("Food".to_string()).unwrap().insert_row(sp_row(vec![
        ("id", sp_num(123)),
        ("name", sp_text("Wet Feed")),
        ("ingridients", OneToMany::new(vec![], "food_ingredient".to_string()).to_value()),
    ]));
    let _ = database.get_table_mut("Food".to_string()).unwrap().insert_row(sp_row(vec![
        ("id", sp_num(12)),
        ("name", sp_text("Dry Feed")),
        ("ingridients", OneToMany::new(vec![33u64], "food_ingredient".to_string()).to_value()),
    ]));
    let _ = database
        .get_table_mut("Ingredient".to_string())
        .unwrap()
        .insert_row(sp_row(vec![("id", sp_num(33)), ("name", sp_text("Chicken Meat"))]));
    let _ = database
        .get_table_mut("AgeGroup".to_string())
        .unwrap()
        .insert_row(sp_row(vec![("id", sp_num(99)), ("age", sp_text("Young"))]));
    let _ = database.get_table_mut("Cats".to_string()).unwrap().insert_row(sp_row(vec![
        ("id", sp_num(1)),
        ("name", sp_text("Ozzy")),
        ("breed", sp_text("mixed")),
        ("foods", OneToMany::new(vec![123u64, 12u64], "cat_food".to_string()).to_value()),
        ("group", OneToOne::new(99, "cat_age_group".to_string()).to_value()),
    ]));

    database
}

#[test]
fn should_succed_select_processor_two_level_resolved() {
    let database = initialize();

    let cat_table = database.get_table("Cats".to_string()).unwrap();
    let cat_1 = cat_table.find_by_pk(1u64).unwrap();
    let select = vec!["id", "name", "foods.*", "foods.ingridients.name"];
    let output = SelectProcessor::selector(&database, cat_table.name(), cat_1, select);
    println!("Json output {:?}", output);
    let expected = sp_obj(vec![
        ("id", sp_num(1)),
        ("name", sp_text("Ozzy")),
        (
            "foods",
            Json::Array(vec![
                sp_obj(vec![("id", sp_num(123)), ("name", sp_text("Wet Feed")), ("ingridients", Json::Array(vec![]))]),
                sp_obj(vec![
                    ("id", sp_num(12)),
                    ("name", sp_text("Dry Feed")),
                    ("ingridients", Json::Array(vec![sp_obj(vec![("name", sp_text("Chicken Meat"))])])),
                ]),
            ]),
        ),
    ]);
    assert!(sp_includes(&Json::Object(output), &expected));
}

#[test]
fn should_succed_select_processor_one_level_resolved() {
    let database = initialize();

    let cat_table = database.get_table("Cats".to_string()).unwrap();
    let cat_1 = cat_table.find_by_pk(1u64).unwrap();
    let select = vec!["id", "name", "foods.*"];
    let output = SelectProcessor::selector(&database, cat_table.name(), cat_1, select);
    let expected = sp_obj(vec![
        ("id", sp_num(1)),
        ("name", sp_text("Ozzy")),
        (
            "foods",
            Json::Array(vec![
                sp_obj(vec![("id", sp_num(123)), ("name", sp_text("Wet Feed"))]),
                sp_obj(vec![("id", sp_num(12)), ("name", sp_text("Dry Feed"))]),
            ]),
        ),
    ]);
    assert!(sp_includes(&Json::Object(output), &expected));
}

#[test]
fn should_succed_select_processor_one_level_resolved_onetoone() {
    let database = initialize();

    let cat_table = database.get_table("Cats".to_string()).unwrap();
    let cat_1 = cat_table.find_by_pk(1u64).unwrap();
    let select = vec!["id", "name", "group.age"];
    let output = SelectProcessor::selector(&database, cat_table.name(), cat_1, select);
    let expected = sp_obj(vec![
        ("id", sp_num(1)),
        ("name", sp_text("Ozzy")),
        ("group", sp_obj(vec![("age", sp_text("Young"))])),
    ]);
    assert!(sp_includes(&Json::Object(output), &expected));
}

#[test]
fn should_succed_select_processor_zero_level_resolved() {
    let database = initialize();

    let cat_table = database.get_table("Cats".to_string()).unwrap();
    let cat_1 = cat_table.find_by_pk(1u64).unwrap();
    let select = vec!["id", "name", "breed"];
    let output = SelectProcessor::selector(&database, cat_table.name(), cat_1, select);
    let expected = sp_obj(vec![("id", sp_num(1)), ("name", sp_text("Ozzy")), ("breed", sp_text("mixed"))]);
    assert!(sp_includes(&Json::Object(output), &expected));
}

#[test]
fn should_succed_select_processor_zero_level_asterix_resolved() {
    let database = initialize();

    let cat_table = database.get_table("Cats".to_string()).unwrap();
    let cat_1 = cat_table.find_by_pk(1u64).unwrap();
    let select = vec!["*"];
    let output = SelectProcessor::selector(&database, cat_table.name(), cat_1, select);

    let expected = sp_obj(vec![
        ("id", sp_num(1)),
        ("name", sp_text("Ozzy")),
        ("breed", sp_text("mixed")),
        (
            "foods",
            sp_obj(vec![
                ("relation_name", sp_text("cat_food")),
                ("foreign_ids", Json::Array(vec![sp_num(123), sp_num(12)])),
            ]),
        ),
    ]);
    assert!(sp_includes(&Json::Object(output), &expected));
}
