use json_db::database::index::{sort_pks, Index};
use json_db::database::query::query_builder::QueryBuilder;
use json_db::database::query::select_parser::SelectParser;
use json_db::database::query::select_processor::SelectProcessor;
use json_db::database::query::where_fetcher::WhereFetcher;
use json_db::database::relation::{OneToMany, OneToOne, Relation};
use json_db::database::row::Row;
use json_db::database::select_processor::SelectProcessor as LocalSelectProcessor;
use json_db::database::table::Table;
use json_db::database::Database;
use json_db::json::{compare_keys, str_equal, Json, JsonMap, JsonNum, KeyOrder};
use json_db::text::{join_texts, u64_to_decimal};

fn n(v: u64) -> Json {
    Json::Number(JsonNum::PosInt(v))
}

fn t(s: &str) -> Json {
    Json::Str(s.to_string())
}

fn m(pairs: Vec<(&str, Json)>) -> JsonMap {
    let mut out = JsonMap::new();
    for (k, v) in pairs {
        out.insert(k.to_string(), v);
    }
    out
}

fn r(pairs: Vec<(&str, Json)>) -> Row {
    Row::new(m(pairs))
}

#[test]
fn map_keeps_keys_in_order_and_reads_back_writes() {
    let mut map = JsonMap::new();
    map.insert("name".to_string(), t("Ozzy"));
    map.insert("id".to_string(), n(1));
    map.insert("*".to_string(), t("*"));
    map.insert("name".to_string(), t("Simon"));
    assert_eq!(map.len(), 3);
    assert_eq!(map.key_at(0).as_str(), "*");
    assert_eq!(map.key_at(1).as_str(), "id");
    assert_eq!(map.key_at(2).as_str(), "name");
    assert_eq!(map.get("name"), Some(&t("Simon")));
    assert_eq!(map.get("id"), Some(&n(1)));
    assert_eq!(map.get("breed"), None);
}

#[test]
fn map_append_moves_every_entry() {
    let mut a = m(vec![("a", n(1)), ("b", n(2))]);
    let mut b = m(vec![("b", n(20)), ("c", n(30))]);
    a.append(&mut b);
    assert_eq!(b.len(), 0);
    assert_eq!(a, m(vec![("a", n(1)), ("b", n(20)), ("c", n(30))]));
}

#[test]
fn json_equality_and_copy() {
    let x = Json::Object(m(vec![("ids", Json::Array(vec![n(1), n(2)])), ("neg", Json::Number(JsonNum::NegInt(-4)))]));
    let y = x.deep_copy();
    assert!(x.equals(&y));
    assert_eq!(x, y);
    let z = Json::Object(m(vec![("ids", Json::Array(vec![n(1)])), ("neg", Json::Number(JsonNum::NegInt(-4)))]));
    assert!(!x.equals(&z));
    assert!(!n(1).equals(&Json::Number(JsonNum::NegInt(1))));
    assert!(!Json::Number(JsonNum::Float(0)).equals(&Json::Number(JsonNum::Float(1u64 << 63))));
    assert!(Json::Null.equals(&Json::Null));
    assert!(!Json::Bool(true).equals(&Json::Null));
}

#[test]
fn keys_compare_by_code_point() {
    assert!(matches!(compare_keys("*", "a"), KeyOrder::Less));
    assert!(matches!(compare_keys("ab", "a"), KeyOrder::Greater));
    assert!(matches!(compare_keys("food", "food"), KeyOrder::Equal));
    assert!(matches!(compare_keys("Z", "a"), KeyOrder::Less));
    assert!(str_equal("race", "race"));
    assert!(!str_equal("race", "rac"));
}

#[test]
fn text_helpers_write_numbers_in_decimal() {
    assert_eq!(u64_to_decimal(0), "0");
    assert_eq!(u64_to_decimal(120), "120");
    assert_eq!(u64_to_decimal(u64::MAX), "18446744073709551615");
    assert_eq!(join_texts("ab", "cd"), "abcd");
}

#[test]
fn sorting_keys_both_ways() {
    assert_eq!(sort_pks(&vec![3, 1, 2, 1], false), vec![1, 1, 2, 3]);
    assert_eq!(sort_pks(&vec![3, 1, 2, 1], true), vec![3, 2, 1, 1]);
    assert_eq!(sort_pks(&vec![], true), Vec::<u64>::new());
}

#[test]
fn index_records_keys_in_order_and_refuses_on_unique() {
    let mut idx = Index::new("race".to_string(), Some(true), None);
    assert_eq!(idx.insert_row("id".to_string(), r(vec![("id", n(5)), ("race", t("cat"))])), Ok(()));
    assert_eq!(idx.insert_row("id".to_string(), r(vec![("id", n(9)), ("race", t("cat"))])), Ok(()));
    assert_eq!(idx.insert_row("id".to_string(), r(vec![("id", n(7)), ("race", t("cat"))])), Ok(()));
    assert_eq!(idx.get_pks_by_value(t("cat")), Some(&vec![9, 7, 5]));
    assert_eq!(idx.get_pks_by_value(t("dog")), None);

    let mut uniq = Index::new("race".to_string(), None, Some(true));
    assert_eq!(uniq.insert_row("id".to_string(), r(vec![("id", n(1)), ("race", t("cat"))])), Ok(()));
    assert_eq!(uniq.insert_row("id".to_string(), r(vec![("id", n(2)), ("race", t("cat"))])), Err("Index is unique!"));
    assert_eq!(uniq.get_pks_by_value(t("cat")), Some(&vec![1]));
}

#[test]
fn index_keys_values_by_whole_json() {
    let mut idx = Index::new("tag".to_string(), None, None);
    let v1 = Json::Object(m(vec![("a", n(1))]));
    let v2 = Json::Object(m(vec![("a", n(2))]));
    let _ = idx.insert_row("id".to_string(), r(vec![("id", n(1)), ("tag", v1.deep_copy())]));
    let _ = idx.insert_row("id".to_string(), r(vec![("id", n(2)), ("tag", v2.deep_copy())]));
    let _ = idx.insert_row("id".to_string(), r(vec![("id", n(3)), ("tag", v1.deep_copy())]));
    assert_eq!(idx.get_pks_by_value(v1), Some(&vec![1, 3]));
    assert_eq!(idx.get_pks_by_value(v2), Some(&vec![2]));
}

#[test]
fn table_reads_back_rows_and_names_errors() {
    let mut table = Table::new("Cats", "id", None, None);
    assert_eq!(table.insert_row(r(vec![("id", n(1)), ("name", t("Ozzy"))])), Ok(()));
    assert_eq!(table.insert_row(r(vec![("id", n(1)), ("name", t("Simon"))])), Ok(()));
    assert_eq!(table.find_by_pk(1).unwrap().get("name"), Some(&t("Simon")));
    assert_eq!(table.rows().len(), 1);
    assert_eq!(table.find_by_pk(3).unwrap_err(), "Row with pk: 3 not found!");
    assert_eq!(
        table.get_pks_by_index("breed".to_string(), t("x")).unwrap_err(),
        "Nothing found index not found: breed"
    );
    assert_eq!(table.get_relation(&"food".to_string()).unwrap_err(), "Failed to find relation");
    let found = table.find_by_pks(vec![1, 2]);
    assert!(found[0].is_ok());
    assert_eq!(found[1].as_ref().unwrap_err(), "Row with pk: 2 not found!");
}

#[test]
fn table_refused_row_leaves_table_as_it_was() {
    let indexes = vec![("race".to_string(), Index::new("race".to_string(), None, Some(true)))];
    let mut table = Table::new("Cats", "id", Some(indexes), None);
    assert_eq!(table.insert_row(r(vec![("id", n(1)), ("race", t("cat"))])), Ok(()));
    assert_eq!(table.insert_row(r(vec![("id", n(2)), ("race", t("cat"))])), Err("Index is unique!"));
    assert!(table.find_by_pk(2).is_err());
    assert_eq!(table.get_pks_by_index("race".to_string(), t("cat")), Ok(vec![1]));
    assert_eq!(table.insert_row(r(vec![("id", n(2)), ("name", t("no race"))])), Ok(()));
    assert!(table.find_by_pk(2).is_ok());
}

#[test]
fn table_new_keeps_the_later_of_two_names() {
    let relations = vec![
        ("food".to_string(), Relation::new("Old".to_string(), "one_to_one".to_string())),
        ("food".to_string(), Relation::new("Foods".to_string(), "one_to_many".to_string())),
    ];
    let table = Table::new("Cats", "id", None, Some(relations));
    assert_eq!(table.relations().len(), 1);
    assert_eq!(table.get_relation(&"food".to_string()).unwrap().table_name, "Foods");
    assert_eq!(table.name(), "Cats");
    assert_eq!(table.pk(), "id");
}

#[test]
fn create_index_takes_in_existing_rows() {
    let mut table = Table::new("Cats", "id", None, None);
    let _ = table.insert_row(r(vec![("id", n(3)), ("race", t("cat"))]));
    let _ = table.insert_row(r(vec![("id", n(1)), ("race", t("cat"))]));
    let _ = table.insert_row(r(vec![("id", n(2)), ("race", t("dog"))]));
    table.create_index("race".to_string(), Index::new("race".to_string(), None, None));
    assert_eq!(table.get_pks_by_index("race".to_string(), t("cat")), Ok(vec![1, 3]));
    table.create_index("race".to_string(), Index::new("race".to_string(), None, Some(true)));
    assert_eq!(table.get_pks_by_index("race".to_string(), t("cat")), Ok(vec![3]));
    assert_eq!(table.indexes().len(), 1);
}

#[test]
fn database_finds_tables_and_relations() {
    let relations = vec![("food".to_string(), Relation::new("Foods".to_string(), "one_to_one".to_string()))];
    let mut db = Database::new(vec![Table::new("Cats", "id", None, Some(relations)), Table::new("Foods", "id", None, None)]);
    assert_eq!(db.get_table("Dogs".to_string()).err(), Some("Failed to find table".to_string()));
    assert!(db.get_table_mut("Dogs".to_string()).is_err());
    let _ = db.get_table_mut("Foods".to_string()).unwrap().insert_row(r(vec![("id", n(4))]));
    assert!(db.get_table("Foods".to_string()).unwrap().find_by_pk(4).is_ok());
    assert_eq!(db.get_table_relation("Cats".to_string(), &"food".to_string()).unwrap().table_name, "Foods");
    assert!(db.get_table_relation("Dogs".to_string(), &"food".to_string()).is_err());
    let builder = QueryBuilder::new(&db);
    let _ = builder;
    WhereFetcher::find_rows(&db, "Cats".to_string(), "id = 1".to_string());
}

#[test]
fn links_read_back_from_their_json() {
    let one = OneToOne::new(123, "cat_food".to_string());
    let back = OneToOne::from_value(one.to_value());
    assert_eq!(back.get_id(), 123);
    assert_eq!(back.relation_name(), "cat_food");
    let array_form = OneToOne::from_value(Json::Array(vec![n(7), t("x")]));
    assert_eq!(array_form.get_id(), 7);
    assert!(OneToOne::try_from_value(&Json::Array(vec![Json::Number(JsonNum::NegInt(-7)), t("x")])).is_none());
    assert!(OneToOne::try_from_value(&Json::Object(m(vec![("foreign_id", n(1))]))).is_none());
    let extra = Json::Object(m(vec![("foreign_id", n(1)), ("other", t("y")), ("relation_name", t("r"))]));
    assert_eq!(OneToOne::try_from_value(&extra).unwrap().get_id(), 1);

    let many = OneToMany::new(vec![3, 1], "cat_food".to_string());
    let back = OneToMany::from_value(many.to_value());
    assert_eq!(back.get_ids(), vec![3, 1]);
    assert_eq!(back.relation_name(), "cat_food");
    assert!(OneToMany::try_from_value(&Json::Object(m(vec![
        ("foreign_ids", Json::Array(vec![n(1), t("2")])),
        ("relation_name", t("r")),
    ])))
    .is_none());
}

#[test]
fn one_to_many_get_reports_missing_relation() {
    let db = Database::new(vec![Table::new("Cats", "id", None, None)]);
    let link = OneToMany::new(vec![1], "food".to_string());
    assert_eq!(link.get("Cats".to_string(), &db).err(), Some("Failed to find relation".to_string()));
    assert_eq!(link.get("Dogs".to_string(), &db).err(), Some("Failed to find table".to_string()));
}

#[test]
fn parser_merges_and_overrides_paths() {
    let merged = SelectParser::parse_selector_recursive(vec!["a.b", "a.c"]);
    let expected = Json::Object(m(vec![("a", Json::Object(m(vec![("b", t("b")), ("c", t("c"))])))]));
    assert_eq!(merged, expected);
    let overridden = SelectParser::parse_selector_recursive(vec!["a.b", "a"]);
    assert_eq!(overridden, Json::Object(m(vec![("a", t("a"))])));
    let shallow = SelectParser::parse_selector_recursive(vec!["a.b.c", "a.b.d"]);
    let expected = Json::Object(m(vec![("a", Json::Object(m(vec![("b", Json::Object(m(vec![("d", t("d"))])))])))]));
    assert_eq!(shallow, expected);
    assert!(SelectParser::try_parse_selector(&vec!["a", "a.b"]).is_none());
}

fn linked_db() -> Database {
    let cat_relations = vec![
        ("cat_food".to_string(), Relation::new("Food".to_string(), "one_to_many".to_string())),
        ("cat_age_group".to_string(), Relation::new("AgeGroup".to_string(), "one_to_one".to_string())),
        ("odd".to_string(), Relation::new("Food".to_string(), "many_to_many".to_string())),
    ];
    let mut db = Database::new(vec![
        Table::new("Cats", "id", None, Some(cat_relations)),
        Table::new("Food", "id", None, None),
        Table::new("AgeGroup", "id", None, None),
    ]);
    let _ = db.get_table_mut("Food".to_string()).unwrap().insert_row(r(vec![("id", n(5)), ("name", t("Wet"))]));
    let _ = db.get_table_mut("AgeGroup".to_string()).unwrap().insert_row(r(vec![("id", n(9)), ("age", t("Young"))]));
    let _ = db.get_table_mut("Cats".to_string()).unwrap().insert_row(r(vec![
        ("id", n(1)),
        ("name", t("Ozzy")),
        ("foods", OneToMany::new(vec![5], "cat_food".to_string()).to_value()),
        ("group", OneToOne::new(9, "cat_age_group".to_string()).to_value()),
        ("bad", OneToMany::new(vec![6], "cat_food".to_string()).to_value()),
        ("weird", OneToOne::new(5, "odd".to_string()).to_value()),
    ]));
    db
}

#[test]
fn selector_takes_exactly_the_selected_columns() {
    let db = linked_db();
    let cats = db.get_table("Cats".to_string()).unwrap();
    let cat = cats.find_by_pk(1).unwrap();
    let out = SelectProcessor::selector(&db, cats.name(), cat, vec!["name", "group.age"]);
    assert_eq!(out, m(vec![("group", Json::Object(m(vec![("age", t("Young"))]))), ("name", t("Ozzy"))]));
    let star = SelectProcessor::selector(&db, cats.name(), cat, vec!["*"]);
    assert_eq!(star, cat.columns);
    let with_star = SelectProcessor::selector(&db, cats.name(), cat, vec!["name", "*", "foods.name"]);
    assert_eq!(with_star.get("foods"), Some(&Json::Array(vec![Json::Object(m(vec![("name", t("Wet"))]))])));
    assert_eq!(with_star.get("id"), Some(&n(1)));
}

#[test]
fn selector_fails_where_a_path_cannot_be_followed() {
    let db = linked_db();
    let cats = db.get_table("Cats".to_string()).unwrap();
    let cat = cats.find_by_pk(1).unwrap();
    assert!(SelectProcessor::try_selector(&db, cats.name(), cat, &vec!["breed"]).is_none());
    assert!(SelectProcessor::try_selector(&db, cats.name(), cat, &vec!["bad.name"]).is_none());
    assert!(SelectProcessor::try_selector(&db, cats.name(), cat, &vec!["weird.name"]).is_none());
    assert!(SelectProcessor::try_selector(&db, cats.name(), cat, &vec!["name.x"]).is_none());
    assert!(SelectProcessor::try_selector(&db, &"Dogs".to_string(), cat, &vec!["group.age"]).is_none());
}

#[test]
fn resolve_relation_names_the_linked_table() {
    let db = linked_db();
    let cats = db.get_table("Cats".to_string()).unwrap();
    let cat = cats.find_by_pk(1).unwrap();
    let (table, value) = SelectProcessor::resolve_relation(&db, cats.name(), cat, &"group".to_string());
    assert_eq!(table, "AgeGroup");
    assert_eq!(value, Json::Object(m(vec![("age", t("Young")), ("id", n(9))])));
    let many = LocalSelectProcessor::resolve_relation(&db, cats.name(), cat, &"foods".to_string());
    assert_eq!(many, Json::Array(vec![Json::Object(m(vec![("id", n(5)), ("name", t("Wet"))]))]));
}

#[test]
fn local_selector_keeps_to_the_row_for_one_linked_row() {
    let db = linked_db();
    let cats = db.get_table("Cats".to_string()).unwrap();
    let cat = cats.find_by_pk(1).unwrap();
    let out = LocalSelectProcessor::selector(&db, cats.name(), cat, vec!["group.name"]);
    assert_eq!(out, m(vec![("group", Json::Object(m(vec![("name", t("Ozzy"))])))]));
    assert!(LocalSelectProcessor::try_selector(&db, cats.name(), cat, &vec!["group.age"]).is_none());
    let foods = LocalSelectProcessor::selector(&db, cats.name(), cat, vec!["foods.name"]);
    assert_eq!(foods, m(vec![("foods", Json::Array(vec![Json::Object(m(vec![("name", t("Wet"))]))]))]));
    assert!(LocalSelectProcessor::is_valid_key("cat_food"));
    assert!(!LocalSelectProcessor::is_valid_key("Cat"));
    assert!(!LocalSelectProcessor::is_valid_key("a.b"));
    assert_eq!(LocalSelectProcessor::parse_node(vec!["x"]), Json::Object(m(vec![("x", t("x"))])));
}

#[test]
fn index_lists_each_new_key_once_under_its_value() {
    let indexes = vec![("race".to_string(), Index::new("race".to_string(), None, None))];
    let mut table = Table::new("Cats", "id", Some(indexes), None);
    let _ = table.insert_row(r(vec![("id", n(2)), ("race", t("cat"))]));
    let _ = table.insert_row(r(vec![("id", n(1)), ("race", t("cat"))]));
    let _ = table.insert_row(r(vec![("id", n(3)), ("race", t("dog"))]));
    assert_eq!(table.get_pks_by_index("race".to_string(), t("cat")), Ok(vec![1, 2]));
    assert_eq!(table.get_pks_by_index("race".to_string(), t("dog")), Ok(vec![3]));
    // A row put again under a key the table already holds is listed again.
    let _ = table.insert_row(r(vec![("id", n(1)), ("race", t("cat"))]));
    assert_eq!(table.get_pks_by_index("race".to_string(), t("cat")), Ok(vec![1, 1, 2]));
}
