use minidb::execute::{execute_query, full_scan, select_ids};
use minidb::index::RowId;
use minidb::parser::{parse_query, Condition, Operator, Query};
use minidb::table::{Database, Row, Table};
use minidb::value::Value;

fn text(s: &str) -> Value {
    Value::Text(s.to_string())
}

fn person(name: &str, age: i64) -> Row {
    let mut row = Row::new();
    row.put("name", text(name));
    row.put("age", Value::Integer(age));
    row
}

fn users_table() -> Table {
    let mut t = Table::new();
    t.insert(person("Alice", 30));
    t.insert(person("Bob", 45));
    t.insert(person("Charlie", 25));
    t
}

fn users_db(index_on_age: bool) -> Database {
    let mut t = users_table();
    if index_on_age {
        t.create_index("age");
    }
    let mut db = Database::new();
    db.add_table("users", t);
    db
}

fn people(rows: &[Row]) -> Vec<(String, i64)> {
    let mut out: Vec<(String, i64)> = rows
        .iter()
        .map(|r| {
            let name = match r.get_value("name") {
                Some(Value::Text(s)) => s.clone(),
                other => panic!("unexpected name {:?}", other),
            };
            let age = match r.get_value("age") {
                Some(Value::Integer(n)) => *n,
                other => panic!("unexpected age {:?}", other),
            };
            (name, age)
        })
        .collect();
    out.sort();
    out
}

fn run(db: &Database, sql: &str) -> Result<Vec<(String, i64)>, String> {
    let q = parse_query(sql)?;
    execute_query(&q, db).map(|rows| people(&rows))
}

fn pair(name: &str, age: i64) -> (String, i64) {
    (name.to_string(), age)
}

#[test]
fn equality_through_index_returns_one_row() {
    let db = users_db(true);
    assert_eq!(run(&db, "SELECT * FROM users WHERE age = 30"), Ok(vec![pair("Alice", 30)]));
}

#[test]
fn greater_than_through_index() {
    let db = users_db(true);
    assert_eq!(
        run(&db, "SELECT * FROM users WHERE age > 25"),
        Ok(vec![pair("Alice", 30), pair("Bob", 45)])
    );
}

#[test]
fn text_equality_by_full_scan() {
    let db = users_db(true);
    assert_eq!(run(&db, "SELECT * FROM users WHERE name = 'Bob'"), Ok(vec![pair("Bob", 45)]));
}

#[test]
fn missing_table_is_reported_by_name() {
    let db = users_db(true);
    let q = parse_query("SELECT * FROM orders").unwrap();
    match execute_query(&q, &db) {
        Err(e) => {
            assert!(e.contains("orders"));
            assert_eq!(e, "Table 'orders' not found.");
        }
        Ok(_) => panic!("expected an error"),
    }
}

#[test]
fn inequality_falls_back_to_scan_despite_index() {
    let db = users_db(true);
    assert_eq!(
        run(&db, "SELECT * FROM users WHERE age != 25"),
        Ok(vec![pair("Alice", 30), pair("Bob", 45)])
    );
}

#[test]
fn no_condition_returns_every_row() {
    let db = users_db(false);
    assert_eq!(
        run(&db, "select * from users;"),
        Ok(vec![pair("Alice", 30), pair("Bob", 45), pair("Charlie", 25)])
    );
}

#[test]
fn every_operator_agrees_with_and_without_index() {
    let indexed = users_db(true);
    let plain = users_db(false);
    for op in ["=", "!=", ">", ">=", "<", "<="] {
        for v in ["25", "30", "44", "45", "-3", "'Bob'", "x"] {
            let sql = format!("SELECT * FROM users WHERE age {} {}", op, v);
            assert_eq!(run(&indexed, &sql), run(&plain, &sql), "{}", sql);
        }
    }
    assert_eq!(
        run(&indexed, "SELECT * FROM users WHERE age >= 30"),
        Ok(vec![pair("Alice", 30), pair("Bob", 45)])
    );
    assert_eq!(
        run(&indexed, "SELECT * FROM users WHERE age <= 30"),
        Ok(vec![pair("Alice", 30), pair("Charlie", 25)])
    );
    assert_eq!(run(&indexed, "SELECT * FROM users WHERE age < 25"), Ok(vec![]));
}

#[test]
fn index_and_scan_agree_on_mixed_columns() {
    let mut t = Table::new();
    let mut r = Row::new();
    r.put("k", Value::Integer(7));
    t.insert(r);
    let mut r = Row::new();
    r.put("k", text("seven"));
    t.insert(r);
    let mut r = Row::new();
    r.put("other", Value::Integer(1));
    t.insert(r);
    let mut r = Row::new();
    r.put("k", Value::Integer(-2));
    t.insert(r);
    let plain = t.clone();
    t.create_index("k");
    let ops = [Operator::Eq, Operator::Neq, Operator::Gt, Operator::Gte, Operator::Lt, Operator::Lte];
    let values = [Value::Integer(7), Value::Integer(0), text("seven"), text("a"), Value::Integer(i64::MAX)];
    for op in ops {
        for v in values.iter() {
            let c = Some(Condition { column: "k".to_string(), operator: op, value: v.clone() });
            let mut a = select_ids(&t, &c);
            let mut b = select_ids(&plain, &c);
            a.sort();
            b.sort();
            assert_eq!(a, b, "{:?} {:?}", op, v);
        }
    }
    let gt = Some(Condition { column: "k".to_string(), operator: Operator::Gt, value: Value::Integer(0) });
    assert_eq!(select_ids(&t, &gt), vec![0]);
    let text_gt = Some(Condition { column: "k".to_string(), operator: Operator::Gt, value: text("a") });
    assert_eq!(select_ids(&t, &text_gt), Vec::<RowId>::new());
}

#[test]
fn full_scan_lists_matching_ids_in_order() {
    let t = users_table();
    let c = Condition { column: "age".to_string(), operator: Operator::Lt, value: Value::Integer(40) };
    assert_eq!(full_scan(&t.rows, &c), vec![0, 2]);
    let missing = Condition { column: "height".to_string(), operator: Operator::Eq, value: Value::Integer(1) };
    assert_eq!(full_scan(&t.rows, &missing), Vec::<RowId>::new());
    let text_cmp = Condition { column: "name".to_string(), operator: Operator::Gt, value: text("A") };
    assert_eq!(full_scan(&t.rows, &text_cmp), Vec::<RowId>::new());
}

#[test]
fn query_value_is_built_by_hand_too() {
    let db = users_db(true);
    let q = Query {
        table_name: "users".to_string(),
        condition: Some(Condition { column: "age".to_string(), operator: Operator::Eq, value: Value::Integer(45) }),
    };
    let rows = execute_query(&q, &db).unwrap();
    assert_eq!(people(&rows), vec![pair("Bob", 45)]);
}
