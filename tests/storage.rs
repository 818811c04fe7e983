use minidb::index::{Index, KeyBound, RowId};
use minidb::table::{Database, Row, Table};
use minidb::value::Value;

fn text(s: &str) -> Value {
    Value::Text(s.to_string())
}

#[test]
fn insert_returns_increasing_ids() {
    let mut t = Table::new();
    let mut last: Option<RowId> = None;
    for i in 0..5 {
        let mut r = Row::new();
        r.put("n", Value::Integer(i));
        let id = t.insert(r);
        if let Some(prev) = last {
            assert!(id > prev);
        }
        last = Some(id);
    }
    assert_eq!(last, Some(4));
}

#[test]
fn create_index_counts_rows_with_the_column() {
    let mut t = Table::new();
    for (i, has) in [true, false, true, true, false].iter().enumerate() {
        let mut r = Row::new();
        r.put("id", Value::Integer(i as i64));
        if *has {
            r.put("tag", Value::Integer((i % 2) as i64));
        }
        t.insert(r);
    }
    t.create_index("tag");
    let (_, idx) = t.indexes.iter().find(|(n, _)| n == "tag").unwrap();
    let total: usize = idx.entries.iter().map(|(_, ids)| ids.len()).sum();
    assert_eq!(total, 3);
    assert_eq!(idx.lookup_eq(&Value::Integer(0)), vec![0, 2]);
    assert_eq!(idx.lookup_eq(&Value::Integer(1)), vec![3]);
}

#[test]
fn index_on_absent_column_is_empty() {
    let mut t = Table::new();
    let mut r = Row::new();
    r.put("a", Value::Integer(1));
    t.insert(r);
    t.create_index("b");
    assert_eq!(t.indexes.len(), 1);
    assert!(t.indexes[0].1.entries.is_empty());
}

#[test]
fn index_is_maintained_on_insert_and_replaced_on_rebuild() {
    let mut t = Table::new();
    t.create_index("x");
    let mut r = Row::new();
    r.put("x", Value::Integer(5));
    t.insert(r);
    let mut r = Row::new();
    r.put("y", Value::Integer(5));
    t.insert(r);
    assert_eq!(t.indexes[0].1.lookup_eq(&Value::Integer(5)), vec![0]);
    t.create_index("x");
    assert_eq!(t.indexes.len(), 1);
    assert_eq!(t.indexes[0].1.lookup_eq(&Value::Integer(5)), vec![0]);
}

#[test]
fn index_buckets_keep_insertion_order() {
    let mut idx = Index::new();
    idx.insert(Value::Integer(3), 9);
    idx.insert(Value::Integer(1), 4);
    idx.insert(Value::Integer(3), 2);
    idx.insert(text("b"), 7);
    idx.insert(text("a"), 8);
    assert_eq!(idx.lookup_eq(&Value::Integer(3)), vec![9, 2]);
    assert_eq!(idx.lookup_eq(&Value::Integer(2)), Vec::<RowId>::new());
    let keys: Vec<Value> = idx.entries.iter().map(|(k, _)| k.clone()).collect();
    assert_eq!(keys, vec![Value::Integer(1), Value::Integer(3), text("a"), text("b")]);
}

#[test]
fn index_remove_drops_empty_buckets() {
    let mut idx = Index::new();
    idx.insert(Value::Integer(1), 1);
    idx.insert(Value::Integer(1), 2);
    idx.remove(&Value::Integer(1), 1);
    assert_eq!(idx.lookup_eq(&Value::Integer(1)), vec![2]);
    idx.remove(&Value::Integer(1), 7);
    idx.remove(&Value::Integer(9), 2);
    assert_eq!(idx.lookup_eq(&Value::Integer(1)), vec![2]);
    idx.remove(&Value::Integer(1), 2);
    assert!(idx.entries.is_empty());
}

#[test]
fn range_lookup_walks_keys_in_order() {
    let mut idx = Index::new();
    for (k, id) in [(30, 0), (45, 1), (25, 2), (30, 3)] {
        idx.insert(Value::Integer(k), id);
    }
    idx.insert(text("z"), 4);
    let r = idx.lookup_range(&KeyBound::Excluded(Value::Integer(25)), &KeyBound::Unbounded);
    assert_eq!(r, vec![0, 3, 1, 4]);
    let r = idx.lookup_range(&KeyBound::Included(Value::Integer(25)), &KeyBound::Excluded(Value::Integer(45)));
    assert_eq!(r, vec![2, 0, 3]);
    let r = idx.lookup_range(&KeyBound::Unbounded, &KeyBound::Included(Value::Integer(30)));
    assert_eq!(r, vec![2, 0, 3]);
    let r = idx.lookup_range(&KeyBound::Included(Value::Integer(46)), &KeyBound::Included(Value::Integer(i64::MAX)));
    assert_eq!(r, Vec::<RowId>::new());
}

#[test]
fn value_order_puts_integers_before_texts() {
    assert!(Value::Integer(i64::MAX).less_than(&text("")));
    assert!(!text("").less_than(&Value::Integer(i64::MIN)));
    assert!(Value::Integer(-5).less_than(&Value::Integer(3)));
    assert!(text("Alice").less_than(&text("Bob")));
    assert!(text("Bo").less_than(&text("Bob")));
    assert!(!text("Bob").less_than(&text("Bob")));
    assert!(text("Zed").less_than(&text("alice")));
    assert!(text("é").less_than(&text("ü")));
    assert!(Value::Integer(3).equals(&Value::Integer(3)));
    assert!(!Value::Integer(3).equals(&text("3")));
    assert_eq!(text("q").duplicate(), text("q"));
}

#[test]
fn row_put_replaces_earlier_value() {
    let mut r = Row::new();
    assert!(r.get_value("a").is_none());
    r.put("a", Value::Integer(1));
    r.put("b", text("x"));
    r.put("a", Value::Integer(2));
    assert_eq!(r.get_value("a"), Some(&Value::Integer(2)));
    assert_eq!(r.get_value("b"), Some(&text("x")));
    assert!(r.get_value("c").is_none());
    let copy = r.duplicate();
    assert_eq!(copy.get_value("a"), Some(&Value::Integer(2)));
}

#[test]
fn database_replaces_table_of_same_name() {
    let mut db = Database::new();
    assert!(db.get_table("t").is_none());
    db.add_table("t", Table::new());
    let mut t = Table::new();
    t.insert(Row::new());
    db.add_table("t", t);
    assert_eq!(db.tables.len(), 1);
    assert_eq!(db.get_table("t").unwrap().rows.len(), 1);
}
