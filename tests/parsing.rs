use minidb::parser::{parse_query, parse_value, Operator};
use minidb::value::Value;

fn text(s: &str) -> Value {
    Value::Text(s.to_string())
}

#[test]
fn quoted_text_literal_loses_its_quotes() {
    assert_eq!(parse_value("'Bob'"), Ok(text("Bob")));
    assert_eq!(parse_value("\"Bob\""), Ok(text("Bob")));
    assert_eq!(parse_value("''"), Ok(text("")));
    assert_eq!(parse_value("'25'"), Ok(text("25")));
}

#[test]
fn integer_literal_parses_to_integer() {
    assert_eq!(parse_value("25"), Ok(Value::Integer(25)));
    assert_eq!(parse_value("-7"), Ok(Value::Integer(-7)));
    assert_eq!(parse_value("+7"), Ok(Value::Integer(7)));
    assert_eq!(parse_value("007"), Ok(Value::Integer(7)));
    assert_eq!(parse_value("9223372036854775807"), Ok(Value::Integer(i64::MAX)));
    assert_eq!(parse_value("-9223372036854775808"), Ok(Value::Integer(i64::MIN)));
}

#[test]
fn malformed_literals_are_rejected() {
    assert_eq!(parse_value("25abc"), Err("Invalid value '25abc'".to_string()));
    assert!(parse_value("9223372036854775808").is_err());
    assert!(parse_value("-9223372036854775809").is_err());
    assert!(parse_value("'Bob").is_err());
    assert!(parse_value("Bob'").is_err());
    assert!(parse_value("'Bob\"").is_err());
    assert!(parse_value("'").is_err());
    assert!(parse_value("-1x").is_err());
}

#[test]
fn bare_words_are_text() {
    assert_eq!(parse_value("Bob"), Ok(text("Bob")));
    assert_eq!(parse_value("-"), Ok(text("-")));
    assert_eq!(parse_value("a'b"), Ok(text("a'b")));
}

#[test]
fn query_with_condition() {
    let q = parse_query("SELECT * FROM users WHERE name = 'Bob'").unwrap();
    assert_eq!(q.table_name, "users");
    let c = q.condition.unwrap();
    assert_eq!(c.column, "name");
    assert_eq!(c.operator, Operator::Eq);
    assert_eq!(c.value, text("Bob"));
}

#[test]
fn every_operator_is_recognised() {
    let ops = [
        ("=", Operator::Eq),
        ("!=", Operator::Neq),
        (">", Operator::Gt),
        ("<", Operator::Lt),
        (">=", Operator::Gte),
        ("<=", Operator::Lte),
    ];
    for (s, op) in ops {
        let q = parse_query(&format!("SELECT * FROM t WHERE a {} 1", s)).unwrap();
        assert_eq!(q.condition.unwrap().operator, op);
    }
}

#[test]
fn keywords_ignore_case_and_semicolon_is_dropped() {
    let q = parse_query("  select\t*\nFrOm users where age >= 30;").unwrap();
    assert_eq!(q.table_name, "users");
    let c = q.condition.unwrap();
    assert_eq!(c.column, "age");
    assert_eq!(c.operator, Operator::Gte);
    assert_eq!(c.value, Value::Integer(30));
    let q = parse_query("SELECT * FROM users;").unwrap();
    assert_eq!(q.table_name, "users");
    assert!(q.condition.is_none());
    let q = parse_query("SELECT * FROM users WHERE age = 30 ;").unwrap();
    assert_eq!(q.condition.unwrap().value, Value::Integer(30));
}

#[test]
fn short_queries_are_rejected() {
    assert_eq!(parse_query("").unwrap_err(), "Query too short");
    assert_eq!(parse_query("SELECT * FROM").unwrap_err(), "Query too short");
    assert_eq!(parse_query("SELECT * FROM ;").unwrap_err(), "Query too short");
}

#[test]
fn malformed_select_is_rejected() {
    assert_eq!(parse_query("SELECT name FROM users").unwrap_err(), "Invalid SELECT syntax");
    assert_eq!(parse_query("DELETE * FROM users").unwrap_err(), "Invalid SELECT syntax");
    assert_eq!(parse_query("SELECT * INTO users").unwrap_err(), "Invalid SELECT syntax");
}

#[test]
fn incomplete_where_is_rejected() {
    assert_eq!(parse_query("SELECT * FROM users WHERE age =").unwrap_err(), "Incomplete WHERE clause");
}

#[test]
fn unknown_operator_is_named() {
    assert_eq!(parse_query("SELECT * FROM users WHERE age == 3").unwrap_err(), "Unknown operator '=='");
}

#[test]
fn bad_literal_in_query_is_rejected() {
    assert_eq!(parse_query("SELECT * FROM users WHERE age = 25abc").unwrap_err(), "Invalid value '25abc'");
}

#[test]
fn quoted_text_with_space_is_split_and_rejected() {
    assert_eq!(
        parse_query("SELECT * FROM users WHERE name = 'Bob Smith'").unwrap_err(),
        "Invalid value ''Bob'"
    );
}

#[test]
fn words_after_the_grammar_are_ignored() {
    let q = parse_query("SELECT * FROM users extra words").unwrap();
    assert!(q.condition.is_none());
    let q = parse_query("SELECT * FROM users WHERE a = 1 trailing").unwrap();
    assert_eq!(q.condition.unwrap().value, Value::Integer(1));
}
