use isenta::engine::QueryEngine;
use isenta::parser::Parser;
use isenta::storage::StorageEngine;

fn run(engine: &mut QueryEngine, parser: &Parser, line: &str) -> String {
    isenta::execute_line(line, engine, parser)
}

fn reopen(engine: &QueryEngine) -> QueryEngine {
    let bytes = engine.database().storage().to_bytes();
    let storage = StorageEngine::from_bytes(&bytes);
    QueryEngine::with_storage(storage).expect("reopen failed")
}

/// CREATE then reopen: SHOW TABLES names the table.
#[test]
fn create_then_reopen_shows_table() {
    let mut engine = QueryEngine::new();
    let parser = Parser::new();
    run(&mut engine, &parser, "CREATE TABLE users (id INTEGER, name TEXT)");
    let mut reopened = reopen(&engine);
    let out = run(&mut reopened, &parser, "SHOW TABLES");
    assert!(out.contains("users"));
}

/// Schema round trip: name and columns come back identical and in order.
#[test]
fn schema_round_trip_exact() {
    let mut engine = QueryEngine::new();
    let parser = Parser::new();
    run(&mut engine, &parser, "CREATE TABLE Mixed (alpha INTEGER, beta TEXT, gamma TEXT)");
    let reopened = reopen(&engine);
    let tables = reopened.get_all_tables();
    assert_eq!(tables.len(), 1);
    assert_eq!(tables[0].name, "Mixed");
    let cols = &tables[0].columns;
    assert_eq!(cols.len(), 3);
    assert_eq!(cols[0].name, "alpha");
    assert_eq!(cols[0].data_type, "INTEGER");
    assert_eq!(cols[1].name, "beta");
    assert_eq!(cols[1].data_type, "TEXT");
    assert_eq!(cols[2].name, "gamma");
    assert_eq!(cols[2].data_type, "TEXT");
}

/// INSERT then reopen and filter: the stored rows come back in order, and
/// integer values round-trip as their decimal form.
#[test]
fn insert_then_reopen_and_select() {
    let mut engine = QueryEngine::new();
    let parser = Parser::new();
    run(&mut engine, &parser, "CREATE TABLE users (id INTEGER, name TEXT)");
    run(&mut engine, &parser, "INSERT INTO users VALUES (1, 'Alice')");
    run(&mut engine, &parser, "INSERT INTO users VALUES (2, 'Bob')");
    let mut reopened = reopen(&engine);
    let out = run(&mut reopened, &parser, "SELECT * FROM users WHERE name = 'Alice'");
    assert!(out.contains("1 | Alice"));
    assert!(!out.contains("Bob"));
    let tables = reopened.get_all_tables();
    assert_eq!(tables[0].rows.len(), 2);
    assert_eq!(tables[0].rows[0].values, vec!["1", "Alice"]);
    assert_eq!(tables[0].rows[1].values, vec!["2", "Bob"]);
}

/// Integer round trip keeps canonical decimal forms; text that does not
/// parse as an integer survives verbatim in an INTEGER column.
#[test]
fn integer_round_trip_forms() {
    let mut engine = QueryEngine::new();
    let parser = Parser::new();
    run(&mut engine, &parser, "CREATE TABLE t (v INTEGER)");
    run(&mut engine, &parser, "INSERT INTO t VALUES (0)");
    run(&mut engine, &parser, "INSERT INTO t VALUES (-9223372036854775808)");
    run(&mut engine, &parser, "INSERT INTO t VALUES (9223372036854775807)");
    run(&mut engine, &parser, "INSERT INTO t VALUES (not_a_number)");
    let reopened = reopen(&engine);
    let rows = &reopened.get_all_tables()[0].rows;
    assert_eq!(rows[0].values, vec!["0"]);
    assert_eq!(rows[1].values, vec!["-9223372036854775808"]);
    assert_eq!(rows[2].values, vec!["9223372036854775807"]);
    assert_eq!(rows[3].values, vec!["not_a_number"]);
}

/// Numeric filtering on an INTEGER column.
#[test]
fn select_numeric_filter() {
    let mut engine = QueryEngine::new();
    let parser = Parser::new();
    run(&mut engine, &parser, "CREATE TABLE t (v INTEGER)");
    run(&mut engine, &parser, "INSERT INTO t VALUES (10)");
    run(&mut engine, &parser, "INSERT INTO t VALUES (20)");
    run(&mut engine, &parser, "INSERT INTO t VALUES (30)");
    let mut reopened = reopen(&engine);
    let out = run(&mut reopened, &parser, "SELECT v FROM t WHERE v > 15");
    assert!(out.contains("20"));
    assert!(out.contains("30"));
    assert!(!out.contains("10"));
}

/// LIKE matching with a prefix pattern.
#[test]
fn select_like_prefix() {
    let mut engine = QueryEngine::new();
    let parser = Parser::new();
    run(&mut engine, &parser, "CREATE TABLE t (name TEXT)");
    run(&mut engine, &parser, "INSERT INTO t VALUES ('apple')");
    run(&mut engine, &parser, "INSERT INTO t VALUES ('banana')");
    let mut reopened = reopen(&engine);
    let out = run(&mut reopened, &parser, "SELECT name FROM t WHERE name LIKE 'a%'");
    assert!(out.contains("apple"));
    assert!(!out.contains("banana"));
    let out = run(&mut reopened, &parser, "SELECT name FROM t WHERE name NOT LIKE 'a%'");
    assert!(out.contains("banana"));
    assert!(!out.contains("apple"));
    // an underscore matches exactly one character
    let out = run(&mut reopened, &parser, "SELECT name FROM t WHERE name LIKE '_pple'");
    assert!(out.contains("apple"));
    assert!(!out.contains("banana"));
}

/// UPDATE with a filter returns the count and persists across reopen.
#[test]
fn update_filter_counts_and_persists() {
    let mut engine = QueryEngine::new();
    let parser = Parser::new();
    run(&mut engine, &parser, "CREATE TABLE x (id INT, name TEXT)");
    run(&mut engine, &parser, "INSERT INTO x VALUES (1, 'one')");
    run(&mut engine, &parser, "INSERT INTO x VALUES (2, 'two')");
    run(&mut engine, &parser, "INSERT INTO x VALUES (3, 'three')");
    let out = run(&mut engine, &parser, "UPDATE x SET name = 'Changed' WHERE id != 2");
    assert!(out.contains("Updated 2 rows in 'x'"));
    let reopened = reopen(&engine);
    let rows = &reopened.get_all_tables()[0].rows;
    assert_eq!(rows[0].values[1], "Changed");
    assert_eq!(rows[1].values[1], "two");
    assert_eq!(rows[2].values[1], "Changed");
}

/// Two reopens with no writes in between: byte-identical headers, same
/// catalog contents.
#[test]
fn reopen_twice_is_stable() {
    let mut engine = QueryEngine::new();
    let parser = Parser::new();
    run(&mut engine, &parser, "CREATE TABLE a (v INTEGER)");
    run(&mut engine, &parser, "INSERT INTO a VALUES (42)");
    run(&mut engine, &parser, "CREATE TABLE b (w TEXT)");
    let first = reopen(&engine);
    let second = reopen(&first);
    let h1 = first.database().storage().to_bytes();
    let h2 = second.database().storage().to_bytes();
    assert_eq!(h1[0..4096], h2[0..4096]);
    assert_eq!(h1, h2);
    let t1 = first.get_all_tables();
    let t2 = second.get_all_tables();
    assert_eq!(t1.len(), t2.len());
    for i in 0..t1.len() {
        assert_eq!(t1[i].name, t2[i].name);
        assert_eq!(t1[i].rows.len(), t2[i].rows.len());
        for j in 0..t1[i].rows.len() {
            assert_eq!(t1[i].rows[j].values, t2[i].rows[j].values);
        }
    }
}

/// Case-insensitive lookup: INSPECT and SELECT succeed on case variants.
#[test]
fn case_insensitive_lookup() {
    let mut engine = QueryEngine::new();
    let parser = Parser::new();
    run(&mut engine, &parser, "CREATE TABLE Users (id INTEGER)");
    run(&mut engine, &parser, "INSERT INTO users VALUES (5)");
    let out = run(&mut engine, &parser, "INSPECT uSeRs");
    assert!(out.contains("id"));
    let out = run(&mut engine, &parser, "SELECT * FROM USERS");
    assert!(out.contains("5"));
    let out = run(&mut engine, &parser, "SELECT * FROM nosuch");
    assert!(out.contains("does not exist"));
}

/// Creating a table twice is refused, case-insensitively, with no disk
/// change.
#[test]
fn duplicate_create_refused() {
    let mut engine = QueryEngine::new();
    let parser = Parser::new();
    run(&mut engine, &parser, "CREATE TABLE t (v INTEGER)");
    let before = engine.database().storage().to_bytes();
    let out = run(&mut engine, &parser, "CREATE TABLE T (v INTEGER)");
    assert!(out.contains("already exists"));
    let after = engine.database().storage().to_bytes();
    assert_eq!(before, after);
}

/// Errors for a missing column and a wrong arity.
#[test]
fn user_errors() {
    let mut engine = QueryEngine::new();
    let parser = Parser::new();
    run(&mut engine, &parser, "CREATE TABLE t (v INTEGER)");
    let out = run(&mut engine, &parser, "INSERT INTO t VALUES (1, 2)");
    assert!(out.contains("Column count mismatch: expected 1, got 2"));
    let out = run(&mut engine, &parser, "SELECT nope FROM t");
    assert!(out.contains("Column 'nope' not found in table 't'"));
    let out = run(&mut engine, &parser, "UPDATE t SET nope = 3");
    assert!(out.contains("Column 'nope' not found in table 't'"));
    let out = run(&mut engine, &parser, "INSERT INTO missing VALUES (1)");
    assert!(out.contains("Table 'missing' does not exist"));
}

/// NULL encoding: an empty value stores as NULL and reads back empty.
#[test]
fn empty_value_round_trips_as_null() {
    let mut engine = QueryEngine::new();
    let parser = Parser::new();
    run(&mut engine, &parser, "CREATE TABLE t (a TEXT, b TEXT)");
    run(&mut engine, &parser, "INSERT INTO t VALUES ('', 'x')");
    let reopened = reopen(&engine);
    let rows = &reopened.get_all_tables()[0].rows;
    assert_eq!(rows[0].values, vec!["", "x"]);
}
