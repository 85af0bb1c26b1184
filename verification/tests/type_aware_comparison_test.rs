use isenta::engine::QueryEngine;
use isenta::parser::Parser;

fn run(engine: &mut QueryEngine, parser: &Parser, line: &str) -> String {
    isenta::execute_line(line, engine, parser)
}

#[test]
fn test_integer_comparisons() {
    let mut engine = QueryEngine::new();
    let parser = Parser::new();

    run(&mut engine, &parser, "CREATE TABLE test_int (id INTEGER, value INTEGER)");
    run(&mut engine, &parser, "INSERT INTO test_int VALUES (1, 10)");
    run(&mut engine, &parser, "INSERT INTO test_int VALUES (2, 20)");
    run(&mut engine, &parser, "INSERT INTO test_int VALUES (3, 30)");

    let out = run(&mut engine, &parser, "SELECT id FROM test_int WHERE value > 15");
    assert!(out.contains("2"));
    assert!(out.contains("3"));
    assert!(!out.contains("1"));

    let out = run(&mut engine, &parser, "SELECT id FROM test_int WHERE value < 25");
    assert!(out.contains("1"));
    assert!(out.contains("2"));
    assert!(!out.contains("3"));

    let out = run(&mut engine, &parser, "SELECT id FROM test_int WHERE value >= 20");
    assert!(out.contains("2"));
    assert!(out.contains("3"));
    assert!(!out.contains("1"));

    let out = run(&mut engine, &parser, "SELECT id FROM test_int WHERE value <= 20");
    assert!(out.contains("1"));
    assert!(out.contains("2"));
    assert!(!out.contains("3"));
}

#[test]
fn test_text_comparisons() {
    let mut engine = QueryEngine::new();
    let parser = Parser::new();

    run(&mut engine, &parser, "CREATE TABLE test_text (id INTEGER, name TEXT)");
    run(&mut engine, &parser, "INSERT INTO test_text VALUES (1, 'apple')");
    run(&mut engine, &parser, "INSERT INTO test_text VALUES (2, 'banana')");

    let out = run(&mut engine, &parser, "SELECT id FROM test_text WHERE name = 'apple'");
    assert!(out.contains("1"));
    assert!(!out.contains("2"));

    let out = run(&mut engine, &parser, "SELECT id FROM test_text WHERE name != 'apple'");
    assert!(out.contains("2"));
    assert!(!out.contains("1"));
}
