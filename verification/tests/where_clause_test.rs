use isenta::engine::QueryEngine;
use isenta::parser::Parser;

fn run(engine: &mut QueryEngine, parser: &Parser, line: &str) -> String {
    isenta::execute_line(line, engine, parser)
}

#[test]
fn test_select_with_not_equals_clause() {
    let mut engine = QueryEngine::new();
    let parser = Parser::new();

    run(&mut engine, &parser, "CREATE TABLE test_neq (id INT, name TEXT)");
    run(&mut engine, &parser, "INSERT INTO test_neq VALUES (1, 'Alice')");
    run(&mut engine, &parser, "INSERT INTO test_neq VALUES (2, 'Bob')");
    run(&mut engine, &parser, "INSERT INTO test_neq VALUES (3, 'Charlie')");

    let out = run(&mut engine, &parser, "SELECT * FROM test_neq WHERE name != 'Bob'");
    assert!(out.contains("1 | Alice"));
    assert!(out.contains("3 | Charlie"));
    assert!(!out.contains("Bob"));
}

#[test]
fn test_update_with_not_equals_clause() {
    let mut engine = QueryEngine::new();
    let parser = Parser::new();

    run(&mut engine, &parser, "CREATE TABLE test_update_neq (id INT, name TEXT)");
    run(&mut engine, &parser, "INSERT INTO test_update_neq VALUES (1, 'One')");
    run(&mut engine, &parser, "INSERT INTO test_update_neq VALUES (2, 'Two')");

    let out = run(
        &mut engine,
        &parser,
        "UPDATE test_update_neq SET name = 'Changed' WHERE id != 2",
    );
    assert!(out.contains("Updated 1 rows in 'test_update_neq'"));

    let out = run(&mut engine, &parser, "SELECT name FROM test_update_neq WHERE id = 1");
    assert!(out.contains("Changed"));

    let out = run(&mut engine, &parser, "SELECT name FROM test_update_neq WHERE id = 2");
    assert!(out.contains("Two"));
}
