use isenta::engine::QueryEngine;
use isenta::parser::Parser;

fn run(engine: &mut QueryEngine, parser: &Parser, line: &str) -> String {
    isenta::execute_line(line, engine, parser)
}

#[test]
fn test_select_with_where_clause() {
    let mut engine = QueryEngine::new();
    let parser = Parser::new();

    run(&mut engine, &parser, "CREATE TABLE users (id INT, name TEXT)");
    run(&mut engine, &parser, "INSERT INTO users VALUES (1, 'Alice')");
    run(&mut engine, &parser, "INSERT INTO users VALUES (2, 'Bob')");

    let out = run(&mut engine, &parser, "SELECT * FROM users WHERE name = 'Alice'");
    assert!(out.contains("1 | Alice"));

    let out = run(&mut engine, &parser, "SELECT name FROM users WHERE id = 2");
    assert!(out.contains("Bob"));
}
