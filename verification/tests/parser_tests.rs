use monkey::lexer::Lexer;
use monkey::parser::Parser;
use std::str::FromStr;

#[test]
fn test_let_statement() {
    let input = r#"let x = 5;
                       let y = 10;
                       let foobar = 838383;"#;

    let lexer = Lexer::new(&input);
    let mut parser = Parser::new(lexer);
    let program = parser.parse_program().unwrap();
    let stmt = program.statements[0].render();
    assert_eq!(stmt, "let x = 5");
    assert_eq!(program.statements.len(), 3);
}

#[test]
fn test_return_statement() {
    let input = r#"return 5;
                       return 10;
                       return 993322;"#;

    let lexer = Lexer::new(&input);
    let mut parser = Parser::new(lexer);
    let program = parser.parse_program().unwrap();

    assert_eq!(program.statements.len(), 3);
    let tests = vec!["return 5", "return 10", "return 993322"];

    for (i, test) in tests.iter().enumerate() {
        let stmt = program.statements[i].render();
        assert_eq!(*stmt, **test);
    }
}

#[test]
fn test_identifier_expression() {
    let input = "foobar;".to_string();

    let lexer = Lexer::new(&input);
    let mut parser = Parser::new(lexer);
    let program = parser.parse_program().unwrap();
    assert_eq!(program.statements.len(), 1);
    let stmt = program.statements[0].render();
    assert_eq!(stmt, "foobar");
}

#[test]
fn test_interger_expression() {
    let input = "5".to_string();

    let lexer = Lexer::new(&input);
    let mut parser = Parser::new(lexer);
    let program = parser.parse_program().unwrap();
    assert_eq!(program.statements.len(), 1);
    let stmt = program.statements[0].render();
    assert_eq!(stmt, "5".to_string());
}

#[test]
fn test_prefix_expression() {
    let prefix_tests = vec!["!5", "-15"];
    for test in prefix_tests.iter() {
        let lexer = Lexer::new(test);
        let mut parser = Parser::new(lexer);
        let program = parser.parse_program().unwrap();
        assert_eq!(program.statements.len(), 1);
        let statements = program.statements[0].render();
        assert_eq!(statements, *test);
        for (i, statement) in prefix_tests.iter().enumerate() {
            assert_eq!(*statement, prefix_tests[i]);
        }
    }
}

#[test]
fn test_infix_expression() {
    let infix_tests = vec![
        "5 + 5;", "5 - 5;", "5 * 5;", "5 / 5;", "5 > 5;", "5 < 5;", "5 == 5;", "5 != 5;",
    ];
    for test in infix_tests.iter() {
        let lexer = Lexer::new(test);
        let mut parser = Parser::new(lexer);
        let program = parser.parse_program().unwrap();
        assert_eq!(program.statements.len(), 1);
        let statements = program.statements[0].render();
        assert_eq!(format!("{};", statements), *test);
        for (i, statement) in infix_tests.iter().enumerate() {
            assert_eq!(*statement, infix_tests[i]);
        }
    }
}

#[test]
fn test_operator_precedence_parsing() {
    let infix_tests = vec![
        ("((-a) * b)", "-a * b"),
        ("(!(-a))", "!-a"),
        ("((a + b) + c)", "a + b + c"),
        ("((a + b) - c)", "a + b - c"),
        ("((a * b) * c)", "a * b * c"),
        ("((a * b) / c)", "a * b / c"),
        ("(a + (b / c))", "a + b / c"),
        ("(1 + (2 + 3)) + 4", "1 + 2 + 3 + 4"),
        ("((5 + 5) * 2)", "5 + 5 * 2"),
        ("(2 / (5 + 5))", "2 / 5 + 5"),
        ("(-(5 + 5))", "-5 + 5"),
        ("(!(true == true))", "!true == true"),
        ("((a * ([1, 2, 3, 4][(b * c)])) * d)", "a * [1, 2, 3, 4][b * c] * d"),
    ];
    for (_i, test) in infix_tests.iter().enumerate() {
        let lexer = Lexer::new(test.0);
        let mut parser = Parser::new(lexer);
        let program = parser.parse_program().unwrap();
        let statements = program.statements[0].render();
        assert_eq!(statements, test.1);
    }
}

#[test]
fn test_bool_expression() {
    let bool_tests = vec![("true", true), ("false", false)];
    for (test, right) in bool_tests.iter() {
        let lexer = Lexer::new(test);
        let mut parser = Parser::new(lexer);
        let program = parser.parse_program().unwrap();
        assert_eq!(program.statements.len(), 1);
        let statements = program.statements[0].render();
        assert_eq!(FromStr::from_str(&statements.to_string()[..]), Ok(*right));
    }
}

#[test]
fn test_bool_infix_expression() {
    let bool_tests = vec![
        ("3 > 5 == false", 3, ">", 5, "==", "false"),
        ("3 > 5 == false", 3, "<", 5, "==", "true"),
    ];
    for (test, _left, _operator, _right, _bool_ident, _bool_literal) in bool_tests.iter() {
        let lexer = Lexer::new(test);
        let mut parser = Parser::new(lexer);
        let program = parser.parse_program();
        assert!(program.is_ok());
    }
}

#[test]
fn test_if_expression() {
    let input = "if (1 > 2) {10} else {20}".to_string();
    let lexer = Lexer::new(&input);
    let mut parser = Parser::new(lexer);
    let program = parser.parse_program().unwrap();
    let statements = program.statements[0].render();
    println!("{:?}", statements);
    assert_eq!(input, statements);
}

#[test]
fn test_function_expression() {
    let input = "fn (x, y) {x + y}".to_string();
    let lexer = Lexer::new(&input);
    let mut parser = Parser::new(lexer);
    let program = parser.parse_program().unwrap();
    let statements = program.statements[0].render();
    assert_eq!(input, statements);
}

#[test]
fn test_call_expression() {
    let input = "add(1, 2 * 3, 4 + 5);".to_string();
    let lexer = Lexer::new(&input);
    let mut parser = Parser::new(lexer);
    let program = parser.parse_program().unwrap();
    let statements = program.statements[0].render();
    assert_eq!(input, statements);
}

#[test]
fn test_string_literal_expression() {
    let input = r#""Hello world;""#;
    let lexer = Lexer::new(&input);
    let mut parser = Parser::new(lexer);
    let program = parser.parse_program().unwrap();
    let statements = program.statements[0].render();
    assert_eq!("Hello world;", statements);
}

#[test]
fn test_parse_array_literals() {
    let input = "[1, 2 * 2, 3 + 3]";
    let lexer = Lexer::new(&input);
    let mut parser = Parser::new(lexer);
    let program = parser.parse_program().unwrap();
    let statements = program.statements[0].render();
    assert_eq!("[1, 2 * 2, 3 + 3]", statements);
}

#[test]
fn test_parse_index_expressions() {
    let input = "my_array[1 + 1]";
    let lexer = Lexer::new(&input);
    let mut parser = Parser::new(lexer);
    let program = parser.parse_program().unwrap();
    let statements = program.statements[0].render();
    assert_eq!("my_array[1 + 1]", statements);
}

#[test]
fn test_parse_hash_literal_string_keys() {
    let input = "{\"a\": 4, \"b\": 1, \"c\": 3, \"d\": 2}";
    let lexer = Lexer::new(&input);
    let mut parser = Parser::new(lexer);
    let program = parser.parse_program().unwrap();
    let statements = program.statements[0].render();
    assert_eq!("{a: 4, b: 1, c: 3, d: 2}", statements);
}

#[test]
fn test_parse_empty_hash_literal() {
    let input = "{}";
    let lexer = Lexer::new(&input);
    let mut parser = Parser::new(lexer);
    let program = parser.parse_program().unwrap();
    let statements = program.statements[0].render();
    assert_eq!("{}", statements);
}

#[test]
fn test_parse_hash_literal_with_expressions() {
    let input = "{\"one\": 0 + 1, \"two\": 10-8, \"three\": 15 / 5}";
    let lexer = Lexer::new(&input);
    let mut parser = Parser::new(lexer);
    let program = parser.parse_program().unwrap();
    let statements = program.statements[0].render();
    assert_eq!("{one: 0 + 1, three: 15 / 5, two: 10 - 8}", statements);
}
