use monkey::ast::{Expression, Program, Statement};
use monkey::errors::Errors;
use monkey::lexer::Lexer;
use monkey::parser::Parser;
use monkey::source::write_tokens;
use monkey::token::{Token, TokenKind};

fn parse(input: &str) -> Result<Program, Errors> {
    let mut parser = Parser::new(Lexer::new(input));
    parser.parse_program()
}

fn canonical(input: &str) -> String {
    parse(input).unwrap().canonical()
}

fn offender(input: &str) -> Token {
    match parse(input) {
        Err(Errors::TokenInvalid(t)) => t,
        Ok(p) => panic!("parsed: {:?}", p),
    }
}

fn ident(name: &str) -> Expression {
    Expression::Identifier(name.to_string())
}

fn infix(l: Expression, op: &str, r: Expression) -> Expression {
    Expression::InfixExpression {
        left_expression: Box::new(l),
        operator: op.to_string(),
        right_expression: Box::new(r),
    }
}

#[test]
fn canonical_text_is_reparsed_to_the_same_program() {
    let inputs = vec![
        "let x = 5; let y = 10; let foobar = 838383;",
        "return 5; return add(1, 2);",
        "-a * b",
        "a + b * c - d / e == f != g < h > i",
        "!-a; !true == false",
        "if (x < y) { x } else { y }",
        "if (x) { let z = 1; return z; }",
        "fn (x, y) { x + y }(1, 2)",
        "fn () {}",
        "add(1, 2 * 3, 4 + 5)[0](f(g(h)))",
        "[1, [2, 3], \"four\", {}]",
        "{\"b\": 1, \"a\": [2], 3: fn(x) { x }, true: -1}",
        "a * [1, 2, 3, 4][b * c] * d",
        "\"Hello world;\"",
        "",
    ];
    for input in inputs.iter() {
        let first = parse(input).unwrap();
        let text = first.canonical();
        let second = parse(&text).unwrap();
        assert_eq!(second, first, "{}", input);
        assert_eq!(second.canonical(), text, "{}", input);
    }
}

#[test]
fn canonical_tokens_are_written_and_read_again() {
    let inputs = vec![
        "let total = price * (1 + rate); return total;",
        "if (a) { b } else { if (c) { d } }",
        "{\"z\": 1, \"y\": 2}[\"y\"]",
        "fn (a, b, c) { return a(b)(c); }",
    ];
    for input in inputs.iter() {
        let first = parse(input).unwrap();
        let tokens = first.to_tokens();
        let text = write_tokens(&tokens);
        assert_eq!(text, first.canonical());
        let mut lexer = Lexer::new(&text);
        for token in tokens.iter() {
            assert_eq!(lexer.next_token(), *token, "{}", input);
        }
        assert_eq!(lexer.next_token(), Token::new(TokenKind::EOF, ""));
        assert_eq!(parse(&text).unwrap(), first, "{}", input);
    }
}

#[test]
fn canonical_text_writes_every_operation_in_parentheses() {
    assert_eq!(canonical("-a * b"), "( ( - a ) * b ) ;");
    assert_eq!(canonical("a + b + c"), "( ( a + b ) + c ) ;");
    assert_eq!(canonical("a + b * c"), "( a + ( b * c ) ) ;");
    assert_eq!(canonical("1 + (2 + 3) + 4"), "( ( 1 + ( 2 + 3 ) ) + 4 ) ;");
    assert_eq!(
        canonical("a * [1, 2, 3, 4][b * c] * d"),
        "( ( a * ( [ 1 , 2 , 3 , 4 ] [ ( b * c ) ] ) ) * d ) ;"
    );
    assert_eq!(canonical("add(1, 2)"), "( add ( 1 , 2 ) ) ;");
    assert_eq!(canonical("\"a b\""), "\"a b\" ;");
    assert_eq!(canonical("let x = 1"), "let x = 1 ;");
    assert_eq!(canonical("return x"), "return x ;");
    assert_eq!(canonical("if (x) { y } else { z }"), "if ( x ) { y ; } else { z ; } ;");
    assert_eq!(canonical("fn (x, y) { x }"), "fn ( x , y ) { x ; } ;");
    assert_eq!(canonical("{1: 2, 3: 4}"), "{ 1 : 2 , 3 : 4 } ;");
}

#[test]
fn grouping_follows_binding_strength() {
    let cases = vec![
        ("-a * b", "(-a) * b"),
        ("a + b + c", "(a + b) + c"),
        ("a + b * c", "a + (b * c)"),
        ("1 + (2 + 3) + 4", "((1 + (2 + 3)) + 4)"),
        ("a * [1, 2, 3, 4][b * c] * d", "(a * ([1, 2, 3, 4][(b * c)])) * d"),
        ("a == b < c", "a == (b < c)"),
        ("a < b == c", "(a < b) == c"),
        ("a < b + c", "a < (b + c)"),
        ("a * b + c", "(a * b) + c"),
        ("-a + b", "(-a) + b"),
        ("!a == b", "(!a) == b"),
        ("-f(x)", "-(f(x))"),
        ("a + f(x) * b[i]", "a + ((f(x)) * (b[i]))"),
        ("a - b - c", "(a - b) - c"),
        ("a / b / c", "(a / b) / c"),
    ];
    for (plain, grouped) in cases.iter() {
        assert_eq!(parse(plain).unwrap(), parse(grouped).unwrap(), "{}", plain);
    }
    assert_ne!(parse("a + b * c").unwrap(), parse("(a + b) * c").unwrap());
    assert_ne!(parse("a - b - c").unwrap(), parse("a - (b - c)").unwrap());
}

#[test]
fn binary_operation_tree() {
    let program = parse("a + b * c").unwrap();
    let expected = Statement::ExpressionStatement(infix(
        ident("a"),
        "+",
        infix(ident("b"), "*", ident("c")),
    ));
    assert_eq!(program.statements, vec![expected]);
}

#[test]
fn three_let_statements() {
    let program = parse("let x = 5; let y = 10; let foobar = 838383;").unwrap();
    assert_eq!(program.statements.len(), 3);
    let names = vec!["x", "y", "foobar"];
    let values = vec![5, 10, 838383];
    for (i, statement) in program.statements.iter().enumerate() {
        match statement {
            Statement::LetStatement { identifier, value } => {
                assert_eq!(*identifier, ident(names[i]));
                assert_eq!(*value, Expression::Integer(values[i]));
            }
            other => panic!("not a let statement: {:?}", other),
        }
    }
}

#[test]
fn hash_keys_are_sorted_whatever_the_declared_order() {
    let sorted = "{a: 4, b: 1, c: 3, d: 2}";
    let orders = vec![
        "{\"a\": 4, \"b\": 1, \"c\": 3, \"d\": 2}",
        "{\"d\": 2, \"c\": 3, \"b\": 1, \"a\": 4}",
        "{\"c\": 3, \"a\": 4, \"d\": 2, \"b\": 1}",
        "{\"b\": 1, \"d\": 2, \"a\": 4, \"c\": 3,}",
    ];
    let first = parse(orders[0]).unwrap();
    for input in orders.iter() {
        let program = parse(input).unwrap();
        assert_eq!(program.statements[0].render(), sorted);
        assert_eq!(program, first);
    }
}

#[test]
fn hash_keys_are_ordered_by_their_text() {
    let program = parse("{10: 1, 9: 2, b: 3, \"a\": 4, B: 5, 1 + 1: 6}").unwrap();
    assert_eq!(program.statements[0].render(), "{1 + 1: 6, 10: 1, 9: 2, B: 5, a: 4, b: 3}");
}

#[test]
fn hash_pair_with_a_known_key_text_replaces_the_value() {
    let program = parse("{a: 1, b: 2, a: 3}").unwrap();
    assert_eq!(program.statements[0].render(), "{a: 3, b: 2}");
    let program = parse("{a: 1, \"a\": 2}").unwrap();
    match &program.statements[0] {
        Statement::ExpressionStatement(Expression::Hashmap(pairs)) => {
            assert_eq!(pairs.len(), 1);
            assert_eq!(pairs[0].0, ident("a"));
            assert_eq!(pairs[0].1, Expression::Integer(2));
        }
        other => panic!("not a hash literal: {:?}", other),
    }
}

#[test]
fn empty_hash_literal() {
    let program = parse("{}").unwrap();
    assert_eq!(
        program.statements,
        vec![Statement::ExpressionStatement(Expression::Hashmap(vec![]))]
    );
}

#[test]
fn function_literal_without_parameters() {
    let program = parse("fn () {}").unwrap();
    let expected = Expression::FunctionLiteral {
        parameters: vec![],
        body: Box::new(Statement::Block(vec![])),
    };
    assert_eq!(program.statements, vec![Statement::ExpressionStatement(expected)]);
}

#[test]
fn let_without_assignment_names_the_offending_token() {
    let result = parse("let x 5;");
    assert_eq!(
        result,
        Err(Errors::TokenInvalid(Token::new(TokenKind::INT, "5")))
    );
}

#[test]
fn let_without_a_name_names_the_offending_token() {
    assert_eq!(offender("let 5 = 3;"), Token::new(TokenKind::INT, "5"));
    assert_eq!(offender("let x y = 3;"), Token::new(TokenKind::IDENT, "y"));
    assert_eq!(offender("let"), Token::new(TokenKind::EOF, ""));
}

#[test]
fn call_arguments_in_order() {
    let program = parse("add(1, 2 * 3, 4 + 5)").unwrap();
    let expected = Expression::CallExpression {
        function: Box::new(ident("add")),
        body: vec![
            Expression::Integer(1),
            infix(Expression::Integer(2), "*", Expression::Integer(3)),
            infix(Expression::Integer(4), "+", Expression::Integer(5)),
        ],
    };
    assert_eq!(program.statements, vec![Statement::ExpressionStatement(expected)]);
}

#[test]
fn calls_and_subscripts_chain_to_the_left() {
    let program = parse("f(1)(2)[3]").unwrap();
    let inner = Expression::CallExpression {
        function: Box::new(ident("f")),
        body: vec![Expression::Integer(1)],
    };
    let outer = Expression::CallExpression {
        function: Box::new(inner),
        body: vec![Expression::Integer(2)],
    };
    let expected = Expression::IndexExpression {
        array: Box::new(outer),
        subscript: Box::new(Expression::Integer(3)),
    };
    assert_eq!(program.statements, vec![Statement::ExpressionStatement(expected)]);
    assert_eq!(parse("f()").unwrap().statements[0].render(), "f();");
}

#[test]
fn unexpected_tokens_are_reported() {
    assert_eq!(offender("(1 + 2"), Token::new(TokenKind::EOF, ""));
    assert_eq!(offender("(1 + 2]"), Token::new(TokenKind::RBRACKET, "]"));
    assert_eq!(offender("[1, 2"), Token::new(TokenKind::EOF, ""));
    assert_eq!(offender("[1 2]"), Token::new(TokenKind::INT, "2"));
    assert_eq!(offender("f(1; 2)"), Token::new(TokenKind::SEMICOLON, ";"));
    assert_eq!(offender("a[1"), Token::new(TokenKind::EOF, ""));
    assert_eq!(offender("{1 2}"), Token::new(TokenKind::INT, "2"));
    assert_eq!(offender("{1: 2 3}"), Token::new(TokenKind::INT, "3"));
    assert_eq!(offender("{1: }"), Token::new(TokenKind::RBRACE, "}"));
    assert_eq!(offender("if x { 1 }"), Token::new(TokenKind::IDENT, "x"));
    assert_eq!(offender("if (x) 1"), Token::new(TokenKind::INT, "1"));
    assert_eq!(offender("if (x) { 1 } else 2"), Token::new(TokenKind::INT, "2"));
    assert_eq!(offender("fn x"), Token::new(TokenKind::IDENT, "x"));
    assert_eq!(offender("fn (1) {}"), Token::new(TokenKind::INT, "1"));
    assert_eq!(offender("fn (x, 1) {}"), Token::new(TokenKind::INT, "1"));
    assert_eq!(offender("fn (x y) {}"), Token::new(TokenKind::IDENT, "y"));
    assert_eq!(offender("fn (x) x"), Token::new(TokenKind::IDENT, "x"));
    assert_eq!(offender(")"), Token::new(TokenKind::RPAREN, ")"));
    assert_eq!(offender("1 + "), Token::new(TokenKind::EOF, ""));
    assert_eq!(offender("1 + * 2"), Token::new(TokenKind::ASTERISK, "*"));
    assert_eq!(offender("-"), Token::new(TokenKind::EOF, ""));
    assert_eq!(offender("return ;"), Token::new(TokenKind::SEMICOLON, ";"));
    assert_eq!(offender("let x = ;"), Token::new(TokenKind::SEMICOLON, ";"));
    assert_eq!(offender("@"), Token::new(TokenKind::ILLEGAL, "@"));
    assert_eq!(offender("x; else"), Token::new(TokenKind::ELSE, "else"));
}

#[test]
fn a_failure_leaves_no_partial_program() {
    let result = parse("let a = 1; let b = 2; let c 3; let d = 4;");
    assert_eq!(
        result,
        Err(Errors::TokenInvalid(Token::new(TokenKind::INT, "3")))
    );
}

#[test]
fn integer_literals_fit_in_32_bits() {
    assert_eq!(
        parse("2147483647").unwrap().statements,
        vec![Statement::ExpressionStatement(Expression::Integer(2147483647))]
    );
    assert_eq!(offender("2147483648"), Token::new(TokenKind::INT, "2147483648"));
    assert_eq!(
        offender("99999999999999999999999"),
        Token::new(TokenKind::INT, "99999999999999999999999")
    );
    assert_eq!(
        parse("007").unwrap().statements,
        vec![Statement::ExpressionStatement(Expression::Integer(7))]
    );
}

#[test]
fn return_without_terminator_ends_at_the_end_of_input() {
    let program = parse("return 5").unwrap();
    assert_eq!(program.statements, vec![Statement::Return(Expression::Integer(5))]);
    let program = parse("return 1 2 3; 4").unwrap();
    assert_eq!(
        program.statements,
        vec![
            Statement::Return(Expression::Integer(1)),
            Statement::ExpressionStatement(Expression::Integer(4)),
        ]
    );
}

#[test]
fn return_without_terminator_in_a_block_runs_to_the_end_of_input() {
    let program = parse("fn () { return 5 } 6").unwrap();
    let expected = Expression::FunctionLiteral {
        parameters: vec![],
        body: Box::new(Statement::Block(vec![Statement::Return(Expression::Integer(5))])),
    };
    assert_eq!(program.statements, vec![Statement::ExpressionStatement(expected)]);
}

#[test]
fn a_block_may_end_with_the_input() {
    let program = parse("if (x) { y").unwrap();
    let expected = Expression::IfExpression {
        condition: Box::new(ident("x")),
        consequence: Box::new(Statement::Block(vec![Statement::ExpressionStatement(ident("y"))])),
        alternative: None,
    };
    assert_eq!(program.statements, vec![Statement::ExpressionStatement(expected)]);
}

#[test]
fn terminators_are_optional_after_expressions() {
    assert_eq!(parse("a b").unwrap().statements.len(), 2);
    assert_eq!(parse("a; b;").unwrap(), parse("a b").unwrap());
    assert_eq!(parse("let x = 1 let y = 2").unwrap().statements.len(), 2);
    assert_eq!(parse("").unwrap().statements.len(), 0);
}

#[test]
fn the_parser_never_yields_the_absent_value() {
    let program = parse("{1: 2}; [1]; f(x); a[0]; if (a) { b }").unwrap();
    let text = format!("{:?}", program);
    assert!(!text.contains("Null"));
    assert_eq!(Expression::Null.render(), "null");
}

#[test]
fn display_text_of_statements() {
    let program = parse("let x = 1 + 2; return f(x); f(x); x; if (x) { a; b(); c }").unwrap();
    let texts: Vec<String> = program.statements.iter().map(|s| s.render()).collect();
    assert_eq!(
        texts,
        vec!["let x = 1 + 2", "return f(x)", "f(x);", "x", "if (x) {a b(); c}"]
    );
    assert_eq!(program.render(), "let x = 1 + 2 return f(x) f(x); x if (x) {a b(); c}");
}

#[test]
fn display_text_of_integers() {
    assert_eq!(Expression::Integer(0).render(), "0");
    assert_eq!(Expression::Integer(-5).render(), "-5");
    assert_eq!(Expression::Integer(1234567890).render(), "1234567890");
    assert_eq!(Expression::Integer(i32::MAX).render(), "2147483647");
    assert_eq!(Expression::Integer(i32::MIN).render(), "-2147483648");
}

#[test]
fn the_cursor_moves_one_token_at_a_time_and_stays_at_the_end() {
    let mut parser = Parser::new(Lexer::new("a + 1"));
    assert_eq!(parser.current_token(), Token::new(TokenKind::IDENT, "a"));
    assert_eq!(parser.peek_token(), Token::new(TokenKind::PLUS, "+"));
    parser.next_token();
    assert_eq!(parser.current_token(), Token::new(TokenKind::PLUS, "+"));
    assert_eq!(parser.peek_token(), Token::new(TokenKind::INT, "1"));
    parser.next_token();
    assert_eq!(parser.current_token(), Token::new(TokenKind::INT, "1"));
    assert_eq!(parser.peek_token(), Token::new(TokenKind::EOF, ""));
    parser.next_token();
    assert_eq!(parser.current_token(), Token::new(TokenKind::EOF, ""));
    parser.next_token();
    parser.next_token();
    assert_eq!(parser.current_token(), Token::new(TokenKind::EOF, ""));
    assert_eq!(parser.peek_token(), Token::new(TokenKind::EOF, ""));
    assert_eq!(parser.parse_program().unwrap().statements.len(), 0);
}

#[test]
fn parsing_goes_on_from_the_current_token() {
    let mut parser = Parser::new(Lexer::new("1; 2; 3"));
    parser.next_token();
    parser.next_token();
    let program = parser.parse_program().unwrap();
    assert_eq!(program.render(), "2 3");
}

#[test]
fn a_cloned_parser_reads_the_same_program() {
    let mut first = Parser::new(Lexer::new("let a = 1; a + 2"));
    first.next_token();
    let mut second = first.clone();
    assert_eq!(second.current_token(), first.current_token());
    assert_eq!(second.parse_program(), first.parse_program());
}

#[test]
fn a_cloned_error_is_equal() {
    let error = Errors::TokenInvalid(Token::new(TokenKind::RBRACE, "}"));
    assert_eq!(error.clone(), error);
}

#[test]
fn canonical_tokens_of_a_program() {
    let program = parse("!a == b;").unwrap();
    let tokens: Vec<(TokenKind, String)> =
        program.to_tokens().into_iter().map(|t| (t.token_type, t.literal)).collect();
    let expected = vec![
        (TokenKind::LPAREN, "("),
        (TokenKind::LPAREN, "("),
        (TokenKind::BANG, "!"),
        (TokenKind::IDENT, "a"),
        (TokenKind::RPAREN, ")"),
        (TokenKind::EQ, "=="),
        (TokenKind::IDENT, "b"),
        (TokenKind::RPAREN, ")"),
        (TokenKind::SEMICOLON, ";"),
    ];
    let expected: Vec<(TokenKind, String)> =
        expected.into_iter().map(|(k, s)| (k, s.to_string())).collect();
    assert_eq!(tokens, expected);
}
