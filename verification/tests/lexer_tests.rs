use monkey::lexer::Lexer;
use monkey::text::{
    chars_of, compare_text, digit_str, integer_value, render_int, render_nat, TextOrder,
};
use monkey::token::{Precedence, Token, TokenKind};

fn tokens(input: &str) -> Vec<(TokenKind, String)> {
    let mut lexer = Lexer::new(input);
    let mut out = vec![];
    loop {
        let token = lexer.next_token();
        if token.token_type == TokenKind::EOF {
            return out;
        }
        out.push((token.token_type, token.literal));
    }
}

fn kinds(input: &str) -> Vec<TokenKind> {
    tokens(input).into_iter().map(|t| t.0).collect()
}

#[test]
fn symbols() {
    assert_eq!(
        kinds("=+-!*/<>,;:(){}[]"),
        vec![
            TokenKind::ASSIGN,
            TokenKind::PLUS,
            TokenKind::MINUS,
            TokenKind::BANG,
            TokenKind::ASTERISK,
            TokenKind::SLASH,
            TokenKind::LT,
            TokenKind::GT,
            TokenKind::COMMA,
            TokenKind::SEMICOLON,
            TokenKind::COLON,
            TokenKind::LPAREN,
            TokenKind::RPAREN,
            TokenKind::LBRACE,
            TokenKind::RBRACE,
            TokenKind::LBRACKET,
            TokenKind::RBRACKET,
        ]
    );
}

#[test]
fn two_character_operators() {
    assert_eq!(
        tokens("== != = ! === !=="),
        vec![
            (TokenKind::EQ, "==".to_string()),
            (TokenKind::NotEq, "!=".to_string()),
            (TokenKind::ASSIGN, "=".to_string()),
            (TokenKind::BANG, "!".to_string()),
            (TokenKind::EQ, "==".to_string()),
            (TokenKind::ASSIGN, "=".to_string()),
            (TokenKind::NotEq, "!=".to_string()),
            (TokenKind::ASSIGN, "=".to_string()),
        ]
    );
}

#[test]
fn keywords_and_names() {
    assert_eq!(
        tokens("fn let true false if else return lets my_array Fn _"),
        vec![
            (TokenKind::FUNCTION, "fn".to_string()),
            (TokenKind::LET, "let".to_string()),
            (TokenKind::TRUE, "true".to_string()),
            (TokenKind::FALSE, "false".to_string()),
            (TokenKind::IF, "if".to_string()),
            (TokenKind::ELSE, "else".to_string()),
            (TokenKind::RETURN, "return".to_string()),
            (TokenKind::IDENT, "lets".to_string()),
            (TokenKind::IDENT, "my_array".to_string()),
            (TokenKind::IDENT, "Fn".to_string()),
            (TokenKind::IDENT, "_".to_string()),
        ]
    );
}

#[test]
fn numbers_and_names_touch() {
    assert_eq!(
        tokens("10-8 x1 2y"),
        vec![
            (TokenKind::INT, "10".to_string()),
            (TokenKind::MINUS, "-".to_string()),
            (TokenKind::INT, "8".to_string()),
            (TokenKind::IDENT, "x".to_string()),
            (TokenKind::INT, "1".to_string()),
            (TokenKind::INT, "2".to_string()),
            (TokenKind::IDENT, "y".to_string()),
        ]
    );
}

#[test]
fn strings() {
    assert_eq!(
        tokens("\"Hello world;\" \"\" \"é ü\"x"),
        vec![
            (TokenKind::STRING, "Hello world;".to_string()),
            (TokenKind::STRING, "".to_string()),
            (TokenKind::STRING, "é ü".to_string()),
            (TokenKind::IDENT, "x".to_string()),
        ]
    );
    assert_eq!(tokens("\"open"), vec![(TokenKind::STRING, "open".to_string())]);
    assert_eq!(tokens("\""), vec![(TokenKind::STRING, "".to_string())]);
}

#[test]
fn spaces_and_illegal_characters() {
    assert_eq!(kinds(" \t\r\n "), vec![]);
    assert_eq!(
        tokens("a\n\t@ é"),
        vec![
            (TokenKind::IDENT, "a".to_string()),
            (TokenKind::ILLEGAL, "@".to_string()),
            (TokenKind::ILLEGAL, "é".to_string()),
        ]
    );
}

#[test]
fn the_end_of_input_is_given_again_and_again() {
    let mut lexer = Lexer::new("x ");
    assert_eq!(lexer.next_token(), Token::new(TokenKind::IDENT, "x"));
    assert_eq!(lexer.next_token(), Token::new(TokenKind::EOF, ""));
    assert_eq!(lexer.next_token(), Token::new(TokenKind::EOF, ""));
    assert_eq!(lexer.next_token(), Token::new(TokenKind::EOF, ""));
}

#[test]
fn binding_strengths() {
    let order = vec![
        Precedence::LOWEST,
        Precedence::EQUALS,
        Precedence::LESSGREATER,
        Precedence::SUM,
        Precedence::PRODUCT,
        Precedence::PREFIX,
        Precedence::CALL,
    ];
    for i in 0..order.len() {
        assert_eq!(order[i].rank() as usize, i);
        for j in 0..order.len() {
            assert_eq!(order[i].weaker_than(&order[j]), i < j);
        }
    }
    assert_eq!(TokenKind::EQ.get_precedence(), Precedence::EQUALS);
    assert_eq!(TokenKind::NotEq.get_precedence(), Precedence::EQUALS);
    assert_eq!(TokenKind::LT.get_precedence(), Precedence::LESSGREATER);
    assert_eq!(TokenKind::GT.get_precedence(), Precedence::LESSGREATER);
    assert_eq!(TokenKind::PLUS.get_precedence(), Precedence::SUM);
    assert_eq!(TokenKind::MINUS.get_precedence(), Precedence::SUM);
    assert_eq!(TokenKind::ASTERISK.get_precedence(), Precedence::PRODUCT);
    assert_eq!(TokenKind::SLASH.get_precedence(), Precedence::PRODUCT);
    assert_eq!(TokenKind::LPAREN.get_precedence(), Precedence::CALL);
    assert_eq!(TokenKind::LBRACKET.get_precedence(), Precedence::CALL);
    assert_eq!(TokenKind::BANG.get_precedence(), Precedence::LOWEST);
    assert_eq!(TokenKind::SEMICOLON.get_precedence(), Precedence::LOWEST);
    assert_eq!(Token::new(TokenKind::PLUS, "+").get_precedence(), Precedence::SUM);
    assert_eq!(Token::new(TokenKind::IDENT, "x").get_precedence(), Precedence::LOWEST);
}

#[test]
fn token_clone_is_equal() {
    let token = Token::new(TokenKind::STRING, "text");
    assert_eq!(token.clone(), token);
}

#[test]
fn value_of_integer_literals() {
    assert_eq!(integer_value("0"), Some(0));
    assert_eq!(integer_value("42"), Some(42));
    assert_eq!(integer_value("007"), Some(7));
    assert_eq!(integer_value("2147483647"), Some(2147483647));
    assert_eq!(integer_value("2147483648"), None);
    assert_eq!(integer_value("00000000002147483647"), Some(2147483647));
    assert_eq!(integer_value("99999999999999999999999999"), None);
    assert_eq!(integer_value(""), None);
    assert_eq!(integer_value("12a"), None);
    assert_eq!(integer_value("-1"), None);
    assert_eq!(integer_value("١٢"), None);
}

#[test]
fn order_on_texts() {
    assert_eq!(compare_text("a", "b"), TextOrder::Before);
    assert_eq!(compare_text("b", "a"), TextOrder::After);
    assert_eq!(compare_text("abc", "abc"), TextOrder::Same);
    assert_eq!(compare_text("", ""), TextOrder::Same);
    assert_eq!(compare_text("", "a"), TextOrder::Before);
    assert_eq!(compare_text("a", ""), TextOrder::After);
    assert_eq!(compare_text("ab", "abc"), TextOrder::Before);
    assert_eq!(compare_text("abd", "abc"), TextOrder::After);
    assert_eq!(compare_text("B", "a"), TextOrder::Before);
    assert_eq!(compare_text("10", "9"), TextOrder::Before);
    assert_eq!(compare_text("z", "é"), TextOrder::Before);
    assert_eq!(compare_text("é", "z"), TextOrder::After);
}

#[test]
fn decimal_numerals() {
    assert_eq!(render_nat(0), "0");
    assert_eq!(render_nat(9), "9");
    assert_eq!(render_nat(10), "10");
    assert_eq!(render_nat(4294967295), "4294967295");
    assert_eq!(render_int(-1), "-1");
    assert_eq!(render_int(305), "305");
    for d in 0..10u32 {
        assert_eq!(digit_str(d), d.to_string());
    }
}

#[test]
fn characters_of_a_text() {
    assert_eq!(chars_of(""), Vec::<char>::new());
    assert_eq!(chars_of("aé\n"), vec!['a', 'é', '\n']);
}
