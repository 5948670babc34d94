use calculator::shunting_yard::infix_to_postfix;
use calculator::stack::Stack;
use calculator::tokenizer::{tokenize, ParseError, Token};

fn num(s: &str) -> Token {
    Token::Number(String::from(s))
}

fn postfix(text: &str) -> Vec<Token> {
    let tokens = tokenize(text).expect("tokenizes");
    infix_to_postfix(&tokens).expect("converts")
}

#[test]
fn tokenize_mixed_expression() {
    let tokens = tokenize("3 + 4*(2 - 1)").unwrap();
    assert_eq!(
        tokens,
        vec![
            num("3"),
            Token::Plus,
            num("4"),
            Token::Multiply,
            Token::LParen,
            num("2"),
            Token::Minus,
            num("1"),
            Token::RParen,
        ]
    );
}

#[test]
fn tokenize_empty_and_blank() {
    assert_eq!(tokenize("").unwrap(), vec![]);
    assert_eq!(tokenize(" \t\n").unwrap(), vec![]);
}

#[test]
fn tokenize_unary_minus() {
    assert_eq!(tokenize("-5 + 3").unwrap(), vec![num("-5"), Token::Plus, num("3")]);
    assert_eq!(
        tokenize("3 - -5").unwrap(),
        vec![num("3"), Token::Minus, num("-5")]
    );
    assert_eq!(tokenize("3+-2").unwrap(), vec![num("3"), Token::Plus, num("-2")]);
    assert_eq!(tokenize("3-2").unwrap(), vec![num("3"), Token::Minus, num("2")]);
}

#[test]
fn tokenize_minus_after_closing_paren() {
    assert_eq!(
        tokenize("(1)-2").unwrap(),
        vec![Token::LParen, num("1"), Token::RParen, Token::Minus, num("2")]
    );
}

#[test]
fn tokenize_bare_decimal_points() {
    assert_eq!(tokenize(".5").unwrap(), vec![num(".5")]);
    assert_eq!(tokenize("5.").unwrap(), vec![num("5.")]);
    assert_eq!(tokenize("-.5").unwrap(), vec![num("-.5")]);
}

#[test]
fn tokenize_invalid_character() {
    match tokenize("3 + @") {
        Err(ParseError::InvalidCharacter(c)) => assert_eq!(c, '@'),
        other => panic!("unexpected {:?}", other),
    }
}

#[test]
fn tokenize_invalid_number() {
    match tokenize("1.2.3") {
        Err(ParseError::InvalidNumber(s)) => assert_eq!(s, "1.2.3"),
        other => panic!("unexpected {:?}", other),
    }
}

#[test]
fn tokenize_lone_dot_and_lone_minus() {
    match tokenize(".") {
        Err(ParseError::InvalidNumber(s)) => assert_eq!(s, "."),
        other => panic!("unexpected {:?}", other),
    }
    match tokenize("- 5") {
        Err(ParseError::InvalidNumber(s)) => assert_eq!(s, "-"),
        other => panic!("unexpected {:?}", other),
    }
}

#[test]
fn tokenize_non_ascii_whitespace_is_skipped() {
    assert_eq!(tokenize("1\u{a0}+\u{3000}2").unwrap(), vec![num("1"), Token::Plus, num("2")]);
}

#[test]
fn tokenize_is_stable() {
    let text = "(2 + 3) * -4 / 1.5";
    let first = tokenize(text).unwrap();
    let second = tokenize(text).unwrap();
    assert_eq!(first, second);
}

#[test]
fn tokenize_rendered_tokens_again() {
    let text = "(2+3)*-4/1.5-  7";
    let first = tokenize(text).unwrap();
    let rendered = "( 2 + 3 ) * -4 / 1.5 - 7 ";
    assert_eq!(tokenize(rendered).unwrap(), first);
}

#[test]
fn postfix_precedence() {
    assert_eq!(
        postfix("2 + 3 * 4"),
        vec![num("2"), num("3"), num("4"), Token::Multiply, Token::Plus]
    );
    assert_eq!(
        postfix("(2 + 3) * 4"),
        vec![num("2"), num("3"), Token::Plus, num("4"), Token::Multiply]
    );
}

#[test]
fn postfix_left_associative() {
    assert_eq!(
        postfix("8 - 3 - 2"),
        vec![num("8"), num("3"), Token::Minus, num("2"), Token::Minus]
    );
    assert_eq!(
        postfix("8 / 4 * 2"),
        vec![num("8"), num("4"), Token::Divide, num("2"), Token::Multiply]
    );
}

#[test]
fn postfix_unary_minus() {
    assert_eq!(postfix("-5 + 3"), vec![num("-5"), num("3"), Token::Plus]);
    assert_eq!(postfix("3 - -5"), vec![num("3"), num("-5"), Token::Minus]);
}

#[test]
fn postfix_nested_parentheses() {
    assert_eq!(
        postfix("2 * ((1 + 2) - 3)"),
        vec![
            num("2"),
            num("1"),
            num("2"),
            Token::Plus,
            num("3"),
            Token::Minus,
            Token::Multiply,
        ]
    );
}

#[test]
fn postfix_empty() {
    assert_eq!(postfix(""), vec![]);
}

#[test]
fn postfix_unclosed_parenthesis() {
    let tokens = tokenize("(1 + 2").unwrap();
    assert_eq!(infix_to_postfix(&tokens), Err("Mismatched parentheses"));
}

#[test]
fn postfix_unopened_parenthesis() {
    let tokens = tokenize("1 + 2)").unwrap();
    assert_eq!(infix_to_postfix(&tokens), Err("Mismatched parentheses"));
    let tokens = tokenize(")(").unwrap();
    assert_eq!(infix_to_postfix(&tokens), Err("Mismatched parentheses"));
}

#[test]
fn stack_is_last_in_first_out() {
    let mut s: Stack<u32> = Stack::new();
    assert_eq!(s.peek(), None);
    assert_eq!(s.pop(), None);
    s.push(1);
    s.push(2);
    assert_eq!(s.peek(), Some(&2));
    assert_eq!(s.pop(), Some(2));
    assert_eq!(s.peek(), Some(&1));
    assert_eq!(s.pop(), Some(1));
    assert_eq!(s.pop(), None);
}

#[test]
fn token_duplicate_is_equal() {
    let t = num("12.5");
    assert_eq!(t.duplicate(), t);
    assert_ne!(num("1"), num("1.0"));
    assert_ne!(Token::Plus, Token::Minus);
}

#[test]
fn postfix_of_mixed_tree() {
    assert_eq!(
        postfix("(1 + 2) * 3 - 4 / 2"),
        vec![
            num("1"),
            num("2"),
            Token::Plus,
            num("3"),
            Token::Multiply,
            num("4"),
            num("2"),
            Token::Divide,
            Token::Minus,
        ]
    );
}

#[test]
fn postfix_keeps_malformed_operand_order() {
    assert_eq!(postfix("3 4 +"), vec![num("3"), num("4"), Token::Plus]);
}
