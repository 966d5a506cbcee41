use playground::shunting_yard::{expr, Lexer, Token};

#[test]
fn shunting_yard_test_simple() {
    let s = expr("1");
    assert_eq!(s.to_string(), "1");

    let s = expr("1 + 2 * 3");
    assert_eq!(s.to_string(), "(+ 1 (* 2 3))");

    let s = expr("1 * 2 + 3");
    assert_eq!(s.to_string(), "(+ (* 1 2) 3)");

    let s = expr("a + b * c * d + e");
    assert_eq!(s.to_string(), "(+ (+ a (* (* b c) d)) e)");
}

#[test]
fn shunting_yard_test_right_associative() {
    let s = expr("f . g . h");
    assert_eq!(s.to_string(), "(. f (. g h))");

    let s = expr(" 1 + 2 + f . g . h * 3 * 4");
    assert_eq!(s.to_string(), "(+ (+ 1 2) (* (* (. f (. g h)) 3) 4))");
}

#[test]
fn shunting_yard_test_parenthesis() {
    let s = expr("(((0)))");
    assert_eq!(s.to_string(), "0");

    let s = expr("(1 + 2) * 3");
    assert_eq!(s.to_string(), "(* (+ 1 2) 3)");

    let s = expr("1 + (2 * 3)");
    assert_eq!(s.to_string(), "(+ 1 (* 2 3))");
}

#[test]
fn shunting_yard_test_assignment() {
    let s = expr("a + b = 0");
    assert_eq!(s.to_string(), "(= (+ a b) 0)");
}

#[test]
fn shunting_yard_lexer_classifies_characters() {
    let mut lexer = Lexer::new("( a ) .");
    assert!(lexer.next() == Some(Token::LeftParen));
    assert!(matches!(lexer.next(), Some(Token::Atom('a'))));
    assert!(lexer.next() == Some(Token::RightParen));
    match lexer.next() {
        Some(Token::Op(op)) => {
            assert_eq!(op.token, '.');
            assert_eq!(op.precedence, 7);
            assert!(!op.left_associative);
        }
        _ => panic!("expected an operator"),
    }
    assert!(lexer.next() == None);
}

#[test]
fn shunting_yard_assignment_binds_loosest() {
    assert_eq!(expr("a = b - c / d").to_string(), "(= a (- b (/ c d)))");
}
