use playground::pratt::{expr, Lexer, Token};

#[test]
fn pratt_test_simple() {
    let s = expr("1");
    assert_eq!(s.to_string(), "1");

    let s = expr("1 + 2 * 3");
    assert_eq!(s.to_string(), "(+ 1 (* 2 3))");

    let s = expr("1 * 2 + 3");
    assert_eq!(s.to_string(), "(+ (* 1 2) 3)");

    let s = expr("a + b * c * d + e");
    assert_eq!(s.to_string(), "(+ (+ a (* (* b c) d)) e)");
}

#[test]
fn pratt_test_right_associative() {
    let s = expr("f . g . h");
    assert_eq!(s.to_string(), "(. f (. g h))");

    let s = expr(" 1 + 2 + f . g . h * 3 * 4");
    assert_eq!(s.to_string(), "(+ (+ 1 2) (* (* (. f (. g h)) 3) 4))");
}

#[test]
fn pratt_test_unary() {
    let s = expr("--1 * 2");
    assert_eq!(s.to_string(), "(* (- (- 1)) 2)");

    let s = expr("--f . g");
    assert_eq!(s.to_string(), "(- (- (. f g)))");

    let s = expr("-f * g");
    assert_eq!(s.to_string(), "(* (- f) g)")
}

#[test]
fn pratt_test_postfix() {
    let s = expr("-9!");
    assert_eq!(s.to_string(), "(- (! 9))");

    let s = expr("f . g !");
    assert_eq!(s.to_string(), "(! (. f g))");
}

#[test]
fn pratt_test_parenthesis() {
    let s = expr("(((0)))");
    assert_eq!(s.to_string(), "0");

    let s = expr("(1 + 2) * 3");
    assert_eq!(s.to_string(), "(* (+ 1 2) 3)");

    let s = expr("1 + (2 * 3)");
    assert_eq!(s.to_string(), "(+ 1 (* 2 3))");
}

#[test]
fn test_subscript() {
    let s = expr("x[0][1]");
    assert_eq!(s.to_string(), "([ ([ x 0) 1)");
}

#[test]
fn test_ternary() {
    let s = expr(
        "a ? b :
         c ? d
         : e",
    );
    assert_eq!(s.to_string(), "(? a b (? c d e))");
}

#[test]
fn pratt_test_assignment() {
    let s = expr("a + b = 0");
    assert_eq!(s.to_string(), "(= (+ a b) 0)");

    let s = expr("a = 0 ? b : c = d");
    assert_eq!(s.to_string(), "(= a (= (? 0 b c) d))")
}

#[test]
fn pratt_lexer_hands_out_tokens_in_order() {
    let mut lexer = Lexer::new(" a\t+\n(1 ");
    assert_eq!(lexer.peek(), Token::Atom('a'));
    assert_eq!(lexer.next(), Token::Atom('a'));
    assert_eq!(lexer.next(), Token::Op('+'));
    assert_eq!(lexer.next(), Token::Op('('));
    assert_eq!(lexer.next(), Token::Atom('1'));
    assert_eq!(lexer.next(), Token::Eof);
    assert_eq!(lexer.peek(), Token::Eof);
}

#[test]
fn pratt_whitespace_does_not_matter() {
    assert_eq!(expr("a+b*c").to_string(), expr(" a +\tb\n* c ").to_string());
}

#[test]
fn pratt_stops_at_unmatched_close() {
    assert_eq!(expr("1 + 2 ) * 3").to_string(), "(+ 1 2)");
}

#[test]
fn pratt_prefix_plus_and_division() {
    assert_eq!(expr("+a / b - c").to_string(), "(- (/ (+ a) b) c)");
}
