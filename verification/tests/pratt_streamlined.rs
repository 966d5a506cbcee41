use playground::pratt_streamlined::{expr, Lexer};

#[test]
fn pratt_streamlined_test_simple() {
    let s = expr("1");
    assert_eq!(s.to_string(), "1");

    let s = expr("1 + 2 * 3");
    assert_eq!(s.to_string(), "(+ 1 (* 2 3))");

    let s = expr("1 * 2 + 3");
    assert_eq!(s.to_string(), "(+ (* 1 2) 3)");

    let s = expr("a + b * c * d + e");
    assert_eq!(s.to_string(), "(+ (+ a (* (* b c) d)) e)");
}

#[test]
fn pratt_streamlined_test_right_associative() {
    let s = expr("f . g . h");
    assert_eq!(s.to_string(), "(. f (. g h))");

    let s = expr(" 1 + 2 + f . g . h * 3 * 4");
    assert_eq!(s.to_string(), "(+ (+ 1 2) (* (* (. f (. g h)) 3) 4))");
}

#[test]
fn pratt_streamlined_test_unary() {
    let s = expr("--1 * 2");
    assert_eq!(s.to_string(), "(* (- (- 1)) 2)");

    let s = expr("--f . g");
    assert_eq!(s.to_string(), "(- (- (. f g)))");

    let s = expr("-f * g");
    assert_eq!(s.to_string(), "(* (- f) g)")
}

#[test]
fn pratt_streamlined_test_postfix() {
    let s = expr("-9!");
    assert_eq!(s.to_string(), "(- (! 9))");

    let s = expr("f . g !");
    assert_eq!(s.to_string(), "(! (. f g))");
}

#[test]
fn pratt_streamlined_test_parenthesis() {
    let s = expr("(((0)))");
    assert_eq!(s.to_string(), "0");

    let s = expr("(1 + 2) * 3");
    assert_eq!(s.to_string(), "(* (+ 1 2) 3)");

    let s = expr("1 + (2 * 3)");
    assert_eq!(s.to_string(), "(+ 1 (* 2 3))");
}

#[test]
fn pratt_streamlined_test_assignment() {
    let s = expr("a + b = 0");
    assert_eq!(s.to_string(), "(= (+ a b) 0)");
}

#[test]
fn pratt_streamlined_lexer_drops_whitespace() {
    let mut lexer = Lexer::new(" x =\n1 ");
    assert_eq!(lexer.peek(), Some('x'));
    assert_eq!(lexer.next(), Some('x'));
    assert_eq!(lexer.next(), Some('='));
    assert_eq!(lexer.next(), Some('1'));
    assert_eq!(lexer.next(), None);
    assert_eq!(lexer.peek(), None);
}

#[test]
fn pratt_streamlined_stops_at_unknown_operator() {
    assert_eq!(expr("a * b ; c").to_string(), "(* a b)");
}

#[test]
fn pratt_streamlined_operands_keep_their_order() {
    let s = expr("a * (b - c) + d");
    assert_eq!(s.to_string(), "(+ (* a (- b c)) d)");
    let s = expr("x y");
    assert_eq!(s.to_string(), "(y x)");
}

#[test]
fn pratt_streamlined_paren_after_an_expression_drops_it() {
    let s = expr("a(b)");
    assert_eq!(s.to_string(), "b");
}
