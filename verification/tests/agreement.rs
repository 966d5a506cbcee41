use playground::{pratt, pratt_streamlined, shunting_yard};

#[test]
fn parsers_agree_on_two_operators() {
    let ops = ['=', '+', '-', '*', '/', '.'];
    for o1 in ops {
        for o2 in ops {
            let input = format!("a {} b {} c", o1, o2);
            let p = pratt::expr(&input).to_string();
            let s = pratt_streamlined::expr(&input).to_string();
            let y = shunting_yard::expr(&input).to_string();
            assert_eq!(p, s, "{}", input);
            if o1 == '=' && o2 == '=' {
                assert_eq!(p, "(= a (= b c))");
                assert_eq!(y, "(= (= a b) c)");
            } else {
                assert_eq!(p, y, "{}", input);
            }
        }
    }
}

#[test]
fn parsers_agree_on_precedence_examples() {
    assert_eq!(pratt::expr("x * y - z").to_string(), "(- (* x y) z)");
    assert_eq!(pratt_streamlined::expr("x * y - z").to_string(), "(- (* x y) z)");
    assert_eq!(shunting_yard::expr("x * y - z").to_string(), "(- (* x y) z)");
    assert_eq!(pratt::expr("x - y . z").to_string(), "(- x (. y z))");
    assert_eq!(shunting_yard::expr("x - y . z").to_string(), "(- x (. y z))");
}

#[test]
fn parentheses_around_a_whole_expression_change_nothing() {
    for input in ["a + b * c", "f . g . h", "x = y - z"] {
        let wrapped = format!("({})", input);
        assert_eq!(pratt::expr(&wrapped).to_string(), pratt::expr(input).to_string());
        assert_eq!(
            pratt_streamlined::expr(&wrapped).to_string(),
            pratt_streamlined::expr(input).to_string()
        );
        assert_eq!(
            shunting_yard::expr(&wrapped).to_string(),
            shunting_yard::expr(input).to_string()
        );
    }
}

#[test]
fn postfix_binds_tighter_than_prefix() {
    assert_eq!(pratt::expr("+x!").to_string(), "(+ (! x))");
    assert_eq!(pratt_streamlined::expr("+x!").to_string(), "(+ (! x))");
}
