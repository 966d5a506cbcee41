//! The three expression parsers print the same S-expressions: on two
//! binary operators between three atoms they agree, but for one case in
//! which the shunting-yard parser treats `=` as left-associative.
use vstd::prelude::*;
use crate::pratt;
use crate::pratt_streamlined;
use crate::shunting_yard;
use crate::text::ascii_alphanumeric;

verus! {

/// The printed form of `x o1 y o2 z` that the Pratt parsers give.
proof fn lemma_pratt_prints(x: char, o1: char, y: char, o2: char, z: char, left: bool)
    ensures
        pratt::render(pratt::two_operator_tree(x, o1, y, o2, z, left))
            == shunting_yard::two_operator_text(x, o1, y, o2, z, left),
        pratt_streamlined::render(pratt_streamlined::two_operator_tree(x, o1, y, o2, z, left))
            == shunting_yard::two_operator_text(x, o1, y, o2, z, left),
{
    let (ax, ay, az) = (pratt::SExpr::Atom(x), pratt::SExpr::Atom(y), pratt::SExpr::Atom(z));
    let (bx, by, bz) = (
        pratt_streamlined::atom(x),
        pratt_streamlined::atom(y),
        pratt_streamlined::atom(z),
    );
    assert(pratt::render_args(Seq::empty()) == Seq::<char>::empty());
    assert(pratt_streamlined::render_args(Seq::empty()) == Seq::<char>::empty());
    assert(pratt::render(ax) == seq![x]);
    assert(pratt::render(ay) == seq![y]);
    assert(pratt::render(az) == seq![z]);
    assert(pratt_streamlined::render(bx) == seq![x]);
    assert(pratt_streamlined::render(by) == seq![y]);
    assert(pratt_streamlined::render(bz) == seq![z]);
    if left {
        let a1 = seq![ax, ay];
        let a2 = seq![pratt::SExpr::Cons(o1, a1), az];
        assert(a1.drop_last() =~= seq![ax]);
        assert(seq![ax].drop_last() =~= Seq::<pratt::SExpr>::empty());
        assert(a2.drop_last() =~= seq![pratt::SExpr::Cons(o1, a1)]);
        assert(seq![pratt::SExpr::Cons(o1, a1)].drop_last() =~= Seq::<pratt::SExpr>::empty());
        assert(pratt::render_args(seq![ax]) =~= seq![' ', x]);
        assert(pratt::render_args(a1) =~= seq![' ', x, ' ', y]);
        assert(pratt::render(pratt::SExpr::Cons(o1, a1)) =~= seq!['(', o1, ' ', x, ' ', y, ')']);
        assert(pratt::render_args(seq![pratt::SExpr::Cons(o1, a1)]) =~= seq![
            ' ',
            '(',
            o1,
            ' ',
            x,
            ' ',
            y,
            ')',
        ]);
        assert(pratt::render_args(a2) =~= seq![' ', '(', o1, ' ', x, ' ', y, ')', ' ', z]);
        assert(pratt::render(pratt::SExpr::Cons(o2, a2))
            =~= shunting_yard::two_operator_text(x, o1, y, o2, z, left));

        let b1 = seq![bx, by];
        let b2 = seq![pratt_streamlined::SExpr::Cons(o1, b1), bz];
        assert(b1.drop_last() =~= seq![bx]);
        assert(seq![bx].drop_last() =~= Seq::<pratt_streamlined::SExpr>::empty());
        assert(b2.drop_last() =~= seq![pratt_streamlined::SExpr::Cons(o1, b1)]);
        assert(seq![pratt_streamlined::SExpr::Cons(o1, b1)].drop_last()
            =~= Seq::<pratt_streamlined::SExpr>::empty());
        assert(pratt_streamlined::render_args(seq![bx]) =~= seq![' ', x]);
        assert(pratt_streamlined::render_args(b1) =~= seq![' ', x, ' ', y]);
        assert(pratt_streamlined::render(pratt_streamlined::SExpr::Cons(o1, b1)) =~= seq![
            '(',
            o1,
            ' ',
            x,
            ' ',
            y,
            ')',
        ]);
        assert(pratt_streamlined::render_args(seq![pratt_streamlined::SExpr::Cons(o1, b1)])
            =~= seq![' ', '(', o1, ' ', x, ' ', y, ')']);
        assert(pratt_streamlined::render_args(b2) =~= seq![
            ' ',
            '(',
            o1,
            ' ',
            x,
            ' ',
            y,
            ')',
            ' ',
            z,
        ]);
        assert(pratt_streamlined::render(pratt_streamlined::SExpr::Cons(o2, b2))
            =~= shunting_yard::two_operator_text(x, o1, y, o2, z, left));
    } else {
        let a1 = seq![ay, az];
        let a2 = seq![ax, pratt::SExpr::Cons(o2, a1)];
        assert(a1.drop_last() =~= seq![ay]);
        assert(seq![ay].drop_last() =~= Seq::<pratt::SExpr>::empty());
        assert(a2.drop_last() =~= seq![ax]);
        assert(seq![ax].drop_last() =~= Seq::<pratt::SExpr>::empty());
        assert(pratt::render_args(seq![ay]) =~= seq![' ', y]);
        assert(pratt::render_args(seq![ax]) =~= seq![' ', x]);
        assert(pratt::render_args(a1) =~= seq![' ', y, ' ', z]);
        assert(pratt::render(pratt::SExpr::Cons(o2, a1)) =~= seq!['(', o2, ' ', y, ' ', z, ')']);
        assert(pratt::render_args(a2) =~= seq![' ', x, ' ', '(', o2, ' ', y, ' ', z, ')']);
        assert(pratt::render(pratt::SExpr::Cons(o1, a2))
            =~= shunting_yard::two_operator_text(x, o1, y, o2, z, left));

        let b1 = seq![by, bz];
        let b2 = seq![bx, pratt_streamlined::SExpr::Cons(o2, b1)];
        assert(b1.drop_last() =~= seq![by]);
        assert(seq![by].drop_last() =~= Seq::<pratt_streamlined::SExpr>::empty());
        assert(b2.drop_last() =~= seq![bx]);
        assert(seq![bx].drop_last() =~= Seq::<pratt_streamlined::SExpr>::empty());
        assert(pratt_streamlined::render_args(seq![by]) =~= seq![' ', y]);
        assert(pratt_streamlined::render_args(seq![bx]) =~= seq![' ', x]);
        assert(pratt_streamlined::render_args(b1) =~= seq![' ', y, ' ', z]);
        assert(pratt_streamlined::render(pratt_streamlined::SExpr::Cons(o2, b1)) =~= seq![
            '(',
            o2,
            ' ',
            y,
            ' ',
            z,
            ')',
        ]);
        assert(pratt_streamlined::render_args(b2) =~= seq![
            ' ',
            x,
            ' ',
            '(',
            o2,
            ' ',
            y,
            ' ',
            z,
            ')',
        ]);
        assert(pratt_streamlined::render(pratt_streamlined::SExpr::Cons(o1, b2))
            =~= shunting_yard::two_operator_text(x, o1, y, o2, z, left));
    }
}

/// The Pratt parser, the streamlined Pratt parser and the shunting-yard
/// parser print `x o1 y o2 z` alike, for atoms `x y z` and binary
/// operators `o1 o2` among `= + - * / .`; the one exception is `x = y = z`,
/// which the Pratt parsers group to the right and the shunting-yard parser
/// to the left.
pub proof fn lemma_parsers_agree_on_two_operators(x: char, o1: char, y: char, o2: char, z: char)
    requires
        ascii_alphanumeric(x),
        ascii_alphanumeric(y),
        ascii_alphanumeric(z),
        pratt::binary(o1),
        pratt::binary(o2),
    ensures
        pratt::expr_spec(seq![x, o1, y, o2, z]) is Some,
        pratt_streamlined::expr_spec(seq![x, o1, y, o2, z]) is Some,
        shunting_yard::lexable(seq![x, o1, y, o2, z]),
        shunting_yard::expr_spec(seq![x, o1, y, o2, z]) is Some,
        shunting_yard::printable(shunting_yard::expr_spec(seq![x, o1, y, o2, z])->0),
        pratt_streamlined::render(pratt_streamlined::expr_spec(seq![x, o1, y, o2, z])->0)
            == pratt::render(pratt::expr_spec(seq![x, o1, y, o2, z])->0),
        !(o1 == '=' && o2 == '=') ==> shunting_yard::evaluate(
            shunting_yard::expr_spec(seq![x, o1, y, o2, z])->0,
        )->0[0] == pratt::render(pratt::expr_spec(seq![x, o1, y, o2, z])->0),
        (o1 == '=' && o2 == '=') ==> pratt::render(pratt::expr_spec(seq![x, o1, y, o2, z])->0)
            == seq!['(', '=', ' ', x, ' ', '(', '=', ' ', y, ' ', z, ')', ')'] && shunting_yard::evaluate(
            shunting_yard::expr_spec(seq![x, o1, y, o2, z])->0,
        )->0[0] == seq!['(', '=', ' ', '(', '=', ' ', x, ' ', y, ')', ' ', z, ')'],
{
    pratt::lemma_two_operators(x, o1, y, o2, z);
    pratt_streamlined::lemma_two_operators(x, o1, y, o2, z);
    shunting_yard::lemma_two_operators(x, o1, y, o2, z);
    let lp = pratt::groups_left(o1, o2);
    let ls = pratt_streamlined::groups_left(o1, o2);
    let ly = shunting_yard::groups_left(o1, o2);
    assert(lp == ls);
    assert(!(o1 == '=' && o2 == '=') ==> lp == ly);
    assert((o1 == '=' && o2 == '=') ==> !lp && ly);
    lemma_pratt_prints(x, o1, y, o2, z, lp);
    lemma_pratt_prints(x, o1, y, o2, z, ly);
}

} // verus!
