//! A Pratt (top-down operator precedence) parser that turns an infix
//! expression such as `1 + 2 * 3` into the S-expression `(+ 1 (* 2 3))`.
//!
//! Supported: prefix `+` `-`, postfix `!` and subscript `[ ]`, infix
//! `=` `?:` `+` `-` `*` `/` `.`, and parentheses.
use vstd::prelude::*;
use crate::text::{
    ascii_alphanumeric, ascii_whitespace, is_ascii_alphanumeric, is_ascii_whitespace,
    lemma_no_whitespace, lemma_without_whitespace_step, push_char, without_whitespace,
};

verus! {

#[derive(Debug, Clone, Copy, PartialEq, Eq, Structural)]
pub enum Token {
    Atom(char),
    Op(char),
    Eof,
}

/// The lexer holds all tokens of the input; it hands them out front first.
pub struct Lexer {
    tokens: Vec<Token>,
}

/// An S-expression: an atom, or an operator applied to its operands.
pub enum S {
    Atom(char),
    Cons(char, Vec<S>),
}

/// The mathematical form of an S-expression.
pub enum SExpr {
    Atom(char),
    Cons(char, Seq<SExpr>),
}

/// The token of one non-whitespace character: letters and digits are
/// atoms, everything else is an operator.
pub open spec fn classify(c: char) -> Token {
    if ascii_alphanumeric(c) {
        Token::Atom(c)
    } else {
        Token::Op(c)
    }
}

/// The tokens of `input`: one per non-whitespace character, in order.
pub open spec fn lex(input: Seq<char>) -> Seq<Token> {
    without_whitespace(input).map_values(|c: char| classify(c))
}

/// The next token (`Eof` when there is none).
pub open spec fn front(toks: Seq<Token>) -> Token {
    if toks.len() > 0 {
        toks[0]
    } else {
        Token::Eof
    }
}

/// The tokens after the next one.
pub open spec fn pop_front(toks: Seq<Token>) -> Seq<Token> {
    if toks.len() > 0 {
        toks.drop_first()
    } else {
        toks
    }
}

/// Left and right binding power of the infix operators: `=` and `?` and
/// `.` associate to the right, `+ - * /` to the left.
pub open spec fn infix_bp(op: char) -> Option<(u8, u8)> {
    if op == '=' {
        Some((2, 1))
    } else if op == '?' {
        Some((4, 3))
    } else if op == '+' || op == '-' {
        Some((5, 6))
    } else if op == '*' || op == '/' {
        Some((7, 8))
    } else if op == '.' {
        Some((14, 13))
    } else {
        None
    }
}

/// Left binding power of the postfix operators `!` and `[`.
pub open spec fn postfix_bp(op: char) -> Option<u8> {
    if op == '!' || op == '[' {
        Some(11)
    } else {
        None
    }
}

/// Right binding power of the prefix operators `+` and `-`.
pub const PREFIX_BP: u8 = 9;

/// Parses one expression from the front of `toks` whose operators bind at
/// least as tightly as `bp`; gives the expression and the tokens left
/// over, or `None` where the input is malformed.
pub open spec fn parse_bp(toks: Seq<Token>, bp: u8) -> Option<(SExpr, Seq<Token>)>
    decreases toks.len(), 0int,
{
    if toks.len() == 0 {
        None
    } else {
        let rest = toks.drop_first();
        match toks[0] {
            Token::Atom(a) => parse_operators(SExpr::Atom(a), rest, bp),
            Token::Op(op) => {
                if op == '(' {
                    match parse_bp(rest, 0) {
                        Some((inner, r2)) => {
                            if r2.len() < toks.len() && front(r2) == Token::Op(')') {
                                parse_operators(inner, pop_front(r2), bp)
                            } else {
                                None
                            }
                        },
                        None => None,
                    }
                } else if op == '+' || op == '-' {
                    match parse_bp(rest, PREFIX_BP) {
                        Some((rhs, r2)) => {
                            if r2.len() < toks.len() {
                                parse_operators(SExpr::Cons(op, seq![rhs]), r2, bp)
                            } else {
                                None
                            }
                        },
                        None => None,
                    }
                } else {
                    None
                }
            },
            Token::Eof => None,
        }
    }
}

/// Having parsed `lhs`, applies the postfix and infix operators at the
/// front of `toks` whose left binding power is at least `bp`.
pub open spec fn parse_operators(lhs: SExpr, toks: Seq<Token>, bp: u8) -> Option<
    (SExpr, Seq<Token>),
>
    decreases toks.len(), 1int,
{
    match front(toks) {
        Token::Eof => Some((lhs, toks)),
        Token::Atom(_) => None,
        Token::Op(op) => {
            let rest = toks.drop_first();
            if postfix_bp(op) is Some {
                if postfix_bp(op)->0 < bp {
                    Some((lhs, toks))
                } else if op == '[' {
                    match parse_bp(rest, 0) {
                        Some((rhs, r2)) => {
                            if r2.len() < toks.len() && front(r2) == Token::Op(']') {
                                parse_operators(SExpr::Cons(op, seq![lhs, rhs]), pop_front(r2), bp)
                            } else {
                                None
                            }
                        },
                        None => None,
                    }
                } else {
                    parse_operators(SExpr::Cons(op, seq![lhs]), rest, bp)
                }
            } else if infix_bp(op) is Some {
                let (l_bp, r_bp) = infix_bp(op)->0;
                if l_bp < bp {
                    Some((lhs, toks))
                } else if op == '?' {
                    match parse_bp(rest, 0) {
                        Some((mhs, r2)) => {
                            if r2.len() < toks.len() && front(r2) == Token::Op(':') {
                                match parse_bp(pop_front(r2), r_bp) {
                                    Some((rhs, r3)) => {
                                        if r3.len() < toks.len() {
                                            parse_operators(
                                                SExpr::Cons(op, seq![lhs, mhs, rhs]),
                                                r3,
                                                bp,
                                            )
                                        } else {
                                            None
                                        }
                                    },
                                    None => None,
                                }
                            } else {
                                None
                            }
                        },
                        None => None,
                    }
                } else {
                    match parse_bp(rest, r_bp) {
                        Some((rhs, r2)) => {
                            if r2.len() < toks.len() {
                                parse_operators(SExpr::Cons(op, seq![lhs, rhs]), r2, bp)
                            } else {
                                None
                            }
                        },
                        None => None,
                    }
                }
            } else {
                Some((lhs, toks))
            }
        },
    }
}

/// The expression that `input` parses to, or `None` where it is malformed.
/// Tokens after a complete expression (such as an unmatched `)`) are left
/// unread.
pub open spec fn expr_spec(input: Seq<char>) -> Option<SExpr> {
    match parse_bp(lex(input), 0) {
        Some((e, _)) => Some(e),
        None => None,
    }
}

/// The printed form: an atom is its character, a compound is
/// `(op arg1 arg2 ...)`.
pub open spec fn render(e: SExpr) -> Seq<char>
    decreases e,
{
    match e {
        SExpr::Atom(a) => seq![a],
        SExpr::Cons(head, args) => seq!['(', head] + render_args(args) + seq![')'],
    }
}

/// Each operand preceded by a space.
pub open spec fn render_args(args: Seq<SExpr>) -> Seq<char>
    decreases args,
{
    if args.len() == 0 {
        seq![]
    } else {
        render_args(args.drop_last()) + seq![' '] + render(args.last())
    }
}

pub open spec fn s_view(s: S) -> SExpr
    decreases s,
{
    match s {
        S::Atom(a) => SExpr::Atom(a),
        S::Cons(head, args) => SExpr::Cons(head, s_view_list(args@)),
    }
}

pub open spec fn s_view_list(args: Seq<S>) -> Seq<SExpr>
    decreases args,
{
    if args.len() == 0 {
        seq![]
    } else {
        s_view_list(args.drop_last()).push(s_view(args.last()))
    }
}

impl View for S {
    type V = SExpr;

    open spec fn view(&self) -> SExpr {
        s_view(*self)
    }
}

impl View for Lexer {
    type V = Seq<Token>;

    /// The tokens not handed out yet, next one first.
    closed spec fn view(&self) -> Seq<Token> {
        Seq::new(self.tokens@.len(), |i: int| self.tokens@[self.tokens@.len() - 1 - i])
    }
}

pub proof fn lemma_s_view_list(args: Seq<S>)
    ensures
        s_view_list(args).len() == args.len(),
        forall|i: int| 0 <= i < args.len() ==> s_view_list(args)[i] == s_view(#[trigger] args[i]),
    decreases args.len(),
{
    if args.len() > 0 {
        lemma_s_view_list(args.drop_last());
        assert forall|i: int| 0 <= i < args.len() implies s_view_list(args)[i] == s_view(
            #[trigger] args[i],
        ) by {
            if i < args.len() - 1 {
                assert(args.drop_last()[i] == args[i]);
            }
        }
    }
}

proof fn lemma_s_view_one(a: S)
    ensures
        s_view_list(seq![a]) == seq![s_view(a)],
{
    lemma_s_view_list(seq![a]);
    assert(s_view_list(seq![a]) =~= seq![s_view(a)]);
}

proof fn lemma_s_view_two(a: S, b: S)
    ensures
        s_view_list(seq![a, b]) == seq![s_view(a), s_view(b)],
{
    lemma_s_view_list(seq![a, b]);
    assert(s_view_list(seq![a, b]) =~= seq![s_view(a), s_view(b)]);
}

proof fn lemma_s_view_three(a: S, b: S, c: S)
    ensures
        s_view_list(seq![a, b, c]) == seq![s_view(a), s_view(b), s_view(c)],
{
    lemma_s_view_list(seq![a, b, c]);
    assert(s_view_list(seq![a, b, c]) =~= seq![s_view(a), s_view(b), s_view(c)]);
}

impl Lexer {
    /// Splits `input` into tokens, skipping ASCII whitespace.
    pub fn new(input: &str) -> (lexer: Self)
        ensures
            lexer@ == lex(input@),
    {
        let mut fwd: Vec<Token> = Vec::new();
        let ghost chars = input@;
        for c in it: input.chars()
            invariant
                it.seq() == chars,
                fwd@ == without_whitespace(chars.take(it.index() as int)).map_values(
                    |c: char| classify(c),
                ),
        {
            proof {
                lemma_without_whitespace_step(chars, it.index() as int);
            }
            let ghost prev = fwd@;
            if !is_ascii_whitespace(c) {
                let t = if is_ascii_alphanumeric(c) {
                    Token::Atom(c)
                } else {
                    Token::Op(c)
                };
                fwd.push(t);
            }
            proof {
                let ghost w = without_whitespace(chars.take(it.index() as int));
                if !ascii_whitespace(c) {
                    assert(w.push(c).map_values(|c: char| classify(c)) =~= prev.push(classify(c)));
                }
            }
        }
        assert(chars.take(chars.len() as int) =~= chars);

        // hand the tokens out from the back of the vector
        let ghost all = fwd@;
        let mut tokens: Vec<Token> = Vec::new();
        while fwd.len() > 0
            invariant
                fwd@ == all.take(fwd@.len() as int),
                fwd@.len() + tokens@.len() == all.len(),
                forall|i: int|
                    0 <= i < tokens@.len() ==> #[trigger] tokens@[i] == all[all.len() - 1 - i],
            decreases fwd@.len(),
        {
            let t = fwd.pop().unwrap();
            tokens.push(t);
            assert(fwd@ =~= all.take(fwd@.len() as int));
        }
        let lexer = Lexer { tokens };
        assert(lexer@ =~= all);
        lexer
    }

    /// Hands out the next token, or `Eof` when there is none.
    pub fn next(&mut self) -> (t: Token)
        ensures
            t == front(old(self)@),
            final(self)@ == pop_front(old(self)@),
    {
        let ghost before = self@;
        let r = self.tokens.pop().unwrap_or(Token::Eof);
        assert(before.len() > 0 ==> self@ =~= before.drop_first());
        r
    }

    /// The next token, or `Eof` when there is none; hands out nothing.
    pub fn peek(&mut self) -> (t: Token)
        ensures
            t == front(old(self)@),
            final(self)@ == old(self)@,
    {
        let n = self.tokens.len();
        if n == 0 {
            Token::Eof
        } else {
            self.tokens[n - 1]
        }
    }
}

impl S {
    /// The printed form of the expression, e.g. `(+ 1 (* 2 3))`.
    pub fn to_string(&self) -> (r: String)
        ensures
            r@ == render(self@),
    {
        let mut out = String::new();
        self.write_to(&mut out);
        out
    }

    fn write_to(&self, out: &mut String)
        ensures
            final(out)@ == old(out)@ + render(self@),
        decreases self,
    {
        match self {
            S::Atom(a) => {
                push_char(out, *a);
                assert(out@ =~= old(out)@ + render(self@));
            },
            S::Cons(head, args) => {
                proof {
                    lemma_s_view_list(args@);
                }
                let ghost start = out@;
                push_char(out, '(');
                push_char(out, *head);
                let mut i: usize = 0;
                while i < args.len()
                    invariant
                        *self == S::Cons(*head, *args),
                        0 <= i <= args@.len(),
                        out@ == start + seq!['(', *head] + render_args(
                            s_view_list(args@).take(i as int),
                        ),
                        s_view_list(args@).len() == args@.len(),
                        forall|j: int|
                            0 <= j < args@.len() ==> s_view_list(args@)[j] == s_view(
                                #[trigger] args@[j],
                            ),
                    decreases args@.len() - i,
                {
                    let ghost before = out@;
                    push_char(out, ' ');
                    assert(decreases_to!(*self => (*self)->Cons_1));
                    assert(decreases_to!((*self)->Cons_1 => (*self)->Cons_1@));
                    assert(decreases_to!((*self)->Cons_1@ => args@[i as int]));
                    args[i].write_to(out);
                    let ghost v = s_view_list(args@);
                    assert(v.take(i + 1).drop_last() =~= v.take(i as int));
                    assert(out@ =~= before + seq![' '] + render(v[i as int]));
                    i = i + 1;
                }
                let ghost v = s_view_list(args@);
                assert(v.take(args@.len() as int) =~= v);
                push_char(out, ')');
                assert(out@ =~= old(out)@ + render(self@));
            },
        }
    }
}

/// Parses `input` into an S-expression.
pub fn expr(input: &str) -> (s: S)
    requires
        expr_spec(input@) is Some,
    ensures
        expr_spec(input@) == Some(s@),
{
    let mut lexer = Lexer::new(input);
    expr_bp(&mut lexer, 0)
}

/// Parses an expression whose operators bind at least as tightly as `bp`
/// from the front of the lexer's tokens.
pub fn expr_bp(lexer: &mut Lexer, bp: u8) -> (s: S)
    requires
        parse_bp(old(lexer)@, bp) is Some,
    ensures
        parse_bp(old(lexer)@, bp) == Some((s@, final(lexer)@)),
        final(lexer)@.len() < old(lexer)@.len(),
    decreases old(lexer)@.len(),
{
    let ghost toks = lexer@;
    let mut lhs = match lexer.next() {
        Token::Atom(a) => S::Atom(a),
        Token::Op(op) => {
            if op == '(' {
                let inner = expr_bp(lexer, 0);
                let _close = lexer.next();
                inner
            } else {
                let ((), r_bp) = prefix_binding_power(op);
                let rhs = expr_bp(lexer, r_bp);
                let mut args: Vec<S> = Vec::new();
                args.push(rhs);
                proof {
                    assert(args@ =~= seq![rhs]);
                    lemma_s_view_one(rhs);
                }
                S::Cons(op, args)
            }
        },
        Token::Eof => {
            proof {
                assert(false);
            }
            S::Atom('?')
        },
    };

    loop
        invariant
            toks == old(lexer)@,
            parse_bp(toks, bp) is Some,
            parse_operators(lhs@, lexer@, bp) == parse_bp(toks, bp),
            lexer@.len() < toks.len(),
        decreases lexer@.len(),
    {
        let op = match lexer.peek() {
            Token::Eof => {
                return lhs;
            },
            Token::Op(op) => op,
            Token::Atom(_) => {
                proof {
                    assert(false);
                }
                return lhs;
            },
        };

        if let Some((l_bp, ())) = postfix_binding_power(op) {
            // this operator has less binding power to the left of
            // the current expressions, we can fold the left expression now
            if l_bp < bp {
                return lhs;
            }
            lexer.next();

            lhs = if op == '[' {
                let rhs = expr_bp(lexer, 0);
                let _close = lexer.next();
                let mut args: Vec<S> = Vec::new();
                args.push(lhs);
                args.push(rhs);
                proof {
                    assert(args@ =~= seq![lhs, rhs]);
                    lemma_s_view_two(lhs, rhs);
                }
                S::Cons(op, args)
            } else {
                let mut args: Vec<S> = Vec::new();
                args.push(lhs);
                proof {
                    assert(args@ =~= seq![lhs]);
                    lemma_s_view_one(lhs);
                }
                S::Cons(op, args)
            };
            continue;
        }

        if let Some((l_bp, r_bp)) = infix_binding_power(op) {
            // this operator has less binding power to the left of
            // the current expressions, we can fold the left expression now
            if l_bp < bp {
                return lhs;
            }
            lexer.next();

            lhs = if op == '?' {
                let mhs = expr_bp(lexer, 0);
                let _colon = lexer.next();
                let rhs = expr_bp(lexer, r_bp);
                let mut args: Vec<S> = Vec::new();
                args.push(lhs);
                args.push(mhs);
                args.push(rhs);
                proof {
                    assert(args@ =~= seq![lhs, mhs, rhs]);
                    lemma_s_view_three(lhs, mhs, rhs);
                }
                S::Cons(op, args)
            } else {
                let rhs = expr_bp(lexer, r_bp);
                let mut args: Vec<S> = Vec::new();
                args.push(lhs);
                args.push(rhs);
                proof {
                    assert(args@ =~= seq![lhs, rhs]);
                    lemma_s_view_two(lhs, rhs);
                }
                S::Cons(op, args)
            };
            continue;
        }

        // an operator that neither follows nor joins expressions: ) ] :
        return lhs;
    }
}

/// Binding power of the prefix operators `+` and `-`; any other prefix
/// operator is an error.
fn prefix_binding_power(op: char) -> (r: ((), u8))
    requires
        op == '+' || op == '-',
    ensures
        r.1 == PREFIX_BP,
{
    ((), 9)
}

// The general rule is that we use an odd priority as base,
// and bump it by one for associativity, if the operator is binary.
fn infix_binding_power(op: char) -> (r: Option<(u8, u8)>)
    ensures
        r == infix_bp(op),
{
    if op == '=' {
        Some((2, 1))
    } else if op == '?' {
        Some((4, 3))
    } else if op == '+' || op == '-' {
        Some((5, 6))
    } else if op == '*' || op == '/' {
        Some((7, 8))
    } else if op == '.' {
        Some((14, 13))
    } else {
        None
    }
}

// Two postfix operators may share a priority: only a right binding power
// is ever compared with a left one.
fn postfix_binding_power(op: char) -> (r: Option<(u8, ())>)
    ensures
        match r {
            Some((l, _)) => postfix_bp(op) == Some(l),
            None => postfix_bp(op) is None,
        },
{
    if op == '!' || op == '[' {
        Some((11, ()))
    } else {
        None
    }
}

/// Whitespace does not matter: inputs that differ only in ASCII
/// whitespace parse alike.
pub proof fn lemma_whitespace_insensitive(a: Seq<char>, b: Seq<char>)
    requires
        without_whitespace(a) == without_whitespace(b),
    ensures
        lex(a) == lex(b),
        expr_spec(a) == expr_spec(b),
{
}

/// An infix operator with two operands (every infix operator but `?`).
pub open spec fn binary(op: char) -> bool {
    infix_bp(op) is Some && op != '?'
}

/// `x o1 y o2 z` groups as `(x o1 y) o2 z` exactly when `o2` binds less
/// tightly to its left than `o1` does to its right.
pub open spec fn groups_left(o1: char, o2: char) -> bool {
    (infix_bp(o2)->0).0 < (infix_bp(o1)->0).1
}

/// The tree of `x o1 y o2 z`, grouped to the left or to the right.
pub open spec fn two_operator_tree(x: char, o1: char, y: char, o2: char, z: char, left: bool) -> SExpr {
    if left {
        SExpr::Cons(o2, seq![SExpr::Cons(o1, seq![SExpr::Atom(x), SExpr::Atom(y)]), SExpr::Atom(z)])
    } else {
        SExpr::Cons(o1, seq![SExpr::Atom(x), SExpr::Cons(o2, seq![SExpr::Atom(y), SExpr::Atom(z)])])
    }
}

/// Precedence and associativity: of two binary operators between three
/// atoms, the one that binds more tightly takes the middle atom; between
/// equal operators, `+ - * /` group to the left and `= .` to the right.
pub proof fn lemma_two_operators(x: char, o1: char, y: char, o2: char, z: char)
    requires
        ascii_alphanumeric(x),
        ascii_alphanumeric(y),
        ascii_alphanumeric(z),
        binary(o1),
        binary(o2),
    ensures
        expr_spec(seq![x, o1, y, o2, z]) == Some(
            two_operator_tree(x, o1, y, o2, z, groups_left(o1, o2)),
        ),
{
    let s = seq![x, o1, y, o2, z];
    assert forall|i: int| 0 <= i < s.len() implies !ascii_whitespace(#[trigger] s[i]) by {}
    lemma_no_whitespace(s);
    let toks = lex(s);
    assert(toks =~= seq![Token::Atom(x), Token::Op(o1), Token::Atom(y), Token::Op(o2), Token::Atom(z)]);
    let t1 = toks.drop_first();
    let t2 = t1.drop_first();
    let t3 = t2.drop_first();
    let t4 = t3.drop_first();
    let t5 = t4.drop_first();
    assert(t1 =~= seq![Token::Op(o1), Token::Atom(y), Token::Op(o2), Token::Atom(z)]);
    assert(t2 =~= seq![Token::Atom(y), Token::Op(o2), Token::Atom(z)]);
    assert(t3 =~= seq![Token::Op(o2), Token::Atom(z)]);
    assert(t4 =~= seq![Token::Atom(z)]);
    assert(t5 =~= Seq::<Token>::empty());
    let (l1, r1) = infix_bp(o1)->0;
    let (l2, r2) = infix_bp(o2)->0;
    let ex = SExpr::Atom(x);
    let ey = SExpr::Atom(y);
    let ez = SExpr::Atom(z);
    assert(parse_operators(ez, t5, r2) == Some((ez, t5)));
    assert(parse_bp(t4, r2) == Some((ez, t5)));
    if l2 < r1 {
        assert(parse_operators(ey, t3, r1) == Some((ey, t3)));
        assert(parse_bp(t2, r1) == Some((ey, t3)));
        let left = SExpr::Cons(o1, seq![ex, ey]);
        let whole = SExpr::Cons(o2, seq![left, ez]);
        assert(parse_operators(whole, t5, 0) == Some((whole, t5)));
        assert(parse_operators(left, t3, 0) == Some((whole, t5)));
        assert(parse_operators(ex, t1, 0) == Some((whole, t5)));
        assert(parse_bp(toks, 0) == Some((whole, t5)));
    } else {
        let right = SExpr::Cons(o2, seq![ey, ez]);
        assert(parse_operators(right, t5, r1) == Some((right, t5)));
        assert(parse_operators(ey, t3, r1) == Some((right, t5)));
        assert(parse_bp(t2, r1) == Some((right, t5)));
        let whole = SExpr::Cons(o1, seq![ex, right]);
        assert(parse_operators(whole, t5, 0) == Some((whole, t5)));
        assert(parse_operators(ex, t1, 0) == Some((whole, t5)));
        assert(parse_bp(toks, 0) == Some((whole, t5)));
    }
}

/// How tightly a binary operator binds, loosest first: `=`, then `+ -`,
/// then `* /`, then `.`.
pub open spec fn precedence_level(op: char) -> int {
    if op == '=' {
        1
    } else if op == '+' || op == '-' {
        2
    } else if op == '*' || op == '/' {
        3
    } else {
        4
    }
}

/// The grammar's precedence and associativity: in `x o1 y o2 z` the
/// middle atom goes to the operator of the higher level; between
/// operators of one level, `=` and `.` group to the right and `+ - * /`
/// to the left.
pub proof fn lemma_precedence_levels(x: char, o1: char, y: char, o2: char, z: char)
    requires
        ascii_alphanumeric(x),
        ascii_alphanumeric(y),
        ascii_alphanumeric(z),
        o1 == '=' || o1 == '+' || o1 == '-' || o1 == '*' || o1 == '/' || o1 == '.',
        o2 == '=' || o2 == '+' || o2 == '-' || o2 == '*' || o2 == '/' || o2 == '.',
    ensures
        expr_spec(seq![x, o1, y, o2, z]) == Some(
            two_operator_tree(
                x,
                o1,
                y,
                o2,
                z,
                precedence_level(o1) > precedence_level(o2) || (precedence_level(o1)
                    == precedence_level(o2) && o1 != '=' && o1 != '.'),
            ),
        ),
{
    lemma_two_operators(x, o1, y, o2, z);
}

/// The ternary `?:` binds more loosely than every arithmetic operator:
/// in `x o y ? z : w` the whole of `x o y` is the condition.
pub proof fn lemma_ternary_takes_whole_condition(
    x: char,
    o: char,
    y: char,
    z: char,
    w: char,
)
    requires
        ascii_alphanumeric(x),
        ascii_alphanumeric(y),
        ascii_alphanumeric(z),
        ascii_alphanumeric(w),
        o == '+' || o == '-' || o == '*' || o == '/' || o == '.',
    ensures
        expr_spec(seq![x, o, y, '?', z, ':', w]) == Some(
            SExpr::Cons(
                '?',
                seq![
                    SExpr::Cons(o, seq![SExpr::Atom(x), SExpr::Atom(y)]),
                    SExpr::Atom(z),
                    SExpr::Atom(w),
                ],
            ),
        ),
{
    let s = seq![x, o, y, '?', z, ':', w];
    assert forall|i: int| 0 <= i < s.len() implies !ascii_whitespace(#[trigger] s[i]) by {}
    lemma_no_whitespace(s);
    let toks = lex(s);
    assert(toks =~= seq![
        Token::Atom(x),
        Token::Op(o),
        Token::Atom(y),
        Token::Op('?'),
        Token::Atom(z),
        Token::Op(':'),
        Token::Atom(w),
    ]);
    let t1 = toks.drop_first();
    let t2 = t1.drop_first();
    let t3 = t2.drop_first();
    let t4 = t3.drop_first();
    let t5 = t4.drop_first();
    let t6 = t5.drop_first();
    let t7 = t6.drop_first();
    assert(t1 =~= seq![Token::Op(o), Token::Atom(y), Token::Op('?'), Token::Atom(z), Token::Op(':'), Token::Atom(w)]);
    assert(t2 =~= seq![Token::Atom(y), Token::Op('?'), Token::Atom(z), Token::Op(':'), Token::Atom(w)]);
    assert(t3 =~= seq![Token::Op('?'), Token::Atom(z), Token::Op(':'), Token::Atom(w)]);
    assert(t4 =~= seq![Token::Atom(z), Token::Op(':'), Token::Atom(w)]);
    assert(t5 =~= seq![Token::Op(':'), Token::Atom(w)]);
    assert(t6 =~= seq![Token::Atom(w)]);
    assert(t7 =~= Seq::<Token>::empty());
    let (l1, r1) = infix_bp(o)->0;
    let ex = SExpr::Atom(x);
    let ey = SExpr::Atom(y);
    let ez = SExpr::Atom(z);
    let ew = SExpr::Atom(w);
    assert(parse_operators(ey, t3, r1) == Some((ey, t3)));
    assert(parse_bp(t2, r1) == Some((ey, t3)));
    let cond = SExpr::Cons(o, seq![ex, ey]);
    assert(parse_operators(ez, t5, 0) == Some((ez, t5)));
    assert(parse_bp(t4, 0) == Some((ez, t5)));
    assert(pop_front(t5) == t6);
    assert(parse_operators(ew, t7, 3) == Some((ew, t7)));
    assert(parse_bp(t6, 3) == Some((ew, t7)));
    let whole = SExpr::Cons('?', seq![cond, ez, ew]);
    assert(parse_operators(whole, t7, 0) == Some((whole, t7)));
    assert(parse_operators(cond, t3, 0) == Some((whole, t7)));
    assert(parse_operators(ex, t1, 0) == Some((whole, t7)));
    assert(parse_bp(toks, 0) == Some((whole, t7)));
}

/// A token at which an expression ends when it follows one: an operator
/// that is neither postfix nor infix, such as `)`.
pub open spec fn ends_expression(t: Token) -> bool {
    &&& t is Op
    &&& postfix_bp(t->Op_0) is None
    &&& infix_bp(t->Op_0) is None
}

/// What a parse leaves over grows by `suffix` when `suffix` is appended
/// to its input and starts with a token that ends an expression.
proof fn lemma_parse_bp_suffix(toks: Seq<Token>, bp: u8, suffix: Seq<Token>)
    requires
        parse_bp(toks, bp) is Some,
        suffix.len() > 0,
        ends_expression(suffix[0]),
    ensures
        parse_bp(toks + suffix, bp) == Some(
            ((parse_bp(toks, bp)->0).0, (parse_bp(toks, bp)->0).1 + suffix),
        ),
    decreases toks.len(), 0int,
{
    let all = toks + suffix;
    let rest = toks.drop_first();
    assert(all[0] == toks[0]);
    assert(all.drop_first() =~= rest + suffix);
    match toks[0] {
        Token::Atom(a) => {
            lemma_parse_operators_suffix(SExpr::Atom(a), rest, bp, suffix);
        },
        Token::Op(op) => {
            if op == '(' {
                let (inner, r2) = parse_bp(rest, 0)->0;
                lemma_parse_bp_suffix(rest, 0, suffix);
                assert((r2 + suffix)[0] == r2[0]);
                assert(pop_front(r2 + suffix) =~= pop_front(r2) + suffix);
                lemma_parse_operators_suffix(inner, pop_front(r2), bp, suffix);
            } else {
                let (rhs, r2) = parse_bp(rest, PREFIX_BP)->0;
                lemma_parse_bp_suffix(rest, PREFIX_BP, suffix);
                lemma_parse_operators_suffix(SExpr::Cons(op, seq![rhs]), r2, bp, suffix);
            }
        },
        Token::Eof => {},
    }
}

proof fn lemma_parse_operators_suffix(lhs: SExpr, toks: Seq<Token>, bp: u8, suffix: Seq<Token>)
    requires
        parse_operators(lhs, toks, bp) is Some,
        suffix.len() > 0,
        ends_expression(suffix[0]),
    ensures
        parse_operators(lhs, toks + suffix, bp) == Some(
            ((parse_operators(lhs, toks, bp)->0).0, (parse_operators(lhs, toks, bp)->0).1
                + suffix),
        ),
    decreases toks.len(), 1int,
{
    let all = toks + suffix;
    if toks.len() == 0 {
        assert(all =~= suffix);
    } else {
        let rest = toks.drop_first();
        assert(all[0] == toks[0]);
        assert(all.drop_first() =~= rest + suffix);
        match toks[0] {
            Token::Op(op) => {
                if postfix_bp(op) is Some {
                    if postfix_bp(op)->0 < bp {
                    } else if op == '[' {
                        let (rhs, r2) = parse_bp(rest, 0)->0;
                        lemma_parse_bp_suffix(rest, 0, suffix);
                        assert((r2 + suffix)[0] == r2[0]);
                        assert(pop_front(r2 + suffix) =~= pop_front(r2) + suffix);
                        lemma_parse_operators_suffix(
                            SExpr::Cons(op, seq![lhs, rhs]),
                            pop_front(r2),
                            bp,
                            suffix,
                        );
                    } else {
                        lemma_parse_operators_suffix(SExpr::Cons(op, seq![lhs]), rest, bp, suffix);
                    }
                } else if infix_bp(op) is Some {
                    let (l_bp, r_bp) = infix_bp(op)->0;
                    if l_bp < bp {
                    } else if op == '?' {
                        let (mhs, r2) = parse_bp(rest, 0)->0;
                        lemma_parse_bp_suffix(rest, 0, suffix);
                        assert((r2 + suffix)[0] == r2[0]);
                        assert(pop_front(r2 + suffix) =~= pop_front(r2) + suffix);
                        let (rhs, r3) = parse_bp(pop_front(r2), r_bp)->0;
                        lemma_parse_bp_suffix(pop_front(r2), r_bp, suffix);
                        lemma_parse_operators_suffix(
                            SExpr::Cons(op, seq![lhs, mhs, rhs]),
                            r3,
                            bp,
                            suffix,
                        );
                    } else {
                        let (rhs, r2) = parse_bp(rest, r_bp)->0;
                        lemma_parse_bp_suffix(rest, r_bp, suffix);
                        lemma_parse_operators_suffix(
                            SExpr::Cons(op, seq![lhs, rhs]),
                            r2,
                            bp,
                            suffix,
                        );
                    }
                }
            },
            _ => {},
        }
    }
}

/// The tokens of the input joined from `a` and `b` are those of `a`
/// followed by those of `b`.
pub proof fn lemma_lex_concat(a: Seq<char>, b: Seq<char>)
    ensures
        lex(a + b) == lex(a) + lex(b),
{
    Seq::filter_distributes_over_add(a, b, |c: char| !ascii_whitespace(c));
    assert(lex(a + b) =~= lex(a) + lex(b));
}

/// Parentheses around a complete expression change nothing.
pub proof fn lemma_parenthesized(s: Seq<char>)
    requires
        parse_bp(lex(s), 0) is Some,
        (parse_bp(lex(s), 0)->0).1.len() == 0,
    ensures
        expr_spec(seq!['('] + s + seq![')']) == expr_spec(s),
{
    let open = seq!['('];
    let close = seq![')'];
    lemma_lex_concat(open, s);
    lemma_lex_concat(open + s, close);
    let lo = lex(open);
    let lc = lex(close);
    reveal_with_fuel(Seq::<_>::filter, 2);
    assert(without_whitespace(open) =~= open);
    assert(without_whitespace(close) =~= close);
    assert(lo =~= seq![Token::Op('(')]);
    assert(lc =~= seq![Token::Op(')')]);
    let toks = lex(seq!['('] + s + seq![')']);
    assert(toks =~= seq![Token::Op('(')] + (lex(s) + lc));
    let e = (parse_bp(lex(s), 0)->0).0;
    lemma_parse_bp_suffix(lex(s), 0, lc);
    assert((parse_bp(lex(s), 0)->0).1 + lc =~= lc);
    assert(toks.drop_first() =~= lex(s) + lc);
    assert(pop_front(lc) =~= Seq::<Token>::empty());
    assert(parse_operators(e, Seq::<Token>::empty(), 0) == Some((e, Seq::<Token>::empty())));
    assert(parse_bp(toks, 0) == Some((e, Seq::<Token>::empty())));
}

/// A postfix `!` binds more tightly than a prefix `+` or `-`: `-x!` is
/// `(- (! x))`.
pub proof fn lemma_prefix_then_postfix(p: char, x: char)
    requires
        p == '+' || p == '-',
        ascii_alphanumeric(x),
    ensures
        expr_spec(seq![p, x, '!']) == Some(
            SExpr::Cons(p, seq![SExpr::Cons('!', seq![SExpr::Atom(x)])]),
        ),
{
    let s = seq![p, x, '!'];
    assert forall|i: int| 0 <= i < s.len() implies !ascii_whitespace(#[trigger] s[i]) by {}
    lemma_no_whitespace(s);
    let t0 = lex(s);
    assert(t0 =~= seq![Token::Op(p), Token::Atom(x), Token::Op('!')]);
    let t1 = t0.drop_first();
    let t2 = t1.drop_first();
    let t3 = t2.drop_first();
    assert(t1 =~= seq![Token::Atom(x), Token::Op('!')]);
    assert(t2 =~= seq![Token::Op('!')]);
    assert(t3 =~= Seq::<Token>::empty());
    let bang = SExpr::Cons('!', seq![SExpr::Atom(x)]);
    let whole = SExpr::Cons(p, seq![bang]);
    assert(parse_operators(bang, t3, PREFIX_BP) == Some((bang, t3)));
    assert(parse_operators(SExpr::Atom(x), t2, PREFIX_BP) == Some((bang, t3)));
    assert(parse_bp(t1, PREFIX_BP) == Some((bang, t3)));
    assert(parse_operators(whole, t3, 0) == Some((whole, t3)));
    assert(parse_bp(t0, 0) == Some((whole, t3)));
}

/// The atoms among `toks`, in order.
pub open spec fn token_atoms(toks: Seq<Token>) -> Seq<char>
    decreases toks.len(),
{
    if toks.len() == 0 {
        Seq::empty()
    } else {
        match toks[0] {
            Token::Atom(a) => seq![a] + token_atoms(toks.drop_first()),
            _ => token_atoms(toks.drop_first()),
        }
    }
}

/// The atoms of an expression, read from left to right.
pub open spec fn tree_atoms(e: SExpr) -> Seq<char>
    decreases e,
{
    match e {
        SExpr::Atom(a) => seq![a],
        SExpr::Cons(_, args) => args_atoms(args),
    }
}

pub open spec fn args_atoms(args: Seq<SExpr>) -> Seq<char>
    decreases args,
{
    if args.len() == 0 {
        Seq::empty()
    } else {
        args_atoms(args.drop_last()) + tree_atoms(args.last())
    }
}

proof fn lemma_args_atoms(op: char, a: SExpr, b: SExpr, c: SExpr)
    ensures
        tree_atoms(SExpr::Cons(op, seq![a])) == tree_atoms(a),
        tree_atoms(SExpr::Cons(op, seq![a, b])) == tree_atoms(a) + tree_atoms(b),
        tree_atoms(SExpr::Cons(op, seq![a, b, c])) == tree_atoms(a) + tree_atoms(b) + tree_atoms(
            c,
        ),
{
    let e = Seq::<SExpr>::empty();
    assert(args_atoms(e) == Seq::<char>::empty());
    assert(seq![a].drop_last() =~= e);
    assert(seq![a, b].drop_last() =~= seq![a]);
    assert(seq![a, b, c].drop_last() =~= seq![a, b]);
    assert(args_atoms(seq![a]) =~= tree_atoms(a));
    assert(args_atoms(seq![a, b]) =~= tree_atoms(a) + tree_atoms(b));
    assert(args_atoms(seq![a, b, c]) =~= tree_atoms(a) + tree_atoms(b) + tree_atoms(c));
}

/// Parsing keeps the atoms in order: the atoms of the expression, then
/// those of what is left over, are the atoms of the input.
proof fn lemma_parse_bp_atoms(toks: Seq<Token>, bp: u8)
    requires
        parse_bp(toks, bp) is Some,
    ensures
        tree_atoms((parse_bp(toks, bp)->0).0) + token_atoms((parse_bp(toks, bp)->0).1)
            == token_atoms(toks),
    decreases toks.len(), 0int,
{
    let rest = toks.drop_first();
    match toks[0] {
        Token::Atom(a) => {
            lemma_parse_operators_atoms(SExpr::Atom(a), rest, bp);
            let (e, r) = parse_operators(SExpr::Atom(a), rest, bp)->0;
            assert(tree_atoms(e) + token_atoms(r) =~= seq![a] + token_atoms(rest));
        },
        Token::Op(op) => {
            if op == '(' {
                let (inner, r2) = parse_bp(rest, 0)->0;
                lemma_parse_bp_atoms(rest, 0);
                lemma_parse_operators_atoms(inner, pop_front(r2), bp);
                let (e, r) = parse_operators(inner, pop_front(r2), bp)->0;
                assert(tree_atoms(e) + token_atoms(r) =~= tree_atoms(inner) + token_atoms(r2));
            } else {
                let (rhs, r2) = parse_bp(rest, PREFIX_BP)->0;
                lemma_parse_bp_atoms(rest, PREFIX_BP);
                lemma_args_atoms(op, rhs, rhs, rhs);
                lemma_parse_operators_atoms(SExpr::Cons(op, seq![rhs]), r2, bp);
            }
        },
        Token::Eof => {},
    }
}

proof fn lemma_parse_operators_atoms(lhs: SExpr, toks: Seq<Token>, bp: u8)
    requires
        parse_operators(lhs, toks, bp) is Some,
    ensures
        tree_atoms((parse_operators(lhs, toks, bp)->0).0) + token_atoms(
            (parse_operators(lhs, toks, bp)->0).1,
        ) == tree_atoms(lhs) + token_atoms(toks),
    decreases toks.len(), 1int,
{
    if toks.len() > 0 {
        let rest = toks.drop_first();
        match toks[0] {
            Token::Op(op) => {
                if postfix_bp(op) is Some {
                    if postfix_bp(op)->0 < bp {
                    } else if op == '[' {
                        let (rhs, r2) = parse_bp(rest, 0)->0;
                        lemma_parse_bp_atoms(rest, 0);
                        lemma_args_atoms(op, lhs, rhs, rhs);
                        lemma_parse_operators_atoms(SExpr::Cons(op, seq![lhs, rhs]), pop_front(r2), bp);
                        let (e, r) = parse_operators(SExpr::Cons(op, seq![lhs, rhs]), pop_front(r2), bp)->0;
                        assert(tree_atoms(e) + token_atoms(r) =~= tree_atoms(lhs) + (tree_atoms(rhs)
                            + token_atoms(r2)));
                    } else {
                        lemma_args_atoms(op, lhs, lhs, lhs);
                        lemma_parse_operators_atoms(SExpr::Cons(op, seq![lhs]), rest, bp);
                    }
                } else if infix_bp(op) is Some {
                    let (l_bp, r_bp) = infix_bp(op)->0;
                    if l_bp < bp {
                    } else if op == '?' {
                        let (mhs, r2) = parse_bp(rest, 0)->0;
                        lemma_parse_bp_atoms(rest, 0);
                        let (rhs, r3) = parse_bp(pop_front(r2), r_bp)->0;
                        lemma_parse_bp_atoms(pop_front(r2), r_bp);
                        lemma_args_atoms(op, lhs, mhs, rhs);
                        let whole = SExpr::Cons(op, seq![lhs, mhs, rhs]);
                        lemma_parse_operators_atoms(whole, r3, bp);
                        let (e, r) = parse_operators(whole, r3, bp)->0;
                        assert(tree_atoms(e) + token_atoms(r) =~= tree_atoms(lhs) + (tree_atoms(mhs)
                            + (tree_atoms(rhs) + token_atoms(r3))));
                    } else {
                        let (rhs, r2) = parse_bp(rest, r_bp)->0;
                        lemma_parse_bp_atoms(rest, r_bp);
                        lemma_args_atoms(op, lhs, rhs, rhs);
                        let whole = SExpr::Cons(op, seq![lhs, rhs]);
                        lemma_parse_operators_atoms(whole, r2, bp);
                        let (e, r) = parse_operators(whole, r2, bp)->0;
                        assert(tree_atoms(e) + token_atoms(r) =~= tree_atoms(lhs) + (tree_atoms(rhs)
                            + token_atoms(r2)));
                    }
                }
            },
            _ => {},
        }
    }
}

/// Operands keep their order: read from left to right, the atoms of the
/// parsed expression are the atoms of the input up to where parsing
/// stopped, in the same order.
pub proof fn lemma_atoms_keep_order(input: Seq<char>)
    requires
        parse_bp(lex(input), 0) is Some,
    ensures
        tree_atoms((parse_bp(lex(input), 0)->0).0) + token_atoms((parse_bp(lex(input), 0)->0).1)
            == token_atoms(lex(input)),
{
    lemma_parse_bp_atoms(lex(input), 0);
}

/// The tokens left after `k` calls of `next` on a lexer holding `toks`.
pub open spec fn after_nexts(toks: Seq<Token>, k: nat) -> Seq<Token>
    decreases k,
{
    if k == 0 {
        toks
    } else {
        pop_front(after_nexts(toks, (k - 1) as nat))
    }
}

/// The lexer hands its tokens out in input order, and `Eof` once they
/// are used up: the call after `k` calls gives token `k`, or `Eof`.
pub proof fn lemma_next_in_order(input: Seq<char>, k: nat)
    ensures
        after_nexts(lex(input), k) == if k <= lex(input).len() {
            lex(input).skip(k as int)
        } else {
            Seq::<Token>::empty()
        },
        front(after_nexts(lex(input), k)) == if k < lex(input).len() {
            lex(input)[k as int]
        } else {
            Token::Eof
        },
    decreases k,
{
    let toks = lex(input);
    if k > 0 {
        lemma_next_in_order(input, (k - 1) as nat);
        if k <= toks.len() {
            assert(toks.skip(k - 1).drop_first() =~= toks.skip(k as int));
        }
    } else {
        assert(toks.skip(0) =~= toks);
    }
}

} // verus!
