//! The streamlined Pratt parser: atoms, prefix, postfix and infix
//! operators and parentheses are all driven by one binding-power table,
//! and a single loop builds the S-expression.
use vstd::prelude::*;
use crate::text::{
    ascii_alphanumeric, ascii_whitespace, is_ascii_alphanumeric, is_ascii_whitespace,
    lemma_no_whitespace, lemma_without_whitespace_step, push_char, without_whitespace,
};

verus! {

/// An S-expression node: a head and its operands; an atom is a node
/// without operands.
pub enum S {
    Cons(char, Vec<S>),
}

/// The mathematical form of an S-expression.
pub enum SExpr {
    Cons(char, Seq<SExpr>),
}

/// The lexer holds the input's non-whitespace characters, last one first.
pub struct Lexer {
    pub tokens: Vec<char>,
}

/// Left and right binding power of `op`; `is_prefix` says whether no
/// expression precedes it. Atoms bind like operators without operands to
/// the right, `(` binds nothing to its left.
pub open spec fn binding_power_spec(op: char, is_prefix: bool) -> Option<(u8, u8)> {
    if op == '(' {
        Some((99, 0))
    } else if op == '=' {
        Some((2, 1))
    } else if (op == '+' || op == '-') && is_prefix {
        Some((99, 7))
    } else if op == '+' || op == '-' {
        Some((3, 4))
    } else if op == '*' || op == '/' {
        Some((5, 6))
    } else if op == '!' {
        Some((9, 100))
    } else if op == '.' {
        Some((12, 11))
    } else if ascii_alphanumeric(op) {
        Some((99, 100))
    } else {
        None
    }
}

/// Having parsed `lhs` (if anything), takes the tokens at the front of
/// `toks` that bind at least as tightly as `bp`. Gives the expression
/// and the tokens left over, or `None` where a `(` lacks its `)`.
pub open spec fn parse_from(lhs: Option<SExpr>, toks: Seq<char>, bp: u8) -> Option<
    (Option<SExpr>, Seq<char>),
>
    decreases toks.len(),
{
    if toks.len() == 0 {
        Some((lhs, toks))
    } else {
        let token = toks[0];
        let rest = toks.drop_first();
        match binding_power_spec(token, lhs is None) {
            Some((l_bp, r_bp)) => {
                if bp <= l_bp {
                    match parse_from(None, rest, r_bp) {
                        Some((rhs, r2)) => {
                            if r2.len() < toks.len() {
                                if token == '(' {
                                    if r2.len() > 0 && r2[0] == ')' {
                                        parse_from(rhs, r2.drop_first(), bp)
                                    } else {
                                        None
                                    }
                                } else {
                                    parse_from(
                                        Some(SExpr::Cons(token, operands(lhs, rhs))),
                                        r2,
                                        bp,
                                    )
                                }
                            } else {
                                None
                            }
                        },
                        None => None,
                    }
                } else {
                    Some((lhs, toks))
                }
            },
            None => Some((lhs, toks)),
        }
    }
}

/// The operands that are present, left one first.
pub open spec fn operands(lhs: Option<SExpr>, rhs: Option<SExpr>) -> Seq<SExpr> {
    let l = match lhs {
        Some(e) => seq![e],
        None => Seq::empty(),
    };
    match rhs {
        Some(e) => l.push(e),
        None => l,
    }
}

/// The tokens of `input`: its characters without whitespace.
pub open spec fn lex(input: Seq<char>) -> Seq<char> {
    without_whitespace(input)
}

/// The expression that `input` parses to; `None` where a `(` lacks its
/// `)` or where there is no expression at all.
pub open spec fn expr_spec(input: Seq<char>) -> Option<SExpr> {
    match parse_from(None, lex(input), 0) {
        Some((Some(e), _)) => Some(e),
        _ => None,
    }
}

/// The printed form: a node without operands is its head, any other node
/// is `(head arg1 arg2 ...)`.
pub open spec fn render(e: SExpr) -> Seq<char>
    decreases e,
{
    match e {
        SExpr::Cons(head, args) => {
            if args.len() == 0 {
                seq![head]
            } else {
                seq!['(', head] + render_args(args) + seq![')']
            }
        },
    }
}

/// Each operand preceded by a space.
pub open spec fn render_args(args: Seq<SExpr>) -> Seq<char>
    decreases args,
{
    if args.len() == 0 {
        seq![]
    } else {
        render_args(args.drop_last()) + seq![' '] + render(args.last())
    }
}

pub open spec fn s_view(s: S) -> SExpr
    decreases s,
{
    match s {
        S::Cons(head, args) => SExpr::Cons(head, s_view_list(args@)),
    }
}

pub open spec fn s_view_list(args: Seq<S>) -> Seq<SExpr>
    decreases args,
{
    if args.len() == 0 {
        seq![]
    } else {
        s_view_list(args.drop_last()).push(s_view(args.last()))
    }
}

pub open spec fn option_view(s: Option<S>) -> Option<SExpr> {
    match s {
        Some(s) => Some(s_view(s)),
        None => None,
    }
}

impl View for S {
    type V = SExpr;

    open spec fn view(&self) -> SExpr {
        s_view(*self)
    }
}

impl View for Lexer {
    type V = Seq<char>;

    /// The characters not handed out yet, next one first.
    open spec fn view(&self) -> Seq<char> {
        Seq::new(self.tokens@.len(), |i: int| self.tokens@[self.tokens@.len() - 1 - i])
    }
}

pub proof fn lemma_s_view_list(args: Seq<S>)
    ensures
        s_view_list(args).len() == args.len(),
        forall|i: int| 0 <= i < args.len() ==> s_view_list(args)[i] == s_view(#[trigger] args[i]),
    decreases args.len(),
{
    if args.len() > 0 {
        lemma_s_view_list(args.drop_last());
        assert forall|i: int| 0 <= i < args.len() implies s_view_list(args)[i] == s_view(
            #[trigger] args[i],
        ) by {
            if i < args.len() - 1 {
                assert(args.drop_last()[i] == args[i]);
            }
        }
    }
}

impl Lexer {
    /// Collects the non-whitespace characters of `input`.
    pub fn new(input: &str) -> (lexer: Lexer)
        ensures
            lexer@ == lex(input@),
    {
        let mut fwd: Vec<char> = Vec::new();
        let ghost chars = input@;
        for c in it: input.chars()
            invariant
                it.seq() == chars,
                fwd@ == without_whitespace(chars.take(it.index() as int)),
        {
            proof {
                lemma_without_whitespace_step(chars, it.index() as int);
            }
            if !is_ascii_whitespace(c) {
                fwd.push(c);
            }
        }
        assert(chars.take(chars.len() as int) =~= chars);

        let ghost all = fwd@;
        let mut tokens: Vec<char> = Vec::new();
        while fwd.len() > 0
            invariant
                fwd@ == all.take(fwd@.len() as int),
                fwd@.len() + tokens@.len() == all.len(),
                forall|i: int|
                    0 <= i < tokens@.len() ==> #[trigger] tokens@[i] == all[all.len() - 1 - i],
            decreases fwd@.len(),
        {
            let t = fwd.pop().unwrap();
            tokens.push(t);
            assert(fwd@ =~= all.take(fwd@.len() as int));
        }
        let lexer = Lexer { tokens };
        assert(lexer@ =~= all);
        lexer
    }

    /// Hands out the next character, if any.
    pub fn next(&mut self) -> (c: Option<char>)
        ensures
            old(self)@.len() == 0 ==> c is None && final(self)@ == old(self)@,
            old(self)@.len() > 0 ==> c == Some(old(self)@[0]) && final(self)@
                == old(self)@.drop_first(),
    {
        let ghost before = self@;
        let r = self.tokens.pop();
        assert(before.len() > 0 ==> self@ =~= before.drop_first());
        r
    }

    /// The next character, if any; hands out nothing.
    pub fn peek(&mut self) -> (c: Option<char>)
        ensures
            old(self)@.len() == 0 ==> c is None,
            old(self)@.len() > 0 ==> c == Some(old(self)@[0]),
            final(self)@ == old(self)@,
    {
        let n = self.tokens.len();
        if n == 0 {
            None
        } else {
            Some(self.tokens[n - 1])
        }
    }
}

impl S {
    /// The printed form of the expression, e.g. `(+ 1 (* 2 3))`.
    pub fn to_string(&self) -> (r: String)
        ensures
            r@ == render(self@),
    {
        let mut out = String::new();
        self.write_to(&mut out);
        out
    }

    fn write_to(&self, out: &mut String)
        ensures
            final(out)@ == old(out)@ + render(self@),
        decreases self,
    {
        match self {
            S::Cons(head, args) => {
                proof {
                    lemma_s_view_list(args@);
                }
                if args.len() == 0 {
                    push_char(out, *head);
                    assert(out@ =~= old(out)@ + render(self@));
                } else {
                    let ghost start = out@;
                    push_char(out, '(');
                    push_char(out, *head);
                    let mut i: usize = 0;
                    while i < args.len()
                        invariant
                            *self == S::Cons(*head, *args),
                            0 <= i <= args@.len(),
                            out@ == start + seq!['(', *head] + render_args(
                                s_view_list(args@).take(i as int),
                            ),
                            s_view_list(args@).len() == args@.len(),
                            forall|j: int|
                                0 <= j < args@.len() ==> s_view_list(args@)[j] == s_view(
                                    #[trigger] args@[j],
                                ),
                        decreases args@.len() - i,
                    {
                        let ghost before = out@;
                        push_char(out, ' ');
                        assert(decreases_to!(*self => (*self)->Cons_1));
                        assert(decreases_to!((*self)->Cons_1 => (*self)->Cons_1@));
                        assert(decreases_to!((*self)->Cons_1@ => args@[i as int]));
                        args[i].write_to(out);
                        let ghost v = s_view_list(args@);
                        assert(v.take(i + 1).drop_last() =~= v.take(i as int));
                        assert(out@ =~= before + seq![' '] + render(v[i as int]));
                        i = i + 1;
                    }
                    let ghost v = s_view_list(args@);
                    assert(v.take(args@.len() as int) =~= v);
                    push_char(out, ')');
                    assert(out@ =~= old(out)@ + render(self@));
                }
            },
        }
    }
}

/// Parses `input` into an S-expression.
pub fn expr(input: &str) -> (s: S)
    requires
        expr_spec(input@) is Some,
    ensures
        expr_spec(input@) == Some(s@),
{
    let mut lexer = Lexer::new(input);
    let r = expr_bp(&mut lexer, 0);
    r.unwrap()
}

/// Parses, from the front of the lexer's characters, an expression whose
/// operators bind at least as tightly as `bp`; `None` when nothing there
/// starts one.
fn expr_bp(lexer: &mut Lexer, bp: u8) -> (s: Option<S>)
    requires
        parse_from(None, old(lexer)@, bp) is Some,
    ensures
        parse_from(None, old(lexer)@, bp) == Some((option_view(s), final(lexer)@)),
        final(lexer)@.len() <= old(lexer)@.len(),
    decreases old(lexer)@.len(),
{
    let ghost toks = lexer@;
    let mut lhs: Option<S> = None;

    loop
        invariant
            toks == old(lexer)@,
            parse_from(option_view(lhs), lexer@, bp) == parse_from(None, toks, bp),
            parse_from(None, toks, bp) is Some,
            lexer@.len() <= toks.len(),
        decreases lexer@.len(),
    {
        let token = match lexer.peek() {
            Some(token) => token,
            None => {
                return lhs;
            },
        };

        let r_bp = match binding_power(token, lhs.is_none()) {
            Some((l_bp, r_bp)) => {
                if bp <= l_bp {
                    r_bp
                } else {
                    return lhs;
                }
            },
            None => {
                return lhs;
            },
        };
        lexer.next();

        let rhs = expr_bp(lexer, r_bp);
        // a `)` gets no binding power: were it consumed by the recursive call,
        // the `(` could not find it here.
        if token == '(' {
            let _close = lexer.next();
            lhs = rhs;
            continue;
        }

        let ghost lv = option_view(lhs);
        let ghost rv = option_view(rhs);
        let mut args: Vec<S> = Vec::new();
        if let Some(l) = lhs {
            args.push(l);
        }
        let ghost first = args@;
        proof {
            lemma_s_view_list(first);
            assert(s_view_list(first) =~= operands(lv, None));
        }
        if let Some(r) = rhs {
            args.push(r);
            proof {
                assert(args@ == first.push(r));
                assert(first.push(r).drop_last() =~= first);
                assert(rv == Some(s_view(r)));
                assert(s_view_list(args@) == s_view_list(first).push(s_view(r)));
            }
        }
        lhs = Some(S::Cons(token, args));
    }
}

fn binding_power(op: char, is_prefix: bool) -> (r: Option<(u8, u8)>)
    ensures
        r == binding_power_spec(op, is_prefix),
{
    if op == '(' {
        Some((99, 0))
    } else if op == '=' {
        Some((2, 1))
    } else if (op == '+' || op == '-') && is_prefix {
        Some((99, 7))
    } else if op == '+' || op == '-' {
        Some((3, 4))
    } else if op == '*' || op == '/' {
        Some((5, 6))
    } else if op == '!' {
        Some((9, 100))
    } else if op == '.' {
        Some((12, 11))
    } else if is_ascii_alphanumeric(op) {
        Some((99, 100))
    } else {
        None
    }
}

/// Whitespace does not matter: inputs that differ only in ASCII
/// whitespace parse alike.
pub proof fn lemma_whitespace_insensitive(a: Seq<char>, b: Seq<char>)
    requires
        without_whitespace(a) == without_whitespace(b),
    ensures
        lex(a) == lex(b),
        expr_spec(a) == expr_spec(b),
{
}

/// The operators that join two operands.
pub open spec fn binary(op: char) -> bool {
    op == '=' || op == '+' || op == '-' || op == '*' || op == '/' || op == '.'
}

/// `x o1 y o2 z` groups as `(x o1 y) o2 z` exactly when `o2` binds less
/// tightly to its left than `o1` does to its right.
pub open spec fn groups_left(o1: char, o2: char) -> bool {
    (binding_power_spec(o2, false)->0).0 < (binding_power_spec(o1, false)->0).1
}

pub open spec fn atom(c: char) -> SExpr {
    SExpr::Cons(c, Seq::empty())
}

/// The tree of `x o1 y o2 z`, grouped to the left or to the right.
pub open spec fn two_operator_tree(x: char, o1: char, y: char, o2: char, z: char, left: bool) -> SExpr {
    if left {
        SExpr::Cons(o2, seq![SExpr::Cons(o1, seq![atom(x), atom(y)]), atom(z)])
    } else {
        SExpr::Cons(o1, seq![atom(x), SExpr::Cons(o2, seq![atom(y), atom(z)])])
    }
}

/// Precedence and associativity: of two binary operators between three
/// atoms, the one that binds more tightly takes the middle atom.
pub proof fn lemma_two_operators(x: char, o1: char, y: char, o2: char, z: char)
    requires
        ascii_alphanumeric(x),
        ascii_alphanumeric(y),
        ascii_alphanumeric(z),
        binary(o1),
        binary(o2),
    ensures
        expr_spec(seq![x, o1, y, o2, z]) == Some(
            two_operator_tree(x, o1, y, o2, z, groups_left(o1, o2)),
        ),
{
    let s = seq![x, o1, y, o2, z];
    assert forall|i: int| 0 <= i < s.len() implies !ascii_whitespace(#[trigger] s[i]) by {}
    lemma_no_whitespace(s);
    let t0 = lex(s);
    let t1 = t0.drop_first();
    let t2 = t1.drop_first();
    let t3 = t2.drop_first();
    let t4 = t3.drop_first();
    let t5 = t4.drop_first();
    assert(t1 =~= seq![o1, y, o2, z]);
    assert(t2 =~= seq![y, o2, z]);
    assert(t3 =~= seq![o2, z]);
    assert(t4 =~= seq![z]);
    assert(t5 =~= Seq::<char>::empty());
    let (l1, r1) = binding_power_spec(o1, false)->0;
    let (l2, r2) = binding_power_spec(o2, false)->0;
    let (ax, ay, az) = (atom(x), atom(y), atom(z));
    assert(operands(None, None) =~= Seq::<SExpr>::empty());
    // an atom takes no operand to its right
    assert(parse_from(None, t1, 100) == Some((None::<SExpr>, t1)));
    assert(parse_from(None, t3, 100) == Some((None::<SExpr>, t3)));
    assert(parse_from(None, t5, 100) == Some((None::<SExpr>, t5)));
    assert(parse_from(Some(az), t5, r2) == Some((Some(az), t5)));
    assert(parse_from(None, t4, r2) == Some((Some(az), t5)));
    if l2 < r1 {
        assert(parse_from(Some(ay), t3, r1) == Some((Some(ay), t3)));
        assert(parse_from(None, t2, r1) == Some((Some(ay), t3)));
        let left = SExpr::Cons(o1, seq![ax, ay]);
        let whole = SExpr::Cons(o2, seq![left, az]);
        assert(operands(Some(ax), Some(ay)) =~= seq![ax, ay]);
        assert(operands(Some(left), Some(az)) =~= seq![left, az]);
        assert(parse_from(Some(whole), t5, 0) == Some((Some(whole), t5)));
        assert(parse_from(Some(left), t3, 0) == Some((Some(whole), t5)));
        assert(parse_from(Some(ax), t1, 0) == Some((Some(whole), t5)));
        assert(parse_from(None, t0, 0) == Some((Some(whole), t5)));
    } else {
        let right = SExpr::Cons(o2, seq![ay, az]);
        assert(operands(Some(ay), Some(az)) =~= seq![ay, az]);
        assert(parse_from(Some(right), t5, r1) == Some((Some(right), t5)));
        assert(parse_from(Some(ay), t3, r1) == Some((Some(right), t5)));
        assert(parse_from(None, t2, r1) == Some((Some(right), t5)));
        let whole = SExpr::Cons(o1, seq![ax, right]);
        assert(operands(Some(ax), Some(right)) =~= seq![ax, right]);
        assert(parse_from(Some(whole), t5, 0) == Some((Some(whole), t5)));
        assert(parse_from(Some(ax), t1, 0) == Some((Some(whole), t5)));
        assert(parse_from(None, t0, 0) == Some((Some(whole), t5)));
    }
}

/// A character at which an expression ends, such as `)`: it binds
/// neither as a prefix nor after an operand.
pub open spec fn ends_expression(c: char) -> bool {
    binding_power_spec(c, true) is None && binding_power_spec(c, false) is None
}

/// What a parse leaves over grows by `suffix` when `suffix` is appended
/// to its input and starts with a character that ends an expression.
proof fn lemma_parse_from_suffix(lhs: Option<SExpr>, toks: Seq<char>, bp: u8, suffix: Seq<char>)
    requires
        parse_from(lhs, toks, bp) is Some,
        suffix.len() > 0,
        ends_expression(suffix[0]),
    ensures
        parse_from(lhs, toks + suffix, bp) == Some(
            ((parse_from(lhs, toks, bp)->0).0, (parse_from(lhs, toks, bp)->0).1 + suffix),
        ),
    decreases toks.len(),
{
    let all = toks + suffix;
    if toks.len() == 0 {
        assert(all =~= suffix);
    } else {
        let token = toks[0];
        let rest = toks.drop_first();
        assert(all[0] == token);
        assert(all.drop_first() =~= rest + suffix);
        match binding_power_spec(token, lhs is None) {
            Some((l_bp, r_bp)) => {
                if bp <= l_bp {
                    let (rhs, r2) = parse_from(None, rest, r_bp)->0;
                    lemma_parse_from_suffix(None, rest, r_bp, suffix);
                    if token == '(' {
                        assert((r2 + suffix)[0] == r2[0]);
                        assert((r2 + suffix).drop_first() =~= r2.drop_first() + suffix);
                        lemma_parse_from_suffix(rhs, r2.drop_first(), bp, suffix);
                    } else {
                        lemma_parse_from_suffix(
                            Some(SExpr::Cons(token, operands(lhs, rhs))),
                            r2,
                            bp,
                            suffix,
                        );
                    }
                }
            },
            None => {},
        }
    }
}

/// Parentheses around a complete expression change nothing.
pub proof fn lemma_parenthesized(s: Seq<char>)
    requires
        parse_from(None, lex(s), 0) is Some,
        (parse_from(None, lex(s), 0)->0).1.len() == 0,
    ensures
        expr_spec(seq!['('] + s + seq![')']) == expr_spec(s),
{
    let open = seq!['('];
    let close = seq![')'];
    let ws = |c: char| !ascii_whitespace(c);
    Seq::filter_distributes_over_add(open, s, ws);
    Seq::filter_distributes_over_add(open + s, close, ws);
    reveal_with_fuel(Seq::<_>::filter, 2);
    assert(without_whitespace(open) =~= open);
    assert(without_whitespace(close) =~= close);
    let toks = lex(seq!['('] + s + seq![')']);
    assert(toks =~= seq!['('] + (lex(s) + close));
    let e = (parse_from(None, lex(s), 0)->0).0;
    lemma_parse_from_suffix(None, lex(s), 0, close);
    assert((parse_from(None, lex(s), 0)->0).1 + close =~= close);
    assert(toks.drop_first() =~= lex(s) + close);
    assert(close.drop_first() =~= Seq::<char>::empty());
    assert(parse_from(e, Seq::<char>::empty(), 0) == Some((e, Seq::<char>::empty())));
    assert(parse_from(None, toks, 0) == Some((e, Seq::<char>::empty())));
}

/// A parenthesised group is an operand like an atom: a prefix `+` or
/// `-` before `(s)`, for a complete expression `s`, applies to the whole
/// of `s`; so `-(a + b)` is `(- (+ a b))`.
pub proof fn lemma_prefix_applies_to_group(p: char, s: Seq<char>)
    requires
        p == '+' || p == '-',
        parse_from(None, lex(s), 0) is Some,
        (parse_from(None, lex(s), 0)->0).0 is Some,
        (parse_from(None, lex(s), 0)->0).1.len() == 0,
    ensures
        expr_spec(seq![p, '('] + s + seq![')']) == Some(
            SExpr::Cons(p, seq![expr_spec(s)->0]),
        ),
{
    let open = seq![p, '('];
    let close = seq![')'];
    let ws = |c: char| !ascii_whitespace(c);
    Seq::filter_distributes_over_add(open, s, ws);
    Seq::filter_distributes_over_add(open + s, close, ws);
    reveal_with_fuel(Seq::<_>::filter, 3);
    assert(without_whitespace(open) =~= open);
    assert(without_whitespace(close) =~= close);
    let toks = lex(open + s + close);
    assert(toks =~= seq![p] + (seq!['('] + (lex(s) + close)));
    let e = (parse_from(None, lex(s), 0)->0).0->0;
    lemma_parse_from_suffix(None, lex(s), 0, close);
    assert((parse_from(None, lex(s), 0)->0).1 + close =~= close);
    let t1 = toks.drop_first();
    let t2 = t1.drop_first();
    assert(t1 =~= seq!['('] + (lex(s) + close));
    assert(t2 =~= lex(s) + close);
    let empty = Seq::<char>::empty();
    assert(close.drop_first() =~= empty);
    assert(parse_from(None, t2, 0) == Some((Some(e), close)));
    assert(parse_from(Some(e), empty, 7) == Some((Some(e), empty)));
    assert(parse_from(None, t1, 7) == Some((Some(e), empty)));
    let whole = SExpr::Cons(p, seq![e]);
    assert(operands(None, Some(e)) =~= seq![e]);
    assert(parse_from(Some(whole), empty, 0) == Some((Some(whole), empty)));
    assert(parse_from(None, toks, 0) == Some((Some(whole), empty)));
}

/// How tightly a binary operator binds, loosest first: `=`, then `+ -`,
/// then `* /`, then `.`.
pub open spec fn precedence_level(op: char) -> int {
    if op == '=' {
        1
    } else if op == '+' || op == '-' {
        2
    } else if op == '*' || op == '/' {
        3
    } else {
        4
    }
}

/// The grammar's precedence and associativity: in `x o1 y o2 z` the
/// middle atom goes to the operator of the higher level; between
/// operators of one level, `=` and `.` group to the right and `+ - * /`
/// to the left.
pub proof fn lemma_precedence_levels(x: char, o1: char, y: char, o2: char, z: char)
    requires
        ascii_alphanumeric(x),
        ascii_alphanumeric(y),
        ascii_alphanumeric(z),
        o1 == '=' || o1 == '+' || o1 == '-' || o1 == '*' || o1 == '/' || o1 == '.',
        o2 == '=' || o2 == '+' || o2 == '-' || o2 == '*' || o2 == '/' || o2 == '.',
    ensures
        expr_spec(seq![x, o1, y, o2, z]) == Some(
            two_operator_tree(
                x,
                o1,
                y,
                o2,
                z,
                precedence_level(o1) > precedence_level(o2) || (precedence_level(o1)
                    == precedence_level(o2) && o1 != '=' && o1 != '.'),
            ),
        ),
{
    lemma_two_operators(x, o1, y, o2, z);
}

/// A parenthesised group is the right operand of a binary operator as a
/// whole, however tightly the operator binds: `x o (s)`, for a complete
/// expression `s`, is `(o x s)`; so `f . (a + b)` is `(. f (+ a b))`.
pub proof fn lemma_infix_takes_group(x: char, o: char, s: Seq<char>)
    requires
        ascii_alphanumeric(x),
        binary(o),
        parse_from(None, lex(s), 0) is Some,
        (parse_from(None, lex(s), 0)->0).0 is Some,
        (parse_from(None, lex(s), 0)->0).1.len() == 0,
    ensures
        expr_spec(seq![x, o, '('] + s + seq![')']) == Some(
            SExpr::Cons(o, seq![atom(x), expr_spec(s)->0]),
        ),
{
    let open = seq![x, o, '('];
    let close = seq![')'];
    let ws = |c: char| !ascii_whitespace(c);
    Seq::filter_distributes_over_add(open, s, ws);
    Seq::filter_distributes_over_add(open + s, close, ws);
    assert forall|i: int| 0 <= i < open.len() implies !ascii_whitespace(#[trigger] open[i]) by {}
    lemma_no_whitespace(open);
    reveal_with_fuel(Seq::<_>::filter, 2);
    assert(without_whitespace(close) =~= close);
    let toks = lex(open + s + close);
    assert(toks =~= seq![x] + (seq![o] + (seq!['('] + (lex(s) + close))));
    let e = (parse_from(None, lex(s), 0)->0).0->0;
    lemma_parse_from_suffix(None, lex(s), 0, close);
    assert((parse_from(None, lex(s), 0)->0).1 + close =~= close);
    let t1 = toks.drop_first();
    let t2 = t1.drop_first();
    let t3 = t2.drop_first();
    assert(t1 =~= seq![o] + (seq!['('] + (lex(s) + close)));
    assert(t2 =~= seq!['('] + (lex(s) + close));
    assert(t3 =~= lex(s) + close);
    let empty = Seq::<char>::empty();
    assert(close.drop_first() =~= empty);
    let (l, r) = binding_power_spec(o, false)->0;
    let ax = atom(x);
    assert(operands(None, None) =~= Seq::<SExpr>::empty());
    lemma_atom_takes_no_operand(t1);
    assert(parse_from(None, t3, 0) == Some((Some(e), close)));
    assert(parse_from(Some(e), empty, r) == Some((Some(e), empty)));
    assert(parse_from(None, t2, r) == Some((Some(e), empty)));
    let whole = SExpr::Cons(o, seq![ax, e]);
    assert(operands(Some(ax), Some(e)) =~= seq![ax, e]);
    assert(parse_from(Some(whole), empty, 0) == Some((Some(whole), empty)));
    assert(parse_from(Some(ax), t1, 0) == Some((Some(whole), empty)));
    assert(parse_from(None, toks, 0) == Some((Some(whole), empty)));
}

/// A postfix `!` binds more tightly than a prefix `+` or `-`: `-x!` is
/// `(- (! x))`.
pub proof fn lemma_prefix_then_postfix(p: char, x: char)
    requires
        p == '+' || p == '-',
        ascii_alphanumeric(x),
    ensures
        expr_spec(seq![p, x, '!']) == Some(
            SExpr::Cons(p, seq![SExpr::Cons('!', seq![atom(x)])]),
        ),
{
    let s = seq![p, x, '!'];
    assert forall|i: int| 0 <= i < s.len() implies !ascii_whitespace(#[trigger] s[i]) by {}
    lemma_no_whitespace(s);
    let t0 = lex(s);
    let t1 = t0.drop_first();
    let t2 = t1.drop_first();
    let t3 = t2.drop_first();
    assert(t1 =~= seq![x, '!']);
    assert(t2 =~= seq!['!']);
    assert(t3 =~= Seq::<char>::empty());
    let ax = atom(x);
    let bang = SExpr::Cons('!', seq![ax]);
    let whole = SExpr::Cons(p, seq![bang]);
    assert(operands(None, None) =~= Seq::<SExpr>::empty());
    assert(operands(Some(ax), None) =~= seq![ax]);
    assert(operands(None, Some(bang)) =~= seq![bang]);
    assert(parse_from(None, t3, 100) == Some((None::<SExpr>, t3)));
    assert(parse_from(None, t2, 100) == Some((None::<SExpr>, t2)));
    assert(parse_from(Some(bang), t3, 7) == Some((Some(bang), t3)));
    assert(parse_from(Some(ax), t2, 7) == Some((Some(bang), t3)));
    assert(parse_from(None, t1, 7) == Some((Some(bang), t3)));
    assert(parse_from(Some(whole), t3, 0) == Some((Some(whole), t3)));
    assert(parse_from(None, t0, 0) == Some((Some(whole), t3)));
}

/// `a` occurs in `b` in order, possibly with gaps: `f` maps the
/// positions of `a` to increasing positions of `b` that hold the same
/// values.
pub open spec fn embeds<A>(f: spec_fn(int) -> int, a: Seq<A>, b: Seq<A>) -> bool {
    &&& forall|i: int| 0 <= i < a.len() ==> 0 <= #[trigger] f(i) < b.len() && a[i] == b[f(i)]
    &&& forall|i: int, j: int| 0 <= i < j < a.len() ==> #[trigger] f(i) < #[trigger] f(j)
}

/// `a` is a subsequence of `b`.
pub open spec fn is_subseq<A>(a: Seq<A>, b: Seq<A>) -> bool {
    exists|f: spec_fn(int) -> int| embeds(f, a, b)
}

proof fn lemma_subseq_refl<A>(a: Seq<A>)
    ensures
        is_subseq(a, a),
{
    let f = |i: int| i;
    assert(embeds(f, a, a));
}

proof fn lemma_subseq_of_suffix<A>(x: Seq<A>, a: Seq<A>)
    ensures
        is_subseq(a, x + a),
{
    let f = |i: int| i + x.len();
    assert(embeds(f, a, x + a));
}

proof fn lemma_subseq_prepend<A>(x: Seq<A>, a: Seq<A>, b: Seq<A>)
    requires
        is_subseq(a, b),
    ensures
        is_subseq(x + a, x + b),
{
    let f = choose|f: spec_fn(int) -> int| embeds(f, a, b);
    let g = |i: int| if i < x.len() { i } else { f(i - x.len()) + x.len() };
    assert forall|i: int| 0 <= i < (x + a).len() implies 0 <= #[trigger] g(i) < (x + b).len() && (x
        + a)[i] == (x + b)[g(i)] by {
        if i >= x.len() {
            assert(0 <= f(i - x.len()) < b.len());
        }
    }
    assert forall|i: int, j: int| 0 <= i < j < (x + a).len() implies #[trigger] g(i) < #[trigger] g(
        j,
    ) by {
        if j >= x.len() {
            assert(0 <= f(j - x.len()) < b.len());
            if i >= x.len() {
                assert(f(i - x.len()) < f(j - x.len()));
            }
        }
    }
    assert(embeds(g, x + a, x + b));
}

proof fn lemma_subseq_trans<A>(a: Seq<A>, b: Seq<A>, c: Seq<A>)
    requires
        is_subseq(a, b),
        is_subseq(b, c),
    ensures
        is_subseq(a, c),
{
    let f = choose|f: spec_fn(int) -> int| embeds(f, a, b);
    let g = choose|g: spec_fn(int) -> int| embeds(g, b, c);
    let h = |i: int| g(f(i));
    assert forall|i: int| 0 <= i < a.len() implies 0 <= #[trigger] h(i) < c.len() && a[i] == c[h(i)] by {
        assert(0 <= f(i) < b.len());
        assert(0 <= g(f(i)) < c.len());
    }
    assert forall|i: int, j: int| 0 <= i < j < a.len() implies #[trigger] h(i) < #[trigger] h(j) by {
        assert(f(i) < f(j));
        assert(0 <= f(j) < b.len());
        assert(g(f(i)) < g(f(j)));
    }
    assert(embeds(h, a, c));
}

/// The atoms among `toks`, in order.
pub open spec fn token_atoms(toks: Seq<char>) -> Seq<char>
    decreases toks.len(),
{
    if toks.len() == 0 {
        Seq::empty()
    } else {
        let first = if ascii_alphanumeric(toks[0]) {
            seq![toks[0]]
        } else {
            Seq::empty()
        };
        first + token_atoms(toks.drop_first())
    }
}

/// The atoms of an expression, read from left to right: an atom that
/// took the expression before it as an operand comes after that operand.
pub open spec fn tree_atoms(e: SExpr) -> Seq<char>
    decreases e,
{
    match e {
        SExpr::Cons(head, args) => args_atoms(args) + if ascii_alphanumeric(head) {
            seq![head]
        } else {
            Seq::empty()
        },
    }
}

pub open spec fn args_atoms(args: Seq<SExpr>) -> Seq<char>
    decreases args,
{
    if args.len() == 0 {
        Seq::empty()
    } else {
        args_atoms(args.drop_last()) + tree_atoms(args.last())
    }
}

/// The atoms of an expression that may be absent.
pub open spec fn opt_atoms(e: Option<SExpr>) -> Seq<char> {
    match e {
        Some(e) => tree_atoms(e),
        None => Seq::empty(),
    }
}

proof fn lemma_operands_atoms(lhs: Option<SExpr>, rhs: Option<SExpr>)
    ensures
        args_atoms(operands(lhs, rhs)) == opt_atoms(lhs) + opt_atoms(rhs),
{
    let e = Seq::<SExpr>::empty();
    assert(args_atoms(e) == Seq::<char>::empty());
    match (lhs, rhs) {
        (Some(a), Some(b)) => {
            assert(operands(lhs, rhs) =~= seq![a, b]);
            assert(seq![a, b].drop_last() =~= seq![a]);
            assert(seq![a].drop_last() =~= e);
            assert(args_atoms(seq![a]) =~= tree_atoms(a));
            assert(args_atoms(seq![a, b]) =~= tree_atoms(a) + tree_atoms(b));
        },
        (Some(a), None) => {
            assert(operands(lhs, rhs) =~= seq![a]);
            assert(seq![a].drop_last() =~= e);
            assert(args_atoms(seq![a]) =~= tree_atoms(a));
            assert(opt_atoms(lhs) + opt_atoms(rhs) =~= tree_atoms(a));
        },
        (None, Some(b)) => {
            assert(operands(lhs, rhs) =~= seq![b]);
            assert(seq![b].drop_last() =~= e);
            assert(args_atoms(seq![b]) =~= tree_atoms(b));
            assert(opt_atoms(lhs) + opt_atoms(rhs) =~= tree_atoms(b));
        },
        (None, None) => {
            assert(operands(lhs, rhs) =~= e);
            assert(opt_atoms(lhs) + opt_atoms(rhs) =~= Seq::<char>::empty());
        },
    }
}

/// Nothing binds tightly enough to start the operand of an atom.
proof fn lemma_atom_takes_no_operand(toks: Seq<char>)
    ensures
        parse_from(None, toks, 100) == Some((None::<SExpr>, toks)),
{
}

/// Parsing keeps the atoms in order: the atoms of the expression, then
/// those of what is left over, occur in that order among the atoms of
/// the expression parsed before and of the input.
proof fn lemma_parse_from_atoms(lhs: Option<SExpr>, toks: Seq<char>, bp: u8)
    requires
        parse_from(lhs, toks, bp) is Some,
    ensures
        is_subseq(
            opt_atoms((parse_from(lhs, toks, bp)->0).0) + token_atoms(
                (parse_from(lhs, toks, bp)->0).1,
            ),
            opt_atoms(lhs) + token_atoms(toks),
        ),
    decreases toks.len(),
{
    let whole = opt_atoms(lhs) + token_atoms(toks);
    if toks.len() == 0 {
        lemma_subseq_refl(whole);
    } else {
        let token = toks[0];
        let rest = toks.drop_first();
        match binding_power_spec(token, lhs is None) {
            Some((l_bp, r_bp)) => {
                if bp <= l_bp {
                    let (rhs, r2) = parse_from(None, rest, r_bp)->0;
                    lemma_parse_from_atoms(None, rest, r_bp);
                    assert(opt_atoms(None) + token_atoms(rest) =~= token_atoms(rest));
                    if token == '(' {
                        let r3 = r2.drop_first();
                        assert(token_atoms(r2) =~= token_atoms(r3));
                        lemma_parse_from_atoms(rhs, r3, bp);
                        let (res, left) = parse_from(rhs, r3, bp)->0;
                        lemma_subseq_trans(
                            opt_atoms(res) + token_atoms(left),
                            opt_atoms(rhs) + token_atoms(r3),
                            token_atoms(rest),
                        );
                        assert(token_atoms(toks) =~= token_atoms(rest));
                        lemma_subseq_of_suffix(opt_atoms(lhs), token_atoms(toks));
                        lemma_subseq_trans(
                            opt_atoms(res) + token_atoms(left),
                            token_atoms(toks),
                            whole,
                        );
                    } else {
                        let next = SExpr::Cons(token, operands(lhs, rhs));
                        lemma_operands_atoms(lhs, rhs);
                        lemma_parse_from_atoms(Some(next), r2, bp);
                        let (res, left) = parse_from(Some(next), r2, bp)->0;
                        if ascii_alphanumeric(token) {
                            lemma_atom_takes_no_operand(rest);
                            assert(opt_atoms(Some(next)) + token_atoms(r2) =~= whole);
                        } else {
                            assert(token_atoms(toks) =~= token_atoms(rest));
                            lemma_subseq_prepend(
                                opt_atoms(lhs),
                                opt_atoms(rhs) + token_atoms(r2),
                                token_atoms(rest),
                            );
                            assert(opt_atoms(Some(next)) + token_atoms(r2) =~= opt_atoms(lhs) + (
                            opt_atoms(rhs) + token_atoms(r2)));
                            lemma_subseq_trans(
                                opt_atoms(res) + token_atoms(left),
                                opt_atoms(Some(next)) + token_atoms(r2),
                                whole,
                            );
                        }
                    }
                } else {
                    lemma_subseq_refl(whole);
                }
            },
            None => {
                lemma_subseq_refl(whole);
            },
        }
    }
}

/// Operands keep their order: read from left to right, the atoms of the
/// parsed expression, then those of the input left over, occur in the
/// same order among the atoms of the input. Some may be missing: a `(`
/// right after an expression drops that expression, so `a(b)` is `b`.
pub proof fn lemma_atoms_keep_order(input: Seq<char>)
    requires
        parse_from(None, lex(input), 0) is Some,
    ensures
        is_subseq(
            opt_atoms((parse_from(None, lex(input), 0)->0).0) + token_atoms(
                (parse_from(None, lex(input), 0)->0).1,
            ),
            token_atoms(lex(input)),
        ),
{
    lemma_parse_from_atoms(None, lex(input), 0);
    assert(opt_atoms(None) + token_atoms(lex(input)) =~= token_atoms(lex(input)));
}

} // verus!
