//! Dijkstra's shunting-yard algorithm: turns an infix expression into
//! reverse Polish notation, which prints as an S-expression.
use vstd::prelude::*;
use crate::text::{
    ascii_alphanumeric, ascii_whitespace, is_ascii_alphanumeric, is_ascii_whitespace,
    lemma_no_whitespace, lemma_without_whitespace_step, push_char, without_whitespace,
};

verus! {

/// The tokens of an expression in reverse Polish notation.
pub struct Output(Vec<Token>);

#[derive(Copy, Clone, PartialEq, Eq, Structural)]
pub struct Operator {
    pub token: char,
    pub precedence: u8,
    pub left_associative: bool,
}

#[derive(Copy, Clone, PartialEq, Eq, Structural)]
pub enum Token {
    Atom(char),
    Op(Operator),
    LeftParen,
    RightParen,
}

/// The lexer holds all tokens of the input, last one first.
pub struct Lexer {
    pub tokens: Vec<Token>,
}

/// The characters an expression may hold besides whitespace.
pub open spec fn valid_char(c: char) -> bool {
    ascii_alphanumeric(c) || c == '(' || c == ')' || c == '=' || c == '+' || c == '-' || c
        == '*' || c == '/' || c == '.'
}

pub open spec fn operator(token: char, precedence: u8, left_associative: bool) -> Token {
    Token::Op(Operator { token, precedence, left_associative })
}

/// The token of a valid character: `=` binds loosest, then `+ -`, then
/// `* /`, then the right-associative `.`.
pub open spec fn token_of(c: char) -> Token {
    if ascii_alphanumeric(c) {
        Token::Atom(c)
    } else if c == '(' {
        Token::LeftParen
    } else if c == ')' {
        Token::RightParen
    } else if c == '=' {
        operator('=', 1, true)
    } else if c == '+' {
        operator('+', 3, true)
    } else if c == '-' {
        operator('-', 3, true)
    } else if c == '*' {
        operator('*', 5, true)
    } else if c == '/' {
        operator('/', 5, true)
    } else {
        operator('.', 7, false)
    }
}

/// Every non-whitespace character of `input` is valid.
pub open spec fn lexable(input: Seq<char>) -> bool {
    forall|i: int| 0 <= i < without_whitespace(input).len() ==> valid_char(
        #[trigger] without_whitespace(input)[i],
    )
}

/// The tokens of `input`, in order.
pub open spec fn lex(input: Seq<char>) -> Seq<Token> {
    without_whitespace(input).map_values(|c: char| token_of(c))
}

/// Whether the operator on top of the stack goes to the output before
/// `op` is pushed: it binds tighter, or as tight and `op` is
/// left-associative.
pub open spec fn yields_to(prev: Operator, op: Operator) -> bool {
    prev.precedence > op.precedence || (prev.precedence == op.precedence && op.left_associative)
}

/// Moves operators from the top of the stack to the output while they
/// yield to `op`.
pub open spec fn pop_yielding(output: Seq<Token>, operators: Seq<Token>, op: Operator) -> (
    Seq<Token>,
    Seq<Token>,
)
    decreases operators.len(),
{
    if operators.len() > 0 && operators.last() is Op && yields_to(operators.last()->Op_0, op) {
        pop_yielding(output.push(operators.last()), operators.drop_last(), op)
    } else {
        (output, operators)
    }
}

/// Moves operators from the top of the stack to the output up to the
/// first `stop`, which is dropped; says whether `stop` was found.
pub open spec fn tilt(output: Seq<Token>, operators: Seq<Token>, stop: Token) -> (
    bool,
    Seq<Token>,
    Seq<Token>,
)
    decreases operators.len(),
{
    if operators.len() == 0 {
        (false, output, operators)
    } else if operators.last() == stop {
        (true, output, operators.drop_last())
    } else {
        tilt(output.push(operators.last()), operators.drop_last(), stop)
    }
}

/// The reverse Polish notation of `toks`, given what is already output
/// and the operator stack; `None` where parentheses do not match.
pub open spec fn shunt(toks: Seq<Token>, output: Seq<Token>, operators: Seq<Token>) -> Option<
    Seq<Token>,
>
    decreases toks.len(),
{
    if toks.len() == 0 {
        let (found, out, _) = tilt(output, operators, Token::LeftParen);
        if found {
            None
        } else {
            Some(out)
        }
    } else {
        let t = toks[0];
        let rest = toks.drop_first();
        match t {
            Token::Atom(_) => shunt(rest, output.push(t), operators),
            Token::LeftParen => shunt(rest, output, operators.push(t)),
            Token::Op(op) => {
                let (out, ops) = pop_yielding(output, operators, op);
                shunt(rest, out, ops.push(t))
            },
            Token::RightParen => {
                let (found, out, ops) = tilt(output, operators, Token::LeftParen);
                if found {
                    shunt(rest, out, ops)
                } else {
                    None
                }
            },
        }
    }
}

/// The reverse Polish notation of `input`, or `None` where its
/// parentheses do not match.
pub open spec fn expr_spec(input: Seq<char>) -> Option<Seq<Token>> {
    shunt(lex(input), Seq::empty(), Seq::empty())
}

/// Neither parenthesis occurs in `toks`.
pub open spec fn paren_free(toks: Seq<Token>) -> bool {
    forall|i: int| 0 <= i < toks.len() ==> (#[trigger] toks[i] is Atom || toks[i] is Op)
}

/// The printed operand stack after evaluating `toks` from the left: an
/// atom pushes itself, an operator combines the two topmost entries
/// `x`, `y` into `(op x y)` (with a single entry it drops it, with none
/// it does nothing); `None` where a parenthesis occurs.
pub open spec fn evaluate(toks: Seq<Token>) -> Option<Seq<Seq<char>>>
    decreases toks.len(),
{
    if toks.len() == 0 {
        Some(Seq::empty())
    } else {
        match evaluate(toks.drop_last()) {
            Some(stack) => evaluate_step(stack, toks.last()),
            None => None,
        }
    }
}

pub open spec fn evaluate_step(stack: Seq<Seq<char>>, t: Token) -> Option<Seq<Seq<char>>> {
    match t {
        Token::Atom(a) => Some(stack.push(seq![a])),
        Token::Op(op) => {
            if stack.len() >= 2 {
                let y = stack.last();
                let x = stack.drop_last().last();
                Some(
                    stack.drop_last().drop_last().push(
                        seq!['(', op.token, ' '] + x + seq![' '] + y + seq![')'],
                    ),
                )
            } else if stack.len() == 1 {
                Some(stack.drop_last())
            } else {
                Some(stack)
            }
        },
        _ => None,
    }
}

/// Whether `toks` evaluates to exactly one printed expression.
pub open spec fn printable(toks: Seq<Token>) -> bool {
    evaluate(toks) is Some && evaluate(toks)->0.len() == 1
}

impl View for Lexer {
    type V = Seq<Token>;

    /// The tokens not handed out yet, next one first.
    open spec fn view(&self) -> Seq<Token> {
        Seq::new(self.tokens@.len(), |i: int| self.tokens@[self.tokens@.len() - 1 - i])
    }
}

impl View for Output {
    type V = Seq<Token>;

    closed spec fn view(&self) -> Seq<Token> {
        self.0@
    }
}

impl Lexer {
    /// Splits `input` into tokens, skipping ASCII whitespace; any other
    /// character that is not a letter, a digit, a parenthesis or one of
    /// `= + - * / .` is an error.
    pub fn new(input: &str) -> (lexer: Lexer)
        requires
            lexable(input@),
        ensures
            lexer@ == lex(input@),
    {
        let mut fwd: Vec<Token> = Vec::new();
        let ghost chars = input@;
        for c in it: input.chars()
            invariant
                it.seq() == chars,
                lexable(chars),
                fwd@ == without_whitespace(chars.take(it.index() as int)).map_values(
                    |c: char| token_of(c),
                ),
        {
            let ghost i = it.index() as int;
            proof {
                lemma_without_whitespace_step(chars, i);
                lemma_without_whitespace_prefix(chars, i + 1);
            }
            let ghost prev = fwd@;
            if !is_ascii_whitespace(c) {
                proof {
                    let w = without_whitespace(chars.take(i + 1));
                    assert(w[w.len() - 1] == c);
                    assert(valid_char(without_whitespace(chars)[w.len() - 1]));
                    assert(valid_char(c));
                }
                let t = if is_ascii_alphanumeric(c) {
                    Token::Atom(c)
                } else if c == '(' {
                    Token::LeftParen
                } else if c == ')' {
                    Token::RightParen
                } else if c == '=' {
                    Token::Op(Operator { token: '=', precedence: 1, left_associative: true })
                } else if c == '+' {
                    Token::Op(Operator { token: '+', precedence: 3, left_associative: true })
                } else if c == '-' {
                    Token::Op(Operator { token: '-', precedence: 3, left_associative: true })
                } else if c == '*' {
                    Token::Op(Operator { token: '*', precedence: 5, left_associative: true })
                } else if c == '/' {
                    Token::Op(Operator { token: '/', precedence: 5, left_associative: true })
                } else {
                    Token::Op(Operator { token: '.', precedence: 7, left_associative: false })
                };
                fwd.push(t);
                proof {
                    let w = without_whitespace(chars.take(i));
                    assert(w.push(c).map_values(|c: char| token_of(c)) =~= prev.push(token_of(c)));
                }
            }
        }
        assert(chars.take(chars.len() as int) =~= chars);

        let ghost all = fwd@;
        let mut tokens: Vec<Token> = Vec::new();
        while fwd.len() > 0
            invariant
                fwd@ == all.take(fwd@.len() as int),
                fwd@.len() + tokens@.len() == all.len(),
                forall|i: int|
                    0 <= i < tokens@.len() ==> #[trigger] tokens@[i] == all[all.len() - 1 - i],
            decreases fwd@.len(),
        {
            let t = fwd.pop().unwrap();
            tokens.push(t);
            assert(fwd@ =~= all.take(fwd@.len() as int));
        }
        let lexer = Lexer { tokens };
        assert(lexer@ =~= all);
        lexer
    }

    /// Hands out the next token, if any.
    pub fn next(&mut self) -> (t: Option<Token>)
        ensures
            old(self)@.len() == 0 ==> t is None && final(self)@ == old(self)@,
            old(self)@.len() > 0 ==> t == Some(old(self)@[0]) && final(self)@
                == old(self)@.drop_first(),
    {
        let ghost before = self@;
        let r = self.tokens.pop();
        assert(before.len() > 0 ==> self@ =~= before.drop_first());
        r
    }
}

/// The whitespace-free prefix of a prefix of `s` is a prefix of the
/// whitespace-free `s`.
proof fn lemma_without_whitespace_prefix(s: Seq<char>, n: int)
    requires
        0 <= n <= s.len(),
    ensures
        without_whitespace(s.take(n)).len() <= without_whitespace(s).len(),
        forall|j: int|
            0 <= j < without_whitespace(s.take(n)).len() ==> #[trigger] without_whitespace(
                s.take(n),
            )[j] == without_whitespace(s)[j],
    decreases s.len() - n,
{
    if n < s.len() {
        lemma_without_whitespace_step(s, n);
        lemma_without_whitespace_prefix(s, n + 1);
        let a = without_whitespace(s.take(n));
        let b = without_whitespace(s.take(n + 1));
        assert forall|j: int| 0 <= j < a.len() implies #[trigger] a[j] == without_whitespace(
            s,
        )[j] by {
            assert(a[j] == b[j]);
        }
    } else {
        assert(s.take(n) =~= s);
    }
}

/// Parses `input` into reverse Polish notation.
pub fn expr(input: &str) -> (out: Output)
    requires
        lexable(input@),
        expr_spec(input@) is Some,
    ensures
        expr_spec(input@) == Some(out@),
        paren_free(out@),
{
    let mut lexer = Lexer::new(input);
    let out = parse(&mut lexer);
    Output(out)
}

/// Moves operators from `operators` to `output` up to the first `stop`,
/// which is dropped; says whether it was found.
fn tilt_until(operators: &mut Vec<Token>, output: &mut Vec<Token>, stop: Token) -> (found: bool)
    ensures
        (found, final(output)@, final(operators)@) == tilt(old(output)@, old(operators)@, stop),
{
    loop
        invariant
            tilt(output@, operators@, stop) == tilt(old(output)@, old(operators)@, stop),
        decreases operators@.len(),
    {
        match operators.pop() {
            Some(token) => {
                if token == stop {
                    return true;
                }
                output.push(token);
            },
            None => {
                return false;
            },
        }
    }
}

/// Every token of a sequence built from `toks` and the operator stack
/// is an atom or an operator, when the input and the output are.
proof fn lemma_tilt_paren_free(output: Seq<Token>, operators: Seq<Token>, stop: Token)
    requires
        paren_free(output),
        forall|i: int|
            0 <= i < operators.len() ==> (#[trigger] operators[i] is Op || operators[i]
                == stop),
    ensures
        paren_free(tilt(output, operators, stop).1),
        tilt(output, operators, stop).0 ==> forall|i: int|
            0 <= i < tilt(output, operators, stop).2.len() ==> (
            #[trigger] tilt(output, operators, stop).2[i] is Op || tilt(
                output,
                operators,
                stop,
            ).2[i] == stop),
    decreases operators.len(),
{
    if operators.len() > 0 && operators.last() != stop {
        let out2 = output.push(operators.last());
        assert forall|i: int| 0 <= i < out2.len() implies (#[trigger] out2[i] is Atom
            || out2[i] is Op) by {
            if i < output.len() {
                assert(out2[i] == output[i]);
            }
        }
        lemma_tilt_paren_free(out2, operators.drop_last(), stop);
    }
}

/// Moving yielding operators keeps the output free of parentheses and the
/// stack made of operators and `(`.
proof fn lemma_pop_yielding_shape(output: Seq<Token>, operators: Seq<Token>, op: Operator)
    requires
        paren_free(output),
        forall|i: int|
            0 <= i < operators.len() ==> (#[trigger] operators[i] is Op || operators[i]
                is LeftParen),
    ensures
        paren_free(pop_yielding(output, operators, op).0),
        forall|i: int|
            0 <= i < pop_yielding(output, operators, op).1.len() ==> (
            #[trigger] pop_yielding(output, operators, op).1[i] is Op || pop_yielding(
                output,
                operators,
                op,
            ).1[i] is LeftParen),
    decreases operators.len(),
{
    if operators.len() > 0 && operators.last() is Op && yields_to(operators.last()->Op_0, op) {
        let out2 = output.push(operators.last());
        assert forall|i: int| 0 <= i < out2.len() implies (#[trigger] out2[i] is Atom
            || out2[i] is Op) by {
            if i < output.len() {
                assert(out2[i] == output[i]);
            }
        }
        lemma_pop_yielding_shape(out2, operators.drop_last(), op);
    }
}

/// Operators go to the output, parentheses never do.
pub proof fn lemma_shunt_paren_free(toks: Seq<Token>, output: Seq<Token>, operators: Seq<Token>)
    requires
        paren_free(output),
        forall|i: int|
            0 <= i < operators.len() ==> (#[trigger] operators[i] is Op || operators[i]
                is LeftParen),
        shunt(toks, output, operators) is Some,
    ensures
        paren_free(shunt(toks, output, operators)->0),
    decreases toks.len(),
{
    if toks.len() == 0 {
        lemma_tilt_paren_free(output, operators, Token::LeftParen);
    } else {
        let t = toks[0];
        let rest = toks.drop_first();
        match t {
            Token::Atom(_) => {
                let out2 = output.push(t);
                assert forall|i: int| 0 <= i < out2.len() implies (#[trigger] out2[i] is Atom
                    || out2[i] is Op) by {
                    if i < output.len() {
                        assert(out2[i] == output[i]);
                    }
                }
                lemma_shunt_paren_free(rest, out2, operators);
            },
            Token::LeftParen => {
                let ops2 = operators.push(t);
                assert forall|i: int| 0 <= i < ops2.len() implies (#[trigger] ops2[i] is Op
                    || ops2[i] is LeftParen) by {
                    if i < operators.len() {
                        assert(ops2[i] == operators[i]);
                    }
                }
                lemma_shunt_paren_free(rest, output, ops2);
            },
            Token::Op(op) => {
                lemma_pop_yielding_shape(output, operators, op);
                let (out, ops) = pop_yielding(output, operators, op);
                let ops2 = ops.push(t);
                assert forall|i: int| 0 <= i < ops2.len() implies (#[trigger] ops2[i] is Op
                    || ops2[i] is LeftParen) by {
                    if i < ops.len() {
                        assert(ops2[i] == ops[i]);
                    }
                }
                lemma_shunt_paren_free(rest, out, ops2);
            },
            Token::RightParen => {
                lemma_tilt_paren_free(output, operators, Token::LeftParen);
                let (found, out, ops) = tilt(output, operators, Token::LeftParen);
                assert forall|i: int| 0 <= i < ops.len() implies (#[trigger] ops[i] is Op
                    || ops[i] is LeftParen) by {}
                lemma_shunt_paren_free(rest, out, ops);
            },
        }
    }
}

/// Moves operators from the top of `operators` to `output` while they
/// yield to `op`.
fn pop_while_yielding(operators: &mut Vec<Token>, output: &mut Vec<Token>, op: Operator)
    ensures
        (final(output)@, final(operators)@) == pop_yielding(old(output)@, old(operators)@, op),
{
    loop
        invariant
            pop_yielding(output@, operators@, op) == pop_yielding(
                old(output)@,
                old(operators)@,
                op,
            ),
        decreases operators@.len(),
    {
        let n = operators.len();
        if n == 0 {
            return ;
        }
        match operators[n - 1] {
            Token::Op(prev_op) => {
                let prev_prec = prev_op.precedence;
                let cur_prec = op.precedence;
                if (prev_prec > cur_prec) || (prev_prec == cur_prec && op.left_associative) {
                    let popped = operators.pop().unwrap();
                    output.push(popped);
                } else {
                    return ;
                }
            },
            _ => {
                return ;
            },
        }
    }
}

/// Runs the shunting-yard algorithm over all of the lexer's tokens.
fn parse(lexer: &mut Lexer) -> (out: Vec<Token>)
    requires
        shunt(old(lexer)@, Seq::empty(), Seq::empty()) is Some,
    ensures
        shunt(old(lexer)@, Seq::empty(), Seq::empty()) == Some(out@),
        paren_free(out@),
        final(lexer)@.len() == 0,
{
    let mut output: Vec<Token> = Vec::new();
    let mut operators: Vec<Token> = Vec::new();
    let ghost all = lexer@;
    proof {
        lemma_shunt_paren_free(all, Seq::empty(), Seq::empty());
    }

    loop
        invariant
            all == old(lexer)@,
            paren_free(shunt(all, Seq::empty(), Seq::empty())->0),
            shunt(lexer@, output@, operators@) == shunt(all, Seq::empty(), Seq::empty()),
            shunt(all, Seq::empty(), Seq::empty()) is Some,
        decreases lexer@.len(),
    {
        let token = match lexer.next() {
            Some(token) => token,
            None => {
                let _unmatched = tilt_until(&mut operators, &mut output, Token::LeftParen);
                return output;
            },
        };
        match token {
            Token::Atom(_) => output.push(token),
            Token::LeftParen => operators.push(token),
            Token::Op(op) => {
                pop_while_yielding(&mut operators, &mut output, op);
                operators.push(token);
            },
            Token::RightParen => {
                let _found = tilt_until(&mut operators, &mut output, Token::LeftParen);
            },
        }
    }
}

/// The printed form of a token: an atom or an operator prints as its
/// character, a parenthesis prints as nothing.
pub open spec fn token_text(t: Token) -> Seq<char> {
    match t {
        Token::Atom(a) => seq![a],
        Token::Op(op) => seq![op.token],
        _ => Seq::empty(),
    }
}

impl Operator {
    /// The operator's character.
    pub fn to_string(&self) -> (r: String)
        ensures
            r@ == seq![self.token],
    {
        let mut s = String::new();
        push_char(&mut s, self.token);
        s
    }
}

impl Token {
    /// The token's character; empty for a parenthesis.
    pub fn to_string(&self) -> (r: String)
        ensures
            r@ == token_text(*self),
    {
        match self {
            Token::Atom(val) => {
                let mut s = String::new();
                push_char(&mut s, *val);
                s
            },
            Token::Op(op) => op.to_string(),
            _ => String::new(),
        }
    }
}

impl Output {
    /// The printed S-expression of the reverse Polish notation, e.g.
    /// `(+ 1 (* 2 3))`.
    pub fn to_string(&self) -> (r: String)
        requires
            printable(self@),
        ensures
            r@ == evaluate(self@)->0[0],
    {
        let toks = &self.0;
        let mut stack: Vec<String> = Vec::new();
        let mut i: usize = 0;
        assert(toks@.take(toks@.len() as int) =~= toks@);
        proof {
            lemma_evaluate_prefix(toks@, toks@.len() as int);
        }
        while i < toks.len()
            invariant
                0 <= i <= toks@.len(),
                toks@ == self@,
                forall|k: int| 0 <= k <= toks@.len() ==> #[trigger] evaluate(toks@.take(k)) is Some,
                evaluate(toks@.take(i as int)) == Some(stack@.map_values(|s: String| s@)),
            decreases toks@.len() - i,
        {
            let ghost before = stack@.map_values(|s: String| s@);
            assert(toks@.take(i + 1).drop_last() =~= toks@.take(i as int));
            let token = toks[i];
            match token {
                Token::Atom(atom) => {
                    let mut s = String::new();
                    push_char(&mut s, atom);
                    stack.push(s);
                    assert(stack@.map_values(|s: String| s@) =~= before.push(seq![atom]));
                },
                Token::Op(op) => {
                    let ghost sv = stack@;
                    if let Some(y) = stack.pop() {
                        if let Some(x) = stack.pop() {
                            assert(y == sv.last());
                            assert(x == sv.drop_last().last());
                            let mut s = String::new();
                            push_char(&mut s, '(');
                            push_char(&mut s, op.token);
                            push_char(&mut s, ' ');
                            s.append(x.as_str());
                            push_char(&mut s, ' ');
                            s.append(y.as_str());
                            push_char(&mut s, ')');
                            stack.push(s);
                            assert(stack@ == sv.drop_last().drop_last().push(s));
                            assert(s@ == seq!['(', op.token, ' '] + x@ + seq![' '] + y@ + seq![')']);
                            assert(stack@.map_values(|s: String| s@) =~= before.drop_last().drop_last().push(
                                seq!['(', op.token, ' '] + x@ + seq![' '] + y@ + seq![')'],
                            ));
                        } else {
                            assert(stack@.map_values(|s: String| s@) =~= before.drop_last());
                        }
                    } else {
                        assert(stack@.map_values(|s: String| s@) =~= before);
                    }
                },
                _ => {
                    proof {
                        assert(evaluate(toks@.take(i + 1)) is None);
                        assert(false);
                    }
                },
            }
            i = i + 1;
        }
        assert(toks@.take(toks@.len() as int) =~= toks@);
        stack.pop().unwrap()
    }
}

/// A sequence that evaluates has every prefix evaluate.
proof fn lemma_evaluate_prefix(toks: Seq<Token>, n: int)
    requires
        0 <= n <= toks.len(),
        evaluate(toks.take(n)) is Some,
    ensures
        forall|k: int| 0 <= k <= n ==> #[trigger] evaluate(toks.take(k)) is Some,
    decreases n,
{
    if n > 0 {
        assert(toks.take(n).drop_last() =~= toks.take(n - 1));
        lemma_evaluate_prefix(toks, n - 1);
    }
}

/// Whitespace does not matter: inputs that differ only in ASCII
/// whitespace parse alike.
pub proof fn lemma_whitespace_insensitive(a: Seq<char>, b: Seq<char>)
    requires
        without_whitespace(a) == without_whitespace(b),
    ensures
        lex(a) == lex(b),
        lexable(a) == lexable(b),
        expr_spec(a) == expr_spec(b),
{
}

/// The operators that join two operands.
pub open spec fn binary(op: char) -> bool {
    op == '=' || op == '+' || op == '-' || op == '*' || op == '/' || op == '.'
}

/// `x o1 y o2 z` groups as `(x o1 y) o2 z` exactly when `o1` goes to the
/// output before `o2` is pushed.
pub open spec fn groups_left(o1: char, o2: char) -> bool {
    yields_to(token_of(o1)->Op_0, token_of(o2)->Op_0)
}

/// The reverse Polish notation of `x o1 y o2 z`, grouped to the left or
/// to the right.
pub open spec fn two_operator_rpn(x: char, o1: char, y: char, o2: char, z: char, left: bool) -> Seq<
    Token,
> {
    if left {
        seq![Token::Atom(x), Token::Atom(y), token_of(o1), Token::Atom(z), token_of(o2)]
    } else {
        seq![Token::Atom(x), Token::Atom(y), Token::Atom(z), token_of(o2), token_of(o1)]
    }
}

/// The printed form of `x o1 y o2 z`, grouped to the left or to the right.
pub open spec fn two_operator_text(x: char, o1: char, y: char, o2: char, z: char, left: bool) -> Seq<
    char,
> {
    if left {
        seq!['(', o2, ' ', '(', o1, ' ', x, ' ', y, ')', ' ', z, ')']
    } else {
        seq!['(', o1, ' ', x, ' ', '(', o2, ' ', y, ' ', z, ')', ')']
    }
}

/// How tightly a binary operator binds, loosest first: `=`, then `+ -`,
/// then `* /`, then `.`.
pub open spec fn precedence_level(op: char) -> int {
    if op == '=' {
        1
    } else if op == '+' || op == '-' {
        2
    } else if op == '*' || op == '/' {
        3
    } else {
        4
    }
}

/// Precedence and associativity: of two binary operators between three
/// atoms, the one that binds more tightly takes the middle atom; between
/// operators of equal precedence, all but `.` group to the left. The
/// result prints as one S-expression.
pub proof fn lemma_two_operators(x: char, o1: char, y: char, o2: char, z: char)
    requires
        ascii_alphanumeric(x),
        ascii_alphanumeric(y),
        ascii_alphanumeric(z),
        binary(o1),
        binary(o2),
    ensures
        lexable(seq![x, o1, y, o2, z]),
        expr_spec(seq![x, o1, y, o2, z]) == Some(
            two_operator_rpn(x, o1, y, o2, z, groups_left(o1, o2)),
        ),
        printable(two_operator_rpn(x, o1, y, o2, z, groups_left(o1, o2))),
        evaluate(two_operator_rpn(x, o1, y, o2, z, groups_left(o1, o2)))->0[0]
            == two_operator_text(x, o1, y, o2, z, groups_left(o1, o2)),
{
    let s = seq![x, o1, y, o2, z];
    assert forall|i: int| 0 <= i < s.len() implies !ascii_whitespace(#[trigger] s[i]) by {}
    lemma_no_whitespace(s);
    assert(lexable(s));
    let t0 = lex(s);
    let (tx, ty, tz, p1, p2) = (
        Token::Atom(x),
        Token::Atom(y),
        Token::Atom(z),
        token_of(o1),
        token_of(o2),
    );
    let op1 = p1->Op_0;
    let op2 = p2->Op_0;
    assert(t0 =~= seq![tx, p1, ty, p2, tz]);
    let t1 = t0.drop_first();
    let t2 = t1.drop_first();
    let t3 = t2.drop_first();
    let t4 = t3.drop_first();
    let t5 = t4.drop_first();
    assert(t1 =~= seq![p1, ty, p2, tz]);
    assert(t2 =~= seq![ty, p2, tz]);
    assert(t3 =~= seq![p2, tz]);
    assert(t4 =~= seq![tz]);
    assert(t5 =~= Seq::<Token>::empty());
    let e = Seq::<Token>::empty();
    assert(pop_yielding(seq![tx], e, op1) == (seq![tx], e));
    assert(e.push(p1) =~= seq![p1]);
    assert(seq![tx].push(ty) =~= seq![tx, ty]);
    let left = groups_left(o1, o2);
    let rpn = two_operator_rpn(x, o1, y, o2, z, left);
    if left {
        assert(seq![tx, ty].push(p1) =~= seq![tx, ty, p1]);
        assert(seq![p1].drop_last() =~= e);
        assert(pop_yielding(seq![tx, ty, p1], e, op2) == (seq![tx, ty, p1], e));
        assert(pop_yielding(seq![tx, ty], seq![p1], op2) == (seq![tx, ty, p1], e));
        assert(seq![tx, ty, p1].push(tz) =~= seq![tx, ty, p1, tz]);
        assert(seq![tx, ty, p1, tz].push(p2) =~= rpn);
        assert(seq![p2].drop_last() =~= e);
        assert(tilt(rpn, e, Token::LeftParen) == (false, rpn, e));
        assert(tilt(seq![tx, ty, p1, tz], seq![p2], Token::LeftParen) == (false, rpn, e));
        assert(shunt(t5, seq![tx, ty, p1, tz], seq![p2]) == Some(rpn));
        assert(shunt(t4, seq![tx, ty, p1], seq![p2]) == Some(rpn));
        assert(e.push(p2) =~= seq![p2]);
        assert(shunt(t3, seq![tx, ty], seq![p1]) == Some(rpn));
        assert(shunt(t2, seq![tx], seq![p1]) == Some(rpn));
        assert(shunt(t1, seq![tx], e) == Some(rpn));
        assert(e.push(tx) =~= seq![tx]);
        assert(shunt(t0, e, e) == Some(rpn));
        assert(rpn.drop_last() =~= seq![tx, ty, p1, tz]);
        assert(seq![tx, ty, p1, tz].drop_last() =~= seq![tx, ty, p1]);
        assert(seq![tx, ty, p1].drop_last() =~= seq![tx, ty]);
        assert(seq![tx, ty].drop_last() =~= seq![tx]);
        assert(seq![tx].drop_last() =~= e);
        let sx = seq![x];
        let sy = seq![y];
        let sz = seq![z];
        let inner = seq!['(', o1, ' '] + sx + seq![' '] + sy + seq![')'];
        let whole = seq!['(', o2, ' '] + inner + seq![' '] + sz + seq![')'];
        let es = Seq::<Seq<char>>::empty();
        assert(es.push(sx) =~= seq![sx]);
        assert(evaluate(e) == Some(es));
        assert(evaluate(seq![tx]) == Some(seq![sx]));
        assert(seq![sx].push(sy) =~= seq![sx, sy]);
        assert(evaluate(seq![tx, ty]) == Some(seq![sx, sy]));
        assert(seq![sx, sy].drop_last().drop_last() =~= es);
        assert(es.push(inner) =~= seq![inner]);
        assert(evaluate(seq![tx, ty, p1]) == Some(seq![inner]));
        assert(seq![inner].push(sz) =~= seq![inner, sz]);
        assert(evaluate(seq![tx, ty, p1, tz]) == Some(seq![inner, sz]));
        assert(seq![inner, sz].drop_last().drop_last() =~= es);
        assert(es.push(whole) =~= seq![whole]);
        assert(evaluate(rpn) == Some(seq![whole]));
        assert(whole =~= two_operator_text(x, o1, y, o2, z, left));
    } else {
        assert(pop_yielding(seq![tx, ty], seq![p1], op2) == (seq![tx, ty], seq![p1]));
        assert(seq![p1].push(p2) =~= seq![p1, p2]);
        assert(seq![tx, ty].push(tz) =~= seq![tx, ty, tz]);
        assert(seq![p1, p2].drop_last() =~= seq![p1]);
        assert(seq![p1].drop_last() =~= e);
        assert(seq![tx, ty, tz].push(p2) =~= seq![tx, ty, tz, p2]);
        assert(seq![tx, ty, tz, p2].push(p1) =~= rpn);
        assert(tilt(rpn, e, Token::LeftParen) == (false, rpn, e));
        assert(tilt(seq![tx, ty, tz, p2], seq![p1], Token::LeftParen) == (false, rpn, e));
        assert(tilt(seq![tx, ty, tz], seq![p1, p2], Token::LeftParen) == (false, rpn, e));
        assert(shunt(t5, seq![tx, ty, tz], seq![p1, p2]) == Some(rpn));
        assert(shunt(t4, seq![tx, ty], seq![p1, p2]) == Some(rpn));
        assert(shunt(t3, seq![tx, ty], seq![p1]) == Some(rpn));
        assert(shunt(t2, seq![tx], seq![p1]) == Some(rpn));
        assert(shunt(t1, seq![tx], e) == Some(rpn));
        assert(e.push(tx) =~= seq![tx]);
        assert(shunt(t0, e, e) == Some(rpn));
        assert(rpn.drop_last() =~= seq![tx, ty, tz, p2]);
        assert(seq![tx, ty, tz, p2].drop_last() =~= seq![tx, ty, tz]);
        assert(seq![tx, ty, tz].drop_last() =~= seq![tx, ty]);
        assert(seq![tx, ty].drop_last() =~= seq![tx]);
        assert(seq![tx].drop_last() =~= e);
        let sx = seq![x];
        let sy = seq![y];
        let sz = seq![z];
        let inner = seq!['(', o2, ' '] + sy + seq![' '] + sz + seq![')'];
        let whole = seq!['(', o1, ' '] + sx + seq![' '] + inner + seq![')'];
        let es = Seq::<Seq<char>>::empty();
        assert(es.push(sx) =~= seq![sx]);
        assert(evaluate(e) == Some(es));
        assert(evaluate(seq![tx]) == Some(seq![sx]));
        assert(seq![sx].push(sy) =~= seq![sx, sy]);
        assert(evaluate(seq![tx, ty]) == Some(seq![sx, sy]));
        assert(seq![sx, sy].push(sz) =~= seq![sx, sy, sz]);
        assert(evaluate(seq![tx, ty, tz]) == Some(seq![sx, sy, sz]));
        assert(seq![sx, sy, sz].drop_last().drop_last() =~= seq![sx]);
        assert(seq![sx].push(inner) =~= seq![sx, inner]);
        assert(evaluate(seq![tx, ty, tz, p2]) == Some(seq![sx, inner]));
        assert(seq![sx, inner].drop_last().drop_last() =~= es);
        assert(es.push(whole) =~= seq![whole]);
        assert(evaluate(rpn) == Some(seq![whole]));
        assert(whole =~= two_operator_text(x, o1, y, o2, z, left));
    }
}

/// The grammar's precedence and associativity: in `x o1 y o2 z` the
/// middle atom goes to the operator of the higher level; between
/// operators of one level only `.` groups to the right. The result
/// prints accordingly.
pub proof fn lemma_precedence_levels(x: char, o1: char, y: char, o2: char, z: char)
    requires
        ascii_alphanumeric(x),
        ascii_alphanumeric(y),
        ascii_alphanumeric(z),
        o1 == '=' || o1 == '+' || o1 == '-' || o1 == '*' || o1 == '/' || o1 == '.',
        o2 == '=' || o2 == '+' || o2 == '-' || o2 == '*' || o2 == '/' || o2 == '.',
    ensures
        expr_spec(seq![x, o1, y, o2, z]) is Some,
        evaluate(expr_spec(seq![x, o1, y, o2, z])->0) is Some,
        evaluate(expr_spec(seq![x, o1, y, o2, z])->0)->0[0] == two_operator_text(
            x,
            o1,
            y,
            o2,
            z,
            precedence_level(o1) > precedence_level(o2) || (precedence_level(o1)
                == precedence_level(o2) && o2 != '.'),
        ),
{
    lemma_two_operators(x, o1, y, o2, z);
}

/// A `(` at the bottom of the operator stack stops the popping of
/// yielding operators as the bottom of the stack does.
proof fn lemma_pop_yielding_under_paren(output: Seq<Token>, operators: Seq<Token>, op: Operator)
    ensures
        pop_yielding(output, seq![Token::LeftParen] + operators, op) == (
            pop_yielding(output, operators, op).0,
            seq![Token::LeftParen] + pop_yielding(output, operators, op).1,
        ),
    decreases operators.len(),
{
    let ops = seq![Token::LeftParen] + operators;
    if operators.len() > 0 {
        assert(ops.last() == operators.last());
        assert(ops.drop_last() =~= seq![Token::LeftParen] + operators.drop_last());
        lemma_pop_yielding_under_paren(output.push(operators.last()), operators.drop_last(), op);
    } else {
        assert(ops =~= seq![Token::LeftParen]);
    }
}

/// Moving operators up to a `(` that lies above an extra `(` at the
/// bottom leaves that extra `(`; not finding one reaches it.
proof fn lemma_tilt_under_paren(output: Seq<Token>, operators: Seq<Token>)
    ensures
        tilt(output, operators, Token::LeftParen).0 ==> tilt(
            output,
            seq![Token::LeftParen] + operators,
            Token::LeftParen,
        ) == (
            true,
            tilt(output, operators, Token::LeftParen).1,
            seq![Token::LeftParen] + tilt(output, operators, Token::LeftParen).2,
        ),
        !tilt(output, operators, Token::LeftParen).0 ==> tilt(
            output,
            seq![Token::LeftParen] + operators,
            Token::LeftParen,
        ) == (true, tilt(output, operators, Token::LeftParen).1, Seq::<Token>::empty()),
    decreases operators.len(),
{
    let ops = seq![Token::LeftParen] + operators;
    if operators.len() > 0 {
        assert(ops.last() == operators.last());
        assert(ops.drop_last() =~= seq![Token::LeftParen] + operators.drop_last());
        if operators.last() != Token::LeftParen {
            lemma_tilt_under_paren(output.push(operators.last()), operators.drop_last());
        }
    } else {
        assert(ops =~= seq![Token::LeftParen]);
        assert(ops.drop_last() =~= Seq::<Token>::empty());
    }
}

/// Wrapping the rest of the input in parentheses (the `(` already on the
/// operator stack, the `)` appended) changes nothing for a balanced rest.
proof fn lemma_shunt_in_parens(toks: Seq<Token>, output: Seq<Token>, operators: Seq<Token>)
    requires
        shunt(toks, output, operators) is Some,
    ensures
        shunt(toks + seq![Token::RightParen], output, seq![Token::LeftParen] + operators)
            == shunt(toks, output, operators),
    decreases toks.len(),
{
    let all = toks + seq![Token::RightParen];
    let lp = seq![Token::LeftParen];
    if toks.len() == 0 {
        assert(all =~= seq![Token::RightParen]);
        lemma_tilt_under_paren(output, operators);
        let (_, out, _) = tilt(output, operators, Token::LeftParen);
        assert(all.drop_first() =~= Seq::<Token>::empty());
        assert(tilt(out, Seq::<Token>::empty(), Token::LeftParen) == (
            false,
            out,
            Seq::<Token>::empty(),
        ));
        assert(shunt(Seq::<Token>::empty(), out, Seq::<Token>::empty()) == Some(out));
        assert(shunt(toks, output, operators) == Some(out));
        assert(shunt(all, output, lp + operators) == Some(out));
    } else {
        let t = toks[0];
        let rest = toks.drop_first();
        assert(all[0] == t);
        assert(all.drop_first() =~= rest + seq![Token::RightParen]);
        match t {
            Token::Atom(_) => {
                lemma_shunt_in_parens(rest, output.push(t), operators);
            },
            Token::LeftParen => {
                assert((lp + operators).push(t) =~= lp + operators.push(t));
                lemma_shunt_in_parens(rest, output, operators.push(t));
            },
            Token::Op(op) => {
                lemma_pop_yielding_under_paren(output, operators, op);
                let (out, ops) = pop_yielding(output, operators, op);
                assert((lp + ops).push(t) =~= lp + ops.push(t));
                lemma_shunt_in_parens(rest, out, ops.push(t));
            },
            Token::RightParen => {
                lemma_tilt_under_paren(output, operators);
                let (_, out, ops) = tilt(output, operators, Token::LeftParen);
                lemma_shunt_in_parens(rest, out, ops);
            },
        }
    }
}

/// Parentheses around a balanced expression change nothing.
pub proof fn lemma_parenthesized(s: Seq<char>)
    requires
        expr_spec(s) is Some,
    ensures
        lexable(seq!['('] + s + seq![')']) == lexable(s),
        expr_spec(seq!['('] + s + seq![')']) == expr_spec(s),
{
    let open = seq!['('];
    let close = seq![')'];
    let ws = |c: char| !ascii_whitespace(c);
    Seq::filter_distributes_over_add(open, s, ws);
    Seq::filter_distributes_over_add(open + s, close, ws);
    reveal_with_fuel(Seq::<_>::filter, 2);
    assert(without_whitespace(open) =~= open);
    assert(without_whitespace(close) =~= close);
    let w = without_whitespace(s);
    let all = seq!['('] + s + seq![')'];
    assert(without_whitespace(all) =~= open + w + close);
    assert(lexable(all) == lexable(s)) by {
        if lexable(s) {
            assert forall|i: int| 0 <= i < without_whitespace(all).len() implies valid_char(
                #[trigger] without_whitespace(all)[i],
            ) by {
                if 0 < i < without_whitespace(all).len() - 1 {
                    assert(without_whitespace(all)[i] == w[i - 1]);
                }
            }
        }
        if lexable(all) {
            assert forall|i: int| 0 <= i < w.len() implies valid_char(#[trigger] w[i]) by {
                assert(without_whitespace(all)[i + 1] == w[i]);
            }
        }
    }
    let toks = lex(all);
    let e = Seq::<Token>::empty();
    assert(toks =~= seq![Token::LeftParen] + (lex(s) + seq![Token::RightParen]));
    assert(toks.drop_first() =~= lex(s) + seq![Token::RightParen]);
    assert(e.push(Token::LeftParen) =~= seq![Token::LeftParen] + e);
    lemma_shunt_in_parens(lex(s), e, e);
}

/// The atoms among `toks`, in order.
pub open spec fn token_atoms(toks: Seq<Token>) -> Seq<char>
    decreases toks.len(),
{
    if toks.len() == 0 {
        Seq::empty()
    } else {
        match toks[0] {
            Token::Atom(a) => seq![a] + token_atoms(toks.drop_first()),
            _ => token_atoms(toks.drop_first()),
        }
    }
}

proof fn lemma_token_atoms_push(toks: Seq<Token>, t: Token)
    ensures
        token_atoms(toks.push(t)) == token_atoms(toks) + token_atoms(seq![t]),
    decreases toks.len(),
{
    assert(seq![t].drop_first() =~= Seq::<Token>::empty());
    if toks.len() > 0 {
        assert(toks.push(t).drop_first() =~= toks.drop_first().push(t));
        lemma_token_atoms_push(toks.drop_first(), t);
        assert(token_atoms(toks.push(t)) =~= token_atoms(toks) + token_atoms(seq![t]));
    } else {
        assert(toks.push(t) =~= seq![t]);
        assert(token_atoms(toks.push(t)) =~= token_atoms(toks) + token_atoms(seq![t]));
    }
}

/// An operator or a parenthesis alone holds no atom.
proof fn lemma_token_atoms_single(t: Token)
    ensures
        token_atoms(seq![t]) == (match t {
            Token::Atom(a) => seq![a],
            _ => Seq::<char>::empty(),
        }),
{
    assert(seq![t].drop_first() =~= Seq::<Token>::empty());
    assert(token_atoms(Seq::<Token>::empty()) == Seq::<char>::empty());
    assert(token_atoms(seq![t]) =~= (match t {
        Token::Atom(a) => seq![a],
        _ => Seq::<char>::empty(),
    }));
}

/// Moving yielding operators moves no atom, and leaves a stack of
/// operators and `(`.
proof fn lemma_pop_yielding_atoms(output: Seq<Token>, operators: Seq<Token>, op: Operator)
    requires
        forall|i: int|
            0 <= i < operators.len() ==> (#[trigger] operators[i] is Op || operators[i]
                is LeftParen),
    ensures
        token_atoms(pop_yielding(output, operators, op).0) == token_atoms(output),
        forall|i: int|
            0 <= i < pop_yielding(output, operators, op).1.len() ==> (
            #[trigger] pop_yielding(output, operators, op).1[i] is Op || pop_yielding(
                output,
                operators,
                op,
            ).1[i] is LeftParen),
    decreases operators.len(),
{
    if operators.len() > 0 && operators.last() is Op && yields_to(operators.last()->Op_0, op) {
        let t = operators.last();
        lemma_token_atoms_push(output, t);
        lemma_token_atoms_single(t);
        assert(token_atoms(output.push(t)) =~= token_atoms(output));
        let ops2 = operators.drop_last();
        assert forall|i: int| 0 <= i < ops2.len() implies (#[trigger] ops2[i] is Op
            || ops2[i] is LeftParen) by {
            assert(ops2[i] == operators[i]);
        }
        lemma_pop_yielding_atoms(output.push(t), ops2, op);
    }
}

/// Moving operators up to a `(` moves no atom when the stack holds only
/// operators and `(`.
proof fn lemma_tilt_atoms(output: Seq<Token>, operators: Seq<Token>)
    requires
        forall|i: int|
            0 <= i < operators.len() ==> (#[trigger] operators[i] is Op || operators[i]
                is LeftParen),
    ensures
        token_atoms(tilt(output, operators, Token::LeftParen).1) == token_atoms(output),
        forall|i: int|
            0 <= i < tilt(output, operators, Token::LeftParen).2.len() ==> (#[trigger] tilt(
                output,
                operators,
                Token::LeftParen,
            ).2[i] is Op || tilt(output, operators, Token::LeftParen).2[i] is LeftParen),
    decreases operators.len(),
{
    if operators.len() > 0 && operators.last() != Token::LeftParen {
        let t = operators.last();
        assert(operators[operators.len() - 1] == t);
        lemma_token_atoms_push(output, t);
        lemma_token_atoms_single(t);
        assert(token_atoms(output.push(t)) =~= token_atoms(output));
        let ops2 = operators.drop_last();
        assert forall|i: int| 0 <= i < ops2.len() implies (#[trigger] ops2[i] is Op
            || ops2[i] is LeftParen) by {
            assert(ops2[i] == operators[i]);
        }
        lemma_tilt_atoms(output.push(t), ops2);
    } else if operators.len() > 0 {
        let ops2 = operators.drop_last();
        assert forall|i: int| 0 <= i < ops2.len() implies (#[trigger] ops2[i] is Op
            || ops2[i] is LeftParen) by {
            assert(ops2[i] == operators[i]);
        }
    }
}

proof fn lemma_shunt_atoms(toks: Seq<Token>, output: Seq<Token>, operators: Seq<Token>)
    requires
        shunt(toks, output, operators) is Some,
        forall|i: int|
            0 <= i < operators.len() ==> (#[trigger] operators[i] is Op || operators[i]
                is LeftParen),
    ensures
        token_atoms(shunt(toks, output, operators)->0) == token_atoms(output) + token_atoms(toks),
    decreases toks.len(),
{
    if toks.len() == 0 {
        lemma_tilt_atoms(output, operators);
        assert(token_atoms(output) + token_atoms(toks) =~= token_atoms(output));
    } else {
        let t = toks[0];
        let rest = toks.drop_first();
        match t {
            Token::Atom(a) => {
                lemma_token_atoms_push(output, t);
                lemma_token_atoms_single(t);
                assert(token_atoms(toks) == seq![a] + token_atoms(rest));
                lemma_shunt_atoms(rest, output.push(t), operators);
                assert(token_atoms(output.push(t)) + token_atoms(rest) =~= token_atoms(output)
                    + token_atoms(toks));
            },
            Token::LeftParen => {
                let ops2 = operators.push(t);
                assert forall|i: int| 0 <= i < ops2.len() implies (#[trigger] ops2[i] is Op
                    || ops2[i] is LeftParen) by {
                    if i < operators.len() {
                        assert(ops2[i] == operators[i]);
                    }
                }
                lemma_shunt_atoms(rest, output, ops2);
            },
            Token::Op(op) => {
                lemma_pop_yielding_atoms(output, operators, op);
                let (out, ops) = pop_yielding(output, operators, op);
                let ops2 = ops.push(t);
                assert forall|i: int| 0 <= i < ops2.len() implies (#[trigger] ops2[i] is Op
                    || ops2[i] is LeftParen) by {
                    if i < ops.len() {
                        assert(ops2[i] == ops[i]);
                    }
                }
                lemma_shunt_atoms(rest, out, ops2);
            },
            Token::RightParen => {
                lemma_tilt_atoms(output, operators);
                let (found, out, ops) = tilt(output, operators, Token::LeftParen);
                assert forall|i: int| 0 <= i < ops.len() implies (#[trigger] ops[i] is Op
                    || ops[i] is LeftParen) by {}
                lemma_shunt_atoms(rest, out, ops);
            },
        }
    }
}

/// Operands keep their order: the atoms of the reverse Polish notation
/// are those of the input, in the same order.
pub proof fn lemma_atoms_keep_order(input: Seq<char>)
    requires
        expr_spec(input) is Some,
    ensures
        token_atoms(expr_spec(input)->0) == token_atoms(lex(input)),
{
    let e = Seq::<Token>::empty();
    lemma_shunt_atoms(lex(input), e, e);
    assert(token_atoms(e) + token_atoms(lex(input)) =~= token_atoms(lex(input)));
}

/// How often `t` occurs in `toks`.
pub open spec fn occurrences(toks: Seq<Token>, t: Token) -> nat
    decreases toks.len(),
{
    if toks.len() == 0 {
        0
    } else {
        (if toks[0] == t {
            1nat
        } else {
            0nat
        }) + occurrences(toks.drop_first(), t)
    }
}

proof fn lemma_occurrences_push(toks: Seq<Token>, x: Token, t: Token)
    ensures
        occurrences(toks.push(x), t) == occurrences(toks, t) + (if x == t {
            1nat
        } else {
            0nat
        }),
    decreases toks.len(),
{
    if toks.len() > 0 {
        assert(toks.push(x).drop_first() =~= toks.drop_first().push(x));
        lemma_occurrences_push(toks.drop_first(), x, t);
    } else {
        assert(toks.push(x).drop_first() =~= Seq::<Token>::empty());
        assert(occurrences(Seq::<Token>::empty(), t) == 0);
        assert(toks.push(x)[0] == x);
    }
}

proof fn lemma_occurrences_drop_last(toks: Seq<Token>, t: Token)
    requires
        toks.len() > 0,
    ensures
        occurrences(toks, t) == occurrences(toks.drop_last(), t) + (if toks.last() == t {
            1nat
        } else {
            0nat
        }),
{
    lemma_occurrences_push(toks.drop_last(), toks.last(), t);
    assert(toks.drop_last().push(toks.last()) =~= toks);
}

/// Moving yielding operators keeps every operator, on one side or the other.
proof fn lemma_pop_yielding_occurrences(output: Seq<Token>, operators: Seq<Token>, op: Operator, t: Token)
    ensures
        occurrences(pop_yielding(output, operators, op).0, t) + occurrences(
            pop_yielding(output, operators, op).1,
            t,
        ) == occurrences(output, t) + occurrences(operators, t),
    decreases operators.len(),
{
    if operators.len() > 0 && operators.last() is Op && yields_to(operators.last()->Op_0, op) {
        lemma_occurrences_push(output, operators.last(), t);
        lemma_occurrences_drop_last(operators, t);
        lemma_pop_yielding_occurrences(output.push(operators.last()), operators.drop_last(), op, t);
    }
}

/// Moving operators up to a `(` keeps every token but that `(`; not
/// finding one empties the stack.
proof fn lemma_tilt_occurrences(output: Seq<Token>, operators: Seq<Token>, t: Token)
    requires
        t != Token::LeftParen,
    ensures
        occurrences(tilt(output, operators, Token::LeftParen).1, t) + occurrences(
            tilt(output, operators, Token::LeftParen).2,
            t,
        ) == occurrences(output, t) + occurrences(operators, t),
        !tilt(output, operators, Token::LeftParen).0 ==> tilt(
            output,
            operators,
            Token::LeftParen,
        ).2.len() == 0,
    decreases operators.len(),
{
    if operators.len() > 0 {
        lemma_occurrences_drop_last(operators, t);
        if operators.last() != Token::LeftParen {
            lemma_occurrences_push(output, operators.last(), t);
            lemma_tilt_occurrences(output.push(operators.last()), operators.drop_last(), t);
        }
    }
}

proof fn lemma_shunt_occurrences(toks: Seq<Token>, output: Seq<Token>, operators: Seq<Token>, t: Token)
    requires
        shunt(toks, output, operators) is Some,
        t is Op,
    ensures
        occurrences(shunt(toks, output, operators)->0, t) == occurrences(output, t) + occurrences(
            operators,
            t,
        ) + occurrences(toks, t),
    decreases toks.len(),
{
    if toks.len() == 0 {
        lemma_tilt_occurrences(output, operators, t);
        let ops = tilt(output, operators, Token::LeftParen).2;
        assert(occurrences(ops, t) == 0);
    } else {
        let x = toks[0];
        let rest = toks.drop_first();
        match x {
            Token::Atom(_) => {
                lemma_occurrences_push(output, x, t);
                lemma_shunt_occurrences(rest, output.push(x), operators, t);
            },
            Token::LeftParen => {
                lemma_occurrences_push(operators, x, t);
                lemma_shunt_occurrences(rest, output, operators.push(x), t);
            },
            Token::Op(op) => {
                lemma_pop_yielding_occurrences(output, operators, op, t);
                let (out, ops) = pop_yielding(output, operators, op);
                lemma_occurrences_push(ops, x, t);
                lemma_shunt_occurrences(rest, out, ops.push(x), t);
            },
            Token::RightParen => {
                lemma_tilt_occurrences(output, operators, t);
                let (_, out, ops) = tilt(output, operators, Token::LeftParen);
                lemma_shunt_occurrences(rest, out, ops, t);
            },
        }
    }
}

/// Every operator of the input occurs in the reverse Polish notation as
/// often as in the input: the operators are kept as a multiset.
pub proof fn lemma_operators_kept(input: Seq<char>, t: Token)
    requires
        expr_spec(input) is Some,
        t is Op,
    ensures
        occurrences(expr_spec(input)->0, t) == occurrences(lex(input), t),
{
    let e = Seq::<Token>::empty();
    lemma_shunt_occurrences(lex(input), e, e, t);
}

} // verus!
