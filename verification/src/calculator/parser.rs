use crate::calculator::error::CalcError;
use crate::calculator::names::{Constant, Function};
use crate::calculator::token::{slots_exist, token_views, Token};
use vstd::prelude::*;

verus! {

/// The operators of two operands.
#[derive(Debug, Clone, Copy, PartialEq, Eq, Structural)]
pub enum BinaryOp {
    Add,
    Sub,
    Mul,
    Div,
    Rem,
    Pow,
}

/// One step of an expression in postfix order: an operand to put on the
/// stack, or an operation on the values on top of it. `S` is the type of the
/// text of a numeral.
#[derive(Debug, Clone, PartialEq)]
pub enum Instr<S> {
    Number(S),
    Constant(Constant),
    Memory(usize),
    LastResult,
    Negate,
    Binary(BinaryOp),
    Call(Function),
}

impl View for Instr<String> {
    type V = Instr<Seq<char>>;

    open spec fn view(&self) -> Instr<Seq<char>> {
        match *self {
            Instr::Number(text) => Instr::Number(text@),
            Instr::Constant(c) => Instr::Constant(c),
            Instr::Memory(slot) => Instr::Memory(slot),
            Instr::LastResult => Instr::LastResult,
            Instr::Negate => Instr::Negate,
            Instr::Binary(op) => Instr::Binary(op),
            Instr::Call(f) => Instr::Call(f),
        }
    }
}

/// The steps of a program value, as specifications see them.
pub open spec fn code_view(code: Seq<Instr<String>>) -> Seq<Instr<Seq<char>>> {
    code.map_values(|i: Instr<String>| i@)
}

/// What parsing one construct gives: the steps that it emitted, in order,
/// until it finished or failed; the number of tokens that it took, where it
/// finished; and the error, where it failed.
pub struct Parsed {
    pub code: Seq<Instr<Seq<char>>>,
    pub used: nat,
    pub fault: Option<CalcError<Seq<char>>>,
}

/// A construct that failed with `e` after emitting `code`.
pub open spec fn failed(code: Seq<Instr<Seq<char>>>, e: CalcError<Seq<char>>) -> Parsed {
    Parsed { code, used: 0, fault: Some(e) }
}

/// A construct that took `used` tokens and emitted `code`.
pub open spec fn finished(code: Seq<Instr<Seq<char>>>, used: nat) -> Parsed {
    Parsed { code, used, fault: None }
}

/// The number of tokens from `pos` to the end.
pub open spec fn rest(tokens: Seq<Token<Seq<char>>>, pos: nat) -> nat {
    if pos < tokens.len() {
        (tokens.len() - pos) as nat
    } else {
        0
    }
}

/// The token `token` stands at `pos`.
pub open spec fn at(tokens: Seq<Token<Seq<char>>>, pos: nat, token: Token<Seq<char>>) -> bool {
    pos < tokens.len() && tokens[pos as int] == token
}

/// The operator of a sum that stands at `pos`, if one does.
pub open spec fn additive_at(tokens: Seq<Token<Seq<char>>>, pos: nat) -> Option<BinaryOp> {
    if at(tokens, pos, Token::Operator('+')) {
        Some(BinaryOp::Add)
    } else if at(tokens, pos, Token::Operator('-')) {
        Some(BinaryOp::Sub)
    } else {
        None
    }
}

/// The operator of a product that stands at `pos`, if one does.
pub open spec fn multiplicative_at(tokens: Seq<Token<Seq<char>>>, pos: nat) -> Option<BinaryOp> {
    if at(tokens, pos, Token::Operator('*')) {
        Some(BinaryOp::Mul)
    } else if at(tokens, pos, Token::Operator('/')) {
        Some(BinaryOp::Div)
    } else if at(tokens, pos, Token::Operator('%')) {
        Some(BinaryOp::Rem)
    } else {
        None
    }
}

/// factor := NUMBER | '(' addition ')' | FUNCTION '(' addition ')' | MEMORY
/// | CONSTANT | '_'
#[verifier::opaque]
pub open spec fn factor(tokens: Seq<Token<Seq<char>>>, pos: nat) -> Parsed
    decreases rest(tokens, pos), 0nat,
{
    if pos >= tokens.len() {
        failed(Seq::empty(), CalcError::UnexpectedEnd)
    } else {
        match tokens[pos as int] {
            Token::Number(text) => finished(seq![Instr::Number(text)], 1),
            Token::LeftParen => {
                let inner = addition(tokens, pos + 1);
                if inner.fault is Some {
                    inner
                } else if !at(tokens, pos + 1 + inner.used, Token::RightParen) {
                    failed(inner.code, CalcError::ExpectedClosingParenthesis)
                } else {
                    finished(inner.code, 2 + inner.used)
                }
            },
            Token::Function(name) => match Function::spec_from_name(name) {
                None => failed(Seq::empty(), CalcError::UnknownFunction(name)),
                Some(f) => {
                    if !at(tokens, pos + 1, Token::LeftParen) {
                        failed(Seq::empty(), CalcError::MissingParentheses(name))
                    } else {
                        let inner = addition(tokens, pos + 2);
                        if inner.fault is Some {
                            inner
                        } else if !at(tokens, pos + 2 + inner.used, Token::RightParen) {
                            failed(inner.code, CalcError::ExpectedClosingParenthesis)
                        } else {
                            finished(inner.code.push(Instr::Call(f)), 3 + inner.used)
                        }
                    }
                },
            },
            Token::Memory(slot) => finished(seq![Instr::Memory(slot)], 1),
            Token::Constant(name) => match Constant::spec_from_name(name) {
                Some(c) => finished(seq![Instr::Constant(c)], 1),
                None => failed(Seq::empty(), CalcError::UnknownConstant(name)),
            },
            Token::LastResult => finished(seq![Instr::LastResult], 1),
            Token::EOF => failed(Seq::empty(), CalcError::UnexpectedEnd),
            _ => failed(Seq::empty(), CalcError::ExpectedOperand),
        }
    }
}

/// unary := ('+' | '-') unary | factor
#[verifier::opaque]
pub open spec fn unary(tokens: Seq<Token<Seq<char>>>, pos: nat) -> Parsed
    decreases rest(tokens, pos), 1nat,
{
    if at(tokens, pos, Token::Operator('-')) {
        let operand = unary(tokens, pos + 1);
        if operand.fault is Some {
            operand
        } else {
            finished(operand.code.push(Instr::Negate), 1 + operand.used)
        }
    } else if at(tokens, pos, Token::Operator('+')) {
        let operand = unary(tokens, pos + 1);
        if operand.fault is Some {
            operand
        } else {
            finished(operand.code, 1 + operand.used)
        }
    } else {
        factor(tokens, pos)
    }
}

/// power := unary ('**' power)?
#[verifier::opaque]
pub open spec fn power(tokens: Seq<Token<Seq<char>>>, pos: nat) -> Parsed
    decreases rest(tokens, pos), 2nat,
{
    let base = unary(tokens, pos);
    if base.fault is Some {
        base
    } else if at(tokens, pos + base.used, Token::Power) {
        let exponent = power(tokens, pos + base.used + 1);
        if exponent.fault is Some {
            failed(base.code + exponent.code, exponent.fault->Some_0)
        } else {
            finished(
                (base.code + exponent.code).push(Instr::Binary(BinaryOp::Pow)),
                base.used + 1 + exponent.used,
            )
        }
    } else {
        base
    }
}

/// (('*' | '/' | '%') power)*
#[verifier::opaque]
pub open spec fn multiplication_tail(tokens: Seq<Token<Seq<char>>>, pos: nat) -> Parsed
    decreases rest(tokens, pos), 3nat,
{
    match multiplicative_at(tokens, pos) {
        None => finished(Seq::empty(), 0),
        Some(op) => {
            let right = power(tokens, pos + 1);
            if right.fault is Some {
                right
            } else {
                let more = multiplication_tail(tokens, pos + 1 + right.used);
                Parsed {
                    code: right.code.push(Instr::Binary(op)) + more.code,
                    used: 1 + right.used + more.used,
                    fault: more.fault,
                }
            }
        },
    }
}

/// multiplication := power (('*' | '/' | '%') power)*
#[verifier::opaque]
pub open spec fn multiplication(tokens: Seq<Token<Seq<char>>>, pos: nat) -> Parsed
    decreases rest(tokens, pos), 4nat,
{
    let first = power(tokens, pos);
    if first.fault is Some {
        first
    } else {
        let more = multiplication_tail(tokens, pos + first.used);
        Parsed { code: first.code + more.code, used: first.used + more.used, fault: more.fault }
    }
}

/// (('+' | '-') multiplication)*
#[verifier::opaque]
pub open spec fn addition_tail(tokens: Seq<Token<Seq<char>>>, pos: nat) -> Parsed
    decreases rest(tokens, pos), 5nat,
{
    match additive_at(tokens, pos) {
        None => finished(Seq::empty(), 0),
        Some(op) => {
            let right = multiplication(tokens, pos + 1);
            if right.fault is Some {
                right
            } else {
                let more = addition_tail(tokens, pos + 1 + right.used);
                Parsed {
                    code: right.code.push(Instr::Binary(op)) + more.code,
                    used: 1 + right.used + more.used,
                    fault: more.fault,
                }
            }
        },
    }
}

/// addition := multiplication (('+' | '-') multiplication)*
#[verifier::opaque]
pub open spec fn addition(tokens: Seq<Token<Seq<char>>>, pos: nat) -> Parsed
    decreases rest(tokens, pos), 6nat,
{
    let first = multiplication(tokens, pos);
    if first.fault is Some {
        first
    } else {
        let more = addition_tail(tokens, pos + first.used);
        Parsed { code: first.code + more.code, used: first.used + more.used, fault: more.fault }
    }
}

/// expression := addition
pub open spec fn expression(tokens: Seq<Token<Seq<char>>>, pos: nat) -> Parsed {
    addition(tokens, pos)
}

/// A whole line: an expression from the first token on, after which only the
/// end of the input may stand.
pub open spec fn whole(tokens: Seq<Token<Seq<char>>>) -> Parsed {
    let body = expression(tokens, 0);
    if body.fault is None && body.used + 1 < tokens.len() {
        failed(body.code, CalcError::UnexpectedTokens)
    } else {
        body
    }
}

/// The depth of the stack after one step that starts at depth `d`, or `None`
/// where the step lacks its operands or names a memory slot that is none.
pub open spec fn step_depth(step: Instr<Seq<char>>, d: nat) -> Option<nat> {
    match step {
        Instr::Number(_) | Instr::Constant(_) | Instr::LastResult => Some(d + 1),
        Instr::Memory(slot) => if slot < 10 {
            Some(d + 1)
        } else {
            None
        },
        Instr::Negate | Instr::Call(_) => if d >= 1 {
            Some(d)
        } else {
            None
        },
        Instr::Binary(_) => if d >= 2 {
            Some((d - 1) as nat)
        } else {
            None
        },
    }
}

/// The depth of the stack after all of `code`, started at depth `d`, or `None`
/// where some step cannot be taken.
pub open spec fn depth_after(code: Seq<Instr<Seq<char>>>, d: nat) -> Option<nat>
    decreases code.len(),
{
    if code.len() == 0 {
        Some(d)
    } else {
        match depth_after(code.drop_last(), d) {
            None => None,
            Some(e) => step_depth(code.last(), e),
        }
    }
}

/// The steps of an operand: each can be taken, none reaches below the stack
/// that it found, and a finished operand leaves one value more.
pub open spec fn well_stacked(p: Parsed) -> bool {
    forall|d: nat|
        match #[trigger] depth_after(p.code, d) {
            Some(e) => e >= d && (p.fault is None ==> e == d + 1),
            None => false,
        }
}

/// The steps of the operators that follow a first operand: they find its
/// value on the stack and, where they finish, leave one value in its place.
pub open spec fn tail_stacked(p: Parsed) -> bool {
    forall|d: nat|
        d >= 1 ==> match #[trigger] depth_after(p.code, d) {
            Some(e) => e >= d && (p.fault is None ==> e == d),
            None => false,
        }
}

/// The depth after one step more.
pub proof fn lemma_depth_push(code: Seq<Instr<Seq<char>>>, step: Instr<Seq<char>>, d: nat)
    ensures
        depth_after(code.push(step), d) == match depth_after(code, d) {
            None => None,
            Some(e) => step_depth(step, e),
        },
{
    assert(code.push(step).drop_last() =~= code);
}

/// The depth after steps that follow other steps.
pub proof fn lemma_depth_concat(a: Seq<Instr<Seq<char>>>, b: Seq<Instr<Seq<char>>>, d: nat)
    ensures
        depth_after(a + b, d) == match depth_after(a, d) {
            None => None,
            Some(e) => depth_after(b, e),
        },
    decreases b.len(),
{
    if b.len() == 0 {
        assert(a + b =~= a);
    } else {
        lemma_depth_concat(a, b.drop_last(), d);
        assert((a + b).drop_last() =~= a + b.drop_last());
    }
}

/// Every beginning of steps that can all be taken can be taken.
pub proof fn lemma_depth_prefix(code: Seq<Instr<Seq<char>>>, k: int, d: nat)
    requires
        0 <= k <= code.len(),
        depth_after(code, d) is Some,
    ensures
        depth_after(code.take(k), d) is Some,
    decreases code.len() - k,
{
    if k == code.len() {
        assert(code.take(k) =~= code);
    } else {
        lemma_depth_prefix(code.drop_last(), k, d);
        assert(code.drop_last().take(k) =~= code.take(k));
    }
}

/// The depth after a single step.
proof fn lemma_depth_single(step: Instr<Seq<char>>, d: nat)
    ensures
        depth_after(seq![step], d) == step_depth(step, d),
{
    lemma_depth_push(Seq::empty(), step, d);
    assert(Seq::<Instr<Seq<char>>>::empty().push(step) =~= seq![step]);
}

/// An operand followed by an operation on it alone is an operand.
proof fn lemma_stacked_then_unary(inner: Parsed, step: Instr<Seq<char>>)
    requires
        well_stacked(inner),
        inner.fault is None,
        step is Negate || step is Call,
    ensures
        well_stacked(finished(inner.code.push(step), 1)),
{
    assert forall|d: nat|
        match #[trigger] depth_after(inner.code.push(step), d) {
            Some(e) => e == d + 1,
            None => false,
        } by {
        lemma_depth_push(inner.code, step, d);
        assert(depth_after(inner.code, d) == Some(d + 1));
    }
}

/// Two operands followed by an operation on both are an operand; where the
/// second failed, what was emitted can still be run.
proof fn lemma_stacked_pair(left: Parsed, right: Parsed, op: BinaryOp)
    requires
        well_stacked(left),
        left.fault is None,
        well_stacked(right),
    ensures
        right.fault is Some ==> well_stacked(failed(left.code + right.code, right.fault->Some_0)),
        right.fault is None ==> well_stacked(
            finished((left.code + right.code).push(Instr::Binary(op)), 1),
        ),
{
    assert forall|d: nat|
        match #[trigger] depth_after(left.code + right.code, d) {
            Some(e) => e >= d && (right.fault is None ==> e == d + 2),
            None => false,
        } by {
        lemma_depth_concat(left.code, right.code, d);
        assert(depth_after(left.code, d) == Some(d + 1));
        assert(depth_after(right.code, d + 1) is Some);
    }
    if right.fault is None {
        assert forall|d: nat|
            match #[trigger] depth_after(
                (left.code + right.code).push(Instr::Binary(op)),
                d,
            ) {
                Some(e) => e == d + 1,
                None => false,
            } by {
            lemma_depth_push(left.code + right.code, Instr::Binary(op), d);
            assert(depth_after(left.code + right.code, d) is Some);
        }
    }
}

/// One more operand and its operator, followed by further such turns, leave
/// the stack as the turns before them found it.
proof fn lemma_stacked_turn(right: Parsed, op: BinaryOp, more: Parsed)
    requires
        well_stacked(right),
        right.fault is None,
        tail_stacked(more),
    ensures
        tail_stacked(
            Parsed {
                code: right.code.push(Instr::Binary(op)) + more.code,
                used: 1 + right.used + more.used,
                fault: more.fault,
            },
        ),
{
    let turn = right.code.push(Instr::Binary(op));
    assert forall|d: nat| d >= 1 implies match #[trigger] depth_after(turn + more.code, d) {
        Some(e) => e >= d && (more.fault is None ==> e == d),
        None => false,
    } by {
        lemma_depth_push(right.code, Instr::Binary(op), d);
        assert(depth_after(right.code, d) == Some(d + 1));
        lemma_depth_concat(turn, more.code, d);
        assert(depth_after(more.code, d) is Some);
    }
}

/// A first operand followed by the turns of its operators is an operand.
proof fn lemma_stacked_chain(first: Parsed, more: Parsed)
    requires
        well_stacked(first),
        first.fault is None,
        tail_stacked(more),
    ensures
        well_stacked(
            Parsed {
                code: first.code + more.code,
                used: first.used + more.used,
                fault: more.fault,
            },
        ),
{
    assert forall|d: nat|
        match #[trigger] depth_after(first.code + more.code, d) {
            Some(e) => e >= d && (more.fault is None ==> e == d + 1),
            None => false,
        } by {
        lemma_depth_concat(first.code, more.code, d);
        assert(depth_after(first.code, d) == Some(d + 1));
        assert(depth_after(more.code, d + 1) is Some);
    }
}

/// No steps leave the stack as it is.
proof fn lemma_stacked_nothing()
    ensures
        tail_stacked(finished(Seq::empty(), 0)),
        forall|e: CalcError<Seq<char>>| well_stacked(#[trigger] failed(Seq::empty(), e)),
{
    assert forall|d: nat| #[trigger]
        depth_after(Seq::<Instr<Seq<char>>>::empty(), d) == Some(d) by {}
}

/// A step that puts one value on the stack is an operand.
proof fn lemma_stacked_operand(step: Instr<Seq<char>>)
    requires
        step_depth(step, 0) == Some(1nat),
    ensures
        well_stacked(finished(seq![step], 1)),
{
    assert forall|d: nat| #[trigger] depth_after(seq![step], d) == Some(d + 1) by {
        lemma_depth_single(step, d);
    }
}

/// What can be run as the steps of `p` can be run as the steps of `q`, which
/// emitted the same and finished only if `p` did.
proof fn lemma_stacked_same(p: Parsed, q: Parsed)
    requires
        well_stacked(p),
        p.code == q.code,
        q.fault is None ==> p.fault is None,
    ensures
        well_stacked(q),
{
    assert forall|d: nat|
        match #[trigger] depth_after(q.code, d) {
            Some(e) => e >= d && (q.fault is None ==> e == d + 1),
            None => false,
        } by {
        assert(depth_after(p.code, d) is Some);
    }
}

/// The steps of a factor are those of an operand.
proof fn lemma_factor_stacked(tokens: Seq<Token<Seq<char>>>, pos: nat)
    requires
        slots_exist(tokens),
    ensures
        well_stacked(factor(tokens, pos)),
    decreases rest(tokens, pos), 0nat,
{
    reveal(factor);
    reveal(unary);
    reveal(power);
    reveal(multiplication_tail);
    reveal(multiplication);
    reveal(addition_tail);
    reveal(addition);
    lemma_stacked_nothing();
    if pos < tokens.len() {
        match tokens[pos as int] {
            Token::Number(text) => {
                lemma_stacked_operand(Instr::Number(text));
            },
            Token::LeftParen => {
                let inner = addition(tokens, pos + 1);
                lemma_addition_stacked(tokens, pos + 1);
                lemma_stacked_same(inner, failed(inner.code, CalcError::ExpectedClosingParenthesis));
                if inner.fault is None {
                    lemma_stacked_same(inner, finished(inner.code, 2 + inner.used));
                }
            },
            Token::Function(name) => {
                if let Some(f) = Function::spec_from_name(name) {
                    if at(tokens, pos + 1, Token::LeftParen) {
                        let inner = addition(tokens, pos + 2);
                        lemma_addition_stacked(tokens, pos + 2);
                        if inner.fault is None {
                            lemma_stacked_same(
                                inner,
                                failed(inner.code, CalcError::ExpectedClosingParenthesis),
                            );
                            lemma_stacked_then_unary(inner, Instr::Call(f));
                            lemma_stacked_same(
                                finished(inner.code.push(Instr::Call(f)), 1),
                                finished(inner.code.push(Instr::Call(f)), 3 + inner.used),
                            );
                        }
                    }
                }
            },
            Token::Memory(slot) => {
                lemma_stacked_operand(Instr::Memory(slot));
            },
            Token::Constant(name) => {
                if let Some(c) = Constant::spec_from_name(name) {
                    lemma_stacked_operand(Instr::Constant(c));
                }
            },
            Token::LastResult => {
                lemma_stacked_operand(Instr::LastResult);
            },
            _ => {},
        }
    }
}

/// The steps of a signed operand are those of an operand.
proof fn lemma_unary_stacked(tokens: Seq<Token<Seq<char>>>, pos: nat)
    requires
        slots_exist(tokens),
    ensures
        well_stacked(unary(tokens, pos)),
    decreases rest(tokens, pos), 1nat,
{
    reveal(factor);
    reveal(unary);
    reveal(power);
    reveal(multiplication_tail);
    reveal(multiplication);
    reveal(addition_tail);
    reveal(addition);
    if at(tokens, pos, Token::Operator('-')) {
        let operand = unary(tokens, pos + 1);
        lemma_unary_stacked(tokens, pos + 1);
        if operand.fault is None {
            lemma_stacked_then_unary(operand, Instr::Negate);
            lemma_stacked_same(
                finished(operand.code.push(Instr::Negate), 1),
                finished(operand.code.push(Instr::Negate), 1 + operand.used),
            );
        }
    } else if at(tokens, pos, Token::Operator('+')) {
        let operand = unary(tokens, pos + 1);
        lemma_unary_stacked(tokens, pos + 1);
        if operand.fault is None {
            lemma_stacked_same(operand, finished(operand.code, 1 + operand.used));
        }
    } else {
        lemma_factor_stacked(tokens, pos);
    }
}

/// The steps of a power are those of an operand.
proof fn lemma_power_stacked(tokens: Seq<Token<Seq<char>>>, pos: nat)
    requires
        slots_exist(tokens),
    ensures
        well_stacked(power(tokens, pos)),
    decreases rest(tokens, pos), 2nat,
{
    reveal(factor);
    reveal(unary);
    reveal(power);
    reveal(multiplication_tail);
    reveal(multiplication);
    reveal(addition_tail);
    reveal(addition);
    let base = unary(tokens, pos);
    lemma_unary_stacked(tokens, pos);
    if base.fault is None && at(tokens, pos + base.used, Token::Power) {
        let exponent = power(tokens, pos + base.used + 1);
        lemma_power_stacked(tokens, pos + base.used + 1);
        lemma_stacked_pair(base, exponent, BinaryOp::Pow);
        if exponent.fault is None {
            lemma_stacked_same(
                finished((base.code + exponent.code).push(Instr::Binary(BinaryOp::Pow)), 1),
                power(tokens, pos),
            );
        } else {
            lemma_stacked_same(
                failed(base.code + exponent.code, exponent.fault->Some_0),
                power(tokens, pos),
            );
        }
    }
}

/// The steps of the further factors of a product find its first operand.
proof fn lemma_multiplication_tail_stacked(tokens: Seq<Token<Seq<char>>>, pos: nat)
    requires
        slots_exist(tokens),
    ensures
        tail_stacked(multiplication_tail(tokens, pos)),
    decreases rest(tokens, pos), 3nat,
{
    reveal(factor);
    reveal(unary);
    reveal(power);
    reveal(multiplication_tail);
    reveal(multiplication);
    reveal(addition_tail);
    reveal(addition);
    lemma_stacked_nothing();
    if let Some(op) = multiplicative_at(tokens, pos) {
        let right = power(tokens, pos + 1);
        lemma_power_stacked(tokens, pos + 1);
        if right.fault is None {
            lemma_multiplication_tail_stacked(tokens, pos + 1 + right.used);
            lemma_stacked_turn(right, op, multiplication_tail(tokens, pos + 1 + right.used));
        }
    }
}

/// The steps of a product are those of an operand.
proof fn lemma_multiplication_stacked(tokens: Seq<Token<Seq<char>>>, pos: nat)
    requires
        slots_exist(tokens),
    ensures
        well_stacked(multiplication(tokens, pos)),
    decreases rest(tokens, pos), 4nat,
{
    reveal(factor);
    reveal(unary);
    reveal(power);
    reveal(multiplication_tail);
    reveal(multiplication);
    reveal(addition_tail);
    reveal(addition);
    let first = power(tokens, pos);
    lemma_power_stacked(tokens, pos);
    if first.fault is None {
        lemma_multiplication_tail_stacked(tokens, pos + first.used);
        lemma_stacked_chain(first, multiplication_tail(tokens, pos + first.used));
    }
}

/// The steps of the further terms of a sum find its first operand.
proof fn lemma_addition_tail_stacked(tokens: Seq<Token<Seq<char>>>, pos: nat)
    requires
        slots_exist(tokens),
    ensures
        tail_stacked(addition_tail(tokens, pos)),
    decreases rest(tokens, pos), 5nat,
{
    reveal(factor);
    reveal(unary);
    reveal(power);
    reveal(multiplication_tail);
    reveal(multiplication);
    reveal(addition_tail);
    reveal(addition);
    lemma_stacked_nothing();
    if let Some(op) = additive_at(tokens, pos) {
        let right = multiplication(tokens, pos + 1);
        lemma_multiplication_stacked(tokens, pos + 1);
        if right.fault is None {
            lemma_addition_tail_stacked(tokens, pos + 1 + right.used);
            lemma_stacked_turn(right, op, addition_tail(tokens, pos + 1 + right.used));
        }
    }
}

/// The steps of a sum are those of an operand.
proof fn lemma_addition_stacked(tokens: Seq<Token<Seq<char>>>, pos: nat)
    requires
        slots_exist(tokens),
    ensures
        well_stacked(addition(tokens, pos)),
    decreases rest(tokens, pos), 6nat,
{
    reveal(factor);
    reveal(unary);
    reveal(power);
    reveal(multiplication_tail);
    reveal(multiplication);
    reveal(addition_tail);
    reveal(addition);
    let first = multiplication(tokens, pos);
    lemma_multiplication_stacked(tokens, pos);
    if first.fault is None {
        lemma_addition_tail_stacked(tokens, pos + first.used);
        lemma_stacked_chain(first, addition_tail(tokens, pos + first.used));
    }
}

/// The steps of a whole line can all be taken from an empty stack, and where
/// the line parsed they leave exactly one value.
pub proof fn lemma_whole_stacked(tokens: Seq<Token<Seq<char>>>)
    requires
        slots_exist(tokens),
    ensures
        well_stacked(whole(tokens)),
{
    lemma_addition_stacked(tokens, 0);
    let body = expression(tokens, 0);
    lemma_stacked_same(body, whole(tokens));
}

/// What a parsing function did, against what the grammar says of the tokens
/// at its position: the steps that it appended, and either the new position
/// or the error.
pub open spec fn emits(
    p: Parsed,
    old_pos: usize,
    new_pos: usize,
    old_code: Seq<Instr<String>>,
    new_code: Seq<Instr<String>>,
    result: Result<(), CalcError<String>>,
) -> bool {
    &&& code_view(new_code) == code_view(old_code) + p.code
    &&& match p.fault {
        None => result is Ok && new_pos == old_pos + p.used,
        Some(e) => result is Err && result->Err_0@ == e,
    }
}

/// Parsed steps `front`, which took `used` tokens, followed by `p`.
pub open spec fn joined(front: Seq<Instr<Seq<char>>>, used: nat, p: Parsed) -> Parsed {
    Parsed { code: front + p.code, used: used + p.used, fault: p.fault }
}

/// One turn of the operators that follow the first operand of a product.
proof fn lemma_multiplication_tail(tokens: Seq<Token<Seq<char>>>, pos: nat)
    ensures
        multiplication_tail(tokens, pos) == match multiplicative_at(tokens, pos) {
            None => finished(Seq::empty(), 0),
            Some(op) => {
                let right = power(tokens, pos + 1);
                if right.fault is Some {
                    right
                } else {
                    let more = multiplication_tail(tokens, pos + 1 + right.used);
                    Parsed {
                        code: right.code.push(Instr::Binary(op)) + more.code,
                        used: 1 + right.used + more.used,
                        fault: more.fault,
                    }
                }
            },
        },
{
    reveal(factor);
    reveal(unary);
    reveal(power);
    reveal(multiplication_tail);
    reveal(multiplication);
    reveal(addition_tail);
    reveal(addition);
}

/// One turn of the operators that follow the first operand of a sum.
proof fn lemma_addition_tail(tokens: Seq<Token<Seq<char>>>, pos: nat)
    ensures
        addition_tail(tokens, pos) == match additive_at(tokens, pos) {
            None => finished(Seq::empty(), 0),
            Some(op) => {
                let right = multiplication(tokens, pos + 1);
                if right.fault is Some {
                    right
                } else {
                    let more = addition_tail(tokens, pos + 1 + right.used);
                    Parsed {
                        code: right.code.push(Instr::Binary(op)) + more.code,
                        used: 1 + right.used + more.used,
                        fault: more.fault,
                    }
                }
            },
        },
{
    reveal(factor);
    reveal(unary);
    reveal(power);
    reveal(multiplication_tail);
    reveal(multiplication);
    reveal(addition_tail);
    reveal(addition);
}

/// Whether the token of that kind stands at `pos`.
fn is_left_paren(tokens: &[Token<String>], pos: usize) -> (r: bool)
    ensures
        r == at(token_views(tokens@), pos as nat, Token::LeftParen),
        r ==> pos < tokens.len(),
{
    if pos < tokens.len() {
        match &tokens[pos] {
            Token::LeftParen => true,
            _ => false,
        }
    } else {
        false
    }
}

/// Whether the token of that kind stands at `pos`.
fn is_right_paren(tokens: &[Token<String>], pos: usize) -> (r: bool)
    ensures
        r == at(token_views(tokens@), pos as nat, Token::RightParen),
        r ==> pos < tokens.len(),
{
    if pos < tokens.len() {
        match &tokens[pos] {
            Token::RightParen => true,
            _ => false,
        }
    } else {
        false
    }
}

/// Whether the token of that kind stands at `pos`.
fn is_power(tokens: &[Token<String>], pos: usize) -> (r: bool)
    ensures
        r == at(token_views(tokens@), pos as nat, Token::Power),
        r ==> pos < tokens.len(),
{
    if pos < tokens.len() {
        match &tokens[pos] {
            Token::Power => true,
            _ => false,
        }
    } else {
        false
    }
}

/// Whether the operator `symbol` stands at `pos`.
fn is_operator(tokens: &[Token<String>], pos: usize, symbol: char) -> (r: bool)
    ensures
        r == at(token_views(tokens@), pos as nat, Token::Operator(symbol)),
        r ==> pos < tokens.len(),
{
    if pos < tokens.len() {
        match &tokens[pos] {
            Token::Operator(c) => *c == symbol,
            _ => false,
        }
    } else {
        false
    }
}

/// Appends one step.
fn emit(code: &mut Vec<Instr<String>>, step: Instr<String>)
    ensures
        code_view(final(code)@) == code_view(old(code)@).push(step@),
{
    code.push(step);
    proof {
        assert(code_view(code@) =~= code_view(old(code)@).push(step@));
    }
}

/// Parses a factor at `*pos`: appends its steps to `code` and moves `*pos`
/// behind it, or gives the error that ended it.
#[verifier::rlimit(40)]
pub fn parse_factor(tokens: &[Token<String>], pos: &mut usize, code: &mut Vec<Instr<String>>) -> (result:
    Result<(), CalcError<String>>)
    ensures
        emits(
            factor(token_views(tokens@), *old(pos) as nat),
            *old(pos),
            *final(pos),
            old(code)@,
            final(code)@,
            result,
        ),
    decreases rest(token_views(tokens@), *old(pos) as nat), 0nat,
{
    proof {
        reveal(factor);
        reveal(unary);
        reveal(power);
        reveal(multiplication_tail);
        reveal(multiplication);
        reveal(addition_tail);
        reveal(addition);
    }
    let ghost tv = token_views(tokens@);
    let ghost start = *pos as nat;
    let ghost code0 = code_view(code@);
    proof {
        assert(tv.len() == tokens.len());
        assert(code0 + Seq::<Instr<Seq<char>>>::empty() =~= code0);
    }
    if *pos >= tokens.len() {
        return Err(CalcError::UnexpectedEnd);
    }
    proof {
        assert(tv[start as int] == tokens@[start as int]@);
    }
    match &tokens[*pos] {
        Token::Number(text) => {
            *pos += 1;
            emit(code, Instr::Number(text.clone()));
            proof {
                assert(code0.push(Instr::Number(text@)) =~= code0 + seq![
                    Instr::<Seq<char>>::Number(text@),
                ]);
            }
            Ok(())
        },
        Token::LeftParen => {
            *pos += 1;
            let inner = parse_addition(tokens, pos, code);
            match inner {
                Err(e) => Err(e),
                Ok(()) => {
                    if !is_right_paren(tokens, *pos) {
                        return Err(CalcError::ExpectedClosingParenthesis);
                    }
                    *pos += 1;
                    Ok(())
                },
            }
        },
        Token::Function(name) => {
            *pos += 1;
            let known = Function::from_name(name.as_str());
            let function = match known {
                None => {
                    return Err(CalcError::UnknownFunction(name.clone()));
                },
                Some(f) => f,
            };
            if !is_left_paren(tokens, *pos) {
                return Err(CalcError::MissingParentheses(name.clone()));
            }
            *pos += 1;
            let ghost inner = addition(tv, start + 2);
            let arg = parse_addition(tokens, pos, code);
            match arg {
                Err(e) => Err(e),
                Ok(()) => {
                    if !is_right_paren(tokens, *pos) {
                        return Err(CalcError::ExpectedClosingParenthesis);
                    }
                    *pos += 1;
                    emit(code, Instr::Call(function));
                    proof {
                        assert((code0 + inner.code).push(Instr::Call(function)) =~= code0
                            + inner.code.push(Instr::Call(function)));
                    }
                    Ok(())
                },
            }
        },
        Token::Memory(slot) => {
            *pos += 1;
            emit(code, Instr::Memory(*slot));
            proof {
                assert(code0.push(Instr::Memory(*slot)) =~= code0 + seq![
                    Instr::<Seq<char>>::Memory(*slot),
                ]);
            }
            Ok(())
        },
        Token::Constant(name) => {
            *pos += 1;
            match Constant::from_name(name.as_str()) {
                Some(c) => {
                    emit(code, Instr::Constant(c));
                    proof {
                        assert(code0.push(Instr::Constant(c)) =~= code0 + seq![
                            Instr::<Seq<char>>::Constant(c),
                        ]);
                    }
                    Ok(())
                },
                None => Err(CalcError::UnknownConstant(name.clone())),
            }
        },
        Token::LastResult => {
            *pos += 1;
            emit(code, Instr::LastResult);
            proof {
                assert(code0.push(Instr::LastResult) =~= code0 + seq![
                    Instr::<Seq<char>>::LastResult,
                ]);
            }
            Ok(())
        },
        Token::EOF => Err(CalcError::UnexpectedEnd),
        _ => Err(CalcError::ExpectedOperand),
    }
}

/// Parses a factor with its signs at `*pos`, as `parse_factor` does a factor.
pub fn parse_unary(tokens: &[Token<String>], pos: &mut usize, code: &mut Vec<Instr<String>>) -> (result:
    Result<(), CalcError<String>>)
    ensures
        emits(
            unary(token_views(tokens@), *old(pos) as nat),
            *old(pos),
            *final(pos),
            old(code)@,
            final(code)@,
            result,
        ),
    decreases rest(token_views(tokens@), *old(pos) as nat), 1nat,
{
    proof {
        reveal(factor);
        reveal(unary);
        reveal(power);
        reveal(multiplication_tail);
        reveal(multiplication);
        reveal(addition_tail);
        reveal(addition);
    }
    let ghost tv = token_views(tokens@);
    let ghost start = *pos as nat;
    let ghost code0 = code_view(code@);
    proof {
        assert(tv.len() == tokens.len());
    }
    if is_operator(tokens, *pos, '-') {
        *pos += 1;
        let ghost operand = unary(tv, start + 1);
        match parse_unary(tokens, pos, code) {
            Err(e) => {
                return Err(e);
            },
            Ok(()) => {
                emit(code, Instr::Negate);
                proof {
                    assert((code0 + operand.code).push(Instr::Negate) =~= code0
                        + operand.code.push(Instr::Negate));
                }
                return Ok(());
            },
        }
    }
    if is_operator(tokens, *pos, '+') {
        *pos += 1;
        return parse_unary(tokens, pos, code);
    }
    parse_factor(tokens, pos, code)
}

/// Parses a power at `*pos`, as `parse_factor` does a factor.
pub fn parse_power(tokens: &[Token<String>], pos: &mut usize, code: &mut Vec<Instr<String>>) -> (result:
    Result<(), CalcError<String>>)
    ensures
        emits(
            power(token_views(tokens@), *old(pos) as nat),
            *old(pos),
            *final(pos),
            old(code)@,
            final(code)@,
            result,
        ),
    decreases rest(token_views(tokens@), *old(pos) as nat), 2nat,
{
    proof {
        reveal(factor);
        reveal(unary);
        reveal(power);
        reveal(multiplication_tail);
        reveal(multiplication);
        reveal(addition_tail);
        reveal(addition);
    }
    let ghost tv = token_views(tokens@);
    let ghost start = *pos as nat;
    let ghost code0 = code_view(code@);
    let ghost base = unary(tv, start);
    proof {
        assert(tv.len() == tokens.len());
    }
    match parse_unary(tokens, pos, code) {
        Err(e) => {
            return Err(e);
        },
        Ok(()) => {},
    }
    if is_power(tokens, *pos) {
        *pos += 1;
        let ghost exponent = power(tv, start + base.used + 1);
        let right = parse_power(tokens, pos, code);
        proof {
            assert((code0 + base.code) + exponent.code =~= code0 + (base.code + exponent.code));
        }
        match right {
            Err(e) => {
                return Err(e);
            },
            Ok(()) => {
                emit(code, Instr::Binary(BinaryOp::Pow));
                proof {
                    assert((code0 + (base.code + exponent.code)).push(
                        Instr::Binary(BinaryOp::Pow),
                    ) =~= code0 + (base.code + exponent.code).push(Instr::Binary(BinaryOp::Pow)));
                }
                return Ok(());
            },
        }
    }
    Ok(())
}

/// Parses a product at `*pos`, as `parse_factor` does a factor.
pub fn parse_multiplication(
    tokens: &[Token<String>],
    pos: &mut usize,
    code: &mut Vec<Instr<String>>,
) -> (result: Result<(), CalcError<String>>)
    ensures
        emits(
            multiplication(token_views(tokens@), *old(pos) as nat),
            *old(pos),
            *final(pos),
            old(code)@,
            final(code)@,
            result,
        ),
    decreases rest(token_views(tokens@), *old(pos) as nat), 4nat,
{
    proof {
        reveal(factor);
        reveal(unary);
        reveal(power);
        reveal(multiplication_tail);
        reveal(multiplication);
        reveal(addition_tail);
        reveal(addition);
    }
    let ghost tv = token_views(tokens@);
    let ghost start = *pos as nat;
    let ghost code0 = code_view(code@);
    let ghost first = power(tv, start);
    proof {
        assert(tv.len() == tokens.len());
    }
    match parse_power(tokens, pos, code) {
        Err(e) => {
            return Err(e);
        },
        Ok(()) => {},
    }
    let ghost mut done: Seq<Instr<Seq<char>>> = first.code;
    while *pos < tokens.len()
        invariant
            tv == token_views(tokens@),
            tv.len() == tokens.len(),
            start == *old(pos),
            code0 == code_view(old(code)@),
            start <= *pos,
            code_view(code@) == code0 + done,
            multiplication(tv, start) == joined(
                done,
                (*pos - start) as nat,
                multiplication_tail(tv, *pos as nat),
            ),
        ensures
            multiplicative_at(tv, *pos as nat) is None,
            start <= *pos,
            code_view(code@) == code0 + done,
            multiplication(tv, start) == joined(
                done,
                (*pos - start) as nat,
                multiplication_tail(tv, *pos as nat),
            ),
        decreases rest(tv, *pos as nat),
    {
        proof {
            lemma_multiplication_tail(tv, *pos as nat);
        }
        let op = if is_operator(tokens, *pos, '*') {
            BinaryOp::Mul
        } else if is_operator(tokens, *pos, '/') {
            BinaryOp::Div
        } else if is_operator(tokens, *pos, '%') {
            BinaryOp::Rem
        } else {
            break ;
        };
        let ghost here = *pos as nat;
        let ghost right = power(tv, here + 1);
        *pos += 1;
        let operand = parse_power(tokens, pos, code);
        proof {
            assert((code0 + done) + right.code =~= code0 + (done + right.code));
        }
        match operand {
            Err(e) => {
                return Err(e);
            },
            Ok(()) => {},
        }
        emit(code, Instr::Binary(op));
        proof {
            let longer = (done + right.code).push(Instr::Binary(op));
            let more = multiplication_tail(tv, here + 1 + right.used);
            assert((code0 + (done + right.code)).push(Instr::Binary(op)) =~= code0 + longer);
            assert(done + (right.code.push(Instr::Binary(op)) + more.code) =~= longer + more.code);
            done = longer;
        }
    }
    proof {
        lemma_multiplication_tail(tv, *pos as nat);
        assert(done + Seq::<Instr<Seq<char>>>::empty() =~= done);
    }
    Ok(())
}

/// Parses a sum at `*pos`, as `parse_factor` does a factor.
pub fn parse_addition(tokens: &[Token<String>], pos: &mut usize, code: &mut Vec<Instr<String>>) -> (result:
    Result<(), CalcError<String>>)
    ensures
        emits(
            addition(token_views(tokens@), *old(pos) as nat),
            *old(pos),
            *final(pos),
            old(code)@,
            final(code)@,
            result,
        ),
    decreases rest(token_views(tokens@), *old(pos) as nat), 6nat,
{
    proof {
        reveal(factor);
        reveal(unary);
        reveal(power);
        reveal(multiplication_tail);
        reveal(multiplication);
        reveal(addition_tail);
        reveal(addition);
    }
    let ghost tv = token_views(tokens@);
    let ghost start = *pos as nat;
    let ghost code0 = code_view(code@);
    let ghost first = multiplication(tv, start);
    proof {
        assert(tv.len() == tokens.len());
    }
    match parse_multiplication(tokens, pos, code) {
        Err(e) => {
            return Err(e);
        },
        Ok(()) => {},
    }
    let ghost mut done: Seq<Instr<Seq<char>>> = first.code;
    while *pos < tokens.len()
        invariant
            tv == token_views(tokens@),
            tv.len() == tokens.len(),
            start == *old(pos),
            code0 == code_view(old(code)@),
            start <= *pos,
            code_view(code@) == code0 + done,
            addition(tv, start) == joined(
                done,
                (*pos - start) as nat,
                addition_tail(tv, *pos as nat),
            ),
        ensures
            additive_at(tv, *pos as nat) is None,
            start <= *pos,
            code_view(code@) == code0 + done,
            addition(tv, start) == joined(
                done,
                (*pos - start) as nat,
                addition_tail(tv, *pos as nat),
            ),
        decreases rest(tv, *pos as nat),
    {
        proof {
            lemma_addition_tail(tv, *pos as nat);
        }
        let op = if is_operator(tokens, *pos, '+') {
            BinaryOp::Add
        } else if is_operator(tokens, *pos, '-') {
            BinaryOp::Sub
        } else {
            break ;
        };
        let ghost here = *pos as nat;
        let ghost right = multiplication(tv, here + 1);
        *pos += 1;
        let operand = parse_multiplication(tokens, pos, code);
        proof {
            assert((code0 + done) + right.code =~= code0 + (done + right.code));
        }
        match operand {
            Err(e) => {
                return Err(e);
            },
            Ok(()) => {},
        }
        emit(code, Instr::Binary(op));
        proof {
            let longer = (done + right.code).push(Instr::Binary(op));
            let more = addition_tail(tv, here + 1 + right.used);
            assert((code0 + (done + right.code)).push(Instr::Binary(op)) =~= code0 + longer);
            assert(done + (right.code.push(Instr::Binary(op)) + more.code) =~= longer + more.code);
            done = longer;
        }
    }
    proof {
        lemma_addition_tail(tv, *pos as nat);
        assert(done + Seq::<Instr<Seq<char>>>::empty() =~= done);
    }
    Ok(())
}

/// Parses an expression at `*pos`, as `parse_factor` does a factor.
pub fn parse_expression(tokens: &[Token<String>], pos: &mut usize, code: &mut Vec<Instr<String>>) -> (result:
    Result<(), CalcError<String>>)
    ensures
        emits(
            expression(token_views(tokens@), *old(pos) as nat),
            *old(pos),
            *final(pos),
            old(code)@,
            final(code)@,
            result,
        ),
{
    parse_addition(tokens, pos, code)
}

/// An expression in postfix order, and the error that ended its parsing, if
/// one did. The steps before an error are kept: they are run first, and an
/// error among them is reported instead.
pub struct Program {
    pub code: Vec<Instr<String>>,
    pub fault: Option<CalcError<String>>,
}

impl View for Program {
    type V = Parsed;

    open spec fn view(&self) -> Parsed {
        Parsed {
            code: code_view(self.code@),
            used: 0,
            fault: match self.fault {
                None => None,
                Some(e) => Some(e@),
            },
        }
    }
}

/// Every step can be taken from an empty stack, and a program without an
/// error leaves exactly one value.
pub open spec fn runnable(p: Parsed) -> bool {
    match depth_after(p.code, 0) {
        Some(e) => p.fault is None ==> e == 1,
        None => false,
    }
}

/// Parses a whole line of tokens into its program.
pub fn compile(tokens: &[Token<String>]) -> (program: Program)
    requires
        slots_exist(token_views(tokens@)),
    ensures
        program@.code == whole(token_views(tokens@)).code,
        program@.fault == whole(token_views(tokens@)).fault,
        runnable(program@),
{
    let ghost tv = token_views(tokens@);
    let mut code: Vec<Instr<String>> = Vec::new();
    let mut pos: usize = 0;
    proof {
        lemma_whole_stacked(tv);
        assert(tv.len() == tokens.len());
        assert(code_view(code@) =~= Seq::empty());
    }
    let parsed = parse_expression(tokens, &mut pos, &mut code);
    proof {
        assert(Seq::<Instr<Seq<char>>>::empty() + expression(tv, 0).code =~= expression(
            tv,
            0,
        ).code);
    }
    let fault = match parsed {
        Err(e) => Some(e),
        Ok(()) => {
            if pos < tokens.len() && pos + 1 < tokens.len() {
                Some(CalcError::UnexpectedTokens)
            } else {
                None
            }
        },
    };
    Program { code, fault }
}

} // verus!
