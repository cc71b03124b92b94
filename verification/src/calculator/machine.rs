use crate::calculator::error::CalcError;
use crate::calculator::names::Function;
use crate::calculator::parser::{
    code_view, depth_after, lemma_depth_prefix, lemma_depth_push, runnable, step_depth, BinaryOp,
    Instr, Parsed, Program,
};
use crate::calculator::token::{dot_count, number_char, valid_number};
use crate::calculator::value::{
    above_one, below_minus_one, below_zero, equals_zero, greater_than_one, is_zero,
    less_than_minus_one, less_than_zero,
};
use crate::text::chars_of;
use vstd::prelude::*;

verus! {

/// One piece of floating-point arithmetic that the machine hands out. Values
/// are IEEE 754 binary64 bit patterns; `S` is the type of a numeral's text.
#[derive(Debug, Clone, PartialEq)]
pub enum Operation<S> {
    /// The double nearest to a decimal numeral.
    Literal(S),
    /// The operand with its sign turned.
    Negate(u64),
    /// The first operand, the operator, the second operand.
    Binary(BinaryOp, u64, u64),
    /// A named function of one argument.
    Call(Function, u64),
}

impl View for Operation<String> {
    type V = Operation<Seq<char>>;

    open spec fn view(&self) -> Operation<Seq<char>> {
        match *self {
            Operation::Literal(text) => Operation::Literal(text@),
            Operation::Negate(a) => Operation::Negate(a),
            Operation::Binary(op, a, b) => Operation::Binary(op, a, b),
            Operation::Call(f, a) => Operation::Call(f, a),
        }
    }
}

/// What the machine may ask for: of a numeral, only one that is a number.
pub open spec fn askable(op: Operation<Seq<char>>) -> bool {
    match op {
        Operation::Literal(text) => valid_number(text),
        _ => true,
    }
}

/// The error of a function applied outside its domain, if `x` lies outside.
pub open spec fn domain_fault(f: Function, x: u64) -> Option<CalcError<Seq<char>>> {
    match f {
        Function::Asin | Function::Acos => if below_minus_one(x) || above_one(x) {
            Some(CalcError::OutsideUnitInterval(f))
        } else {
            None
        },
        Function::Ln | Function::Log2 | Function::Log10 => if below_zero(x) || is_zero(x) {
            Some(CalcError::NotPositive(f))
        } else {
            None
        },
        Function::Sqrt => if below_zero(x) {
            Some(CalcError::Negative(f))
        } else {
            None
        },
        _ => None,
    }
}

/// The error of a division or a remainder by zero, if `divisor` is zero.
pub open spec fn divisor_fault(op: BinaryOp, divisor: u64) -> Option<CalcError<Seq<char>>> {
    match op {
        BinaryOp::Div => if is_zero(divisor) {
            Some(CalcError::DivisionByZero)
        } else {
            None
        },
        BinaryOp::Rem => if is_zero(divisor) {
            Some(CalcError::ModuloByZero)
        } else {
            None
        },
        _ => None,
    }
}

/// What running steps gives: the stack that they leave or the first error
/// among them, and the operations that they hand out, in order.
pub struct Run {
    pub stack: Result<Seq<u64>, CalcError<Seq<char>>>,
    pub asked: Seq<Operation<Seq<char>>>,
}

/// A run that first hands out `op`.
pub open spec fn after(op: Operation<Seq<char>>, run: Run) -> Run {
    Run { stack: run.stack, asked: seq![op] + run.asked }
}

/// A run that ends at once.
pub open spec fn ended(stack: Result<Seq<u64>, CalcError<Seq<char>>>) -> Run {
    Run { stack, asked: Seq::empty() }
}

/// The run of the steps of `code` from `at` on. `answers` holds, in order,
/// what the arithmetic gave for each operation that the steps hand out.
///
/// A numeral hands out its text and puts the answer on the stack; a constant,
/// a memory slot and the last result put their value there. A negation and a
/// function hand out the value on top and replace it by the answer; a
/// function first refuses an argument outside its domain. An operator hands
/// out the two values on top, the lower one first, and replaces them by the
/// answer; a division and a remainder first refuse a divisor that is zero.
pub open spec fn run_from(
    code: Seq<Instr<Seq<char>>>,
    at: int,
    stack: Seq<u64>,
    memory: Seq<u64>,
    last: u64,
    answers: Seq<u64>,
) -> Run
    decreases code.len() - at,
{
    if at < 0 || at >= code.len() {
        ended(Ok(stack))
    } else {
        match code[at] {
            Instr::Number(text) => if valid_number(text) {
                after(
                    Operation::Literal(text),
                    run_from(
                        code,
                        at + 1,
                        stack.push(answers[0]),
                        memory,
                        last,
                        answers.drop_first(),
                    ),
                )
            } else {
                ended(Err(CalcError::InvalidNumber))
            },
            Instr::Constant(c) => run_from(
                code,
                at + 1,
                stack.push(c.spec_bits()),
                memory,
                last,
                answers,
            ),
            Instr::Memory(slot) => run_from(
                code,
                at + 1,
                stack.push(memory[slot as int]),
                memory,
                last,
                answers,
            ),
            Instr::LastResult => run_from(code, at + 1, stack.push(last), memory, last, answers),
            Instr::Negate => after(
                Operation::Negate(stack.last()),
                run_from(
                    code,
                    at + 1,
                    stack.drop_last().push(answers[0]),
                    memory,
                    last,
                    answers.drop_first(),
                ),
            ),
            Instr::Binary(op) => match divisor_fault(op, stack.last()) {
                Some(e) => ended(Err(e)),
                None => after(
                    Operation::Binary(op, stack.drop_last().last(), stack.last()),
                    run_from(
                        code,
                        at + 1,
                        stack.drop_last().drop_last().push(answers[0]),
                        memory,
                        last,
                        answers.drop_first(),
                    ),
                ),
            },
            Instr::Call(f) => match domain_fault(f, stack.last()) {
                Some(e) => ended(Err(e)),
                None => after(
                    Operation::Call(f, stack.last()),
                    run_from(
                        code,
                        at + 1,
                        stack.drop_last().push(answers[0]),
                        memory,
                        last,
                        answers.drop_first(),
                    ),
                ),
            },
        }
    }
}

/// What a program gives: the first error among its steps; else the error of
/// its parsing; else the one value that its steps leave.
pub open spec fn outcome(program: Parsed, memory: Seq<u64>, last: u64, answers: Seq<u64>) -> Result<
    u64,
    CalcError<Seq<char>>,
> {
    match run_from(program.code, 0, Seq::empty(), memory, last, answers).stack {
        Err(e) => Err(e),
        Ok(stack) => match program.fault {
            Some(e) => Err(e),
            None => Ok(stack.last()),
        },
    }
}

/// The operations that a program hands out, in order.
pub open spec fn operations(program: Parsed, memory: Seq<u64>, last: u64, answers: Seq<u64>) -> Seq<
    Operation<Seq<char>>,
> {
    run_from(program.code, 0, Seq::empty(), memory, last, answers).asked
}

/// `answers` are what `arith` gave for the operations `asked`, one for one.
pub open spec fn answered<F: Fn(Operation<String>) -> u64>(
    arith: F,
    asked: Seq<Operation<Seq<char>>>,
    answers: Seq<u64>,
) -> bool {
    &&& answers.len() == asked.len()
    &&& forall|i: int|
        0 <= i < asked.len() ==> exists|op: Operation<String>|
            op@ == #[trigger] asked[i] && call_ensures(arith, (op,), answers[i])
}

/// A result as specifications see it.
pub open spec fn result_view(r: Result<u64, CalcError<String>>) -> Result<
    u64,
    CalcError<Seq<char>>,
> {
    match r {
        Ok(v) => Ok(v),
        Err(e) => Err(e@),
    }
}

/// A run that follows the operations `front`.
pub open spec fn continued(front: Seq<Operation<Seq<char>>>, run: Run) -> Run {
    Run { stack: run.stack, asked: front + run.asked }
}

/// Whether a text is a decimal numeral.
pub fn is_number(text: &str) -> (r: bool)
    ensures
        r == valid_number(text@),
{
    let chars = chars_of(text);
    let n = chars.len();
    let mut dots: usize = 0;
    let mut i: usize = 0;
    proof {
        assert(chars@.take(0) =~= Seq::<char>::empty());
    }
    while i < n
        invariant
            n == chars.len(),
            chars@ == text@,
            i <= n,
            dots <= i,
            dots == dot_count(chars@.take(i as int)),
            forall|k: int| 0 <= k < i ==> number_char(#[trigger] chars@[k]),
        decreases n - i,
    {
        let c = chars[i];
        if !((c >= '0' && c <= '9') || c == '.') {
            return false;
        }
        proof {
            assert(chars@.take(i + 1).drop_last() =~= chars@.take(i as int));
        }
        if c == '.' {
            dots += 1;
        }
        i += 1;
    }
    proof {
        assert(chars@.take(n as int) =~= chars@);
    }
    dots <= 1 && dots < n
}

/// Refuses a division or a remainder by zero.
fn check_divisor(op: BinaryOp, divisor: u64) -> (r: Result<(), CalcError<String>>)
    ensures
        match divisor_fault(op, divisor) {
            Some(e) => r is Err && r->Err_0@ == e,
            None => r is Ok,
        },
{
    match op {
        BinaryOp::Div => if equals_zero(divisor) {
            Err(CalcError::DivisionByZero)
        } else {
            Ok(())
        },
        BinaryOp::Rem => if equals_zero(divisor) {
            Err(CalcError::ModuloByZero)
        } else {
            Ok(())
        },
        _ => Ok(()),
    }
}

/// Refuses an argument outside the domain of a function.
fn check_domain(f: Function, x: u64) -> (r: Result<(), CalcError<String>>)
    ensures
        match domain_fault(f, x) {
            Some(e) => r is Err && r->Err_0@ == e,
            None => r is Ok,
        },
{
    match f {
        Function::Asin | Function::Acos => if less_than_minus_one(x) || greater_than_one(x) {
            Err(CalcError::OutsideUnitInterval(f))
        } else {
            Ok(())
        },
        Function::Ln | Function::Log2 | Function::Log10 => if less_than_zero(x) || equals_zero(x) {
            Err(CalcError::NotPositive(f))
        } else {
            Ok(())
        },
        Function::Sqrt => if less_than_zero(x) {
            Err(CalcError::Negative(f))
        } else {
            Ok(())
        },
        _ => Ok(()),
    }
}

/// Runs a program on the memory slots and the last result, handing each piece
/// of floating-point arithmetic to `arith`.
pub fn run<F: Fn(Operation<String>) -> u64>(
    program: Program,
    memory: &[u64; 10],
    last: u64,
    arith: &F,
) -> (result: Result<u64, CalcError<String>>)
    requires
        runnable(program@),
        forall|op: Operation<String>| askable(op@) ==> #[trigger] call_requires(*arith, (op,)),
    ensures
        exists|answers: Seq<u64>|
            {
                &&& result_view(result) == #[trigger] outcome(program@, memory@, last, answers)
                &&& answered(*arith, operations(program@, memory@, last, answers), answers)
            },
{
    let ghost code = code_view(program.code@);
    let n = program.code.len();
    let mut stack: Vec<u64> = Vec::new();
    let mut at: usize = 0;
    let ghost mut answers: Seq<u64> = Seq::empty();
    let ghost mut asked: Seq<Operation<Seq<char>>> = Seq::empty();
    proof {
        assert(code.take(0) =~= Seq::empty());
        assert forall|future: Seq<u64>|
            continued(asked, #[trigger] run_from(code, 0, stack@, memory@, last, future))
                == run_from(code, 0, Seq::empty(), memory@, last, answers + future) by {
            assert(answers + future =~= future);
            assert(stack@ =~= Seq::<u64>::empty());
            let r = run_from(code, 0, stack@, memory@, last, future);
            assert(asked + r.asked =~= r.asked);
        }
    }
    while at < n
        invariant
            code == code_view(program.code@),
            n == program.code.len(),
            n == code.len(),
            at <= n,
            depth_after(code, 0) is Some,
            depth_after(code.take(at as int), 0) == Some(stack@.len()),
            forall|op: Operation<String>| askable(op@) ==> #[trigger] call_requires(*arith, (op,)),
            answered(*arith, asked, answers),
            forall|future: Seq<u64>|
                continued(
                    asked,
                    #[trigger] run_from(code, at as int, stack@, memory@, last, future),
                ) == run_from(code, 0, Seq::empty(), memory@, last, answers + future),
        decreases n - at,
    {
        let ghost before = stack@;
        let ghost given_before = answers;
        let ghost asked_before = asked;
        let ghost step = code[at as int];
        proof {
            assert(step == program.code@[at as int]@);
            lemma_depth_prefix(code, at + 1, 0);
            assert(code.take(at + 1) =~= code.take(at as int).push(step));
            lemma_depth_push(code.take(at as int), step, 0);
            assert(step_depth(step, before.len()) is Some);
        }
        let ghost mut handed: Option<(Operation<String>, u64)> = None;
        match &program.code[at] {
            Instr::Number(text) => {
                if !is_number(text.as_str()) {
                    proof {
                        assert(answers + Seq::<u64>::empty() =~= answers);
                        let here = run_from(code, at as int, before, memory@, last, Seq::empty());
                        let all = run_from(code, 0, Seq::empty(), memory@, last, answers);
                        assert(here == ended(Err(CalcError::InvalidNumber)));
                        lemma_ends_here(asked, here, all);
                        assert(outcome(program@, memory@, last, answers) == Err::<
                            u64,
                            CalcError<Seq<char>>,
                        >(CalcError::InvalidNumber));
                        assert(operations(program@, memory@, last, answers) == asked);
                    }
                    return Err(CalcError::InvalidNumber);
                }
                let op = Operation::Literal(text.clone());
                let ghost kept = op;
                let v = arith(op);
                stack.push(v);
                proof {
                    handed = Some((kept, v));
                }
            },
            Instr::Constant(c) => {
                stack.push(c.bits());
            },
            Instr::Memory(slot) => {
                stack.push(memory[*slot]);
            },
            Instr::LastResult => {
                stack.push(last);
            },
            Instr::Negate => {
                let a = stack.pop().unwrap();
                let op = Operation::Negate(a);
                let ghost kept = op;
                let v = arith(op);
                stack.push(v);
                proof {
                    handed = Some((kept, v));
                }
            },
            Instr::Binary(op) => {
                let b = stack.pop().unwrap();
                let a = stack.pop().unwrap();
                match check_divisor(*op, b) {
                    Err(e) => {
                        proof {
                            assert(answers + Seq::<u64>::empty() =~= answers);
                        let here = run_from(code, at as int, before, memory@, last, Seq::empty());
                        let all = run_from(code, 0, Seq::empty(), memory@, last, answers);
                        assert(here == ended(Err(e@)));
                        lemma_ends_here(asked, here, all);
                        assert(outcome(program@, memory@, last, answers) == Err::<
                            u64,
                            CalcError<Seq<char>>,
                        >(e@));
                        assert(operations(program@, memory@, last, answers) == asked);
                        }
                        return Err(e);
                    },
                    Ok(()) => {},
                }
                let op = Operation::Binary(*op, a, b);
                let ghost kept = op;
                let v = arith(op);
                stack.push(v);
                proof {
                    handed = Some((kept, v));
                }
            },
            Instr::Call(f) => {
                let a = stack.pop().unwrap();
                match check_domain(*f, a) {
                    Err(e) => {
                        proof {
                            assert(answers + Seq::<u64>::empty() =~= answers);
                        let here = run_from(code, at as int, before, memory@, last, Seq::empty());
                        let all = run_from(code, 0, Seq::empty(), memory@, last, answers);
                        assert(here == ended(Err(e@)));
                        lemma_ends_here(asked, here, all);
                        assert(outcome(program@, memory@, last, answers) == Err::<
                            u64,
                            CalcError<Seq<char>>,
                        >(e@));
                        assert(operations(program@, memory@, last, answers) == asked);
                        }
                        return Err(e);
                    },
                    Ok(()) => {},
                }
                let op = Operation::Call(*f, a);
                let ghost kept = op;
                let v = arith(op);
                stack.push(v);
                proof {
                    handed = Some((kept, v));
                }
            },
        }
        proof {
            if let Some((op, v)) = handed {
                answers = given_before.push(v);
                asked = asked_before.push(op@);
                assert(answered(*arith, asked, answers)) by {
                    assert forall|i: int| 0 <= i < asked.len() implies exists|
                        o: Operation<String>,
                    |
                        o@ == #[trigger] asked[i] && call_ensures(*arith, (o,), answers[i]) by {
                        if i < asked_before.len() {
                            assert(asked[i] == asked_before[i]);
                            assert(answers[i] == given_before[i]);
                        } else {
                            assert(op@ == asked[i] && call_ensures(*arith, (op,), answers[i]));
                        }
                    }
                }
                assert forall|future: Seq<u64>|
                    continued(
                        asked,
                        #[trigger] run_from(code, at + 1, stack@, memory@, last, future),
                    ) == run_from(code, 0, Seq::empty(), memory@, last, answers + future) by {
                    let longer = seq![v] + future;
                    assert(longer[0] == v);
                    assert(longer.drop_first() =~= future);
                    assert(given_before + longer =~= answers + future);
                    assert(stack@ =~= match step {
                        Instr::Number(_) => before.push(v),
                        Instr::Binary(_) => before.drop_last().drop_last().push(v),
                        _ => before.drop_last().push(v),
                    });
                    let next = run_from(code, at + 1, stack@, memory@, last, future);
                    assert(run_from(code, at as int, before, memory@, last, longer) == after(
                        op@,
                        next,
                    ));
                    assert(asked_before + (seq![op@] + next.asked) =~= asked + next.asked);
                }
            } else {
                assert forall|future: Seq<u64>|
                    continued(
                        asked,
                        #[trigger] run_from(code, at + 1, stack@, memory@, last, future),
                    ) == run_from(code, 0, Seq::empty(), memory@, last, answers + future) by {
                    assert(run_from(code, at as int, before, memory@, last, future) == run_from(
                        code,
                        at + 1,
                        stack@,
                        memory@,
                        last,
                        future,
                    ));
                }
            }
        }
        at += 1;
    }
    proof {
        assert(code.take(n as int) =~= code);
        assert(answers + Seq::<u64>::empty() =~= answers);
        assert(run_from(code, n as int, stack@, memory@, last, Seq::empty()) == ended(
            Ok(stack@),
        ));
        assert(asked + Seq::<Operation<Seq<char>>>::empty() =~= asked);
        assert(run_from(code, 0, Seq::empty(), memory@, last, answers) == Run {
            stack: Ok(stack@),
            asked,
        });
    }
    let result = match program.fault {
        Some(e) => Err(e),
        None => {
            let top = stack[stack.len() - 1];
            Ok(top)
        },
    };
    proof {
        assert(result_view(result) == outcome(program@, memory@, last, answers));
        assert(operations(program@, memory@, last, answers) == asked);
    }
    result
}

/// A run that follows `asked` and ends at once has handed out `asked` and
/// nothing more.
proof fn lemma_ends_here(asked: Seq<Operation<Seq<char>>>, here: Run, all: Run)
    requires
        here.asked == Seq::<Operation<Seq<char>>>::empty(),
        continued(asked, here) == all,
    ensures
        all.stack == here.stack,
        all.asked == asked,
{
    assert(asked + Seq::<Operation<Seq<char>>>::empty() =~= asked);
}

} // verus!
