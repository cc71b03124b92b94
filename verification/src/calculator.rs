pub mod command;
pub mod error;
pub mod machine;
pub mod names;
pub mod parser;
pub mod token;
pub mod value;

use crate::calculator::error::CalcError;
use crate::calculator::machine::{
    answered, askable, operations, outcome, result_view, run, Operation,
};
use crate::calculator::names::Constant;
use crate::calculator::parser::{
    addition, addition_tail, compile, expression, factor, finished, multiplication,
    multiplication_tail, power, unary, whole, Instr, Parsed,
};
use crate::calculator::token::{lex, lex_from, tokenize, word_run, word_token, Token};
use vstd::prelude::*;

verus! {

/// The state of a session: ten memory slots and the last result, each an
/// IEEE 754 binary64 bit pattern.
pub struct Calculator {
    memory: [u64; 10],
    last_result: u64,
}

/// What evaluating a line gives on the given state: the error of its
/// tokens, or what its program gives. `answers` holds, in order, what the
/// floating-point arithmetic gave for each operation handed out.
pub open spec fn evaluation(line: Seq<char>, memory: Seq<u64>, last: u64, answers: Seq<u64>) -> Result<
    u64,
    CalcError<Seq<char>>,
> {
    match lex(line) {
        Err(e) => Err(e),
        Ok(tokens) => outcome(whole(tokens), memory, last, answers),
    }
}

/// The operations that evaluating a line hands out, in order.
pub open spec fn asked_by(line: Seq<char>, memory: Seq<u64>, last: u64, answers: Seq<u64>) -> Seq<
    Operation<Seq<char>>,
> {
    match lex(line) {
        Err(_) => Seq::empty(),
        Ok(tokens) => operations(whole(tokens), memory, last, answers),
    }
}

impl Calculator {
    /// The values of the ten memory slots.
    pub closed spec fn slots(&self) -> Seq<u64> {
        self.memory@
    }

    /// The value of the last result.
    pub closed spec fn last(&self) -> u64 {
        self.last_result
    }

    /// There are ten slots.
    pub proof fn lemma_ten_slots(&self)
        ensures
            self.slots().len() == 10,
    {
    }

    /// A calculator whose slots and last result are all +0.0.
    pub fn new() -> (calc: Self)
        ensures
            calc.last() == 0,
            calc.slots() == Seq::new(10, |i: int| 0u64),
    {
        let calc = Self { memory: [0; 10], last_result: 0 };
        proof {
            assert(calc.slots() =~= Seq::new(10, |i: int| 0u64));
        }
        calc
    }

    /// Evaluates one line. A value becomes the last result; an error leaves
    /// the state as it was. The floating-point arithmetic is done by `arith`:
    /// the result is what the line gives for the answers of `arith` to the
    /// operations that the line hands out.
    pub fn evaluate<F: Fn(Operation<String>) -> u64>(&mut self, input: &str, arith: F) -> (result:
        Result<u64, CalcError<String>>)
        requires
            forall|op: Operation<String>| askable(op@) ==> #[trigger] call_requires(arith, (op,)),
        ensures
            exists|answers: Seq<u64>|
                {
                    &&& result_view(result) == #[trigger] evaluation(
                        input@,
                        old(self).slots(),
                        old(self).last(),
                        answers,
                    )
                    &&& answered(
                        arith,
                        asked_by(input@, old(self).slots(), old(self).last(), answers),
                        answers,
                    )
                },
            final(self).slots() == old(self).slots(),
            final(self).last() == match result {
                Ok(v) => v,
                Err(_) => old(self).last(),
            },
    {
        let tokens = match tokenize(input) {
            Ok(tokens) => tokens,
            Err(e) => {
                proof {
                    let none = Seq::<u64>::empty();
                    assert(result_view(Err(e)) == evaluation(
                        input@,
                        self.slots(),
                        self.last(),
                        none,
                    ));
                    assert(answered(
                        arith,
                        asked_by(input@, self.slots(), self.last(), none),
                        none,
                    ));
                }
                return Err(e);
            },
        };
        let program = compile(tokens.as_slice());
        let ghost parsed = whole(lex(input@)->Ok_0);
        proof {
            assert(program@.code == parsed.code);
            assert(program@.fault == parsed.fault);
        }
        let result = run(program, &self.memory, self.last_result, &arith);
        proof {
            let answers = choose|answers: Seq<u64>|
                {
                    &&& result_view(result) == #[trigger] outcome(
                        program@,
                        self.slots(),
                        self.last(),
                        answers,
                    )
                    &&& answered(
                        arith,
                        operations(program@, self.slots(), self.last(), answers),
                        answers,
                    )
                };
            assert(outcome(program@, self.slots(), self.last(), answers) == outcome(
                parsed,
                self.slots(),
                self.last(),
                answers,
            ));
            assert(operations(program@, self.slots(), self.last(), answers) == operations(
                parsed,
                self.slots(),
                self.last(),
                answers,
            ));
            assert(result_view(result) == evaluation(
                input@,
                self.slots(),
                self.last(),
                answers,
            ));
            assert(answered(
                arith,
                asked_by(input@, self.slots(), self.last(), answers),
                answers,
            ));
        }
        if let Ok(value) = result {
            self.last_result = value;
        }
        result
    }

    /// Stores the last result into a slot.
    pub fn memory_store(&mut self, slot: usize)
        requires
            slot < 10,
        ensures
            final(self).slots() == old(self).slots().update(slot as int, old(self).last()),
            final(self).last() == old(self).last(),
    {
        self.memory[slot] = self.last_result;
    }

    /// Sets a slot to +0.0.
    pub fn memory_clear(&mut self, slot: usize)
        requires
            slot < 10,
        ensures
            final(self).slots() == old(self).slots().update(slot as int, 0),
            final(self).last() == old(self).last(),
    {
        self.memory[slot] = 0;
    }

    /// Sets the last result to +0.0.
    pub fn clear_result(&mut self)
        ensures
            final(self).slots() == old(self).slots(),
            final(self).last() == 0,
    {
        self.last_result = 0;
    }

    /// The last result.
    pub fn last_result(&self) -> (value: u64)
        ensures
            value == self.last(),
    {
        self.last_result
    }

    /// The value of a slot.
    pub fn recall(&self, slot: usize) -> (value: u64)
        requires
            slot < 10,
        ensures
            value == self.slots()[slot as int],
    {
        self.memory[slot]
    }
}

/// A line of one operand that needs no arithmetic parses to that one step.
proof fn lemma_single_operand(token: Token<Seq<char>>, step: Instr<Seq<char>>)
    requires
        token == Token::<Seq<char>>::LastResult && step == Instr::<Seq<char>>::LastResult || exists|
            slot: usize,
        |
            token == Token::<Seq<char>>::Memory(slot) && step == Instr::<Seq<char>>::Memory(slot),
    ensures
        whole(seq![token, Token::EOF]) == finished(seq![step], 1),
{
    reveal(factor);
    reveal(unary);
    reveal(power);
    reveal(multiplication_tail);
    reveal(multiplication);
    reveal(addition_tail);
    reveal(addition);
    let tokens = seq![token, Token::<Seq<char>>::EOF];
    let one = finished(seq![step], 1);
    assert(tokens[0] == token);
    assert(tokens[1] == Token::<Seq<char>>::EOF);
    assert(factor(tokens, 0) == one);
    assert(unary(tokens, 0) == one);
    assert(power(tokens, 0) == one);
    assert(multiplication_tail(tokens, 1) == finished(Seq::empty(), 0));
    assert(seq![step] + Seq::<Instr<Seq<char>>>::empty() =~= seq![step]);
    assert(multiplication(tokens, 0) == one);
    assert(addition_tail(tokens, 1) == finished(Seq::empty(), 0));
    assert(addition(tokens, 0) == one);
    assert(expression(tokens, 0) == one);
}

/// The line `_` gives the last result, whatever the arithmetic answers: so
/// right after a line gave `v`, the line `_` gives `v`.
pub proof fn lemma_underscore_gives_last(memory: Seq<u64>, last: u64, answers: Seq<u64>)
    ensures
        evaluation("_"@, memory, last, answers) == Ok::<u64, CalcError<Seq<char>>>(last),
        asked_by("_"@, memory, last, answers) == Seq::<Operation<Seq<char>>>::empty(),
{
    reveal_strlit("_");
    let line = "_"@;
    assert(line.len() == 1 && line[0] == '_');
    let tokens = seq![Token::<Seq<char>>::LastResult, Token::<Seq<char>>::EOF];
    assert(lex_from(line, 1) == Ok::<Seq<Token<Seq<char>>>, CalcError<Seq<char>>>(
        seq![Token::EOF],
    ));
    assert(seq![Token::<Seq<char>>::LastResult] + seq![Token::<Seq<char>>::EOF] =~= tokens);
    assert(lex(line) == Ok::<Seq<Token<Seq<char>>>, CalcError<Seq<char>>>(tokens));
    lemma_single_operand(Token::LastResult, Instr::LastResult);
    let code = seq![Instr::<Seq<char>>::LastResult];
    assert(machine::run_from(code, 1, seq![last], memory, last, answers) == machine::ended(
        Ok(seq![last]),
    ));
    assert(Seq::<u64>::empty().push(last) =~= seq![last]);
    assert(machine::run_from(code, 0, Seq::empty(), memory, last, answers) == machine::ended(
        Ok(seq![last]),
    ));
}

/// The line of `m` and the digit of a slot gives what the slot holds,
/// whatever the arithmetic answers: so after `memory_store` put a value into
/// the slot, the line gives that value until the slot is stored into or
/// cleared again.
pub proof fn lemma_slot_name_gives_slot(slot: usize, memory: Seq<u64>, last: u64, answers: Seq<u64>)
    requires
        slot < 10,
    ensures
        evaluation(seq!['m', (slot + 48) as char], memory, last, answers) == Ok::<
            u64,
            CalcError<Seq<char>>,
        >(memory[slot as int]),
        asked_by(seq!['m', (slot + 48) as char], memory, last, answers) == Seq::<
            Operation<Seq<char>>,
        >::empty(),
{
    reveal_strlit("pi");
    reveal_strlit("e");
    reveal_strlit("phi");
    reveal_strlit("tau");
    reveal_strlit("sqrt2");
    reveal_strlit("sqrt3");
    let digit = (slot + 48) as char;
    let line = seq!['m', digit];
    assert(line.len() == 2 && line[0] == 'm' && line[1] == digit);
    assert(word_run(line, 2) == 0);
    assert(word_run(line, 1) == 1);
    assert(line.subrange(0, 2) =~= line);
    assert("pi"@[0] == 'p');
    assert(Constant::spec_from_name(line) is None);
    assert(word_token(line) == Token::<Seq<char>>::Memory(slot));
    let tokens = seq![Token::<Seq<char>>::Memory(slot), Token::<Seq<char>>::EOF];
    assert(lex_from(line, 2) == Ok::<Seq<Token<Seq<char>>>, CalcError<Seq<char>>>(
        seq![Token::EOF],
    ));
    assert(seq![Token::<Seq<char>>::Memory(slot)] + seq![Token::<Seq<char>>::EOF] =~= tokens);
    assert(lex(line) == Ok::<Seq<Token<Seq<char>>>, CalcError<Seq<char>>>(tokens));
    lemma_single_operand(Token::Memory(slot), Instr::Memory(slot));
    let code = seq![Instr::<Seq<char>>::Memory(slot)];
    let value = memory[slot as int];
    assert(machine::run_from(code, 1, seq![value], memory, last, answers) == machine::ended(
        Ok(seq![value]),
    ));
    assert(Seq::<u64>::empty().push(value) =~= seq![value]);
    assert(machine::run_from(code, 0, Seq::empty(), memory, last, answers) == machine::ended(
        Ok(seq![value]),
    ));
}

} // verus!
