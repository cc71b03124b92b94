use crate::calculator::token::is_digit;
use crate::text::{chars_of, spells};
use vstd::prelude::*;

verus! {

/// What a line asks for. `S` is the type of the text of an expression.
#[derive(Debug, Clone, PartialEq)]
pub enum Command<S> {
    Exit,
    Help,
    ClearResult,
    SaveMemory(usize),
    ClearMemory(usize),
    Evaluate(S),
}

/// Whether a line stores into a memory slot, clears one, or is an expression.
#[derive(Debug, Clone, Copy, PartialEq, Eq, Structural)]
pub enum InputType {
    MemorySave(usize),
    MemoryClear(usize),
    Expression,
}

impl View for Command<String> {
    type V = Command<Seq<char>>;

    open spec fn view(&self) -> Command<Seq<char>> {
        match *self {
            Command::Exit => Command::Exit,
            Command::Help => Command::Help,
            Command::ClearResult => Command::ClearResult,
            Command::SaveMemory(slot) => Command::SaveMemory(slot),
            Command::ClearMemory(slot) => Command::ClearMemory(slot),
            Command::Evaluate(text) => Command::Evaluate(text@),
        }
    }
}

/// What `str::trim` gives for a string: the string without the white space
/// at its two ends.
pub uninterp spec fn trimmed(s: Seq<char>) -> Seq<char>;

/// `str::trim` of the standard library. Its result is a function of the
/// characters of its argument alone; nothing more is claimed of it.
pub assume_specification[ str::trim ](s: &str) -> (r: &str)
    ensures
        r@ == trimmed(s@),
;

/// The slot that a line of exactly `letter` and one digit names.
pub open spec fn slot_named(line: Seq<char>, letter: char) -> Option<usize> {
    if line.len() == 2 && line[0] == letter && is_digit(line[1]) {
        Some((line[1] as u32 - 48) as usize)
    } else {
        None
    }
}

/// The kind of a line without white space at its ends.
pub open spec fn input_type(line: Seq<char>) -> InputType {
    if let Some(slot) = slot_named(line, 'm') {
        InputType::MemorySave(slot)
    } else if let Some(slot) = slot_named(line, 'c') {
        InputType::MemoryClear(slot)
    } else {
        InputType::Expression
    }
}

/// The command of a line without white space at its ends.
pub open spec fn command_of(line: Seq<char>) -> Command<Seq<char>> {
    if line == "q"@ || line == "quit"@ || line == "exit"@ {
        Command::Exit
    } else if line == "?"@ || line == "help"@ {
        Command::Help
    } else if line == "clear"@ {
        Command::ClearResult
    } else {
        match input_type(line) {
            InputType::MemorySave(slot) => Command::SaveMemory(slot),
            InputType::MemoryClear(slot) => Command::ClearMemory(slot),
            InputType::Expression => Command::Evaluate(line),
        }
    }
}

/// The line of `m` and the digit of a slot asks to store into that slot, and
/// the line of `c` and the digit asks to clear it.
pub proof fn lemma_slot_lines(slot: usize)
    requires
        slot < 10,
    ensures
        command_of(seq!['m', (slot + 48) as char]) == Command::<Seq<char>>::SaveMemory(slot),
        command_of(seq!['c', (slot + 48) as char]) == Command::<Seq<char>>::ClearMemory(slot),
{
    reveal_strlit("q");
    reveal_strlit("quit");
    reveal_strlit("exit");
    reveal_strlit("?");
    reveal_strlit("help");
    reveal_strlit("clear");
    let digit = (slot + 48) as char;
    let save = seq!['m', digit];
    let clear = seq!['c', digit];
    assert(save.len() == 2 && save[0] == 'm' && save[1] == digit);
    assert(clear.len() == 2 && clear[0] == 'c' && clear[1] == digit);
    assert(slot_named(save, 'm') == Some(slot));
    assert(slot_named(clear, 'm') is None);
    assert(slot_named(clear, 'c') == Some(slot));
}

/// The slot named by a line that is exactly `letter` and one digit.
pub fn slot_in(line: &str, letter: char) -> (slot: Option<usize>)
    ensures
        slot == slot_named(line@, letter),
        slot matches Some(i) ==> i < 10,
{
    let chars = chars_of(line);
    if chars.len() == 2 && chars[0] == letter && chars[1] >= '0' && chars[1] <= '9' {
        let digit: u32 = chars[1] as u32 - 48;
        Some(digit as usize)
    } else {
        None
    }
}

/// The kind of a line without white space at its ends.
pub fn classify_trimmed(line: &str) -> (kind: InputType)
    ensures
        kind == input_type(line@),
{
    if let Some(slot) = slot_in(line, 'm') {
        InputType::MemorySave(slot)
    } else if let Some(slot) = slot_in(line, 'c') {
        InputType::MemoryClear(slot)
    } else {
        InputType::Expression
    }
}

/// The command of a line without white space at its ends.
pub fn command_of_trimmed(line: &str) -> (command: Command<String>)
    ensures
        command@ == command_of(line@),
{
    let chars = chars_of(line);
    if spells(&chars, "q") || spells(&chars, "quit") || spells(&chars, "exit") {
        Command::Exit
    } else if spells(&chars, "?") || spells(&chars, "help") {
        Command::Help
    } else if spells(&chars, "clear") {
        Command::ClearResult
    } else {
        match classify_trimmed(line) {
            InputType::MemorySave(slot) => Command::SaveMemory(slot),
            InputType::MemoryClear(slot) => Command::ClearMemory(slot),
            InputType::Expression => Command::Evaluate(line.to_owned()),
        }
    }
}

/// The slot to store the last result into, if the line, apart from white
/// space at its ends, is `m` and one digit.
pub fn is_memory_save(input: &str) -> (slot: Option<usize>)
    ensures
        slot == slot_named(trimmed(input@), 'm'),
        slot matches Some(i) ==> i < 10,
{
    slot_in(input.trim(), 'm')
}

/// The slot to clear, if the line, apart from white space at its ends, is `c`
/// and one digit.
pub fn is_memory_clear(input: &str) -> (slot: Option<usize>)
    ensures
        slot == slot_named(trimmed(input@), 'c'),
        slot matches Some(i) ==> i < 10,
{
    slot_in(input.trim(), 'c')
}

/// The kind of a line, white space at its ends apart.
pub fn classify_input(input: &str) -> (kind: InputType)
    ensures
        kind == input_type(trimmed(input@)),
{
    classify_trimmed(input.trim())
}

/// The command of a line, white space at its ends apart.
pub fn parse_command(input: &str) -> (command: Command<String>)
    ensures
        command@ == command_of(trimmed(input@)),
{
    command_of_trimmed(input.trim())
}

} // verus!
