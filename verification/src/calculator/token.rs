use crate::calculator::error::CalcError;
use crate::calculator::names::Constant;
use crate::text::chars_of;
use vstd::prelude::*;
use vstd::string::StrSliceExecFns;

verus! {

/// One lexical unit of an expression. `S` is the type of the text that a
/// token carries: `String` in a running program, `Seq<char>` in
/// specifications.
#[derive(Debug, Clone, PartialEq)]
pub enum Token<S> {
    /// A decimal numeral, as written.
    Number(S),
    /// One of `+ - * / %`.
    Operator(char),
    /// `**` or `^`.
    Power,
    LeftParen,
    RightParen,
    /// An identifier that is neither a constant nor a memory slot.
    Function(S),
    /// One of the ten memory slots, by its index.
    Memory(usize),
    /// The name of a constant.
    Constant(S),
    /// `_`, the last result.
    LastResult,
    /// The end of the input.
    EOF,
}

impl View for Token<String> {
    type V = Token<Seq<char>>;

    open spec fn view(&self) -> Token<Seq<char>> {
        match *self {
            Token::Number(text) => Token::Number(text@),
            Token::Operator(c) => Token::Operator(c),
            Token::Power => Token::Power,
            Token::LeftParen => Token::LeftParen,
            Token::RightParen => Token::RightParen,
            Token::Function(name) => Token::Function(name@),
            Token::Memory(slot) => Token::Memory(slot),
            Token::Constant(name) => Token::Constant(name@),
            Token::LastResult => Token::LastResult,
            Token::EOF => Token::EOF,
        }
    }
}

/// No token names a memory slot beyond the ten that exist.
pub open spec fn slots_exist(tokens: Seq<Token<Seq<char>>>) -> bool {
    forall|i: int|
        0 <= i < tokens.len() ==> match #[trigger] tokens[i] {
            Token::Memory(slot) => slot < 10,
            _ => true,
        }
}

/// The tokens of a program value, as specifications see them.
pub open spec fn token_views(tokens: Seq<Token<String>>) -> Seq<Token<Seq<char>>> {
    tokens.map_values(|t: Token<String>| t@)
}

/// Whether `char::is_alphabetic` holds of a character: the Alphabetic
/// property of the Unicode standard.
pub uninterp spec fn unicode_alphabetic(c: char) -> bool;

/// `char::is_alphabetic` of the standard library. Its result is a fixed
/// property of the character; nothing more is claimed of it.
pub assume_specification[ char::is_alphabetic ](c: char) -> (b: bool)
    ensures
        b == unicode_alphabetic(c),
;

/// One of the ten ASCII digits.
pub open spec fn is_digit(c: char) -> bool {
    '0' <= c <= '9'
}

/// One of the letters of ASCII, small or capital.
pub open spec fn is_letter(c: char) -> bool {
    ('a' <= c <= 'z') || ('A' <= c <= 'Z')
}

/// A character of a numeral.
pub open spec fn number_char(c: char) -> bool {
    is_digit(c) || c == '.'
}

/// A character that continues an identifier: a letter or a digit of ASCII,
/// or a character beyond ASCII that is alphabetic.
pub open spec fn word_char(c: char) -> bool {
    is_letter(c) || is_digit(c) || (c > '\x7f' && unicode_alphabetic(c))
}

/// The length of the longest run of numeral characters that starts at `from`.
pub open spec fn number_run(s: Seq<char>, from: int) -> nat
    decreases s.len() - from,
{
    if 0 <= from < s.len() && number_char(s[from]) {
        1 + number_run(s, from + 1)
    } else {
        0
    }
}

/// The length of the longest run of identifier characters that starts at `from`.
pub open spec fn word_run(s: Seq<char>, from: int) -> nat
    decreases s.len() - from,
{
    if 0 <= from < s.len() && word_char(s[from]) {
        1 + word_run(s, from + 1)
    } else {
        0
    }
}

/// How many of the characters are dots.
pub open spec fn dot_count(s: Seq<char>) -> nat
    decreases s.len(),
{
    if s.len() == 0 {
        0
    } else {
        dot_count(s.drop_last()) + if s.last() == '.' {
            1nat
        } else {
            0nat
        }
    }
}

/// A decimal numeral: digits with at most one dot among them, and at least
/// one digit.
pub open spec fn valid_number(text: Seq<char>) -> bool {
    &&& forall|i: int| 0 <= i < text.len() ==> number_char(#[trigger] text[i])
    &&& dot_count(text) <= 1
    &&& dot_count(text) < text.len()
}

/// The token that an identifier stands for.
pub open spec fn word_token(word: Seq<char>) -> Token<Seq<char>> {
    if Constant::spec_from_name(word) is Some {
        Token::Constant(word)
    } else if word.len() == 2 && word[0] == 'm' && is_digit(word[1]) {
        Token::Memory((word[1] as u32 - 48) as usize)
    } else {
        Token::Function(word)
    }
}

/// The tokens `front`, followed by what the rest of the input gives.
pub open spec fn followed_by(
    front: Seq<Token<Seq<char>>>,
    rest: Result<Seq<Token<Seq<char>>>, CalcError<Seq<char>>>,
) -> Result<Seq<Token<Seq<char>>>, CalcError<Seq<char>>> {
    match rest {
        Ok(tokens) => Ok(front + tokens),
        Err(e) => Err(e),
    }
}

/// How much of the input is left at `pos`.
pub open spec fn left(s: Seq<char>, pos: int) -> nat {
    if 0 <= pos <= s.len() {
        (s.len() - pos) as nat
    } else {
        0
    }
}

/// The tokens of the input from `pos` on, or the error of the first numeral
/// there that is no number.
pub open spec fn lex_from(s: Seq<char>, pos: int) -> Result<
    Seq<Token<Seq<char>>>,
    CalcError<Seq<char>>,
>
    decreases left(s, pos),
{
    if pos < 0 || pos >= s.len() {
        Ok(seq![Token::EOF])
    } else {
        let c = s[pos];
        if number_char(c) {
            let end = pos + 1 + number_run(s, pos + 1);
            let text = s.subrange(pos, end);
            if valid_number(text) {
                followed_by(seq![Token::Number(text)], lex_from(s, end))
            } else {
                Err(CalcError::InvalidNumber)
            }
        } else if c == '+' || c == '-' || c == '/' || c == '%' {
            followed_by(seq![Token::Operator(c)], lex_from(s, pos + 1))
        } else if c == '*' {
            if pos + 1 < s.len() && s[pos + 1] == '*' {
                followed_by(seq![Token::Power], lex_from(s, pos + 2))
            } else {
                followed_by(seq![Token::Operator('*')], lex_from(s, pos + 1))
            }
        } else if c == '(' {
            followed_by(seq![Token::LeftParen], lex_from(s, pos + 1))
        } else if c == ')' {
            followed_by(seq![Token::RightParen], lex_from(s, pos + 1))
        } else if c == '_' {
            followed_by(seq![Token::LastResult], lex_from(s, pos + 1))
        } else if c == '^' {
            followed_by(seq![Token::Power], lex_from(s, pos + 1))
        } else if is_letter(c) {
            let end = pos + 1 + word_run(s, pos + 1);
            followed_by(seq![word_token(s.subrange(pos, end))], lex_from(s, end))
        } else {
            lex_from(s, pos + 1)
        }
    }
}

/// The tokens of a line, ended by `EOF`, or `InvalidNumber`. Characters that
/// begin no token, blanks among them, are passed over.
pub open spec fn lex(s: Seq<char>) -> Result<Seq<Token<Seq<char>>>, CalcError<Seq<char>>> {
    lex_from(s, 0)
}

/// Whether the character belongs to a numeral.
fn digit_or_dot(c: char) -> (r: bool)
    ensures
        r == number_char(c),
{
    (c >= '0' && c <= '9') || c == '.'
}

/// Whether the character is a letter of ASCII.
fn letter(c: char) -> (r: bool)
    ensures
        r == is_letter(c),
{
    (c >= 'a' && c <= 'z') || (c >= 'A' && c <= 'Z')
}

/// Whether the character continues an identifier.
fn continues_word(c: char) -> (r: bool)
    ensures
        r == word_char(c),
{
    letter(c) || (c >= '0' && c <= '9') || (c > '\x7f' && c.is_alphabetic())
}

/// Reads the numeral that begins at `start`: where it ends, and how many dots
/// it holds.
fn scan_number(chars: &Vec<char>, start: usize) -> (res: (usize, usize))
    requires
        start < chars.len(),
        number_char(chars@[start as int]),
    ensures
        res.0 == start + 1 + number_run(chars@, start + 1),
        start < res.0 <= chars.len(),
        res.1 == dot_count(chars@.subrange(start as int, res.0 as int)),
        forall|i: int| start <= i < res.0 ==> number_char(#[trigger] chars@[i]),
{
    let n = chars.len();
    let mut end: usize = start + 1;
    let mut dots: usize = if chars[start] == '.' {
        1
    } else {
        0
    };
    proof {
        let one = chars@.subrange(start as int, start + 1);
        assert(one.drop_last() =~= Seq::<char>::empty());
        assert(dot_count(one.drop_last()) == 0);
    }
    while end < n && digit_or_dot(chars[end])
        invariant
            n == chars.len(),
            start < end <= n,
            dots <= end - start,
            dots == dot_count(chars@.subrange(start as int, end as int)),
            forall|i: int| start <= i < end ==> number_char(#[trigger] chars@[i]),
            start + 1 + number_run(chars@, start + 1) == end + number_run(chars@, end as int),
        decreases n - end,
    {
        proof {
            let longer = chars@.subrange(start as int, end + 1);
            assert(longer.drop_last() =~= chars@.subrange(start as int, end as int));
        }
        if chars[end] == '.' {
            dots += 1;
        }
        end += 1;
    }
    (end, dots)
}

/// Finds where the identifier that begins at `start` ends.
fn scan_word(chars: &Vec<char>, start: usize) -> (end: usize)
    requires
        start < chars.len(),
    ensures
        end == start + 1 + word_run(chars@, start + 1),
        start < end <= chars.len(),
{
    let n = chars.len();
    let mut end: usize = start + 1;
    while end < n && continues_word(chars[end])
        invariant
            n == chars.len(),
            start < end <= n,
            start + 1 + word_run(chars@, start + 1) == end + word_run(chars@, end as int),
        decreases n - end,
    {
        end += 1;
    }
    end
}

/// The token of the identifier that stands at `start .. end`.
fn classify_word(input: &str, chars: &Vec<char>, start: usize, end: usize) -> (token: Token<String>)
    requires
        chars@ == input@,
        start < end <= chars.len(),
    ensures
        token@ == word_token(input@.subrange(start as int, end as int)),
{
    let text = input.substring_char(start, end);
    let ghost word = input@.subrange(start as int, end as int);
    if Constant::from_name(text).is_some() {
        Token::Constant(text.to_owned())
    } else if end - start == 2 && chars[start] == 'm' && chars[start + 1] >= '0' && chars[start
        + 1] <= '9' {
        proof {
            assert(word[0] == chars@[start as int]);
            assert(word[1] == chars@[start + 1]);
        }
        let digit: u32 = chars[start + 1] as u32 - 48;
        Token::Memory(digit as usize)
    } else {
        proof {
            if word.len() == 2 {
                assert(word[0] == chars@[start as int]);
                assert(word[1] == chars@[start + 1]);
            }
        }
        Token::Function(text.to_owned())
    }
}

/// Splits a line into its tokens and appends `EOF`; the first numeral that is
/// no number ends the work with `InvalidNumber`.
pub fn tokenize(input: &str) -> (result: Result<Vec<Token<String>>, CalcError<String>>)
    ensures
        match lex(input@) {
            Ok(tokens) => result is Ok && token_views(result->Ok_0@) == tokens,
            Err(e) => result is Err && result->Err_0@ == e,
        },
        result is Ok ==> slots_exist(token_views(result->Ok_0@)),
{
    let chars = chars_of(input);
    let n = chars.len();
    let mut tokens: Vec<Token<String>> = Vec::new();
    let mut pos: usize = 0;
    proof {
        assert(token_views(tokens@) =~= Seq::empty());
        lemma_followed_by_nothing(lex(input@));
    }
    while pos < n
        invariant
            chars@ == input@,
            n == chars.len(),
            pos <= n,
            lex(input@) == followed_by(token_views(tokens@), lex_from(input@, pos as int)),
            slots_exist(token_views(tokens@)),
        decreases n - pos,
    {
        let ch = chars[pos];
        let ghost before = token_views(tokens@);
        let ghost here = pos as int;
        if digit_or_dot(ch) {
            let (end, dots) = scan_number(&chars, pos);
            proof {
                let text = input@.subrange(here, end as int);
                assert forall|i: int| 0 <= i < text.len() implies number_char(
                    #[trigger] text[i],
                ) by {
                    assert(text[i] == chars@[here + i]);
                }
            }
            if dots > 1 || dots >= end - pos {
                return Err(CalcError::InvalidNumber);
            }
            let text = input.substring_char(pos, end).to_owned();
            tokens.push(Token::Number(text));
            pos = end;
        } else if ch == '+' || ch == '-' || ch == '/' || ch == '%' {
            tokens.push(Token::Operator(ch));
            pos += 1;
        } else if ch == '*' {
            if pos + 1 < n && chars[pos + 1] == '*' {
                tokens.push(Token::Power);
                pos += 2;
            } else {
                tokens.push(Token::Operator('*'));
                pos += 1;
            }
        } else if ch == '(' {
            tokens.push(Token::LeftParen);
            pos += 1;
        } else if ch == ')' {
            tokens.push(Token::RightParen);
            pos += 1;
        } else if ch == '_' {
            tokens.push(Token::LastResult);
            pos += 1;
        } else if ch == '^' {
            tokens.push(Token::Power);
            pos += 1;
        } else if letter(ch) {
            let end = scan_word(&chars, pos);
            let token = classify_word(input, &chars, pos, end);
            tokens.push(token);
            pos = end;
        } else {
            pos += 1;
        }
        proof {
            if token_views(tokens@).len() > before.len() {
                let added = token_views(tokens@).last();
                assert(token_views(tokens@) =~= before.push(added));
                lemma_followed_by_push(before, added, lex_from(input@, pos as int));
            } else {
                assert(token_views(tokens@) =~= before);
            }
        }
    }
    let ghost before = token_views(tokens@);
    tokens.push(Token::EOF);
    proof {
        assert(token_views(tokens@) =~= before + seq![Token::EOF]);
    }
    Ok(tokens)
}

/// Tokens after no tokens are those tokens.
proof fn lemma_followed_by_nothing(rest: Result<Seq<Token<Seq<char>>>, CalcError<Seq<char>>>)
    ensures
        followed_by(Seq::empty(), rest) == rest,
{
    if let Ok(tokens) = rest {
        assert(Seq::<Token<Seq<char>>>::empty() + tokens =~= tokens);
    }
}

/// A token more in front is a token less in what follows.
proof fn lemma_followed_by_push(
    front: Seq<Token<Seq<char>>>,
    token: Token<Seq<char>>,
    rest: Result<Seq<Token<Seq<char>>>, CalcError<Seq<char>>>,
)
    ensures
        followed_by(front, followed_by(seq![token], rest)) == followed_by(front.push(token), rest),
{
    if let Ok(tokens) = rest {
        assert(front + (seq![token] + tokens) =~= front.push(token) + tokens);
    }
}

} // verus!
