//! The grammar of a line: an operator, whitespace, a byte in base ten.

use vstd::prelude::*;
use vstd::string::*;
use crate::operation::{Operation, ParseError};
use crate::text::{
    all_digits, byte_of, chars_of, decimal_digits, decimal_value, digit_char, is_digit,
    is_space, lemma_word_len_of_run, parse_byte, split_whitespace, token_views, tokens, unsigned_part,
};

verus! {

/// The operation that the token `symbol` names when it is given `n`.
pub open spec fn operation_of(symbol: Seq<char>, n: u8) -> Option<Operation> {
    if symbol == seq!['+'] {
        Some(Operation::Add(n))
    } else if symbol == seq!['-'] {
        Some(Operation::Sub(n))
    } else if symbol == seq!['*'] {
        Some(Operation::Mul(n))
    } else if symbol == seq!['/'] {
        Some(Operation::Div(n))
    } else {
        None
    }
}

/// What a line means. It must hold exactly two tokens; the second must
/// spell a byte; the first must be an operator. The checks are made in that
/// order, so a line with a bad operand and a bad operator has an invalid
/// operand.
pub open spec fn parse_line(line: Seq<char>) -> Result<Operation, ParseError> {
    let toks = tokens(line);
    if toks.len() != 2 {
        Err(ParseError::WrongArity)
    } else {
        match byte_of(toks[1]) {
            None => Err(ParseError::InvalidOperand),
            Some(n) => match operation_of(toks[0], n) {
                None => Err(ParseError::UnknownOperator),
                Some(op) => Ok(op),
            },
        }
    }
}

/// The character that names the operator of `op`.
pub open spec fn symbol_of(op: Operation) -> char {
    match op {
        Operation::Add(_) => '+',
        Operation::Sub(_) => '-',
        Operation::Mul(_) => '*',
        Operation::Div(_) => '/',
    }
}

/// The canonical text of `op`: its operator, one blank, and the shortest
/// spelling of its operand.
pub open spec fn format_line(op: Operation) -> Seq<char> {
    seq![symbol_of(op), ' '] + decimal_digits(op.spec_operand() as nat)
}

/// The shortest spelling of a number is a run of digits that spells it.
pub proof fn lemma_decimal_digits_spell(n: nat)
    ensures
        decimal_digits(n).len() >= 1,
        all_digits(decimal_digits(n)),
        decimal_value(decimal_digits(n)) == n,
    decreases n,
{
    if n < 10 {
        let s = decimal_digits(n);
        assert(s.drop_last() =~= Seq::<char>::empty());
        assert(decimal_value(s.drop_last()) == 0);
    } else {
        lemma_decimal_digits_spell(n / 10);
        let head = decimal_digits(n / 10);
        let s = decimal_digits(n);
        assert(s.drop_last() == head);
        assert forall|i: int| 0 <= i < s.len() implies is_digit(#[trigger] s[i]) by {
            if i < head.len() {
                assert(s[i] == head[i]);
            }
        }
    }
}

/// A token without whitespace that stands alone is the only token.
pub proof fn lemma_tokens_of_word(word: Seq<char>)
    requires
        word.len() >= 1,
        forall|i: int| 0 <= i < word.len() ==> !is_space(#[trigger] word[i]),
    ensures
        tokens(word) == seq![word],
{
    lemma_word_len_of_run(word, word.len() as int);
    assert(!is_space(word[0]));
    assert(word.take(word.len() as int) == word);
    assert(word.skip(word.len() as int).len() == 0);
    assert(tokens(word.skip(word.len() as int)) == Seq::<Seq<char>>::empty());
    assert(seq![word] + Seq::<Seq<char>>::empty() == seq![word]);
}

/// The canonical text of an operation splits into its operator and the
/// spelling of its operand.
pub proof fn lemma_tokens_of_format(op: Operation)
    ensures
        tokens(format_line(op)) == seq![
            seq![symbol_of(op)],
            decimal_digits(op.spec_operand() as nat),
        ],
{
    let digits = decimal_digits(op.spec_operand() as nat);
    let line = format_line(op);
    lemma_decimal_digits_spell(op.spec_operand() as nat);
    assert(line[0] == symbol_of(op));
    assert(line[1] == ' ');
    assert(!is_space(symbol_of(op)));
    assert(is_space(' '));
    lemma_word_len_of_run(line, 1);
    assert(line.take(1) == seq![symbol_of(op)]);
    let rest = line.skip(1);
    assert(rest[0] == ' ');
    assert(rest.drop_first() == digits);
    assert forall|i: int| 0 <= i < digits.len() implies !is_space(#[trigger] digits[i]) by {
        assert(is_digit(digits[i]));
    }
    lemma_tokens_of_word(digits);
    assert(tokens(rest) == seq![digits]);
    assert(seq![seq![symbol_of(op)]] + seq![digits] == seq![seq![symbol_of(op)], digits]);
}

/// Reading back the canonical text of an operation gives that operation.
pub proof fn lemma_parse_format(op: Operation)
    ensures
        parse_line(format_line(op)) == Ok::<Operation, ParseError>(op),
{
    let n = op.spec_operand();
    let digits = decimal_digits(n as nat);
    lemma_tokens_of_format(op);
    lemma_decimal_digits_spell(n as nat);
    let toks = tokens(format_line(op));
    assert(toks.len() == 2);
    assert(toks[1] == digits);
    assert(toks[0] == seq![symbol_of(op)]);
    assert(is_digit(digits[0]));
    assert(unsigned_part(digits) == digits);
    assert(byte_of(digits) == Some(n));
    assert(seq!['+'][0] == '+');
    assert(seq!['-'][0] == '-');
    assert(seq!['*'][0] == '*');
    assert(seq!['/'][0] == '/');
    assert(toks[0][0] == symbol_of(op));
}

/// Whether `token` is the single character `c`.
fn is_symbol(token: &Vec<char>, c: char) -> (b: bool)
    ensures
        b == (token@ == seq![c]),
{
    if token.len() == 1 && token[0] == c {
        assert(token@ =~= seq![c]);
        true
    } else {
        assert(seq![c].len() == 1 && seq![c][0] == c);
        false
    }
}

/// Reads a line that is given by its characters.
pub fn parse_chars(line: &Vec<char>) -> (res: Result<Operation, ParseError>)
    ensures
        res == parse_line(line@),
{
    let toks = split_whitespace(line);
    assert(token_views(toks@).len() == toks@.len());
    if toks.len() != 2 {
        return Err(ParseError::WrongArity);
    }
    assert(tokens(line@)[0] == toks@[0]@);
    assert(tokens(line@)[1] == toks@[1]@);
    let n = match parse_byte(&toks[1]) {
        Some(n) => n,
        None => {
            return Err(ParseError::InvalidOperand);
        },
    };
    let symbol = &toks[0];
    if is_symbol(symbol, '+') {
        Ok(Operation::Add(n))
    } else if is_symbol(symbol, '-') {
        Ok(Operation::Sub(n))
    } else if is_symbol(symbol, '*') {
        Ok(Operation::Mul(n))
    } else if is_symbol(symbol, '/') {
        Ok(Operation::Div(n))
    } else {
        Err(ParseError::UnknownOperator)
    }
}

/// The one-character text of a digit.
fn digit_str(d: u8) -> (s: &'static str)
    requires
        d < 10,
    ensures
        s@ == seq![digit_char(d as nat)],
{
    proof {
        reveal_strlit("0");
        reveal_strlit("1");
        reveal_strlit("2");
        reveal_strlit("3");
        reveal_strlit("4");
        reveal_strlit("5");
        reveal_strlit("6");
        reveal_strlit("7");
        reveal_strlit("8");
        reveal_strlit("9");
    }
    let s = match d {
        0 => "0",
        1 => "1",
        2 => "2",
        3 => "3",
        4 => "4",
        5 => "5",
        6 => "6",
        7 => "7",
        8 => "8",
        _ => "9",
    };
    assert(s@ =~= seq![digit_char(d as nat)]);
    s
}

impl Operation {
    /// Reads one line of text as an operation.
    pub fn from_str(s: &str) -> (res: Result<Operation, ParseError>)
        ensures
            res == parse_line(s@),
    {
        let line = chars_of(s);
        parse_chars(&line)
    }

    /// Writes the operation as a line of text that `from_str` reads back.
    pub fn format(&self) -> (s: String)
        ensures
            s@ == format_line(*self),
    {
        proof {
            reveal_strlit("+ ");
            reveal_strlit("- ");
            reveal_strlit("* ");
            reveal_strlit("/ ");
        }
        let head = match self {
            Operation::Add(_) => "+ ",
            Operation::Sub(_) => "- ",
            Operation::Mul(_) => "* ",
            Operation::Div(_) => "/ ",
        };
        assert(head@ =~= seq![symbol_of(*self), ' ']);
        let n: u8 = self.operand();
        let mut s = String::from_str(head);
        if n >= 100 {
            s.append(digit_str(n / 100));
        }
        if n >= 10 {
            s.append(digit_str((n / 10) % 10));
        }
        s.append(digit_str(n % 10));
        proof {
            let m = n as nat;
            if m >= 100 {
                assert(decimal_digits(m / 100) == seq![digit_char(m / 100)]);
                assert(decimal_digits(m / 10) == decimal_digits(m / 100).push(
                    digit_char((m / 10) % 10),
                ));
            } else if m >= 10 {
                assert(decimal_digits(m / 10) == seq![digit_char(m / 10)]);
            }
            assert(s@ =~= format_line(*self));
        }
        s
    }
}

} // verus!
