//! The symbol table.
//!
//! Fifty-five entries: the letters (case-insensitive), the digits,
//! punctuation, and the space, which is written as the single token "/".
//! Every dot/dash pattern is held as its bit value and length, in the
//! model of [`crate::code`].  Looking a pattern up returns the canonical
//! character of its entry: the upper-case letter, or the literal itself.

use vstd::prelude::*;

use crate::code::code_seq;
use crate::code::lemma_bits_of_code;
use crate::code::lemma_code_seq_len;
use crate::code::lemma_code_seq_symbols;
use crate::code::two_pow;

verus! {

/// The pattern of a character, as bit value and length; `None` when the
/// character has no entry.  Letters match in both cases; the space is not
/// here, its token "/" is no dot/dash pattern.
pub open spec fn char_code(c: char) -> Option<(u8, u8)> {
    match c {
        'A' | 'a' => Some((2, 2)),
        'B' | 'b' => Some((7, 4)),
        'C' | 'c' => Some((5, 4)),
        'D' | 'd' => Some((3, 3)),
        'E' | 'e' => Some((1, 1)),
        'F' | 'f' => Some((13, 4)),
        'G' | 'g' => Some((1, 3)),
        'H' | 'h' => Some((15, 4)),
        'I' | 'i' => Some((3, 2)),
        'J' | 'j' => Some((8, 4)),
        'K' | 'k' => Some((2, 3)),
        'L' | 'l' => Some((11, 4)),
        'M' | 'm' => Some((0, 2)),
        'N' | 'n' => Some((1, 2)),
        'O' | 'o' => Some((0, 3)),
        'P' | 'p' => Some((9, 4)),
        'Q' | 'q' => Some((2, 4)),
        'R' | 'r' => Some((5, 3)),
        'S' | 's' => Some((7, 3)),
        'T' | 't' => Some((0, 1)),
        'U' | 'u' => Some((6, 3)),
        'V' | 'v' => Some((14, 4)),
        'W' | 'w' => Some((4, 3)),
        'X' | 'x' => Some((6, 4)),
        'Y' | 'y' => Some((4, 4)),
        'Z' | 'z' => Some((3, 4)),
        '0' => Some((0, 5)),
        '1' => Some((16, 5)),
        '2' => Some((24, 5)),
        '3' => Some((28, 5)),
        '4' => Some((30, 5)),
        '5' => Some((31, 5)),
        '6' => Some((15, 5)),
        '7' => Some((7, 5)),
        '8' => Some((3, 5)),
        '9' => Some((1, 5)),
        '.' => Some((42, 6)),
        ',' => Some((12, 6)),
        '?' => Some((51, 6)),
        '\'' => Some((33, 6)),
        '!' => Some((20, 6)),
        '/' => Some((13, 5)),
        '(' => Some((9, 5)),
        ')' => Some((18, 6)),
        '&' => Some((23, 5)),
        ':' => Some((7, 6)),
        ';' => Some((21, 6)),
        '=' => Some((14, 5)),
        '+' => Some((21, 5)),
        '-' => Some((30, 6)),
        '_' => Some((50, 6)),
        '"' => Some((45, 6)),
        '$' => Some((118, 7)),
        '@' => Some((37, 6)),
        _ => None,
    }
}

/// The canonical character of a pattern's entry, by the pattern's bit
/// value and length; `None` when no entry has that pattern.
pub open spec fn code_char(bits: u8, len: u8) -> Option<char> {
    match (len, bits) {
        (1, 1) => Some('E'),
        (1, 0) => Some('T'),
        (2, 2) => Some('A'),
        (2, 3) => Some('I'),
        (2, 0) => Some('M'),
        (2, 1) => Some('N'),
        (3, 3) => Some('D'),
        (3, 1) => Some('G'),
        (3, 2) => Some('K'),
        (3, 0) => Some('O'),
        (3, 5) => Some('R'),
        (3, 7) => Some('S'),
        (3, 6) => Some('U'),
        (3, 4) => Some('W'),
        (4, 7) => Some('B'),
        (4, 5) => Some('C'),
        (4, 13) => Some('F'),
        (4, 15) => Some('H'),
        (4, 8) => Some('J'),
        (4, 11) => Some('L'),
        (4, 9) => Some('P'),
        (4, 2) => Some('Q'),
        (4, 14) => Some('V'),
        (4, 6) => Some('X'),
        (4, 4) => Some('Y'),
        (4, 3) => Some('Z'),
        (5, 0) => Some('0'),
        (5, 16) => Some('1'),
        (5, 24) => Some('2'),
        (5, 28) => Some('3'),
        (5, 30) => Some('4'),
        (5, 31) => Some('5'),
        (5, 15) => Some('6'),
        (5, 7) => Some('7'),
        (5, 3) => Some('8'),
        (5, 1) => Some('9'),
        (6, 42) => Some('.'),
        (6, 12) => Some(','),
        (6, 51) => Some('?'),
        (6, 33) => Some('\''),
        (6, 20) => Some('!'),
        (5, 13) => Some('/'),
        (5, 9) => Some('('),
        (6, 18) => Some(')'),
        (5, 23) => Some('&'),
        (6, 7) => Some(':'),
        (6, 21) => Some(';'),
        (5, 14) => Some('='),
        (5, 21) => Some('+'),
        (6, 30) => Some('-'),
        (6, 50) => Some('_'),
        (6, 45) => Some('"'),
        (7, 118) => Some('$'),
        (6, 37) => Some('@'),
        _ => None,
    }
}

/// The canonical form of a character: the letter upper-cased, anything
/// else itself.
pub open spec fn canon(c: char) -> char {
    match c {
        'a' => 'A',
        'b' => 'B',
        'c' => 'C',
        'd' => 'D',
        'e' => 'E',
        'f' => 'F',
        'g' => 'G',
        'h' => 'H',
        'i' => 'I',
        'j' => 'J',
        'k' => 'K',
        'l' => 'L',
        'm' => 'M',
        'n' => 'N',
        'o' => 'O',
        'p' => 'P',
        'q' => 'Q',
        'r' => 'R',
        's' => 'S',
        't' => 'T',
        'u' => 'U',
        'v' => 'V',
        'w' => 'W',
        'x' => 'X',
        'y' => 'Y',
        'z' => 'Z',
        _ => c,
    }
}

/// The full token of a character: the space's "/", a table pattern, or
/// `None` for a character outside the table.
pub open spec fn char_pattern(c: char) -> Option<Seq<char>> {
    if c == ' ' {
        Some(seq!['/'])
    } else {
        match char_code(c) {
            Some(p) => Some(code_seq(p.0 as nat, p.1 as nat)),
            None => None,
        }
    }
}

/// Every table pattern is one to seven symbols long, its bit value fits
/// its length, and looking the pattern up returns the canonical form of
/// the character it encodes.
#[verifier::rlimit(60)]
pub proof fn lemma_table_round_trip(c: char)
    requires
        char_code(c) is Some,
    ensures
        ({
            let (bits, len) = char_code(c)->Some_0;
            &&& 1 <= len <= 7
            &&& (bits as nat) < two_pow(len as nat)
            &&& code_char(bits, len) == Some(canon(c))
        }),
{
    reveal_with_fuel(two_pow, 9);
}

/// Executable table lookup by character.
pub fn char_code_x(c: char) -> (r: Option<(u8, u8)>)
    ensures
        r == char_code(c),
{
    match c {
        'A' | 'a' => Some((2, 2)),
        'B' | 'b' => Some((7, 4)),
        'C' | 'c' => Some((5, 4)),
        'D' | 'd' => Some((3, 3)),
        'E' | 'e' => Some((1, 1)),
        'F' | 'f' => Some((13, 4)),
        'G' | 'g' => Some((1, 3)),
        'H' | 'h' => Some((15, 4)),
        'I' | 'i' => Some((3, 2)),
        'J' | 'j' => Some((8, 4)),
        'K' | 'k' => Some((2, 3)),
        'L' | 'l' => Some((11, 4)),
        'M' | 'm' => Some((0, 2)),
        'N' | 'n' => Some((1, 2)),
        'O' | 'o' => Some((0, 3)),
        'P' | 'p' => Some((9, 4)),
        'Q' | 'q' => Some((2, 4)),
        'R' | 'r' => Some((5, 3)),
        'S' | 's' => Some((7, 3)),
        'T' | 't' => Some((0, 1)),
        'U' | 'u' => Some((6, 3)),
        'V' | 'v' => Some((14, 4)),
        'W' | 'w' => Some((4, 3)),
        'X' | 'x' => Some((6, 4)),
        'Y' | 'y' => Some((4, 4)),
        'Z' | 'z' => Some((3, 4)),
        '0' => Some((0, 5)),
        '1' => Some((16, 5)),
        '2' => Some((24, 5)),
        '3' => Some((28, 5)),
        '4' => Some((30, 5)),
        '5' => Some((31, 5)),
        '6' => Some((15, 5)),
        '7' => Some((7, 5)),
        '8' => Some((3, 5)),
        '9' => Some((1, 5)),
        '.' => Some((42, 6)),
        ',' => Some((12, 6)),
        '?' => Some((51, 6)),
        '\'' => Some((33, 6)),
        '!' => Some((20, 6)),
        '/' => Some((13, 5)),
        '(' => Some((9, 5)),
        ')' => Some((18, 6)),
        '&' => Some((23, 5)),
        ':' => Some((7, 6)),
        ';' => Some((21, 6)),
        '=' => Some((14, 5)),
        '+' => Some((21, 5)),
        '-' => Some((30, 6)),
        '_' => Some((50, 6)),
        '"' => Some((45, 6)),
        '$' => Some((118, 7)),
        '@' => Some((37, 6)),
        _ => None,
    }
}

/// Executable table lookup by pattern bits and length.
pub fn code_char_x(bits: u8, len: u8) -> (r: Option<char>)
    ensures
        r == code_char(bits, len),
{
    match (len, bits) {
        (1, 1) => Some('E'),
        (1, 0) => Some('T'),
        (2, 2) => Some('A'),
        (2, 3) => Some('I'),
        (2, 0) => Some('M'),
        (2, 1) => Some('N'),
        (3, 3) => Some('D'),
        (3, 1) => Some('G'),
        (3, 2) => Some('K'),
        (3, 0) => Some('O'),
        (3, 5) => Some('R'),
        (3, 7) => Some('S'),
        (3, 6) => Some('U'),
        (3, 4) => Some('W'),
        (4, 7) => Some('B'),
        (4, 5) => Some('C'),
        (4, 13) => Some('F'),
        (4, 15) => Some('H'),
        (4, 8) => Some('J'),
        (4, 11) => Some('L'),
        (4, 9) => Some('P'),
        (4, 2) => Some('Q'),
        (4, 14) => Some('V'),
        (4, 6) => Some('X'),
        (4, 4) => Some('Y'),
        (4, 3) => Some('Z'),
        (5, 0) => Some('0'),
        (5, 16) => Some('1'),
        (5, 24) => Some('2'),
        (5, 28) => Some('3'),
        (5, 30) => Some('4'),
        (5, 31) => Some('5'),
        (5, 15) => Some('6'),
        (5, 7) => Some('7'),
        (5, 3) => Some('8'),
        (5, 1) => Some('9'),
        (6, 42) => Some('.'),
        (6, 12) => Some(','),
        (6, 51) => Some('?'),
        (6, 33) => Some('\''),
        (6, 20) => Some('!'),
        (5, 13) => Some('/'),
        (5, 9) => Some('('),
        (6, 18) => Some(')'),
        (5, 23) => Some('&'),
        (6, 7) => Some(':'),
        (6, 21) => Some(';'),
        (5, 14) => Some('='),
        (5, 21) => Some('+'),
        (6, 30) => Some('-'),
        (6, 50) => Some('_'),
        (6, 45) => Some('"'),
        (7, 118) => Some('$'),
        (6, 37) => Some('@'),
        _ => None,
    }
}

} // verus!
