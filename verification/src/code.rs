//! Dot/dash codes as bit patterns.
//!
//! A Morse token made of dots and dashes is modelled as a pair of a bit
//! value and a length: symbol number `j` of a token of length `len` is a
//! dot exactly when bit `len - 1 - j` of the value is one.  The same model
//! serves the symbol table (patterns of one to seven symbols) and the
//! escape protocol (one eight-symbol token per byte, most significant bit
//! first, dot for one, dash for zero).

use vstd::prelude::*;

verus! {

/// A dot or a dash.
pub open spec fn is_symbol(c: char) -> bool {
    c == '.' || c == '-'
}

/// A code token: one to eight symbols, dots and dashes only.
pub open spec fn is_code(t: Seq<char>) -> bool {
    1 <= t.len() <= 8 && forall|i: int| 0 <= i < t.len() ==> is_symbol(#[trigger] t[i])
}

/// The token spelling the low `len` bits of `bits`, most significant bit
/// first: a dot for a one bit, a dash for a zero bit.
pub open spec fn code_seq(bits: nat, len: nat) -> Seq<char>
    decreases len,
{
    if len == 0 {
        Seq::empty()
    } else {
        code_seq(bits / 2, (len - 1) as nat).push(
            if bits % 2 == 1 {
                '.'
            } else {
                '-'
            },
        )
    }
}

/// The bit value read back from a token, most significant symbol first.
pub open spec fn bits_of(t: Seq<char>) -> nat
    decreases t.len(),
{
    if t.len() == 0 {
        0
    } else {
        bits_of(t.drop_last()) * 2 + (if t.last() == '.' {
            1nat
        } else {
            0nat
        })
    }
}

pub open spec fn two_pow(len: nat) -> nat
    decreases len,
{
    if len == 0 {
        1
    } else {
        2 * two_pow((len - 1) as nat)
    }
}

pub proof fn lemma_code_seq_len(bits: nat, len: nat)
    ensures
        code_seq(bits, len).len() == len,
    decreases len,
{
    if len > 0 {
        lemma_code_seq_len(bits / 2, (len - 1) as nat);
    }
}

pub proof fn lemma_code_seq_symbols(bits: nat, len: nat)
    ensures
        forall|i: int| 0 <= i < code_seq(bits, len).len() ==> is_symbol(#[trigger] code_seq(bits, len)[i]),
    decreases len,
{
    lemma_code_seq_len(bits, len);
    if len > 0 {
        lemma_code_seq_symbols(bits / 2, (len - 1) as nat);
        lemma_code_seq_len(bits / 2, (len - 1) as nat);
        assert forall|i: int| 0 <= i < code_seq(bits, len).len() implies is_symbol(
            #[trigger] code_seq(bits, len)[i],
        ) by {
            if i < len - 1 {
                assert(code_seq(bits, len)[i] == code_seq(bits / 2, (len - 1) as nat)[i]);
            }
        }
    }
}

/// `bits_of` inverts `code_seq` for values that fit in the length.
pub proof fn lemma_bits_of_code(bits: nat, len: nat)
    requires
        bits < two_pow(len),
    ensures
        bits_of(code_seq(bits, len)) == bits,
    decreases len,
{
    if len == 0 {
    } else {
        assert(bits / 2 < two_pow((len - 1) as nat)) by {
            assert(two_pow(len) == 2 * two_pow((len - 1) as nat));
        }
        lemma_bits_of_code(bits / 2, (len - 1) as nat);
        let t = code_seq(bits, len);
        assert(t.drop_last() =~= code_seq(bits / 2, (len - 1) as nat));
    }
}

/// Builds the token spelling the low `len` bits of `bits`.
pub fn code_token(bits: u8, len: u8) -> (t: Vec<char>)
    ensures
        t@ == code_seq(bits as nat, len as nat),
    decreases len,
{
    if len == 0 {
        let t: Vec<char> = Vec::new();
        assert(t@ =~= code_seq(bits as nat, 0));
        t
    } else {
        let mut t = code_token(bits / 2, len - 1);
        t.push(
            if bits % 2 == 1 {
                '.'
            } else {
                '-'
            },
        );
        t
    }
}

/// Reads a token back into its bit value and length; `None` exactly when
/// the token is not a well-formed code.
pub fn parse_code(t: &Vec<char>) -> (r: Option<(u8, u8)>)
    ensures
        (r is Some) == is_code(t@),
        r matches Some((bits, len)) ==> bits as nat == bits_of(t@) && len as nat == t@.len(),
{
    if t.len() < 1 || t.len() > 8 {
        return None;
    }
    let mut bits: u8 = 0;
    let mut i: usize = 0;
    proof {
        reveal_with_fuel(two_pow, 9);
    }
    while i < t.len()
        invariant
            0 <= i <= t.len() <= 8,
            bits as nat == bits_of(t@.take(i as int)),
            (bits as nat) < two_pow(i as nat),
            forall|j: int| 0 <= j < i ==> is_symbol(#[trigger] t@[j]),
        decreases t.len() - i,
    {
        let c = t[i];
        let v: u8 = if c == '.' {
            1
        } else if c == '-' {
            0
        } else {
            return None;
        };
        proof {
            reveal_with_fuel(two_pow, 9);
            assert(two_pow(i as nat) <= two_pow(8)) by {
                lemma_two_pow_le(i as nat, 8);
            }
            assert(t@.take(i + 1).drop_last() =~= t@.take(i as int));
            assert(t@.take(i + 1).last() == t@[i as int]);
        }
        bits = bits * 2 + v;
        i = i + 1;
    }
    proof {
        assert(t@.take(t@.len() as int) =~= t@);
    }
    Some((bits, t.len() as u8))
}

pub proof fn lemma_two_pow_le(a: nat, b: nat)
    requires
        a <= b,
    ensures
        two_pow(a) <= two_pow(b),
    decreases b,
{
    if a < b {
        lemma_two_pow_le(a, (b - 1) as nat);
    }
}

} // verus!
