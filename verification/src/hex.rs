//! Octets written for people: pairs of hexadecimal digits, with white
//! space wherever it helps the eye.

use vstd::prelude::*;
use vstd::string::*;

verus! {

/// Why a text does not spell octets.
#[derive(Debug, Clone, Copy, PartialEq, Eq, Structural)]
pub enum HexError {
    /// A character that is neither white space nor a hexadecimal digit.
    InvalidDigit,
    /// A last digit without its partner.
    OddLength,
}

/// Whether `char::is_whitespace` holds of `c`.
pub uninterp spec fn white_space(c: char) -> bool;

/// Calls `char::is_whitespace`. Claimed: the answer is a function of the
/// character alone.
#[verifier::external_body]
fn is_white_space(c: char) -> (r: bool)
    ensures
        r == white_space(c),
{
    c.is_whitespace()
}

/// The value of a hexadecimal digit, in either case.
pub open spec fn hex_value(c: char) -> Option<u8> {
    if '0' <= c <= '9' {
        Some((c as u32 - '0' as u32) as u8)
    } else if 'a' <= c <= 'f' {
        Some((c as u32 - 'a' as u32 + 10) as u8)
    } else if 'A' <= c <= 'F' {
        Some((c as u32 - 'A' as u32 + 10) as u8)
    } else {
        None
    }
}

/// The octets that `digits` spell, two digits to the octet and the high
/// digit first. The first pair with a character that is no digit makes it
/// fail, and so does a digit left over at the end.
pub open spec fn hex_pairs(digits: Seq<char>) -> Result<Seq<u8>, HexError>
    decreases digits.len(),
{
    if digits.len() == 0 {
        Ok(Seq::empty())
    } else if digits.len() == 1 {
        Err(HexError::OddLength)
    } else {
        match (hex_value(digits[0]), hex_value(digits[1])) {
            (Some(high), Some(low)) => match hex_pairs(digits.skip(2)) {
                Ok(rest) => Ok(seq![(16 * high + low) as u8] + rest),
                Err(e) => Err(e),
            },
            _ => Err(HexError::InvalidDigit),
        }
    }
}

/// `text` without its white space.
pub open spec fn without_white_space(text: Seq<char>) -> Seq<char>
    decreases text.len(),
{
    if text.len() == 0 {
        Seq::empty()
    } else if white_space(text.last()) {
        without_white_space(text.drop_last())
    } else {
        without_white_space(text.drop_last()).push(text.last())
    }
}

fn hex_digit(c: char) -> (r: Option<u8>)
    ensures
        r == hex_value(c),
        r is Some ==> r.unwrap() < 16,
{
    if '0' <= c && c <= '9' {
        Some((c as u32 - '0' as u32) as u8)
    } else if 'a' <= c && c <= 'f' {
        Some((c as u32 - 'a' as u32 + 10) as u8)
    } else if 'A' <= c && c <= 'F' {
        Some((c as u32 - 'A' as u32 + 10) as u8)
    } else {
        None
    }
}

/// With `done` for the octets of the pairs read so far, the octets of the
/// whole.
pub open spec fn behind(done: Seq<u8>, rest: Result<Seq<u8>, HexError>) -> Result<
    Seq<u8>,
    HexError,
> {
    match rest {
        Ok(more) => Ok(done + more),
        Err(e) => Err(e),
    }
}

/// The octets that `digits` spell, two digits to the octet.
pub fn decode_hex_pairs(digits: &Vec<char>) -> (r: Result<Vec<u8>, HexError>)
    ensures
        match hex_pairs(digits@) {
            Ok(octets) => r is Ok && r->Ok_0@ == octets,
            Err(e) => r == Err::<Vec<u8>, HexError>(e),
        },
{
    let mut out: Vec<u8> = Vec::new();
    let mut i: usize = 0;
    assert(digits@.skip(0) =~= digits@);
    assert(behind(out@, hex_pairs(digits@)) =~= hex_pairs(digits@)) by {
        match hex_pairs(digits@) {
            Ok(more) => {
                assert(out@ + more =~= more);
            },
            Err(_) => {},
        }
    }
    while i < digits.len()
        invariant
            i <= digits.len(),
            hex_pairs(digits@) == behind(out@, hex_pairs(digits@.skip(i as int))),
        decreases digits.len() - i,
    {
        let ghost unread = digits@.skip(i as int);
        if digits.len() - i == 1 {
            return Err(HexError::OddLength);
        }
        assert(unread[0] == digits@[i as int]);
        assert(unread[1] == digits@[i as int + 1]);
        let (high, low) = match (hex_digit(digits[i]), hex_digit(digits[i + 1])) {
            (Some(high), Some(low)) => (high, low),
            _ => {
                return Err(HexError::InvalidDigit);
            },
        };
        let ghost before = out@;
        out.push(16 * high + low);
        i += 2;
        proof {
            assert(unread.skip(2) =~= digits@.skip(i as int));
            match hex_pairs(digits@.skip(i as int)) {
                Ok(more) => {
                    assert(before + (seq![(16 * high + low) as u8] + more) =~= out@ + more);
                },
                Err(_) => {},
            }
        }
    }
    assert(out@ + Seq::<u8>::empty() =~= out@);
    Ok(out)
}

/// The octets that `s` spells: its hexadecimal digits two by two, white
/// space anywhere left aside.
pub fn _decode_human(s: &str) -> (r: Result<Vec<u8>, HexError>)
    ensures
        match hex_pairs(without_white_space(s@)) {
            Ok(octets) => r is Ok && r->Ok_0@ == octets,
            Err(e) => r == Err::<Vec<u8>, HexError>(e),
        },
{
    let n = s.unicode_len();
    let mut clean: Vec<char> = Vec::new();
    let mut i: usize = 0;
    assert(s@.take(0) =~= Seq::<char>::empty());
    while i < n
        invariant
            i <= n,
            n == s@.len(),
            clean@ == without_white_space(s@.take(i as int)),
        decreases n - i,
    {
        let c = s.get_char(i);
        proof {
            let longer = s@.take(i as int + 1);
            assert(longer.drop_last() =~= s@.take(i as int));
            assert(longer.last() == c);
        }
        if !is_white_space(c) {
            clean.push(c);
        }
        i += 1;
    }
    assert(s@.take(n as int) =~= s@);
    decode_hex_pairs(&clean)
}

} // verus!
