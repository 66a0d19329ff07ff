//! Parsing dice-notation tokens into roll descriptors.
//!
//! A batch of tokens is validated against the grammar as a pre-pass; only
//! when every token is well formed are the numeric components converted.
//! A conversion that does not fit the supported width stops the batch, so
//! an error of either kind means that nothing is ever simulated.

use vstd::prelude::*;
use vstd::slice::{slice_subrange, slice_to_vec};

use crate::grammar::{
    all_digits, count_part, die_index, digits_value, find_die_from, find_sign_from, is_digit,
    lemma_digits_value_prefix_le, lemma_digits_value_step, lemma_find_die_from,
    lemma_find_sign_from, lemma_numeral_positive, numeral, oversized_component, sides_part,
    token_count, token_fits, token_modifier, token_sides, valid_token, BYTE_LOWER_D, BYTE_MINUS,
    BYTE_NINE, BYTE_PLUS, BYTE_UPPER_D, BYTE_ZERO, MAX_COMPONENT,
};

verus! {

/// A roll of a collection of the same dice.
///
/// For the token `1d20+3`, `times` is 1, `sides` is 20 and `delta` is 3.
/// `delta` need not be positive.
#[derive(Clone, Copy, Debug, PartialEq, Eq, Structural)]
pub struct Roll {
    /// How many dice to roll.
    pub times: i32,
    /// How many sides the rolling dice have.
    pub sides: i32,
    /// The signed bonus added to the sum of the rolled values.
    pub delta: i32,
}

/// Why an invocation was rejected; each error carries the offending text.
#[derive(Debug, PartialEq, Eq)]
pub enum DiceError {
    /// No tokens were supplied at all.
    NoInput,
    /// A token does not match the grammar; holds that token.
    InvalidSyntax(Vec<u8>),
    /// A numeric component does not fit the supported width; holds that
    /// component.
    NumberTooLarge(Vec<u8>),
}

/// Whether a descriptor carries exactly the components of a token.
pub open spec fn roll_matches(roll: Roll, s: Seq<u8>) -> bool {
    &&& roll.times as int == token_count(s)
    &&& roll.sides as int == token_sides(s)
    &&& roll.delta as int == token_modifier(s)
    &&& roll.times >= 1
    &&& roll.sides >= 1
}

pub open spec fn all_tokens_valid(tokens: Seq<Vec<u8>>) -> bool {
    forall|i: int| 0 <= i < tokens.len() ==> valid_token(#[trigger] tokens[i]@)
}

/// The earliest token that fails the grammar.
pub open spec fn first_invalid_at(tokens: Seq<Vec<u8>>, i: int) -> bool {
    &&& 0 <= i < tokens.len()
    &&& !valid_token(tokens[i]@)
    &&& forall|j: int| 0 <= j < i ==> valid_token(#[trigger] tokens[j]@)
}

/// The earliest token with a numeric component out of width.
pub open spec fn first_oversized_at(tokens: Seq<Vec<u8>>, i: int) -> bool {
    &&& 0 <= i < tokens.len()
    &&& !token_fits(tokens[i]@)
    &&& forall|j: int| 0 <= j < i ==> token_fits(#[trigger] tokens[j]@)
}

/// The index of the first die marker of `t`, or its length.
fn find_die(t: &[u8]) -> (i: usize)
    ensures
        i as int == die_index(t@),
        i <= t@.len(),
{
    let n = t.len();
    let mut i: usize = 0;
    while i < n && !(t[i] == BYTE_LOWER_D || t[i] == BYTE_UPPER_D)
        invariant
            0 <= i <= n == t@.len(),
            find_die_from(t@, 0) == find_die_from(t@, i as int),
        decreases n - i,
    {
        i = i + 1;
    }
    i
}

/// The index of the first sign of `t` at or after `from`, or its length.
fn find_sign(t: &[u8], from: usize) -> (i: usize)
    requires
        from <= t@.len(),
    ensures
        i as int == find_sign_from(t@, from as int),
        from <= i <= t@.len(),
{
    let n = t.len();
    let mut i: usize = from;
    while i < n && !(t[i] == BYTE_PLUS || t[i] == BYTE_MINUS)
        invariant
            from <= i <= n == t@.len(),
            find_sign_from(t@, from as int) == find_sign_from(t@, i as int),
        decreases n - i,
    {
        i = i + 1;
    }
    i
}

/// Whether `t[lo..hi]` is a nonempty digit run without a leading zero.
fn is_numeral_range(t: &[u8], lo: usize, hi: usize) -> (b: bool)
    requires
        lo <= hi <= t@.len(),
    ensures
        b == numeral(t@.subrange(lo as int, hi as int)),
{
    let ghost part = t@.subrange(lo as int, hi as int);
    if lo == hi {
        return false;
    }
    if t[lo] == BYTE_ZERO {
        assert(part[0] == t@[lo as int]);
        return false;
    }
    let mut j: usize = lo;
    while j < hi
        invariant
            lo <= j <= hi <= t@.len(),
            part == t@.subrange(lo as int, hi as int),
            forall|k: int| 0 <= k < j - lo ==> is_digit(#[trigger] part[k]),
        decreases hi - j,
    {
        let c = t[j];
        assert(part[j - lo] == t@[j as int]);
        if c < BYTE_ZERO || c > BYTE_NINE {
            assert(!is_digit(part[j - lo]));
            return false;
        }
        j = j + 1;
    }
    assert(part[0] == t@[lo as int]);
    true
}

/// Converts the digit run `t[lo..hi]` to an integer, or reports that its
/// value does not fit the supported width.
fn digits_to_i32(t: &[u8], lo: usize, hi: usize) -> (r: Option<i32>)
    requires
        lo <= hi <= t@.len(),
        all_digits(t@.subrange(lo as int, hi as int)),
    ensures
        match r {
            Some(v) => 0 <= v && v as int == digits_value(t@.subrange(lo as int, hi as int)),
            None => digits_value(t@.subrange(lo as int, hi as int)) > MAX_COMPONENT,
        },
{
    let ghost part = t@.subrange(lo as int, hi as int);
    let mut acc: i64 = 0;
    let mut j: usize = lo;
    while j < hi
        invariant
            lo <= j <= hi <= t@.len(),
            part == t@.subrange(lo as int, hi as int),
            all_digits(part),
            0 <= acc <= MAX_COMPONENT,
            acc as int == digits_value(part.subrange(0, j - lo)),
        decreases hi - j,
    {
        let d = t[j];
        proof {
            assert(part[j - lo] == t@[j as int]);
            assert(is_digit(d));
            lemma_digits_value_step(part, j - lo);
        }
        acc = acc * 10 + ((d - BYTE_ZERO) as i64);
        if acc > MAX_COMPONENT as i64 {
            proof {
                assert(acc as int == digits_value(part.subrange(0, j + 1 - lo)));
                lemma_digits_value_prefix_le(part, j + 1 - lo);
            }
            return None;
        }
        j = j + 1;
    }
    proof {
        assert(part.subrange(0, (hi - lo) as int) =~= part);
    }
    Some(acc as i32)
}

/// Whether a token matches the grammar `[count]('d'|'D')sides[sign magnitude]`.
pub fn check_token(t: &[u8]) -> (b: bool)
    ensures
        b == valid_token(t@),
{
    let n = t.len();
    let di = find_die(t);
    proof {
        lemma_find_die_from(t@, 0);
    }
    if di == n {
        return false;
    }
    if di > 0 && !is_numeral_range(t, 0, di) {
        return false;
    }
    let si = find_sign(t, di + 1);
    proof {
        lemma_find_sign_from(t@, di + 1);
    }
    if !is_numeral_range(t, di + 1, si) {
        return false;
    }
    if si < n && !is_numeral_range(t, si + 1, n) {
        return false;
    }
    true
}

/// Parses one token: checks the grammar, then converts count, sides and
/// magnitude in that order, reporting the first component out of width.
pub fn parse_token(t: &[u8]) -> (r: Result<Roll, DiceError>)
    ensures
        match r {
            Ok(roll) => valid_token(t@) && token_fits(t@) && roll_matches(roll, t@),
            Err(e) => match e {
                DiceError::InvalidSyntax(b) => !valid_token(t@) && b@ == t@,
                DiceError::NumberTooLarge(b) => valid_token(t@) && !token_fits(t@) && b@
                    == oversized_component(t@),
                DiceError::NoInput => false,
            },
        },
{
    if !check_token(t) {
        return Err(DiceError::InvalidSyntax(slice_to_vec(t)));
    }
    let n = t.len();
    let di = find_die(t);
    proof {
        lemma_find_die_from(t@, 0);
    }
    let si = find_sign(t, di + 1);
    proof {
        lemma_find_sign_from(t@, di + 1);
    }
    let times: i32;
    if di == 0 {
        times = 1;
    } else {
        proof {
            lemma_numeral_positive(count_part(t@));
        }
        match digits_to_i32(t, 0, di) {
            Some(v) => {
                times = v;
            },
            None => {
                return Err(DiceError::NumberTooLarge(slice_to_vec(slice_subrange(t, 0, di))));
            },
        }
    }
    proof {
        lemma_numeral_positive(sides_part(t@));
    }
    let sides: i32 = match digits_to_i32(t, di + 1, si) {
        Some(v) => v,
        None => {
            return Err(DiceError::NumberTooLarge(slice_to_vec(slice_subrange(t, di + 1, si))));
        },
    };
    let delta: i32;
    if si < n {
        let mag: i32 = match digits_to_i32(t, si + 1, n) {
            Some(v) => v,
            None => {
                return Err(DiceError::NumberTooLarge(slice_to_vec(slice_subrange(t, si + 1, n))));
            },
        };
        if t[si] == BYTE_PLUS {
            delta = mag;
        } else {
            delta = -mag;
        }
    } else {
        delta = 0;
    }
    Ok(Roll { times, sides, delta })
}

/// Parses a batch of tokens: the grammar pre-pass covers every token
/// before any numeric conversion, so a late syntax error wins over an
/// early oversized number.
pub fn parse_rolls(tokens: &Vec<Vec<u8>>) -> (r: Result<Vec<Roll>, DiceError>)
    ensures
        match r {
            Ok(rolls) => rolls@.len() == tokens@.len() && forall|i: int|
                0 <= i < tokens@.len() ==> valid_token(#[trigger] tokens@[i]@) && token_fits(
                    tokens@[i]@,
                ) && roll_matches(rolls@[i], tokens@[i]@),
            Err(e) => match e {
                DiceError::InvalidSyntax(b) => exists|i: int|
                    #[trigger] first_invalid_at(tokens@, i) && b@ == tokens@[i]@,
                DiceError::NumberTooLarge(b) => all_tokens_valid(tokens@) && exists|i: int|
                    #[trigger] first_oversized_at(tokens@, i) && b@ == oversized_component(
                        tokens@[i]@,
                    ),
                DiceError::NoInput => false,
            },
        },
{
    let n = tokens.len();
    let mut i: usize = 0;
    while i < n
        invariant
            i <= n == tokens@.len(),
            forall|j: int| 0 <= j < i ==> valid_token(#[trigger] tokens@[j]@),
        decreases n - i,
    {
        if !check_token(tokens[i].as_slice()) {
            assert(first_invalid_at(tokens@, i as int));
            return Err(DiceError::InvalidSyntax(slice_to_vec(tokens[i].as_slice())));
        }
        i = i + 1;
    }
    let mut rolls: Vec<Roll> = Vec::new();
    let mut i: usize = 0;
    while i < n
        invariant
            i <= n == tokens@.len(),
            all_tokens_valid(tokens@),
            rolls@.len() == i,
            forall|j: int|
                0 <= j < i ==> token_fits(#[trigger] tokens@[j]@) && roll_matches(
                    rolls@[j],
                    tokens@[j]@,
                ),
        decreases n - i,
    {
        match parse_token(tokens[i].as_slice()) {
            Ok(roll) => {
                rolls.push(roll);
            },
            Err(e) => {
                proof {
                    if e is NumberTooLarge {
                        assert(first_oversized_at(tokens@, i as int));
                    }
                }
                return Err(e);
            },
        }
        i = i + 1;
    }
    Ok(rolls)
}

} // verus!

