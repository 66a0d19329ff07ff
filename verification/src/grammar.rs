//! The dice-notation grammar, as spec functions over byte sequences.
//!
//! A token has the shape `[count]('d'|'D')sides[('+'|'-')magnitude]`,
//! where `count`, `sides` and `magnitude` are digit runs without a leading
//! zero. An omitted count stands for one die. The functions here decompose
//! a token deterministically: the die marker is the first `d` or `D`, and
//! the modifier sign is the first `+` or `-` after it.

use vstd::prelude::*;

verus! {

/// The largest value a numeric component of a token may take.
pub const MAX_COMPONENT: i32 = 0x7fff_ffff;

/// The byte `'0'`.
pub const BYTE_ZERO: u8 = 48;

/// The byte `'9'`.
pub const BYTE_NINE: u8 = 57;

/// The byte `'d'`.
pub const BYTE_LOWER_D: u8 = 100;

/// The byte `'D'`.
pub const BYTE_UPPER_D: u8 = 68;

/// The byte `'+'`.
pub const BYTE_PLUS: u8 = 43;

/// The byte `'-'`.
pub const BYTE_MINUS: u8 = 45;

pub open spec fn is_digit(c: u8) -> bool {
    BYTE_ZERO <= c && c <= BYTE_NINE
}

pub open spec fn digit_val(c: u8) -> int {
    c - BYTE_ZERO
}

pub open spec fn is_die_marker(c: u8) -> bool {
    c == BYTE_LOWER_D || c == BYTE_UPPER_D
}

pub open spec fn is_sign(c: u8) -> bool {
    c == BYTE_PLUS || c == BYTE_MINUS
}

pub open spec fn all_digits(s: Seq<u8>) -> bool {
    forall|i: int| 0 <= i < s.len() ==> is_digit(s[i])
}

/// A nonempty digit run without a leading zero.
pub open spec fn numeral(s: Seq<u8>) -> bool {
    s.len() > 0 && all_digits(s) && s[0] != BYTE_ZERO
}

/// The decimal value of a digit run.
pub open spec fn digits_value(s: Seq<u8>) -> int
    decreases s.len(),
{
    if s.len() == 0 {
        0
    } else {
        digits_value(s.drop_last()) * 10 + digit_val(s.last())
    }
}

/// The index of the first die marker at or after `i`, or the length.
pub open spec fn find_die_from(s: Seq<u8>, i: int) -> int
    decreases s.len() - i,
{
    if i < 0 || i >= s.len() {
        s.len() as int
    } else if is_die_marker(s[i]) {
        i
    } else {
        find_die_from(s, i + 1)
    }
}

/// The index of the first sign at or after `i`, or the length.
pub open spec fn find_sign_from(s: Seq<u8>, i: int) -> int
    decreases s.len() - i,
{
    if i < 0 || i >= s.len() {
        s.len() as int
    } else if is_sign(s[i]) {
        i
    } else {
        find_sign_from(s, i + 1)
    }
}

pub open spec fn die_index(s: Seq<u8>) -> int {
    find_die_from(s, 0)
}

pub open spec fn sign_index(s: Seq<u8>) -> int {
    find_sign_from(s, die_index(s) + 1)
}

pub open spec fn count_part(s: Seq<u8>) -> Seq<u8> {
    s.subrange(0, die_index(s))
}

pub open spec fn sides_part(s: Seq<u8>) -> Seq<u8> {
    s.subrange(die_index(s) + 1, sign_index(s))
}

pub open spec fn magnitude_part(s: Seq<u8>) -> Seq<u8> {
    s.subrange(sign_index(s) + 1, s.len() as int)
}

pub open spec fn has_modifier(s: Seq<u8>) -> bool {
    sign_index(s) < s.len()
}

/// Whether a byte sequence is a well-formed dice-notation token.
pub open spec fn valid_token(s: Seq<u8>) -> bool {
    &&& die_index(s) < s.len()
    &&& die_index(s) == 0 || numeral(count_part(s))
    &&& numeral(sides_part(s))
    &&& has_modifier(s) ==> numeral(magnitude_part(s))
}

/// The number of dice a token asks for; an omitted count means one die.
pub open spec fn token_count(s: Seq<u8>) -> int {
    if die_index(s) == 0 {
        1
    } else {
        digits_value(count_part(s))
    }
}

/// The number of sides of the dice a token asks for.
pub open spec fn token_sides(s: Seq<u8>) -> int {
    digits_value(sides_part(s))
}

/// The signed modifier of a token; zero when none is written.
pub open spec fn token_modifier(s: Seq<u8>) -> int {
    if !has_modifier(s) {
        0
    } else if s[sign_index(s)] == BYTE_PLUS {
        digits_value(magnitude_part(s))
    } else {
        -digits_value(magnitude_part(s))
    }
}

pub open spec fn component_fits(v: int) -> bool {
    v <= MAX_COMPONENT
}

/// Whether every numeric component of a valid token fits the supported width.
pub open spec fn token_fits(s: Seq<u8>) -> bool {
    &&& component_fits(token_count(s))
    &&& component_fits(token_sides(s))
    &&& has_modifier(s) ==> component_fits(digits_value(magnitude_part(s)))
}

/// The first numeric component of a token that does not fit, checked in the
/// order count, sides, magnitude.
pub open spec fn oversized_component(s: Seq<u8>) -> Seq<u8> {
    if !component_fits(token_count(s)) {
        count_part(s)
    } else if !component_fits(token_sides(s)) {
        sides_part(s)
    } else {
        magnitude_part(s)
    }
}

pub proof fn lemma_digits_value_nonneg(s: Seq<u8>)
    requires
        all_digits(s),
    ensures
        digits_value(s) >= 0,
    decreases s.len(),
{
    if s.len() > 0 {
        lemma_digits_value_nonneg(s.drop_last());
    }
}

pub proof fn lemma_numeral_positive(s: Seq<u8>)
    requires
        numeral(s),
    ensures
        digits_value(s) >= 1,
    decreases s.len(),
{
    if s.len() == 1 {
        assert(digits_value(s.drop_last()) == 0);
    } else {
        assert(s.drop_last()[0] == s[0]);
        lemma_numeral_positive(s.drop_last());
        assert(digit_val(s.last()) >= 0);
    }
}

/// Extending a digit run by one digit multiplies its value by ten and adds
/// the digit.
pub proof fn lemma_digits_value_step(s: Seq<u8>, i: int)
    requires
        0 <= i < s.len(),
    ensures
        digits_value(s.subrange(0, i + 1)) == digits_value(s.subrange(0, i)) * 10 + digit_val(
            s[i],
        ),
{
    assert(s.subrange(0, i + 1).drop_last() =~= s.subrange(0, i));
    assert(s.subrange(0, i + 1).last() == s[i]);
}

/// The value of a digit run is at least the value of any of its prefixes.
pub proof fn lemma_digits_value_prefix_le(s: Seq<u8>, i: int)
    requires
        all_digits(s),
        0 <= i <= s.len(),
    ensures
        digits_value(s.subrange(0, i)) <= digits_value(s),
    decreases s.len() - i,
{
    if i == s.len() {
        assert(s.subrange(0, i) =~= s);
    } else {
        lemma_digits_value_step(s, i);
        assert(all_digits(s.subrange(0, i))) by {
            assert(forall|j: int|
                0 <= j < i ==> s.subrange(0, i)[j] == s[j] && is_digit(s[j]));
        }
        lemma_digits_value_nonneg(s.subrange(0, i));
        lemma_digits_value_prefix_le(s, i + 1);
    }
}

pub proof fn lemma_find_die_from(s: Seq<u8>, i: int)
    requires
        0 <= i <= s.len(),
    ensures
        i <= find_die_from(s, i) <= s.len(),
        forall|j: int| i <= j < find_die_from(s, i) ==> !is_die_marker(s[j]),
        find_die_from(s, i) < s.len() ==> is_die_marker(s[find_die_from(s, i)]),
    decreases s.len() - i,
{
    if i < s.len() && !is_die_marker(s[i]) {
        lemma_find_die_from(s, i + 1);
    }
}

pub proof fn lemma_find_sign_from(s: Seq<u8>, i: int)
    requires
        0 <= i <= s.len(),
    ensures
        i <= find_sign_from(s, i) <= s.len(),
        forall|j: int| i <= j < find_sign_from(s, i) ==> !is_sign(s[j]),
        find_sign_from(s, i) < s.len() ==> is_sign(s[find_sign_from(s, i)]),
    decreases s.len() - i,
{
    if i < s.len() && !is_sign(s[i]) {
        lemma_find_sign_from(s, i + 1);
    }
}

pub proof fn lemma_find_die_at(s: Seq<u8>, i: int, d: int)
    requires
        0 <= i <= d < s.len(),
        is_die_marker(s[d]),
        forall|j: int| i <= j < d ==> !is_die_marker(s[j]),
    ensures
        find_die_from(s, i) == d,
    decreases d - i,
{
    if i < d {
        lemma_find_die_at(s, i + 1, d);
    }
}

pub proof fn lemma_find_sign_at(s: Seq<u8>, i: int, d: int)
    requires
        0 <= i <= d < s.len(),
        is_sign(s[d]),
        forall|j: int| i <= j < d ==> !is_sign(s[j]),
    ensures
        find_sign_from(s, i) == d,
    decreases d - i,
{
    if i < d {
        lemma_find_sign_at(s, i + 1, d);
    }
}

pub proof fn lemma_find_sign_none(s: Seq<u8>, i: int)
    requires
        0 <= i <= s.len(),
        forall|j: int| i <= j < s.len() ==> !is_sign(s[j]),
    ensures
        find_sign_from(s, i) == s.len(),
    decreases s.len() - i,
{
    if i < s.len() {
        lemma_find_sign_none(s, i + 1);
    }
}

/// Law: a token written as a count run, a die marker and a sides run has
/// exactly that count and those sides, and modifier zero; with the count
/// omitted it stands for one die.
pub proof fn lemma_plain_token(count: Seq<u8>, die: u8, sides: Seq<u8>)
    requires
        count.len() == 0 || numeral(count),
        is_die_marker(die),
        numeral(sides),
    ensures
        valid_token(count + seq![die] + sides),
        token_count(count + seq![die] + sides) == if count.len() == 0 {
            1int
        } else {
            digits_value(count)
        },
        token_sides(count + seq![die] + sides) == digits_value(sides),
        token_modifier(count + seq![die] + sides) == 0,
{
    let tok = count + seq![die] + sides;
    let cl = count.len() as int;
    assert(tok.len() == cl + 1 + sides.len());
    assert(tok[cl] == die);
    assert(forall|j: int| 0 <= j < cl ==> tok[j] == count[j]);
    assert(forall|j: int| 0 <= j < sides.len() ==> tok[cl + 1 + j] == sides[j]);
    assert(forall|j: int| 0 <= j < cl ==> is_digit(tok[j]) && !is_die_marker(tok[j]));
    lemma_find_die_at(tok, 0, cl);
    assert(die_index(tok) == cl);
    assert(forall|j: int| cl + 1 <= j < tok.len() ==> is_digit(tok[j]) && !is_sign(tok[j]));
    lemma_find_sign_none(tok, cl + 1);
    assert(sign_index(tok) == tok.len());
    assert(!has_modifier(tok));
    assert(count_part(tok) =~= count);
    assert(sides_part(tok) =~= sides);
}

/// Law: a token written with a trailing sign and magnitude has the
/// magnitude's value as its modifier, positive under `+` and negative
/// under `-`; count and sides are as in the unmodified token.
pub proof fn lemma_modified_token(count: Seq<u8>, die: u8, sides: Seq<u8>, sign: u8, mag: Seq<u8>)
    requires
        count.len() == 0 || numeral(count),
        is_die_marker(die),
        numeral(sides),
        is_sign(sign),
        numeral(mag),
    ensures
        valid_token(count + seq![die] + sides + seq![sign] + mag),
        token_count(count + seq![die] + sides + seq![sign] + mag) == if count.len() == 0 {
            1int
        } else {
            digits_value(count)
        },
        token_sides(count + seq![die] + sides + seq![sign] + mag) == digits_value(sides),
        token_modifier(count + seq![die] + sides + seq![sign] + mag) == if sign == BYTE_PLUS {
            digits_value(mag)
        } else {
            -digits_value(mag)
        },
{
    let tok = count + seq![die] + sides + seq![sign] + mag;
    let cl = count.len() as int;
    let sl = sides.len() as int;
    assert(tok.len() == cl + 1 + sl + 1 + mag.len());
    assert(tok[cl] == die);
    assert(tok[cl + 1 + sl] == sign);
    assert(forall|j: int| 0 <= j < cl ==> tok[j] == count[j]);
    assert(forall|j: int| 0 <= j < sl ==> tok[cl + 1 + j] == sides[j]);
    assert(forall|j: int| 0 <= j < mag.len() ==> tok[cl + 1 + sl + 1 + j] == mag[j]);
    assert(forall|j: int| 0 <= j < cl ==> is_digit(tok[j]) && !is_die_marker(tok[j]));
    lemma_find_die_at(tok, 0, cl);
    assert(die_index(tok) == cl);
    assert(forall|j: int| cl + 1 <= j < cl + 1 + sl ==> is_digit(tok[j]) && !is_sign(tok[j]));
    lemma_find_sign_at(tok, cl + 1, cl + 1 + sl);
    assert(sign_index(tok) == cl + 1 + sl);
    assert(has_modifier(tok));
    assert(count_part(tok) =~= count);
    assert(sides_part(tok) =~= sides);
    assert(magnitude_part(tok) =~= mag);
}

} // verus!
