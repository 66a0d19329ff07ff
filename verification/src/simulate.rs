//! Simulating rolls and aggregating their totals.
//!
//! Each die is drawn through a thin trusted wrapper around the random
//! number generator; everything around the draws, from the number and
//! range of the values to the exact totals, is verified.

use vstd::prelude::*;

use rand::Rng;

use crate::grammar::{oversized_component, token_count, token_fits, token_modifier, token_sides,
    valid_token};
use crate::parse::{
    all_tokens_valid, first_invalid_at, first_oversized_at, parse_rolls, DiceError, Roll,
    roll_matches,
};

verus! {

/// One simulated roll: the drawn values in draw order, the modifier, and
/// their exact total.
#[derive(Debug)]
pub struct RollOutcome {
    /// The value of each die, in the order the dice were drawn.
    pub values: Vec<i32>,
    /// The signed bonus added to the sum of the values.
    pub delta: i32,
    /// Exactly the sum of the values plus the bonus.
    pub total: i64,
}

/// The outcome of a whole batch: one entry per token, and the grand total.
#[derive(Debug)]
pub struct Evaluation {
    /// One outcome per token, in token order.
    pub rolls: Vec<RollOutcome>,
    /// Exactly the sum of the per-roll totals.
    pub grand_total: i128,
}

/// The sum of a sequence of drawn values.
pub open spec fn sum_values(s: Seq<i32>) -> int
    decreases s.len(),
{
    if s.len() == 0 {
        0
    } else {
        sum_values(s.drop_last()) + s.last()
    }
}

/// The sum of the per-roll totals.
pub open spec fn sum_totals(rs: Seq<RollOutcome>) -> int
    decreases rs.len(),
{
    if rs.len() == 0 {
        0
    } else {
        sum_totals(rs.drop_last()) + rs.last().total
    }
}

/// Whether an outcome is one that simulating a token can produce: the
/// right number of values, each within the token's sides, and the exact
/// totals.
pub open spec fn outcome_matches(ro: RollOutcome, s: Seq<u8>) -> bool {
    &&& ro.values@.len() == token_count(s)
    &&& forall|j: int| 0 <= j < ro.values@.len() ==> 1 <= #[trigger] ro.values@[j] <= token_sides(
        s,
    )
    &&& ro.delta as int == token_modifier(s)
    &&& ro.total as int == sum_values(ro.values@) + ro.delta
}

/// Relies on rand::Rng::gen_range on rand::thread_rng: it returns a value
/// of the given range, and panics only on an empty range, which
/// `sides >= 1` rules out. Nothing more is assumed of the draw.
#[verifier::external_body]
fn roll_die(sides: i32) -> (v: i32)
    requires
        1 <= sides,
    ensures
        1 <= v <= sides,
{
    rand::thread_rng().gen_range(1..=sides)
}

/// Draws `times` independent values, each in `[1, sides]`, in draw order.
pub fn simulate_roll(roll: &Roll) -> (values: Vec<i32>)
    requires
        1 <= roll.times,
        1 <= roll.sides,
    ensures
        values@.len() == roll.times,
        forall|i: int| 0 <= i < values@.len() ==> 1 <= #[trigger] values@[i] <= roll.sides,
{
    let mut values: Vec<i32> = Vec::new();
    let mut k: i32 = 0;
    while k < roll.times
        invariant
            0 <= k <= roll.times,
            1 <= roll.sides,
            values@.len() == k,
            forall|i: int| 0 <= i < values@.len() ==> 1 <= #[trigger] values@[i] <= roll.sides,
        decreases roll.times - k,
    {
        values.push(roll_die(roll.sides));
        k = k + 1;
    }
    values
}

/// Every sequence of drawn values has a nonnegative sum, bounded by its
/// length times the largest value a die can show.
pub proof fn lemma_sum_values_bounds(s: Seq<i32>)
    requires
        forall|i: int| 0 <= i < s.len() ==> 1 <= #[trigger] s[i],
    ensures
        0 <= sum_values(s) <= s.len() * 0x7fff_ffff,
    decreases s.len(),
{
    if s.len() > 0 {
        assert(forall|i: int| 0 <= i < s.drop_last().len() ==> 1 <= #[trigger] s.drop_last()[i]);
        lemma_sum_values_bounds(s.drop_last());
        assert(s.last() <= 0x7fff_ffff);
    }
}

/// The total of one roll: exactly the sum of the values plus the modifier.
pub fn roll_total(values: &Vec<i32>, delta: i32) -> (total: i64)
    requires
        values@.len() <= 0x7fff_ffff,
    ensures
        total as int == sum_values(values@) + delta,
{
    let n = values.len();
    let mut acc: i64 = 0;
    let mut j: usize = 0;
    while j < n
        invariant
            0 <= j <= n == values@.len() <= 0x7fff_ffff,
            acc as int == sum_values(values@.subrange(0, j as int)),
            -((j as int) * 0x8000_0000) <= acc as int <= (j as int) * 0x7fff_ffff,
        decreases n - j,
    {
        proof {
            assert(values@.subrange(0, j + 1).drop_last() =~= values@.subrange(0, j as int));
            assert(values@.subrange(0, j + 1).last() == values@[j as int]);
        }
        acc = acc + (values[j] as i64);
        j = j + 1;
    }
    proof {
        assert(values@.subrange(0, values@.len() as int) =~= values@);
    }
    acc + (delta as i64)
}

/// Evaluates a whole invocation: rejects an empty batch, validates and
/// parses every token before simulating any, then simulates each roll and
/// adds up the exact totals.
pub fn evaluate(tokens: &Vec<Vec<u8>>) -> (r: Result<Evaluation, DiceError>)
    ensures
        match r {
            Ok(ev) => tokens@.len() > 0 && ev.rolls@.len() == tokens@.len() && (forall|i: int|
                0 <= i < tokens@.len() ==> valid_token(#[trigger] tokens@[i]@) && token_fits(
                    tokens@[i]@,
                ) && outcome_matches(ev.rolls@[i], tokens@[i]@)) && ev.grand_total as int
                == sum_totals(ev.rolls@),
            Err(e) => match e {
                DiceError::NoInput => tokens@.len() == 0,
                DiceError::InvalidSyntax(b) => exists|i: int|
                    #[trigger] first_invalid_at(tokens@, i) && b@ == tokens@[i]@,
                DiceError::NumberTooLarge(b) => all_tokens_valid(tokens@) && exists|i: int|
                    #[trigger] first_oversized_at(tokens@, i) && b@ == oversized_component(
                        tokens@[i]@,
                    ),
            },
        },
{
    if tokens.len() == 0 {
        return Err(DiceError::NoInput);
    }
    let rolls = match parse_rolls(tokens) {
        Ok(rs) => rs,
        Err(e) => {
            return Err(e);
        },
    };
    let n = rolls.len();
    let mut outcomes: Vec<RollOutcome> = Vec::new();
    let mut grand: i128 = 0;
    let mut i: usize = 0;
    while i < n
        invariant
            i <= n == rolls@.len() == tokens@.len(),
            forall|j: int|
                0 <= j < tokens@.len() ==> valid_token(#[trigger] tokens@[j]@) && token_fits(
                    tokens@[j]@,
                ) && roll_matches(rolls@[j], tokens@[j]@),
            outcomes@.len() == i,
            forall|j: int| 0 <= j < i ==> outcome_matches(#[trigger] outcomes@[j], tokens@[j]@),
            grand as int == sum_totals(outcomes@),
            -((i as int) * 0x4000_0000_0000_0000) <= grand as int <= (i as int)
                * 0x4000_0000_0000_0000,
        decreases n - i,
    {
        let roll = rolls[i];
        proof {
            assert(roll_matches(rolls@[i as int], tokens@[i as int]@));
        }
        let values = simulate_roll(&roll);
        let total = roll_total(&values, roll.delta);
        proof {
            lemma_sum_values_bounds(values@);
        }
        grand = grand + (total as i128);
        let ro = RollOutcome { values, delta: roll.delta, total };
        proof {
            assert(outcomes@.push(ro).drop_last() =~= outcomes@);
        }
        outcomes.push(ro);
        i = i + 1;
    }
    Ok(Evaluation { rolls: outcomes, grand_total: grand })
}

} // verus!
