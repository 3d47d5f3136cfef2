//! Pure game mechanics: base score table, circular distance on the
//! 0–100 dial, score formula and objective generation.

use rand::RngExt;
use vstd::prelude::*;

verus! {

/// The base score awarded for a circular difference, as in the rules table.
pub open spec fn spec_score_base(diff: int) -> int {
    if diff == 0 {
        100
    } else if 1 <= diff <= 5 {
        80
    } else if 6 <= diff <= 10 {
        60
    } else if 11 <= diff <= 20 {
        40
    } else if 21 <= diff <= 40 {
        20
    } else {
        0
    }
}

/// Absolute value over the integers.
pub open spec fn abs_int(x: int) -> int {
    if x < 0 { -x } else { x }
}

/// Smaller of two integers.
pub open spec fn min_int(a: int, b: int) -> int {
    if a <= b { a } else { b }
}

/// Distance between counter and objective on a dial that wraps at 100:
/// the shorter of the direct way and the way through 0.
pub open spec fn spec_circular_diff(counter: int, objective: int) -> int {
    min_int(abs_int(counter - objective), 100 - abs_int(counter - objective))
}

/// Integer division rounding toward zero, as Rust's `/` on signed integers
/// (`/` here is Euclidean division, which agrees with it on a nonnegative
/// dividend).
pub open spec fn trunc_div(a: int, b: int) -> int {
    if a >= 0 {
        a / b
    } else {
        -((-a) / b)
    }
}

/// `(score_base(diff) + strength) / (miss + 1)`, rounded toward zero.
pub open spec fn spec_calculate_score(diff: int, strength: int, miss: int) -> int {
    trunc_div(spec_score_base(diff) + strength, miss + 1)
}

/// The inputs on which `circular_diff` computes without overflow.
pub open spec fn circular_diff_defined(counter: int, objective: int) -> bool {
    i32::MIN < counter - objective <= i32::MAX
}

/// The inputs on which `calculate_score` computes without overflow or
/// division by zero.
pub open spec fn calculate_score_defined(diff: int, strength: int, miss: int) -> bool {
    &&& i32::MIN <= spec_score_base(diff) + strength <= i32::MAX
    &&& i32::MIN <= miss + 1 <= i32::MAX
    &&& miss + 1 != 0
    &&& !(spec_score_base(diff) + strength == i32::MIN && miss + 1 == -1)
}

/// Returns the base score for a circular difference:
/// 0 → 100, 1–5 → 80, 6–10 → 60, 11–20 → 40, 21–40 → 20, otherwise 0.
pub fn score_base(diff: i32) -> (base: i32)
    ensures
        base == spec_score_base(diff as int),
{
    if diff == 0 {
        100
    } else if 1 <= diff && diff <= 5 {
        80
    } else if 6 <= diff && diff <= 10 {
        60
    } else if 11 <= diff && diff <= 20 {
        40
    } else if 21 <= diff && diff <= 40 {
        20
    } else {
        0
    }
}

/// Circular difference between counter and objective (the counter wraps
/// round 0–100): the minimum of the direct distance and the distance
/// through 0.
pub fn circular_diff(counter: i32, objective: i32) -> (diff: i32)
    requires
        circular_diff_defined(counter as int, objective as int),
    ensures
        diff == spec_circular_diff(counter as int, objective as int),
{
    let delta = counter - objective;
    let direct = if delta < 0 { -delta } else { delta };
    let circular = 100 - direct;
    if direct <= circular { direct } else { circular }
}

/// Score of one objective: `(score_base(diff) + strength) / (miss + 1)`,
/// the division rounding toward zero.
pub fn calculate_score(diff: i32, strength: i32, miss: i32) -> (score: i32)
    requires
        calculate_score_defined(diff as int, strength as int, miss as int),
    ensures
        score == spec_calculate_score(diff as int, strength as int, miss as int),
{
    let base = score_base(diff);
    let numerator = base + strength;
    let divisor = miss + 1;
    proof {
        lemma_trunc_div_bounded(numerator as int, divisor as int);
        if numerator == i32::MIN {
            assert(divisor != -1);
        }
        assert(i32::MIN <= trunc_div(numerator as int, divisor as int) <= i32::MAX);
    }
    numerator / divisor
}

/// Dividing by a nonzero integer never moves a value away from zero.
proof fn lemma_trunc_div_bounded(a: int, b: int)
    requires
        b != 0,
    ensures
        abs_int(trunc_div(a, b)) <= abs_int(a),
        a < 0 && b < -1 ==> trunc_div(a, b) < -a,
{
    if a >= 0 {
        if b > 0 {
            assert(0 <= a / b <= a) by (nonlinear_arith)
                requires a >= 0, b > 0;
        } else {
            assert(-a <= a / b <= 0) by (nonlinear_arith)
                requires a >= 0, b < 0;
        }
    } else {
        if b > 0 {
            assert(0 <= (-a) / b <= -a) by (nonlinear_arith)
                requires -a > 0, b > 0;
        } else {
            assert(a <= (-a) / b <= 0) by (nonlinear_arith)
                requires -a > 0, b < 0;
            if b < -1 {
                assert(a < (-a) / b) by (nonlinear_arith)
                    requires -a > 0, b < -1;
            }
        }
    }
}

/// An objective for one turn: a number to stop the counter on, or a
/// letter to press together with the counter value to aim for.
#[derive(Debug, Clone, Copy)]
pub enum Objective {
    Number(i32),
    Letter(char, i32),
}

/// `rand::rngs::ThreadRng`, the handle to the thread-local generator.
#[verifier::external_type_specification]
#[verifier::external_body]
pub struct ExThreadRng(rand::rngs::ThreadRng);

/// Calls `rand::rng()`, which hands out the thread-local generator.
/// Nothing is stated of the handle beyond its type. rand panics here only
/// when the system source fails to seed the generator, which no argument
/// decides.
#[verifier::external_body]
fn thread_rng() -> rand::rngs::ThreadRng {
    rand::rng()
}

/// Calls `RngExt::random_range` on the inclusive range `low..=high` of
/// `i32`. The rand source samples `low` plus an offset below the width of
/// the range, so the value lies in `[low, high]`; which value comes out rests
/// on chance and is left unsaid. `random_range` panics on an empty range,
/// hence `low <= high`.
#[verifier::external_body]
fn random_in_range(rng: &mut rand::rngs::ThreadRng, low: i32, high: i32) -> (value: i32)
    requires
        low <= high,
    ensures
        low <= value <= high,
{
    rng.random_range(low..=high)
}

/// A well-formed objective of the given mode: a number in `[0, 100]`, or a
/// lowercase ASCII letter with a target in `[0, 99]`.
pub open spec fn objective_in_mode(objective: Objective, is_letter_mode: bool) -> bool {
    if is_letter_mode {
        &&& objective matches Objective::Letter(c, t)
        &&& 'a' <= c <= 'z'
        &&& 0 <= t <= 99
    } else {
        &&& objective matches Objective::Number(n)
        &&& 0 <= n <= 100
    }
}

/// Generates `count` objectives of the chosen mode: random lowercase letters
/// (each with a random target in `[0, 99]`) in letter mode, otherwise random
/// numbers in `[0, 100]`.
pub fn generate_objectives(count: usize, is_letter_mode: bool) -> (objectives: Vec<Objective>)
    ensures
        objectives.len() == count,
        forall|i: int|
            0 <= i < objectives.len() ==> objective_in_mode(#[trigger] objectives[i], is_letter_mode),
{
    let mut rng = thread_rng();
    let mut objectives: Vec<Objective> = Vec::new();
    let mut k: usize = 0;
    while k < count
        invariant
            k <= count,
            objectives.len() == k,
            forall|i: int|
                0 <= i < objectives.len() ==> objective_in_mode(#[trigger] objectives[i], is_letter_mode),
        decreases count - k,
    {
        if is_letter_mode {
            let code = random_in_range(&mut rng, 97, 122);
            let letter = (code as u8) as char;
            let target = random_in_range(&mut rng, 0, 99);
            objectives.push(Objective::Letter(letter, target));
        } else {
            objectives.push(Objective::Number(random_in_range(&mut rng, 0, 100)));
        }
        k = k + 1;
    }
    objectives
}

/// The circular difference does not depend on the order of its arguments.
pub proof fn law_circular_diff_symmetric(counter: int, objective: int)
    ensures
        spec_circular_diff(counter, objective) == spec_circular_diff(objective, counter),
{
}

/// On the dial, counter and objective both in `[0, 100]`, the circular
/// difference lies in `[0, 50]`, and it is 0 exactly when the two stand on
/// the same mark (0 and 100 being the same mark).
pub proof fn law_circular_diff_on_dial(counter: int, objective: int)
    requires
        0 <= counter <= 100,
        0 <= objective <= 100,
    ensures
        0 <= spec_circular_diff(counter, objective) <= 50,
        spec_circular_diff(counter, objective) == 0 <==> (counter == objective
            || abs_int(counter - objective) == 100),
{
}

/// The closer the counter to the objective, the higher the base score:
/// the base score never grows as the difference grows, and it is one of
/// the values of the rules table.
pub proof fn law_score_base_monotone(closer: int, farther: int)
    requires
        0 <= closer <= farther,
    ensures
        spec_score_base(farther) <= spec_score_base(closer),
        spec_score_base(closer) == 100 || spec_score_base(closer) == 80 || spec_score_base(closer)
            == 60 || spec_score_base(closer) == 40 || spec_score_base(closer) == 20
            || spec_score_base(closer) == 0,
{
}

/// Without a miss the score is the base score plus the strength bonus.
pub proof fn law_score_without_miss(diff: int, strength: int)
    ensures
        spec_calculate_score(diff, strength, 0) == spec_score_base(diff) + strength,
{
}

/// Each additional miss can only lower a nonnegative score: the score with
/// more misses is never above the score with fewer, and never below 0.
pub proof fn law_miss_penalty(diff: int, strength: int, fewer: int, more: int)
    requires
        spec_score_base(diff) + strength >= 0,
        0 <= fewer <= more,
    ensures
        0 <= spec_calculate_score(diff, strength, more) <= spec_calculate_score(diff, strength, fewer),
{
    let n = spec_score_base(diff) + strength;
    assert(0 <= n / (more + 1) <= n / (fewer + 1)) by (nonlinear_arith)
        requires n >= 0, 0 <= fewer <= more;
}

/// The base score follows the rules table: 100 for an exact hit, 80 up to
/// 5 away, 60 up to 10, 40 up to 20, 20 up to 40, and nothing beyond (nor
/// for a negative difference).
pub proof fn law_score_table(diff: int)
    ensures
        diff == 0 ==> spec_score_base(diff) == 100,
        1 <= diff && diff <= 5 ==> spec_score_base(diff) == 80,
        6 <= diff && diff <= 10 ==> spec_score_base(diff) == 60,
        11 <= diff && diff <= 20 ==> spec_score_base(diff) == 40,
        21 <= diff && diff <= 40 ==> spec_score_base(diff) == 20,
        diff < 0 || diff > 40 ==> spec_score_base(diff) == 0,
{
}

/// The circular difference is the shorter way round the dial: it is never
/// longer than the direct distance nor than the way through 0 (100 minus
/// the direct distance), and it is one of the two.
pub proof fn law_circular_diff_is_shorter_way(counter: int, objective: int)
    ensures
        ({
            let direct = if counter >= objective { counter - objective } else { objective - counter };
            let round = 100 - direct;
            let d = spec_circular_diff(counter, objective);
            &&& d <= direct
            &&& d <= round
            &&& (d == direct || d == round)
        }),
{
}

/// The score is the base score plus the strength, divided by one more than
/// the number of misses and rounded toward zero: with `n` that sum and
/// `m = miss + 1 >= 1`, a nonnegative `n` gives the `s` with
/// `s * m <= n < (s + 1) * m`, a negative `n` the `s` with
/// `(s - 1) * m < n <= s * m`.
pub proof fn law_score_divides_by_misses(diff: int, strength: int, miss: int)
    requires
        miss >= 0,
    ensures
        ({
            let n = spec_score_base(diff) + strength;
            let m = miss + 1;
            let s = spec_calculate_score(diff, strength, miss);
            &&& n >= 0 ==> s * m <= n && n < (s + 1) * m
            &&& n < 0 ==> (s - 1) * m < n && n <= s * m
        }),
{
    let n = spec_score_base(diff) + strength;
    let m = miss + 1;
    if n >= 0 {
        let q = n / m;
        let r = n % m;
        vstd::arithmetic::div_mod::lemma_fundamental_div_mod(n, m);
        vstd::arithmetic::div_mod::lemma_mod_pos_bound(n, m);
        assert(q * m <= n && n < (q + 1) * m) by (nonlinear_arith)
            requires n == m * q + r, 0 <= r < m;
    } else {
        let q = (-n) / m;
        let r = (-n) % m;
        vstd::arithmetic::div_mod::lemma_fundamental_div_mod(-n, m);
        vstd::arithmetic::div_mod::lemma_mod_pos_bound(-n, m);
        assert((-q - 1) * m < n && n <= (-q) * m) by (nonlinear_arith)
            requires -n == m * q + r, 0 <= r < m;
    }
}

/// Generated objectives are, in letter mode, a letter from `a` to `z`
/// (code points 97 to 122) with a target from 0 to 99, and in number mode a
/// number from 0 to 100.
pub proof fn law_objective_ranges(objective: Objective, is_letter_mode: bool)
    ensures
        objective_in_mode(objective, true) <==> (match objective {
            Objective::Letter(c, t) => 97 <= c as u32 <= 122 && 0 <= t <= 99,
            Objective::Number(_) => false,
        }),
        objective_in_mode(objective, false) <==> (match objective {
            Objective::Number(n) => 0 <= n <= 100,
            Objective::Letter(_, _) => false,
        }),
{
}

} // verus!
