//! The real-time counter of an objective, as decisions: how the counter
//! advances on each tick, what a key press does, and what the objective
//! scores once the counter is stopped. Timing, threads and the terminal
//! stay with the caller.

use vstd::prelude::*;
use crate::mechanics::{
    Objective,
    calculate_score,
    circular_diff,
    spec_calculate_score,
    spec_circular_diff,
    calculate_score_defined,
    circular_diff_defined,
    spec_score_base,
    score_base,
};

verus! {

/// `miss + 1`, wrapping round as the shared atomic counter of misses does.
pub open spec fn next_miss(miss: i32) -> i32 {
    if miss == i32::MAX { i32::MIN } else { (miss + 1) as i32 }
}

/// The counter and misses after one tick.
pub open spec fn spec_tick(counter: i32, miss: i32) -> (i32, i32) {
    if counter + 1 >= 100 {
        (0i32, next_miss(miss))
    } else {
        ((counter + 1) as i32, miss)
    }
}

/// One tick of the counter: it advances by one and, on reaching 100, goes
/// back to 0 and counts a miss. Returns the new `(counter, miss)`.
pub fn tick(counter: i32, miss: i32) -> (next: (i32, i32))
    requires
        counter < i32::MAX,
    ensures
        next == spec_tick(counter, miss),
{
    let advanced = counter + 1;
    if advanced >= 100 {
        (0, miss.wrapping_add(1))
    } else {
        (advanced, miss)
    }
}

/// A key read from the terminal, reduced to what the game looks at.
#[derive(Debug, Clone, Copy, PartialEq, Eq)]
pub enum KeyInput {
    Char(char),
    Enter,
    Other,
}

/// What the game does with a key event while the counter runs.
#[derive(Debug, Clone, Copy, PartialEq, Eq)]
pub enum KeyDecision {
    /// Keep the counter running and wait for the next event.
    Wait,
    /// Stop the counter, remembering the character or the ENTER pressed.
    Stop { pressed_char: Option<char>, pressed_enter: bool },
}

/// Whether the objective is played in letter mode.
pub open spec fn is_letter(objective: Objective) -> bool {
    objective is Letter
}

/// The decision for a key event: repeats and releases are ignored; a
/// character stops the counter; ENTER stops it in number mode and is
/// ignored in letter mode; any other key stops it (as a failure) in number
/// mode and is ignored in letter mode.
pub open spec fn spec_decide_key(objective: Objective, is_press: bool, key: KeyInput) -> KeyDecision {
    if !is_press {
        KeyDecision::Wait
    } else {
        match key {
            KeyInput::Char(c) => KeyDecision::Stop { pressed_char: Some(c), pressed_enter: false },
            KeyInput::Enter => if is_letter(objective) {
                KeyDecision::Wait
            } else {
                KeyDecision::Stop { pressed_char: None, pressed_enter: true }
            },
            KeyInput::Other => if is_letter(objective) {
                KeyDecision::Wait
            } else {
                KeyDecision::Stop { pressed_char: None, pressed_enter: false }
            },
        }
    }
}

/// Decides what a key event does while the counter of `objective` runs.
pub fn decide_key(objective: Objective, is_press: bool, key: KeyInput) -> (decision: KeyDecision)
    ensures
        decision == spec_decide_key(objective, is_press, key),
{
    let letter_mode = match objective {
        Objective::Letter(_, _) => true,
        Objective::Number(_) => false,
    };
    if !is_press {
        return KeyDecision::Wait;
    }
    match key {
        KeyInput::Char(c) => KeyDecision::Stop { pressed_char: Some(c), pressed_enter: false },
        KeyInput::Enter => {
            if !letter_mode {
                KeyDecision::Stop { pressed_char: None, pressed_enter: true }
            } else {
                KeyDecision::Wait
            }
        },
        KeyInput::Other => {
            if !letter_mode {
                KeyDecision::Stop { pressed_char: None, pressed_enter: false }
            } else {
                KeyDecision::Wait
            }
        },
    }
}

/// Whether the objective is scored from the stopped counter: the right
/// letter was pressed in letter mode, ENTER in number mode.
pub open spec fn hit(objective: Objective, pressed_char: Option<char>, pressed_enter: bool) -> bool {
    match objective {
        Objective::Letter(letter, _) => pressed_char == Some(letter),
        Objective::Number(_) => pressed_enter,
    }
}

/// The target value of an objective.
pub open spec fn target(objective: Objective) -> i32 {
    match objective {
        Objective::Letter(_, t) => t,
        Objective::Number(t) => t,
    }
}

/// The score of an objective once the counter stopped at `counter` after
/// `miss` wraps: the score formula on the circular difference when hit,
/// otherwise 0.
pub open spec fn spec_objective_score(
    objective: Objective,
    pressed_char: Option<char>,
    pressed_enter: bool,
    counter: i32,
    miss: i32,
    strength: i32,
) -> int {
    if hit(objective, pressed_char, pressed_enter) {
        spec_calculate_score(
            spec_circular_diff(counter as int, target(objective) as int),
            strength as int,
            miss as int,
        )
    } else {
        0
    }
}

/// The inputs on which scoring a hit objective computes without overflow.
pub open spec fn objective_score_defined(
    objective: Objective,
    pressed_char: Option<char>,
    pressed_enter: bool,
    counter: i32,
    miss: i32,
    strength: i32,
) -> bool {
    hit(objective, pressed_char, pressed_enter) ==> {
        &&& circular_diff_defined(counter as int, target(objective) as int)
        &&& calculate_score_defined(
            spec_circular_diff(counter as int, target(objective) as int),
            strength as int,
            miss as int,
        )
    }
}

/// Whether `calculate_score(diff, strength, miss)` computes without overflow
/// or division by zero.
fn score_computable(diff: i32, strength: i32, miss: i32) -> (ok: bool)
    ensures
        ok == calculate_score_defined(diff as int, strength as int, miss as int),
{
    let base = score_base(diff) as i64;
    let numerator = base + strength as i64;
    let divisor = miss as i64 + 1;
    numerator >= i32::MIN as i64 && numerator <= i32::MAX as i64 && divisor <= i32::MAX as i64
        && divisor != 0 && !(numerator == i32::MIN as i64 && divisor == -1)
}

/// The score of a hit on `target`, when it computes without overflow.
fn hit_score(counter: i32, target: i32, miss: i32, strength: i32) -> (score: Option<i32>)
    ensures
        score is Some <==> (circular_diff_defined(counter as int, target as int)
            && calculate_score_defined(
            spec_circular_diff(counter as int, target as int),
            strength as int,
            miss as int,
        )),
        score matches Some(v) ==> v == spec_calculate_score(
            spec_circular_diff(counter as int, target as int),
            strength as int,
            miss as int,
        ),
{
    let delta = counter as i64 - target as i64;
    if delta <= i32::MIN as i64 || delta > i32::MAX as i64 {
        return None;
    }
    let diff = circular_diff(counter, target);
    if !score_computable(diff, strength, miss) {
        return None;
    }
    Some(calculate_score(diff, strength, miss))
}

/// Scores an objective once its counter is stopped: in letter mode only the
/// right letter scores, in number mode only ENTER scores; a scoring press is
/// worth `calculate_score(circular_diff(counter, target), strength, miss)`,
/// anything else 0. `None` when that formula would overflow (or divide by
/// zero), where scoring the objective fails.
pub fn objective_score(
    objective: Objective,
    pressed_char: Option<char>,
    pressed_enter: bool,
    counter: i32,
    miss: i32,
    strength: i32,
) -> (score: Option<i32>)
    ensures
        score is Some <==> objective_score_defined(
            objective,
            pressed_char,
            pressed_enter,
            counter,
            miss,
            strength,
        ),
        score matches Some(v) ==> v == spec_objective_score(
            objective,
            pressed_char,
            pressed_enter,
            counter,
            miss,
            strength,
        ),
{
    match objective {
        Objective::Letter(letter, target) => {
            if pressed_char == Some(letter) {
                hit_score(counter, target, miss, strength)
            } else {
                Some(0)
            }
        },
        Objective::Number(target) => {
            if !pressed_enter {
                Some(0)
            } else {
                hit_score(counter, target, miss, strength)
            }
        },
    }
}

/// On the dial the counter stays in `[0, 99]`: a tick from `99` goes back
/// to `0` and counts exactly one miss, any other tick adds one and counts
/// none.
pub proof fn law_tick_stays_on_dial(counter: i32, miss: i32)
    requires
        0 <= counter <= 99,
        0 <= miss < i32::MAX,
    ensures
        0 <= spec_tick(counter, miss).0 <= 99,
        counter == 99 ==> spec_tick(counter, miss) == (0i32, (miss + 1) as i32),
        counter < 99 ==> spec_tick(counter, miss) == ((counter + 1) as i32, miss),
{
}

/// A press that does not hit (the wrong letter, or no ENTER in number mode)
/// scores nothing; a hit on the dial, with a nonnegative strength and
/// miss count, scores between 0 and `100 + strength`.
pub proof fn law_objective_score_bounds(
    objective: Objective,
    pressed_char: Option<char>,
    pressed_enter: bool,
    counter: i32,
    miss: i32,
    strength: i32,
)
    ensures
        !hit(objective, pressed_char, pressed_enter) ==> spec_objective_score(
            objective,
            pressed_char,
            pressed_enter,
            counter,
            miss,
            strength,
        ) == 0,
        hit(objective, pressed_char, pressed_enter) && 0 <= counter <= 100 && 0 <= target(
            objective,
        ) <= 100 && strength >= 0 && miss >= 0 ==> 0 <= spec_objective_score(
            objective,
            pressed_char,
            pressed_enter,
            counter,
            miss,
            strength,
        ) <= 100 + strength,
{
    let d = spec_circular_diff(counter as int, target(objective) as int);
    let n = spec_score_base(d) + strength;
    if hit(objective, pressed_char, pressed_enter) && strength >= 0 && miss >= 0 {
        assert(0 <= n / (miss + 1) <= n) by (nonlinear_arith)
            requires n >= 0, miss >= 0;
    }
}

/// While the counter runs: a repeat or a release never stops it; a pressed
/// character stops it and is remembered, in either mode; ENTER stops it in
/// number mode (remembered as ENTER) and is ignored in letter mode; any
/// other key stops it in number mode with nothing remembered and is
/// ignored in letter mode.
pub proof fn law_key_decisions(objective: Objective, is_press: bool, key: KeyInput)
    ensures
        !is_press ==> spec_decide_key(objective, is_press, key) == KeyDecision::Wait,
        is_press ==> (key matches KeyInput::Char(c) ==> spec_decide_key(objective, is_press, key)
            == KeyDecision::Stop { pressed_char: Some(c), pressed_enter: false }),
        is_press && key == KeyInput::Enter ==> spec_decide_key(objective, is_press, key) == (
        match objective {
            Objective::Number(_) => KeyDecision::Stop { pressed_char: None, pressed_enter: true },
            Objective::Letter(_, _) => KeyDecision::Wait,
        }),
        is_press && key == KeyInput::Other ==> spec_decide_key(objective, is_press, key) == (
        match objective {
            Objective::Number(_) => KeyDecision::Stop { pressed_char: None, pressed_enter: false },
            Objective::Letter(_, _) => KeyDecision::Wait,
        }),
{
}

/// Only the expected press scores. In number mode a stop without ENTER
/// (whatever character stopped it) scores 0, and in letter mode any other
/// press than the objective's letter scores 0; such a stop is always scored
/// (no overflow can arise). ENTER in number mode, or the objective's letter
/// in letter mode, scores the formula on the circular difference to the
/// target.
pub proof fn law_only_the_expected_press_scores(
    objective: Objective,
    pressed_char: Option<char>,
    pressed_enter: bool,
    counter: i32,
    miss: i32,
    strength: i32,
)
    ensures
        ({
            let score = spec_objective_score(objective, pressed_char, pressed_enter, counter, miss, strength);
            let defined = objective_score_defined(objective, pressed_char, pressed_enter, counter, miss, strength);
            match objective {
                Objective::Number(t) => {
                    &&& !pressed_enter ==> defined && score == 0
                    &&& pressed_enter ==> score == spec_calculate_score(
                        spec_circular_diff(counter as int, t as int),
                        strength as int,
                        miss as int,
                    )
                },
                Objective::Letter(letter, t) => {
                    &&& pressed_char != Some(letter) ==> defined && score == 0
                    &&& pressed_char == Some(letter) ==> score == spec_calculate_score(
                        spec_circular_diff(counter as int, t as int),
                        strength as int,
                        miss as int,
                    )
                },
            }
        }),
{
}

/// Anywhere below `i32::MAX`, a tick adds one to the counter unless that
/// reaches 100, in which case the counter goes back to 0 and the misses go
/// up by one (wrapping from `i32::MAX` to `i32::MIN`, as the shared atomic
/// does).
pub proof fn law_tick(counter: i32, miss: i32)
    requires
        counter < i32::MAX,
    ensures
        counter >= 99 ==> spec_tick(counter, miss).0 == 0,
        counter >= 99 && miss < i32::MAX ==> spec_tick(counter, miss).1 == miss + 1,
        counter >= 99 && miss == i32::MAX ==> spec_tick(counter, miss).1 == i32::MIN,
        counter < 99 ==> spec_tick(counter, miss).0 == counter + 1 && spec_tick(counter, miss).1
            == miss,
{
}

} // verus!
