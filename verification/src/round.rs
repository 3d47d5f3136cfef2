//! Turns and rounds: the average of a turn, poisons, and how a round is
//! resolved between the players still in the game.

use vstd::prelude::*;
use crate::player::Player;

verus! {

/// The ceiling of `a / b` for `b > 0` (`/` being floor division there).
pub open spec fn ceil_div(a: int, b: int) -> int {
    -((-a) / b)
}

/// `ceil_div` is the least integer whose multiple by `b` reaches `a`.
pub proof fn law_ceil_div_is_ceiling(a: int, b: int)
    requires
        b > 0,
    ensures
        ceil_div(a, b) * b >= a,
        (ceil_div(a, b) - 1) * b < a,
{
    let q = (-a) / b;
    let r = (-a) % b;
    vstd::arithmetic::div_mod::lemma_fundamental_div_mod(-a, b);
    assert(0 <= r < b) by {
        vstd::arithmetic::div_mod::lemma_mod_bound(-a, b);
    }
    assert((-q) * b >= a && (-q - 1) * b < a) by (nonlinear_arith)
        requires -a == b * q + r, 0 <= r < b;
}

/// For `t >= 0`, rounding `t / c` up is `(t + c - 1) / c` rounded down.
proof fn lemma_ceil_div_nonneg(t: int, c: int)
    requires
        t >= 0,
        c > 0,
    ensures
        (t + c - 1) / c == ceil_div(t, c),
        0 <= ceil_div(t, c) <= t,
{
    let q1 = (t + c - 1) / c;
    let s = (t + c - 1) % c;
    vstd::arithmetic::div_mod::lemma_fundamental_div_mod(t + c - 1, c);
    vstd::arithmetic::div_mod::lemma_mod_pos_bound(t + c - 1, c);
    assert(-t == (-q1) * c + (c - 1 - s)) by (nonlinear_arith)
        requires t + c - 1 == c * q1 + s;
    vstd::arithmetic::div_mod::lemma_fundamental_div_mod_converse(-t, c, -q1, c - 1 - s);
    assert(0 <= q1 <= t) by (nonlinear_arith)
        requires t + c - 1 == c * q1 + s, 0 <= s < c, t >= 0, c > 0;
}

/// The average score of a turn, rounded up; `0` when there were no
/// objectives.
pub fn compute_turn_average(total: i32, count: usize) -> (average: i32)
    ensures
        count == 0 ==> average == 0,
        count > 0 ==> average == ceil_div(total as int, count as int),
{
    if count == 0 {
        return 0;
    }
    let c = count as u128;
    if total >= 0 {
        let t = total as u128;
        let q = (t + c - 1) / c;
        proof {
            lemma_ceil_div_nonneg(t as int, c as int);
        }
        q as i32
    } else {
        let m = (-(total as i64)) as u128;
        let q = m / c;
        proof {
            assert(0 <= q <= m) by (nonlinear_arith)
                requires q == m / c, c > 0, m >= 0;
        }
        (-(q as i64)) as i32
    }
}

/// Sum of the scores of a turn.
pub open spec fn sum_scores(scores: Seq<i32>) -> int
    decreases scores.len(),
{
    if scores.len() == 0 {
        0
    } else {
        sum_scores(scores.drop_last()) + scores.last()
    }
}

/// Every running total of the scores, taken in order, fits in an `i32`.
pub open spec fn running_totals_fit(scores: Seq<i32>) -> bool {
    forall|k: int|
        0 <= k <= scores.len() ==> i32::MIN <= #[trigger] sum_scores(scores.take(k)) <= i32::MAX
}

/// The score of a turn from the scores of its objectives: their total,
/// added up in order, averaged and rounded up (0 for a turn without
/// objectives). `None` when a running total overflows an `i32`, where
/// adding up the turn fails.
pub fn turn_score(scores: &Vec<i32>) -> (score: Option<i32>)
    ensures
        score is Some <==> running_totals_fit(scores@),
        score matches Some(v) ==> v == (if scores.len() == 0 {
            0
        } else {
            ceil_div(sum_scores(scores@), scores.len() as int)
        }),
{
    let mut total: i32 = 0;
    let mut k: usize = 0;
    assert(scores@.take(0) =~= Seq::<i32>::empty());
    while k < scores.len()
        invariant
            k <= scores.len(),
            total == sum_scores(scores@.take(k as int)),
            forall|j: int|
                0 <= j <= k ==> i32::MIN <= #[trigger] sum_scores(scores@.take(j)) <= i32::MAX,
        decreases scores.len() - k,
    {
        assert(scores@.take(k + 1).drop_last() =~= scores@.take(k as int));
        let next = total as i64 + scores[k] as i64;
        if next < i32::MIN as i64 || next > i32::MAX as i64 {
            assert(!(i32::MIN <= sum_scores(scores@.take(k + 1)) <= i32::MAX));
            return None;
        }
        total = next as i32;
        k = k + 1;
    }
    assert(scores@.take(k as int) =~= scores@);
    Some(compute_turn_average(total, scores.len()))
}

/// Speed after the speed poison: 5 less, saturating at 0, then raised to
/// the floor of 5 ms.
pub open spec fn poisoned_speed(speed: u64) -> u64 {
    let lowered: u64 = if speed >= 5 { (speed - 5) as u64 } else { 0 };
    if lowered >= 5 { lowered } else { 5 }
}

/// Strength after the strength poison: 5 less, raised to the floor of 0.
pub open spec fn poisoned_strength(strength: i32) -> i32 {
    if strength - 5 >= 0 { (strength - 5) as i32 } else { 0 }
}

/// The player after the poison of the given choice: `1` lowers speed,
/// `2` lowers strength, any other choice leaves the player as it was.
pub open spec fn poisoned(player: Player, choice: u8) -> Player {
    if choice == 1 {
        Player { speed: poisoned_speed(player.speed), ..player }
    } else if choice == 2 {
        Player { strength: poisoned_strength(player.strength), ..player }
    } else {
        player
    }
}

/// The inputs on which a poison computes without overflow.
pub open spec fn poison_defined(player: Player, choice: u8) -> bool {
    choice == 2 ==> player.strength - 5 >= i32::MIN
}

/// Applies to `loser` the poison of the choice already read: `1` takes
/// 5 of speed (floor 5 ms), `2` takes 5 of strength (floor 0), any other
/// choice changes nothing.
pub fn apply_poison_choice(loser: &mut Player, choice: u8)
    requires
        poison_defined(*old(loser), choice),
    ensures
        *final(loser) == poisoned(*old(loser), choice),
{
    if choice == 1 {
        loser.speed = loser.speed.saturating_sub(5).max(5);
    } else if choice == 2 {
        loser.strength = (loser.strength - 5).max(0);
    }
}

/// Highest score of a nonempty sequence.
pub open spec fn top_score(scores: Seq<i32>) -> int
    decreases scores.len(),
{
    if scores.len() <= 1 {
        scores[0] as int
    } else {
        let rest = top_score(scores.drop_last());
        if scores.last() > rest { scores.last() as int } else { rest }
    }
}

/// Lowest score of a nonempty sequence.
pub open spec fn bottom_score(scores: Seq<i32>) -> int
    decreases scores.len(),
{
    if scores.len() <= 1 {
        scores[0] as int
    } else {
        let rest = bottom_score(scores.drop_last());
        if scores.last() < rest { scores.last() as int } else { rest }
    }
}

/// The players (of `active`, each paired with the score at the same
/// position) whose score is `score`, in the order of `active`.
pub open spec fn holders(active: Seq<usize>, scores: Seq<i32>, score: int) -> Seq<usize>
    decreases scores.len(),
{
    if scores.len() == 0 || active.len() == 0 {
        Seq::empty()
    } else {
        let rest = holders(active.drop_last(), scores.drop_last(), score);
        if scores.last() == score { rest.push(active.last()) } else { rest }
    }
}

/// How a round ends once every active player has a score.
#[derive(Debug, PartialEq, Eq)]
pub enum RoundOutcome {
    /// Every player has the same score: no damage, no poison.
    Draw,
    /// Several players share the best score; they agree on the poison for
    /// the single loser.
    SharedLead { winners: Vec<usize>, loser: usize, damage: i32 },
    /// Several players share the worst score; the single winner picks the
    /// poison for all of them.
    SharedLast { winner: usize, losers: Vec<usize>, damage: i32 },
    /// One best and one worst score.
    Clear { winner: usize, loser: usize, damage: i32 },
}

/// The outcome that the rules give for the active players `active` with
/// the scores `scores` (one per active player, in the same order). Ties are
/// broken as a stable sort by decreasing score breaks them: the loser of a
/// shared lead is the last of the worst scorers, the winner of a shared
/// last place the first of the best, and the losers are taken from the
/// last to the first.
pub open spec fn outcome_for(outcome: RoundOutcome, active: Seq<usize>, scores: Seq<i32>) -> bool {
    let top = top_score(scores);
    let bottom = bottom_score(scores);
    let best = holders(active, scores, top);
    let worst = holders(active, scores, bottom);
    match outcome {
        RoundOutcome::Draw => top == bottom,
        RoundOutcome::SharedLead { winners, loser, damage } => {
            &&& top != bottom
            &&& best.len() > 1
            &&& winners@ == best
            &&& loser == worst.last()
            &&& damage == top - bottom
        },
        RoundOutcome::SharedLast { winner, losers, damage } => {
            &&& top != bottom
            &&& best.len() == 1
            &&& worst.len() > 1
            &&& winner == best[0]
            &&& losers@ == worst.reverse()
            &&& damage == top - bottom
        },
        RoundOutcome::Clear { winner, loser, damage } => {
            &&& top != bottom
            &&& best.len() == 1
            &&& worst.len() == 1
            &&& winner == best[0]
            &&& loser == worst[0]
            &&& damage == top - bottom
        },
    }
}

/// The scores of a round can be ranked: there is at least one, each can be
/// negated, and the gap between best and worst fits in an `i32`.
pub open spec fn scores_rankable(active: Seq<usize>, scores: Seq<i32>) -> bool {
    &&& scores.len() >= 1
    &&& active.len() == scores.len()
    &&& forall|k: int| 0 <= k < scores.len() ==> scores[k] > i32::MIN
    &&& top_score(scores) - bottom_score(scores) <= i32::MAX
}

/// The best score is held by at least one player, and so is the worst.
proof fn lemma_extremes_held(active: Seq<usize>, scores: Seq<i32>)
    requires
        scores.len() >= 1,
        active.len() == scores.len(),
    ensures
        holders(active, scores, top_score(scores)).len() >= 1,
        holders(active, scores, bottom_score(scores)).len() >= 1,
    decreases scores.len(),
{
    if scores.len() > 1 {
        lemma_extremes_held(active.drop_last(), scores.drop_last());
    }
}

/// Extending the pairs by one position extends the holders accordingly.
proof fn lemma_holders_step(active: Seq<usize>, scores: Seq<i32>, score: int, k: int)
    requires
        0 <= k < scores.len(),
        active.len() == scores.len(),
    ensures
        holders(active.take(k + 1), scores.take(k + 1), score) == if scores[k] == score {
            holders(active.take(k), scores.take(k), score).push(active[k])
        } else {
            holders(active.take(k), scores.take(k), score)
        },
{
    assert(active.take(k + 1).drop_last() =~= active.take(k));
    assert(scores.take(k + 1).drop_last() =~= scores.take(k));
}

/// The players of `active` whose score is `score`, in order.
fn collect_holders(active: &Vec<usize>, scores: &Vec<i32>, score: i32) -> (found: Vec<usize>)
    requires
        active.len() == scores.len(),
    ensures
        found@ == holders(active@, scores@, score as int),
{
    let mut found: Vec<usize> = Vec::new();
    let mut k: usize = 0;
    while k < scores.len()
        invariant
            active.len() == scores.len(),
            k <= scores.len(),
            found@ == holders(active@.take(k as int), scores@.take(k as int), score as int),
        decreases scores.len() - k,
    {
        proof {
            lemma_holders_step(active@, scores@, score as int, k as int);
        }
        if scores[k] == score {
            found.push(active[k]);
        }
        k = k + 1;
    }
    assert(active@.take(k as int) =~= active@);
    assert(scores@.take(k as int) =~= scores@);
    found
}

/// Resolves a round from the scores of the active players (`scores[k]` is
/// the score of player `active[k]`): a draw when all scores are equal,
/// otherwise the best scorer(s) against the worst scorer(s), the damage
/// being the gap between best and worst score. `None` when the scores
/// cannot be ranked (no score, a score of `i32::MIN`, or a gap beyond
/// `i32`), where the ranking of the round fails.
pub fn resolve_round(active: &Vec<usize>, scores: &Vec<i32>) -> (outcome: Option<RoundOutcome>)
    ensures
        outcome is Some <==> scores_rankable(active@, scores@),
        outcome matches Some(o) ==> outcome_for(o, active@, scores@),
{
    if scores.len() == 0 || active.len() != scores.len() {
        return None;
    }
    let mut top = scores[0];
    let mut bottom = scores[0];
    let mut negatable = scores[0] > i32::MIN;
    let mut k: usize = 1;
    assert(scores@.take(1).drop_last() =~= Seq::<i32>::empty());
    while k < scores.len()
        invariant
            1 <= k <= scores.len(),
            top == top_score(scores@.take(k as int)),
            bottom == bottom_score(scores@.take(k as int)),
            negatable == (forall|j: int| 0 <= j < k ==> #[trigger] scores@[j] > i32::MIN),
        decreases scores.len() - k,
    {
        assert(scores@.take(k + 1).drop_last() =~= scores@.take(k as int));
        if scores[k] > top {
            top = scores[k];
        }
        if scores[k] < bottom {
            bottom = scores[k];
        }
        if scores[k] == i32::MIN {
            negatable = false;
        }
        k = k + 1;
    }
    assert(scores@.take(k as int) =~= scores@);
    if !negatable || (top as i64) - (bottom as i64) > i32::MAX as i64 {
        return None;
    }
    proof {
        lemma_extremes_held(active@, scores@);
    }
    let best = collect_holders(active, scores, top);
    let worst = collect_holders(active, scores, bottom);
    if top == bottom {
        Some(RoundOutcome::Draw)
    } else if best.len() > 1 {
        Some(RoundOutcome::SharedLead {
            winners: best,
            loser: worst[worst.len() - 1],
            damage: top - bottom,
        })
    } else if worst.len() > 1 {
        let n = worst.len();
        let mut losers: Vec<usize> = Vec::new();
        let mut j: usize = 0;
        while j < n
            invariant
                n == worst.len(),
                j <= n,
                losers.len() == j,
                forall|i: int| 0 <= i < j ==> losers@[i] == worst@[n - 1 - i],
            decreases n - j,
        {
            losers.push(worst[n - 1 - j]);
            j = j + 1;
        }
        assert(losers@ =~= worst@.reverse());
        Some(RoundOutcome::SharedLast { winner: best[0], losers, damage: top - bottom })
    } else {
        Some(RoundOutcome::Clear { winner: best[0], loser: worst[0], damage: top - bottom })
    }
}

/// Whether a player is still in the game.
pub open spec fn alive(player: Player) -> bool {
    player.vitality > 0
}

/// The player after losing `damage` vitality and then taking the poison
/// `choice`.
pub open spec fn struck(player: Player, damage: int, choice: u8) -> Player {
    poisoned(Player { vitality: (player.vitality - damage) as i32, ..player }, choice)
}

/// The inputs on which striking a player computes without overflow.
pub open spec fn strike_defined(player: Player, damage: int, choice: u8) -> bool {
    &&& i32::MIN <= player.vitality - damage <= i32::MAX
    &&& poison_defined(player, choice)
}

/// The losers of `losers` (in that order) left with no vitality in `after`.
pub open spec fn fallen(losers: Seq<usize>, after: Seq<Player>) -> Seq<usize>
    decreases losers.len(),
{
    if losers.len() == 0 {
        Seq::empty()
    } else {
        let rest = fallen(losers.drop_last(), after);
        if !alive(after[losers.last() as int]) { rest.push(losers.last()) } else { rest }
    }
}

/// The players after the outcome has been applied with the poison `choice`.
pub open spec fn settled(before: Seq<Player>, outcome: RoundOutcome, choice: u8) -> Seq<Player> {
    match outcome {
        RoundOutcome::Draw => before,
        RoundOutcome::SharedLead { loser, damage, .. } => before.update(
            loser as int,
            struck(before[loser as int], damage as int, choice),
        ),
        RoundOutcome::Clear { loser, damage, .. } => before.update(
            loser as int,
            struck(before[loser as int], damage as int, choice),
        ),
        RoundOutcome::SharedLast { losers, damage, .. } => Seq::new(
            before.len(),
            |i: int|
                if losers@.contains(i as usize) {
                    struck(before[i], damage as int, choice)
                } else {
                    before[i]
                },
        ),
    }
}

/// The players newly out of the game, each reported once, in the order of
/// the losers.
pub open spec fn eliminated_by(outcome: RoundOutcome, after: Seq<Player>) -> Seq<usize> {
    match outcome {
        RoundOutcome::Draw => Seq::empty(),
        RoundOutcome::SharedLead { loser, .. } => if alive(after[loser as int]) {
            Seq::empty()
        } else {
            seq![loser]
        },
        RoundOutcome::Clear { loser, .. } => if alive(after[loser as int]) {
            Seq::empty()
        } else {
            seq![loser]
        },
        RoundOutcome::SharedLast { losers, .. } => fallen(losers@, after),
    }
}

/// The outcome can be applied to `players` without going out of range or
/// overflowing.
pub open spec fn outcome_applicable(players: Seq<Player>, outcome: RoundOutcome, choice: u8) -> bool {
    match outcome {
        RoundOutcome::Draw => true,
        RoundOutcome::SharedLead { loser, damage, .. } => {
            &&& loser < players.len()
            &&& strike_defined(players[loser as int], damage as int, choice)
        },
        RoundOutcome::Clear { loser, damage, .. } => {
            &&& loser < players.len()
            &&& strike_defined(players[loser as int], damage as int, choice)
        },
        RoundOutcome::SharedLast { losers, damage, .. } => {
            &&& losers@.no_duplicates()
            &&& forall|j: int|
                0 <= j < losers.len() ==> #[trigger] losers@[j] < players.len()
                    && strike_defined(players[losers@[j] as int], damage as int, choice)
        },
    }
}

/// Applies the outcome of a round with the poison `choice` already agreed:
/// each loser loses `damage` vitality, then takes the poison. Returns the
/// players newly out of the game.
pub fn settle_round(players: &mut Vec<Player>, outcome: &RoundOutcome, choice: u8) -> (eliminated: Vec<usize>)
    requires
        outcome_applicable(old(players)@, *outcome, choice),
    ensures
        final(players)@ == settled(old(players)@, *outcome, choice),
        eliminated@ == eliminated_by(*outcome, final(players)@),
{
    let mut eliminated: Vec<usize> = Vec::new();
    match outcome {
        RoundOutcome::Draw => {},
        RoundOutcome::SharedLead { loser, damage, .. } => {
            let loser = *loser;
            players[loser].vitality = players[loser].vitality - *damage;
            if players[loser].vitality <= 0 {
                eliminated.push(loser);
            }
            apply_poison_choice(&mut players[loser], choice);
        },
        RoundOutcome::Clear { loser, damage, .. } => {
            let loser = *loser;
            players[loser].vitality = players[loser].vitality - *damage;
            if players[loser].vitality <= 0 {
                eliminated.push(loser);
            }
            apply_poison_choice(&mut players[loser], choice);
        },
        RoundOutcome::SharedLast { losers, damage, .. } => {
            let ghost before = players@;
            let mut j: usize = 0;
            while j < losers.len()
                invariant
                    losers@.no_duplicates(),
                    forall|m: int|
                        0 <= m < losers.len() ==> #[trigger] losers@[m] < before.len()
                            && strike_defined(before[losers@[m] as int], *damage as int, choice),
                    j <= losers.len(),
                    players.len() == before.len(),
                    forall|i: int|
                        0 <= i < before.len() ==> #[trigger] players@[i] == if losers@.take(
                            j as int,
                        ).contains(i as usize) {
                            struck(before[i], *damage as int, choice)
                        } else {
                            before[i]
                        },
                    eliminated@ == fallen(losers@.take(j as int), players@),
                decreases losers.len() - j,
            {
                let loser = losers[j];
                let ghost prior = players@;
                let ghost prior_eliminated = eliminated@;
                assert(losers@[j as int] < before.len());
                assert(!losers@.take(j as int).contains(loser)) by {
                    if losers@.take(j as int).contains(loser) {
                        let m = choose|m: int| 0 <= m < j && losers@.take(j as int)[m] == loser;
                        assert(losers@[m] == losers@[j as int]);
                    }
                }
                players[loser].vitality = players[loser].vitality - *damage;
                if players[loser].vitality <= 0 {
                    eliminated.push(loser);
                    assert(eliminated@[eliminated@.len() - 1] == loser);
                }
                let ghost wounded = players@[loser as int];
                apply_poison_choice(&mut players[loser], choice);
                assert(players@[loser as int].vitality == wounded.vitality);
                if players[loser].vitality <= 0 {
                    if !vec_contains(&eliminated, loser) {
                        eliminated.push(loser);
                    }
                }
                proof {
                    assert(prior[loser as int] == before[loser as int]);
                    assert(players@ == prior.update(
                        loser as int,
                        struck(before[loser as int], *damage as int, choice),
                    ));
                    assert(losers@.take(j + 1) =~= losers@.take(j as int).push(loser));
                    assert forall|i: int| 0 <= i < before.len() implies #[trigger] players@[i] == if losers@.take(
                        j + 1,
                    ).contains(i as usize) {
                        struck(before[i], *damage as int, choice)
                    } else {
                        before[i]
                    } by {
                        if i != loser as int {
                            assert(losers@.take(j + 1).contains(i as usize) == losers@.take(j as int).contains(i as usize));
                        } else {
                            assert(losers@.take(j + 1)[j as int] == loser);
                        }
                    }
                    lemma_fallen_frame(losers@.take(j as int), prior, players@, loser);
                    assert(losers@.take(j + 1).drop_last() =~= losers@.take(j as int));
                    assert(eliminated@ == if !alive(players@[loser as int]) {
                        prior_eliminated.push(loser)
                    } else {
                        prior_eliminated
                    });
                }
                j = j + 1;
            }
            assert(losers@.take(j as int) =~= losers@);
            assert(players@ =~= settled(before, *outcome, choice));
        },
    }
    eliminated
}

/// Changing a player who is not among `losers` does not change who of
/// them has fallen.
proof fn lemma_fallen_frame(losers: Seq<usize>, a: Seq<Player>, b: Seq<Player>, changed: usize)
    requires
        !losers.contains(changed),
        a.len() == b.len(),
        forall|i: int| 0 <= i < a.len() && i != changed ==> a[i] == b[i],
        forall|m: int| 0 <= m < losers.len() ==> losers[m] < a.len(),
    ensures
        fallen(losers, a) == fallen(losers, b),
    decreases losers.len(),
{
    if losers.len() > 0 {
        assert(losers.last() == losers[losers.len() - 1]);
        assert(losers.drop_last().len() == losers.len() - 1);
        assert forall|m: int| 0 <= m < losers.drop_last().len() implies losers.drop_last()[m] < a.len() by {
            assert(losers.drop_last()[m] == losers[m]);
        }
        if losers.drop_last().contains(changed) {
            let m = choose|m: int| 0 <= m < losers.drop_last().len() && losers.drop_last()[m] == changed;
            assert(losers[m] == changed);
        }
        lemma_fallen_frame(losers.drop_last(), a, b, changed);
    }
}

/// Whether `v` holds `x`.
fn vec_contains(v: &Vec<usize>, x: usize) -> (found: bool)
    ensures
        found == v@.contains(x),
{
    let mut k: usize = 0;
    while k < v.len()
        invariant
            k <= v.len(),
            forall|i: int| 0 <= i < k ==> v@[i] != x,
        decreases v.len() - k,
    {
        if v[k] == x {
            return true;
        }
        k = k + 1;
    }
    false
}

/// Positions of the players still in the game, in order.
pub open spec fn alive_indices(players: Seq<Player>) -> Seq<usize>
    decreases players.len(),
{
    if players.len() == 0 {
        Seq::empty()
    } else {
        let rest = alive_indices(players.drop_last());
        if alive(players.last()) { rest.push((players.len() - 1) as usize) } else { rest }
    }
}

/// Positions of the players who still have vitality, in order: those who
/// play in this round.
pub fn active_players(players: &Vec<Player>) -> (active: Vec<usize>)
    ensures
        active@ == alive_indices(players@),
{
    let mut active: Vec<usize> = Vec::new();
    let mut k: usize = 0;
    while k < players.len()
        invariant
            k <= players.len(),
            active@ == alive_indices(players@.take(k as int)),
        decreases players.len() - k,
    {
        assert(players@.take(k + 1).drop_last() =~= players@.take(k as int));
        if players[k].vitality > 0 {
            active.push(k);
        }
        k = k + 1;
    }
    assert(players@.take(k as int) =~= players@);
    active
}

/// Whether at least two players are still in the game.
pub fn game_continues(players: &Vec<Player>) -> (continues: bool)
    ensures
        continues == (alive_indices(players@).len() >= 2),
{
    let active = active_players(players);
    active.len() >= 2
}

/// The first player still in the game, if any: the winner once the game
/// is over.
pub fn first_alive(players: &Vec<Player>) -> (found: Option<usize>)
    ensures
        found == (if alive_indices(players@).len() > 0 {
            Some(alive_indices(players@)[0])
        } else {
            None::<usize>
        }),
{
    let active = active_players(players);
    if active.len() > 0 {
        Some(active[0])
    } else {
        None
    }
}

/// Whether all poison choices are the same.
pub open spec fn unanimous(choices: Seq<u8>) -> bool {
    forall|i: int| 0 <= i < choices.len() ==> #[trigger] choices[i] == choices[0]
}

/// Whether all players sharing the lead chose the same poison.
pub fn unanimous_choices(choices: &Vec<u8>) -> (same: bool)
    ensures
        same == unanimous(choices@),
{
    if choices.len() == 0 {
        return true;
    }
    let first = choices[0];
    let mut k: usize = 1;
    let mut same = true;
    while k < choices.len()
        invariant
            1 <= k <= choices.len(),
            first == choices@[0],
            same == (forall|i: int| 0 <= i < k ==> #[trigger] choices@[i] == first),
        decreases choices.len() - k,
    {
        if choices[k] != first {
            same = false;
        }
        k = k + 1;
    }
    same
}

/// The poison that players sharing the lead inflict: their common choice
/// when they all chose the same, otherwise `1` or `2` as the clock's
/// sub-second nanoseconds are even or odd.
pub fn settle_poison_choice(choices: &Vec<u8>, clock_nanos: u32) -> (choice: u8)
    requires
        choices.len() >= 1,
    ensures
        choice == (if unanimous(choices@) {
            choices@[0]
        } else if clock_nanos % 2 == 0 {
            1u8
        } else {
            2u8
        }),
{
    if unanimous_choices(choices) {
        choices[0]
    } else if clock_nanos % 2 == 0 {
        1
    } else {
        2
    }
}

/// Whether striking `player` with `damage` and poison `choice` computes
/// without overflow.
fn can_strike(player: &Player, damage: i32, choice: u8) -> (ok: bool)
    ensures
        ok == strike_defined(*player, damage as int, choice),
{
    let wounded = (player.vitality as i64) - (damage as i64);
    wounded >= i32::MIN as i64 && wounded <= i32::MAX as i64 && (choice != 2 || player.strength
        >= i32::MIN + 5)
}

/// Whether the outcome can be applied to the players.
#[verifier::loop_isolation(false)]
fn can_apply(players: &Vec<Player>, outcome: &RoundOutcome, choice: u8) -> (ok: bool)
    ensures
        ok == outcome_applicable(players@, *outcome, choice),
{
    match outcome {
        RoundOutcome::Draw => true,
        RoundOutcome::SharedLead { loser, damage, .. } => *loser < players.len() && can_strike(
            &players[*loser],
            *damage,
            choice,
        ),
        RoundOutcome::Clear { loser, damage, .. } => *loser < players.len() && can_strike(
            &players[*loser],
            *damage,
            choice,
        ),
        RoundOutcome::SharedLast { losers, damage, .. } => {
            let mut k: usize = 0;
            while k < losers.len()
                invariant
                    k <= losers.len(),
                    forall|m: int|
                        0 <= m < k ==> #[trigger] losers@[m] < players.len() && strike_defined(
                            players@[losers@[m] as int],
                            *damage as int,
                            choice,
                        ),
                    forall|m: int, n: int| 0 <= m < n < k ==> losers@[m] != losers@[n],
                decreases losers.len() - k,
            {
                let l = losers[k];
                if l >= players.len() || !can_strike(&players[l], *damage, choice) {
                    assert(losers@[k as int] == l);
                    return false;
                }
                let mut m: usize = 0;
                while m < k
                    invariant
                        k < losers.len(),
                        l == losers@[k as int],
                        m <= k,
                        forall|i: int| 0 <= i < m ==> losers@[i] != l,
                    decreases k - m,
                {
                    if losers[m] == l {
                        assert(losers@[m as int] == losers@[k as int]);
                        assert(!losers@.no_duplicates());
                        return false;
                    }
                    m = m + 1;
                }
                k = k + 1;
            }
            true
        },
    }
}

/// Ends a round: applies its outcome with the poison `choice` already
/// agreed, and tells whether the game goes on together with the players
/// newly out of the game. The game stops as soon as a player's vitality
/// falls to 0 or below: it goes on exactly when nobody was eliminated in
/// this round (and at least two players are still in it). `None`, with the
/// players left as they were, when the outcome does not apply to them (an
/// index out of range, a loser listed twice, or a vitality or strength
/// that would overflow), where the round would fail.
pub fn conclude_round(players: &mut Vec<Player>, outcome: &RoundOutcome, choice: u8) -> (result:
    Option<(bool, Vec<usize>)>)
    ensures
        result is Some <==> outcome_applicable(old(players)@, *outcome, choice),
        result is None ==> final(players)@ == old(players)@,
        result matches Some((continues, eliminated)) ==> {
            &&& final(players)@ == settled(old(players)@, *outcome, choice)
            &&& eliminated@ == eliminated_by(*outcome, final(players)@)
            &&& continues == (eliminated@.len() == 0 && alive_indices(final(players)@).len() >= 2)
        },
{
    if !can_apply(players, outcome, choice) {
        return None;
    }
    let eliminated = settle_round(players, outcome, choice);
    let continues = eliminated.len() == 0 && game_continues(players);
    Some((continues, eliminated))
}

/// The final standing once the game is over: the winner (the first player
/// still in the game) first, then the eliminated players from the last
/// eliminated to the first. `None` when nobody is left (a complete draw).
pub fn final_ranking(players: &Vec<Player>, eliminated_order: &Vec<usize>) -> (ranking: Option<
    Vec<usize>,
>)
    ensures
        ranking is Some <==> alive_indices(players@).len() > 0,
        ranking matches Some(r) ==> r@ == seq![alive_indices(players@)[0]]
            + eliminated_order@.reverse(),
{
    match first_alive(players) {
        Some(winner) => {
            let mut ranking: Vec<usize> = Vec::new();
            ranking.push(winner);
            let n = eliminated_order.len();
            let mut k: usize = 0;
            while k < n
                invariant
                    n == eliminated_order.len(),
                    k <= n,
                    ranking.len() == k + 1,
                    ranking@[0] == winner,
                    forall|i: int| 1 <= i <= k ==> #[trigger] ranking@[i] == eliminated_order@[n - i],
                decreases n - k,
            {
                ranking.push(eliminated_order[n - 1 - k]);
                k = k + 1;
            }
            assert(ranking@ =~= seq![winner] + eliminated_order@.reverse());
            Some(ranking)
        },
        None => None,
    }
}

/// Every holder of `score` is an active player paired with that score.
proof fn lemma_holder_has_score(active: Seq<usize>, scores: Seq<i32>, score: int, x: usize)
    requires
        active.len() == scores.len(),
        holders(active, scores, score).contains(x),
    ensures
        exists|k: int| 0 <= k < active.len() && active[k] == x && scores[k] == score,
    decreases scores.len(),
{
    if scores.len() > 0 {
        let rest = holders(active.drop_last(), scores.drop_last(), score);
        if rest.contains(x) {
            lemma_holder_has_score(active.drop_last(), scores.drop_last(), score, x);
            let k = choose|k: int|
                0 <= k < active.drop_last().len() && active.drop_last()[k] == x
                    && scores.drop_last()[k] == score;
            assert(active[k] == x && scores[k] == score);
        } else {
            let k = active.len() - 1;
            assert(active[k] == x && scores[k] == score);
        }
    }
}

/// No active player holds two different scores.
proof fn lemma_holders_disjoint(active: Seq<usize>, scores: Seq<i32>, a: int, b: int, x: usize)
    requires
        active.len() == scores.len(),
        active.no_duplicates(),
        a != b,
        holders(active, scores, a).contains(x),
    ensures
        !holders(active, scores, b).contains(x),
{
    lemma_holder_has_score(active, scores, a, x);
    if holders(active, scores, b).contains(x) {
        lemma_holder_has_score(active, scores, b, x);
        let i = choose|k: int| 0 <= k < active.len() && active[k] == x && scores[k] == a;
        let j = choose|k: int| 0 <= k < active.len() && active[k] == x && scores[k] == b;
        assert(i != j);
    }
}

/// Unless the round is a draw, the losers lose a positive amount of
/// vitality: the gap between the best and the worst score.
pub proof fn law_damage_is_positive_gap(outcome: RoundOutcome, active: Seq<usize>, scores: Seq<i32>)
    requires
        scores_rankable(active, scores),
        outcome_for(outcome, active, scores),
    ensures
        match outcome {
            RoundOutcome::Draw => top_score(scores) == bottom_score(scores),
            RoundOutcome::SharedLead { damage, .. } => damage == top_score(scores) - bottom_score(
                scores,
            ) && damage > 0,
            RoundOutcome::SharedLast { damage, .. } => damage == top_score(scores) - bottom_score(
                scores,
            ) && damage > 0,
            RoundOutcome::Clear { damage, .. } => damage == top_score(scores) - bottom_score(scores)
                && damage > 0,
        },
{
    lemma_top_above_bottom(scores);
}

/// The best score is never below the worst.
proof fn lemma_top_above_bottom(scores: Seq<i32>)
    requires
        scores.len() >= 1,
    ensures
        bottom_score(scores) <= top_score(scores),
    decreases scores.len(),
{
    if scores.len() > 1 {
        lemma_top_above_bottom(scores.drop_last());
    }
}

/// A round never touches a winner: the players who win it (one or several)
/// keep their vitality, speed and strength, and so does anyone who is no
/// loser of it. Each loser loses exactly the damage and takes the poison.
pub proof fn law_only_losers_are_struck(
    before: Seq<Player>,
    active: Seq<usize>,
    scores: Seq<i32>,
    outcome: RoundOutcome,
    choice: u8,
    i: int,
)
    requires
        scores_rankable(active, scores),
        active.no_duplicates(),
        outcome_for(outcome, active, scores),
        outcome_applicable(before, outcome, choice),
        0 <= i < before.len(),
    ensures
        ({
            let after = settled(before, outcome, choice);
            &&& after.len() == before.len()
            &&& match outcome {
                RoundOutcome::Draw => after[i] == before[i],
                RoundOutcome::SharedLead { winners, loser, damage } => {
                    &&& winners@.contains(i as usize) ==> after[i] == before[i]
                    &&& i != loser ==> after[i] == before[i]
                    &&& i == loser ==> after[i] == struck(before[i], damage as int, choice)
                },
                RoundOutcome::SharedLast { winner, losers, damage } => {
                    &&& i == winner ==> after[i] == before[i]
                    &&& !losers@.contains(i as usize) ==> after[i] == before[i]
                    &&& losers@.contains(i as usize) ==> after[i] == struck(
                        before[i],
                        damage as int,
                        choice,
                    )
                },
                RoundOutcome::Clear { winner, loser, damage } => {
                    &&& i == winner ==> after[i] == before[i]
                    &&& i != loser ==> after[i] == before[i]
                    &&& i == loser ==> after[i] == struck(before[i], damage as int, choice)
                },
            }
        }),
{
    let top = top_score(scores);
    let bottom = bottom_score(scores);
    let best = holders(active, scores, top);
    let worst = holders(active, scores, bottom);
    match outcome {
        RoundOutcome::Draw => {},
        RoundOutcome::SharedLead { winners, loser, damage } => {
            if winners@.contains(i as usize) {
                lemma_holders_disjoint(active, scores, top, bottom, i as usize);
                lemma_extremes_held(active, scores);
                assert(worst.contains(loser));
            }
        },
        RoundOutcome::SharedLast { winner, losers, damage } => {
            if i == winner {
                assert(best.contains(winner));
                lemma_holders_disjoint(active, scores, top, bottom, winner);
                if losers@.contains(winner) {
                    let m = choose|m: int| 0 <= m < losers@.len() && losers@[m] == winner;
                    assert(worst[worst.len() - 1 - m] == winner);
                }
            }
        },
        RoundOutcome::Clear { winner, loser, damage } => {
            if i == winner {
                assert(best.contains(winner));
                assert(worst.contains(loser));
                lemma_holders_disjoint(active, scores, top, bottom, winner);
            }
        },
    }
}

/// Every player reported as newly out of the game has no vitality left.
pub proof fn law_eliminated_are_out(before: Seq<Player>, outcome: RoundOutcome, choice: u8)
    requires
        outcome_applicable(before, outcome, choice),
    ensures
        ({
            let after = settled(before, outcome, choice);
            forall|k: int|
                0 <= k < eliminated_by(outcome, after).len() ==> {
                    let x = #[trigger] eliminated_by(outcome, after)[k];
                    &&& x < after.len()
                    &&& !alive(after[x as int])
                }
        }),
{
    let after = settled(before, outcome, choice);
    match outcome {
        RoundOutcome::SharedLast { losers, .. } => {
            lemma_fallen_are_out(losers@, after);
        },
        _ => {},
    }
}

/// The fallen among `losers` are losers with no vitality left.
proof fn lemma_fallen_are_out(losers: Seq<usize>, after: Seq<Player>)
    requires
        forall|m: int| 0 <= m < losers.len() ==> losers[m] < after.len(),
    ensures
        forall|k: int|
            0 <= k < fallen(losers, after).len() ==> {
                let x = #[trigger] fallen(losers, after)[k];
                &&& x < after.len()
                &&& !alive(after[x as int])
            },
    decreases losers.len(),
{
    if losers.len() > 0 {
        assert forall|m: int| 0 <= m < losers.drop_last().len() implies losers.drop_last()[m]
            < after.len() by {
            assert(losers.drop_last()[m] == losers[m]);
        }
        lemma_fallen_are_out(losers.drop_last(), after);
        assert(losers.last() == losers[losers.len() - 1]);
        let rest = fallen(losers.drop_last(), after);
        assert forall|k: int| 0 <= k < fallen(losers, after).len() implies {
            let x = #[trigger] fallen(losers, after)[k];
            &&& x < after.len()
            &&& !alive(after[x as int])
        } by {
            if k < rest.len() {
                assert(fallen(losers, after)[k] == rest[k]);
            }
        }
    }
}

/// The poison never takes speed below 5 ms nor strength below 0, never
/// touches name or vitality, and leaves the player as it was for a choice
/// other than 1 or 2. Above the floors it takes exactly 5; otherwise it
/// leaves the stat at its floor.
pub proof fn law_poison_floors(player: Player, choice: u8)
    ensures
        poisoned(player, choice).name == player.name,
        poisoned(player, choice).vitality == player.vitality,
        choice == 1 ==> poisoned(player, choice).speed >= 5 && poisoned(player, choice).strength
            == player.strength,
        choice == 1 && player.speed >= 10 ==> poisoned(player, choice).speed == player.speed - 5,
        choice == 1 && player.speed < 10 ==> poisoned(player, choice).speed == 5,
        choice == 2 ==> poisoned(player, choice).strength >= 0 && poisoned(player, choice).speed
            == player.speed,
        choice == 2 && player.strength >= 5 ==> poisoned(player, choice).strength == player.strength
            - 5,
        choice == 2 && player.strength < 5 ==> poisoned(player, choice).strength == 0,
        choice != 1 && choice != 2 ==> poisoned(player, choice) == player,
{
}

/// A poison never makes a player stronger or slower than before, as long as
/// the player starts at or above the floors (speed at least 5 ms, strength
/// at least 0).
pub proof fn law_poison_never_helps(player: Player, choice: u8)
    requires
        player.speed >= 5,
        player.strength >= 0,
    ensures
        poisoned(player, choice).speed <= player.speed,
        poisoned(player, choice).strength <= player.strength,
{
}

/// The game goes on exactly while at least two players are left; once it
/// is over, the winner (if any) is the only player left.
pub proof fn law_game_over(players: Seq<Player>)
    requires
        players.len() <= usize::MAX,
        alive_indices(players).len() < 2,
        alive_indices(players).len() > 0,
    ensures
        forall|i: int|
            0 <= i < players.len() && alive(#[trigger] players[i]) ==> i == alive_indices(
                players,
            )[0],
{
    assert forall|i: int| 0 <= i < players.len() && alive(#[trigger] players[i]) implies i
        == alive_indices(players)[0] by {
        lemma_alive_listed(players, i);
        let r = alive_indices(players);
        let k = choose|k: int| 0 <= k < r.len() && r[k] == i as usize;
        assert(k == 0);
    }
}

/// Every player still in the game is listed among the alive indices.
proof fn lemma_alive_listed(players: Seq<Player>, i: int)
    requires
        0 <= i < players.len(),
        alive(players[i]),
    ensures
        alive_indices(players).contains(i as usize),
    decreases players.len(),
{
    let r = alive_indices(players);
    if i < players.len() - 1 {
        assert(players.drop_last()[i] == players[i]);
        lemma_alive_listed(players.drop_last(), i);
        let rest = alive_indices(players.drop_last());
        let k = choose|k: int| 0 <= k < rest.len() && rest[k] == i as usize;
        assert(r[k] == i as usize);
    } else {
        assert(r[r.len() - 1] == i as usize);
    }
}

/// No score is above the best nor below the worst.
proof fn lemma_extremes_bound(scores: Seq<i32>, k: int)
    requires
        0 <= k < scores.len(),
    ensures
        bottom_score(scores) <= scores[k] <= top_score(scores),
    decreases scores.len(),
{
    if k < scores.len() - 1 {
        lemma_extremes_bound(scores.drop_last(), k);
        assert(scores.drop_last()[k] == scores[k]);
    }
}

/// The player with the highest score wins the round, the one with the
/// lowest loses it: every winner holds a score that no other score exceeds,
/// and every loser a score that no other score is below.
pub proof fn law_best_wins_worst_loses(
    outcome: RoundOutcome,
    active: Seq<usize>,
    scores: Seq<i32>,
    x: usize,
    j: int,
)
    requires
        scores_rankable(active, scores),
        outcome_for(outcome, active, scores),
        0 <= j < scores.len(),
    ensures
        (match outcome {
            RoundOutcome::Draw => false,
            RoundOutcome::SharedLead { winners, .. } => winners@.contains(x),
            RoundOutcome::SharedLast { winner, .. } => x == winner,
            RoundOutcome::Clear { winner, .. } => x == winner,
        }) ==> exists|k: int|
            0 <= k < scores.len() && active[k] == x && scores[j] <= #[trigger] scores[k],
        (match outcome {
            RoundOutcome::Draw => false,
            RoundOutcome::SharedLead { loser, .. } => x == loser,
            RoundOutcome::SharedLast { losers, .. } => losers@.contains(x),
            RoundOutcome::Clear { loser, .. } => x == loser,
        }) ==> exists|k: int|
            0 <= k < scores.len() && active[k] == x && #[trigger] scores[k] <= scores[j],
{
    let top = top_score(scores);
    let bottom = bottom_score(scores);
    let best = holders(active, scores, top);
    let worst = holders(active, scores, bottom);
    lemma_extremes_bound(scores, j);
    lemma_extremes_held(active, scores);
    match outcome {
        RoundOutcome::Draw => {},
        RoundOutcome::SharedLead { winners, loser, .. } => {
            if winners@.contains(x) {
                lemma_holder_has_score(active, scores, top, x);
            }
            if x == loser {
                assert(worst.contains(loser));
                lemma_holder_has_score(active, scores, bottom, x);
            }
        },
        RoundOutcome::SharedLast { winner, losers, .. } => {
            if x == winner {
                assert(best.contains(winner));
                lemma_holder_has_score(active, scores, top, x);
            }
            if losers@.contains(x) {
                let m = choose|m: int| 0 <= m < losers@.len() && losers@[m] == x;
                assert(worst[worst.len() - 1 - m] == x);
                lemma_holder_has_score(active, scores, bottom, x);
            }
        },
        RoundOutcome::Clear { winner, loser, .. } => {
            if x == winner {
                assert(best.contains(winner));
                lemma_holder_has_score(active, scores, top, x);
            }
            if x == loser {
                assert(worst.contains(loser));
                lemma_holder_has_score(active, scores, bottom, x);
            }
        },
    }
}

/// The alive indices are in range, name players still in the game, and come
/// in increasing order.
proof fn lemma_alive_indices_props(players: Seq<Player>)
    requires
        players.len() <= usize::MAX,
    ensures
        forall|k: int|
            0 <= k < alive_indices(players).len() ==> #[trigger] alive_indices(players)[k]
                < players.len() && alive(players[alive_indices(players)[k] as int]),
        forall|k: int, j: int|
            0 <= k < j < alive_indices(players).len() ==> #[trigger] alive_indices(players)[k]
                < #[trigger] alive_indices(players)[j],
    decreases players.len(),
{
    if players.len() > 0 {
        let front = players.drop_last();
        lemma_alive_indices_props(front);
        let rest = alive_indices(front);
        let r = alive_indices(players);
        assert forall|k: int| 0 <= k < r.len() implies #[trigger] r[k] < players.len() && alive(
            players[r[k] as int],
        ) by {
            if k < rest.len() {
                assert(r[k] == rest[k]);
                assert(front[rest[k] as int] == players[rest[k] as int]);
            }
        }
        assert forall|k: int, j: int| 0 <= k < j < r.len() implies #[trigger] r[k] < #[trigger] r[j] by {
            assert(r[k] == rest[k]);
            if j < rest.len() {
                assert(r[j] == rest[j]);
            }
        }
    }
}

/// The alive indices never repeat.
proof fn lemma_alive_indices_distinct(players: Seq<Player>)
    requires
        players.len() <= usize::MAX,
    ensures
        alive_indices(players).no_duplicates(),
{
    lemma_alive_indices_props(players);
    let r = alive_indices(players);
    assert forall|k: int, j: int| 0 <= k < r.len() && 0 <= j < r.len() && k != j implies r[k]
        != r[j] by {
        if k < j {
            assert(r[k] < r[j]);
        } else {
            assert(r[j] < r[k]);
        }
    }
}

/// The fallen among distinct losers are distinct, and they are exactly the
/// losers left with no vitality.
proof fn lemma_fallen_props(losers: Seq<usize>, after: Seq<Player>)
    requires
        losers.no_duplicates(),
        forall|m: int| 0 <= m < losers.len() ==> losers[m] < after.len(),
    ensures
        fallen(losers, after).no_duplicates(),
        forall|x: usize|
            #![trigger fallen(losers, after).contains(x)]
            #![trigger losers.contains(x)]
            fallen(losers, after).contains(x) <==> (losers.contains(x) && !alive(after[x as int])),
    decreases losers.len(),
{
    if losers.len() > 0 {
        let front = losers.drop_last();
        let last = losers.last();
        assert forall|m: int| 0 <= m < front.len() implies front[m] < after.len() by {
            assert(front[m] == losers[m]);
        }
        assert(front.no_duplicates()) by {
            assert forall|a: int, b: int| 0 <= a < front.len() && 0 <= b < front.len() && a != b implies front[a]
                != front[b] by {
                assert(front[a] == losers[a] && front[b] == losers[b]);
            }
        }
        lemma_fallen_props(front, after);
        let rest = fallen(front, after);
        assert(!front.contains(last)) by {
            if front.contains(last) {
                let m = choose|m: int| 0 <= m < front.len() && front[m] == last;
                assert(losers[m] == losers[losers.len() - 1]);
            }
        }
        assert(!rest.contains(last));
        assert forall|x: usize|
            #![trigger fallen(losers, after).contains(x)]
            #![trigger losers.contains(x)]
            fallen(losers, after).contains(x) <==> (losers.contains(x) && !alive(after[x as int])) by {
            if losers.contains(x) && x != last {
                let m = choose|m: int| 0 <= m < losers.len() && losers[m] == x;
                assert(front[m] == x);
            }
            if front.contains(x) {
                let m = choose|m: int| 0 <= m < front.len() && front[m] == x;
                assert(losers[m] == x);
            }
            if x == last {
                assert(losers[losers.len() - 1] == x);
            }
            if fallen(losers, after).contains(x) && !alive(after[last as int]) && x != last {
                let m = choose|m: int| 0 <= m < fallen(losers, after).len() && fallen(losers, after)[m] == x;
                assert(rest[m] == x);
            }
            if rest.contains(x) && !alive(after[last as int]) {
                let m = choose|m: int| 0 <= m < rest.len() && rest[m] == x;
                assert(fallen(losers, after)[m] == x);
            }
            if x == last && !alive(after[last as int]) {
                assert(fallen(losers, after)[rest.len() as int] == x);
            }
        }
    }
}

/// When nobody who was in the game leaves it, at least as many players are
/// still in it.
proof fn lemma_alive_count_kept(before: Seq<Player>, after: Seq<Player>)
    requires
        before.len() == after.len(),
        forall|i: int| 0 <= i < before.len() && alive(before[i]) ==> alive(after[i]),
    ensures
        alive_indices(after).len() >= alive_indices(before).len(),
    decreases before.len(),
{
    if before.len() > 0 {
        let b = before.drop_last();
        let a = after.drop_last();
        assert forall|i: int| 0 <= i < b.len() && alive(b[i]) implies alive(a[i]) by {
            assert(b[i] == before[i] && a[i] == after[i]);
        }
        lemma_alive_count_kept(b, a);
    }
}

/// The players reported out of the game by a round are the players newly
/// out of it, each once: those in the game before the round and left with
/// no vitality after it. When at least two players were in the game and
/// nobody was eliminated, at least two still are, so the game goes on
/// exactly when nobody was eliminated.
pub proof fn law_round_eliminations(
    before: Seq<Player>,
    active: Seq<usize>,
    scores: Seq<i32>,
    outcome: RoundOutcome,
    choice: u8,
)
    requires
        before.len() <= usize::MAX,
        active == alive_indices(before),
        scores_rankable(active, scores),
        outcome_for(outcome, active, scores),
        outcome_applicable(before, outcome, choice),
    ensures
        ({
            let after = settled(before, outcome, choice);
            let eliminated = eliminated_by(outcome, after);
            &&& eliminated.no_duplicates()
            &&& forall|i: int|
                0 <= i < before.len() ==> (#[trigger] eliminated.contains(i as usize) <==> (alive(
                    before[i],
                ) && !alive(after[i])))
            &&& alive_indices(before).len() >= 2 && eliminated.len() == 0 ==> alive_indices(
                after,
            ).len() >= 2
        }),
{
    let after = settled(before, outcome, choice);
    let eliminated = eliminated_by(outcome, after);
    let top = top_score(scores);
    let bottom = bottom_score(scores);
    let worst = holders(active, scores, bottom);
    lemma_alive_indices_props(before);
    lemma_alive_indices_distinct(before);
    lemma_extremes_held(active, scores);
    law_damage_is_positive_gap(outcome, active, scores);
    assert forall|x: usize| worst.contains(x) implies x < before.len() && alive(before[x as int]) by {
        lemma_holder_has_score(active, scores, bottom, x);
    }
    assert forall|i: int| 0 <= i < before.len() implies #[trigger] eliminated.contains(i as usize)
        <==> (alive(before[i]) && !alive(after[i])) by {
        law_only_losers_are_struck(before, active, scores, outcome, choice, i);
        match outcome {
            RoundOutcome::Draw => {
                assert(after[i] == before[i]);
            },
            RoundOutcome::SharedLead { loser, .. } => {
                assert(worst.contains(loser));
                assert(alive(before[loser as int]));
                if i != loser as int {
                    assert(after[i] == before[i]);
                    assert(!eliminated.contains(i as usize)) by {
                        if eliminated.contains(i as usize) {
                            assert(eliminated.len() == 1);
                            assert(eliminated[0] == loser);
                        }
                    }
                } else {
                    if !alive(after[i]) {
                        assert(eliminated[0] == i as usize);
                    } else {
                        assert(eliminated.len() == 0);
                    }
                }
            },
            RoundOutcome::Clear { loser, .. } => {
                assert(worst.contains(loser));
                assert(alive(before[loser as int]));
                if i != loser as int {
                    assert(after[i] == before[i]);
                    assert(!eliminated.contains(i as usize)) by {
                        if eliminated.contains(i as usize) {
                            assert(eliminated.len() == 1);
                            assert(eliminated[0] == loser);
                        }
                    }
                } else {
                    if !alive(after[i]) {
                        assert(eliminated[0] == i as usize);
                    } else {
                        assert(eliminated.len() == 0);
                    }
                }
            },
            RoundOutcome::SharedLast { losers, .. } => {
                lemma_fallen_props(losers@, after);
                if losers@.contains(i as usize) {
                    let m = choose|m: int| 0 <= m < losers@.len() && losers@[m] == i as usize;
                    assert(worst[worst.len() - 1 - m] == i as usize);
                    assert(worst.contains(i as usize));
                    assert(alive(before[i]));
                } else {
                    assert(after[i] == before[i]);
                }
            },
        }
    }
    match outcome {
        RoundOutcome::SharedLast { losers, .. } => {
            lemma_fallen_props(losers@, after);
        },
        _ => {},
    }
    if alive_indices(before).len() >= 2 && eliminated.len() == 0 {
        assert forall|i: int| 0 <= i < before.len() && alive(before[i]) implies alive(after[i]) by {
            if !alive(after[i]) {
                assert(eliminated.contains(i as usize));
            }
        }
        lemma_alive_count_kept(before, after);
    }
}

/// Nobody gains from a round. A player changed by it held the worst score
/// and lost exactly the gap between the best and the worst score (then took
/// the poison); a player with the best score is left as it was; and when
/// every score is equal (a perfect tie, or a single player in the game)
/// nobody changes. The player is taken at or above the poison floors.
pub proof fn law_round_never_helps(
    before: Seq<Player>,
    active: Seq<usize>,
    scores: Seq<i32>,
    outcome: RoundOutcome,
    choice: u8,
    i: int,
)
    requires
        before.len() <= usize::MAX,
        active == alive_indices(before),
        scores_rankable(active, scores),
        outcome_for(outcome, active, scores),
        outcome_applicable(before, outcome, choice),
        0 <= i < before.len(),
        before[i].speed >= 5,
        before[i].strength >= 0,
    ensures
        ({
            let after = settled(before, outcome, choice);
            let top = top_score(scores);
            let bottom = bottom_score(scores);
            &&& after[i].vitality <= before[i].vitality
            &&& after[i].speed <= before[i].speed
            &&& after[i].strength <= before[i].strength
            &&& after[i] != before[i] ==> (exists|k: int|
                0 <= k < active.len() && active[k] == i && #[trigger] scores[k] == bottom)
                && after[i].vitality == before[i].vitality - (top - bottom)
            &&& (exists|k: int| 0 <= k < active.len() && active[k] == i && #[trigger] scores[k] == top)
                ==> after[i] == before[i]
            &&& top == bottom ==> after[i] == before[i]
        }),
{
    let after = settled(before, outcome, choice);
    let top = top_score(scores);
    let bottom = bottom_score(scores);
    let worst = holders(active, scores, bottom);
    lemma_alive_indices_distinct(before);
    law_only_losers_are_struck(before, active, scores, outcome, choice, i);
    law_damage_is_positive_gap(outcome, active, scores);
    lemma_extremes_held(active, scores);
    let wounded = Player { vitality: (before[i].vitality - (top - bottom)) as i32, ..before[i] };
    law_poison_never_helps(wounded, choice);
    law_poison_floors(wounded, choice);
    let is_loser = match outcome {
        RoundOutcome::Draw => false,
        RoundOutcome::SharedLead { loser, .. } => i == loser,
        RoundOutcome::Clear { loser, .. } => i == loser,
        RoundOutcome::SharedLast { losers, .. } => losers@.contains(i as usize),
    };
    if is_loser {
        assert(worst.contains(i as usize)) by {
            match outcome {
                RoundOutcome::SharedLast { losers, .. } => {
                    let m = choose|m: int| 0 <= m < losers@.len() && losers@[m] == i as usize;
                    assert(worst[worst.len() - 1 - m] == i as usize);
                },
                _ => {},
            }
        }
        lemma_holder_has_score(active, scores, bottom, i as usize);
        let kb = choose|k: int| 0 <= k < active.len() && active[k] == i as usize && scores[k] == bottom;
        assert(after[i] == struck(before[i], top - bottom, choice));
        assert(exists|k: int| 0 <= k < active.len() && active[k] == i && #[trigger] scores[k] == bottom) by {
            assert(scores[kb] == bottom);
        }
        if exists|k: int| 0 <= k < active.len() && active[k] == i && #[trigger] scores[k] == top {
            let kt = choose|k: int| 0 <= k < active.len() && active[k] == i && #[trigger] scores[k] == top;
            assert(kt == kb);
        }
    } else {
        assert(after[i] == before[i]);
    }
}

/// The best and the worst score are scores of the round.
proof fn lemma_extremes_attained(scores: Seq<i32>)
    requires
        scores.len() >= 1,
    ensures
        exists|k: int| 0 <= k < scores.len() && scores[k] == top_score(scores),
        exists|k: int| 0 <= k < scores.len() && scores[k] == bottom_score(scores),
    decreases scores.len(),
{
    if scores.len() > 1 {
        let front = scores.drop_last();
        lemma_extremes_attained(front);
        let kt = choose|k: int| 0 <= k < front.len() && front[k] == top_score(front);
        let kb = choose|k: int| 0 <= k < front.len() && front[k] == bottom_score(front);
        assert(scores[kt] == front[kt]);
        assert(scores[kb] == front[kb]);
        assert(scores[scores.len() - 1] == scores.last());
    } else {
        assert(scores[0] == top_score(scores));
    }
}

/// The best score is a score of the round that no score exceeds; the worst
/// is a score of the round that no score is below.
pub proof fn law_best_and_worst_scores(scores: Seq<i32>)
    requires
        scores.len() >= 1,
    ensures
        forall|k: int| 0 <= k < scores.len() ==> bottom_score(scores) <= #[trigger] scores[k] <= top_score(scores),
        exists|k: int| 0 <= k < scores.len() && scores[k] == top_score(scores),
        exists|k: int| 0 <= k < scores.len() && scores[k] == bottom_score(scores),
{
    assert forall|k: int| 0 <= k < scores.len() implies bottom_score(scores) <= #[trigger] scores[k]
        <= top_score(scores) by {
        lemma_extremes_bound(scores, k);
    }
    lemma_extremes_attained(scores);
}

/// Any round can be resolved as long as there is one score per active
/// player, at least one, none equal to `i32::MIN`, and no two scores further
/// apart than `i32::MAX`: those are exactly the rounds whose scores can be
/// ranked.
pub proof fn law_rankable_rounds(active: Seq<usize>, scores: Seq<i32>)
    ensures
        scores_rankable(active, scores) <==> {
            &&& scores.len() >= 1
            &&& active.len() == scores.len()
            &&& forall|k: int| 0 <= k < scores.len() ==> #[trigger] scores[k] != i32::MIN
            &&& forall|j: int, k: int|
                0 <= j < scores.len() && 0 <= k < scores.len() ==> #[trigger] scores[j] - #[trigger] scores[k]
                    <= i32::MAX
        },
{
    if scores.len() >= 1 {
        law_best_and_worst_scores(scores);
        let kt = choose|k: int| 0 <= k < scores.len() && scores[k] == top_score(scores);
        let kb = choose|k: int| 0 <= k < scores.len() && scores[k] == bottom_score(scores);
        assert(scores[kt] - scores[kb] == top_score(scores) - bottom_score(scores));
    }
}

/// No pair holds a score that nobody scored.
proof fn lemma_holders_none(active: Seq<usize>, scores: Seq<i32>, score: int)
    requires
        forall|k: int| 0 <= k < scores.len() ==> scores[k] != score,
    ensures
        holders(active, scores, score) == Seq::<usize>::empty(),
    decreases scores.len(),
{
    if scores.len() > 0 && active.len() > 0 {
        let front = scores.drop_last();
        assert forall|k: int| 0 <= k < front.len() implies front[k] != score by {
            assert(front[k] == scores[k]);
        }
        lemma_holders_none(active.drop_last(), front, score);
        assert(scores.last() == scores[scores.len() - 1]);
    }
}

/// A score held at one position only has that position's player as its
/// sole holder.
proof fn lemma_holders_single(active: Seq<usize>, scores: Seq<i32>, score: int, i: int)
    requires
        active.len() == scores.len(),
        0 <= i < scores.len(),
        scores[i] == score,
        forall|k: int| 0 <= k < scores.len() && k != i ==> scores[k] != score,
    ensures
        holders(active, scores, score) == seq![active[i]],
    decreases scores.len(),
{
    let a = active.drop_last();
    let front = scores.drop_last();
    if i == scores.len() - 1 {
        assert forall|k: int| 0 <= k < front.len() implies front[k] != score by {
            assert(front[k] == scores[k]);
        }
        lemma_holders_none(a, front, score);
        assert(holders(active, scores, score) =~= seq![active[i]]);
    } else {
        assert forall|k: int| 0 <= k < front.len() && k != i implies front[k] != score by {
            assert(front[k] == scores[k]);
        }
        lemma_holders_single(a, front, score, i);
        assert(scores.last() == scores[scores.len() - 1]);
        assert(a[i] == active[i]);
    }
}

/// With one best and one worst score, the round is a clear win: the best
/// scorer wins, the worst scorer loses, and the damage is the gap between
/// their scores.
pub proof fn law_clear_round(outcome: RoundOutcome, active: Seq<usize>, scores: Seq<i32>, best: int, worst: int)
    requires
        scores_rankable(active, scores),
        outcome_for(outcome, active, scores),
        0 <= best < scores.len(),
        0 <= worst < scores.len(),
        forall|k: int| 0 <= k < scores.len() && k != best ==> scores[k] < scores[best],
        forall|k: int| 0 <= k < scores.len() && k != worst ==> scores[k] > scores[worst],
        best != worst,
    ensures
        outcome == (RoundOutcome::Clear {
            winner: active[best],
            loser: active[worst],
            damage: (scores[best] - scores[worst]) as i32,
        }),
{
    law_best_and_worst_scores(scores);
    let kt = choose|k: int| 0 <= k < scores.len() && scores[k] == top_score(scores);
    let kb = choose|k: int| 0 <= k < scores.len() && scores[k] == bottom_score(scores);
    assert(kt == best) by {
        if kt != best {
            assert(scores[best] <= top_score(scores));
        }
    }
    assert(kb == worst) by {
        if kb != worst {
            assert(scores[worst] >= bottom_score(scores));
        }
    }
    lemma_holders_single(active, scores, top_score(scores), best);
    lemma_holders_single(active, scores, bottom_score(scores), worst);
    assert(scores[worst] < scores[best]);
}

/// When every player scored the same, the round is a draw.
pub proof fn law_equal_scores_draw(outcome: RoundOutcome, active: Seq<usize>, scores: Seq<i32>)
    requires
        scores_rankable(active, scores),
        outcome_for(outcome, active, scores),
        forall|j: int, k: int| 0 <= j < scores.len() && 0 <= k < scores.len() ==> scores[j] == scores[k],
    ensures
        outcome == RoundOutcome::Draw,
{
    law_best_and_worst_scores(scores);
    let kt = choose|k: int| 0 <= k < scores.len() && scores[k] == top_score(scores);
    let kb = choose|k: int| 0 <= k < scores.len() && scores[k] == bottom_score(scores);
    assert(scores[kt] == scores[kb]);
}

/// A player with this score appears among its holders.
proof fn lemma_score_has_holder(active: Seq<usize>, scores: Seq<i32>, score: int, k: int)
    requires
        active.len() == scores.len(),
        0 <= k < scores.len(),
        scores[k] == score,
    ensures
        holders(active, scores, score).contains(active[k]),
    decreases scores.len(),
{
    let r = holders(active, scores, score);
    if k == scores.len() - 1 {
        assert(r[r.len() - 1] == active[k]);
    } else {
        let a = active.drop_last();
        let front = scores.drop_last();
        assert(front[k] == scores[k] && a[k] == active[k]);
        lemma_score_has_holder(a, front, score, k);
        let rest = holders(a, front, score);
        let m = choose|m: int| 0 <= m < rest.len() && rest[m] == active[k];
        assert(r[m] == active[k]);
    }
}

/// With the active players in increasing order, the holders of a score come
/// in increasing order too.
proof fn lemma_holders_increasing(active: Seq<usize>, scores: Seq<i32>, score: int)
    requires
        active.len() == scores.len(),
        forall|j: int, k: int| 0 <= j < k < active.len() ==> active[j] < active[k],
    ensures
        forall|j: int, k: int|
            0 <= j < k < holders(active, scores, score).len() ==> holders(active, scores, score)[j]
                < holders(active, scores, score)[k],
    decreases scores.len(),
{
    if scores.len() > 0 {
        let a = active.drop_last();
        let front = scores.drop_last();
        lemma_holders_increasing(a, front, score);
        let rest = holders(a, front, score);
        assert forall|m: int| 0 <= m < rest.len() implies rest[m] < active.last() by {
            lemma_holder_has_score(a, front, score, rest[m]);
            let k = choose|k: int| 0 <= k < a.len() && a[k] == rest[m] && front[k] == score;
            assert(active[k] == a[k]);
            assert(active.last() == active[active.len() - 1]);
        }
    }
}

/// The holders of a score are exactly the active players who scored it,
/// in the order of the active players: the winners of a shared lead are the
/// best scorers from first to last, the losers of a shared last place the
/// worst scorers from last to first.
pub proof fn law_holders(active: Seq<usize>, scores: Seq<i32>, score: int)
    requires
        active.len() == scores.len(),
        forall|j: int, k: int| 0 <= j < k < active.len() ==> active[j] < active[k],
    ensures
        forall|x: usize|
            holders(active, scores, score).contains(x) <==> exists|k: int|
                0 <= k < active.len() && active[k] == x && #[trigger] scores[k] == score,
        forall|j: int, k: int|
            0 <= j < k < holders(active, scores, score).len() ==> holders(active, scores, score)[j]
                < holders(active, scores, score)[k],
{
    assert forall|x: usize|
        holders(active, scores, score).contains(x) <==> exists|k: int|
            0 <= k < active.len() && active[k] == x && #[trigger] scores[k] == score by {
        if holders(active, scores, score).contains(x) {
            lemma_holder_has_score(active, scores, score, x);
        }
        if exists|k: int| 0 <= k < active.len() && active[k] == x && #[trigger] scores[k] == score {
            let k = choose|k: int| 0 <= k < active.len() && active[k] == x && #[trigger] scores[k] == score;
            lemma_score_has_holder(active, scores, score, k);
        }
    }
    lemma_holders_increasing(active, scores, score);
}

/// The players of the round are exactly those still in the game, each
/// listed once, in increasing order of position.
pub proof fn law_active_players(players: Seq<Player>)
    requires
        players.len() <= usize::MAX,
    ensures
        forall|i: int|
            0 <= i < players.len() ==> (#[trigger] alive_indices(players).contains(i as usize)
                <==> players[i].vitality > 0),
        forall|k: int| 0 <= k < alive_indices(players).len() ==> #[trigger] alive_indices(players)[k] < players.len(),
        forall|j: int, k: int|
            0 <= j < k < alive_indices(players).len() ==> alive_indices(players)[j] < alive_indices(
                players,
            )[k],
{
    lemma_alive_indices_props(players);
    assert forall|i: int| 0 <= i < players.len() implies (#[trigger] alive_indices(players).contains(
        i as usize,
    ) <==> players[i].vitality > 0) by {
        if players[i].vitality > 0 {
            lemma_alive_listed(players, i);
        }
        if alive_indices(players).contains(i as usize) {
            let k = choose|k: int| 0 <= k < alive_indices(players).len() && alive_indices(players)[k] == i as usize;
            assert(alive(players[alive_indices(players)[k] as int]));
        }
    }
}

/// Choices are unanimous exactly when any two of them are the same.
pub proof fn law_unanimous(choices: Seq<u8>)
    ensures
        unanimous(choices) <==> forall|i: int, j: int|
            0 <= i < choices.len() && 0 <= j < choices.len() ==> #[trigger] choices[i] == #[trigger] choices[j],
{
    if unanimous(choices) {
        assert forall|i: int, j: int| 0 <= i < choices.len() && 0 <= j < choices.len() implies #[trigger] choices[i]
            == #[trigger] choices[j] by {
            assert(choices[i] == choices[0] && choices[j] == choices[0]);
        }
    }
    if forall|i: int, j: int| 0 <= i < choices.len() && 0 <= j < choices.len() ==> #[trigger] choices[i] == #[trigger] choices[j] {
        assert forall|i: int| 0 <= i < choices.len() implies #[trigger] choices[i] == choices[0] by {
            assert(choices[i] == choices[0]);
        }
    }
}

/// How ties are broken, with the active players listed in increasing
/// order. A shared lead is won by every best scorer, listed in increasing
/// order, and lost by the worst scorer who comes last; a shared last place
/// is lost by every worst scorer, listed from the last to the first; in a
/// clear round the winner holds the best score and the loser the worst.
pub proof fn law_tie_breaks(outcome: RoundOutcome, active: Seq<usize>, scores: Seq<i32>)
    requires
        scores_rankable(active, scores),
        outcome_for(outcome, active, scores),
        forall|j: int, k: int| 0 <= j < k < active.len() ==> active[j] < active[k],
    ensures
        ({
            let top = top_score(scores);
            let bottom = bottom_score(scores);
            match outcome {
                RoundOutcome::Draw => true,
                RoundOutcome::SharedLead { winners, loser, .. } => {
                    &&& forall|x: usize|
                        winners@.contains(x) <==> exists|k: int|
                            0 <= k < active.len() && active[k] == x && #[trigger] scores[k] == top
                    &&& forall|j: int, k: int| 0 <= j < k < winners@.len() ==> winners@[j] < winners@[k]
                    &&& exists|k: int| 0 <= k < active.len() && active[k] == loser && scores[k] == bottom
                    &&& forall|k: int| 0 <= k < active.len() && #[trigger] scores[k] == bottom ==> active[k]
                        <= loser
                },
                RoundOutcome::SharedLast { winner, losers, .. } => {
                    &&& exists|k: int| 0 <= k < active.len() && active[k] == winner && scores[k] == top
                    &&& forall|x: usize|
                        losers@.contains(x) <==> exists|k: int|
                            0 <= k < active.len() && active[k] == x && #[trigger] scores[k] == bottom
                    &&& forall|j: int, k: int| 0 <= j < k < losers@.len() ==> losers@[j] > losers@[k]
                },
                RoundOutcome::Clear { winner, loser, .. } => {
                    &&& exists|k: int| 0 <= k < active.len() && active[k] == winner && scores[k] == top
                    &&& exists|k: int| 0 <= k < active.len() && active[k] == loser && scores[k] == bottom
                },
            }
        }),
{
    let top = top_score(scores);
    let bottom = bottom_score(scores);
    let best = holders(active, scores, top);
    let worst = holders(active, scores, bottom);
    law_holders(active, scores, top);
    law_holders(active, scores, bottom);
    lemma_extremes_held(active, scores);
    match outcome {
        RoundOutcome::Draw => {},
        RoundOutcome::SharedLead { winners, loser, .. } => {
            assert(worst.contains(loser));
            assert forall|k: int| 0 <= k < active.len() && #[trigger] scores[k] == bottom implies active[k]
                <= loser by {
                assert(worst.contains(active[k]));
                let m = choose|m: int| 0 <= m < worst.len() && worst[m] == active[k];
                if m < worst.len() - 1 {
                    assert(worst[m] < worst[worst.len() - 1]);
                }
            }
        },
        RoundOutcome::SharedLast { winner, losers, .. } => {
            assert(best.contains(winner));
            assert forall|x: usize|
                losers@.contains(x) <==> exists|k: int|
                    0 <= k < active.len() && active[k] == x && #[trigger] scores[k] == bottom by {
                assert(worst.contains(x) <==> exists|k: int|
                    0 <= k < active.len() && active[k] == x && #[trigger] scores[k] == bottom);
                if losers@.contains(x) {
                    let m = choose|m: int| 0 <= m < losers@.len() && losers@[m] == x;
                    assert(worst[worst.len() - 1 - m] == x);
                }
                if worst.contains(x) {
                    let m = choose|m: int| 0 <= m < worst.len() && worst[m] == x;
                    assert(losers@[worst.len() - 1 - m] == x);
                }
            }
            assert forall|j: int, k: int| 0 <= j < k < losers@.len() implies losers@[j] > losers@[k] by {
                assert(losers@[j] == worst[worst.len() - 1 - j]);
                assert(losers@[k] == worst[worst.len() - 1 - k]);
            }
        },
        RoundOutcome::Clear { winner, loser, .. } => {
            assert(best.contains(winner));
            assert(worst.contains(loser));
        },
    }
}

} // verus!
