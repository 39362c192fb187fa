//! Aggregating many independent simulation runs.
//!
//! A batch of runs counts how often the target team finishes at or above the
//! target rank and sums its win counts over those successful runs alone.
//! Batches are independent, and the aggregate is a commutative, associative
//! sum over runs, so batch partials can be combined in any order — callers
//! that spread batches over concurrent workers combine the pairs exactly as
//! the sequential driver here does.

use vstd::arithmetic::div_mod::lemma_div_is_ordered;
use vstd::arithmetic::div_mod::lemma_div_multiples_vanish;
use vstd::arithmetic::div_mod::lemma_div_pos_is_pos;
use vstd::arithmetic::div_mod::lemma_fundamental_div_mod;
use vstd::prelude::*;

use crate::sim::achievable_outcome;
use crate::sim::run_simulation;
use crate::sim::run_simulation_seeded;
use crate::sim::sim_safe;
use crate::sim::spec_lcg_state_after;
use crate::sim::spec_run_seeded;
use crate::sim::valid_fixtures;
use crate::sampler::SeededRng;
use crate::table::contains_team;
use crate::table::spec_get;
use crate::table::str_eq;
use crate::table::team_index;
use crate::table::LeagueTable;
use crate::table::Match;

verus! {

/// Why a simulation request must be rejected before any run starts.
#[derive(Clone, Copy, Debug, PartialEq, Eq, Structural)]
pub enum SimError {
    /// The target team is absent from the standings snapshot.
    ConfigurationError,
    /// A fixture references a team absent from the table or pits a team
    /// against itself, or the table is so large or its tallies so close to
    /// their integer limits that a full season replay could not be counted:
    /// the input data is inconsistent, not a recoverable runtime state.
    InvariantViolation,
}

/// Check a simulation request against its snapshot: the target team must be
/// in the table, every fixture must pair two distinct teams of the table,
/// and every team must have enough integer headroom for a full replay of
/// the fixture list. An Ok result establishes everything the simulation
/// functions require of their inputs: exactly the inputs that pass here may
/// be simulated.
pub fn validate_inputs(target_team: &str, table: &LeagueTable, fixtures: &Vec<Match>) -> (r:
    Result<(), SimError>)
    requires
        table.wf(),
    ensures
        r is Ok <==> contains_team(table@, target_team@) && valid_fixtures(table@, fixtures@)
            && sim_safe(table@, fixtures@) && table@.len() + 1 <= i32::MAX,
        r == Err::<(), SimError>(SimError::ConfigurationError) <==> !contains_team(
            table@,
            target_team@,
        ),
        r == Err::<(), SimError>(SimError::InvariantViolation) <==> contains_team(
            table@,
            target_team@,
        ) && !(valid_fixtures(table@, fixtures@) && sim_safe(table@, fixtures@) && table@.len()
            + 1 <= i32::MAX),
{
    if table.get_team(target_team).is_none() {
        return Err(SimError::ConfigurationError);
    }
    let mut k: usize = 0;
    while k < fixtures.len()
        invariant
            k <= fixtures@.len(),
            table.wf(),
            contains_team(table@, target_team@),
            forall|j: int|
                0 <= j < k ==> contains_team(table@, (#[trigger] fixtures@[j]).home@)
                    && contains_team(table@, fixtures@[j].away@) && fixtures@[j].home@
                    != fixtures@[j].away@,
        decreases fixtures@.len() - k,
    {
        let m = &fixtures[k];
        if table.get_team(m.home.as_str()).is_none() || table.get_team(m.away.as_str()).is_none()
            || str_eq(m.home.as_str(), m.away.as_str()) {
            return Err(SimError::InvariantViolation);
        }
        k = k + 1;
    }
    if table.len() > 0x7fff_fffeusize {
        return Err(SimError::InvariantViolation);
    }
    let games: usize = fixtures.len();
    if games > 613566756 {
        proof {
            // With more than u32::MAX / 7 fixtures, 7 * games alone exceeds
            // the whole i32 span above i32::MIN, so any team — the target,
            // say — breaks the goal-differential headroom.
            let ti = team_index(table@, target_team@);
            assert(0 <= ti < table@.len() && table@[ti].name@ == target_team@);
            assert(table@[ti].goal_diff + 7 * fixtures@.len() > i32::MAX);
        }
        return Err(SimError::InvariantViolation);
    }
    let mut i: usize = 0;
    while i < table.len()
        invariant
            i <= table@.len(),
            games == fixtures@.len(),
            games <= 613566756,
            table.wf(),
            contains_team(table@, target_team@),
            valid_fixtures(table@, fixtures@),
            table@.len() + 1 <= i32::MAX,
            forall|j: int|
                0 <= j < i ==> (#[trigger] table@[j]).pts + 3 * fixtures@.len() <= u32::MAX
                    && table@[j].wins + fixtures@.len() <= u32::MAX && i32::MIN <= table@[j].goal_diff
                    - 7 * fixtures@.len() && table@[j].goal_diff + 7 * fixtures@.len() <= i32::MAX,
        decreases table@.len() - i,
    {
        let t = &table.teams[i];
        let g = games as u64;
        if (t.pts as u64) + 3 * g > (u32::MAX as u64) || (t.wins as u64) + g > (u32::MAX as u64)
            || (t.goal_diff as i64) + 7 * (games as i64) > (i32::MAX as i64)
            || (t.goal_diff as i64) - 7 * (games as i64) < (i32::MIN as i64) {
            return Err(SimError::InvariantViolation);
        }
        i = i + 1;
    }
    Ok(())
}

/// The success percentage of `successes` out of `runs`, in whole percent,
/// rounded down.
pub open spec fn spec_percentage(successes: int, runs: int) -> int {
    100 * successes / runs
}

/// The average win count over successful runs, rounded down; 0 when no run
/// succeeded, never a division fault.
pub open spec fn spec_average_wins(wins: int, successes: int) -> int {
    if successes > 0 {
        wins / successes
    } else {
        0
    }
}

/// Aggregated statistics stay in range: the success percentage of any batch
/// lies between 0 and 100, the average win count is never negative, and
/// with no successful run it is exactly 0.
pub proof fn lemma_results_in_range(successes: int, runs: int, wins: int)
    requires
        0 <= successes <= runs,
        1 <= runs,
        0 <= wins,
    ensures
        0 <= spec_percentage(successes, runs) <= 100,
        spec_average_wins(wins, successes) >= 0,
        successes == 0 ==> spec_average_wins(wins, successes) == 0,
{
    lemma_div_pos_is_pos(100 * successes, runs);
    lemma_div_is_ordered(100 * successes, 100 * runs, runs);
    lemma_div_multiples_vanish(100, runs);
    assert(100 * runs == runs * 100);
    if successes > 0 {
        lemma_div_pos_is_pos(wins, successes);
    }
}

/// The aggregate of the first `n` run outcomes of `outs`, each a
/// (rank, wins) pair: how many ended at or above `target_rank`, and the sum
/// of the win counts over exactly those successful runs — the win counts of
/// unsuccessful runs contribute nothing.
pub open spec fn spec_tally(outs: Seq<(int, int)>, target_rank: int, n: int) -> (int, int)
    decreases n,
{
    if n <= 0 {
        (0, 0)
    } else {
        let prev = spec_tally(outs, target_rank, n - 1);
        if outs[n - 1].0 <= target_rank {
            (prev.0 + 1, prev.1 + outs[n - 1].1)
        } else {
            prev
        }
    }
}

/// The tally of the first `n` outcomes reads only those outcomes.
pub proof fn lemma_tally_prefix(a: Seq<(int, int)>, b: Seq<(int, int)>, target_rank: int, n: int)
    requires
        forall|k: int| 0 <= k < n ==> a[k] == b[k],
    ensures
        spec_tally(a, target_rank, n) == spec_tally(b, target_rank, n),
    decreases n,
{
    if n > 0 {
        lemma_tally_prefix(a, b, target_rank, n - 1);
    }
}

/// The aggregate is an associative sum over runs: tallying two batches
/// joined end to end gives the sum of the two batch tallies.
pub proof fn lemma_tally_concat(a: Seq<(int, int)>, b: Seq<(int, int)>, target_rank: int)
    ensures
        spec_tally(a + b, target_rank, (a.len() + b.len()) as int).0 == spec_tally(
            a,
            target_rank,
            a.len() as int,
        ).0 + spec_tally(b, target_rank, b.len() as int).0,
        spec_tally(a + b, target_rank, (a.len() + b.len()) as int).1 == spec_tally(
            a,
            target_rank,
            a.len() as int,
        ).1 + spec_tally(b, target_rank, b.len() as int).1,
    decreases b.len(),
{
    if b.len() == 0 {
        assert(a + b =~= a);
        lemma_tally_prefix(a + b, a, target_rank, a.len() as int);
    } else {
        lemma_tally_concat(a, b.drop_last(), target_rank);
        lemma_tally_prefix(
            a + b.drop_last(),
            a + b,
            target_rank,
            a.len() + b.len() - 1,
        );
        lemma_tally_prefix(b.drop_last(), b, target_rank, b.len() - 1);
        assert((a + b)[a.len() + b.len() - 1] == b[b.len() - 1]);
    }
}

/// The aggregate is also a commutative sum over runs: two batches combined
/// in either order tally the same, so the completion order of workers never
/// changes the totals.
pub proof fn lemma_tally_commutes(a: Seq<(int, int)>, b: Seq<(int, int)>, target_rank: int)
    ensures
        spec_tally(a + b, target_rank, (a.len() + b.len()) as int) == spec_tally(
            b + a,
            target_rank,
            (a.len() + b.len()) as int,
        ),
{
    lemma_tally_concat(a, b, target_rank);
    lemma_tally_concat(b, a, target_rank);
}

/// Run `num_runs` independent simulations on the process random source and
/// accumulate the batch partial: how many runs ended with the target team
/// at or above `target_rank`, and the sum of its win counts over exactly
/// those runs.
///
/// Whatever the draws turn out to be, the pair returned is the tally of
/// `num_runs` achievable run outcomes: a target rank below every possible
/// rank records no success, and one at or past the bottom of the table
/// records nothing but successes.
pub fn run_batch(
    target_team: &str,
    target_rank: i32,
    standings: &LeagueTable,
    fixtures: &Vec<Match>,
    num_runs: u32,
) -> (r: (u32, u64))
    requires
        standings.wf(),
        contains_team(standings@, target_team@),
        valid_fixtures(standings@, fixtures@),
        sim_safe(standings@, fixtures@),
        standings@.len() + 1 <= i32::MAX,
    ensures
        r.0 <= num_runs,
        r.0 == 0 ==> r.1 == 0,
        r.1 <= r.0 * (spec_get(standings@, target_team@).wins + fixtures@.len()),
        target_rank < 1 ==> r.0 == 0 && r.1 == 0,
        target_rank >= standings@.len() ==> r.0 == num_runs,
        exists|outs: Seq<(int, int)>|
            {
                &&& #[trigger] outs.len() == num_runs
                &&& (forall|k: int|
                    0 <= k < outs.len() ==> achievable_outcome(
                        standings@,
                        fixtures@,
                        target_team@,
                        #[trigger] outs[k],
                    ))
                &&& r.0 == spec_tally(outs, target_rank as int, num_runs as int).0
                &&& r.1 == spec_tally(outs, target_rank as int, num_runs as int).1
            },
{
    let ghost wmax = spec_get(standings@, target_team@).wins + fixtures@.len() as int;
    proof {
        let ti = team_index(standings@, target_team@);
        assert(0 <= ti < standings@.len() && standings@[ti].name@ == target_team@);
        assert(wmax <= u32::MAX);
    }
    let ghost mut outs: Seq<(int, int)> = Seq::empty();
    let mut successes: u32 = 0;
    let mut win_sum: u64 = 0;
    let mut i: u32 = 0;
    while i < num_runs
        invariant
            i <= num_runs,
            successes <= i,
            successes == 0 ==> win_sum == 0,
            win_sum <= successes * wmax,
            0 <= wmax <= u32::MAX,
            outs.len() == i,
            forall|k: int|
                0 <= k < outs.len() ==> achievable_outcome(
                    standings@,
                    fixtures@,
                    target_team@,
                    #[trigger] outs[k],
                ),
            successes == spec_tally(outs, target_rank as int, i as int).0,
            win_sum == spec_tally(outs, target_rank as int, i as int).1,
            target_rank < 1 ==> successes == 0,
            target_rank >= standings@.len() ==> successes == i,
            standings.wf(),
            contains_team(standings@, target_team@),
            valid_fixtures(standings@, fixtures@),
            sim_safe(standings@, fixtures@),
            standings@.len() + 1 <= i32::MAX,
            wmax == spec_get(standings@, target_team@).wins + fixtures@.len(),
        decreases num_runs - i,
    {
        let (rank, wins) = run_simulation(target_team, standings, fixtures);
        proof {
            let old_outs = outs;
            outs = outs.push((rank as int, wins as int));
            lemma_tally_prefix(old_outs, outs, target_rank as int, i as int);
            assert(outs[i as int] == (rank as int, wins as int));
        }
        if rank <= target_rank {
            proof {
                assert(win_sum + wins <= (successes + 1) * wmax) by (nonlinear_arith)
                    requires
                        win_sum <= successes * wmax,
                        wins <= wmax,
                ;
                assert((successes + 1) * wmax <= 0xffff_ffffu32 * 0xffff_ffffu32)
                    by (nonlinear_arith)
                    requires
                        0 <= successes + 1 <= 0xffff_ffffu32,
                        0 <= wmax <= 0xffff_ffffu32,
                ;
            }
            successes = successes + 1;
            win_sum = win_sum + (wins as u64);
        }
        i = i + 1;
    }
    (successes, win_sum)
}

/// The batch partial of `n` seeded runs from `seed`: successes, win sum
/// over successes, and the generator state left behind.
pub open spec fn spec_batch_seeded(
    s: Seq<crate::table::Team>,
    ms: Seq<Match>,
    name: Seq<char>,
    target_rank: int,
    n: int,
    seed: u64,
) -> (int, int, u64)
    decreases n,
{
    if n <= 0 {
        (0, 0, seed)
    } else {
        let prev = spec_batch_seeded(s, ms, name, target_rank, n - 1, seed);
        let run = spec_run_seeded(s, ms, name, prev.2);
        let state = spec_lcg_state_after(prev.2, 2 * ms.len() as int);
        if run.0 <= target_rank {
            (prev.0 + 1, prev.1 + run.1, state)
        } else {
            (prev.0, prev.1, state)
        }
    }
}

/// Run `num_runs` seeded simulations, drawing all entropy from `rng`: the
/// batch partial is exactly the seeded aggregate of the source's starting
/// state, so a fixed seed reproduces the whole batch.
pub fn run_batch_seeded(
    target_team: &str,
    target_rank: i32,
    standings: &LeagueTable,
    fixtures: &Vec<Match>,
    num_runs: u32,
    rng: &mut SeededRng,
) -> (r: (u32, u64))
    requires
        standings.wf(),
        contains_team(standings@, target_team@),
        valid_fixtures(standings@, fixtures@),
        sim_safe(standings@, fixtures@),
        standings@.len() + 1 <= i32::MAX,
    ensures
        ({
            let b = spec_batch_seeded(
                standings@,
                fixtures@,
                target_team@,
                target_rank as int,
                num_runs as int,
                old(rng).state,
            );
            r.0 == b.0 && r.1 == b.1 && final(rng).state == b.2
        }),
        r.0 <= num_runs,
        r.0 == 0 ==> r.1 == 0,
        r.1 <= r.0 * (spec_get(standings@, target_team@).wins + fixtures@.len()),
{
    let ghost seed = rng.state;
    let ghost wmax = spec_get(standings@, target_team@).wins + fixtures@.len() as int;
    proof {
        let ti = team_index(standings@, target_team@);
        assert(0 <= ti < standings@.len() && standings@[ti].name@ == target_team@);
        assert(wmax <= u32::MAX);
    }
    let mut successes: u32 = 0;
    let mut win_sum: u64 = 0;
    let mut i: u32 = 0;
    while i < num_runs
        invariant
            i <= num_runs,
            successes <= i,
            successes == 0 ==> win_sum == 0,
            win_sum <= successes * wmax,
            0 <= wmax <= u32::MAX,
            ({
                let b = spec_batch_seeded(
                    standings@,
                    fixtures@,
                    target_team@,
                    target_rank as int,
                    i as int,
                    seed,
                );
                successes == b.0 && win_sum == b.1 && rng.state == b.2
            }),
            standings.wf(),
            contains_team(standings@, target_team@),
            valid_fixtures(standings@, fixtures@),
            sim_safe(standings@, fixtures@),
            standings@.len() + 1 <= i32::MAX,
            wmax == spec_get(standings@, target_team@).wins + fixtures@.len(),
        decreases num_runs - i,
    {
        let (rank, wins) = run_simulation_seeded(target_team, standings, fixtures, rng);
        if rank <= target_rank {
            proof {
                assert(win_sum + wins <= (successes + 1) * wmax) by (nonlinear_arith)
                    requires
                        win_sum <= successes * wmax,
                        wins <= wmax,
                ;
                assert((successes + 1) * wmax <= 0xffff_ffffu32 * 0xffff_ffffu32)
                    by (nonlinear_arith)
                    requires
                        0 <= successes + 1 <= 0xffff_ffffu32,
                        0 <= wmax <= 0xffff_ffffu32,
                ;
            }
            successes = successes + 1;
            win_sum = win_sum + (wins as u64);
        }
        i = i + 1;
    }
    (successes, win_sum)
}

/// How many runs the first `w` of `workers` workers take between them when
/// `runs` runs are split as evenly as the remainder allows.
pub open spec fn spec_assigned(runs: int, workers: int, w: int) -> int {
    let base = runs / workers;
    let rem = runs % workers;
    w * base + if w <= rem {
        w
    } else {
        rem
    }
}

/// Estimate the probability that the target team finishes at or above
/// `target_rank`: split `num_runs` independent runs into `num_workers`
/// batches, combine the batch partials once per batch, and report the
/// success percentage in whole percent together with the average win count
/// over successful runs (0 when none succeeded).
///
/// Whatever the draws turn out to be, the pair returned is the percentage
/// and conditional average of the tally of `num_runs` achievable run
/// outcomes: the percentage is 100 times the actual success count over
/// `num_runs`, and the average divides the win sum of exactly the
/// successful runs by their count. The batches here run in sequence;
/// because the tally is a commutative, associative sum over runs, a
/// concurrent driver that hands each batch to its own worker over
/// `run_batch` and combines the pairs computes the same aggregate.
pub fn calculate_results(
    target_team: &str,
    target_rank: i32,
    standings: &LeagueTable,
    fixtures: &Vec<Match>,
    num_runs: u32,
    num_workers: u32,
) -> (r: (u32, u64))
    requires
        standings.wf(),
        contains_team(standings@, target_team@),
        valid_fixtures(standings@, fixtures@),
        sim_safe(standings@, fixtures@),
        standings@.len() + 1 <= i32::MAX,
        num_runs >= 1,
        num_workers >= 1,
    ensures
        0 <= r.0 <= 100,
        target_rank < 1 ==> r.0 == 0 && r.1 == 0,
        target_rank >= standings@.len() ==> r.0 == 100,
        exists|outs: Seq<(int, int)>|
            {
                &&& #[trigger] outs.len() == num_runs
                &&& (forall|k: int|
                    0 <= k < outs.len() ==> achievable_outcome(
                        standings@,
                        fixtures@,
                        target_team@,
                        #[trigger] outs[k],
                    ))
                &&& r.0 == spec_percentage(
                    spec_tally(outs, target_rank as int, num_runs as int).0,
                    num_runs as int,
                )
                &&& r.1 == spec_average_wins(
                    spec_tally(outs, target_rank as int, num_runs as int).1,
                    spec_tally(outs, target_rank as int, num_runs as int).0,
                )
            },
{
    let base = num_runs / num_workers;
    let rem = num_runs % num_workers;
    let ghost wmax = spec_get(standings@, target_team@).wins + fixtures@.len() as int;
    proof {
        let ti = team_index(standings@, target_team@);
        assert(0 <= ti < standings@.len() && standings@[ti].name@ == target_team@);
        assert(wmax <= u32::MAX);
    }
    let ghost mut outs: Seq<(int, int)> = Seq::empty();
    let mut total_successes: u32 = 0;
    let mut total_wins: u64 = 0;
    let mut w: u32 = 0;
    while w < num_workers
        invariant
            w <= num_workers,
            base == num_runs as int / num_workers as int,
            rem == num_runs as int % num_workers as int,
            total_successes <= spec_assigned(num_runs as int, num_workers as int, w as int),
            spec_assigned(num_runs as int, num_workers as int, w as int) <= num_runs,
            total_successes == 0 ==> total_wins == 0,
            total_wins <= total_successes * wmax,
            0 <= wmax <= u32::MAX,
            outs.len() == spec_assigned(num_runs as int, num_workers as int, w as int),
            forall|k: int|
                0 <= k < outs.len() ==> achievable_outcome(
                    standings@,
                    fixtures@,
                    target_team@,
                    #[trigger] outs[k],
                ),
            total_successes == spec_tally(outs, target_rank as int, outs.len() as int).0,
            total_wins == spec_tally(outs, target_rank as int, outs.len() as int).1,
            target_rank < 1 ==> total_successes == 0,
            target_rank >= standings@.len() ==> total_successes == outs.len(),
            standings.wf(),
            contains_team(standings@, target_team@),
            valid_fixtures(standings@, fixtures@),
            sim_safe(standings@, fixtures@),
            standings@.len() + 1 <= i32::MAX,
            num_runs >= 1,
            num_workers >= 1,
            wmax == spec_get(standings@, target_team@).wins + fixtures@.len(),
        decreases num_workers - w,
    {
        proof {
            lemma_fundamental_div_mod(num_runs as int, num_workers as int);
            assert(rem >= 1 ==> base + 1 <= num_runs) by (nonlinear_arith)
                requires
                    num_runs == num_workers * (num_runs as int / num_workers as int) + rem,
                    base == num_runs as int / num_workers as int,
                    0 <= base,
                    1 <= num_workers,
            ;
        }
        let batch_runs = if w < rem {
            base + 1
        } else {
            base
        };
        let (batch_successes, batch_wins) = run_batch(
            target_team,
            target_rank,
            standings,
            fixtures,
            batch_runs,
        );
        proof {
            lemma_assigned_step(num_runs as int, num_workers as int, w as int);
            assert(total_wins + batch_wins <= (total_successes + batch_successes) * wmax)
                by (nonlinear_arith)
                requires
                    total_wins <= total_successes * wmax,
                    batch_wins <= batch_successes * wmax,
                    0 <= wmax,
            ;
            assert((total_successes + batch_successes) * wmax <= 0xffff_ffffu32
                * 0xffff_ffffu32) by (nonlinear_arith)
                requires
                    0 <= total_successes + batch_successes <= 0xffff_ffffu32,
                    0 <= wmax <= 0xffff_ffffu32,
            ;
            let batch_outs = choose|bo: Seq<(int, int)>|
                {
                    &&& #[trigger] bo.len() == batch_runs
                    &&& (forall|k: int|
                        0 <= k < bo.len() ==> achievable_outcome(
                            standings@,
                            fixtures@,
                            target_team@,
                            #[trigger] bo[k],
                        ))
                    &&& batch_successes == spec_tally(bo, target_rank as int, batch_runs as int).0
                    &&& batch_wins == spec_tally(bo, target_rank as int, batch_runs as int).1
                };
            lemma_tally_concat(outs, batch_outs, target_rank as int);
            let old_outs = outs;
            outs = outs + batch_outs;
            assert forall|k: int| 0 <= k < outs.len() implies achievable_outcome(
                standings@,
                fixtures@,
                target_team@,
                outs[k],
            ) by {
                if k < old_outs.len() {
                    assert(outs[k] == old_outs[k]);
                } else {
                    assert(outs[k] == batch_outs[k - old_outs.len()]);
                }
            }
        }
        total_successes = total_successes + batch_successes;
        total_wins = total_wins + batch_wins;
        w = w + 1;
    }
    proof {
        lemma_assigned_total(num_runs as int, num_workers as int);
        lemma_results_in_range(total_successes as int, num_runs as int, total_wins as int);
        if target_rank < 1 {
            vstd::arithmetic::div_mod::lemma_div_of0(num_runs as int);
        }
        if target_rank >= standings@.len() {
            lemma_div_multiples_vanish(100, num_runs as int);
            assert(100 * (num_runs as int) == (num_runs as int) * 100);
        }
    }
    let pct64: u64 = 100u64 * (total_successes as u64) / (num_runs as u64);
    let percentage: u32 = pct64 as u32;
    let average_wins: u64 = if total_successes > 0 {
        total_wins / (total_successes as u64)
    } else {
        0
    };
    (percentage, average_wins)
}

/// The totals the first `w` of `workers` seeded workers leave behind, each
/// taking its evenly partitioned batch from the generator state the one
/// before it left: successes, win sum, and the state after the last batch.
pub open spec fn spec_calc_seeded(
    s: Seq<crate::table::Team>,
    ms: Seq<Match>,
    name: Seq<char>,
    target_rank: int,
    runs: int,
    workers: int,
    w: int,
    seed: u64,
) -> (int, int, u64)
    decreases w,
{
    if w <= 0 {
        (0, 0, seed)
    } else {
        let prev = spec_calc_seeded(s, ms, name, target_rank, runs, workers, w - 1, seed);
        let batch_runs = runs / workers + if w - 1 < runs % workers {
            1int
        } else {
            0int
        };
        let b = spec_batch_seeded(s, ms, name, target_rank, batch_runs, prev.2);
        (prev.0 + b.0, prev.1 + b.1, b.2)
    }
}

/// Estimate the target team's chances exactly as `calculate_results` does,
/// but draw all entropy from a seeded deterministic source: the percentage
/// and conditional average returned are exactly the seeded aggregate of the
/// source's starting state, so a fixed seed reproduces the whole
/// estimation, whichever way the runs are spread over workers.
pub fn calculate_results_seeded(
    target_team: &str,
    target_rank: i32,
    standings: &LeagueTable,
    fixtures: &Vec<Match>,
    num_runs: u32,
    num_workers: u32,
    rng: &mut SeededRng,
) -> (r: (u32, u64))
    requires
        standings.wf(),
        contains_team(standings@, target_team@),
        valid_fixtures(standings@, fixtures@),
        sim_safe(standings@, fixtures@),
        standings@.len() + 1 <= i32::MAX,
        num_runs >= 1,
        num_workers >= 1,
    ensures
        ({
            let t = spec_calc_seeded(
                standings@,
                fixtures@,
                target_team@,
                target_rank as int,
                num_runs as int,
                num_workers as int,
                num_workers as int,
                old(rng).state,
            );
            &&& r.0 == spec_percentage(t.0, num_runs as int)
            &&& r.1 == spec_average_wins(t.1, t.0)
            &&& final(rng).state == t.2
        }),
        0 <= r.0 <= 100,
{
    let base = num_runs / num_workers;
    let rem = num_runs % num_workers;
    let ghost seed = rng.state;
    let ghost wmax = spec_get(standings@, target_team@).wins + fixtures@.len() as int;
    proof {
        let ti = team_index(standings@, target_team@);
        assert(0 <= ti < standings@.len() && standings@[ti].name@ == target_team@);
        assert(wmax <= u32::MAX);
    }
    let mut total_successes: u32 = 0;
    let mut total_wins: u64 = 0;
    let mut w: u32 = 0;
    while w < num_workers
        invariant
            w <= num_workers,
            base == num_runs as int / num_workers as int,
            rem == num_runs as int % num_workers as int,
            total_successes <= spec_assigned(num_runs as int, num_workers as int, w as int),
            spec_assigned(num_runs as int, num_workers as int, w as int) <= num_runs,
            total_wins <= total_successes * wmax,
            0 <= wmax <= u32::MAX,
            ({
                let t = spec_calc_seeded(
                    standings@,
                    fixtures@,
                    target_team@,
                    target_rank as int,
                    num_runs as int,
                    num_workers as int,
                    w as int,
                    seed,
                );
                &&& total_successes == t.0
                &&& total_wins == t.1
                &&& rng.state == t.2
            }),
            standings.wf(),
            contains_team(standings@, target_team@),
            valid_fixtures(standings@, fixtures@),
            sim_safe(standings@, fixtures@),
            standings@.len() + 1 <= i32::MAX,
            num_runs >= 1,
            num_workers >= 1,
            wmax == spec_get(standings@, target_team@).wins + fixtures@.len(),
        decreases num_workers - w,
    {
        proof {
            lemma_fundamental_div_mod(num_runs as int, num_workers as int);
            assert(rem >= 1 ==> base + 1 <= num_runs) by (nonlinear_arith)
                requires
                    num_runs == num_workers * (num_runs as int / num_workers as int) + rem,
                    base == num_runs as int / num_workers as int,
                    0 <= base,
                    1 <= num_workers,
            ;
        }
        let batch_runs = if w < rem {
            base + 1
        } else {
            base
        };
        let (batch_successes, batch_wins) = run_batch_seeded(
            target_team,
            target_rank,
            standings,
            fixtures,
            batch_runs,
            rng,
        );
        proof {
            lemma_assigned_step(num_runs as int, num_workers as int, w as int);
            assert(total_wins + batch_wins <= (total_successes + batch_successes) * wmax)
                by (nonlinear_arith)
                requires
                    total_wins <= total_successes * wmax,
                    batch_wins <= batch_successes * wmax,
                    0 <= wmax,
            ;
            assert((total_successes + batch_successes) * wmax <= 0xffff_ffffu32
                * 0xffff_ffffu32) by (nonlinear_arith)
                requires
                    0 <= total_successes + batch_successes <= 0xffff_ffffu32,
                    0 <= wmax <= 0xffff_ffffu32,
            ;
        }
        total_successes = total_successes + batch_successes;
        total_wins = total_wins + batch_wins;
        w = w + 1;
    }
    proof {
        lemma_assigned_total(num_runs as int, num_workers as int);
        lemma_results_in_range(total_successes as int, num_runs as int, total_wins as int);
    }
    let pct64: u64 = 100u64 * (total_successes as u64) / (num_runs as u64);
    let percentage: u32 = pct64 as u32;
    let average_wins: u64 = if total_successes > 0 {
        total_wins / (total_successes as u64)
    } else {
        0
    };
    (percentage, average_wins)
}

/// Handing one more batch to a worker moves the assignment tally forward by
/// exactly that batch, and never past the run total.
proof fn lemma_assigned_step(runs: int, workers: int, w: int)
    requires
        1 <= workers,
        1 <= runs,
        0 <= w < workers,
    ensures
        spec_assigned(runs, workers, w + 1) == spec_assigned(runs, workers, w) + runs / workers
            + if w < runs % workers {
            1int
        } else {
            0int
        },
        spec_assigned(runs, workers, w + 1) <= runs,
{
    let base = runs / workers;
    let rem = runs % workers;
    lemma_fundamental_div_mod(runs, workers);
    lemma_div_pos_is_pos(runs, workers);
    assert((w + 1) * base == w * base + base) by (nonlinear_arith);
    assert(spec_assigned(runs, workers, w + 1) <= runs) by (nonlinear_arith)
        requires
            runs == workers * base + rem,
            0 <= rem < workers,
            0 <= base,
            0 <= w < workers,
            spec_assigned(runs, workers, w + 1) == (w + 1) * base + if w + 1 <= rem {
                w + 1
            } else {
                rem
            },
    ;
}

/// All the workers together take exactly the run total.
proof fn lemma_assigned_total(runs: int, workers: int)
    requires
        1 <= workers,
        1 <= runs,
    ensures
        spec_assigned(runs, workers, workers) == runs,
{
    let base = runs / workers;
    let rem = runs % workers;
    lemma_fundamental_div_mod(runs, workers);
    assert(workers * base == base * workers) by (nonlinear_arith);
    assert(spec_assigned(runs, workers, workers) == workers * base + rem);
}

} // verus!
