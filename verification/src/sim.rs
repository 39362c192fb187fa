//! Replaying the remainder of a season.
//!
//! A simulation run clones the current table, samples a score for every
//! remaining fixture, applies the update rule fixture by fixture, and reads
//! the target team's final rank and win count off the finished clone. The
//! whole run is a pure function of the starting table, the fixture list and
//! the draws consumed; nothing outside the private clone is touched.

use vstd::prelude::*;

use crate::sampler::away_goals_of;
use crate::sampler::home_goals_of;
use crate::sampler::sample_away_goals;
use crate::sampler::sample_home_goals;
use crate::sampler::spec_away_goals;
use crate::sampler::spec_home_goals;
use crate::sampler::spec_lcg_draw;
use crate::sampler::spec_lcg_next;
use crate::sampler::SeededRng;
use crate::table::contains_team;
use crate::table::distinct_names;
use crate::table::lemma_count_ahead_member;
use crate::table::lemma_count_ahead_to_bounds;
use crate::table::lemma_team_index;
use crate::table::spec_get;
use crate::table::spec_rank;
use crate::table::spec_table_update;
use crate::table::spec_team_update;
use crate::table::team_index;
use crate::table::update_safe;
use crate::table::LeagueTable;
use crate::table::Match;
use crate::table::Team;

verus! {

/// Every fixture names two distinct teams that the table holds. A fixture
/// referencing an absent team would break the table's invariant; callers
/// must rule it out, as simulated data must only reference teams present in
/// the snapshot.
pub open spec fn valid_fixtures(s: Seq<Team>, ms: Seq<Match>) -> bool {
    forall|k: int|
        0 <= k < ms.len() ==> contains_team(s, ms[k].home@) && contains_team(s, ms[k].away@)
            && ms[k].home@ != ms[k].away@
}

/// Every sampled score is a pair of goal counts between 0 and 7.
pub open spec fn goals_bounded(goals: Seq<(i32, i32)>) -> bool {
    forall|k: int|
        0 <= k < goals.len() ==> 0 <= (#[trigger] goals[k]).0 <= 7 && 0 <= goals[k].1 <= 7
}

/// The machine-limit room a whole season replay needs: no team's points,
/// wins or goal differential can leave its integer type even if that team
/// plays in every remaining fixture.
pub open spec fn sim_safe(s: Seq<Team>, ms: Seq<Match>) -> bool {
    forall|i: int|
        0 <= i < s.len() ==> s[i].pts + 3 * ms.len() <= u32::MAX && s[i].wins + ms.len()
            <= u32::MAX && i32::MIN <= s[i].goal_diff - 7 * ms.len() && s[i].goal_diff + 7
            * ms.len() <= i32::MAX
}

/// The tables have the same teams, by name, in the same positions.
pub open spec fn same_names(s: Seq<Team>, t: Seq<Team>) -> bool {
    t.len() == s.len() && forall|i: int| 0 <= i < s.len() ==> t[i].name@ == s[i].name@
}

/// The table after the first `n` fixtures of `ms` have been played with the
/// sampled scores in `goals`.
pub open spec fn spec_play(s: Seq<Team>, ms: Seq<Match>, goals: Seq<(i32, i32)>, n: int) -> Seq<
    Team,
>
    decreases n,
{
    if n <= 0 {
        s
    } else {
        spec_table_update(
            spec_play(s, ms, goals, n - 1),
            ms[n - 1].home@,
            ms[n - 1].away@,
            goals[n - 1].0 as int,
            goals[n - 1].1 as int,
        )
    }
}

/// Playing fixtures keeps the team roster in place and moves each team's
/// points, wins and goal differential by at most 3, 1 and 7 per fixture, so
/// a replay that started within `sim_safe` room never overflows.
pub proof fn lemma_play_props(s: Seq<Team>, ms: Seq<Match>, goals: Seq<(i32, i32)>, n: int)
    requires
        distinct_names(s),
        valid_fixtures(s, ms),
        goals_bounded(goals),
        goals.len() == ms.len(),
        sim_safe(s, ms),
        0 <= n <= ms.len(),
    ensures
        ({
            let t = spec_play(s, ms, goals, n);
            &&& same_names(s, t)
            &&& distinct_names(t)
            &&& forall|i: int|
                0 <= i < s.len() ==> t[i].pts <= s[i].pts + 3 * n && t[i].wins <= s[i].wins + n
                    && s[i].goal_diff - 7 * n <= t[i].goal_diff <= s[i].goal_diff + 7 * n
        }),
    decreases n,
{
    if n > 0 {
        lemma_play_props(s, ms, goals, n - 1);
        let prev = spec_play(s, ms, goals, n - 1);
        let t = spec_play(s, ms, goals, n);
        let home = ms[n - 1].home@;
        let away = ms[n - 1].away@;
        let hg = goals[n - 1].0 as int;
        let ag = goals[n - 1].1 as int;
        let hi = team_index(prev, home);
        let ai = team_index(prev, away);
        assert(contains_team(s, home));
        let hw = choose|i: int| 0 <= i < s.len() && s[i].name@ == home;
        assert(prev[hw].name@ == home);
        lemma_team_index(prev, home, hw);
        let aw = choose|i: int| 0 <= i < s.len() && s[i].name@ == away;
        assert(prev[aw].name@ == away);
        lemma_team_index(prev, away, aw);
        assert(hi != ai);
        assert forall|i: int| 0 <= i < s.len() implies t[i].name@ == s[i].name@ && t[i].pts
            <= s[i].pts + 3 * n && t[i].wins <= s[i].wins + n && s[i].goal_diff - 7 * n
            <= t[i].goal_diff <= s[i].goal_diff + 7 * n by {
            if i == hi {
                assert(t[i] == spec_team_update(prev[hi], hg - ag));
            } else if i == ai {
                assert(t[i] == spec_team_update(prev[ai], ag - hg));
            } else {
                assert(t[i] == prev[i]);
            }
        }
        assert forall|p: int, q: int| 0 <= p < q < t.len() implies t[p].name@ != t[q].name@ by {
            assert(s[p].name@ != s[q].name@);
        }
    }
}

/// Play every fixture of `match_list` against `table`, taking the score of
/// fixture `k` from `goals[k]`.
pub fn play_fixtures(table: &mut LeagueTable, match_list: &Vec<Match>, goals: &Vec<(i32, i32)>)
    requires
        old(table).wf(),
        valid_fixtures(old(table)@, match_list@),
        goals@.len() == match_list@.len(),
        goals_bounded(goals@),
        sim_safe(old(table)@, match_list@),
    ensures
        final(table).wf(),
        final(table)@ == spec_play(
            old(table)@,
            match_list@,
            goals@,
            match_list@.len() as int,
        ),
{
    let ghost s = table@;
    let n = match_list.len();
    let mut k: usize = 0;
    while k < n
        invariant
            k <= n,
            n == match_list@.len(),
            table.wf(),
            table@ == spec_play(s, match_list@, goals@, k as int),
            distinct_names(s),
            valid_fixtures(s, match_list@),
            goals@.len() == match_list@.len(),
            goals_bounded(goals@),
            sim_safe(s, match_list@),
        decreases n - k,
    {
        proof {
            lemma_play_props(s, match_list@, goals@, k as int);
            let prev = table@;
            let home = match_list@[k as int].home@;
            let away = match_list@[k as int].away@;
            let hw = choose|i: int| 0 <= i < s.len() && s[i].name@ == home;
            assert(prev[hw].name@ == home);
            lemma_team_index(prev, home, hw);
            let aw = choose|i: int| 0 <= i < s.len() && s[i].name@ == away;
            assert(prev[aw].name@ == away);
            lemma_team_index(prev, away, aw);
            assert(update_safe(
                prev,
                home,
                away,
                goals@[k as int].0 as int,
                goals@[k as int].1 as int,
            ));
        }
        let game = &match_list[k];
        let (hg, ag) = (goals[k].0, goals[k].1);
        table.update(game, hg, ag);
        k = k + 1;
    }
}

/// `out` is the (rank, wins) pair the team called `name` reaches in some
/// completed season: a table reachable from the snapshot `s` by playing
/// every fixture of `ms` with goal counts between 0 and 7.
pub open spec fn achievable_outcome(
    s: Seq<Team>,
    ms: Seq<Match>,
    name: Seq<char>,
    out: (int, int),
) -> bool {
    exists|goals: Seq<(i32, i32)>|
        {
            &&& #[trigger] goals_bounded(goals)
            &&& goals.len() == ms.len()
            &&& out.0 == spec_rank(spec_play(s, ms, goals, ms.len() as int), name)
            &&& out.1 == spec_get(spec_play(s, ms, goals, ms.len() as int), name).wins
        }
}

/// Every achievable outcome has a rank between 1 and the number of teams
/// and a non-negative win count.
pub proof fn lemma_achievable_outcome_bounds(
    s: Seq<Team>,
    ms: Seq<Match>,
    name: Seq<char>,
    out: (int, int),
)
    requires
        distinct_names(s),
        valid_fixtures(s, ms),
        sim_safe(s, ms),
        contains_team(s, name),
        achievable_outcome(s, ms, name, out),
    ensures
        1 <= out.0 <= s.len(),
        0 <= out.1,
{
    let goals = choose|goals: Seq<(i32, i32)>|
        {
            &&& #[trigger] goals_bounded(goals)
            &&& goals.len() == ms.len()
            &&& out.0 == spec_rank(spec_play(s, ms, goals, ms.len() as int), name)
            &&& out.1 == spec_get(spec_play(s, ms, goals, ms.len() as int), name).wins
        };
    lemma_play_props(s, ms, goals, ms.len() as int);
    let t = spec_play(s, ms, goals, ms.len() as int);
    lemma_target_in_play(s, t, name);
    let ti = team_index(t, name);
    assert(0 <= ti < t.len() && t[ti].name@ == name) by {
        let w = choose|i: int| 0 <= i < t.len() && t[i].name@ == name;
        lemma_team_index(t, name, w);
    }
    lemma_count_ahead_to_bounds(t, spec_get(t, name), t.len() as int);
    lemma_count_ahead_member(t, spec_get(t, name), t.len() as int, ti);
}

/// Simulate outcomes for every remaining fixture and return the rank and
/// win count the target team reaches, drawing scores from the process
/// random source.
///
/// Whatever the draws turn out to be, the result is an achievable outcome:
/// the rank and win count of the target team in some completed season. The
/// rank always lies between 1 and the number of teams.
pub fn run_simulation(
    target_team: &str,
    current_table: &LeagueTable,
    match_list: &Vec<Match>,
) -> (r: (i32, u32))
    requires
        current_table.wf(),
        contains_team(current_table@, target_team@),
        valid_fixtures(current_table@, match_list@),
        sim_safe(current_table@, match_list@),
        current_table@.len() + 1 <= i32::MAX,
    ensures
        1 <= r.0 <= current_table@.len(),
        achievable_outcome(current_table@, match_list@, target_team@, (r.0 as int, r.1 as int)),
        r.1 <= spec_get(current_table@, target_team@).wins + match_list@.len(),
{
    let n = match_list.len();
    let mut goals: Vec<(i32, i32)> = Vec::new();
    let mut k: usize = 0;
    while k < n
        invariant
            k <= n,
            goals@.len() == k,
            goals_bounded(goals@),
        decreases n - k,
    {
        let hg = sample_home_goals();
        let ag = sample_away_goals();
        goals.push((hg, ag));
        k = k + 1;
    }
    let mut simulated_table = current_table.clone();
    play_fixtures(&mut simulated_table, match_list, &goals);
    proof {
        lemma_play_props(
            current_table@,
            match_list@,
            goals@,
            match_list@.len() as int,
        );
        lemma_target_in_play(current_table@, simulated_table@, target_team@);
    }
    let rank = simulated_table.find_final_rank(target_team);
    let wins = simulated_table.get_team(target_team).unwrap().wins;
    (rank, wins)
}

/// The generator state `n` steps after `s`.
pub open spec fn spec_lcg_state_after(s: u64, n: int) -> u64
    decreases n,
{
    if n <= 0 {
        s
    } else {
        spec_lcg_next(spec_lcg_state_after(s, n - 1))
    }
}

/// The score of fixture `k` under a seeded replay from `seed`: each fixture
/// consumes two draws, home side first.
pub open spec fn spec_seeded_goal_pair(seed: u64, k: int) -> (i32, i32) {
    (
        spec_home_goals(spec_lcg_draw(spec_lcg_state_after(seed, 2 * k + 1)) as int) as i32,
        spec_away_goals(spec_lcg_draw(spec_lcg_state_after(seed, 2 * k + 2)) as int) as i32,
    )
}

/// The scores of the first `n` fixtures under a seeded replay from `seed`.
pub open spec fn spec_seeded_goals(seed: u64, n: nat) -> Seq<(i32, i32)> {
    Seq::new(n, |k: int| spec_seeded_goal_pair(seed, k))
}

/// The rank and win count the team called `name` reaches when the season is
/// replayed deterministically from `seed`.
pub open spec fn spec_run_seeded(s: Seq<Team>, ms: Seq<Match>, name: Seq<char>, seed: u64) -> (
    int,
    int,
) {
    let t = spec_play(s, ms, spec_seeded_goals(seed, ms.len()), ms.len() as int);
    (spec_rank(t, name), spec_get(t, name).wins as int)
}

/// A seeded run is fully reproducible: equal seeds on the same snapshot and
/// fixtures give exactly the same rank and win count.
pub proof fn lemma_seeded_run_reproducible(
    s: Seq<Team>,
    ms: Seq<Match>,
    name: Seq<char>,
    seed1: u64,
    seed2: u64,
)
    requires
        seed1 == seed2,
    ensures
        spec_run_seeded(s, ms, name, seed1) == spec_run_seeded(s, ms, name, seed2),
{
}

/// Simulate outcomes for every remaining fixture, drawing scores from a
/// seeded deterministic source: the result is exactly the seeded replay of
/// the season from the source's starting state.
pub fn run_simulation_seeded(
    target_team: &str,
    current_table: &LeagueTable,
    match_list: &Vec<Match>,
    rng: &mut SeededRng,
) -> (r: (i32, u32))
    requires
        current_table.wf(),
        contains_team(current_table@, target_team@),
        valid_fixtures(current_table@, match_list@),
        sim_safe(current_table@, match_list@),
        current_table@.len() + 1 <= i32::MAX,
    ensures
        r.0 as int == spec_run_seeded(
            current_table@,
            match_list@,
            target_team@,
            old(rng).state,
        ).0,
        r.1 as int == spec_run_seeded(
            current_table@,
            match_list@,
            target_team@,
            old(rng).state,
        ).1,
        final(rng).state == spec_lcg_state_after(old(rng).state, 2 * match_list@.len() as int),
        1 <= r.0 <= current_table@.len(),
        r.1 <= spec_get(current_table@, target_team@).wins + match_list@.len(),
{
    let ghost seed = rng.state;
    let n = match_list.len();
    let mut goals: Vec<(i32, i32)> = Vec::new();
    let mut k: usize = 0;
    while k < n
        invariant
            k <= n,
            goals@.len() == k,
            rng.state == spec_lcg_state_after(seed, 2 * k as int),
            forall|j: int| 0 <= j < k ==> goals@[j] == spec_seeded_goal_pair(seed, j),
            goals_bounded(goals@),
        decreases n - k,
    {
        proof {
            assert(spec_lcg_state_after(seed, 2 * k as int + 1) == spec_lcg_next(
                spec_lcg_state_after(seed, 2 * k as int),
            ));
            assert(spec_lcg_state_after(seed, 2 * k as int + 2) == spec_lcg_next(
                spec_lcg_state_after(seed, 2 * k as int + 1),
            ));
        }
        let hd = rng.next_draw();
        let hg = home_goals_of(hd);
        let ad = rng.next_draw();
        let ag = away_goals_of(ad);
        goals.push((hg, ag));
        proof {
            assert(goals@[k as int] == spec_seeded_goal_pair(seed, k as int));
        }
        k = k + 1;
    }
    proof {
        assert(goals@ =~= spec_seeded_goals(seed, match_list@.len()));
    }
    let mut simulated_table = current_table.clone();
    play_fixtures(&mut simulated_table, match_list, &goals);
    proof {
        lemma_play_props(
            current_table@,
            match_list@,
            goals@,
            match_list@.len() as int,
        );
        lemma_target_in_play(current_table@, simulated_table@, target_team@);
    }
    let rank = simulated_table.find_final_rank(target_team);
    let wins = simulated_table.get_team(target_team).unwrap().wins;
    (rank, wins)
}

/// With the roster unchanged by a replay, the target team is still present
/// and sits at the same index, so its entry in the finished table is the
/// replayed version of its entry in the snapshot.
pub proof fn lemma_target_in_play(s: Seq<Team>, t: Seq<Team>, name: Seq<char>)
    requires
        distinct_names(s),
        distinct_names(t),
        same_names(s, t),
        contains_team(s, name),
    ensures
        contains_team(t, name),
        team_index(t, name) == team_index(s, name),
        spec_get(t, name) == t[team_index(s, name)],
{
    let i = team_index(s, name);
    assert(0 <= i < s.len() && s[i].name@ == name) by {
        let w = choose|j: int| 0 <= j < s.len() && s[j].name@ == name;
        lemma_team_index(s, name, w);
    }
    assert(t[i].name@ == name);
    lemma_team_index(t, name, i);
}

} // verus!
