use gonnawintheleague::calculate_results;
use gonnawintheleague::calculate_results_seeded;
use gonnawintheleague::run_batch;
use gonnawintheleague::run_batch_seeded;
use gonnawintheleague::run_simulation;
use gonnawintheleague::run_simulation_seeded;
use gonnawintheleague::sampler::away_goals_of;
use gonnawintheleague::sampler::home_goals_of;
use gonnawintheleague::validate_inputs;
use gonnawintheleague::LeagueTable;
use gonnawintheleague::Match;
use gonnawintheleague::SeededRng;
use gonnawintheleague::SimError;

fn four_team_table() -> LeagueTable {
    let mut league_table = LeagueTable::new();
    league_table.add_team("Liverpool".to_string(), 67, 40);
    league_table.add_team("Arsenal".to_string(), 54, 28);
    league_table.add_team("Nottingham Forest".to_string(), 48, 18);
    league_table.add_team("Manchester City".to_string(), 47, 16);
    league_table
}

fn double_round_robin() -> Vec<Match> {
    vec![
        Match::from("Liverpool", "Arsenal"),
        Match::from("Liverpool", "Nottingham Forest"),
        Match::from("Liverpool", "Manchester City"),
        Match::from("Arsenal", "Liverpool"),
        Match::from("Arsenal", "Nottingham Forest"),
        Match::from("Arsenal", "Manchester City"),
        Match::from("Nottingham Forest", "Liverpool"),
        Match::from("Nottingham Forest", "Arsenal"),
        Match::from("Nottingham Forest", "Manchester City"),
        Match::from("Manchester City", "Liverpool"),
        Match::from("Manchester City", "Arsenal"),
        Match::from("Manchester City", "Nottingham Forest"),
    ]
}

#[test]
fn small_simulation() {
    let league_table = four_team_table();
    let matches = double_round_robin();

    let target = "Arsenal".to_string();
    let mut count = 0.0;
    for _x in 1..50 {
        if run_simulation(&target, &league_table, &matches).0 <= 1 {
            count += 1.0;
        }
    }

    println!("{} {}%", target, count / 50.0 * 100.0);
}

#[test]
fn rank_stays_within_table_bounds() {
    let league_table = four_team_table();
    let matches = double_round_robin();
    for _ in 0..200 {
        let (rank, _wins) = run_simulation("Manchester City", &league_table, &matches);
        assert!(rank >= 1);
        assert!(rank <= 4);
    }
}

#[test]
fn wins_count_simulated_games_only() {
    let league_table = four_team_table();
    let matches = double_round_robin();
    for _ in 0..50 {
        let (_rank, wins) = run_simulation("Arsenal", &league_table, &matches);
        // Arsenal plays 6 of the 12 fixtures and starts at 0 recorded wins.
        assert!(wins <= 6);
    }
}

#[test]
fn seeded_runs_are_reproducible() {
    let league_table = four_team_table();
    let matches = double_round_robin();
    let mut first_rng = SeededRng::new(42);
    let mut second_rng = SeededRng::new(42);
    let first = run_simulation_seeded("Arsenal", &league_table, &matches, &mut first_rng);
    let second = run_simulation_seeded("Arsenal", &league_table, &matches, &mut second_rng);
    assert_eq!(first, second);
    assert_eq!(first_rng, second_rng);
}

#[test]
fn seeded_run_matches_recorded_outcome() {
    let league_table = four_team_table();
    let matches = double_round_robin();
    let mut rng = SeededRng::new(42);
    let (rank, wins) = run_simulation_seeded("Arsenal", &league_table, &matches, &mut rng);
    assert_eq!(2, rank);
    assert_eq!(2, wins);
    assert_eq!(6356963020929956066, rng.state);
}

#[test]
fn seeded_batch_matches_recorded_aggregate() {
    let league_table = four_team_table();
    let matches = double_round_robin();

    // Chasing rank 1 from 13 points behind over 12 fixtures: this seed
    // sequence records no success at all.
    let mut rng = SeededRng::new(12345);
    let (successes, win_sum) =
        run_batch_seeded("Arsenal", 1, &league_table, &matches, 50, &mut rng);
    assert_eq!(0, successes);
    assert_eq!(0, win_sum);

    // The same 50 runs against target rank 2.
    let mut rng = SeededRng::new(12345);
    let (successes, win_sum) =
        run_batch_seeded("Arsenal", 2, &league_table, &matches, 50, &mut rng);
    assert_eq!(43, successes);
    assert_eq!(111, win_sum);
}

#[test]
fn seeded_aggregate_is_reproducible_and_partition_invariant() {
    let league_table = four_team_table();
    let matches = double_round_robin();

    // 50 runs from seed 12345 record 43 successes and 111 wins against
    // target rank 2: 86 whole percent, average 2 wins per success.
    let mut rng = SeededRng::new(12345);
    let results = calculate_results_seeded("Arsenal", 2, &league_table, &matches, 50, 3, &mut rng);
    assert_eq!((86, 2), results);
    assert_eq!(767847392054474857, rng.state);

    // The workers take the draws in sequence, so another partition of the
    // same 50 runs aggregates identically.
    let mut rng = SeededRng::new(12345);
    let repartitioned =
        calculate_results_seeded("Arsenal", 2, &league_table, &matches, 50, 5, &mut rng);
    assert_eq!(results, repartitioned);
    assert_eq!(767847392054474857, rng.state);
}

#[test]
fn batch_counts_only_successful_runs() {
    let mut table = LeagueTable::new();
    table.add_team("Leaders".to_string(), 60, 20);
    table.add_team("Chasers".to_string(), 50, 10);
    let matches = vec![Match::from("Leaders", "Chasers")];

    // Every run ends at rank 2 or better in a two-team league.
    let (successes, _win_sum) = run_batch("Chasers", 2, &table, &matches, 40);
    assert_eq!(40, successes);

    // No run can end above rank 1 minus one.
    let (successes, win_sum) = run_batch("Chasers", 0, &table, &matches, 40);
    assert_eq!(0, successes);
    assert_eq!(0, win_sum);
}

#[test]
fn percentage_stays_within_range() {
    let league_table = four_team_table();
    let matches = double_round_robin();
    let (percentage, average_wins) =
        calculate_results("Arsenal", 2, &league_table, &matches, 200, 4);
    assert!(percentage <= 100);
    let _ = average_wins;
}

#[test]
fn average_wins_is_zero_without_successes() {
    let league_table = four_team_table();
    let matches = double_round_robin();
    // Rank 0 is unreachable: no run succeeds, so the sentinel average is 0.
    let (percentage, average_wins) =
        calculate_results("Arsenal", 0, &league_table, &matches, 100, 3);
    assert_eq!(0, percentage);
    assert_eq!(0, average_wins);
}

#[test]
fn uneven_worker_partition_still_runs_every_simulation() {
    let mut table = LeagueTable::new();
    table.add_team("Leaders".to_string(), 60, 20);
    table.add_team("Chasers".to_string(), 50, 10);
    let matches = vec![Match::from("Leaders", "Chasers")];
    // 7 runs across 3 workers, every run a success: 100 percent exactly.
    let (percentage, _average_wins) = calculate_results("Chasers", 2, &table, &matches, 7, 3);
    assert_eq!(100, percentage);
}

#[test]
fn validate_inputs_accepts_consistent_data() {
    let league_table = four_team_table();
    let matches = double_round_robin();
    assert_eq!(Ok(()), validate_inputs("Arsenal", &league_table, &matches));
}

#[test]
fn validate_inputs_rejects_absent_target() {
    let league_table = four_team_table();
    let matches = double_round_robin();
    assert_eq!(
        Err(SimError::ConfigurationError),
        validate_inputs("Chelsea", &league_table, &matches)
    );
}

#[test]
fn validate_inputs_rejects_fixture_with_unknown_team() {
    let league_table = four_team_table();
    let mut matches = double_round_robin();
    matches.push(Match::from("Arsenal", "Chelsea"));
    assert_eq!(
        Err(SimError::InvariantViolation),
        validate_inputs("Arsenal", &league_table, &matches)
    );
}

#[test]
fn certain_target_rank_gives_full_percentage() {
    let league_table = four_team_table();
    let matches = double_round_robin();
    // Rank 4 in a four-team league: every run succeeds.
    let (percentage, _average_wins) =
        calculate_results("Manchester City", 4, &league_table, &matches, 60, 4);
    assert_eq!(100, percentage);
}

#[test]
fn unreachable_target_rank_counts_no_batch_success() {
    let league_table = four_team_table();
    let matches = double_round_robin();
    let (successes, win_sum) = run_batch("Liverpool", 0, &league_table, &matches, 30);
    assert_eq!(0, successes);
    assert_eq!(0, win_sum);
}

#[test]
fn validate_inputs_rejects_missing_overflow_headroom() {
    let mut table = LeagueTable::new();
    // A bystander team whose points leave no room for a replayed win.
    table.add_team("Runaway".to_string(), u32::MAX - 1, 0);
    table.add_team("Leaders".to_string(), 10, 0);
    table.add_team("Chasers".to_string(), 5, 0);
    let matches = vec![Match::from("Leaders", "Chasers")];
    assert_eq!(
        Err(SimError::InvariantViolation),
        validate_inputs("Leaders", &table, &matches)
    );
}

#[test]
fn validate_inputs_rejects_team_against_itself() {
    let league_table = four_team_table();
    let matches = vec![Match::from("Arsenal", "Arsenal")];
    assert_eq!(
        Err(SimError::InvariantViolation),
        validate_inputs("Arsenal", &league_table, &matches)
    );
}

#[test]
fn goal_distributions_follow_cumulative_weights() {
    // Home side: cumulative weights 188, 491, 739, 882, 952, 983, 995, 1000.
    assert_eq!(0, home_goals_of(0));
    assert_eq!(0, home_goals_of(187));
    assert_eq!(1, home_goals_of(188));
    assert_eq!(1, home_goals_of(490));
    assert_eq!(2, home_goals_of(491));
    assert_eq!(3, home_goals_of(750));
    assert_eq!(4, home_goals_of(900));
    assert_eq!(5, home_goals_of(960));
    assert_eq!(6, home_goals_of(990));
    assert_eq!(7, home_goals_of(999));

    // Away side: cumulative weights 338, 700, 893, 967, 990, 997, 999, 1000.
    assert_eq!(0, away_goals_of(0));
    assert_eq!(0, away_goals_of(337));
    assert_eq!(1, away_goals_of(338));
    assert_eq!(1, away_goals_of(699));
    assert_eq!(2, away_goals_of(700));
    assert_eq!(3, away_goals_of(900));
    assert_eq!(4, away_goals_of(980));
    assert_eq!(5, away_goals_of(995));
    assert_eq!(6, away_goals_of(998));
    assert_eq!(7, away_goals_of(999));
}

#[test]
fn seeded_source_changes_between_draws() {
    // If the entropy source handed the same draw back every time, every
    // seeded season would end with identical scores in every fixture; the
    // recorded draws differ.
    let mut rng = SeededRng::new(7);
    let first = rng.next_draw();
    let second = rng.next_draw();
    let third = rng.next_draw();
    assert!(first < 1000 && second < 1000 && third < 1000);
    assert!(!(first == second && second == third));
}
