use gonnawintheleague::LeagueTable;
use gonnawintheleague::Match;
use gonnawintheleague::Team;

#[test]
fn add_one_team() {
    let mut league_table = LeagueTable::new();
    league_table.add_team("Liverpool".to_string(), 67, 40);
    assert_ne!(league_table.get_team("Liverpool"), None);
    assert_eq!("Liverpool", league_table.get_team("Liverpool").unwrap().name);
}

#[test]
fn print_league_table() {
    let mut league_table = LeagueTable::new();
    league_table.add_team("Liverpool".to_string(), 67, 40);
    league_table.add_team("Arsenal".to_string(), 27, 28);
    print_table(&league_table);
    let rows = league_table.sorted_teams();
    assert_eq!("Liverpool", rows[0].name);
    assert_eq!("Arsenal", rows[1].name);
}

#[test]
fn print_reranked_league_table() {
    let mut league_table = LeagueTable::new();
    league_table.add_team("Liverpool".to_string(), 67, 40);
    league_table.add_team("Arsenal".to_string(), 27, 28);
    print_table(&league_table);
    assert_eq!("Liverpool", league_table.sorted_teams()[0].name);

    league_table.add_team("Arsenal".to_string(), 70, 28);
    print_table(&league_table);
    assert_eq!("Arsenal", league_table.sorted_teams()[0].name);
}

#[test]
fn manually_update_team_data() {
    let mut league_table = LeagueTable::new();
    league_table.add_team("Liverpool".to_string(), 67, 40);
    assert_ne!(league_table.get_team("Liverpool"), None);
    assert_eq!(67, league_table.get_team("Liverpool").unwrap().pts);
    assert_eq!(40, league_table.get_team("Liverpool").unwrap().goal_diff);
}

#[test]
fn update_with_match_data() {
    let new_match = Match::from("Liverpool", "Arsenal");
    let mut league_table = LeagueTable::new();
    league_table.add_team("Liverpool".to_string(), 67, 40);
    league_table.add_team("Arsenal".to_string(), 27, 26);
    league_table.update(&new_match, 2, 0);

    assert_eq!(70, league_table.get_team("Liverpool").unwrap().pts);
    assert_eq!(42, league_table.get_team("Liverpool").unwrap().goal_diff);

    assert_eq!(27, league_table.get_team("Arsenal").unwrap().pts);
    assert_eq!(24, league_table.get_team("Arsenal").unwrap().goal_diff);

    let second_match = Match::from("Liverpool", "Arsenal");
    league_table.update(&second_match, 2, 2);

    assert_eq!(71, league_table.get_team("Liverpool").unwrap().pts);
    assert_eq!(42, league_table.get_team("Liverpool").unwrap().goal_diff);

    assert_eq!(28, league_table.get_team("Arsenal").unwrap().pts);
    assert_eq!(24, league_table.get_team("Arsenal").unwrap().goal_diff);
}

#[test]
fn get_final_ranking() {
    let mut league_table = LeagueTable::new();
    league_table.add_team("Liverpool".to_string(), 67, 40);
    league_table.add_team("Arsenal".to_string(), 54, 28);

    let liverpool_rank = league_table.find_final_rank("Liverpool");
    let arsenal_rank = league_table.find_final_rank("Arsenal");

    assert_eq!(1, liverpool_rank);
    assert_eq!(2, arsenal_rank);
}

#[test]
fn scenario_two_teams_forced_result() {
    let mut table = LeagueTable::new();
    table.add_team("Liverpool".to_string(), 67, 40);
    table.add_team("Arsenal".to_string(), 27, 26);
    let fixture = Match::from("Liverpool", "Arsenal");
    table.update(&fixture, 2, 0);

    assert_eq!(70, table.get_team("Liverpool").unwrap().pts);
    assert_eq!(42, table.get_team("Liverpool").unwrap().goal_diff);
    assert_eq!(1, table.get_team("Liverpool").unwrap().wins);
    // Arsenal's points stay untouched by the loss; its goal differential
    // takes the opposite side of the match differential.
    assert_eq!(27, table.get_team("Arsenal").unwrap().pts);
    assert_eq!(24, table.get_team("Arsenal").unwrap().goal_diff);
    assert_eq!(0, table.get_team("Arsenal").unwrap().wins);

    assert_eq!(1, table.find_final_rank("Liverpool"));
    assert_eq!(2, table.find_final_rank("Arsenal"));
}

#[test]
fn update_assigns_opposite_goal_diff_deltas() {
    let mut table = LeagueTable::new();
    table.add_team("Home".to_string(), 10, 3);
    table.add_team("Away".to_string(), 12, -1);
    let fixture = Match::from("Home", "Away");

    // Decisive result: deltas +3 and -3, points handed out total 3.
    table.update(&fixture, 4, 1);
    let home = table.get_team("Home").unwrap().clone();
    let away = table.get_team("Away").unwrap().clone();
    assert_eq!(home.goal_diff - 3, 3);
    assert_eq!(away.goal_diff + 3, -1);
    assert_eq!((home.pts - 10) + (away.pts - 12), 3);

    // Draw: deltas 0 and 0, points handed out total 2.
    table.update(&fixture, 2, 2);
    let home2 = table.get_team("Home").unwrap().clone();
    let away2 = table.get_team("Away").unwrap().clone();
    assert_eq!(home2.goal_diff, home.goal_diff);
    assert_eq!(away2.goal_diff, away.goal_diff);
    assert_eq!((home2.pts - home.pts) + (away2.pts - away.pts), 2);
}

#[test]
fn rank_is_stable_under_reranking() {
    let mut table = LeagueTable::new();
    table.add_team("Liverpool".to_string(), 67, 40);
    table.add_team("Arsenal".to_string(), 54, 28);
    table.add_team("Brighton".to_string(), 54, 28);
    let first = table.find_final_rank("Arsenal");
    let second = table.find_final_rank("Arsenal");
    assert_eq!(first, second);

    // The same teams inserted in another order rank identically.
    let mut reordered = LeagueTable::new();
    reordered.add_team("Brighton".to_string(), 54, 28);
    reordered.add_team("Arsenal".to_string(), 54, 28);
    reordered.add_team("Liverpool".to_string(), 67, 40);
    assert_eq!(first, reordered.find_final_rank("Arsenal"));
    assert_eq!(
        table.find_final_rank("Brighton"),
        reordered.find_final_rank("Brighton")
    );
}

#[test]
fn tied_teams_share_a_rank() {
    let mut table = LeagueTable::new();
    table.add_team("First".to_string(), 30, 5);
    table.add_team("TiedA".to_string(), 20, 2);
    table.add_team("TiedB".to_string(), 20, 2);
    assert_eq!(1, table.find_final_rank("First"));
    assert_eq!(2, table.find_final_rank("TiedA"));
    assert_eq!(2, table.find_final_rank("TiedB"));
}

#[test]
fn empty_match_and_team_builders() {
    let m = Match::new();
    assert_eq!("", m.home);
    assert_eq!("", m.away);
    let t = Team::new("Fulham".to_string(), 41, -3);
    assert_eq!("Fulham", t.name);
    assert_eq!(41, t.pts);
    assert_eq!(-3, t.goal_diff);
    assert_eq!(0, t.wins);
}

#[test]
fn team_update_follows_points_rule() {
    let mut t = Team::new("Spurs".to_string(), 50, 12);
    t.update(3);
    assert_eq!((53, 15, 1), (t.pts, t.goal_diff, t.wins));
    t.update(0);
    assert_eq!((54, 15, 1), (t.pts, t.goal_diff, t.wins));
    t.update(-2);
    assert_eq!((54, 13, 1), (t.pts, t.goal_diff, t.wins));
}

#[test]
fn add_team_struct_keeps_given_record() {
    let mut table = LeagueTable::new();
    let mut t = Team::new("Spurs".to_string(), 50, 12);
    t.update(1);
    table.add_team_struct("Spurs".to_string(), t);
    assert_eq!(53, table.get_team("Spurs").unwrap().pts);
    assert_eq!(13, table.get_team("Spurs").unwrap().goal_diff);
    assert_eq!(1, table.get_team("Spurs").unwrap().wins);
}

#[test]
fn add_team_replaces_existing_entry() {
    let mut table = LeagueTable::new();
    table.add_team("Everton".to_string(), 30, -2);
    table.add_team("Everton".to_string(), 33, 1);
    assert_eq!(1, table.len());
    assert_eq!(33, table.get_team("Everton").unwrap().pts);
    assert_eq!(1, table.get_team("Everton").unwrap().goal_diff);
}

fn print_table(table: &LeagueTable) {
    println!("Rank\tTeam\t\t\tPoints\t GD");
    let mut i = 1;
    for team in table.sorted_teams() {
        println!("{}\t{:<10}\t\t{:>5}\t{:>3}", i, team.name, team.pts, team.goal_diff);
        i += 1;
    }
}
