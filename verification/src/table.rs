//! The data model: teams, fixtures, and the league table with its update and
//! ranking rules.

use vstd::multiset::Multiset;
use vstd::prelude::*;

verus! {

/// One team's standing in the table.
///
/// `wins` counts only the victories recorded through the update rule after
/// the team was created; a snapshot built from raw `(name, points, goal
/// differential)` data therefore starts every team at zero wins, and any win
/// count reported later covers the simulated remainder of the season alone.
#[derive(Debug, PartialEq)]
pub struct Team {
    pub name: String,
    pub pts: u32,
    pub goal_diff: i32,
    pub wins: u32,
}

impl Clone for Team {
    fn clone(&self) -> (t: Team)
        ensures
            t == *self,
    {
        Team {
            name: self.name.clone(),
            pts: self.pts,
            goal_diff: self.goal_diff,
            wins: self.wins,
        }
    }
}

impl Team {
    /// Create a new team from raw standings data, with no wins recorded yet.
    pub fn new(name: String, pts: u32, goal_diff: i32) -> (t: Team)
        ensures
            t == (Team { name, pts, goal_diff, wins: 0 }),
    {
        Team { name, pts, goal_diff, wins: 0 }
    }

    /// Apply one match outcome, given this team's goal differential in the
    /// match: the differential is added to the season total, a positive one
    /// is a win worth 3 points, zero is a draw worth 1 point, and a negative
    /// one brings nothing.
    pub fn update(&mut self, match_goal_diff: i32)
        requires
            i32::MIN <= old(self).goal_diff + match_goal_diff <= i32::MAX,
            old(self).pts + 3 <= u32::MAX,
            old(self).wins + 1 <= u32::MAX,
        ensures
            *final(self) == spec_team_update(*old(self), match_goal_diff as int),
    {
        self.goal_diff = self.goal_diff + match_goal_diff;
        if match_goal_diff > 0 {
            self.pts = self.pts + 3;
            self.wins = self.wins + 1;
        } else if match_goal_diff == 0 {
            self.pts = self.pts + 1;
        }
    }
}

/// The team that results from applying one match outcome with the given
/// in-match goal differential to `t`.
pub open spec fn spec_team_update(t: Team, match_goal_diff: int) -> Team {
    Team {
        name: t.name,
        pts: if match_goal_diff > 0 {
            (t.pts + 3) as u32
        } else if match_goal_diff == 0 {
            (t.pts + 1) as u32
        } else {
            t.pts
        },
        goal_diff: (t.goal_diff + match_goal_diff) as i32,
        wins: if match_goal_diff > 0 {
            (t.wins + 1) as u32
        } else {
            t.wins
        },
    }
}

/// A scheduled, not-yet-played game between two named teams. Scores are
/// sampled fresh per simulation run and never stored on the fixture.
#[derive(Debug)]
pub struct Match {
    pub home: String,
    pub away: String,
}

impl Clone for Match {
    fn clone(&self) -> (m: Match)
        ensures
            m == *self,
    {
        Match { home: self.home.clone(), away: self.away.clone() }
    }
}

impl Match {
    /// Create an empty fixture.
    pub fn new() -> (m: Match)
        ensures
            m.home@ == Seq::<char>::empty(),
            m.away@ == Seq::<char>::empty(),
    {
        Match { home: String::new(), away: String::new() }
    }

    /// Create a fixture between the two named teams.
    pub fn from(home: &str, away: &str) -> (m: Match)
        ensures
            m.home@ == home@,
            m.away@ == away@,
    {
        Match { home: home.to_owned(), away: away.to_owned() }
    }
}

/// True when `name` is the name of some team in `s`.
pub open spec fn contains_team(s: Seq<Team>, name: Seq<char>) -> bool {
    exists|i: int| 0 <= i < s.len() && s[i].name@ == name
}

/// The index of the team called `name`; meaningful only when the table
/// contains that name and names are distinct.
pub open spec fn team_index(s: Seq<Team>, name: Seq<char>) -> int {
    choose|i: int| 0 <= i < s.len() && s[i].name@ == name
}

/// The team called `name` in `s`.
pub open spec fn spec_get(s: Seq<Team>, name: Seq<char>) -> Team {
    s[team_index(s, name)]
}

/// No two teams in `s` share a name: the table is a map from names to teams.
pub open spec fn distinct_names(s: Seq<Team>) -> bool {
    forall|i: int, j: int| 0 <= i < j < s.len() ==> s[i].name@ != s[j].name@
}

/// With distinct names, any position holding `name` is the team index.
pub proof fn lemma_team_index(s: Seq<Team>, name: Seq<char>, i: int)
    requires
        distinct_names(s),
        0 <= i < s.len(),
        s[i].name@ == name,
    ensures
        team_index(s, name) == i,
{
    let j = team_index(s, name);
    assert(0 <= j < s.len() && s[j].name@ == name);
    if i < j {
        assert(s[i].name@ != s[j].name@);
    } else if j < i {
        assert(s[j].name@ != s[i].name@);
    }
}

/// Team `a` stands strictly ahead of team `b` in the standings order:
/// more points, or equal points and a better goal differential.
pub open spec fn beats(a: Team, b: Team) -> bool {
    a.pts > b.pts || (a.pts == b.pts && a.goal_diff > b.goal_diff)
}

/// How many of the first `n` teams of `s` stand strictly ahead of `t`.
pub open spec fn count_ahead_to(s: Seq<Team>, t: Team, n: int) -> int
    decreases n,
{
    if n <= 0 {
        0
    } else {
        count_ahead_to(s, t, n - 1) + if beats(s[n - 1], t) {
            1int
        } else {
            0int
        }
    }
}

/// How many teams of `s` stand strictly ahead of `t`.
pub open spec fn count_ahead(s: Seq<Team>, t: Team) -> int {
    count_ahead_to(s, t, s.len() as int)
}

/// At most `n` of the first `n` teams can stand ahead of anyone.
pub proof fn lemma_count_ahead_to_bounds(s: Seq<Team>, t: Team, n: int)
    requires
        0 <= n,
    ensures
        0 <= count_ahead_to(s, t, n) <= n,
    decreases n,
{
    if n > 0 {
        lemma_count_ahead_to_bounds(s, t, n - 1);
    }
}

/// A team never stands strictly ahead of itself, so when `t` sits among the
/// first `n` teams, at most `n - 1` of them can be ahead of it.
pub proof fn lemma_count_ahead_member(s: Seq<Team>, t: Team, n: int, k: int)
    requires
        0 <= k < n,
        s[k] == t,
    ensures
        count_ahead_to(s, t, n) <= n - 1,
    decreases n,
{
    if n - 1 == k {
        lemma_count_ahead_to_bounds(s, t, n - 1);
    } else {
        lemma_count_ahead_member(s, t, n - 1, k);
    }
}

/// The rank of the team called `name`: one more than the number of teams
/// strictly ahead of it. Ties beyond points and goal differential share a
/// rank rather than being ordered arbitrarily.
pub open spec fn spec_rank(s: Seq<Team>, name: Seq<char>) -> int {
    1 + count_ahead(s, spec_get(s, name))
}

/// The number of teams ahead of `t` counts a bag of teams: only which
/// teams stand in the first `n` places matters, not the order they are
/// enumerated in.
pub proof fn lemma_count_ahead_multiset(s: Seq<Team>, t: Team, n: int)
    requires
        0 <= n <= s.len(),
    ensures
        count_ahead_to(s, t, n) == s.take(n).to_multiset().filter(
            |x: Team| beats(x, t),
        ).len(),
    decreases n,
{
    broadcast use vstd::seq_lib::group_to_multiset_ensures;
    broadcast use vstd::multiset::group_multiset_axioms;

    let pred = |x: Team| beats(x, t);
    if n == 0 {
        assert(s.take(0) =~= Seq::<Team>::empty());
        assert(s.take(0).to_multiset().filter(pred) =~= Multiset::<Team>::empty());
    } else {
        lemma_count_ahead_multiset(s, t, n - 1);
        assert(s.take(n) =~= s.take(n - 1).push(s[n - 1]));
        let prev_ms = s.take(n - 1).to_multiset();
        assert(s.take(n).to_multiset() =~= prev_ms.insert(s[n - 1]));
        if pred(s[n - 1]) {
            assert(prev_ms.insert(s[n - 1]).filter(pred) =~= prev_ms.filter(pred).insert(
                s[n - 1],
            ));
            vstd::multiset::lemma_insert_len(prev_ms.filter(pred), s[n - 1]);
        } else {
            assert(prev_ms.insert(s[n - 1]).filter(pred) =~= prev_ms.filter(pred));
        }
    }
}

/// Ranking is stable under re-enumeration: two well-formed tables holding
/// exactly the same teams rank the named team identically, so re-ranking a
/// table that no further match has touched reproduces the same rank, in
/// whatever order its teams come out.
pub proof fn lemma_rank_permutation_invariant(s: Seq<Team>, t: Seq<Team>, name: Seq<char>)
    requires
        distinct_names(s),
        distinct_names(t),
        s.to_multiset() == t.to_multiset(),
        contains_team(s, name),
    ensures
        contains_team(t, name),
        spec_get(t, name) == spec_get(s, name),
        spec_rank(t, name) == spec_rank(s, name),
{
    broadcast use vstd::seq_lib::group_to_multiset_ensures;
    broadcast use vstd::multiset::group_multiset_axioms;

    let w = choose|i: int| 0 <= i < s.len() && s[i].name@ == name;
    lemma_team_index(s, name, w);
    let team = s[team_index(s, name)];
    assert(s.contains(team));
    assert(s.to_multiset().count(team) > 0);
    assert(t.to_multiset().count(team) > 0);
    assert(t.contains(team));
    let j = choose|k: int| 0 <= k < t.len() && t[k] == team;
    assert(t[j].name@ == name);
    lemma_team_index(t, name, j);
    lemma_count_ahead_multiset(s, team, s.len() as int);
    lemma_count_ahead_multiset(t, team, t.len() as int);
    assert(s.take(s.len() as int) =~= s);
    assert(t.take(t.len() as int) =~= t);
}

/// The table after one match between `home` and `away` ending `hg` to `ag`:
/// each side's team updated with its own side of the goal differential.
pub open spec fn spec_table_update(
    s: Seq<Team>,
    home: Seq<char>,
    away: Seq<char>,
    hg: int,
    ag: int,
) -> Seq<Team> {
    let hi = team_index(s, home);
    let ai = team_index(s, away);
    s.update(hi, spec_team_update(s[hi], hg - ag)).update(
        ai,
        spec_team_update(s[ai], ag - hg),
    )
}

/// One match conserves the books: the two teams take exactly opposite
/// goal-differential deltas, and the match hands out exactly 2 points in
/// total for a draw and exactly 3 for a decisive result — never any other
/// amount. No third team moves at all.
pub proof fn lemma_update_conserves(
    s: Seq<Team>,
    home: Seq<char>,
    away: Seq<char>,
    hg: int,
    ag: int,
)
    requires
        distinct_names(s),
        contains_team(s, home),
        contains_team(s, away),
        home != away,
        update_safe(s, home, away, hg, ag),
    ensures
        ({
            let t = spec_table_update(s, home, away, hg, ag);
            let h0 = spec_get(s, home);
            let a0 = spec_get(s, away);
            let h1 = spec_get(t, home);
            let a1 = spec_get(t, away);
            &&& h1.goal_diff - h0.goal_diff == -(a1.goal_diff - a0.goal_diff)
            &&& (h1.pts - h0.pts) + (a1.pts - a0.pts) == (if hg == ag {
                2int
            } else {
                3int
            })
            &&& forall|i: int|
                0 <= i < s.len() && s[i].name@ != home && s[i].name@ != away ==> t[i] == s[i]
        }),
{
    let t = spec_table_update(s, home, away, hg, ag);
    let hi = team_index(s, home);
    let ai = team_index(s, away);
    let hw = choose|i: int| 0 <= i < s.len() && s[i].name@ == home;
    lemma_team_index(s, home, hw);
    let aw = choose|i: int| 0 <= i < s.len() && s[i].name@ == away;
    lemma_team_index(s, away, aw);
    assert(hi != ai);
    assert(t[hi] == spec_team_update(s[hi], hg - ag));
    assert(t[ai] == spec_team_update(s[ai], ag - hg));
    assert(t[hi].name@ == home && t[ai].name@ == away);
    assert forall|p: int, q: int| 0 <= p < q < t.len() implies t[p].name@ != t[q].name@ by {
        assert(s[p].name@ != s[q].name@);
    }
    lemma_team_index(t, home, hi);
    lemma_team_index(t, away, ai);
}

/// The table `s` after inserting `t` under its own name: an existing entry
/// with that name is replaced, otherwise the team is appended.
pub open spec fn spec_add(s: Seq<Team>, t: Team) -> Seq<Team> {
    if contains_team(s, t.name@) {
        s.update(team_index(s, t.name@), t)
    } else {
        s.push(t)
    }
}

/// All the overflow room one match needs: both teams can take 3 more
/// points, one more win, and the match goal differential.
pub open spec fn update_safe(s: Seq<Team>, home: Seq<char>, away: Seq<char>, hg: int, ag: int) -> bool {
    let h = spec_get(s, home);
    let a = spec_get(s, away);
    &&& i32::MIN <= hg - ag <= i32::MAX
    &&& i32::MIN <= ag - hg <= i32::MAX
    &&& i32::MIN <= h.goal_diff + (hg - ag) <= i32::MAX
    &&& h.pts + 3 <= u32::MAX
    &&& h.wins + 1 <= u32::MAX
    &&& i32::MIN <= a.goal_diff + (ag - hg) <= i32::MAX
    &&& a.pts + 3 <= u32::MAX
    &&& a.wins + 1 <= u32::MAX
}

/// A standings snapshot: one entry per team, names unique. Every simulation
/// run clones the authoritative table and mutates only its private clone.
#[derive(Debug)]
pub struct LeagueTable {
    pub teams: Vec<Team>,
}

impl View for LeagueTable {
    type V = Seq<Team>;

    open spec fn view(&self) -> Seq<Team> {
        self.teams@
    }
}

impl Clone for LeagueTable {
    fn clone(&self) -> (t: LeagueTable)
        ensures
            t@ == self@,
    {
        let copy = self.teams.clone();
        proof {
            assert forall|i: int| 0 <= i < self.teams@.len() implies copy@[i]
                == self.teams@[i] by {
                assert(cloned::<Team>(self.teams@[i], copy@[i]));
            }
            assert(copy@ =~= self.teams@);
        }
        LeagueTable { teams: copy }
    }
}

impl LeagueTable {
    /// The table is well formed: no two teams share a name.
    pub open spec fn wf(&self) -> bool {
        distinct_names(self@)
    }

    /// Create an empty table.
    pub fn new() -> (t: LeagueTable)
        ensures
            t@ == Seq::<Team>::empty(),
            t.wf(),
    {
        LeagueTable { teams: Vec::new() }
    }

    /// How many teams the table holds.
    pub fn len(&self) -> (n: usize)
        ensures
            n == self@.len(),
    {
        self.teams.len()
    }

    /// The position of the team called `name`, if the table has one.
    fn index_of(&self, name: &str) -> (r: Option<usize>)
        ensures
            match r {
                Some(i) => 0 <= i < self@.len() && self@[i as int].name@ == name@,
                None => !contains_team(self@, name@),
            },
            r is Some <==> contains_team(self@, name@),
    {
        let mut i: usize = 0;
        while i < self.teams.len()
            invariant
                i <= self@.len(),
                forall|j: int| 0 <= j < i ==> self@[j].name@ != name@,
            decreases self@.len() - i,
        {
            if str_eq(self.teams[i].name.as_str(), name) {
                return Some(i);
            }
            i = i + 1;
        }
        None
    }

    /// Borrow the team called `name`, if the table has one.
    pub fn get_team(&self, name: &str) -> (r: Option<&Team>)
        requires
            self.wf(),
        ensures
            r is Some <==> contains_team(self@, name@),
            match r {
                Some(t) => *t == spec_get(self@, name@) && t.name@ == name@,
                None => true,
            },
    {
        match self.index_of(name) {
            Some(i) => {
                proof {
                    lemma_team_index(self@, name@, i as int);
                }
                Some(&self.teams[i])
            },
            None => None,
        }
    }

    /// Insert a team built from raw standings data, replacing any previous
    /// entry of the same name.
    pub fn add_team(&mut self, name: String, pts: u32, goals_diff: i32)
        requires
            old(self).wf(),
        ensures
            final(self).wf(),
            final(self)@ == spec_add(
                old(self)@,
                (Team { name, pts, goal_diff: goals_diff, wins: 0 }),
            ),
    {
        let r = self.index_of(name.as_str());
        match r {
            Some(i) => {
                proof {
                    lemma_team_index(self@, name@, i as int);
                }
                self.teams.set(i, Team::new(name, pts, goals_diff));
                proof {
                    assert forall|p: int, q: int| 0 <= p < q < self@.len() implies self@[p].name@
                        != self@[q].name@ by {
                        assert(old(self)@[p].name@ != old(self)@[q].name@);
                    }
                }
            },
            None => {
                self.teams.push(Team::new(name, pts, goals_diff));
                proof {
                    assert forall|p: int, q: int| 0 <= p < q < self@.len() implies self@[p].name@
                        != self@[q].name@ by {
                        if q < old(self)@.len() {
                            assert(old(self)@[p].name@ != old(self)@[q].name@);
                        }
                    }
                }
            },
        }
    }

    /// Insert an externally built team under its own name, replacing any
    /// previous entry of that name. The key and the team's name must agree:
    /// the table is a map from team names to teams.
    pub fn add_team_struct(&mut self, name: String, team: Team)
        requires
            old(self).wf(),
            name@ == team.name@,
        ensures
            final(self).wf(),
            final(self)@ == spec_add(old(self)@, team),
    {
        let r = self.index_of(name.as_str());
        match r {
            Some(i) => {
                proof {
                    lemma_team_index(self@, name@, i as int);
                }
                self.teams.set(i, team);
                proof {
                    assert forall|p: int, q: int| 0 <= p < q < self@.len() implies self@[p].name@
                        != self@[q].name@ by {
                        assert(old(self)@[p].name@ != old(self)@[q].name@);
                    }
                }
            },
            None => {
                self.teams.push(team);
                proof {
                    assert forall|p: int, q: int| 0 <= p < q < self@.len() implies self@[p].name@
                        != self@[q].name@ by {
                        if q < old(self)@.len() {
                            assert(old(self)@[p].name@ != old(self)@[q].name@);
                        }
                    }
                }
            },
        }
    }

    /// Apply a simulated result to the two teams of a fixture: the home team
    /// takes the match goal differential as is, the away team takes its
    /// negation, and each then scores points by the update rule.
    pub fn update(&mut self, latest_match: &Match, home_goals: i32, away_goals: i32)
        requires
            old(self).wf(),
            contains_team(old(self)@, latest_match.home@),
            contains_team(old(self)@, latest_match.away@),
            latest_match.home@ != latest_match.away@,
            update_safe(
                old(self)@,
                latest_match.home@,
                latest_match.away@,
                home_goals as int,
                away_goals as int,
            ),
        ensures
            final(self).wf(),
            final(self)@ == spec_table_update(
                old(self)@,
                latest_match.home@,
                latest_match.away@,
                home_goals as int,
                away_goals as int,
            ),
    {
        let goal_diff = home_goals - away_goals;
        let hi = self.index_of(latest_match.home.as_str()).unwrap();
        let ai = self.index_of(latest_match.away.as_str()).unwrap();
        proof {
            lemma_team_index(self@, latest_match.home@, hi as int);
            lemma_team_index(self@, latest_match.away@, ai as int);
        }
        let mut home_team = self.teams[hi].clone();
        home_team.update(goal_diff);
        self.teams.set(hi, home_team);
        let mut away_team = self.teams[ai].clone();
        away_team.update(-goal_diff);
        self.teams.set(ai, away_team);
        proof {
            assert forall|p: int, q: int| 0 <= p < q < self@.len() implies self@[p].name@
                != self@[q].name@ by {
                assert(old(self)@[p].name@ != old(self)@[q].name@);
            }
        }
    }

    /// The teams in standings order, best first by points, then goal
    /// differential, with ties beyond that left in no particular order: the
    /// rows a rendered league table shows. The result holds exactly this
    /// table's teams.
    pub fn sorted_teams(&self) -> (v: Vec<Team>)
        ensures
            sorted_desc(v@),
            v@.to_multiset() == self@.to_multiset(),
            v@.len() == self@.len(),
    {
        let mut rest: Vec<Team> = self.teams.clone();
        proof {
            broadcast use vstd::seq_lib::group_to_multiset_ensures;

            assert forall|i: int| 0 <= i < self.teams@.len() implies rest@[i]
                == self.teams@[i] by {
                assert(cloned::<Team>(self.teams@[i], rest@[i]));
            }
            assert(rest@ =~= self.teams@);
        }
        let mut out: Vec<Team> = Vec::new();
        while rest.len() > 0
            invariant
                out@.to_multiset().add(rest@.to_multiset()) == self@.to_multiset(),
                out@.len() + rest@.len() == self@.len(),
                sorted_desc(out@),
                forall|i: int, j: int|
                    0 <= i < out@.len() && 0 <= j < rest@.len() ==> !beats(rest@[j], out@[i]),
            decreases rest@.len(),
        {
            let mut m: usize = 0;
            let mut k: usize = 1;
            while k < rest.len()
                invariant
                    m < k <= rest@.len(),
                    rest@.len() > 0,
                    forall|j: int| 0 <= j < k ==> !beats(rest@[j], rest@[m as int]),
                decreases rest@.len() - k,
            {
                let challenger_pts = rest[k].pts;
                let leader_pts = rest[m].pts;
                if challenger_pts > leader_pts || (challenger_pts == leader_pts
                    && rest[k].goal_diff > rest[m].goal_diff) {
                    m = k;
                }
                k = k + 1;
            }
            let ghost old_rest = rest@;
            let ghost old_out = out@;
            let picked = rest.remove(m);
            out.push(picked);
            proof {
                broadcast use vstd::seq_lib::group_to_multiset_ensures;

                assert(old_rest.contains(old_rest[m as int]));
                assert(rest@.to_multiset() =~= old_rest.to_multiset().remove(picked));
                assert(out@.to_multiset() =~= old_out.to_multiset().insert(picked));
                assert(out@.to_multiset().add(rest@.to_multiset()) =~= old_out.to_multiset().add(
                    old_rest.to_multiset(),
                ));
                assert forall|i: int, j: int|
                    0 <= i < out@.len() && 0 <= j < rest@.len() implies !beats(
                    rest@[j],
                    out@[i],
                ) by {
                    assert(rest@[j] == if j < m as int {
                        old_rest[j]
                    } else {
                        old_rest[j + 1]
                    });
                    if i < old_out.len() {
                        assert(out@[i] == old_out[i]);
                    } else {
                        assert(out@[i] == old_rest[m as int]);
                    }
                }
                assert forall|i: int, j: int| 0 <= i < j < out@.len() implies !beats(
                    out@[j],
                    out@[i],
                ) by {
                    if j < old_out.len() {
                    } else {
                        assert(out@[j] == old_rest[m as int]);
                        assert(old_rest.contains(old_rest[m as int]));
                    }
                }
            }
        }
        out
    }

    /// The rank the team called `desired_team` holds in this table: one more
    /// than the number of teams strictly ahead of it by points, then goal
    /// differential. Leaves the table unchanged.
    pub fn find_final_rank(&mut self, desired_team: &str) -> (rank: i32)
        requires
            old(self).wf(),
            contains_team(old(self)@, desired_team@),
            old(self)@.len() + 1 <= i32::MAX,
        ensures
            *final(self) == *old(self),
            rank == spec_rank(old(self)@, desired_team@),
            1 <= rank <= old(self)@.len(),
    {
        let ti = self.index_of(desired_team).unwrap();
        proof {
            lemma_team_index(self@, desired_team@, ti as int);
        }
        let ghost target = self@[ti as int];
        let target_pts = self.teams[ti].pts;
        let target_gd = self.teams[ti].goal_diff;
        let mut count: usize = 0;
        let mut i: usize = 0;
        while i < self.teams.len()
            invariant
                i <= self@.len(),
                count == count_ahead_to(self@, target, i as int),
                count <= i,
                target == self@[ti as int],
                target_pts == target.pts,
                target_gd == target.goal_diff,
                ti < self@.len(),
            decreases self@.len() - i,
        {
            let t_pts = self.teams[i].pts;
            let t_gd = self.teams[i].goal_diff;
            if t_pts > target_pts || (t_pts == target_pts && t_gd > target_gd) {
                count = count + 1;
            }
            i = i + 1;
        }
        proof {
            lemma_count_ahead_member(self@, target, self@.len() as int, ti as int);
        }
        (count + 1) as i32
    }
}

/// The teams stand best first: no later team beats an earlier one.
pub open spec fn sorted_desc(s: Seq<Team>) -> bool {
    forall|i: int, j: int| 0 <= i < j < s.len() ==> !beats(s[j], s[i])
}

/// Whether two string slices read the same.
pub(crate) fn str_eq(a: &str, b: &str) -> (r: bool)
    ensures
        r == (a@ == b@),
{
    let s1: String = a.to_owned();
    let s2: String = b.to_owned();
    s1 == s2
}

} // verus!
