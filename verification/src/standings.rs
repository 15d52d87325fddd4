//! Team standings: the metrics teams are ranked by, the brackets of tied
//! teams, and the rank numbers recorded for them.
use vstd::prelude::*;
use crate::participants::Team;
use crate::seqs::{first_match, lemma_first_match_at, chunk_by_key, lemma_chunk_by_key_shape, last_match, lemma_last_match_at, lemma_last_match_none, lemma_chunk_append_block};

verus! {

/// A metric teams can be ranked by.
#[derive(Debug, Copy, Clone, PartialEq, Eq, Structural)]
pub enum RankableTeamMetric {
    Wins,
    NTimesAchieved(u8),
    TotalSpeakerScore,
    DrawStrengthByWins,
    AverageTotalSpeakerScore,
    Ballots,
    DrawStrengthBySpeaks,
}

/// A metric used only to choose which teams are pulled up.
#[derive(Debug, Copy, Clone, PartialEq, Eq, Structural)]
pub enum UnrankableTeamMetric {
    DrawStrengthByRank,
}

/// How a team is chosen to be pulled up into a higher bracket.
#[derive(Debug, Copy, Clone, PartialEq, Eq, Structural)]
pub enum PullupMetric {
    LowestRank,
    HighestRank,
    Random,
    FewerPreviousPullups,
    LowestDsRank,
    LowestDsSpeaks,
}

/// The value of a metric: a whole number, or a decimal held in hundredths.
#[derive(Debug, Copy, Clone, PartialEq, Eq, Structural)]
pub enum MetricValue {
    Integer(i64),
    Float(i64),
}

/// A metric as it is stored.
#[derive(Debug, Copy, Clone, PartialEq, Eq, Structural)]
pub enum SerializableMetric {
    Rankable(RankableTeamMetric),
    NonRankable(UnrankableTeamMetric),
}

/// The metrics of each team and the teams ranked into brackets of tied
/// teams, best first.
pub struct TeamStandings {
    pub metrics: Vec<RankableTeamMetric>,
    pub ranked_metrics_of_team: Vec<(String, Vec<(RankableTeamMetric, MetricValue)>)>,
    pub pullup_metrics: Vec<((String, UnrankableTeamMetric), MetricValue)>,
    pub ranked: Vec<Vec<Team>>,
}

/// For each team, the number of times it has held each position of a
/// debate, in position order.
pub struct TeamHistory(pub Vec<(String, Vec<usize>)>);

/// Whether an entry of metrics is for team `t`.
pub open spec fn metrics_entry_for(t: Seq<char>) -> spec_fn((String, Vec<(RankableTeamMetric, MetricValue)>)) -> bool {
    |e: (String, Vec<(RankableTeamMetric, MetricValue)>)| e.0@ == t
}

/// Whether a metric is a whole number of wins.
pub open spec fn is_integer_wins() -> spec_fn((RankableTeamMetric, MetricValue)) -> bool {
    |m: (RankableTeamMetric, MetricValue)| m.0 == RankableTeamMetric::Wins && m.1 is Integer
}

/// The wins of team `t`: its first metric that is a whole number of wins,
/// among the metrics of its first entry.
pub open spec fn wins_of(s: TeamStandings, t: Seq<char>) -> Option<i64> {
    match first_match(s.ranked_metrics_of_team@, metrics_entry_for(t)) {
        Some(e) => match first_match(e.1@, is_integer_wins()) {
            Some(m) => Some(m.1->Integer_0),
            None => None,
        },
        None => None,
    }
}

impl TeamStandings {
    /// The number of wins of a team, where the standings record it.
    pub fn points_of_team(&self, team: &String) -> (r: Option<i64>)
        ensures
            r == wins_of(*self, team@),
    {
        let mut i: usize = 0;
        while i < self.ranked_metrics_of_team.len()
            invariant
                i <= self.ranked_metrics_of_team.len(),
                forall|j: int| 0 <= j < i ==> !metrics_entry_for(team@)(#[trigger] self.ranked_metrics_of_team@[j]),
            decreases self.ranked_metrics_of_team.len() - i,
        {
            if self.ranked_metrics_of_team[i].0 == *team {
                proof {
                    lemma_first_match_at(self.ranked_metrics_of_team@, metrics_entry_for(team@), i as int);
                }
                let metrics = &self.ranked_metrics_of_team[i].1;
                let mut k: usize = 0;
                while k < metrics.len()
                    invariant
                        k <= metrics.len(),
                        *metrics == self.ranked_metrics_of_team@[i as int].1,
                        first_match(self.ranked_metrics_of_team@, metrics_entry_for(team@)) == Some(
                            self.ranked_metrics_of_team@[i as int],
                        ),
                        forall|j: int| 0 <= j < k ==> !is_integer_wins()(#[trigger] metrics@[j]),
                    decreases metrics.len() - k,
                {
                    match metrics[k] {
                        (RankableTeamMetric::Wins, MetricValue::Integer(p)) => {
                            proof {
                                lemma_first_match_at(metrics@, is_integer_wins(), k as int);
                            }
                            return Some(p);
                        },
                        _ => {},
                    }
                    k = k + 1;
                }
                proof {
                    lemma_first_match_at(metrics@, is_integer_wins(), k as int);
                }
                return None;
            }
            i = i + 1;
        }
        proof {
            lemma_first_match_at(self.ranked_metrics_of_team@, metrics_entry_for(team@), i as int);
        }
        None
    }
}

} // verus!

verus! {

/// The brackets of the standings as sequences.
pub open spec fn brackets(ranked: Seq<Vec<Team>>) -> Seq<Seq<Team>> {
    ranked.map_values(|v: Vec<Team>| v@)
}

/// The number of teams in the brackets.
pub open spec fn team_count(ranked: Seq<Seq<Team>>) -> int
    decreases ranked.len(),
{
    if ranked.len() == 0 {
        0
    } else {
        team_count(ranked.drop_last()) + ranked.last().len()
    }
}

/// The rank rows of the brackets: each team of a bracket gets one more than
/// the number of teams in the brackets before it (so tied teams share a
/// rank, and the next rank skips the places they take).
pub open spec fn rank_rows_of(ranked: Seq<Seq<Team>>) -> Seq<(Seq<char>, int)>
    decreases ranked.len(),
{
    if ranked.len() == 0 {
        seq![]
    } else {
        rank_rows_of(ranked.drop_last()) + ranked.last().map_values(
            |t: Team| (t.id@, 1 + team_count(ranked.drop_last())),
        )
    }
}

/// The views of stored rank rows.
pub open spec fn row_views(rows: Seq<(String, i64)>) -> Seq<(Seq<char>, int)> {
    rows.map_values(|r: (String, i64)| (r.0@, r.1 as int))
}

proof fn lemma_team_count_nonneg(ranked: Seq<Seq<Team>>)
    ensures
        team_count(ranked) >= 0,
    decreases ranked.len(),
{
    if ranked.len() > 0 {
        lemma_team_count_nonneg(ranked.drop_last());
    }
}

proof fn lemma_team_count_prefix(ranked: Seq<Seq<Team>>, k: int)
    requires
        0 <= k <= ranked.len(),
    ensures
        team_count(ranked.take(k)) <= team_count(ranked),
    decreases ranked.len(),
{
    if k < ranked.len() {
        assert(ranked.drop_last().take(k) =~= ranked.take(k));
        lemma_team_count_prefix(ranked.drop_last(), k);
    } else {
        assert(ranked.take(k) =~= ranked);
    }
}

impl TeamStandings {
    /// The rank each team is recorded with (see `rank_rows_of`), bracket by
    /// bracket in order.
    pub fn rank_rows(&self) -> (r: Vec<(String, i64)>)
        requires
            team_count(brackets(self.ranked@)) + 1 <= i64::MAX,
        ensures
            row_views(r@) == rank_rows_of(brackets(self.ranked@)),
    {
        let mut out: Vec<(String, i64)> = Vec::new();
        let mut n: u64 = 1;
        let mut b: usize = 0;
        let ghost all = brackets(self.ranked@);
        proof {
            lemma_team_count_nonneg(all);
        }
        while b < self.ranked.len()
            invariant
                b <= self.ranked.len(),
                all == brackets(self.ranked@),
                team_count(all) + 1 <= i64::MAX,
                n == 1 + team_count(all.take(b as int)),
                row_views(out@) == rank_rows_of(all.take(b as int)),
            decreases self.ranked.len() - b,
        {
            let bracket = &self.ranked[b];
            proof {
                assert(all.take(b as int + 1).drop_last() =~= all.take(b as int));
                assert(all.take(b as int + 1).last() == bracket@);
                lemma_team_count_prefix(all, b as int + 1);
            }
            let ghost base = out@;
            let mut i: usize = 0;
            while i < bracket.len()
                invariant
                    i <= bracket.len(),
                    n == 1 + team_count(all.take(b as int)),
                    n <= i64::MAX,
                    row_views(base) == rank_rows_of(all.take(b as int)),
                    row_views(out@) == row_views(base) + bracket@.take(i as int).map_values(
                        |t: Team| (t.id@, 1 + team_count(all.take(b as int))),
                    ),
                decreases bracket.len() - i,
            {
                let ghost prev = out@;
                out.push((bracket[i].id.clone(), n as i64));
                proof {
                    let f = |t: Team| (t.id@, 1 + team_count(all.take(b as int)));
                    assert(bracket@.take(i as int + 1).map_values(f) =~= bracket@.take(i as int).map_values(f).push(
                        f(bracket@[i as int]),
                    ));
                    assert(row_views(out@) =~= row_views(prev).push((bracket@[i as int].id@, n as int)));
                    assert(row_views(out@) =~= row_views(base) + bracket@.take(i as int + 1).map_values(f));
                }
                i = i + 1;
            }
            assert(bracket@.take(bracket.len() as int) =~= bracket@);
            assert(row_views(out@) =~= rank_rows_of(all.take(b as int + 1)));
            proof {
                lemma_team_count_prefix(all, b as int + 1);
                assert(all.take(b as int + 1).drop_last() =~= all.take(b as int));
                assert(all[b as int] == bracket@);
                assert(all.take(b as int + 1).last() == bracket@);
            }
            assert(team_count(all.take(b as int + 1)) == team_count(all.take(b as int)) + bracket@.len());
            n = n + bracket.len() as u64;
            b = b + 1;
        }
        assert(all.take(self.ranked.len() as int) =~= all);
        out
    }
}

} // verus!

verus! {

/// Whether a team has the given identifier.
pub open spec fn team_id_is(id: Seq<char>) -> spec_fn(Team) -> bool {
    |t: Team| t.id@ == id
}

/// The team a directory of teams gives for an identifier: the last team
/// listed with it (as a map collected from the list keeps the last).
pub open spec fn directory_team(teams: Seq<Team>, id: Seq<char>) -> Option<Team> {
    last_match(teams, team_id_is(id))
}

/// The rank of a rank row, as the key rows are grouped by.
pub open spec fn rank_key() -> spec_fn((Seq<char>, int)) -> int {
    |r: (Seq<char>, int)| r.1
}

/// The brackets read back from rank rows: adjacent rows of equal rank form a
/// bracket, and each row's team is found in the directory.
pub open spec fn grouped_teams(rows: Seq<(Seq<char>, int)>, teams: Seq<Team>) -> Seq<Seq<Team>> {
    chunk_by_key(rows, rank_key()).map_values(
        |c: Seq<(Seq<char>, int)>| c.map_values(|r: (Seq<char>, int)| directory_team(teams, r.0)->0),
    )
}

fn directory_lookup(teams: &Vec<Team>, id: &String) -> (r: Team)
    requires
        directory_team(teams@, id@) is Some,
    ensures
        directory_team(teams@, id@) == Some(r),
{
    let mut i: usize = teams.len();
    while i > 0
        invariant
            i <= teams.len(),
            directory_team(teams@, id@) is Some,
            forall|j: int| i <= j < teams@.len() ==> !team_id_is(id@)(#[trigger] teams@[j]),
        decreases i,
    {
        if teams[i - 1].id == *id {
            proof {
                lemma_last_match_at(teams@, team_id_is(id@), i - 1);
            }
            return teams[i - 1].clone();
        }
        i = i - 1;
    }
    proof {
        lemma_last_match_none(teams@, team_id_is(id@));
    }
    teams[0].clone()
}

impl TeamStandings {
    /// The brackets read back from stored rank rows, in the stored order
    /// (see `grouped_teams`).
    pub fn brackets_of_rankings(rows: &Vec<(String, i64)>, teams: &Vec<Team>) -> (r: Vec<Vec<Team>>)
        requires
            forall|i: int| 0 <= i < rows@.len() ==> directory_team(teams@, (#[trigger] rows@[i]).0@) is Some,
        ensures
            brackets(r@) == grouped_teams(row_views(rows@), teams@),
    {
        let mut out: Vec<Vec<Team>> = Vec::new();
        let ghost g = |c: Seq<(Seq<char>, int)>| c.map_values(|r: (Seq<char>, int)| directory_team(teams@, r.0)->0);
        let mut i: usize = 0;
        while i < rows.len()
            invariant
                i <= rows.len(),
                forall|k: int| 0 <= k < rows@.len() ==> directory_team(teams@, (#[trigger] rows@[k]).0@) is Some,
                g == |c: Seq<(Seq<char>, int)>| c.map_values(|r: (Seq<char>, int)| directory_team(teams@, r.0)->0),
                brackets(out@) == chunk_by_key(row_views(rows@.take(i as int)), rank_key()).map_values(g),
            decreases rows.len() - i,
        {
            let ghost prefix = row_views(rows@.take(i as int));
            let ghost chunks = chunk_by_key(prefix, rank_key());
            let ghost v = (rows@[i as int].0@, rows@[i as int].1 as int);
            proof {
                assert(row_views(rows@.take(i as int + 1)) =~= prefix.push(v));
                assert(prefix.push(v).drop_last() =~= prefix);
                lemma_chunk_by_key_shape(prefix, rank_key());
                if i > 0 {
                    assert(prefix.last() == (rows@[i - 1].0@, rows@[i - 1].1 as int));
                }
            }
            assert(directory_team(teams@, rows@[i as int].0@) is Some);
            let team = directory_lookup(teams, &rows[i].0);
            let joins = i > 0 && rows[i - 1].1 == rows[i].1;
            let ghost before = brackets(out@);
            assert(before.len() == out@.len());
            assert(before == chunks.map_values(g));
            if joins {
                assert(chunks.len() > 0);
                let ghost out0 = out@;
                let mut last = out.pop().unwrap();
                last.push(team);
                out.push(last);
                proof {
                    let c2 = chunks.update(chunks.len() - 1, chunks.last().push(v));
                    assert(chunk_by_key(prefix.push(v), rank_key()) == c2);
                    assert(g(chunks.last().push(v)) =~= g(chunks.last()).push(team));
                    assert(before.last() == g(chunks.last()));
                    assert(out0.last()@ == before.last());
                    assert(out@ == out0.drop_last().push(last));
                    assert forall|k: int| 0 <= k < out@.len() implies #[trigger] brackets(out@)[k] == c2.map_values(g)[k] by {
                        if k < out@.len() - 1 {
                            assert(out@[k] == out0[k]);
                            assert(brackets(out0)[k] == before[k]);
                        }
                    }
                    assert(brackets(out@) =~= c2.map_values(g));
                }
            } else {
                let mut bracket: Vec<Team> = Vec::new();
                bracket.push(team);
                let ghost out0 = out@;
                out.push(bracket);
                proof {
                    let c2 = chunks.push(seq![v]);
                    assert(chunk_by_key(prefix.push(v), rank_key()) == c2);
                    assert(g(seq![v]) =~= seq![team]);
                    assert forall|k: int| 0 <= k < out@.len() implies #[trigger] brackets(out@)[k] == c2.map_values(g)[k] by {
                        if k < out@.len() - 1 {
                            assert(out@[k] == out0[k]);
                            assert(brackets(out0)[k] == before[k]);
                        }
                    }
                    assert(brackets(out@) =~= c2.map_values(g));
                }
            }
            i = i + 1;
        }
        assert(rows@.take(rows.len() as int) =~= rows@);
        out
    }
}

} // verus!

verus! {

proof fn lemma_rank_rows_shape(ranked: Seq<Seq<Team>>)
    requires
        forall|b: int| 0 <= b < ranked.len() ==> (#[trigger] ranked[b]).len() > 0,
    ensures
        ranked.len() > 0 ==> rank_rows_of(ranked).len() > 0 && rank_rows_of(ranked).last().1 == 1 + team_count(
            ranked.drop_last(),
        ),
        ranked.len() > 0 ==> 1 + team_count(ranked.drop_last()) <= team_count(ranked),
    decreases ranked.len(),
{
    if ranked.len() > 0 {
        let last = ranked.last();
        assert(last.len() > 0);
        let f = |t: Team| (t.id@, 1 + team_count(ranked.drop_last()));
        let block = last.map_values(f);
        assert((rank_rows_of(ranked.drop_last()) + block).last() == block[block.len() - 1]);
    }
}

/// Reading back the rank rows recorded for the standings gives the same
/// brackets: where every bracket holds a team and the directory finds each
/// team by its identifier, grouping `rank_rows_of` the brackets returns
/// them.
pub proof fn lemma_rank_rows_roundtrip(ranked: Seq<Seq<Team>>, teams: Seq<Team>)
    requires
        forall|b: int| 0 <= b < ranked.len() ==> (#[trigger] ranked[b]).len() > 0,
        forall|b: int, i: int|
            0 <= b < ranked.len() && 0 <= i < ranked[b].len() ==> directory_team(teams, (#[trigger] ranked[b][i]).id@)
                == Some(ranked[b][i]),
    ensures
        grouped_teams(rank_rows_of(ranked), teams) == ranked,
    decreases ranked.len(),
{
    if ranked.len() == 0 {
        assert(grouped_teams(rank_rows_of(ranked), teams) =~= ranked);
    } else {
        let init = ranked.drop_last();
        let last = ranked.last();
        assert forall|b: int| 0 <= b < init.len() implies (#[trigger] init[b]).len() > 0 by {
            assert(init[b] == ranked[b]);
        }
        assert forall|b: int, i: int|
            0 <= b < init.len() && 0 <= i < init[b].len() implies directory_team(teams, (#[trigger] init[b][i]).id@)
                == Some(init[b][i]) by {
            assert(init[b] == ranked[b]);
        }
        lemma_rank_rows_roundtrip(init, teams);
        lemma_rank_rows_shape(init);
        lemma_rank_rows_shape(ranked);
        let a = rank_rows_of(init);
        let f = |t: Team| (t.id@, 1 + team_count(init));
        let block = last.map_values(f);
        assert(last.len() > 0);
        assert forall|i: int| 0 <= i < block.len() implies rank_key()(#[trigger] block[i]) == rank_key()(block[0]) by {
        }
        if a.len() > 0 {
            assert(init.len() > 0);
            lemma_team_count_nonneg(init.drop_last());
        }
        lemma_chunk_append_block(a, block, rank_key());
        let g = |c: Seq<(Seq<char>, int)>| c.map_values(|r: (Seq<char>, int)| directory_team(teams, r.0)->0);
        assert(g(block) =~= last) by {
            assert forall|i: int| 0 <= i < last.len() implies #[trigger] g(block)[i] == last[i] by {
                assert(directory_team(teams, ranked[ranked.len() - 1][i].id@) == Some(ranked[ranked.len() - 1][i]));
            }
        }
        assert(chunk_by_key(a, rank_key()).push(block).map_values(g) =~= chunk_by_key(a, rank_key()).map_values(g).push(
            g(block),
        ));
        assert(grouped_teams(rank_rows_of(ranked), teams) =~= ranked);
    }
}

} // verus!

verus! {

/// The order of metric values: whole numbers before decimals, and values
/// of a kind by size (the order in which the values compare).
pub open spec fn value_le(a: MetricValue, b: MetricValue) -> bool {
    match (a, b) {
        (MetricValue::Integer(x), MetricValue::Integer(y)) => x <= y,
        (MetricValue::Integer(_), MetricValue::Float(_)) => true,
        (MetricValue::Float(_), MetricValue::Integer(_)) => false,
        (MetricValue::Float(x), MetricValue::Float(y)) => x <= y,
    }
}

/// The order of lists of metric values: by their first differing value, a
/// list before any longer list it begins.
pub open spec fn values_le(a: Seq<MetricValue>, b: Seq<MetricValue>) -> bool
    decreases a.len(),
{
    if a.len() == 0 {
        true
    } else if b.len() == 0 {
        false
    } else if a[0] == b[0] {
        values_le(a.drop_first(), b.drop_first())
    } else {
        value_le(a[0], b[0])
    }
}

/// The key a team is ranked by: its metric values, in order, where it has
/// an entry; a team without one has the lowest key.
pub type RankKey = Option<Seq<MetricValue>>;

/// The order of ranking keys.
pub open spec fn key_le(a: RankKey, b: RankKey) -> bool {
    match (a, b) {
        (None, _) => true,
        (Some(_), None) => false,
        (Some(x), Some(y)) => values_le(x, y),
    }
}

/// The order in which teams are ranked: `a` ranks no later than `b` where
/// its key comes no earlier in the order of keys (best first).
pub open spec fn rank_le(a: RankKey, b: RankKey) -> bool {
    key_le(b, a)
}

/// The values of a list of metrics.
pub open spec fn metric_values(ms: Seq<(RankableTeamMetric, MetricValue)>) -> Seq<MetricValue> {
    ms.map_values(|m: (RankableTeamMetric, MetricValue)| m.1)
}

/// The key of a team: the values of its first entry of metrics.
pub open spec fn team_key(entries: Seq<(String, Vec<(RankableTeamMetric, MetricValue)>)>, id: Seq<char>) -> RankKey {
    match first_match(entries, metrics_entry_for(id)) {
        Some(e) => Some(metric_values(e.1@)),
        None => None,
    }
}

/// The teams, each with its key.
pub open spec fn keyed(
    teams: Seq<Team>,
    entries: Seq<(String, Vec<(RankableTeamMetric, MetricValue)>)>,
) -> Seq<(Team, RankKey)> {
    teams.map_values(|t: Team| (t, team_key(entries, t.id@)))
}

/// `x` put after the last item that ranks no later than it.
pub open spec fn insert_keyed(r: Seq<(Team, RankKey)>, x: (Team, RankKey)) -> Seq<(Team, RankKey)>
    decreases r.len(),
{
    if r.len() == 0 {
        seq![x]
    } else if rank_le(r.last().1, x.1) {
        r.push(x)
    } else {
        insert_keyed(r.drop_last(), x).push(r.last())
    }
}

/// The items in rank order (highest key first), items of equal keys in
/// their order.
pub open spec fn sort_keyed(s: Seq<(Team, RankKey)>) -> Seq<(Team, RankKey)>
    decreases s.len(),
{
    if s.len() == 0 {
        seq![]
    } else {
        insert_keyed(sort_keyed(s.drop_last()), s.last())
    }
}

/// The teams of the items, in runs of equal keys.
pub open spec fn group_keyed(s: Seq<(Team, RankKey)>) -> Seq<Seq<Team>>
    decreases s.len(),
{
    if s.len() == 0 {
        seq![]
    } else {
        let g = group_keyed(s.drop_last());
        if s.len() > 1 && s[s.len() - 2].1 == s.last().1 {
            g.update(g.len() - 1, g.last().push(s.last().0))
        } else {
            g.push(seq![s.last().0])
        }
    }
}

/// The views of brackets of teams.
pub open spec fn bracket_seqs(ranked: Seq<Vec<Team>>) -> Seq<Seq<Team>> {
    ranked.map_values(|b: Vec<Team>| b@)
}

/// Whether the values of list `a` come no later than those of `b`.
fn values_le_exec(a: &Vec<MetricValue>, b: &Vec<MetricValue>) -> (r: bool)
    ensures
        r == values_le(a@, b@),
{
    let mut i: usize = 0;
    proof {
        assert(a@.skip(0) =~= a@);
        assert(b@.skip(0) =~= b@);
    }
    while i < a.len() && i < b.len()
        invariant
            i <= a@.len(),
            i <= b@.len(),
            values_le(a@, b@) == values_le(a@.skip(i as int), b@.skip(i as int)),
        decreases a@.len() - i,
    {
        proof {
            assert(a@.skip(i as int)[0] == a@[i as int]);
            assert(b@.skip(i as int)[0] == b@[i as int]);
        }
        if a[i] != b[i] {
            return match (a[i], b[i]) {
                (MetricValue::Integer(x), MetricValue::Integer(y)) => x <= y,
                (MetricValue::Integer(_), MetricValue::Float(_)) => true,
                (MetricValue::Float(_), MetricValue::Integer(_)) => false,
                (MetricValue::Float(x), MetricValue::Float(y)) => x <= y,
            };
        }
        proof {
            assert(a@.skip(i as int).drop_first() =~= a@.skip(i as int + 1));
            assert(b@.skip(i as int).drop_first() =~= b@.skip(i as int + 1));
        }
        i = i + 1;
    }
    proof {
        if i == a.len() {
            assert(a@.skip(i as int).len() == 0);
        } else {
            assert(b@.skip(i as int).len() == 0);
        }
    }
    i == a.len()
}

/// Whether key `a` comes no later than key `b`.
fn key_le_exec(a: &Option<Vec<MetricValue>>, b: &Option<Vec<MetricValue>>) -> (r: bool)
    ensures
        r == key_le(key_view(*a), key_view(*b)),
{
    match (a, b) {
        (None, _) => true,
        (Some(_), None) => false,
        (Some(x), Some(y)) => values_le_exec(x, y),
    }
}

/// The view of a key.
pub open spec fn key_view(k: Option<Vec<MetricValue>>) -> RankKey {
    match k {
        Some(v) => Some(v@),
        None => None,
    }
}

/// Whether two keys are equal.
fn key_eq_exec(a: &Option<Vec<MetricValue>>, b: &Option<Vec<MetricValue>>) -> (r: bool)
    ensures
        r == (key_view(*a) == key_view(*b)),
{
    match (a, b) {
        (None, None) => true,
        (Some(x), Some(y)) => {
            if x.len() != y.len() {
                proof {
                    assert(x@.len() != y@.len());
                }
                return false;
            }
            let mut i: usize = 0;
            while i < x.len()
                invariant
                    x@.len() == y@.len(),
                    key_view(*a) == Some(x@),
                    key_view(*b) == Some(y@),
                    i <= x@.len(),
                    forall|j: int| 0 <= j < i ==> x@[j] == y@[j],
                decreases x@.len() - i,
            {
                if x[i] != y[i] {
                    proof {
                        assert(x@[i as int] != y@[i as int]);
                        assert(x@ != y@);
                    }
                    return false;
                }
                i = i + 1;
            }
            proof {
                assert(x@ =~= y@);
            }
            true
        },
        _ => false,
    }
}

/// The key of a team, read from the entries of metrics.
fn team_key_exec(entries: &Vec<(String, Vec<(RankableTeamMetric, MetricValue)>)>, id: &String) -> (r: Option<Vec<MetricValue>>)
    ensures
        key_view(r) == team_key(entries@, id@),
{
    let mut i: usize = 0;
    while i < entries.len()
        invariant
            i <= entries@.len(),
            forall|j: int| 0 <= j < i ==> !metrics_entry_for(id@)(#[trigger] entries@[j]),
        decreases entries@.len() - i,
    {
        if entries[i].0 == *id {
            proof {
                lemma_first_match_at(entries@, metrics_entry_for(id@), i as int);
            }
            let ms = &entries[i].1;
            let mut values: Vec<MetricValue> = Vec::new();
            let mut k: usize = 0;
            while k < ms.len()
                invariant
                    k <= ms@.len(),
                    values@ == metric_values(ms@).take(k as int),
                decreases ms@.len() - k,
            {
                values.push(ms[k].1);
                proof {
                    assert(metric_values(ms@).take(k as int + 1) =~= metric_values(ms@).take(k as int).push(ms@[k as int].1));
                }
                k = k + 1;
            }
            proof {
                assert(metric_values(ms@).take(ms@.len() as int) =~= metric_values(ms@));
            }
            return Some(values);
        }
        i = i + 1;
    }
    proof {
        lemma_first_match_at(entries@, metrics_entry_for(id@), i as int);
    }
    None
}

proof fn lemma_insert_keyed_at(r: Seq<(Team, RankKey)>, x: (Team, RankKey), j: int)
    requires
        0 <= j <= r.len(),
        j == 0 || rank_le(r[j - 1].1, x.1),
        forall|k: int| j <= k < r.len() ==> !rank_le(#[trigger] r[k].1, x.1),
    ensures
        insert_keyed(r, x) == r.take(j) + seq![x] + r.skip(j),
    decreases r.len(),
{
    if r.len() == 0 {
        assert(r.take(j) + seq![x] + r.skip(j) =~= seq![x]);
    } else if j == r.len() {
        assert(r.take(j) + seq![x] + r.skip(j) =~= r.push(x));
    } else {
        let d = r.drop_last();
        assert forall|k: int| j <= k < d.len() implies !rank_le(#[trigger] d[k].1, x.1) by {
            assert(d[k] == r[k]);
        }
        lemma_insert_keyed_at(d, x, j);
        assert(d.take(j) + seq![x] + d.skip(j) + seq![r.last()] =~= r.take(j) + seq![x] + r.skip(j));
    }
}

/// The views of keyed teams.
pub open spec fn keyed_views(v: Seq<(Team, Option<Vec<MetricValue>>)>) -> Seq<(Team, RankKey)> {
    v.map_values(|p: (Team, Option<Vec<MetricValue>>)| (p.0, key_view(p.1)))
}

impl TeamStandings {
    /// Ranks teams by their metrics, best first: the teams in descending
    /// order of their keys (their metric values, in the order of the
    /// metrics; teams without metrics last), teams of equal keys in their
    /// given order, in runs of teams with equal keys.
    pub fn rank_teams(
        teams: Vec<Team>,
        ranked_metrics_of_team: &Vec<(String, Vec<(RankableTeamMetric, MetricValue)>)>,
    ) -> (r: Vec<Vec<Team>>)
        ensures
            bracket_seqs(r@) == group_keyed(sort_keyed(keyed(teams@, ranked_metrics_of_team@))),
    {
        let ghost ks = keyed(teams@, ranked_metrics_of_team@);
        let mut sorted: Vec<(Team, Option<Vec<MetricValue>>)> = Vec::new();
        let mut i: usize = 0;
        while i < teams.len()
            invariant
                i <= teams@.len(),
                ks == keyed(teams@, ranked_metrics_of_team@),
                keyed_views(sorted@) == sort_keyed(ks.take(i as int)),
            decreases teams@.len() - i,
        {
            let team = teams[i].clone();
            let key = team_key_exec(ranked_metrics_of_team, &team.id);
            let ghost vx = (team, key_view(key));
            proof {
                assert(vx == ks[i as int]);
            }
            let mut j: usize = sorted.len();
            loop
                invariant
                    j <= sorted@.len(),
                    keyed_views(sorted@) == sort_keyed(ks.take(i as int)),
                    vx == (team, key_view(key)),
                    forall|k: int| j <= k < sorted@.len() ==> !rank_le(#[trigger] key_view(sorted@[k].1), vx.1),
                ensures
                    j <= sorted@.len(),
                    j == 0 || rank_le(key_view(sorted@[j - 1].1), vx.1),
                    forall|k: int| j <= k < sorted@.len() ==> !rank_le(#[trigger] key_view(sorted@[k].1), vx.1),
                decreases j,
            {
                if j == 0 {
                    break;
                }
                if key_le_exec(&key, &sorted[j - 1].1) {
                    break;
                }
                j = j - 1;
            }
            let ghost before = keyed_views(sorted@);
            proof {
                assert forall|k: int| j <= k < before.len() implies !rank_le(#[trigger] before[k].1, vx.1) by {
                    assert(before[k] == (sorted@[k].0, key_view(sorted@[k].1)));
                }
                if j > 0 {
                    assert(before[j - 1] == (sorted@[j - 1].0, key_view(sorted@[j - 1].1)));
                }
                lemma_insert_keyed_at(before, vx, j as int);
                assert(ks.take(i as int + 1).drop_last() =~= ks.take(i as int));
                assert(ks.take(i as int + 1).last() == vx);
            }
            sorted.insert(j, (team, key));
            proof {
                assert(keyed_views(sorted@) =~= before.take(j as int) + seq![vx] + before.skip(j as int));
            }
            i = i + 1;
        }
        proof {
            assert(ks.take(teams@.len() as int) =~= ks);
        }
        let ghost sv = keyed_views(sorted@);
        let mut groups: Vec<Vec<Team>> = Vec::new();
        let mut k: usize = 0;
        while k < sorted.len()
            invariant
                k <= sorted@.len(),
                sv == keyed_views(sorted@),
                bracket_seqs(groups@) == group_keyed(sv.take(k as int)),
            decreases sorted@.len() - k,
        {
            let ghost prev = sv.take(k as int);
            let ghost before = groups@;
            proof {
                assert(sv.take(k as int + 1).drop_last() =~= prev);
                assert(sv.take(k as int + 1).last() == sv[k as int]);
                assert(sv[k as int] == (sorted@[k as int].0, key_view(sorted@[k as int].1)));
                if k > 0 {
                    assert(sv.take(k as int + 1)[k - 1] == sv[k - 1]);
                    assert(sv[k - 1] == (sorted@[k - 1].0, key_view(sorted@[k - 1].1)));
                }
            }
            let same = k > 0 && key_eq_exec(&sorted[k - 1].1, &sorted[k].1);
            let team = sorted[k].0.clone();
            if same {
                proof {
                    lemma_group_keyed_nonempty(prev);
                    assert(bracket_seqs(groups@).len() == groups@.len());
                }
                let last = groups.len() - 1;
                let mut g = groups.remove(last);
                g.push(team);
                groups.push(g);
                proof {
                    assert(bracket_seqs(groups@) =~= bracket_seqs(before).update(
                        bracket_seqs(before).len() - 1,
                        bracket_seqs(before).last().push(sv[k as int].0),
                    ));
                }
            } else {
                let mut g: Vec<Team> = Vec::new();
                g.push(team);
                groups.push(g);
                proof {
                    assert(bracket_seqs(groups@) =~= bracket_seqs(before).push(seq![sv[k as int].0]));
                }
            }
            k = k + 1;
        }
        proof {
            assert(sv.take(sorted@.len() as int) =~= sv);
        }
        groups
    }
}

proof fn lemma_group_keyed_nonempty(s: Seq<(Team, RankKey)>)
    requires
        s.len() > 0,
    ensures
        group_keyed(s).len() > 0,
    decreases s.len(),
{
    if s.len() > 1 {
        lemma_group_keyed_nonempty(s.drop_last());
    }
}

} // verus!

verus! {

proof fn lemma_values_le_total(a: Seq<MetricValue>, b: Seq<MetricValue>)
    ensures
        values_le(a, b) || values_le(b, a),
    decreases a.len(),
{
    if a.len() > 0 && b.len() > 0 && a[0] == b[0] {
        lemma_values_le_total(a.drop_first(), b.drop_first());
    }
}

proof fn lemma_values_le_transitive(a: Seq<MetricValue>, b: Seq<MetricValue>, c: Seq<MetricValue>)
    requires
        values_le(a, b),
        values_le(b, c),
    ensures
        values_le(a, c),
    decreases a.len(),
{
    if a.len() > 0 && b.len() > 0 && c.len() > 0 {
        if a[0] == b[0] && b[0] == c[0] {
            lemma_values_le_transitive(a.drop_first(), b.drop_first(), c.drop_first());
        } else if a[0] == b[0] {
            assert(a[0] != c[0]);
        } else if b[0] == c[0] {
            assert(a[0] != c[0]);
        } else {
            if a[0] == c[0] {
                assert(value_le(a[0], b[0]) && value_le(b[0], a[0]));
                assert(false);
            }
        }
    }
}

proof fn lemma_key_le_total(a: RankKey, b: RankKey)
    ensures
        key_le(a, b) || key_le(b, a),
{
    match (a, b) {
        (Some(x), Some(y)) => lemma_values_le_total(x, y),
        _ => {},
    }
}

proof fn lemma_key_le_transitive(a: RankKey, b: RankKey, c: RankKey)
    requires
        key_le(a, b),
        key_le(b, c),
    ensures
        key_le(a, c),
{
    match (a, b, c) {
        (Some(x), Some(y), Some(z)) => lemma_values_le_transitive(x, y, z),
        _ => {},
    }
}

proof fn lemma_rank_le_total(a: RankKey, b: RankKey)
    ensures
        rank_le(a, b) || rank_le(b, a),
{
    lemma_key_le_total(a, b);
}

proof fn lemma_rank_le_transitive(a: RankKey, b: RankKey, c: RankKey)
    requires
        rank_le(a, b),
        rank_le(b, c),
    ensures
        rank_le(a, c),
{
    lemma_key_le_transitive(c, b, a);
}

/// Whether the items are in rank order.
pub open spec fn keys_sorted(s: Seq<(Team, RankKey)>) -> bool {
    forall|i: int, j: int| 0 <= i < j < s.len() ==> rank_le((#[trigger] s[i]).1, (#[trigger] s[j]).1)
}

proof fn lemma_insert_keyed_props(r: Seq<(Team, RankKey)>, x: (Team, RankKey))
    requires
        keys_sorted(r),
    ensures
        keys_sorted(insert_keyed(r, x)),
        insert_keyed(r, x).to_multiset() =~= r.to_multiset().insert(x),
        forall|y: (Team, RankKey)| #[trigger] insert_keyed(r, x).contains(y) ==> y == x || r.contains(y),
    decreases r.len(),
{
    broadcast use vstd::seq_lib::group_to_multiset_ensures;
    broadcast use vstd::multiset::group_multiset_properties;

    if r.len() == 0 {
    } else if rank_le(r.last().1, x.1) {
        let s = r.push(x);
        assert forall|i: int, j: int| 0 <= i < j < s.len() implies rank_le((#[trigger] s[i]).1, (#[trigger] s[j]).1) by {
            if j == s.len() - 1 && i < r.len() - 1 {
                lemma_rank_le_transitive(r[i].1, r.last().1, x.1);
            }
        }
        assert forall|y: (Team, RankKey)| #[trigger] s.contains(y) implies y == x || r.contains(y) by {
            let k = choose|k: int| 0 <= k < s.len() && s[k] == y;
            if k < r.len() {
                assert(r[k] == y);
            }
        }
    } else {
        let d = r.drop_last();
        assert(keys_sorted(d)) by {
            assert forall|i: int, j: int| 0 <= i < j < d.len() implies rank_le((#[trigger] d[i]).1, (#[trigger] d[j]).1) by {
                assert(d[i] == r[i] && d[j] == r[j]);
            }
        }
        lemma_insert_keyed_props(d, x);
        let u = insert_keyed(d, x);
        let s = u.push(r.last());
        lemma_rank_le_total(r.last().1, x.1);
        assert forall|i: int, j: int| 0 <= i < j < s.len() implies rank_le((#[trigger] s[i]).1, (#[trigger] s[j]).1) by {
            if j == s.len() - 1 {
                assert(u.contains(u[i]));
                if u[i] != x {
                    let k = choose|k: int| 0 <= k < d.len() && d[k] == u[i];
                    assert(r[k] == d[k]);
                }
            }
        }
        assert forall|y: (Team, RankKey)| #[trigger] s.contains(y) implies y == x || r.contains(y) by {
            let k = choose|k: int| 0 <= k < s.len() && s[k] == y;
            if k < u.len() {
                assert(u.contains(y));
                if y != x {
                    let m = choose|m: int| 0 <= m < d.len() && d[m] == y;
                    assert(r[m] == y);
                }
            } else {
                assert(r[r.len() - 1] == y);
            }
        }
        assert(d.push(r.last()) =~= r);
    }
}

/// The ranking keeps every item and puts the items in order of their
/// keys.
pub proof fn lemma_sort_keyed_props(s: Seq<(Team, RankKey)>)
    ensures
        keys_sorted(sort_keyed(s)),
        sort_keyed(s).to_multiset() =~= s.to_multiset(),
    decreases s.len(),
{
    broadcast use vstd::seq_lib::group_to_multiset_ensures;

    if s.len() > 0 {
        lemma_sort_keyed_props(s.drop_last());
        lemma_insert_keyed_props(sort_keyed(s.drop_last()), s.last());
        assert(s.drop_last().push(s.last()) =~= s);
    }
}

/// The teams of brackets, bracket after bracket.
pub open spec fn flatten_brackets(g: Seq<Seq<Team>>) -> Seq<Team>
    decreases g.len(),
{
    if g.len() == 0 {
        seq![]
    } else {
        flatten_brackets(g.drop_last()) + g.last()
    }
}

/// The teams of the runs, run after run, are the teams of the items in
/// order.
pub proof fn lemma_group_keyed_flatten(s: Seq<(Team, RankKey)>)
    ensures
        flatten_brackets(group_keyed(s)) == s.map_values(|p: (Team, RankKey)| p.0),
    decreases s.len(),
{
    if s.len() > 0 {
        let d = s.drop_last();
        lemma_group_keyed_flatten(d);
        let g = group_keyed(d);
        if s.len() > 1 && s[s.len() - 2].1 == s.last().1 {
            lemma_group_keyed_nonempty(d);
            let g2 = g.update(g.len() - 1, g.last().push(s.last().0));
            assert(g2.drop_last() =~= g.drop_last());
            assert(flatten_brackets(g) == flatten_brackets(g.drop_last()) + g.last());
            assert(flatten_brackets(g2) =~= flatten_brackets(g) + seq![s.last().0]);
        } else {
            assert(g.push(seq![s.last().0]).drop_last() =~= g);
        }
        assert(s.map_values(|p: (Team, RankKey)| p.0) =~= d.map_values(|p: (Team, RankKey)| p.0).push(s.last().0));
    }
}

/// The amount a metric value stands for: the whole number, or the decimal
/// in hundredths.
pub open spec fn metric_amount(v: MetricValue) -> int {
    match v {
        MetricValue::Integer(x) => x as int,
        MetricValue::Float(x) => x as int,
    }
}

/// Whether two metric values are of the same kind.
pub open spec fn same_kind(a: MetricValue, b: MetricValue) -> bool {
    (a is Integer && b is Integer) || (a is Float && b is Float)
}

/// Whether list `a` is above list `b` at position `k`: they agree before
/// it, and there `a` holds a larger amount of the same kind.
pub open spec fn above_at(a: Seq<MetricValue>, b: Seq<MetricValue>, k: int) -> bool {
    &&& 0 <= k < a.len()
    &&& k < b.len()
    &&& a.take(k) == b.take(k)
    &&& same_kind(a[k], b[k])
    &&& metric_amount(a[k]) > metric_amount(b[k])
}

/// Of two values of the same kind, the one with the smaller amount comes
/// first in the order of values, whole numbers and decimals alike.
pub proof fn lemma_value_order_by_amount(a: MetricValue, b: MetricValue)
    requires
        same_kind(a, b),
    ensures
        value_le(a, b) <==> metric_amount(a) <= metric_amount(b),
{
}

proof fn lemma_values_le_not_above(a: Seq<MetricValue>, b: Seq<MetricValue>, k: int)
    requires
        values_le(a, b),
    ensures
        !above_at(a, b, k),
    decreases a.len(),
{
    if !above_at(a, b, k) {
    } else if k == 0 {
        assert(a[0] != b[0]);
        lemma_value_order_by_amount(a[0], b[0]);
    } else {
        assert(a.take(k)[0] == b.take(k)[0]);
        assert(a[0] == b[0]);
        let a1 = a.drop_first();
        let b1 = b.drop_first();
        assert(a1.take(k - 1) =~= a.take(k).drop_first());
        assert(b1.take(k - 1) =~= b.take(k).drop_first());
        assert(a1[k - 1] == a[k] && b1[k - 1] == b[k]);
        lemma_values_le_not_above(a1, b1, k - 1);
    }
}

/// Teams are ranked by the size of their metric values: in the ranking, a
/// team never comes after a team whose values it exceeds, that is, whose
/// values agree with its own up to some metric where its own value is a
/// larger amount of the same kind (decimals as whole numbers).
pub proof fn lemma_rank_order_by_amount(
    teams: Seq<Team>,
    entries: Seq<(String, Vec<(RankableTeamMetric, MetricValue)>)>,
    i: int,
    j: int,
    k: int,
)
    requires
        0 <= i < j < sort_keyed(keyed(teams, entries)).len(),
        sort_keyed(keyed(teams, entries))[i].1 is Some,
        sort_keyed(keyed(teams, entries))[j].1 is Some,
    ensures
        !above_at(
            sort_keyed(keyed(teams, entries))[j].1->0,
            sort_keyed(keyed(teams, entries))[i].1->0,
            k,
        ),
{
    let s = sort_keyed(keyed(teams, entries));
    lemma_sort_keyed_props(keyed(teams, entries));
    assert(rank_le(s[i].1, s[j].1));
    lemma_values_le_not_above(s[j].1->0, s[i].1->0, k);
}

/// The ranking of teams keeps every team, orders the teams best first,
/// and its brackets, one after another, hold the teams in that order.
pub proof fn lemma_rank_teams_law(
    teams: Seq<Team>,
    entries: Seq<(String, Vec<(RankableTeamMetric, MetricValue)>)>,
)
    ensures
        keys_sorted(sort_keyed(keyed(teams, entries))),
        sort_keyed(keyed(teams, entries)).to_multiset() =~= keyed(teams, entries).to_multiset(),
        flatten_brackets(group_keyed(sort_keyed(keyed(teams, entries)))) == sort_keyed(keyed(teams, entries)).map_values(
            |p: (Team, RankKey)| p.0,
        ),
{
    lemma_sort_keyed_props(keyed(teams, entries));
    lemma_group_keyed_flatten(sort_keyed(keyed(teams, entries)));
}

} // verus!

verus! {

/// Where a metric stands among the tournament's metrics.
pub open spec fn position_of(metrics: Seq<RankableTeamMetric>, m: RankableTeamMetric) -> Option<int>
    decreases metrics.len(),
{
    if metrics.len() == 0 {
        None
    } else if metrics[0] == m {
        Some(0)
    } else {
        match position_of(metrics.drop_first(), m) {
            Some(p) => Some(p + 1),
            None => None,
        }
    }
}

/// The entry of a team among entries keyed by team.
pub open spec fn entry_index<K, V>(entries: Seq<(K, V)>, team: K) -> Option<int>
    decreases entries.len(),
{
    if entries.len() == 0 {
        None
    } else if entries[0].0 == team {
        Some(0)
    } else {
        match entry_index(entries.drop_first(), team) {
            Some(i) => Some(i + 1),
            None => None,
        }
    }
}

/// An entry that is found is one of the entries, with the key.
pub proof fn lemma_entry_index<K, V>(entries: Seq<(K, V)>, key: K)
    ensures
        entry_index(entries, key) matches Some(i) ==> 0 <= i < entries.len() && entries[i].0 == key,
    decreases entries.len(),
{
    if entries.len() > 0 && entries[0].0 != key {
        lemma_entry_index(entries.drop_first(), key);
    }
}

/// A team's metrics with one more: at its position, or at the end where
/// the position is at or past the last.
pub open spec fn place_metric(
    ms: Seq<(RankableTeamMetric, MetricValue)>,
    pos: int,
    m: (RankableTeamMetric, MetricValue),
) -> Seq<(RankableTeamMetric, MetricValue)> {
    if ms.len() - 1 <= pos {
        ms.push(m)
    } else {
        ms.insert(pos, m)
    }
}

/// Entries of ranked metrics, seen by team.
pub type MetricEntries = Seq<(Seq<char>, Seq<(RankableTeamMetric, MetricValue)>)>;

/// Entries of pull-up metrics, seen by team and metric.
pub type PullupEntries = Seq<((Seq<char>, UnrankableTeamMetric), MetricValue)>;

/// The entries with a team's metric added.
pub open spec fn add_ranked(e: MetricEntries, team: Seq<char>, m: (RankableTeamMetric, MetricValue), pos: int) -> MetricEntries {
    match entry_index(e, team) {
        Some(i) => e.update(i, (team, place_metric(e[i].1, pos, m))),
        None => e.push((team, seq![m])),
    }
}

/// The pull-up entries with a value set.
pub open spec fn set_pullup(p: PullupEntries, key: (Seq<char>, UnrankableTeamMetric), v: MetricValue) -> PullupEntries {
    match entry_index(p, key) {
        Some(i) => p.update(i, (key, v)),
        None => p.push((key, v)),
    }
}

/// The metrics stored for each team, read row by row: a ranked metric
/// goes into the team's list at its position among the tournament's
/// metrics (and is dropped where the tournament does not rank by it); a
/// pull-up metric is kept by team and metric.
pub open spec fn metrics_from_rows(
    rows: Seq<(Seq<char>, SerializableMetric, MetricValue)>,
    metrics: Seq<RankableTeamMetric>,
) -> (MetricEntries, PullupEntries)
    decreases rows.len(),
{
    if rows.len() == 0 {
        (seq![], seq![])
    } else {
        let (e, p) = metrics_from_rows(rows.drop_last(), metrics);
        let r = rows.last();
        match r.1 {
            SerializableMetric::Rankable(k) => match position_of(metrics, k) {
                Some(pos) => (add_ranked(e, r.0, (k, r.2), pos), p),
                None => (e, p),
            },
            SerializableMetric::NonRankable(u) => (e, set_pullup(p, (r.0, u), r.2)),
        }
    }
}

/// The view of entries of ranked metrics.
pub open spec fn entries_view(e: Seq<(String, Vec<(RankableTeamMetric, MetricValue)>)>) -> MetricEntries {
    e.map_values(|x: (String, Vec<(RankableTeamMetric, MetricValue)>)| (x.0@, x.1@))
}

/// The view of entries of pull-up metrics.
pub open spec fn pullups_view(p: Seq<((String, UnrankableTeamMetric), MetricValue)>) -> PullupEntries {
    p.map_values(|x: ((String, UnrankableTeamMetric), MetricValue)| ((x.0.0@, x.0.1), x.1))
}

/// The view of stored metric rows.
pub open spec fn metric_rows_view(rows: Seq<(String, SerializableMetric, MetricValue)>) -> Seq<(Seq<char>, SerializableMetric, MetricValue)> {
    rows.map_values(|r: (String, SerializableMetric, MetricValue)| (r.0@, r.1, r.2))
}

/// The rows that store a team's ranked metrics, one per metric, in order.
pub open spec fn team_metric_rows(team: Seq<char>, ms: Seq<(RankableTeamMetric, MetricValue)>) -> Seq<
    (Seq<char>, SerializableMetric, MetricValue),
> {
    ms.map_values(|m: (RankableTeamMetric, MetricValue)| (team, SerializableMetric::Rankable(m.0), m.1))
}

/// The rows that store entries of ranked metrics, team by team.
pub open spec fn ranked_metric_rows(e: MetricEntries) -> Seq<(Seq<char>, SerializableMetric, MetricValue)>
    decreases e.len(),
{
    if e.len() == 0 {
        seq![]
    } else {
        ranked_metric_rows(e.drop_last()) + team_metric_rows(e.last().0, e.last().1)
    }
}

/// A team's metrics are metrics the tournament ranks by, listed in the
/// tournament's order.
pub open spec fn in_metric_order(ms: Seq<(RankableTeamMetric, MetricValue)>, metrics: Seq<RankableTeamMetric>) -> bool {
    &&& forall|j: int| 0 <= j < ms.len() ==> position_of(metrics, (#[trigger] ms[j]).0) is Some
    &&& forall|i: int, j: int|
        0 <= i < j < ms.len() ==> position_of(metrics, (#[trigger] ms[i]).0)->0 < position_of(
            metrics,
            (#[trigger] ms[j]).0,
        )->0
}

/// Entries of ranked metrics as standings hold them: each team once, with
/// at least one metric, listed in the tournament's order.
pub open spec fn storable_entries(e: MetricEntries, metrics: Seq<RankableTeamMetric>) -> bool {
    &&& forall|i: int, j: int| 0 <= i < j < e.len() ==> (#[trigger] e[i]).0 != (#[trigger] e[j]).0
    &&& forall|i: int| 0 <= i < e.len() ==> (#[trigger] e[i]).1.len() > 0 && in_metric_order(e[i].1, metrics)
}

proof fn lemma_entry_index_absent<K, V>(e: Seq<(K, V)>, key: K)
    requires
        forall|i: int| 0 <= i < e.len() ==> (#[trigger] e[i]).0 != key,
    ensures
        entry_index(e, key) is None,
    decreases e.len(),
{
    if e.len() > 0 {
        assert forall|i: int| 0 <= i < e.drop_first().len() implies (#[trigger] e.drop_first()[i]).0 != key by {
            assert(e.drop_first()[i] == e[i + 1]);
        }
        lemma_entry_index_absent(e.drop_first(), key);
    }
}

proof fn lemma_entry_index_pushed<K, V>(e: Seq<(K, V)>, key: K, v: V)
    requires
        forall|i: int| 0 <= i < e.len() ==> (#[trigger] e[i]).0 != key,
    ensures
        entry_index(e.push((key, v)), key) == Some(e.len() as int),
    decreases e.len(),
{
    if e.len() > 0 {
        assert(e.push((key, v)).drop_first() =~= e.drop_first().push((key, v)));
        assert forall|i: int| 0 <= i < e.drop_first().len() implies (#[trigger] e.drop_first()[i]).0 != key by {
            assert(e.drop_first()[i] == e[i + 1]);
        }
        lemma_entry_index_pushed(e.drop_first(), key, v);
        assert(e.push((key, v))[0] == e[0]);
    }
}

proof fn lemma_position_at_least_index(ms: Seq<(RankableTeamMetric, MetricValue)>, metrics: Seq<RankableTeamMetric>, j: int)
    requires
        in_metric_order(ms, metrics),
        0 <= j < ms.len(),
    ensures
        position_of(metrics, ms[j].0)->0 >= j,
    decreases j,
{
    lemma_position_found(metrics, ms[j].0);
    if j > 0 {
        lemma_position_at_least_index(ms, metrics, j - 1);
        assert(position_of(metrics, ms[j - 1].0)->0 < position_of(metrics, ms[j].0)->0);
    }
}

proof fn lemma_position_found(metrics: Seq<RankableTeamMetric>, m: RankableTeamMetric)
    ensures
        position_of(metrics, m) matches Some(p) ==> p >= 0,
    decreases metrics.len(),
{
    if metrics.len() > 0 && metrics[0] != m {
        lemma_position_found(metrics.drop_first(), m);
    }
}

proof fn lemma_team_rows_read(
    r: Seq<(Seq<char>, SerializableMetric, MetricValue)>,
    e: MetricEntries,
    team: Seq<char>,
    ms: Seq<(RankableTeamMetric, MetricValue)>,
    metrics: Seq<RankableTeamMetric>,
    j: int,
)
    requires
        metrics_from_rows(r, metrics) == (e, Seq::<((Seq<char>, UnrankableTeamMetric), MetricValue)>::empty()),
        forall|i: int| 0 <= i < e.len() ==> (#[trigger] e[i]).0 != team,
        in_metric_order(ms, metrics),
        1 <= j <= ms.len(),
    ensures
        metrics_from_rows(r + team_metric_rows(team, ms.take(j)), metrics) == (
            e.push((team, ms.take(j))),
            Seq::<((Seq<char>, UnrankableTeamMetric), MetricValue)>::empty(),
        ),
    decreases j,
{
    let rows = r + team_metric_rows(team, ms.take(j));
    let m = ms[j - 1];
    assert(rows.last() == (team, SerializableMetric::Rankable(m.0), m.1));
    lemma_position_at_least_index(ms, metrics, j - 1);
    let pos = position_of(metrics, m.0)->0;
    if j == 1 {
        assert(rows.drop_last() =~= r);
        lemma_entry_index_absent(e, team);
        assert(seq![m] =~= ms.take(1));
    } else {
        lemma_team_rows_read(r, e, team, ms, metrics, j - 1);
        assert(rows.drop_last() =~= r + team_metric_rows(team, ms.take(j - 1)));
        let before = e.push((team, ms.take(j - 1)));
        lemma_entry_index_pushed(e, team, ms.take(j - 1));
        assert(place_metric(ms.take(j - 1), pos, m) =~= ms.take(j));
        assert(before.update(e.len() as int, (team, ms.take(j))) =~= e.push((team, ms.take(j))));
    }
}

/// What standings store reads back as it was: where each team appears once
/// with its ranked metrics in the tournament's order, reading the rows
/// that store them, team by team and metric by metric, gives the same
/// entries, and no pull-up metric.
pub proof fn lemma_metrics_round_trip(e: MetricEntries, metrics: Seq<RankableTeamMetric>)
    requires
        storable_entries(e, metrics),
    ensures
        metrics_from_rows(ranked_metric_rows(e), metrics) == (
            e,
            Seq::<((Seq<char>, UnrankableTeamMetric), MetricValue)>::empty(),
        ),
    decreases e.len(),
{
    if e.len() == 0 {
        assert(ranked_metric_rows(e) =~= seq![]);
        assert(e =~= seq![]);
    } else {
        let rest = e.drop_last();
        let last = e.last();
        assert(storable_entries(rest, metrics)) by {
            assert forall|i: int, j: int| 0 <= i < j < rest.len() implies (#[trigger] rest[i]).0 != (#[trigger] rest[j]).0 by {
                assert(rest[i] == e[i] && rest[j] == e[j]);
            }
            assert forall|i: int| 0 <= i < rest.len() implies (#[trigger] rest[i]).1.len() > 0 && in_metric_order(
                rest[i].1,
                metrics,
            ) by {
                assert(rest[i] == e[i]);
            }
        }
        lemma_metrics_round_trip(rest, metrics);
        assert forall|i: int| 0 <= i < rest.len() implies (#[trigger] rest[i]).0 != last.0 by {
            assert(rest[i] == e[i]);
            assert(e[i].0 != e[e.len() - 1].0);
        }
        assert(e[e.len() - 1] == last);
        assert(last.1.take(last.1.len() as int) =~= last.1);
        lemma_team_rows_read(ranked_metric_rows(rest), rest, last.0, last.1, metrics, last.1.len() as int);
        assert(rest.push(last) =~= e);
    }
}

fn position_exec(metrics: &Vec<RankableTeamMetric>, m: RankableTeamMetric) -> (r: Option<usize>)
    ensures
        match position_of(metrics@, m) {
            Some(p) => r matches Some(q) && q == p,
            None => r is None,
        },
{
    let mut i: usize = 0;
    proof {
        assert(metrics@.skip(0) =~= metrics@);
    }
    while i < metrics.len()
        invariant
            i <= metrics@.len(),
            position_of(metrics@, m) == match position_of(metrics@.skip(i as int), m) {
                Some(p) => Some(p + i),
                None => None,
            },
        decreases metrics@.len() - i,
    {
        proof {
            assert(metrics@.skip(i as int)[0] == metrics@[i as int]);
            assert(metrics@.skip(i as int).drop_first() =~= metrics@.skip(i as int + 1));
        }
        if metrics[i] == m {
            return Some(i);
        }
        i = i + 1;
    }
    None
}

fn entry_index_ranked(entries: &Vec<(String, Vec<(RankableTeamMetric, MetricValue)>)>, team: &String) -> (r: Option<usize>)
    ensures
        match entry_index(entries_view(entries@), team@) {
            Some(p) => r matches Some(q) && q == p,
            None => r is None,
        },
{
    let ghost v = entries_view(entries@);
    let mut i: usize = 0;
    proof {
        assert(v.skip(0) =~= v);
    }
    while i < entries.len()
        invariant
            i <= entries@.len(),
            v == entries_view(entries@),
            entry_index(v, team@) == match entry_index(v.skip(i as int), team@) {
                Some(p) => Some(p + i),
                None => None,
            },
        decreases entries@.len() - i,
    {
        proof {
            assert(v.skip(i as int)[0] == v[i as int]);
            assert(v.skip(i as int).drop_first() =~= v.skip(i as int + 1));
        }
        if entries[i].0 == *team {
            return Some(i);
        }
        i = i + 1;
    }
    None
}

fn entry_index_pullup(entries: &Vec<((String, UnrankableTeamMetric), MetricValue)>, key: &(String, UnrankableTeamMetric)) -> (r: Option<usize>)
    ensures
        match entry_index(pullups_view(entries@), (key.0@, key.1)) {
            Some(p) => r matches Some(q) && q == p,
            None => r is None,
        },
{
    let ghost v = pullups_view(entries@);
    let mut i: usize = 0;
    proof {
        assert(v.skip(0) =~= v);
    }
    while i < entries.len()
        invariant
            i <= entries@.len(),
            v == pullups_view(entries@),
            entry_index(v, (key.0@, key.1)) == match entry_index(v.skip(i as int), (key.0@, key.1)) {
                Some(p) => Some(p + i),
                None => None,
            },
        decreases entries@.len() - i,
    {
        proof {
            assert(v.skip(i as int)[0] == v[i as int]);
            assert(v.skip(i as int).drop_first() =~= v.skip(i as int + 1));
        }
        if entries[i].0.0 == key.0 && entries[i].0.1 == key.1 {
            return Some(i);
        }
        i = i + 1;
    }
    None
}

impl TeamStandings {
    /// Reads the stored metrics of the teams (see `metrics_from_rows`): the
    /// ranked metrics of each team, in the order of the tournament's
    /// metrics, and the pull-up metrics.
    pub fn metrics_of_rows(
        rows: &Vec<(String, SerializableMetric, MetricValue)>,
        metrics: &Vec<RankableTeamMetric>,
    ) -> (r: (Vec<(String, Vec<(RankableTeamMetric, MetricValue)>)>, Vec<((String, UnrankableTeamMetric), MetricValue)>))
        ensures
            (entries_view(r.0@), pullups_view(r.1@)) == metrics_from_rows(metric_rows_view(rows@), metrics@),
    {
        let mut ranked: Vec<(String, Vec<(RankableTeamMetric, MetricValue)>)> = Vec::new();
        let mut pullups: Vec<((String, UnrankableTeamMetric), MetricValue)> = Vec::new();
        let mut k: usize = 0;
        while k < rows.len()
            invariant
                k <= rows@.len(),
                (entries_view(ranked@), pullups_view(pullups@)) == metrics_from_rows(
                    metric_rows_view(rows@.take(k as int)),
                    metrics@,
                ),
            decreases rows@.len() - k,
        {
            let row = &rows[k];
            proof {
                assert(metric_rows_view(rows@.take(k as int + 1)).drop_last() =~= metric_rows_view(rows@.take(k as int)));
                assert(metric_rows_view(rows@.take(k as int + 1)).last() == (row.0@, row.1, row.2));
            }
            match row.1 {
                SerializableMetric::Rankable(kind) => {
                    match position_exec(metrics, kind) {
                        Some(pos) => {
                            let ghost before = entries_view(ranked@);
                            proof {
                                lemma_entry_index(before, row.0@);
                            }
                            match entry_index_ranked(&ranked, &row.0) {
                                Some(i) => {
                                    let (team, mut ms) = ranked.remove(i);
                                    let ghost old_ms = ms@;
                                    if ms.len() == 0 || ms.len() - 1 <= pos {
                                        ms.push((kind, row.2));
                                    } else {
                                        ms.insert(pos, (kind, row.2));
                                    }
                                    proof {
                                        assert(before[i as int] == (team@, old_ms));
                                        assert(old_ms.len() == 0 ==> old_ms.len() - 1 <= pos);
                                        assert(ms@ == place_metric(old_ms, pos as int, (kind, row.2)));
                                    }
                                    ranked.insert(i, (team, ms));
                                    proof {
                                        assert(entries_view(ranked@) =~= before.update(
                                            i as int,
                                            (row.0@, place_metric(before[i as int].1, pos as int, (kind, row.2))),
                                        ));
                                    }
                                },
                                None => {
                                    let mut ms: Vec<(RankableTeamMetric, MetricValue)> = Vec::new();
                                    ms.push((kind, row.2));
                                    ranked.push((row.0.clone(), ms));
                                    proof {
                                        assert(entries_view(ranked@) =~= before.push((row.0@, seq![(kind, row.2)])));
                                    }
                                },
                            }
                        },
                        None => {},
                    }
                },
                SerializableMetric::NonRankable(u) => {
                    let ghost before = pullups_view(pullups@);
                    let key = (row.0.clone(), u);
                    proof {
                        lemma_entry_index(before, (row.0@, u));
                    }
                    match entry_index_pullup(&pullups, &key) {
                        Some(i) => {
                            pullups.set(i, (key, row.2));
                            proof {
                                assert(pullups_view(pullups@) =~= before.update(i as int, ((row.0@, u), row.2)));
                            }
                        },
                        None => {
                            pullups.push((key, row.2));
                            proof {
                                assert(pullups_view(pullups@) =~= before.push(((row.0@, u), row.2)));
                            }
                        },
                    }
                },
            }
            k = k + 1;
        }
        proof {
            assert(rows@.take(rows@.len() as int) =~= rows@);
        }
        (ranked, pullups)
    }
}

} // verus!

verus! {

/// The number of positions of a team at the given side and place.
pub open spec fn position_count(rows: Seq<crate::draws::DebateTeam>, team: Seq<char>, side: i64, seq: i64) -> nat
    decreases rows.len(),
{
    if rows.len() == 0 {
        0
    } else {
        position_count(rows.drop_last(), team, side, seq) + if rows.last().team_id@ == team && rows.last().side
            == side && rows.last().seq == seq {
            1nat
        } else {
            0nat
        }
    }
}

/// The number of positions of a team.
pub open spec fn positions_of(rows: Seq<crate::draws::DebateTeam>, team: Seq<char>) -> nat
    decreases rows.len(),
{
    if rows.len() == 0 {
        0
    } else {
        positions_of(rows.drop_last(), team) + if rows.last().team_id@ == team {
            1nat
        } else {
            0nat
        }
    }
}

/// The history of a team: how often it held each position. With one team
/// per side: proposition, then opposition. With two: opening proposition,
/// opening opposition, closing proposition, closing opposition.
pub open spec fn history_counts(rows: Seq<crate::draws::DebateTeam>, team: Seq<char>, teams_per_side: i64) -> Seq<nat> {
    if teams_per_side == 1 {
        seq![position_count(rows, team, 0, 0), position_count(rows, team, 1, 0)]
    } else {
        seq![
            position_count(rows, team, 0, 0),
            position_count(rows, team, 1, 0),
            position_count(rows, team, 0, 1),
            position_count(rows, team, 1, 1),
        ]
    }
}

/// The history of each team of the tournament that has held a position,
/// in the order of the teams.
pub open spec fn history_spec(
    teams: Seq<Team>,
    rows: Seq<crate::draws::DebateTeam>,
    tournament_id: Seq<char>,
    teams_per_side: i64,
) -> Seq<(Seq<char>, Seq<nat>)>
    decreases teams.len(),
{
    if teams.len() == 0 {
        seq![]
    } else {
        let rest = history_spec(teams.drop_last(), rows, tournament_id, teams_per_side);
        let t = teams.last();
        if t.tournament_id@ == tournament_id && positions_of(rows, t.id@) > 0 {
            rest.push((t.id@, history_counts(rows, t.id@, teams_per_side)))
        } else {
            rest
        }
    }
}

/// The view of a history.
pub open spec fn history_view(h: Seq<(String, Vec<usize>)>) -> Seq<(Seq<char>, Seq<nat>)> {
    h.map_values(|e: (String, Vec<usize>)| (e.0@, e.1@.map_values(|c: usize| c as nat)))
}

/// The number of positions of a team at a side and place, and in all.
fn count_positions(rows: &Vec<crate::draws::DebateTeam>, team: &String, side: i64, seq: i64) -> (r: (usize, usize))
    ensures
        r.0 == position_count(rows@, team@, side, seq),
        r.1 == positions_of(rows@, team@),
{
    let mut at: usize = 0;
    let mut all: usize = 0;
    let mut k: usize = 0;
    while k < rows.len()
        invariant
            k <= rows@.len(),
            at == position_count(rows@.take(k as int), team@, side, seq),
            all == positions_of(rows@.take(k as int), team@),
            at <= k,
            all <= k,
        decreases rows@.len() - k,
    {
        proof {
            assert(rows@.take(k as int + 1).drop_last() =~= rows@.take(k as int));
        }
        if rows[k].team_id == *team {
            all = all + 1;
            if rows[k].side == side && rows[k].seq == seq {
                at = at + 1;
            }
        }
        k = k + 1;
    }
    proof {
        assert(rows@.take(rows@.len() as int) =~= rows@);
    }
    (at, all)
}

impl TeamHistory {
    /// The position history of the teams of a tournament, from the
    /// positions teams have held (see `history_spec`).
    pub fn of_positions(
        tournament: &crate::tournament::Tournament,
        teams: &Vec<Team>,
        teams_of_debate: &Vec<crate::draws::DebateTeam>,
    ) -> (r: TeamHistory)
        requires
            tournament.teams_per_side == 1 || tournament.teams_per_side == 2,
        ensures
            history_view(r.0@) == history_spec(teams@, teams_of_debate@, tournament.id@, tournament.teams_per_side),
    {
        let mut out: Vec<(String, Vec<usize>)> = Vec::new();
        let mut i: usize = 0;
        while i < teams.len()
            invariant
                i <= teams@.len(),
                tournament.teams_per_side == 1 || tournament.teams_per_side == 2,
                history_view(out@) == history_spec(
                    teams@.take(i as int),
                    teams_of_debate@,
                    tournament.id@,
                    tournament.teams_per_side,
                ),
            decreases teams@.len() - i,
        {
            let t = &teams[i];
            proof {
                assert(teams@.take(i as int + 1).drop_last() =~= teams@.take(i as int));
            }
            let (og, total) = count_positions(teams_of_debate, &t.id, 0, 0);
            let (oo, _) = count_positions(teams_of_debate, &t.id, 1, 0);
            if t.tournament_id == tournament.id && total > 0 {
                let mut counts: Vec<usize> = Vec::new();
                counts.push(og);
                counts.push(oo);
                if tournament.teams_per_side == 2 {
                    let (cg, _) = count_positions(teams_of_debate, &t.id, 0, 1);
                    let (co, _) = count_positions(teams_of_debate, &t.id, 1, 1);
                    counts.push(cg);
                    counts.push(co);
                }
                let ghost before = out@;
                out.push((t.id.clone(), counts));
                proof {
                    let c = counts@.map_values(|c: usize| c as nat);
                    assert(c =~= history_counts(teams_of_debate@, t.id@, tournament.teams_per_side));
                    assert(history_view(out@) =~= history_view(before).push(
                        (t.id@, history_counts(teams_of_debate@, t.id@, tournament.teams_per_side)),
                    ));
                }
            }
            i = i + 1;
        }
        proof {
            assert(teams@.take(teams@.len() as int) =~= teams@);
        }
        TeamHistory(out)
    }
}

} // verus!
