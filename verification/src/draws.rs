//! The draw of a round: its debates, the teams and judges in each, and the
//! rooms they are held in.
use vstd::prelude::*;
use crate::seqs::{first_match, lemma_first_match_at, lemma_first_match_exists, views};
use crate::participants::{Team, Speaker, Judge, DebateJudge, clone_opt_string};
use crate::rounds::{Round, Motion};

verus! {

/// A room that debates are held in.
pub struct Room {
    pub id: String,
    pub tournament_id: String,
    pub name: String,
    pub url: Option<String>,
    pub priority: i64,
    pub number: i64,
}

impl Clone for Room {
    fn clone(&self) -> (r: Self)
        ensures
            r == *self,
    {
        Room {
            id: self.id.clone(),
            tournament_id: self.tournament_id.clone(),
            name: self.name.clone(),
            url: clone_opt_string(&self.url),
            priority: self.priority,
            number: self.number,
        }
    }
}

/// A debate of a round.
pub struct Debate {
    pub id: String,
    pub tournament_id: String,
    pub round_id: String,
    pub room_id: Option<String>,
    pub number: i64,
    pub status: String,
}

impl Clone for Debate {
    fn clone(&self) -> (r: Self)
        ensures
            r == *self,
    {
        Debate {
            id: self.id.clone(),
            tournament_id: self.tournament_id.clone(),
            round_id: self.round_id.clone(),
            room_id: clone_opt_string(&self.room_id),
            number: self.number,
            status: self.status.clone(),
        }
    }
}

/// The place of a team in a debate: `side` 0 is proposition and 1 is
/// opposition, and `seq` counts the teams on a side from 0.
pub struct DebateTeam {
    pub id: String,
    pub tournament_id: String,
    pub debate_id: String,
    pub team_id: String,
    pub side: i64,
    pub seq: i64,
}

impl Clone for DebateTeam {
    fn clone(&self) -> (r: Self)
        ensures
            r == *self,
    {
        DebateTeam {
            id: self.id.clone(),
            tournament_id: self.tournament_id.clone(),
            debate_id: self.debate_id.clone(),
            team_id: self.team_id.clone(),
            side: self.side,
            seq: self.seq,
        }
    }
}

/// The state of a draw.
pub enum DrawStatus {
    Draft,
    Confirmed,
    Released,
}

/// A debate together with everything that takes part in it.
pub struct DebateRepr {
    pub debate: Debate,
    pub room: Option<Room>,
    pub teams_of_debate: Vec<DebateTeam>,
    pub teams: Vec<Team>,
    pub speakers_of_team: Vec<(String, Vec<Speaker>)>,
    pub judges_of_debate: Vec<DebateJudge>,
    pub judges: Vec<Judge>,
    pub motions: Vec<Motion>,
}

/// The debates of a round.
pub struct RoundDrawRepr {
    pub round: Round,
    pub debates: Vec<DebateRepr>,
}

/// Whether a debate team holds the position (`side`, `seq`).
pub open spec fn at_position(side: int, seq: int) -> spec_fn(DebateTeam) -> bool {
    |t: DebateTeam| t.side == side && t.seq == seq
}

/// The team at position (`side`, `seq`) of a debate, if any.
pub open spec fn team_at(d: DebateRepr, side: int, seq: int) -> Option<DebateTeam> {
    first_match(d.teams_of_debate@, at_position(side, seq))
}

/// Whether a judge has the given identifier.
pub open spec fn judge_has_id(id: Seq<char>) -> spec_fn(Judge) -> bool {
    |j: Judge| j.id@ == id
}

/// The judge of a debate with the given identifier, if any.
pub open spec fn judge_of(d: DebateRepr, id: Seq<char>) -> Option<Judge> {
    first_match(d.judges@, judge_has_id(id))
}

/// Whether a team has the given identifier.
pub open spec fn team_has_id(id: Seq<char>) -> spec_fn(Team) -> bool {
    |t: Team| t.id@ == id
}

/// The team of a debate with the given identifier, if any.
pub open spec fn team_of(d: DebateRepr, id: Seq<char>) -> Option<Team> {
    first_match(d.teams@, team_has_id(id))
}

/// Whether an entry of the speakers of a team is for the given team.
pub open spec fn entry_for_team(id: Seq<char>) -> spec_fn((String, Vec<Speaker>)) -> bool {
    |e: (String, Vec<Speaker>)| e.0@ == id
}

/// Whether a speaker has the given identifier.
pub open spec fn speaker_has_id(id: Seq<char>) -> spec_fn(Speaker) -> bool {
    |s: Speaker| s.id@ == id
}

/// The speaker `speaker_id` among the speakers recorded for team `team_id`.
pub open spec fn speaker_of(d: DebateRepr, team_id: Seq<char>, speaker_id: Seq<char>) -> Option<Speaker> {
    match first_match(d.speakers_of_team@, entry_for_team(team_id)) {
        Some(e) => first_match(e.1@, speaker_has_id(speaker_id)),
        None => None,
    }
}

impl DebateRepr {
    /// The team at position (`side`, `seq`).
    pub fn team_of_side_and_seq(&self, side: i64, seq: i64) -> (r: &DebateTeam)
        requires
            team_at(*self, side as int, seq as int) is Some,
        ensures
            team_at(*self, side as int, seq as int) == Some(*r),
    {
        let mut i: usize = 0;
        while i < self.teams_of_debate.len()
            invariant
                i <= self.teams_of_debate.len(),
                team_at(*self, side as int, seq as int) is Some,
                forall|j: int| 0 <= j < i ==> !at_position(side as int, seq as int)(
                    #[trigger] self.teams_of_debate@[j],
                ),
            decreases self.teams_of_debate.len() - i,
        {
            let t = &self.teams_of_debate[i];
            if t.side == side && t.seq == seq {
                proof {
                    lemma_first_match_at(self.teams_of_debate@, at_position(side as int, seq as int), i as int);
                }
                return t;
            }
            i = i + 1;
        }
        proof {
            lemma_first_match_at(self.teams_of_debate@, at_position(side as int, seq as int), i as int);
        }
        &self.teams_of_debate[0]
    }

    /// The judge with the given identifier.
    pub fn judge(&self, id: &String) -> (r: Option<&Judge>)
        ensures
            r matches Some(j) ==> judge_of(*self, id@) == Some(*j),
            r is None ==> judge_of(*self, id@) is None,
    {
        let mut i: usize = 0;
        while i < self.judges.len()
            invariant
                i <= self.judges.len(),
                forall|j: int| 0 <= j < i ==> !judge_has_id(id@)(#[trigger] self.judges@[j]),
            decreases self.judges.len() - i,
        {
            if self.judges[i].id == *id {
                proof {
                    lemma_first_match_at(self.judges@, judge_has_id(id@), i as int);
                }
                return Some(&self.judges[i]);
            }
            i = i + 1;
        }
        proof {
            lemma_first_match_at(self.judges@, judge_has_id(id@), i as int);
        }
        None
    }

    /// The team with the given identifier.
    pub fn team(&self, id: &String) -> (r: Option<&Team>)
        ensures
            r matches Some(t) ==> team_of(*self, id@) == Some(*t),
            r is None ==> team_of(*self, id@) is None,
    {
        let mut i: usize = 0;
        while i < self.teams.len()
            invariant
                i <= self.teams.len(),
                forall|j: int| 0 <= j < i ==> !team_has_id(id@)(#[trigger] self.teams@[j]),
            decreases self.teams.len() - i,
        {
            if self.teams[i].id == *id {
                proof {
                    lemma_first_match_at(self.teams@, team_has_id(id@), i as int);
                }
                return Some(&self.teams[i]);
            }
            i = i + 1;
        }
        proof {
            lemma_first_match_at(self.teams@, team_has_id(id@), i as int);
        }
        None
    }

    /// The speaker `speaker_id` of team `team_id`.
    pub fn speaker(&self, team_id: &String, speaker_id: &String) -> (r: Option<&Speaker>)
        ensures
            r matches Some(s) ==> speaker_of(*self, team_id@, speaker_id@) == Some(*s),
            r is None ==> speaker_of(*self, team_id@, speaker_id@) is None,
    {
        let mut i: usize = 0;
        while i < self.speakers_of_team.len()
            invariant
                i <= self.speakers_of_team.len(),
                forall|j: int| 0 <= j < i ==> !entry_for_team(team_id@)(#[trigger] self.speakers_of_team@[j]),
            decreases self.speakers_of_team.len() - i,
        {
            if self.speakers_of_team[i].0 == *team_id {
                proof {
                    lemma_first_match_at(self.speakers_of_team@, entry_for_team(team_id@), i as int);
                }
                let speakers = &self.speakers_of_team[i].1;
                assert(speakers@ == self.speakers_of_team@[i as int].1@);
                assert(first_match(self.speakers_of_team@, entry_for_team(team_id@)) == Some(
                    self.speakers_of_team@[i as int],
                ));
                let mut k: usize = 0;
                while k < speakers.len()
                    invariant
                        k <= speakers.len(),
                        speakers@ == self.speakers_of_team@[i as int].1@,
                        first_match(self.speakers_of_team@, entry_for_team(team_id@)) == Some(
                            self.speakers_of_team@[i as int],
                        ),
                        forall|j: int| 0 <= j < k ==> !speaker_has_id(speaker_id@)(#[trigger] speakers@[j]),
                    decreases speakers.len() - k,
                {
                    if speakers[k].id == *speaker_id {
                        proof {
                            lemma_first_match_at(speakers@, speaker_has_id(speaker_id@), k as int);
                        }
                        return Some(&speakers[k]);
                    }
                    k = k + 1;
                }
                proof {
                    lemma_first_match_at(speakers@, speaker_has_id(speaker_id@), k as int);
                }
                return None;
            }
            i = i + 1;
        }
        proof {
            lemma_first_match_at(self.speakers_of_team@, entry_for_team(team_id@), i as int);
        }
        None
    }
}

} // verus!

verus! {

/// Whether some ballot among the first `n` of `h` is by the judge of `b`.
pub open spec fn judge_seen(h: Seq<crate::ballots::BallotRepr>, n: int, b: crate::ballots::BallotRepr) -> bool {
    exists|k: int| 0 <= k < n && (#[trigger] h[k]).metadata.judge_id@ == b.metadata.judge_id@
}

/// The first ballot of each judge in a history ordered newest first, in
/// history order.
pub open spec fn latest_per_judge(h: Seq<crate::ballots::BallotRepr>) -> Seq<crate::ballots::BallotRepr>
    decreases h.len(),
{
    if h.len() == 0 {
        seq![]
    } else {
        let p = latest_per_judge(h.drop_last());
        if judge_seen(h, h.len() - 1, h.last()) {
            p
        } else {
            p.push(h.last())
        }
    }
}

/// The judge of a ballot.
pub open spec fn judge_of_ballot(b: crate::ballots::BallotRepr) -> Seq<char> {
    b.metadata.judge_id@
}

/// Whether a ballot of the first `n` of `h` is by judge `j`.
pub open spec fn judge_in(h: Seq<crate::ballots::BallotRepr>, n: int, j: Seq<char>) -> bool {
    exists|k: int| 0 <= k < n && judge_of_ballot(#[trigger] h[k]) == j
}

/// Whether the `k`th ballot of `h` is the first (newest) of its judge.
pub open spec fn newest_of_judge(h: Seq<crate::ballots::BallotRepr>, k: int) -> bool {
    !judge_in(h, k, judge_of_ballot(h[k]))
}

proof fn lemma_judge_seen_is_judge_in(h: Seq<crate::ballots::BallotRepr>, n: int, b: crate::ballots::BallotRepr)
    ensures
        judge_seen(h, n, b) == judge_in(h, n, judge_of_ballot(b)),
{
    if judge_seen(h, n, b) {
        let k = choose|k: int| 0 <= k < n && (#[trigger] h[k]).metadata.judge_id@ == b.metadata.judge_id@;
        assert(judge_of_ballot(h[k]) == judge_of_ballot(b));
    }
    if judge_in(h, n, judge_of_ballot(b)) {
        let k = choose|k: int| 0 <= k < n && judge_of_ballot(#[trigger] h[k]) == judge_of_ballot(b);
        assert(h[k].metadata.judge_id@ == b.metadata.judge_id@);
    }
}

proof fn lemma_judge_in_prefix(h: Seq<crate::ballots::BallotRepr>, n: int, j: Seq<char>)
    requires
        0 <= n < h.len(),
    ensures
        judge_in(h.drop_last(), n, j) == judge_in(h, n, j),
{
    let p = h.drop_last();
    if judge_in(p, n, j) {
        let k = choose|k: int| 0 <= k < n && judge_of_ballot(#[trigger] p[k]) == j;
        assert(h[k] == p[k]);
    }
    if judge_in(h, n, j) {
        let k = choose|k: int| 0 <= k < n && judge_of_ballot(#[trigger] h[k]) == j;
        assert(h[k] == p[k]);
    }
}

/// Whether `b` is the `k`th ballot of `h` and the newest of its judge.
pub open spec fn newest_ballot_at(h: Seq<crate::ballots::BallotRepr>, k: int, b: crate::ballots::BallotRepr) -> bool {
    0 <= k < h.len() && h[k] == b && newest_of_judge(h, k)
}

/// Whether the `i`th kept ballot of `h` is the newest ballot of its judge
/// in the history.
pub open spec fn kept_is_newest(h: Seq<crate::ballots::BallotRepr>, i: int) -> bool {
    exists|k: int| #[trigger] newest_ballot_at(h, k, latest_per_judge(h)[i])
}

/// The `i`th kept ballot is the newest ballot of its judge in the history.
proof fn lemma_latest_origin_at(h: Seq<crate::ballots::BallotRepr>, i: int)
    requires
        0 <= i < latest_per_judge(h).len(),
    ensures
        exists|k: int| #[trigger] newest_ballot_at(h, k, latest_per_judge(h)[i]),
    decreases h.len(),
{
    let n = h.len() - 1;
    let p = h.drop_last();
    let lp = latest_per_judge(p);
    lemma_judge_seen_is_judge_in(h, n, h[n]);
    if i < lp.len() {
        lemma_latest_origin_at(p, i);
        let k = choose|k: int| #[trigger] newest_ballot_at(p, k, lp[i]);
        assert(h[k] == p[k]);
        lemma_judge_in_prefix(h, k, judge_of_ballot(p[k]));
        assert(newest_ballot_at(h, k, latest_per_judge(h)[i]));
    } else {
        assert(newest_ballot_at(h, n, latest_per_judge(h)[i]));
    }
}

/// Each kept ballot is the newest ballot of its judge in the history.
proof fn lemma_latest_origin(h: Seq<crate::ballots::BallotRepr>)
    ensures
        forall|i: int| 0 <= i < latest_per_judge(h).len() ==> #[trigger] kept_is_newest(h, i),
{
    assert forall|i: int| 0 <= i < latest_per_judge(h).len() implies #[trigger] kept_is_newest(h, i) by {
        lemma_latest_origin_at(h, i);
    }
}

/// Every judge with a ballot in the history has a ballot kept.
proof fn lemma_latest_cover(h: Seq<crate::ballots::BallotRepr>)
    ensures
        forall|k: int|
            #![trigger h[k]]
            0 <= k < h.len() ==> judge_in(latest_per_judge(h), latest_per_judge(h).len() as int, judge_of_ballot(h[k])),
    decreases h.len(),
{
    if h.len() > 0 {
        let n = h.len() - 1;
        let p = h.drop_last();
        lemma_latest_cover(p);
        lemma_judge_seen_is_judge_in(h, n, h[n]);
        let lp = latest_per_judge(p);
        let l = latest_per_judge(h);
        assert forall|j: Seq<char>| judge_in(lp, lp.len() as int, j) implies judge_in(l, l.len() as int, j) by {
            let i = choose|i: int| 0 <= i < lp.len() && judge_of_ballot(#[trigger] lp[i]) == j;
            assert(l[i] == lp[i]);
        }
        assert forall|k: int| #![trigger h[k]] 0 <= k < h.len() implies judge_in(
            l,
            l.len() as int,
            judge_of_ballot(h[k]),
        ) by {
            if k < n {
                assert(h[k] == p[k]);
            } else if judge_in(h, n, judge_of_ballot(h[n])) {
                let m = choose|m: int| 0 <= m < n && judge_of_ballot(#[trigger] h[m]) == judge_of_ballot(h[n]);
                assert(h[m] == p[m]);
            } else {
                assert(l[lp.len() as int] == h[n]);
            }
        }
    }
}

/// The ballots kept are by different judges.
proof fn lemma_latest_distinct(h: Seq<crate::ballots::BallotRepr>)
    ensures
        forall|i: int, j: int|
            0 <= i < j < latest_per_judge(h).len() ==> judge_of_ballot(#[trigger] latest_per_judge(h)[i])
                != judge_of_ballot(#[trigger] latest_per_judge(h)[j]),
    decreases h.len(),
{
    if h.len() > 0 {
        let n = h.len() - 1;
        let p = h.drop_last();
        lemma_latest_distinct(p);
        lemma_latest_origin(p);
        lemma_judge_seen_is_judge_in(h, n, h[n]);
        let lp = latest_per_judge(p);
        let l = latest_per_judge(h);
        if !judge_in(h, n, judge_of_ballot(h[n])) {
            assert forall|i: int, j: int| 0 <= i < j < l.len() implies judge_of_ballot(#[trigger] l[i])
                != judge_of_ballot(#[trigger] l[j]) by {
                assert(l[i] == lp[i]);
                if j == lp.len() {
                    assert(l[j] == h[n]);
                    assert(kept_is_newest(p, i));
                    let k = choose|k: int| #[trigger] newest_ballot_at(p, k, lp[i]);
                    assert(h[k] == p[k]);
                    if judge_of_ballot(l[i]) == judge_of_ballot(l[j]) {
                        assert(judge_in(h, n, judge_of_ballot(h[n])));
                    }
                } else {
                    assert(l[j] == lp[j]);
                }
            }
        }
    }
}

/// The most recent ballot of each judge: the ballots kept are by different
/// judges, each is the first (newest) ballot of its judge in the history,
/// and every judge with a ballot in the history has one kept.
pub proof fn lemma_latest_per_judge(h: Seq<crate::ballots::BallotRepr>)
    ensures
        forall|i: int, j: int|
            0 <= i < j < latest_per_judge(h).len() ==> judge_of_ballot(#[trigger] latest_per_judge(h)[i])
                != judge_of_ballot(#[trigger] latest_per_judge(h)[j]),
        forall|i: int| 0 <= i < latest_per_judge(h).len() ==> #[trigger] kept_is_newest(h, i),
        forall|k: int|
            #![trigger h[k]]
            0 <= k < h.len() ==> judge_in(latest_per_judge(h), latest_per_judge(h).len() as int, judge_of_ballot(h[k])),
{
    lemma_latest_distinct(h);
    lemma_latest_origin(h);
    lemma_latest_cover(h);
}

impl DebateRepr {
    /// The most recent ballot of each judge, given the debate's ballot
    /// history ordered newest first: the first ballot of each judge, in
    /// history order.
    pub fn latest_ballots(&self, history: Vec<crate::ballots::BallotRepr>) -> (r: Vec<crate::ballots::BallotRepr>)
        ensures
            r@ == latest_per_judge(history@),
    {
        let mut out: Vec<crate::ballots::BallotRepr> = Vec::new();
        let mut seen: Vec<String> = Vec::new();
        let mut history = history;
        let ghost h = history@;
        let n0 = history.len();
        let mut rest: Vec<crate::ballots::BallotRepr> = Vec::new();
        while history.len() > 0
            invariant
                h.len() == history@.len() + rest@.len(),
                h.len() == n0,
                forall|k: int| 0 <= k < history@.len() ==> history@[k] == h[k],
                forall|k: int| 0 <= k < rest@.len() ==> rest@[k] == h[h.len() - 1 - k],
            decreases history@.len(),
        {
            let b = history.pop().unwrap();
            rest.push(b);
        }
        let mut i: usize = 0;
        while rest.len() > 0
            invariant
                i + rest@.len() == h.len(),
                h.len() == n0,
                forall|k: int| 0 <= k < rest@.len() ==> rest@[k] == h[h.len() - 1 - k],
                out@ == latest_per_judge(h.take(i as int)),
                forall|m: int| 0 <= m < i ==> views(seen@).contains((#[trigger] h[m]).metadata.judge_id@),
                forall|k: int| 0 <= k < seen@.len() ==> exists|m: int| 0 <= m < i && (#[trigger] seen@[k])@ == h[m].metadata.judge_id@,
            decreases rest@.len(),
        {
            let b = rest.pop().unwrap();
            assert(b == h[i as int]);
            proof {
                assert(h.take(i as int + 1).drop_last() =~= h.take(i as int));
                assert(h.take(i as int + 1).last() == b);
            }
            let already = crate::seqs::contains_string(&seen, &b.metadata.judge_id);
            proof {
                if already {
                    let k = choose|k: int| 0 <= k < views(seen@).len() && views(seen@)[k] == b.metadata.judge_id@;
                    assert(views(seen@)[k] == seen@[k]@);
                    let m = choose|m: int| 0 <= m < i && seen@[k]@ == h[m].metadata.judge_id@;
                    assert(h.take(i as int + 1)[m] == h[m]);
                    assert(judge_seen(h.take(i as int + 1), i as int, b));
                } else {
                    assert forall|m: int| 0 <= m < i implies (#[trigger] h.take(i as int + 1)[m]).metadata.judge_id@
                        != b.metadata.judge_id@ by {
                        assert(h.take(i as int + 1)[m] == h[m]);
                        assert(views(seen@).contains(h[m].metadata.judge_id@));
                    }
                    assert(!judge_seen(h.take(i as int + 1), i as int, b));
                }
            }
            if !already {
                let ghost seen0 = seen@;
                seen.push(b.metadata.judge_id.clone());
                proof {
                    assert forall|m: int| 0 <= m < i + 1 implies views(seen@).contains((#[trigger] h[m]).metadata.judge_id@) by {
                        if m < i {
                            let k = choose|k: int| 0 <= k < views(seen0).len() && views(seen0)[k] == h[m].metadata.judge_id@;
                            assert(views(seen@)[k] == views(seen0)[k]);
                        } else {
                            assert(views(seen@)[seen0.len() as int] == h[m].metadata.judge_id@);
                        }
                    }
                    assert forall|k: int| 0 <= k < seen@.len() implies exists|m: int| 0 <= m < i + 1 && (#[trigger] seen@[k])@ == h[m].metadata.judge_id@ by {
                        if k < seen0.len() {
                            assert(seen@[k] == seen0[k]);
                            let m = choose|m: int| 0 <= m < i && seen0[k]@ == h[m].metadata.judge_id@;
                            assert(seen@[k]@ == h[m].metadata.judge_id@);
                        } else {
                            assert(seen@[k]@ == h[i as int].metadata.judge_id@);
                        }
                    }
                }
                out.push(b);
            } else {
                proof {
                    assert forall|m: int| 0 <= m < i + 1 implies views(seen@).contains((#[trigger] h[m]).metadata.judge_id@) by {
                        if m == i {
                        }
                    }
                    assert forall|k: int| 0 <= k < seen@.len() implies exists|m: int| 0 <= m < i + 1 && (#[trigger] seen@[k])@ == h[m].metadata.judge_id@ by {
                        let m = choose|m: int| 0 <= m < i && seen@[k]@ == h[m].metadata.judge_id@;
                        assert(seen@[k]@ == h[m].metadata.judge_id@);
                    }
                }
            }
            i = i + 1;
        }
        assert(h.take(h.len() as int) =~= h);
        out
    }
}

} // verus!
