//! Ballots: what a judge records of a debate, the ranks of its teams and the
//! scores of its speakers. Speaker scores are held in hundredths of a point.
use vstd::prelude::*;
use crate::seqs::{
    dedup, views, push_unique, sort_by_key, lemma_insert_by_key_at, first_match,
    lemma_first_match_at,
};
use crate::participants::clone_opt_string;

verus! {

/// Who submitted a ballot, for which debate, and which version of it this is.
pub struct BallotMetadata {
    pub id: String,
    pub tournament_id: String,
    pub debate_id: String,
    pub judge_id: String,
    pub submitted_at: chrono::NaiveDateTime,
    pub motion_id: String,
    pub version: i64,
    pub change: Option<String>,
    pub editor_id: Option<String>,
}

impl Clone for BallotMetadata {
    fn clone(&self) -> (r: Self)
        ensures
            r == *self,
    {
        BallotMetadata {
            id: self.id.clone(),
            tournament_id: self.tournament_id.clone(),
            debate_id: self.debate_id.clone(),
            judge_id: self.judge_id.clone(),
            submitted_at: self.submitted_at,
            motion_id: self.motion_id.clone(),
            version: self.version,
            change: clone_opt_string(&self.change),
            editor_id: clone_opt_string(&self.editor_id),
        }
    }
}

/// The points a ballot gives a team.
pub struct BallotTeamRank {
    pub id: String,
    pub tournament_id: String,
    pub ballot_id: String,
    pub team_id: String,
    pub points: i64,
}

impl Clone for BallotTeamRank {
    fn clone(&self) -> (r: Self)
        ensures
            r == *self,
    {
        BallotTeamRank {
            id: self.id.clone(),
            tournament_id: self.tournament_id.clone(),
            ballot_id: self.ballot_id.clone(),
            team_id: self.team_id.clone(),
            points: self.points,
        }
    }
}

/// The speaker a ballot records at a position of a team, with the score (in
/// hundredths of a point) where scores are recorded.
pub struct BallotScore {
    pub id: String,
    pub tournament_id: String,
    pub ballot_id: String,
    pub team_id: String,
    pub speaker_id: String,
    pub speaker_position: i64,
    pub score: Option<i64>,
}

impl Clone for BallotScore {
    fn clone(&self) -> (r: Self)
        ensures
            r == *self,
    {
        BallotScore {
            id: self.id.clone(),
            tournament_id: self.tournament_id.clone(),
            ballot_id: self.ballot_id.clone(),
            team_id: self.team_id.clone(),
            speaker_id: self.speaker_id.clone(),
            speaker_position: self.speaker_position,
            score: self.score,
        }
    }
}

/// A ballot with its team ranks and speaker scores.
pub struct BallotRepr {
    pub metadata: BallotMetadata,
    pub scores: Vec<BallotScore>,
    pub team_ranks: Vec<BallotTeamRank>,
}

/// The team identifiers of a list of ranks, in order.
pub open spec fn rank_team_ids(ranks: Seq<BallotTeamRank>) -> Seq<String> {
    ranks.map_values(|r: BallotTeamRank| r.team_id)
}

/// Whether a score is for team `t`.
pub open spec fn score_of_team(t: Seq<char>) -> spec_fn(BallotScore) -> bool {
    |s: BallotScore| s.team_id@ == t
}

/// The speaker position of a score, as the key scores are ordered by.
pub open spec fn position_key() -> spec_fn(BallotScore) -> int {
    |s: BallotScore| s.speaker_position as int
}

/// Whether a rank is for team `t`.
pub open spec fn rank_of_team(t: Seq<char>) -> spec_fn(BallotTeamRank) -> bool {
    |r: BallotTeamRank| r.team_id@ == t
}

/// The sum of the recorded scores of team `t`.
pub open spec fn team_total(scores: Seq<BallotScore>, t: Seq<char>) -> int
    decreases scores.len(),
{
    if scores.len() == 0 {
        0
    } else {
        team_total(scores.drop_last(), t) + if scores.last().team_id@ == t && scores.last().score is Some {
            scores.last().score->0 as int
        } else {
            0
        }
    }
}

/// The key by which teams are put in rank order: a higher total comes first.
pub open spec fn descending_total(scores: Seq<BallotScore>) -> spec_fn(String) -> int {
    |t: String| -team_total(scores, t@)
}

/// The teams a ballot ranks, each once, in order of first mention.
pub open spec fn ballot_team_ids(b: BallotRepr) -> Seq<String> {
    dedup(rank_team_ids(b.team_ranks@))
}

/// The scores of team `t` in a ballot, ordered by speaker position.
pub open spec fn scores_of(b: BallotRepr, t: Seq<char>) -> Seq<BallotScore> {
    sort_by_key(b.scores@.filter(score_of_team(t)), position_key())
}

/// The points a ballot gives team `t` (from its first rank for the team).
pub open spec fn points_of(b: BallotRepr, t: Seq<char>) -> Option<i64> {
    match first_match(b.team_ranks@, rank_of_team(t)) {
        Some(r) => Some(r.points),
        None => None,
    }
}

/// The sum of the recorded scores of a team in a ballot.
pub fn total_of_team(scores: &Vec<BallotScore>, team_id: &String) -> (r: i128)
    ensures
        r as int == team_total(scores@, team_id@),
        -(scores@.len() as int) * 0x8000_0000_0000_0000 <= r <= (scores@.len() as int) * 0x8000_0000_0000_0000,
{
    let mut total: i128 = 0;
    let mut i: usize = 0;
    while i < scores.len()
        invariant
            i <= scores.len(),
            scores.len() <= usize::MAX,
            total as int == team_total(scores@.take(i as int), team_id@),
            -(i as int) * 0x8000_0000_0000_0000 <= total <= (i as int) * 0x8000_0000_0000_0000,
        decreases scores.len() - i,
    {
        proof {
            assert(scores@.take(i as int + 1).drop_last() =~= scores@.take(i as int));
        }
        let s = &scores[i];
        if s.team_id == *team_id {
            match s.score {
                Some(v) => {
                    total = total + v as i128;
                },
                None => {},
            }
        }
        i = i + 1;
    }
    assert(scores@.take(scores.len() as int) =~= scores@);
    total
}

impl BallotRepr {
    /// A ballot of a preliminary round.
    pub fn new_prelim(
        metadata: BallotMetadata,
        scores: Vec<BallotScore>,
        team_ranks: Vec<BallotTeamRank>,
    ) -> (r: Self)
        ensures
            r.metadata == metadata,
            r.scores@ == scores@,
            r.team_ranks@ == team_ranks@,
    {
        BallotRepr { metadata, scores, team_ranks }
    }

    /// A ballot of an elimination round: it records which teams advance, and
    /// no speaker scores.
    pub fn new_elim(metadata: BallotMetadata, advancing: Vec<BallotTeamRank>) -> (r: Self)
        ensures
            r.metadata == metadata,
            r.scores@.len() == 0,
            r.team_ranks@ == advancing@,
    {
        BallotRepr { metadata, scores: Vec::new(), team_ranks: advancing }
    }

    /// The metadata of this ballot.
    pub fn ballot(&self) -> (r: &BallotMetadata)
        ensures
            *r == self.metadata,
    {
        &self.metadata
    }

    /// The teams this ballot ranks, each once, in order of first mention.
    pub fn team_ids(&self) -> (r: Vec<String>)
        ensures
            r@ == ballot_team_ids(*self),
    {
        let mut out: Vec<String> = Vec::new();
        let mut i: usize = 0;
        while i < self.team_ranks.len()
            invariant
                i <= self.team_ranks.len(),
                out@ == dedup(rank_team_ids(self.team_ranks@.take(i as int))),
            decreases self.team_ranks.len() - i,
        {
            proof {
                assert(rank_team_ids(self.team_ranks@.take(i as int + 1)).drop_last() =~= rank_team_ids(
                    self.team_ranks@.take(i as int),
                ));
            }
            push_unique(&mut out, self.team_ranks[i].team_id.clone());
            i = i + 1;
        }
        assert(self.team_ranks@.take(self.team_ranks.len() as int) =~= self.team_ranks@);
        out
    }

    /// The number of distinct teams this ballot ranks.
    pub fn team_count(&self) -> (r: usize)
        ensures
            r == ballot_team_ids(*self).len(),
    {
        self.team_ids().len()
    }

    /// The teams this ballot ranks (as `team_ids`).
    pub fn teams(&self) -> (r: Vec<String>)
        ensures
            r@ == ballot_team_ids(*self),
    {
        self.team_ids()
    }

    /// The scores of a team, ordered by speaker position (scores at the same
    /// position keep their order).
    pub fn scores_of_team(&self, team_id: &String) -> (r: Vec<BallotScore>)
        ensures
            r@ == scores_of(*self, team_id@),
    {
        let mut out: Vec<BallotScore> = Vec::new();
        let mut i: usize = 0;
        while i < self.scores.len()
            invariant
                i <= self.scores.len(),
                out@ == sort_by_key(self.scores@.take(i as int).filter(score_of_team(team_id@)), position_key()),
            decreases self.scores.len() - i,
        {
            let ghost prefix = self.scores@.take(i as int);
            proof {
                assert(self.scores@.take(i as int + 1).drop_last() =~= prefix);
                reveal_with_fuel(Seq::filter, 1);
            }
            if self.scores[i].team_id == *team_id {
                let x = self.scores[i].clone();
                let mut j: usize = out.len();
                while j > 0 && out[j - 1].speaker_position > x.speaker_position
                    invariant
                        j <= out.len(),
                        forall|k: int| j <= k < out@.len() ==> (#[trigger] out@[k]).speaker_position > x.speaker_position,
                    decreases j,
                {
                    j = j - 1;
                }
                proof {
                    lemma_insert_by_key_at(out@, x, position_key(), j as int);
                    let f = prefix.filter(score_of_team(team_id@));
                    assert(self.scores@.take(i as int + 1).filter(score_of_team(team_id@)) =~= f.push(x));
                    assert(f.push(x).drop_last() =~= f);
                }
                out.insert(j, x);
            } else {
                proof {
                    assert(self.scores@.take(i as int + 1).filter(score_of_team(team_id@)) =~= prefix.filter(
                        score_of_team(team_id@),
                    ));
                }
            }
            i = i + 1;
        }
        assert(self.scores@.take(self.scores.len() as int) =~= self.scores@);
        out
    }

    /// The points this ballot gives a team.
    pub fn points_of_team(&self, team_id: &String) -> (r: i64)
        requires
            points_of(*self, team_id@) is Some,
        ensures
            points_of(*self, team_id@) == Some(r),
    {
        let mut i: usize = 0;
        while i < self.team_ranks.len()
            invariant
                i <= self.team_ranks.len(),
                points_of(*self, team_id@) is Some,
                forall|j: int| 0 <= j < i ==> !rank_of_team(team_id@)(#[trigger] self.team_ranks@[j]),
            decreases self.team_ranks.len() - i,
        {
            if self.team_ranks[i].team_id == *team_id {
                proof {
                    lemma_first_match_at(self.team_ranks@, rank_of_team(team_id@), i as int);
                }
                return self.team_ranks[i].points;
            }
            i = i + 1;
        }
        proof {
            lemma_first_match_at(self.team_ranks@, rank_of_team(team_id@), i as int);
        }
        0
    }

    /// The teams this ballot ranks, ordered by descending total speaker
    /// score; teams with equal totals keep their order of first mention.
    pub fn teams_in_rank_order(&self) -> (r: Vec<String>)
        ensures
            r@ == sort_by_key(ballot_team_ids(*self), descending_total(self.scores@)),
    {
        let ids = self.team_ids();
        let mut out: Vec<String> = Vec::new();
        let mut keys: Vec<i128> = Vec::new();
        let mut i: usize = 0;
        while i < ids.len()
            invariant
                i <= ids.len(),
                ids@ == ballot_team_ids(*self),
                out@ == sort_by_key(ids@.take(i as int), descending_total(self.scores@)),
                keys@.len() == out@.len(),
                forall|k: int| 0 <= k < keys@.len() ==> keys@[k] as int == -team_total(self.scores@, #[trigger] out@[k]@),
            decreases ids.len() - i,
        {
            let x = ids[i].clone();
            let total = total_of_team(&self.scores, &x);
            let n_scores = self.scores.len();
            assert(n_scores as int * 0x8000_0000_0000_0000 <= 0x7fff_ffff_ffff_ffff_8000_0000_0000_0000);
            assert(-0x7fff_ffff_ffff_ffff_ffff_ffff_ffff_ffff <= total);
            let key: i128 = -total;
            let mut j: usize = out.len();
            while j > 0 && keys[j - 1] > key
                invariant
                    j <= out.len(),
                    keys@.len() == out@.len(),
                    forall|k: int| 0 <= k < keys@.len() ==> keys@[k] as int == -team_total(self.scores@, #[trigger] out@[k]@),
                    forall|k: int| j <= k < out@.len() ==> descending_total(self.scores@)(#[trigger] out@[k]) > key,
                decreases j,
            {
                j = j - 1;
            }
            let ghost out0 = out@;
            let ghost keys0 = keys@;
            proof {
                if j > 0 {
                    assert(keys@[j - 1] as int == -team_total(self.scores@, out@[j - 1]@));
                }
                lemma_insert_by_key_at(out@, x, descending_total(self.scores@), j as int);
                assert(ids@.take(i as int + 1).drop_last() =~= ids@.take(i as int));
            }
            out.insert(j, x);
            keys.insert(j, key);
            proof {
                assert forall|k: int| 0 <= k < keys@.len() implies keys@[k] as int == -team_total(
                    self.scores@,
                    #[trigger] out@[k]@,
                ) by {
                    if k < j {
                        assert(out@[k] == out0[k] && keys@[k] == keys0[k]);
                    } else if k == j {
                    } else {
                        assert(out@[k] == out0[k - 1] && keys@[k] == keys0[k - 1]);
                    }
                }
            }
            i = i + 1;
        }
        assert(ids@.take(ids.len() as int) =~= ids@);
        out
    }
}

} // verus!
