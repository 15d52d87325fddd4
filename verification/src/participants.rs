//! The people of a tournament: teams, speakers and judges.
use vstd::prelude::*;

verus! {

/// A copy of an optional string.
pub fn clone_opt_string(o: &Option<String>) -> (r: Option<String>)
    ensures
        r == *o,
{
    match o {
        Some(s) => Some(s.clone()),
        None => None,
    }
}

/// A team entered in a tournament.
pub struct Team {
    pub id: String,
    pub tournament_id: String,
    pub name: String,
    pub institution_id: Option<String>,
    pub number: i64,
}

impl Clone for Team {
    fn clone(&self) -> (r: Self)
        ensures
            r == *self,
    {
        Team {
            id: self.id.clone(),
            tournament_id: self.tournament_id.clone(),
            name: self.name.clone(),
            institution_id: clone_opt_string(&self.institution_id),
            number: self.number,
        }
    }
}

/// A speaker, a member of a team.
pub struct Speaker {
    pub id: String,
    pub tournament_id: String,
    pub name: String,
}

impl Clone for Speaker {
    fn clone(&self) -> (r: Self)
        ensures
            r == *self,
    {
        Speaker { id: self.id.clone(), tournament_id: self.tournament_id.clone(), name: self.name.clone() }
    }
}

/// An adjudicator.
pub struct Judge {
    pub id: String,
    pub tournament_id: String,
    pub name: String,
    pub number: i64,
}

impl Clone for Judge {
    fn clone(&self) -> (r: Self)
        ensures
            r == *self,
    {
        Judge {
            id: self.id.clone(),
            tournament_id: self.tournament_id.clone(),
            name: self.name.clone(),
            number: self.number,
        }
    }
}

/// The place of a judge on the panel of a debate. The status is "C" for the
/// chair, "P" for a panelist and "T" for a trainee.
pub struct DebateJudge {
    pub id: String,
    pub tournament_id: String,
    pub debate_id: String,
    pub judge_id: String,
    pub status: String,
}

impl Clone for DebateJudge {
    fn clone(&self) -> (r: Self)
        ensures
            r == *self,
    {
        DebateJudge {
            id: self.id.clone(),
            tournament_id: self.tournament_id.clone(),
            debate_id: self.debate_id.clone(),
            judge_id: self.judge_id.clone(),
            status: self.status.clone(),
        }
    }
}

} // verus!

verus! {

/// The speakers and judges of a tournament.
pub struct TournamentParticipants {
    pub speakers: Vec<Speaker>,
    pub judges: Vec<Judge>,
}

/// The name of speaker `id`, or the empty text when there is no such
/// speaker (the first speaker with that identifier counts).
pub open spec fn speaker_name_or_empty(p: TournamentParticipants, id: Seq<char>) -> Seq<char> {
    match crate::seqs::first_match(p.speakers@, |s: Speaker| s.id@ == id) {
        Some(s) => s.name@,
        None => Seq::empty(),
    }
}

impl TournamentParticipants {
    /// The name of speaker `id`, or the empty text.
    pub fn speaker_name(&self, id: &String) -> (r: String)
        ensures
            r@ == speaker_name_or_empty(*self, id@),
    {
        let mut i: usize = 0;
        while i < self.speakers.len()
            invariant
                i <= self.speakers.len(),
                forall|j: int| 0 <= j < i ==> (#[trigger] self.speakers@[j]).id@ != id@,
            decreases self.speakers.len() - i,
        {
            if self.speakers[i].id == *id {
                proof {
                    crate::seqs::lemma_first_match_at(self.speakers@, |s: Speaker| s.id@ == id@, i as int);
                }
                return self.speakers[i].name.clone();
            }
            i = i + 1;
        }
        proof {
            crate::seqs::lemma_first_match_at(self.speakers@, |s: Speaker| s.id@ == id@, i as int);
        }
        String::new()
    }
}

} // verus!
