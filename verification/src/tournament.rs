//! The tournament settings that the rules of the library depend on.
use vstd::prelude::*;

verus! {

/// A tournament's format settings. Speaker score bounds are held in
/// hundredths of a point.
pub struct Tournament {
    pub id: String,
    pub teams_per_side: i64,
    pub substantive_speakers: i64,
    pub reply_speakers: bool,
    pub substantive_speech_min_speak: Option<i64>,
    pub substantive_speech_max_speak: Option<i64>,
    pub reply_speech_min_speak: Option<i64>,
    pub reply_speech_max_speak: Option<i64>,
}

/// `a`, or `b` where `a` is absent.
pub open spec fn or_else(a: Option<i64>, b: Option<i64>) -> Option<i64> {
    match a {
        Some(x) => Some(x),
        None => b,
    }
}

/// The bounds that apply to a speech: a reply speech falls back to the
/// substantive bounds where no reply bound is set.
pub open spec fn score_bounds(t: Tournament, is_reply: bool) -> (Option<i64>, Option<i64>) {
    if is_reply {
        (
            or_else(t.reply_speech_min_speak, t.substantive_speech_min_speak),
            or_else(t.reply_speech_max_speak, t.substantive_speech_max_speak),
        )
    } else {
        (t.substantive_speech_min_speak, t.substantive_speech_max_speak)
    }
}

/// Whether a score (in hundredths) lies within the bounds of its speech.
pub open spec fn score_within_bounds(t: Tournament, score: int, is_reply: bool) -> bool {
    let (lo, hi) = score_bounds(t, is_reply);
    &&& (lo matches Some(l) ==> l <= score)
    &&& (hi matches Some(h) ==> score <= h)
}

/// The number of speeches each team gives (substantive plus reply).
pub open spec fn expected_speakers(t: Tournament) -> int {
    t.substantive_speakers + if t.reply_speakers { 1int } else { 0int }
}

fn option_or(a: Option<i64>, b: Option<i64>) -> (r: Option<i64>)
    ensures
        r == or_else(a, b),
{
    match a {
        Some(x) => Some(x),
        None => b,
    }
}

/// The lower and upper score bounds (in hundredths) for a speech.
pub fn get_score_bounds(tournament: &Tournament, is_reply: bool) -> (r: (Option<i64>, Option<i64>))
    ensures
        r == score_bounds(*tournament, is_reply),
{
    if is_reply {
        (
            option_or(tournament.reply_speech_min_speak, tournament.substantive_speech_min_speak),
            option_or(tournament.reply_speech_max_speak, tournament.substantive_speech_max_speak),
        )
    } else {
        (tournament.substantive_speech_min_speak, tournament.substantive_speech_max_speak)
    }
}

impl Tournament {
    /// Whether a score (in hundredths) is allowed for the speech.
    pub fn score_is_valid(&self, score: i64, is_reply: bool) -> (r: bool)
        ensures
            r == score_within_bounds(*self, score as int, is_reply),
    {
        let (lo, hi) = get_score_bounds(self, is_reply);
        let above = match lo {
            Some(l) => l <= score,
            None => true,
        };
        let below = match hi {
            Some(h) => score <= h,
            None => true,
        };
        above && below
    }
}

} // verus!
