//! Availability of teams and judges for a round. A team or judge is
//! available for at most one of the rounds that run at the same time:
//! making it available for one round withdraws it from the others.
use vstd::prelude::*;
use crate::rounds::{Round, precedes};
use crate::seqs::{views, first_match, contains_string};
use crate::draw_edit::str_eq;

verus! {

/// Whether a team or judge (the member) is available for a round.
pub struct Availability {
    pub id: String,
    pub round_id: String,
    pub member_id: String,
    pub available: bool,
}

/// An availability row seen as texts: the round, the member, and whether
/// the member is available.
pub type AvailView = (Seq<char>, Seq<char>, bool);

/// The view of a row.
pub open spec fn avail_view(a: Availability) -> AvailView {
    (a.round_id@, a.member_id@, a.available)
}

/// The views of some rows.
pub open spec fn avail_views(rows: Seq<Availability>) -> Seq<AvailView> {
    rows.map_values(|a: Availability| avail_view(a))
}

/// Why availability could not be changed.
pub enum AvailabilityError {
    NotFound,
    RoundCompleted,
    /// The named round precedes the round and must be completed first.
    PrecedingRound(String),
    InvalidCheckOption,
}

impl AvailabilityError {
    /// The message shown for the error.
    pub fn message(&self) -> (r: String)
        ensures
            match *self {
                AvailabilityError::NotFound => r@ == "Not found"@,
                AvailabilityError::RoundCompleted => r@
                    == "Note: the current round has been completed, so judge availability can no longer be updated!"@,
                AvailabilityError::PrecedingRound(name) => r@ == "Note: "@ + name@
                    + " should be marked as complete first (it precedes the current round)"@,
                AvailabilityError::InvalidCheckOption => r@ == "Invalid check-in option."@,
            },
    {
        match self {
            AvailabilityError::NotFound => String::from_str("Not found"),
            AvailabilityError::RoundCompleted => String::from_str(
                "Note: the current round has been completed, so judge availability can no longer be updated!",
            ),
            AvailabilityError::PrecedingRound(name) => String::from_str("Note: ").concat(name.as_str()).concat(
                " should be marked as complete first (it precedes the current round)",
            ),
            AvailabilityError::InvalidCheckOption => String::from_str("Invalid check-in option."),
        }
    }
}

/// The rounds that run at the same time as a round: the other rounds of
/// its tournament with its sequence number.
pub open spec fn concurrent_ids(rounds: Seq<Round>, round: Round) -> Seq<Seq<char>>
    decreases rounds.len(),
{
    if rounds.len() == 0 {
        seq![]
    } else {
        let rest = concurrent_ids(rounds.drop_last(), round);
        let r = rounds.last();
        if r.tournament_id@ == round.tournament_id@ && r.seq == round.seq && r.id@ != round.id@ {
            rest.push(r.id@)
        } else {
            rest
        }
    }
}

/// The rounds that run at the same time as a round.
pub fn concurrent_round_ids(rounds: &Vec<Round>, round: &Round) -> (r: Vec<String>)
    ensures
        views(r@) == concurrent_ids(rounds@, *round),
{
    let mut out: Vec<String> = Vec::new();
    let mut k: usize = 0;
    while k < rounds.len()
        invariant
            k <= rounds@.len(),
            views(out@) == concurrent_ids(rounds@.take(k as int), *round),
        decreases rounds@.len() - k,
    {
        proof {
            assert(rounds@.take(k as int + 1).drop_last() =~= rounds@.take(k as int));
        }
        let r = &rounds[k];
        if r.tournament_id == round.tournament_id && r.seq == round.seq && r.id != round.id {
            let ghost before = out@;
            out.push(r.id.clone());
            proof {
                assert(views(out@) =~= views(before).push(r.id@));
            }
        }
        k = k + 1;
    }
    proof {
        assert(rounds@.take(rounds@.len() as int) =~= rounds@);
    }
    out
}

/// Whether the rows hold one for the member in the round.
pub open spec fn has_row(rows: Seq<AvailView>, round_id: Seq<char>, member: Seq<char>) -> bool {
    exists|k: int| 0 <= k < rows.len() && (#[trigger] rows[k]).0 == round_id && rows[k].1 == member
}

/// A row after the member's availability for the round is set.
pub open spec fn set_row(a: AvailView, round_id: Seq<char>, member: Seq<char>, available: bool) -> AvailView {
    if a.0 == round_id && a.1 == member {
        (a.0, a.1, available)
    } else {
        a
    }
}

/// The rows after the member's availability for the round is set: the
/// member's row for the round is updated, or added where there is none.
pub open spec fn upsert(rows: Seq<AvailView>, round_id: Seq<char>, member: Seq<char>, available: bool) -> Seq<AvailView> {
    if has_row(rows, round_id, member) {
        Seq::new(rows.len(), |k: int| set_row(rows[k], round_id, member, available))
    } else {
        rows.push((round_id, member, available))
    }
}

/// The rows with the member made unavailable for the given rounds.
pub open spec fn withdraw(rows: Seq<AvailView>, member: Option<Seq<char>>, round_ids: Seq<Seq<char>>) -> Seq<AvailView> {
    Seq::new(
        rows.len(),
        |k: int|
            if round_ids.contains(rows[k].0) && (member matches Some(m) ==> rows[k].1 == m) {
                (rows[k].0, rows[k].1, false)
            } else {
                rows[k]
            },
    )
}

/// Every row that was there keeps its place and its identifier; rows may
/// be added after them.
pub open spec fn keeps_ids(before: Seq<Availability>, after: Seq<Availability>) -> bool {
    &&& before.len() <= after.len()
    &&& forall|k: int| 0 <= k < before.len() ==> (#[trigger] after[k]).id == before[k].id
}

/// Sets the member's availability for the round, adding a row where there
/// is none.
fn upsert_exec(rows: &mut Vec<Availability>, round_id: &String, member: &String, available: bool)
    ensures
        avail_views(final(rows)@) == upsert(avail_views(old(rows)@), round_id@, member@, available),
        keeps_ids(old(rows)@, final(rows)@),
{
    let ghost before = avail_views(rows@);
    let mut found = false;
    let mut k: usize = 0;
    let n = rows.len();
    while k < n
        invariant
            n == rows@.len(),
            n == before.len(),
            k <= n,
            found == exists|j: int| 0 <= j < k && (#[trigger] before[j]).0 == round_id@ && before[j].1 == member@,
            forall|j: int| 0 <= j < k ==> (#[trigger] avail_views(rows@)[j]) == set_row(before[j], round_id@, member@, available),
            forall|j: int| k <= j < n ==> (#[trigger] avail_views(rows@)[j]) == before[j],
            forall|j: int| 0 <= j < n ==> (#[trigger] rows@[j]).id == old(rows)@[j].id,
            before == avail_views(old(rows)@),
        decreases n - k,
    {
        proof {
            assert(avail_views(rows@)[k as int] == avail_view(rows@[k as int]));
            assert(before[k as int] == avail_view(rows@[k as int]));
        }
        let ghost pre = rows@;
        let matches = rows[k].round_id == *round_id && rows[k].member_id == *member;
        if matches {
            let old_row = &rows[k];
            let row = Availability {
                id: old_row.id.clone(),
                round_id: old_row.round_id.clone(),
                member_id: old_row.member_id.clone(),
                available,
            };
            rows.set(k, row);
            found = true;
        }
        proof {
            assert(avail_views(rows@)[k as int] == avail_view(rows@[k as int]));
            if !matches {
                assert(rows@ == pre);
            }
            assert forall|j: int| 0 <= j < n && j != k implies (#[trigger] avail_views(rows@)[j]) == avail_views(pre)[j] by {
                assert(rows@[j] == pre[j]);
            }
            assert(avail_views(rows@)[k as int] == set_row(before[k as int], round_id@, member@, available));
        }
        k = k + 1;
    }
    if !found {
        let ghost mid = rows@;
        rows.push(
            Availability {
                id: crate::aggregate::new_id(),
                round_id: round_id.clone(),
                member_id: member.clone(),
                available,
            },
        );
        proof {
            assert(!has_row(before, round_id@, member@));
            assert forall|j: int| 0 <= j < n implies avail_views(mid)[j] == before[j] by {
                assert(set_row(before[j], round_id@, member@, available) == before[j]);
            }
            assert(avail_views(rows@) =~= before.push((round_id@, member@, available)));
        }
    } else {
        proof {
            assert(has_row(before, round_id@, member@));
            assert(avail_views(rows@) =~= upsert(before, round_id@, member@, available));
        }
    }
}

/// Makes the member (or every member, where none is given) unavailable
/// for the given rounds.
fn withdraw_exec(rows: &mut Vec<Availability>, member: Option<&String>, round_ids: &Vec<String>)
    ensures
        avail_views(final(rows)@) == withdraw(
            avail_views(old(rows)@),
            match member {
                Some(m) => Some(m@),
                None => None,
            },
            views(round_ids@),
        ),
        final(rows)@.len() == old(rows)@.len(),
        keeps_ids(old(rows)@, final(rows)@),
{
    let ghost before = avail_views(rows@);
    let ghost mv = match member {
        Some(m) => Some(m@),
        None => None::<Seq<char>>,
    };
    let ghost target = withdraw(before, mv, views(round_ids@));
    let mut k: usize = 0;
    let n = rows.len();
    while k < n
        invariant
            n == rows@.len(),
            n == before.len(),
            k <= n,
            target == withdraw(before, mv, views(round_ids@)),
            mv == match member {
                Some(m) => Some(m@),
                None => None::<Seq<char>>,
            },
            forall|j: int| 0 <= j < k ==> (#[trigger] avail_views(rows@)[j]) == target[j],
            forall|j: int| k <= j < n ==> (#[trigger] avail_views(rows@)[j]) == before[j],
            forall|j: int| 0 <= j < n ==> (#[trigger] rows@[j]).id == old(rows)@[j].id,
            n == old(rows)@.len(),
        decreases n - k,
    {
        proof {
            assert(avail_views(rows@)[k as int] == avail_view(rows@[k as int]));
            assert(before[k as int] == avail_view(rows@[k as int]));
        }
        let ghost pre = rows@;
        let member_ok = match member {
            Some(m) => rows[k].member_id == *m,
            None => true,
        };
        if member_ok && contains_string(round_ids, &rows[k].round_id) {
            let old_row = &rows[k];
            let row = Availability {
                id: old_row.id.clone(),
                round_id: old_row.round_id.clone(),
                member_id: old_row.member_id.clone(),
                available: false,
            };
            rows.set(k, row);
        }
        proof {
            assert(avail_views(rows@)[k as int] == avail_view(rows@[k as int]));
            assert forall|j: int| 0 <= j < n && j != k implies (#[trigger] avail_views(rows@)[j]) == avail_views(pre)[j] by {
                assert(rows@[j] == pre[j]);
            }
            assert(avail_views(rows@)[k as int] == target[k as int]);
        }
        k = k + 1;
    }
    proof {
        assert(avail_views(rows@) =~= target);
    }
}

/// Sets whether a member is available for a round, and makes it
/// unavailable for the rounds that run at the same time. Afterwards the
/// member is available for no round that runs at the same time as this
/// one, and has a row for this round that says `available`.
pub fn set_availability(rows: &Vec<Availability>, round: &Round, member_id: &String, available: bool, rounds: &Vec<Round>) -> (r: Vec<Availability>)
    ensures
        keeps_ids(rows@, r@),
        avail_views(r@) == withdraw(
            upsert(avail_views(rows@), round.id@, member_id@, available),
            Some(member_id@),
            concurrent_ids(rounds@, *round),
        ),
        forall|k: int|
            0 <= k < r@.len() && (#[trigger] r@[k]).member_id@ == member_id@ && concurrent_ids(rounds@, *round).contains(
                r@[k].round_id@,
            ) ==> !r@[k].available,
        !concurrent_ids(rounds@, *round).contains(round.id@) ==> exists|k: int|
            0 <= k < r@.len() && (#[trigger] r@[k]).round_id@ == round.id@ && r@[k].member_id@ == member_id@
                && r@[k].available == available,
{
    let mut out = clone_rows(rows);
    proof {
        assert(avail_views(out@) =~= avail_views(rows@));
    }
    upsert_exec(&mut out, &round.id, member_id, available);
    let ghost mid = avail_views(out@);
    let concurrent = concurrent_round_ids(rounds, round);
    withdraw_exec(&mut out, Some(member_id), &concurrent);
    proof {
        let v = avail_views(out@);
        assert forall|k: int|
            0 <= k < out@.len() && (#[trigger] out@[k]).member_id@ == member_id@ && concurrent_ids(rounds@, *round).contains(
                out@[k].round_id@,
            ) implies !out@[k].available by {
            assert(v[k] == avail_view(out@[k]));
        }
        if !concurrent_ids(rounds@, *round).contains(round.id@) {
            let u = upsert(avail_views(rows@), round.id@, member_id@, available);
            let k = if has_row(avail_views(rows@), round.id@, member_id@) {
                choose|k: int| 0 <= k < avail_views(rows@).len() && (#[trigger] avail_views(rows@)[k]).0 == round.id@
                    && avail_views(rows@)[k].1 == member_id@
            } else {
                avail_views(rows@).len() as int
            };
            assert(0 <= k < u.len());
            assert(u[k] == (round.id@, member_id@, available));
            assert(v.len() == u.len());
            assert(v.len() == out@.len());
            assert(v[k] == avail_view(out@[k]));
        }
    }
    out
}

/// A copy of the rows.
fn clone_rows(rows: &Vec<Availability>) -> (r: Vec<Availability>)
    ensures
        r@.len() == rows@.len(),
        forall|k: int| 0 <= k < r@.len() ==> (#[trigger] r@[k]) == rows@[k],
{
    let mut out: Vec<Availability> = Vec::new();
    let mut k: usize = 0;
    while k < rows.len()
        invariant
            k <= rows@.len(),
            out@.len() == k,
            forall|j: int| 0 <= j < k ==> (#[trigger] out@[j]) == rows@[j],
        decreases rows@.len() - k,
    {
        let row = &rows[k];
        out.push(
            Availability {
                id: row.id.clone(),
                round_id: row.round_id.clone(),
                member_id: row.member_id.clone(),
                available: row.available,
            },
        );
        k = k + 1;
    }
    out
}

/// Checks that availability may still change for the round: the round is
/// not complete and no earlier round of the tournament is still incomplete.
pub fn check_availability_editable(round: &Round, rounds: &Vec<Round>) -> (r: Result<(), AvailabilityError>)
    ensures
        round.completed ==> r matches Err(AvailabilityError::RoundCompleted),
        !round.completed ==> match first_match(rounds@, precedes(round.tournament_id@, round.seq)) {
            Some(prev) => r matches Err(AvailabilityError::PrecedingRound(name)) && name == prev.name,
            None => r is Ok,
        },
{
    if round.completed {
        return Err(AvailabilityError::RoundCompleted);
    }
    match round.find_first_preceding_incomplete_round(rounds) {
        Some(prev) => Err(AvailabilityError::PrecedingRound(prev.name)),
        None => Ok(()),
    }
}

/// Whether an optional text is the given one.
pub open spec fn opt_is_text(o: Option<Seq<char>>, s: Seq<char>) -> bool {
    o == Some(s)
}

/// The view of an optional text.
pub open spec fn opt_str_view(o: Option<&str>) -> Option<Seq<char>> {
    match o {
        Some(s) => Some(s@),
        None => None,
    }
}

/// Sets whether a team is available for a round, from the form's
/// `available` field ("true" makes it available): refused where the round
/// is complete or an earlier round is still incomplete.
pub fn update_team_eligibility(
    rows: &Vec<Availability>,
    rounds: &Vec<Round>,
    round: &Round,
    team_id: &String,
    available: Option<&str>,
) -> (r: Result<Vec<Availability>, AvailabilityError>)
    ensures
        match check_editable_spec(*round, rounds@) {
            Some(e) => r matches Err(x) && error_is(x, e),
            None => r matches Ok(out) && keeps_ids(rows@, out@) && avail_views(out@) == withdraw(
                upsert(avail_views(rows@), round.id@, team_id@, opt_is_text(opt_str_view(available), "true"@)),
                Some(team_id@),
                concurrent_ids(rounds@, *round),
            ),
        },
{
    let available_bool = match available {
        Some(a) => str_eq(a, "true"),
        None => false,
    };
    match check_availability_editable(round, rounds) {
        Err(e) => Err(e),
        Ok(()) => Ok(set_availability(rows, round, team_id, available_bool, rounds)),
    }
}

/// What stops availability from changing for the round, as a spec.
pub open spec fn check_editable_spec(round: Round, rounds: Seq<Round>) -> Option<AvailabilityError> {
    if round.completed {
        Some(AvailabilityError::RoundCompleted)
    } else {
        match first_match(rounds, precedes(round.tournament_id@, round.seq)) {
            Some(prev) => Some(AvailabilityError::PrecedingRound(prev.name)),
            None => None,
        }
    }
}

/// Whether an error is the expected one.
pub open spec fn error_is(x: AvailabilityError, e: AvailabilityError) -> bool {
    match (x, e) {
        (AvailabilityError::RoundCompleted, AvailabilityError::RoundCompleted) => true,
        (AvailabilityError::PrecedingRound(a), AvailabilityError::PrecedingRound(b)) => a == b,
        (AvailabilityError::NotFound, AvailabilityError::NotFound) => true,
        (AvailabilityError::InvalidCheckOption, AvailabilityError::InvalidCheckOption) => true,
        _ => false,
    }
}

/// Toggles whether a judge is available for a round: the form's
/// `available` field says whether the judge was shown as available ("on"),
/// and the judge is made the opposite.
pub fn update_judge_availability(
    rows: &Vec<Availability>,
    rounds: &Vec<Round>,
    round: &Round,
    judge_id: &String,
    available: Option<&str>,
) -> (r: Vec<Availability>)
    ensures
        keeps_ids(rows@, r@),
        avail_views(r@) == withdraw(
            upsert(avail_views(rows@), round.id@, judge_id@, !opt_is_text(opt_str_view(available), "on"@)),
            Some(judge_id@),
            concurrent_ids(rounds@, *round),
        ),
{
    let shown = match available {
        Some(a) => str_eq(a, "on"),
        None => false,
    };
    set_availability(rows, round, judge_id, !shown, rounds)
}

/// The rows after every member is checked in for a round, in turn.
pub open spec fn check_in_all(rows: Seq<AvailView>, round_id: Seq<char>, members: Seq<Seq<char>>) -> Seq<AvailView>
    decreases members.len(),
{
    if members.len() == 0 {
        rows
    } else {
        upsert(check_in_all(rows, round_id, members.drop_last()), round_id, members.last(), true)
    }
}

/// The rows after a check-in or check-out of every member: "in" makes every
/// member available for the round and nobody for the rounds that run at the
/// same time; "out" makes nobody available for the round.
pub open spec fn check_all_spec(
    rows: Seq<AvailView>,
    rounds: Seq<Round>,
    round: Round,
    members: Seq<Seq<char>>,
    check: Seq<char>,
) -> Option<Seq<AvailView>> {
    if check == "in"@ {
        Some(withdraw(check_in_all(rows, round.id@, members), None, concurrent_ids(rounds, round)))
    } else if check == "out"@ {
        Some(withdraw(rows, None, seq![round.id@]))
    } else {
        None
    }
}

/// Checks every member in ("in") or out ("out") of a round.
fn check_all(
    rows: &Vec<Availability>,
    rounds: &Vec<Round>,
    round: &Round,
    member_ids: &Vec<String>,
    check: &str,
) -> (r: Result<Vec<Availability>, AvailabilityError>)
    ensures
        match check_all_spec(avail_views(rows@), rounds@, *round, views(member_ids@), check@) {
            Some(v) => r matches Ok(out) && keeps_ids(rows@, out@) && avail_views(out@) == v,
            None => r matches Err(AvailabilityError::InvalidCheckOption),
        },
{
    proof {
        reveal_strlit("in");
        reveal_strlit("out");
    }
    if str_eq(check, "in") {
        let mut out = clone_rows(rows);
        proof {
            assert(avail_views(out@) =~= avail_views(rows@));
        }
        let mut i: usize = 0;
        while i < member_ids.len()
            invariant
                i <= member_ids@.len(),
                avail_views(out@) == check_in_all(avail_views(rows@), round.id@, views(member_ids@.take(i as int))),
                keeps_ids(rows@, out@),
            decreases member_ids@.len() - i,
        {
            proof {
                assert(views(member_ids@.take(i as int + 1)).drop_last() =~= views(member_ids@.take(i as int)));
                assert(views(member_ids@.take(i as int + 1)).last() == member_ids@[i as int]@);
            }
            upsert_exec(&mut out, &round.id, &member_ids[i], true);
            i = i + 1;
        }
        proof {
            assert(member_ids@.take(member_ids@.len() as int) =~= member_ids@);
        }
        let concurrent = concurrent_round_ids(rounds, round);
        withdraw_exec(&mut out, None, &concurrent);
        Ok(out)
    } else if str_eq(check, "out") {
        let mut out = clone_rows(rows);
        proof {
            assert(avail_views(out@) =~= avail_views(rows@));
        }
        let mut this_round: Vec<String> = Vec::new();
        this_round.push(round.id.clone());
        proof {
            assert(views(this_round@) =~= seq![round.id@]);
        }
        withdraw_exec(&mut out, None, &this_round);
        Ok(out)
    } else {
        Err(AvailabilityError::InvalidCheckOption)
    }
}

/// Checks every team in or out of a round: refused where the round is
/// complete or an earlier round is still incomplete, or where the option is neither "in"
/// nor "out".
pub fn update_eligibility_for_all(
    rows: &Vec<Availability>,
    rounds: &Vec<Round>,
    round: &Round,
    team_ids: &Vec<String>,
    check: &str,
) -> (r: Result<Vec<Availability>, AvailabilityError>)
    ensures
        match check_editable_spec(*round, rounds@) {
            Some(e) => r matches Err(x) && error_is(x, e),
            None => match check_all_spec(avail_views(rows@), rounds@, *round, views(team_ids@), check@) {
                Some(v) => r matches Ok(out) && keeps_ids(rows@, out@) && avail_views(out@) == v,
                None => r matches Err(AvailabilityError::InvalidCheckOption),
            },
        },
{
    match check_availability_editable(round, rounds) {
        Err(e) => Err(e),
        Ok(()) => check_all(rows, rounds, round, team_ids, check),
    }
}

/// Checks every judge in or out of a round; refused where the option is
/// neither "in" nor "out".
pub fn update_judge_availability_for_all(
    rows: &Vec<Availability>,
    rounds: &Vec<Round>,
    round: &Round,
    judge_ids: &Vec<String>,
    check: &str,
) -> (r: Result<Vec<Availability>, AvailabilityError>)
    ensures
        match check_all_spec(avail_views(rows@), rounds@, *round, views(judge_ids@), check@) {
            Some(v) => r matches Ok(out) && keeps_ids(rows@, out@) && avail_views(out@) == v,
            None => r matches Err(AvailabilityError::InvalidCheckOption),
        },
{
    check_all(rows, rounds, round, judge_ids, check)
}

} // verus!

verus! {

/// The number of rows of the round that say available.
pub open spec fn available_count(rows: Seq<AvailView>, round_id: Seq<char>) -> nat
    decreases rows.len(),
{
    if rows.len() == 0 {
        0
    } else {
        available_count(rows.drop_last(), round_id) + if rows.last().0 == round_id && rows.last().2 {
            1nat
        } else {
            0nat
        }
    }
}

/// The number of members available for the round, and the total given;
/// the share of the two is taken where it is shown.
pub fn count_available(rows: &Vec<Availability>, round_id: &String, total: i64) -> (r: (i64, i64))
    requires
        rows@.len() <= i64::MAX,
    ensures
        r.0 == available_count(avail_views(rows@), round_id@),
        r.1 == total,
{
    let mut n: i64 = 0;
    let mut k: usize = 0;
    while k < rows.len()
        invariant
            k <= rows@.len(),
            rows@.len() <= i64::MAX,
            n == available_count(avail_views(rows@.take(k as int)), round_id@),
            n <= k,
        decreases rows@.len() - k,
    {
        proof {
            assert(avail_views(rows@.take(k as int + 1)).drop_last() =~= avail_views(rows@.take(k as int)));
            assert(avail_views(rows@.take(k as int + 1)).last() == avail_view(rows@[k as int]));
        }
        if rows[k].round_id == *round_id && rows[k].available {
            n = n + 1;
        }
        k = k + 1;
    }
    proof {
        assert(rows@.take(rows@.len() as int) =~= rows@);
    }
    (n, total)
}

} // verus!
