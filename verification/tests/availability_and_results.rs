use tournaments::availability::{
    check_availability_editable, count_available, set_availability, update_eligibility_for_all,
    update_judge_availability, update_judge_availability_for_all, update_team_eligibility, Availability,
    AvailabilityError,
};
use tournaments::ballots::{BallotMetadata, BallotRepr, BallotScore, BallotTeamRank};
use tournaments::draws::{Debate, DebateRepr, DebateTeam};
use tournaments::participants::{DebateJudge, Judge, Team};
use tournaments::results::{set_round_completed, with_draw_status, with_results_published, CompletionError};
use tournaments::rounds::Round;
use tournaments::tournament::Tournament;

fn round(id: &str, seq: i64, completed: bool) -> Round {
    Round {
        id: id.to_string(),
        tournament_id: "t1".to_string(),
        seq,
        name: format!("Round {id}"),
        kind: "P".to_string(),
        break_cat: None,
        completed,
        draw_status: "draft".to_string(),
        draw_released_at: None,
        motions_released_at: None,
        results_published_at: None,
    }
}

fn row(round_id: &str, member: &str, available: bool) -> Availability {
    Availability { id: format!("{round_id}/{member}"), round_id: round_id.to_string(), member_id: member.to_string(), available }
}

fn view(rows: &[Availability]) -> Vec<(String, String, bool)> {
    rows.iter().map(|r| (r.round_id.clone(), r.member_id.clone(), r.available)).collect()
}

fn v(r: &str, m: &str, a: bool) -> (String, String, bool) {
    (r.to_string(), m.to_string(), a)
}

#[test]
fn availability_for_one_of_concurrent_rounds() {
    let rounds = vec![round("A", 1, false), round("B", 1, false), round("C", 2, false)];
    let rows = vec![row("B", "T1", true), row("C", "T1", true), row("B", "T2", true)];
    let out = set_availability(&rows, &rounds[0], &"T1".to_string(), true, &rounds);
    assert_eq!(view(&out), vec![v("B", "T1", false), v("C", "T1", true), v("B", "T2", true), v("A", "T1", true)]);
    let out2 = set_availability(&out, &rounds[0], &"T1".to_string(), false, &rounds);
    assert_eq!(view(&out2), vec![v("B", "T1", false), v("C", "T1", true), v("B", "T2", true), v("A", "T1", false)]);
    assert_eq!(out2.len(), 4);
}

#[test]
fn team_eligibility_needs_an_open_round() {
    let rounds = vec![round("A", 1, false), round("B", 2, false)];
    let rows: Vec<Availability> = vec![];
    match update_team_eligibility(&rows, &rounds, &rounds[1], &"T1".to_string(), Some("true")) {
        Err(AvailabilityError::PrecedingRound(name)) => assert_eq!(name, "Round A"),
        _ => panic!("a later round was updated"),
    }
    let done = round("A", 1, true);
    match update_team_eligibility(&rows, &rounds, &done, &"T1".to_string(), Some("true")) {
        Err(e) => assert_eq!(
            e.message(),
            "Note: the current round has been completed, so judge availability can no longer be updated!"
        ),
        Ok(_) => panic!("a completed round was updated"),
    }
    match update_team_eligibility(&rows, &rounds, &rounds[0], &"T1".to_string(), Some("true")) {
        Ok(out) => assert_eq!(view(&out), vec![v("A", "T1", true)]),
        Err(_) => panic!("the first round was not updated"),
    }
    match update_team_eligibility(&rows, &rounds, &rounds[0], &"T1".to_string(), None) {
        Ok(out) => assert_eq!(view(&out), vec![v("A", "T1", false)]),
        Err(_) => panic!("the first round was not updated"),
    }
    assert!(matches!(check_availability_editable(&rounds[0], &rounds), Ok(())));
    assert_eq!(
        AvailabilityError::PrecedingRound("R1".to_string()).message(),
        "Note: R1 should be marked as complete first (it precedes the current round)"
    );
}

#[test]
fn judge_availability_toggles() {
    let rounds = vec![round("A", 1, false)];
    let rows = vec![row("A", "J1", true)];
    let out = update_judge_availability(&rows, &rounds, &rounds[0], &"J1".to_string(), Some("on"));
    assert_eq!(view(&out), vec![v("A", "J1", false)]);
    let out = update_judge_availability(&out, &rounds, &rounds[0], &"J1".to_string(), None);
    assert_eq!(view(&out), vec![v("A", "J1", true)]);
}

#[test]
fn checking_everyone_in_and_out() {
    let rounds = vec![round("A", 1, false), round("B", 1, false)];
    let rows = vec![row("B", "T1", true), row("A", "T2", false)];
    let members = vec!["T1".to_string(), "T2".to_string()];
    let out = match update_eligibility_for_all(&rows, &rounds, &rounds[0], &members, "in") {
        Ok(out) => out,
        Err(_) => panic!("check-in was refused"),
    };
    assert_eq!(view(&out), vec![v("B", "T1", false), v("A", "T2", true), v("A", "T1", true)]);
    let out = match update_judge_availability_for_all(&out, &rounds, &rounds[0], &members, "out") {
        Ok(out) => out,
        Err(_) => panic!("check-out was refused"),
    };
    assert_eq!(view(&out), vec![v("B", "T1", false), v("A", "T2", false), v("A", "T1", false)]);
    assert!(matches!(
        update_judge_availability_for_all(&out, &rounds, &rounds[0], &members, "sideways"),
        Err(AvailabilityError::InvalidCheckOption)
    ));
    assert_eq!(count_available(&rows, &"A".to_string(), 10), (0, 10));
    assert_eq!(count_available(&rows, &"B".to_string(), 10), (1, 10));
}

fn tournament() -> Tournament {
    Tournament {
        id: "t1".to_string(),
        teams_per_side: 1,
        substantive_speakers: 1,
        reply_speakers: false,
        substantive_speech_min_speak: None,
        substantive_speech_max_speak: None,
        reply_speech_min_speak: None,
        reply_speech_max_speak: None,
    }
}

fn seat(judge_id: &str, status: &str) -> DebateJudge {
    DebateJudge {
        id: format!("s-{judge_id}"),
        tournament_id: "t1".to_string(),
        debate_id: "D1".to_string(),
        judge_id: judge_id.to_string(),
        status: status.to_string(),
    }
}

fn debate(judges_of_debate: Vec<DebateJudge>) -> DebateRepr {
    DebateRepr {
        debate: Debate {
            id: "D1".to_string(),
            tournament_id: "t1".to_string(),
            round_id: "A".to_string(),
            room_id: None,
            number: 1,
            status: "draft".to_string(),
        },
        room: None,
        teams_of_debate: vec![
            DebateTeam { id: "x1".to_string(), tournament_id: "t1".to_string(), debate_id: "D1".to_string(), team_id: "T1".to_string(), side: 0, seq: 0 },
            DebateTeam { id: "x2".to_string(), tournament_id: "t1".to_string(), debate_id: "D1".to_string(), team_id: "T2".to_string(), side: 1, seq: 0 },
        ],
        teams: vec![
            Team { id: "T1".to_string(), tournament_id: "t1".to_string(), name: "Alpha".to_string(), institution_id: None, number: 1 },
            Team { id: "T2".to_string(), tournament_id: "t1".to_string(), name: "Beta".to_string(), institution_id: None, number: 2 },
        ],
        speakers_of_team: vec![],
        judges_of_debate,
        judges: vec![
            Judge { id: "J1".to_string(), tournament_id: "t1".to_string(), name: "Ann".to_string(), number: 1 },
            Judge { id: "J2".to_string(), tournament_id: "t1".to_string(), name: "Bob".to_string(), number: 2 },
        ],
        motions: vec![],
    }
}

fn ballot(id: &str, judge_id: &str, winner: &str) -> BallotRepr {
    let loser = if winner == "T1" { "T2" } else { "T1" };
    BallotRepr {
        metadata: BallotMetadata {
            id: id.to_string(),
            tournament_id: "t1".to_string(),
            debate_id: "D1".to_string(),
            judge_id: judge_id.to_string(),
            submitted_at: chrono::NaiveDateTime::default(),
            motion_id: "m1".to_string(),
            version: 1,
            change: None,
            editor_id: None,
        },
        scores: Vec::<BallotScore>::new(),
        team_ranks: vec![
            BallotTeamRank { id: format!("{id}a"), tournament_id: "t1".to_string(), ballot_id: id.to_string(), team_id: winner.to_string(), points: 1 },
            BallotTeamRank { id: format!("{id}b"), tournament_id: "t1".to_string(), ballot_id: id.to_string(), team_id: loser.to_string(), points: 0 },
        ],
    }
}

#[test]
fn completing_a_round() {
    let t = tournament();
    let r = round("A", 1, false);
    let missing = set_round_completed(&r, true, vec![(debate(vec![seat("J1", "C"), seat("J2", "P")]), vec![ballot("b1", "J1", "T1")])], &t);
    match missing {
        Err(e) => {
            assert!(matches!(e, CompletionError::MissingBallots));
            assert_eq!(e.message(), "Cannot mark round as complete: missing ballots for debate {}");
        }
        Ok(_) => panic!("a round with a missing ballot was completed"),
    }
    let trainee_only = set_round_completed(&r, true, vec![(debate(vec![seat("J1", "C"), seat("J2", "T")]), vec![ballot("b1", "J1", "T1")])], &t);
    match trainee_only {
        Ok(x) => assert!(x.completed),
        Err(_) => panic!("a trainee's ballot was required"),
    }
    let conflict = set_round_completed(
        &r,
        true,
        vec![(debate(vec![seat("J1", "C"), seat("J2", "P")]), vec![ballot("b1", "J1", "T1"), ballot("b2", "J2", "T2")])],
        &t,
    );
    assert!(matches!(conflict, Err(CompletionError::ConflictingBallots)));
    let mut published = round("A", 1, true);
    published.results_published_at = Some(chrono::NaiveDateTime::default());
    match set_round_completed(&published, false, vec![], &t) {
        Ok(x) => {
            assert!(!x.completed);
            assert!(x.results_published_at.is_none());
        }
        Err(_) => panic!("a round could not be reopened"),
    }
}

#[test]
fn publishing_results_and_draws() {
    let now = chrono::NaiveDateTime::default();
    match with_results_published(&round("A", 1, false), true, now) {
        Err(m) => assert_eq!(m, "Cannot publish results for an incomplete round."),
        Ok(_) => panic!("results of an incomplete round were published"),
    }
    match with_results_published(&round("A", 1, true), true, now) {
        Ok(x) => assert_eq!(x.results_published_at, Some(now)),
        Err(_) => panic!("results were not published"),
    }
    match with_results_published(&round("A", 1, false), false, now) {
        Ok(x) => assert_eq!(x.results_published_at, None),
        Err(_) => panic!("results were not withdrawn"),
    }
    let r = with_draw_status(&round("A", 1, false), "released_full", now);
    assert_eq!(r.draw_status, "released_full");
    assert_eq!(r.draw_released_at, Some(now));
    let r = with_draw_status(&round("A", 1, false), "confirmed", now);
    assert_eq!(r.draw_released_at, None);
    let r = tournaments::results::set_draw_published(&round("A", 1, false), "released_teams");
    assert!(r.draw_released_at.is_some());
}

#[test]
fn rows_that_stay_keep_their_identifiers() {
    let rounds = vec![round("A", 1, false), round("B", 1, false), round("C", 2, false)];
    let rows = vec![row("B", "T1", true), row("C", "T1", true), row("B", "T2", true)];
    let out = set_availability(&rows, &rounds[0], &"T1".to_string(), true, &rounds);
    assert_eq!(out.len(), 4);
    let kept: Vec<String> = out.iter().take(3).map(|r| r.id.clone()).collect();
    assert_eq!(kept, vec!["B/T1".to_string(), "C/T1".to_string(), "B/T2".to_string()]);
    let again = set_availability(&out, &rounds[0], &"T1".to_string(), false, &rounds);
    let ids_before: Vec<String> = out.iter().map(|r| r.id.clone()).collect();
    let ids_after: Vec<String> = again.iter().map(|r| r.id.clone()).collect();
    assert_eq!(ids_after, ids_before);
}

#[test]
fn a_completed_earlier_round_does_not_block_availability() {
    let rounds = vec![round("A", 1, true), round("B", 2, false), round("C", 3, false)];
    assert!(matches!(check_availability_editable(&rounds[1], &rounds), Ok(())));
    match check_availability_editable(&rounds[2], &rounds) {
        Err(AvailabilityError::PrecedingRound(name)) => assert_eq!(name, "Round B"),
        _ => panic!("an incomplete earlier round did not block"),
    }
    assert_eq!(rounds[2].find_first_preceding_incomplete_round(&rounds).map(|r| r.id), Some("B".to_string()));
    assert!(rounds[1].find_first_preceding_incomplete_round(&rounds).is_none());
}

#[test]
fn a_new_row_gets_a_uuid() {
    let rounds = vec![round("A", 1, false)];
    let out = set_availability(&vec![], &rounds[0], &"T1".to_string(), true, &rounds);
    assert_eq!(out.len(), 1);
    assert_eq!(out[0].id.chars().count(), 36);
    assert_eq!(out[0].id.matches('-').count(), 4);
}
