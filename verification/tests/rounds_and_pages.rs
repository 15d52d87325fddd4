use tournaments::ballots::{BallotMetadata, BallotRepr};
use tournaments::draws::{Debate, DebateRepr};
use tournaments::metrics::{ballot_points_of_team, BallotPointsRow};
use tournaments::pages::{
    draw_page_view, DrawPageView, ballot_overview_totals, judge_ballot_status, judge_role_label, missing_ballots, rank_label, results_visibility,
    role_of_judge_in_debate, tab_visibility, JudgeBallotStatus, ResultsVisibility, TabVisibility,
};
use tournaments::participants::{DebateJudge, Judge};
use tournaments::rounds::{
    current_rounds, edited_round_error, motion_of_form, new_round_of_category, of_seq, round_seq_error, seq_range, Round,
    RoundStatus, TournamentRounds,
};

fn round_in(tournament: &str, id: &str, seq: i64, kind: &str, break_cat: Option<&str>) -> Round {
    Round {
        id: id.to_string(),
        tournament_id: tournament.to_string(),
        seq,
        name: format!("Round {id}"),
        kind: kind.to_string(),
        break_cat: break_cat.map(|c| c.to_string()),
        completed: false,
        draw_status: "N".to_string(),
        draw_released_at: None,
        motions_released_at: None,
        results_published_at: None,
    }
}

fn ids_of(rounds: &[Round]) -> Vec<String> {
    rounds.iter().map(|r| r.id.clone()).collect()
}

fn panel_debate(seats: &[(&str, &str)], judges: &[&str]) -> DebateRepr {
    DebateRepr {
        debate: Debate {
            id: "d".to_string(),
            tournament_id: "t".to_string(),
            round_id: "r".to_string(),
            room_id: None,
            number: 1,
            status: "draft".to_string(),
        },
        room: None,
        teams_of_debate: vec![],
        teams: vec![],
        speakers_of_team: vec![],
        judges_of_debate: seats
            .iter()
            .map(|(j, s)| DebateJudge {
                id: format!("seat-{j}"),
                tournament_id: "t".to_string(),
                debate_id: "d".to_string(),
                judge_id: j.to_string(),
                status: s.to_string(),
            })
            .collect(),
        judges: judges
            .iter()
            .map(|j| Judge { id: j.to_string(), tournament_id: "t".to_string(), name: j.to_uppercase(), number: 0 })
            .collect(),
        motions: vec![],
    }
}

fn ballot_of(judge: &str) -> BallotRepr {
    BallotRepr::new_elim(
        BallotMetadata {
            id: format!("b-{judge}"),
            tournament_id: "t".to_string(),
            debate_id: "d".to_string(),
            judge_id: judge.to_string(),
            submitted_at: chrono::NaiveDateTime::default(),
            motion_id: "m".to_string(),
            version: 0,
            change: None,
            editor_id: None,
        },
        vec![],
    )
}

#[test]
fn rounds_split_into_preliminary_and_elimination() {
    let mut done = round_in("t", "r1", 1, "P", None);
    done.completed = true;
    let mut released = round_in("t", "r2", 2, "P", None);
    released.draw_status = "R".to_string();
    let rounds = vec![
        done,
        released,
        round_in("t", "r2b", 2, "P", None),
        round_in("t", "q1", 3, "E", Some("open")),
        round_in("t", "n1", 3, "E", Some("novice")),
        round_in("t", "q2", 4, "E", Some("open")),
    ];
    let tr = TournamentRounds::of_rounds(rounds);
    assert_eq!(ids_of(&tr.prelim), vec!["r1", "r2", "r2b"]);
    assert_eq!(ids_of(&tr.elim), vec!["q1", "n1", "q2"]);
    let statuses: Vec<RoundStatus> = tr.statuses.iter().map(|s| s.1).collect();
    assert_eq!(statuses[0], RoundStatus::Completed);
    assert_eq!(statuses[1], RoundStatus::InProgress);
    assert_eq!(statuses[2], RoundStatus::NotStarted);
    let groups: Vec<Vec<String>> = tr.prelims_grouped_by_seq().iter().map(|g| ids_of(g)).collect();
    assert_eq!(groups, vec![vec!["r1".to_string()], vec!["r2".to_string(), "r2b".to_string()]]);
    let all: Vec<Vec<String>> = tr.all_grouped_by_seq().iter().map(|g| ids_of(g)).collect();
    assert_eq!(all.len(), 4);
    assert_eq!(all[2], vec!["q1".to_string(), "n1".to_string()]);
    let cats: Vec<(String, Vec<String>)> = tr.categories().iter().map(|(c, rs)| (c.clone(), ids_of(rs))).collect();
    assert_eq!(
        cats,
        vec![
            ("open".to_string(), vec!["q1".to_string(), "q2".to_string()]),
            ("novice".to_string(), vec!["n1".to_string()]),
        ]
    );
}

#[test]
fn round_status_of_draws() {
    let mut r = round_in("t", "r1", 1, "P", None);
    assert_eq!(r.status(), RoundStatus::NotStarted);
    r.draw_status = "D".to_string();
    assert_eq!(r.status(), RoundStatus::Draft);
    r.draw_status = "C".to_string();
    assert_eq!(r.status(), RoundStatus::Draft);
    r.draw_status = "R".to_string();
    assert_eq!(r.status(), RoundStatus::InProgress);
    r.completed = true;
    assert_eq!(r.status(), RoundStatus::Completed);
    assert!(r.is_prelim() && !r.is_elim());
}

#[test]
fn rounds_of_a_sequence_and_current_rounds() {
    let mut first = round_in("t", "r1", 1, "P", None);
    first.completed = true;
    let rounds = vec![
        first,
        round_in("t", "r1b", 1, "P", None),
        round_in("t", "r2", 2, "P", None),
        round_in("u", "x1", 1, "P", None),
    ];
    assert_eq!(ids_of(&of_seq(&rounds, 1, &"t".to_string())), vec!["r1", "r1b"]);
    assert_eq!(ids_of(&current_rounds(&rounds, &"t".to_string())), vec!["r1b"]);
    assert!(current_rounds(&rounds, &"none".to_string()).is_empty());
    let later = round_in("t", "r3", 3, "P", None);
    let preceding = later.find_first_preceding_incomplete_round(&rounds).unwrap();
    assert_eq!(preceding.id, "r1b");
    assert!(round_in("t", "r0", 1, "P", None).find_first_preceding_incomplete_round(&rounds).is_none());
}

#[test]
fn new_rounds_are_checked() {
    assert_eq!(
        new_round_of_category("R1", 1, "in_round").err().unwrap(),
        "Round name must be between 4 and 32 characters"
    );
    assert_eq!(new_round_of_category("Round 1", 0, "in_round").err().unwrap(), "Sequence must be between 1 and 100");
    assert_eq!(new_round_of_category("Round 1", 101, "in_round").err().unwrap(), "Sequence must be between 1 and 100");
    let p = new_round_of_category("Round 1", 1, "in_round").ok().unwrap();
    assert_eq!((p.seq, p.name.as_str(), p.kind.as_str(), p.break_category.clone(), p.completed), (1, "Round 1", "P", None, false));
    let e = new_round_of_category("Open Final", 100, "cat-1").ok().unwrap();
    assert_eq!((e.kind.as_str(), e.break_category.clone()), ("E", Some("cat-1".to_string())));
}

#[test]
fn motions_are_trimmed() {
    assert_eq!(motion_of_form("   ", None).err().unwrap(), "Motion must not be empty.");
    assert_eq!(motion_of_form("  THW  ", Some("  ")).ok().unwrap(), ("THW".to_string(), None));
    assert_eq!(motion_of_form("THW", Some(" slide ")).ok().unwrap(), ("THW".to_string(), Some("slide".to_string())));
}

#[test]
fn judge_roles_and_missing_ballots() {
    assert_eq!(judge_role_label("C"), "Chair");
    assert_eq!(judge_role_label("P"), "Panelist");
    assert_eq!(judge_role_label("T"), "Trainee");
    assert_eq!(judge_role_label("X"), "Judge");
    let d = panel_debate(&[("j1", "C"), ("j2", "P")], &["j1", "j2", "j3"]);
    assert_eq!(role_of_judge_in_debate(&d, &"j2".to_string()), "Panelist");
    assert_eq!(role_of_judge_in_debate(&d, &"j3".to_string()), "Judge");
    let missing: Vec<String> = missing_ballots(&d, &vec![ballot_of("j2")]).iter().map(|j| j.id.clone()).collect();
    assert_eq!(missing, vec!["j1".to_string(), "j3".to_string()]);
    assert!(matches!(judge_ballot_status(false, true), JudgeBallotStatus::Missing));
    assert!(matches!(judge_ballot_status(true, true), JudgeBallotStatus::Submitted));
    assert!(matches!(judge_ballot_status(true, false), JudgeBallotStatus::Problems));
}

#[test]
fn ballot_overview_counts_seats() {
    let d1 = panel_debate(&[("j1", "C"), ("j2", "P"), ("j3", "T")], &[]);
    let d2 = panel_debate(&[("j4", "C")], &[]);
    let sets = vec![(d1, vec![ballot_of("j1")]), (d2, vec![ballot_of("j4")])];
    assert_eq!(ballot_overview_totals(&sets), (2, 4));
    assert_eq!(ballot_overview_totals(&vec![]), (0, 0));
}

#[test]
fn results_are_shown_as_published() {
    assert!(matches!(results_visibility(&vec![], true, true), ResultsVisibility::NotFound));
    let mut published = round_in("t", "a", 1, "P", None);
    published.results_published_at = Some(chrono::NaiveDateTime::default());
    let hidden = round_in("t", "b", 1, "P", None);
    let rounds = vec![published, hidden];
    assert!(matches!(results_visibility(&rounds, false, false), ResultsVisibility::NotPublic));
    match results_visibility(&rounds, true, false) {
        ResultsVisibility::Show { viewable, unviewable } => {
            assert_eq!(ids_of(&viewable), vec!["a"]);
            assert_eq!(ids_of(&unviewable), vec!["b"]);
        }
        _ => panic!("expected results to show"),
    }
    match results_visibility(&rounds, false, true) {
        ResultsVisibility::Show { viewable, unviewable } => {
            assert_eq!(ids_of(&viewable), vec!["a", "b"]);
            assert!(unviewable.is_empty());
        }
        _ => panic!("expected results to show"),
    }
    let mut done = round_in("t", "c", 2, "P", None);
    done.completed = true;
    assert!(matches!(
        results_visibility(&vec![done, round_in("t", "d", 2, "P", None)], true, false),
        ResultsVisibility::Unpublished { plural: true }
    ));
    assert!(matches!(
        results_visibility(&vec![round_in("t", "e", 3, "P", None)], true, false),
        ResultsVisibility::RedirectToDraw
    ));
}

#[test]
fn the_tab_is_shown_as_allowed() {
    assert!(matches!(tab_visibility(true, false, false), TabVisibility::FullTab));
    assert!(matches!(tab_visibility(false, true, false), TabVisibility::FullTab));
    assert!(matches!(tab_visibility(false, false, true), TabVisibility::StandingsOnly));
    assert!(matches!(tab_visibility(false, false, false), TabVisibility::Unauthorized));
    assert_eq!(rank_label(0, 1), "1");
    assert_eq!(rank_label(2, 3), "=3");
}

#[test]
fn ballot_points_use_the_latest_version_of_each_ballot() {
    let row = |debate: &str, judge: &str, version: i64, ballot: &str, team: &str, points: i64| BallotPointsRow {
        debate_id: debate.to_string(),
        judge_id: judge.to_string(),
        version,
        ballot_id: ballot.to_string(),
        team_id: team.to_string(),
        points,
    };
    let rows = vec![
        row("d1", "j1", 0, "old", "A", 1),
        row("d1", "j1", 0, "old", "B", 0),
        row("d1", "j1", 1, "new", "A", 0),
        row("d1", "j1", 1, "new", "B", 1),
        row("d1", "j2", 0, "other", "A", 1),
        row("d1", "j2", 0, "other", "B", 0),
    ];
    let totals = ballot_points_of_team(&rows, &vec!["A".to_string(), "B".to_string(), "C".to_string()]);
    assert_eq!(totals, vec![("A".to_string(), 1), ("B".to_string(), 1), ("C".to_string(), 0)]);
}

#[test]
fn the_draw_page_shows_public_draws() {
    assert!(matches!(draw_page_view(&vec![]), DrawPageView::NotFound));
    let mut done = round_in("t", "a", 1, "P", None);
    done.results_published_at = Some(chrono::NaiveDateTime::default());
    assert!(matches!(draw_page_view(&vec![done]), DrawPageView::RedirectToResults));
    let mut full = round_in("t", "b", 2, "P", None);
    full.draw_status = "released_full".to_string();
    let mut teams_only = round_in("t", "c", 2, "P", None);
    teams_only.draw_status = "released_teams".to_string();
    let draft = round_in("t", "d", 2, "P", None);
    match draw_page_view(&vec![full, draft, teams_only]) {
        DrawPageView::Show { public, pending } => {
            assert_eq!(ids_of(&public), vec!["b", "c"]);
            assert_eq!(ids_of(&pending), vec!["d"]);
        }
        _ => panic!("expected the draws to show"),
    }
}

#[test]
fn sequence_ranges_of_rounds() {
    assert_eq!(seq_range(&vec![]), None);
    let rounds = vec![round_in("t", "a", 3, "P", None), round_in("t", "b", 1, "P", None), round_in("t", "c", 5, "P", None)];
    assert_eq!(seq_range(&rounds), Some((1, 5)));
}

#[test]
fn edited_rounds_are_checked() {
    assert_eq!(edited_round_error("R1", 1).unwrap(), "Round name must be between 4 and 32 characters");
    assert_eq!(edited_round_error("Round 1", 0).unwrap(), "Sequence must be at least 1");
    assert!(edited_round_error("Round 1", 250).is_none());
    let rounds = vec![round_in("t", "a", 1, "P", None), round_in("t", "b", 3, "P", None)];
    assert!(round_seq_error(4, &rounds).is_none());
    assert_eq!(
        round_seq_error(5, &rounds).unwrap(),
        "Error: round index is too large. It must be at most\n                         one more than the current largest index, which is 3."
    );
    assert!(round_seq_error(2, &vec![]).is_none());
    assert!(round_seq_error(3, &vec![]).is_some());
}

#[test]
fn current_rounds_follow_the_completed_ones() {
    let mut first = round_in("t", "r1", 1, "P", None);
    first.completed = true;
    let rounds = vec![first.clone(), round_in("t", "r2", 2, "P", None), round_in("t", "r3", 3, "P", None)];
    assert_eq!(ids_of(&current_rounds(&rounds, &"t".to_string())), vec!["r2"]);
    assert!(current_rounds(&vec![first], &"t".to_string()).is_empty());
}

#[test]
fn creating_a_round_renumbers_the_later_ones() {
    let rounds = vec![
        round_in("t", "p5", 5, "P", None),
        round_in("t", "q", 6, "E", Some("open")),
        round_in("t", "f", 7, "E", Some("open")),
        round_in("u", "x", 6, "P", None),
    ];
    let seqs: Vec<i64> =
        tournaments::rounds::renumber_after_new_round(&rounds, &"t".to_string(), 6).iter().map(|r| r.seq).collect();
    assert_eq!(seqs, vec![5, 7, 8, 6]);
}
