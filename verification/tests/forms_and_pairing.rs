use tournaments::ballot_form::{ballot_of_form, BallotForm, BallotFormSingleSpeakerEntry, BallotFormSingleTeamEntry};
use tournaments::ballots::{BallotMetadata, BallotRepr, BallotScore, BallotTeamRank};
use tournaments::draws::{Debate, DebateRepr, DebateTeam};
use tournaments::participants::{Speaker, Team, TournamentParticipants};
use tournaments::power_pairing::{placement_is_balanced, rooms_of_placement};
use tournaments::rounds::{Motion, Round};
use tournaments::standings::{MetricValue, RankableTeamMetric, TeamStandings};
use tournaments::tournament::Tournament;

fn format_with(substantive: i64, reply: bool) -> Tournament {
    Tournament {
        id: "t".to_string(),
        teams_per_side: 1,
        substantive_speakers: substantive,
        reply_speakers: reply,
        substantive_speech_min_speak: Some(5000),
        substantive_speech_max_speak: Some(8000),
        reply_speech_min_speak: None,
        reply_speech_max_speak: None,
    }
}

fn round_kind(kind: &str, draw_status: &str, completed: bool) -> Round {
    Round {
        id: "r".to_string(),
        tournament_id: "t".to_string(),
        seq: 1,
        name: "Round 1".to_string(),
        kind: kind.to_string(),
        break_cat: None,
        completed,
        draw_status: draw_status.to_string(),
        draw_released_at: None,
        motions_released_at: None,
        results_published_at: None,
    }
}

fn squad(id: &str) -> Team {
    Team { id: id.to_string(), tournament_id: "t".to_string(), name: id.to_string(), institution_id: None, number: 0 }
}

fn debate_ab() -> DebateRepr {
    let dteam = |id: &str, side: i64| DebateTeam {
        id: format!("dt-{id}"),
        tournament_id: "t".to_string(),
        debate_id: "d".to_string(),
        team_id: id.to_string(),
        side,
        seq: 0,
    };
    DebateRepr {
        debate: Debate {
            id: "d".to_string(),
            tournament_id: "t".to_string(),
            round_id: "r".to_string(),
            room_id: None,
            number: 1,
            status: "draft".to_string(),
        },
        room: None,
        teams_of_debate: vec![dteam("A", 0), dteam("B", 1)],
        teams: vec![squad("A"), squad("B")],
        speakers_of_team: vec![],
        judges_of_debate: vec![],
        judges: vec![],
        motions: vec![Motion {
            id: "m".to_string(),
            tournament_id: "t".to_string(),
            round_id: "r".to_string(),
            infoslide: None,
            motion: "THW".to_string(),
        }],
    }
}

fn speakers_list() -> TournamentParticipants {
    let s = |id: &str, name: &str| Speaker { id: id.to_string(), tournament_id: "t".to_string(), name: name.to_string() };
    TournamentParticipants { speakers: vec![s("a1", "Ann"), s("b1", "Ben")], judges: vec![] }
}

fn meta(version: i64) -> BallotMetadata {
    BallotMetadata {
        id: "ballot".to_string(),
        tournament_id: "t".to_string(),
        debate_id: "d".to_string(),
        judge_id: "j".to_string(),
        submitted_at: chrono::NaiveDateTime::default(),
        motion_id: "m".to_string(),
        version,
        change: None,
        editor_id: None,
    }
}

fn entry(id: &str, score: Option<i64>) -> BallotFormSingleSpeakerEntry {
    BallotFormSingleSpeakerEntry { id: id.to_string(), score }
}

fn form_of(teams: Vec<(Vec<BallotFormSingleSpeakerEntry>, Option<usize>)>) -> BallotForm {
    BallotForm {
        teams: teams.into_iter().map(|(speakers, points)| BallotFormSingleTeamEntry { speakers, points }).collect(),
        motion_id: "m".to_string(),
        expected_version: 0,
    }
}

#[test]
fn a_complete_form_makes_a_ranked_ballot() {
    let t = format_with(1, false);
    let d = debate_ab();
    let p = speakers_list();
    let form = form_of(vec![(vec![entry("a1", Some(7000))], None), (vec![entry("b1", Some(7200))], None)]);
    let b = ballot_of_form(form, &t, &round_kind("P", "released_full", false), &d, &p, meta(3), 0, 0, true, true, false)
        .ok()
        .unwrap();
    assert_eq!(b.metadata.version, 0);
    let rows: Vec<(String, String, i64, Option<i64>)> =
        b.scores.iter().map(|s| (s.team_id.clone(), s.speaker_id.clone(), s.speaker_position, s.score)).collect();
    assert_eq!(
        rows,
        vec![("A".to_string(), "a1".to_string(), 0, Some(7000)), ("B".to_string(), "b1".to_string(), 0, Some(7200))]
    );
    let ranks: Vec<(String, i64)> = b.team_ranks.iter().map(|r| (r.team_id.clone(), r.points)).collect();
    assert_eq!(ranks, vec![("B".to_string(), 1), ("A".to_string(), 0)]);
}

#[test]
fn form_errors_come_in_order() {
    let t = format_with(1, false);
    let d = debate_ab();
    let p = speakers_list();
    let round = round_kind("P", "released_full", false);
    let stale = ballot_of_form(form_of(vec![]), &t, &round, &d, &p, meta(0), 2, 1, true, true, false);
    assert_eq!(
        stale.err().unwrap(),
        "Error: The ballot has been modified since you started editing. Please reload the page to see the latest version."
    );
    let bad_score = form_of(vec![(vec![entry("a1", Some(9000))], None), (vec![entry("b1", Some(100))], None)]);
    assert_eq!(
        ballot_of_form(bad_score, &t, &round, &d, &p, meta(0), 0, 0, true, true, false).err().unwrap(),
        "Error: the score of Ann is outside the allowed range"
    );
    let missing = form_of(vec![(vec![], None), (vec![entry("b1", Some(7000))], None)]);
    assert_eq!(
        ballot_of_form(missing, &t, &round, &d, &p, meta(0), 0, 0, true, true, false).err().unwrap(),
        "Error: missing speaker information"
    );
    let one_team = form_of(vec![(vec![entry("a1", Some(7000))], None)]);
    assert_eq!(
        ballot_of_form(one_team, &t, &round, &d, &p, meta(0), 0, 0, true, true, false).err().unwrap(),
        "Error: incorrect number of teams submitted"
    );
}

#[test]
fn an_elimination_form_advances_teams() {
    let t = format_with(1, false);
    let d = debate_ab();
    let p = speakers_list();
    let round = round_kind("E", "released_full", false);
    let with_speakers = form_of(vec![(vec![entry("a1", None)], Some(1)), (vec![], Some(0))]);
    assert_eq!(
        ballot_of_form(with_speakers, &t, &round, &d, &p, meta(0), 0, 0, false, false, false).err().unwrap(),
        "Error: speakers should not be submitted for this round type"
    );
    let both = form_of(vec![(vec![], Some(1)), (vec![], Some(1))]);
    assert_eq!(
        ballot_of_form(both, &t, &round, &d, &p, meta(0), 0, 0, false, false, false).err().unwrap(),
        "Error: expected 1 advancing team(s), but 2 were selected"
    );
    let form = form_of(vec![(vec![], Some(0)), (vec![], Some(1))]);
    assert_eq!(form.all_advancing_team_ids(&d), vec!["B".to_string()]);
    let b = ballot_of_form(form, &t, &round, &d, &p, meta(0), 0, 0, false, false, false).ok().unwrap();
    let ranks: Vec<(String, i64)> = b.team_ranks.iter().map(|r| (r.team_id.clone(), r.points)).collect();
    assert_eq!(ranks, vec![("A".to_string(), 0), ("B".to_string(), 1)]);
}

#[test]
fn a_form_is_prefilled_from_a_ballot() {
    let t = format_with(2, true);
    let d = debate_ab();
    let score = |team: &str, speaker: &str, position: i64, value: i64| BallotScore {
        id: format!("{speaker}{position}"),
        tournament_id: "t".to_string(),
        ballot_id: "x".to_string(),
        team_id: team.to_string(),
        speaker_id: speaker.to_string(),
        speaker_position: position,
        score: Some(value),
    };
    let rank = |team: &str, points: i64| BallotTeamRank {
        id: format!("r{team}"),
        tournament_id: "t".to_string(),
        ballot_id: "x".to_string(),
        team_id: team.to_string(),
        points,
    };
    let ballot = BallotRepr::new_prelim(
        meta(4),
        vec![score("A", "a2", 1, 7100), score("A", "a1", 0, 7000), score("A", "a3", 1, 7300), score("B", "b1", 0, 6900)],
        vec![rank("A", 1)],
    );
    let form = BallotForm::from_repr(&ballot, &d, &t);
    assert_eq!(form.expected_version, 4);
    assert_eq!(form.motion_id, "m");
    let a: Vec<(String, Option<i64>)> = form.teams[0].speakers.iter().map(|s| (s.id.clone(), s.score)).collect();
    assert_eq!(a, vec![("a1".to_string(), Some(7000)), ("a3".to_string(), Some(7300)), (String::new(), None)]);
    assert_eq!(form.teams[0].points, Some(1));
    let b: Vec<(String, Option<i64>)> = form.teams[1].speakers.iter().map(|s| (s.id.clone(), s.score)).collect();
    assert_eq!(b, vec![("b1".to_string(), Some(6900)), (String::new(), None), (String::new(), None)]);
    assert_eq!(form.teams[1].points, None);
}

#[test]
fn ballots_are_taken_only_for_released_open_rounds() {
    assert_eq!(round_kind("P", "draft", false).ballot_submission_error().unwrap(), "Error: draw not released.");
    assert_eq!(
        round_kind("P", "released_full", true).ballot_submission_error().unwrap(),
        "Error: this round has been completed. Ballots can no longer be submitted."
    );
    assert!(round_kind("P", "released_full", false).ballot_submission_error().is_none());
}

fn standings_of(brackets: Vec<Vec<&str>>, wins: Vec<(&str, i64)>) -> TeamStandings {
    TeamStandings {
        metrics: vec![RankableTeamMetric::Wins],
        ranked_metrics_of_team: wins
            .into_iter()
            .map(|(t, w)| (t.to_string(), vec![(RankableTeamMetric::Wins, MetricValue::Integer(w))]))
            .collect(),
        pullup_metrics: vec![],
        ranked: brackets.into_iter().map(|b| b.into_iter().map(squad).collect()).collect(),
    }
}

#[test]
fn the_points_range_spans_every_ranked_team() {
    let s = standings_of(vec![vec!["A", "B"], vec!["C"], vec!["D"]], vec![("A", 3), ("B", 3), ("C", 1), ("D", 0)]);
    assert_eq!(s.points_range(), (0, 3));
    assert_eq!(s.bracket_of_team(&"C".to_string()), Some(1));
    assert_eq!(s.bracket_of_team(&"B".to_string()), Some(0));
    assert_eq!(s.bracket_of_team(&"Z".to_string()), None);
}

#[test]
fn rooms_are_read_off_a_placement() {
    let teams = vec![squad("A"), squad("B"), squad("C"), squad("D")];
    // Two rooms of two positions: room 0 holds C (prop) and A (opp), room 1
    // holds B (prop) and D (opp).
    let placement = vec![
        vec![vec![false, false, true, false], vec![true, false, false, false]],
        vec![vec![false, true, false, false], vec![false, false, false, true]],
    ];
    assert!(placement_is_balanced(&teams, &placement));
    let rooms = rooms_of_placement(&teams, &placement);
    let ids: Vec<(Vec<String>, Vec<String>)> = rooms
        .iter()
        .map(|(p, o)| (p.iter().map(|t| t.id.clone()).collect(), o.iter().map(|t| t.id.clone()).collect()))
        .collect();
    assert_eq!(
        ids,
        vec![(vec!["C".to_string()], vec!["A".to_string()]), (vec!["B".to_string()], vec!["D".to_string()])]
    );
    let lopsided = vec![vec![vec![true, true, false, false], vec![false, false, false, false]]];
    assert!(!placement_is_balanced(&teams, &lopsided));
}

#[test]
fn a_prefilled_form_lists_teams_as_they_are_read_back() {
    let mut t = format_with(1, false);
    t.teams_per_side = 2;
    let mut d = debate_ab();
    let dteam = |id: &str, side: i64, seq: i64| DebateTeam {
        id: format!("dt-{id}"),
        tournament_id: "t".to_string(),
        debate_id: "d".to_string(),
        team_id: id.to_string(),
        side,
        seq,
    };
    d.teams_of_debate = vec![dteam("OG", 0, 0), dteam("OO", 1, 0), dteam("CG", 0, 1), dteam("CO", 1, 1)];
    let rank = |team: &str, points: i64| BallotTeamRank {
        id: format!("r{team}"),
        tournament_id: "t".to_string(),
        ballot_id: "x".to_string(),
        team_id: team.to_string(),
        points,
    };
    let ballot = BallotRepr::new_prelim(meta(0), vec![], vec![rank("OG", 3), rank("OO", 2), rank("CG", 1), rank("CO", 0)]);
    let form = BallotForm::from_repr(&ballot, &d, &t);
    let points: Vec<Option<usize>> = form.teams.iter().map(|e| e.points).collect();
    assert_eq!(points, vec![Some(3), Some(2), Some(1), Some(0)]);
}

#[test]
fn a_placement_of_each_team_once_draws_every_team_once() {
    let team = |id: &str| Team { id: id.to_string(), tournament_id: "t".to_string(), name: id.to_string(), institution_id: None, number: 0 };
    let teams = vec![team("A"), team("B"), team("C"), team("D"), team("E"), team("F"), team("G"), team("H")];
    let one = |i: usize| (0..8).map(|k| k == i).collect::<Vec<bool>>();
    let placement = vec![
        vec![one(5), one(0), one(7), one(2)],
        vec![one(1), one(6), one(3), one(4)],
    ];
    assert!(placement_is_balanced(&teams, &placement));
    let rooms = rooms_of_placement(&teams, &placement);
    let mut drawn: Vec<String> = rooms.iter().flat_map(|(p, o)| p.iter().chain(o.iter()).map(|t| t.id.clone())).collect();
    assert_eq!(drawn, vec!["F", "H", "A", "C", "B", "D", "G", "E"]);
    drawn.sort();
    assert_eq!(drawn, vec!["A", "B", "C", "D", "E", "F", "G", "H"]);
}

#[test]
fn a_ballot_edited_unchanged_reads_back_the_same() {
    let t = format_with(1, false);
    let d = debate_ab();
    let p = speakers_list();
    let round = round_kind("P", "released_full", false);
    let first = form_of(vec![(vec![entry("a1", Some(7000))], None), (vec![entry("b1", Some(7250))], None)]);
    let stored = ballot_of_form(first, &t, &round, &d, &p, meta(0), 0, 0, true, true, false).ok().unwrap();
    let edit = BallotForm::from_repr(&stored, &d, &t);
    let again = ballot_of_form(edit, &t, &round, &d, &p, meta(0), 0, 0, true, true, false).ok().unwrap();
    let rows = |b: &BallotRepr| -> Vec<(String, String, i64, Option<i64>)> {
        b.scores.iter().map(|s| (s.team_id.clone(), s.speaker_id.clone(), s.speaker_position, s.score)).collect()
    };
    let ranks = |b: &BallotRepr| -> Vec<(String, i64)> { b.team_ranks.iter().map(|r| (r.team_id.clone(), r.points)).collect() };
    assert_eq!(rows(&again), rows(&stored));
    assert_eq!(ranks(&again), ranks(&stored));
}
