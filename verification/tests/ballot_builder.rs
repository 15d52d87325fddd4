use tournaments::ballot_builder::{num_advancing_for_elim_round, BallotBuilder, BallotTeamSpeakersBuilder};
use tournaments::ballots::BallotMetadata;
use tournaments::draws::{Debate, DebateRepr, DebateTeam};
use tournaments::participants::{Judge, Speaker, Team, TournamentParticipants};
use tournaments::rounds::{Motion, Round};
use tournaments::tournament::Tournament;

fn format_of(teams_per_side: i64, reply: bool) -> Tournament {
    Tournament {
        id: "t".to_string(),
        teams_per_side,
        substantive_speakers: 2,
        reply_speakers: reply,
        substantive_speech_min_speak: Some(5000),
        substantive_speech_max_speak: Some(8000),
        reply_speech_min_speak: Some(2500),
        reply_speech_max_speak: None,
    }
}

fn people() -> TournamentParticipants {
    let s = |id: &str, name: &str| Speaker { id: id.to_string(), tournament_id: "t".to_string(), name: name.to_string() };
    TournamentParticipants {
        speakers: vec![s("a1", "Ann"), s("a2", "Abe"), s("b1", "Ben"), s("b2", "Bea")],
        judges: vec![Judge { id: "j1".to_string(), tournament_id: "t".to_string(), name: "Jo".to_string(), number: 1 }],
    }
}

fn round_of_kind(kind: &str) -> Round {
    Round {
        id: "r".to_string(),
        tournament_id: "t".to_string(),
        seq: 1,
        name: "Round 1".to_string(),
        kind: kind.to_string(),
        break_cat: None,
        completed: false,
        draw_status: "R".to_string(),
        draw_released_at: None,
        motions_released_at: None,
        results_published_at: None,
    }
}

fn two_team_debate() -> DebateRepr {
    let dteam = |id: &str, side: i64| DebateTeam {
        id: format!("dt-{id}"),
        tournament_id: "t".to_string(),
        debate_id: "d".to_string(),
        team_id: id.to_string(),
        side,
        seq: 0,
    };
    let team = |id: &str| Team { id: id.to_string(), tournament_id: "t".to_string(), name: id.to_string(), institution_id: None, number: 0 };
    DebateRepr {
        debate: Debate {
            id: "d".to_string(),
            tournament_id: "t".to_string(),
            round_id: "r".to_string(),
            room_id: None,
            number: 1,
            status: "draft".to_string(),
        },
        room: None,
        teams_of_debate: vec![dteam("A", 0), dteam("B", 1)],
        teams: vec![team("A"), team("B")],
        speakers_of_team: vec![],
        judges_of_debate: vec![],
        judges: vec![],
        motions: vec![Motion {
            id: "m".to_string(),
            tournament_id: "t".to_string(),
            round_id: "r".to_string(),
            infoslide: None,
            motion: "THW".to_string(),
        }],
    }
}

fn ballot_metadata(motion: &str) -> BallotMetadata {
    BallotMetadata {
        id: "b".to_string(),
        tournament_id: "t".to_string(),
        debate_id: "d".to_string(),
        judge_id: "j1".to_string(),
        submitted_at: chrono::NaiveDateTime::default(),
        motion_id: motion.to_string(),
        version: 7,
        change: None,
        editor_id: None,
    }
}

#[test]
fn advancing_teams_depend_on_the_format() {
    assert_eq!(num_advancing_for_elim_round(&format_of(1, true), false), 1);
    assert_eq!(num_advancing_for_elim_round(&format_of(2, false), false), 2);
    assert_eq!(num_advancing_for_elim_round(&format_of(2, false), true), 1);
}

#[test]
fn speakers_builder_checks_each_speaker() {
    let t = format_of(1, true);
    let p = people();
    let b = BallotTeamSpeakersBuilder::new(&t, &p, true, true);
    assert_eq!(b.expected_speakers(), 3);
    let err = b.add_speaker(&"a1".to_string(), Some(9000)).err().unwrap();
    assert_eq!(err, "Error: the score of Ann is outside the allowed range");
    let b = BallotTeamSpeakersBuilder::new(&t, &p, true, true);
    let b = b.add_speaker(&"a1".to_string(), Some(7500)).ok().unwrap();
    let b = b.add_speaker(&"a2".to_string(), Some(7000)).ok().unwrap();
    let reply_too_low = b.add_speaker(&"a1".to_string(), Some(2000)).err().unwrap();
    assert_eq!(reply_too_low, "Error: the score of Ann is outside the allowed range");
    let b = BallotTeamSpeakersBuilder::new(&t, &p, true, true)
        .add_speaker(&"a1".to_string(), Some(7500)).ok().unwrap()
        .add_speaker(&"a2".to_string(), Some(7000)).ok().unwrap()
        .add_speaker(&"a1".to_string(), Some(3000)).ok().unwrap();
    let too_many = b.add_speaker(&"a2".to_string(), None).err().unwrap();
    assert_eq!(too_many, "Error: too many speakers added");
}

#[test]
fn speakers_builder_without_positions_refuses_speakers() {
    let t = format_of(1, false);
    let p = people();
    let b = BallotTeamSpeakersBuilder::new(&t, &p, false, false);
    assert_eq!(
        b.add_speaker(&"a1".to_string(), None).err().unwrap(),
        "Error: speakers should not be submitted for this round type"
    );
    assert_eq!(BallotTeamSpeakersBuilder::new(&t, &p, false, false).build().ok().unwrap(), vec![]);
}

#[test]
fn speakers_builder_needs_every_speaker() {
    let t = format_of(1, false);
    let p = people();
    let b = BallotTeamSpeakersBuilder::new(&t, &p, false, true).add_speaker(&"a1".to_string(), Some(7000)).ok().unwrap();
    assert_eq!(b.build().err().unwrap(), "Error: missing speaker information");
    let full = BallotTeamSpeakersBuilder::new(&t, &p, false, true)
        .add_speaker(&"a1".to_string(), Some(7000)).ok().unwrap()
        .add_speaker(&"a2".to_string(), Some(7000)).ok().unwrap()
        .build()
        .ok()
        .unwrap();
    assert_eq!(full, vec![("a1".to_string(), None), ("a2".to_string(), None)]);
}

#[test]
fn ballot_builder_checks_version_and_motion() {
    let t = format_of(1, false);
    let p = people();
    let d = two_team_debate();
    let round = round_of_kind("P");
    let stale = BallotBuilder::new(&t, &d, &round, &p, ballot_metadata("m"), 1, 0, true, true, false);
    assert_eq!(
        stale.err().unwrap(),
        "Error: The ballot has been modified since you started editing. Please reload the page to see the latest version."
    );
    let bad_motion = BallotBuilder::new(&t, &d, &round, &p, ballot_metadata("zzz"), 0, 0, true, true, false);
    assert_eq!(bad_motion.err().unwrap(), "Error: invalid motion");
    let ok = BallotBuilder::new(&t, &d, &round, &p, ballot_metadata("m"), 0, 0, true, true, false).ok().unwrap();
    assert_eq!(ok.version(), 0);
    assert!(!ok.is_elim());
    assert_eq!(ok.num_advancing(), None);
}

#[test]
fn prelim_ballot_ranks_teams_by_scores() {
    let t = format_of(1, false);
    let p = people();
    let d = two_team_debate();
    let round = round_of_kind("P");
    let mut b = BallotBuilder::new(&t, &d, &round, &p, ballot_metadata("m"), 0, 0, true, true, false).ok().unwrap();
    assert!(b.add_team(0, 0, vec![("a1".to_string(), Some(7000)), ("a2".to_string(), Some(7100))], None).is_ok());
    let early = BallotBuilder::new(&t, &d, &round, &p, ballot_metadata("m"), 0, 0, true, true, false).ok().unwrap();
    assert_eq!(early.build().err().unwrap(), "Error: incorrect number of teams submitted");
    assert!(b.add_team(1, 0, vec![("b1".to_string(), Some(7500)), ("b2".to_string(), Some(7600))], None).is_ok());
    let ballot = b.build().ok().unwrap();
    let ranks: Vec<(String, i64)> = ballot.team_ranks.iter().map(|r| (r.team_id.clone(), r.points)).collect();
    assert_eq!(ranks, vec![("B".to_string(), 1), ("A".to_string(), 0)]);
    let positions: Vec<(String, String, i64)> =
        ballot.scores.iter().map(|s| (s.team_id.clone(), s.speaker_id.clone(), s.speaker_position)).collect();
    assert_eq!(
        positions,
        vec![
            ("A".to_string(), "a1".to_string(), 0),
            ("A".to_string(), "a2".to_string(), 1),
            ("B".to_string(), "b1".to_string(), 0),
            ("B".to_string(), "b2".to_string(), 1),
        ]
    );
    assert!(ballot.scores.iter().all(|s| s.ballot_id == "b"));
}

#[test]
fn elim_ballot_needs_the_right_number_of_advancing_teams() {
    let t = format_of(1, false);
    let p = people();
    let d = two_team_debate();
    let round = round_of_kind("E");
    let mut none_advance = BallotBuilder::new(&t, &d, &round, &p, ballot_metadata("m"), 0, 0, false, false, false).ok().unwrap();
    assert_eq!(none_advance.num_advancing(), Some(1));
    assert_eq!(
        none_advance.add_team(0, 0, vec![("a1".to_string(), None)], Some(1)).err().unwrap(),
        "Error: speakers should not be submitted for this round type"
    );
    assert!(none_advance.add_team(0, 0, vec![], Some(0)).is_ok());
    assert!(none_advance.add_team(1, 0, vec![], None).is_ok());
    assert_eq!(none_advance.build().err().unwrap(), "Error: expected 1 advancing team(s), but 0 were selected");
    let mut b = BallotBuilder::new(&t, &d, &round, &p, ballot_metadata("m"), 0, 0, false, false, false).ok().unwrap();
    assert!(b.add_team(0, 0, vec![], Some(0)).is_ok());
    assert!(b.add_team(1, 0, vec![], Some(1)).is_ok());
    let ballot = b.build().ok().unwrap();
    let ranks: Vec<(String, i64)> = ballot.team_ranks.iter().map(|r| (r.team_id.clone(), r.points)).collect();
    assert_eq!(ranks, vec![("A".to_string(), 0), ("B".to_string(), 1)]);
    assert!(ballot.scores.is_empty());
}

#[test]
fn tied_teams_get_equal_points() {
    let t = format_of(1, false);
    let p = people();
    let d = two_team_debate();
    let round = round_of_kind("P");
    let mut b = BallotBuilder::new(&t, &d, &round, &p, ballot_metadata("m"), 0, 0, true, true, false).ok().unwrap();
    assert!(b.add_team(0, 0, vec![("a1".to_string(), Some(7000)), ("a2".to_string(), Some(7100))], None).is_ok());
    assert!(b.add_team(1, 0, vec![("b1".to_string(), Some(7100)), ("b2".to_string(), Some(7000))], None).is_ok());
    let ballot = b.build().ok().unwrap();
    let ranks: Vec<(String, i64)> = ballot.team_ranks.iter().map(|r| (r.team_id.clone(), r.points)).collect();
    assert_eq!(ranks, vec![("A".to_string(), 0), ("B".to_string(), 0)]);
}

#[test]
fn a_ballot_at_a_later_version_can_be_edited() {
    let t = format_of(1, false);
    let p = people();
    let d = two_team_debate();
    let round = round_of_kind("P");
    let b = BallotBuilder::new(&t, &d, &round, &p, ballot_metadata("m"), 3, 3, true, true, false).ok().unwrap();
    assert_eq!(b.version(), 3);
}

#[test]
fn exactly_the_advancing_teams_get_a_point() {
    let t = format_of(2, false);
    let p = people();
    let mut d = two_team_debate();
    let dteam = |id: &str, side: i64, seq: i64| DebateTeam {
        id: format!("dt-{id}"),
        tournament_id: "t".to_string(),
        debate_id: "d".to_string(),
        team_id: id.to_string(),
        side,
        seq,
    };
    d.teams_of_debate = vec![dteam("A", 0, 0), dteam("B", 1, 0), dteam("C", 0, 1), dteam("D", 1, 1)];
    let round = round_of_kind("E");
    let mut b = BallotBuilder::new(&t, &d, &round, &p, ballot_metadata("m"), 0, 0, false, false, false).ok().unwrap();
    assert_eq!(b.num_advancing(), Some(2));
    assert!(b.add_team(0, 0, vec![], Some(1)).is_ok());
    assert!(b.add_team(1, 0, vec![], Some(0)).is_ok());
    assert!(b.add_team(0, 1, vec![], Some(0)).is_ok());
    assert!(b.add_team(1, 1, vec![], Some(1)).is_ok());
    let ballot = b.build().ok().unwrap();
    let with_point: Vec<String> = ballot.team_ranks.iter().filter(|r| r.points == 1).map(|r| r.team_id.clone()).collect();
    assert_eq!(with_point, vec!["A".to_string(), "D".to_string()]);
    assert_eq!(ballot.team_ranks.iter().filter(|r| r.points == 0).count(), 2);
}
