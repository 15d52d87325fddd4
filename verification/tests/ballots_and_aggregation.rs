use tournaments::aggregate::{
    aggregate_ballot_set, determine_winner_by_vote, side_judge_voted_for_in_2_team_format, BallotAggregationMethod,
};
use tournaments::ballot_checks::{debate_status, DebateStatus};
use tournaments::ballots::{total_of_team, BallotMetadata, BallotRepr, BallotScore, BallotTeamRank};
use tournaments::draws::{Debate, DebateRepr, DebateTeam};
use tournaments::participants::{DebateJudge, Judge, Speaker, Team};
use tournaments::rounds::Motion;
use tournaments::tournament::Tournament;

fn one_v_one() -> Tournament {
    Tournament {
        id: "t".to_string(),
        teams_per_side: 1,
        substantive_speakers: 1,
        reply_speakers: false,
        substantive_speech_min_speak: Some(5000),
        substantive_speech_max_speak: Some(8000),
        reply_speech_min_speak: None,
        reply_speech_max_speak: None,
    }
}

fn seat(judge: &str, status: &str) -> DebateJudge {
    DebateJudge {
        id: format!("seat-{judge}"),
        tournament_id: "t".to_string(),
        debate_id: "d".to_string(),
        judge_id: judge.to_string(),
        status: status.to_string(),
    }
}

fn person(id: &str, name: &str) -> Judge {
    Judge { id: id.to_string(), tournament_id: "t".to_string(), name: name.to_string(), number: 0 }
}

fn debate_of_panel(seats: Vec<DebateJudge>) -> DebateRepr {
    let team = |id: &str, name: &str| Team {
        id: id.to_string(),
        tournament_id: "t".to_string(),
        name: name.to_string(),
        institution_id: None,
        number: 0,
    };
    let dteam = |id: &str, side: i64| DebateTeam {
        id: format!("dt-{id}"),
        tournament_id: "t".to_string(),
        debate_id: "d".to_string(),
        team_id: id.to_string(),
        side,
        seq: 0,
    };
    let speaker = |id: &str, name: &str| Speaker { id: id.to_string(), tournament_id: "t".to_string(), name: name.to_string() };
    DebateRepr {
        debate: Debate {
            id: "d".to_string(),
            tournament_id: "t".to_string(),
            round_id: "r".to_string(),
            room_id: None,
            number: 1,
            status: "draft".to_string(),
        },
        room: None,
        teams_of_debate: vec![dteam("A", 0), dteam("B", 1)],
        teams: vec![team("A", "Alpha"), team("B", "Beta")],
        speakers_of_team: vec![
            ("A".to_string(), vec![speaker("a1", "Ann"), speaker("a2", "Abe")]),
            ("B".to_string(), vec![speaker("b1", "Ben")]),
        ],
        judges_of_debate: seats,
        judges: vec![person("j1", "Jo & Co"), person("j2", "Kim"), person("j3", "Lee")],
        motions: vec![Motion {
            id: "m".to_string(),
            tournament_id: "t".to_string(),
            round_id: "r".to_string(),
            infoslide: None,
            motion: "THW".to_string(),
        }],
    }
}

fn metadata(id: &str, judge: &str) -> BallotMetadata {
    BallotMetadata {
        id: id.to_string(),
        tournament_id: "t".to_string(),
        debate_id: "d".to_string(),
        judge_id: judge.to_string(),
        submitted_at: chrono::NaiveDateTime::default(),
        motion_id: "m".to_string(),
        version: 0,
        change: None,
        editor_id: None,
    }
}

fn score_row(ballot: &str, team: &str, speaker: &str, position: i64, score: Option<i64>) -> BallotScore {
    BallotScore {
        id: format!("{ballot}-{speaker}-{position}"),
        tournament_id: "t".to_string(),
        ballot_id: ballot.to_string(),
        team_id: team.to_string(),
        speaker_id: speaker.to_string(),
        speaker_position: position,
        score,
    }
}

fn rank_row(ballot: &str, team: &str, points: i64) -> BallotTeamRank {
    BallotTeamRank {
        id: format!("{ballot}-{team}"),
        tournament_id: "t".to_string(),
        ballot_id: ballot.to_string(),
        team_id: team.to_string(),
        points,
    }
}

/// A ballot of judge `judge` with scores for Ann (A) and Ben (B) and the
/// given points for A and B.
fn scored_ballot(id: &str, judge: &str, a_speaker: &str, a_score: i64, b_score: i64, a_points: i64) -> BallotRepr {
    BallotRepr::new_prelim(
        metadata(id, judge),
        vec![score_row(id, "A", a_speaker, 0, Some(a_score)), score_row(id, "B", "b1", 0, Some(b_score))],
        vec![rank_row(id, "A", a_points), rank_row(id, "B", 1 - a_points)],
    )
}

#[test]
fn team_totals_add_the_recorded_scores() {
    let scores = vec![
        score_row("x", "A", "a1", 0, Some(7550)),
        score_row("x", "A", "a2", 1, Some(7425)),
        score_row("x", "A", "a2", 2, None),
        score_row("x", "B", "b1", 0, Some(8000)),
    ];
    assert_eq!(total_of_team(&scores, &"A".to_string()), 14975);
    assert_eq!(total_of_team(&scores, &"B".to_string()), 8000);
    assert_eq!(total_of_team(&scores, &"C".to_string()), 0);
}

#[test]
fn scores_of_a_team_come_in_speaking_order() {
    let b = BallotRepr::new_prelim(
        metadata("x", "j1"),
        vec![
            score_row("x", "A", "a2", 1, Some(7000)),
            score_row("x", "B", "b1", 0, Some(7100)),
            score_row("x", "A", "a1", 0, Some(7200)),
        ],
        vec![rank_row("x", "A", 1), rank_row("x", "B", 0), rank_row("x", "A", 0)],
    );
    let order: Vec<String> = b.scores_of_team(&"A".to_string()).iter().map(|s| s.speaker_id.clone()).collect();
    assert_eq!(order, vec!["a1".to_string(), "a2".to_string()]);
    assert_eq!(b.team_ids(), vec!["A".to_string(), "B".to_string()]);
    assert_eq!(b.team_count(), 2);
    assert_eq!(b.points_of_team(&"A".to_string()), 1);
    assert_eq!(b.points_of_team(&"B".to_string()), 0);
    assert_eq!(b.teams_in_rank_order(), vec!["A".to_string(), "B".to_string()]);
}

#[test]
fn teams_in_rank_order_follow_descending_totals() {
    let b = scored_ballot("x", "j1", "a1", 7000, 7600, 0);
    assert_eq!(b.teams_in_rank_order(), vec!["B".to_string(), "A".to_string()]);
    let tie = scored_ballot("y", "j1", "a1", 7000, 7000, 0);
    assert_eq!(tie.teams_in_rank_order(), vec!["A".to_string(), "B".to_string()]);
}

#[test]
fn agreeing_ballots_have_no_problems() {
    let t = one_v_one();
    let d = debate_of_panel(vec![seat("j1", "C"), seat("j2", "P")]);
    let a = scored_ballot("x", "j1", "a1", 7500, 7600, 0);
    let b = scored_ballot("y", "j2", "a1", 7500, 7600, 0);
    assert!(a.get_human_readable_description_for_problems(&b, &t, &d).is_empty());
    assert!(a.is_isomorphic(&b, &t, &d));
    assert!(BallotRepr::problems_of_set(&vec![a, b], &t, &d).is_empty());
}

#[test]
fn differing_points_are_described_with_escaped_names() {
    let t = one_v_one();
    let d = debate_of_panel(vec![seat("j1", "C"), seat("j2", "P")]);
    let a = BallotRepr::new_elim(metadata("x", "j1"), vec![rank_row("x", "A", 1), rank_row("x", "B", 0)]);
    let b = BallotRepr::new_elim(metadata("y", "j2"), vec![rank_row("y", "A", 0), rank_row("y", "B", 1)]);
    let texts = a.get_human_readable_description_for_problems(&b, &t, &d);
    assert_eq!(
        texts,
        vec![
            "Error: the ballot from Jo &amp; Co gives Alpha 1 point(s), whereas the ballot from Kim gives them 0 point(s)."
                .to_string(),
            "Error: the ballot from Jo &amp; Co gives Beta 0 point(s), whereas the ballot from Kim gives them 1 point(s)."
                .to_string(),
        ]
    );
    assert!(!a.is_isomorphic(&b, &t, &d));
}

#[test]
fn differing_speakers_and_scores_are_described() {
    let t = one_v_one();
    let d = debate_of_panel(vec![seat("j2", "C"), seat("j3", "P")]);
    let a = scored_ballot("x", "j2", "a1", 7500, 7600, 0);
    let b = scored_ballot("y", "j3", "a2", 7550, 7600, 0);
    let texts = a.get_human_readable_description_for_problems(&b, &t, &d);
    assert_eq!(
        texts,
        vec![
            "Error: the ballot from Kim has Ann as Gov, whereas the ballot from Lee has Abe as Gov.".to_string(),
            "Error: the ballot from Kim has a score of 75 for Ann as Gov, whereas the ballot from Lee has a score of 75.5 for Abe as Gov."
                .to_string(),
        ]
    );
    let all = BallotRepr::problems_of_set(&vec![a, b], &t, &d);
    assert_eq!(all.len(), 4);
    assert_eq!(all[2], "Error: the ballot from Lee has Abe as Gov, whereas the ballot from Kim has Ann as Gov.");
}

#[test]
fn debate_status_follows_the_panel() {
    let t = one_v_one();
    let d = debate_of_panel(vec![seat("j2", "C"), seat("j3", "P"), seat("j1", "T")]);
    let a = scored_ballot("x", "j2", "a1", 7500, 7600, 0);
    let b = scored_ballot("y", "j3", "a1", 7500, 7600, 0);
    let c = scored_ballot("z", "j3", "a1", 7500, 7700, 0);
    assert_eq!(debate_status(&d, &t, &vec![]), DebateStatus::Draft);
    assert_eq!(debate_status(&d, &t, &vec![scored_ballot("x", "j2", "a1", 7500, 7600, 0)]), DebateStatus::Draft);
    assert_eq!(debate_status(&d, &t, &vec![a, b]), DebateStatus::Confirmed);
    assert_eq!(
        debate_status(&d, &t, &vec![scored_ballot("x", "j2", "a1", 7500, 7600, 0), c]),
        DebateStatus::Conflict
    );
    assert_eq!(DebateStatus::Confirmed.code(), "confirmed");
    assert_eq!(DebateStatus::Conflict.code(), "conflict");
    assert_eq!(DebateStatus::Draft.code(), "draft");
    let trainees_only = debate_of_panel(vec![seat("j1", "T")]);
    assert_eq!(debate_status(&trainees_only, &t, &vec![]), DebateStatus::Draft);
}

#[test]
fn votes_decide_by_majority_then_chair() {
    let d = debate_of_panel(vec![seat("j1", "P"), seat("j2", "C"), seat("j3", "P")]);
    let for_prop = |id: &str, judge: &str| {
        BallotRepr::new_elim(metadata(id, judge), vec![rank_row(id, "A", 1), rank_row(id, "B", 0)])
    };
    let for_opp = |id: &str, judge: &str| {
        BallotRepr::new_elim(metadata(id, judge), vec![rank_row(id, "A", 0), rank_row(id, "B", 1)])
    };
    assert_eq!(side_judge_voted_for_in_2_team_format(&d, &for_prop("x", "j1")), 0);
    assert_eq!(side_judge_voted_for_in_2_team_format(&d, &for_opp("x", "j1")), 1);
    assert!(determine_winner_by_vote(&vec![for_prop("x", "j1"), for_prop("y", "j3"), for_opp("z", "j2")], &d));
    assert!(!determine_winner_by_vote(&vec![for_prop("x", "j1"), for_opp("z", "j2")], &d));
    assert!(determine_winner_by_vote(&vec![for_opp("x", "j1"), for_prop("z", "j2")], &d));
}

#[test]
fn consensus_results_copy_the_first_ballot() {
    let t = one_v_one();
    let d = debate_of_panel(vec![seat("j1", "C"), seat("j2", "P")]);
    let ballots = vec![scored_ballot("x", "j1", "a1", 7500, 7600, 0), scored_ballot("y", "j2", "a1", 7500, 7600, 0)];
    let r = aggregate_ballot_set(&ballots, &t, &d, BallotAggregationMethod::Consensus, false, true);
    let teams: Vec<(String, Option<i64>)> = r.team_results.iter().map(|x| (x.team_id.clone(), x.points)).collect();
    assert_eq!(teams, vec![("A".to_string(), Some(0)), ("B".to_string(), Some(1))]);
    let speakers: Vec<(String, i64, Option<i64>)> =
        r.speaker_results.iter().map(|x| (x.speaker_id.clone(), x.position, x.score)).collect();
    assert_eq!(speakers, vec![("a1".to_string(), 0, Some(7500)), ("b1".to_string(), 0, Some(7600))]);
    assert!(r.team_results.iter().all(|x| x.debate_id == "d" && x.tournament_id == "t"));
    let no_speaks = aggregate_ballot_set(&ballots, &t, &d, BallotAggregationMethod::Consensus, false, false);
    assert!(no_speaks.speaker_results.is_empty());
}

#[test]
fn consensus_elimination_results_give_advancing_teams_a_point() {
    let t = one_v_one();
    let d = debate_of_panel(vec![seat("j1", "C")]);
    let ballots = vec![BallotRepr::new_elim(metadata("x", "j1"), vec![rank_row("x", "B", 1)])];
    let r = aggregate_ballot_set(&ballots, &t, &d, BallotAggregationMethod::Consensus, true, false);
    let teams: Vec<(String, Option<i64>)> = r.team_results.iter().map(|x| (x.team_id.clone(), x.points)).collect();
    assert_eq!(teams, vec![("A".to_string(), Some(0)), ("B".to_string(), Some(1))]);
    assert!(r.speaker_results.is_empty());
}

#[test]
fn individual_results_count_votes_and_average_scores() {
    let t = one_v_one();
    let d = debate_of_panel(vec![seat("j1", "C"), seat("j2", "P")]);
    let ballots = vec![scored_ballot("x", "j1", "a1", 7500, 7600, 0), scored_ballot("y", "j2", "a1", 7500, 7600, 0)];
    let r = aggregate_ballot_set(&ballots, &t, &d, BallotAggregationMethod::Individual, false, true);
    let teams: Vec<(String, Option<i64>)> = r.team_results.iter().map(|x| (x.team_id.clone(), x.points)).collect();
    assert_eq!(teams, vec![("A".to_string(), Some(0)), ("B".to_string(), Some(1))]);
    let scores: Vec<Option<i64>> = r.speaker_results.iter().map(|x| x.score).collect();
    assert_eq!(scores, vec![Some(7500), Some(7600)]);
}

#[test]
fn latest_ballots_keep_each_judges_newest() {
    let d = debate_of_panel(vec![seat("j1", "C"), seat("j2", "P")]);
    let history = vec![
        scored_ballot("new1", "j1", "a1", 7500, 7600, 0),
        scored_ballot("new2", "j2", "a1", 7500, 7600, 0),
        scored_ballot("old1", "j1", "a1", 7000, 7600, 0),
    ];
    let ids: Vec<String> = d.latest_ballots(history).iter().map(|b| b.metadata.id.clone()).collect();
    assert_eq!(ids, vec!["new1".to_string(), "new2".to_string()]);
}

#[test]
fn a_split_panel_is_decided_by_its_votes() {
    let t = one_v_one();
    let d = debate_of_panel(vec![seat("j1", "C"), seat("j2", "P"), seat("j3", "P")]);
    let ballots = vec![
        scored_ballot("x", "j1", "a1", 7600, 7500, 1),
        scored_ballot("y", "j2", "a1", 7600, 7500, 1),
        scored_ballot("z", "j3", "a1", 7500, 7600, 0),
    ];
    let r = aggregate_ballot_set(&ballots, &t, &d, BallotAggregationMethod::Individual, false, false);
    let teams: Vec<(String, Option<i64>)> = r.team_results.iter().map(|x| (x.team_id.clone(), x.points)).collect();
    assert_eq!(teams, vec![("A".to_string(), Some(1)), ("B".to_string(), Some(0))]);
}
