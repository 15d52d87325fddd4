use tournaments::draws::DebateTeam;
use tournaments::metrics::{draw_strength_of_teams, points_of_team, sum_by_key, times_team_achieved_p_points};
use tournaments::participants::Team;
use tournaments::standings::{MetricValue, RankableTeamMetric, SerializableMetric, TeamHistory, TeamStandings, UnrankableTeamMetric};
use tournaments::tournament::Tournament;

fn team(id: &str) -> Team {
    Team { id: id.to_string(), tournament_id: "t1".to_string(), name: format!("Team {id}"), institution_id: None, number: 1 }
}

fn ids(brackets: &[Vec<Team>]) -> Vec<Vec<String>> {
    brackets.iter().map(|b| b.iter().map(|t| t.id.clone()).collect()).collect()
}

fn s(v: &[&str]) -> Vec<String> {
    v.iter().map(|x| x.to_string()).collect()
}

fn entry(id: &str, values: &[i64]) -> (String, Vec<(RankableTeamMetric, MetricValue)>) {
    (id.to_string(), values.iter().map(|v| (RankableTeamMetric::Wins, MetricValue::Integer(*v))).collect())
}

#[test]
fn teams_are_ranked_best_first_with_ties_grouped() {
    let teams = vec![team("a"), team("b"), team("c"), team("d"), team("e")];
    let metrics = vec![entry("a", &[2, 10]), entry("b", &[1, 5]), entry("c", &[2, 10]), entry("d", &[2, 3])];
    let ranked = TeamStandings::rank_teams(teams, &metrics);
    assert_eq!(ids(&ranked), vec![s(&["a", "c"]), s(&["d"]), s(&["b"]), s(&["e"])]);
}

#[test]
fn decimals_rank_above_whole_numbers() {
    let teams = vec![team("a"), team("b")];
    let metrics = vec![
        ("a".to_string(), vec![(RankableTeamMetric::TotalSpeakerScore, MetricValue::Float(100))]),
        ("b".to_string(), vec![(RankableTeamMetric::TotalSpeakerScore, MetricValue::Integer(500))]),
    ];
    let ranked = TeamStandings::rank_teams(teams, &metrics);
    assert_eq!(ids(&ranked), vec![s(&["a"]), s(&["b"])]);
}

#[test]
fn ranks_are_shared_and_skip() {
    let standings = TeamStandings {
        metrics: vec![],
        ranked_metrics_of_team: vec![],
        pullup_metrics: vec![],
        ranked: vec![vec![team("t1"), team("t2")], vec![team("t3"), team("t4")], vec![team("t5"), team("t6"), team("t7")]],
    };
    let rows = standings.rank_rows();
    let ranks: Vec<i64> = rows.iter().map(|r| r.1).collect();
    assert_eq!(ranks, vec![1, 1, 3, 3, 5, 5, 5]);
    let directory: Vec<Team> = (1..=7).map(|i| team(&format!("t{i}"))).collect();
    let back = TeamStandings::brackets_of_rankings(&rows, &directory);
    assert_eq!(ids(&back), ids(&standings.ranked));
}

#[test]
fn stored_metrics_keep_the_tournaments_order() {
    let metrics = vec![RankableTeamMetric::Wins, RankableTeamMetric::TotalSpeakerScore];
    let rows = vec![
        ("a".to_string(), SerializableMetric::Rankable(RankableTeamMetric::Wins), MetricValue::Integer(2)),
        ("a".to_string(), SerializableMetric::Rankable(RankableTeamMetric::TotalSpeakerScore), MetricValue::Float(15050)),
        ("b".to_string(), SerializableMetric::Rankable(RankableTeamMetric::Ballots), MetricValue::Integer(9)),
        ("b".to_string(), SerializableMetric::NonRankable(UnrankableTeamMetric::DrawStrengthByRank), MetricValue::Integer(4)),
        ("b".to_string(), SerializableMetric::NonRankable(UnrankableTeamMetric::DrawStrengthByRank), MetricValue::Integer(5)),
    ];
    let (ranked, pullups) = TeamStandings::metrics_of_rows(&rows, &metrics);
    assert_eq!(ranked.len(), 1);
    assert_eq!(ranked[0].0, "a");
    assert_eq!(
        ranked[0].1,
        vec![(RankableTeamMetric::Wins, MetricValue::Integer(2)), (RankableTeamMetric::TotalSpeakerScore, MetricValue::Float(15050))]
    );
    assert_eq!(pullups.len(), 1);
    assert_eq!(pullups[0].1, MetricValue::Integer(5));
    let standings = TeamStandings { metrics, ranked_metrics_of_team: ranked, pullup_metrics: pullups, ranked: vec![] };
    assert_eq!(standings.points_of_team(&"a".to_string()), Some(2));
    assert_eq!(standings.points_of_team(&"z".to_string()), None);
}

#[test]
fn position_history() {
    let t = Tournament {
        id: "t1".to_string(),
        teams_per_side: 2,
        substantive_speakers: 2,
        reply_speakers: false,
        substantive_speech_min_speak: None,
        substantive_speech_max_speak: None,
        reply_speech_min_speak: None,
        reply_speech_max_speak: None,
    };
    let row = |team: &str, side: i64, seq: i64| DebateTeam {
        id: format!("{team}{side}{seq}"),
        tournament_id: "t1".to_string(),
        debate_id: "d".to_string(),
        team_id: team.to_string(),
        side,
        seq,
    };
    let rows = vec![row("a", 0, 0), row("a", 1, 0), row("a", 0, 1), row("a", 0, 0), row("b", 1, 1)];
    let TeamHistory(history) = TeamHistory::of_positions(&t, &vec![team("a"), team("b"), team("c")], &rows);
    assert_eq!(history, vec![("a".to_string(), vec![2, 1, 1, 0]), ("b".to_string(), vec![0, 0, 0, 1])]);
}

#[test]
fn points_and_results() {
    let results = vec![
        ("a".to_string(), Some(1)),
        ("b".to_string(), Some(0)),
        ("a".to_string(), Some(1)),
        ("b".to_string(), None),
    ];
    assert_eq!(points_of_team(&results, &s(&["c", "a"])), vec![("a".to_string(), 2), ("b".to_string(), 0), ("c".to_string(), 0)]);
    assert_eq!(times_team_achieved_p_points(1, &results, &s(&["a", "b"])), vec![("a".to_string(), 2), ("b".to_string(), 0)]);
    assert_eq!(sum_by_key(&vec![("x".to_string(), 3), ("x".to_string(), -1)], &s(&["y"])), vec![("x".to_string(), 2), ("y".to_string(), 0)]);
}

#[test]
fn draw_strength_counts_the_opponents_points() {
    let rows = vec![
        ("d1".to_string(), "a".to_string()),
        ("d1".to_string(), "b".to_string()),
        ("d2".to_string(), "a".to_string()),
        ("d2".to_string(), "c".to_string()),
    ];
    let points = vec![("a".to_string(), 1), ("b".to_string(), 2), ("c".to_string(), 3)];
    assert_eq!(
        draw_strength_of_teams(&rows, &points),
        vec![("a".to_string(), 5), ("b".to_string(), 1), ("c".to_string(), 1)]
    );
}

#[test]
fn stored_metrics_read_back_unchanged() {
    let metrics = vec![RankableTeamMetric::Wins, RankableTeamMetric::NTimesAchieved(3), RankableTeamMetric::TotalSpeakerScore];
    let entries = vec![
        (
            "a".to_string(),
            vec![
                (RankableTeamMetric::Wins, MetricValue::Integer(3)),
                (RankableTeamMetric::NTimesAchieved(3), MetricValue::Integer(1)),
                (RankableTeamMetric::TotalSpeakerScore, MetricValue::Float(22000)),
            ],
        ),
        ("b".to_string(), vec![(RankableTeamMetric::Wins, MetricValue::Integer(1)), (RankableTeamMetric::TotalSpeakerScore, MetricValue::Float(21050))]),
    ];
    let mut rows: Vec<(String, SerializableMetric, MetricValue)> = Vec::new();
    for (team, ms) in &entries {
        for (kind, value) in ms {
            rows.push((team.clone(), SerializableMetric::Rankable(*kind), *value));
        }
    }
    let (ranked, pullups) = TeamStandings::metrics_of_rows(&rows, &metrics);
    assert_eq!(ranked, entries);
    assert!(pullups.is_empty());
}

#[test]
fn standings_only_rows_rank_by_points_then_name() {
    let rows = vec![
        ("Delta".to_string(), 3),
        ("Alpha".to_string(), 3),
        ("Gamma".to_string(), 1),
        ("Beta".to_string(), 2),
        ("Echo".to_string(), 1),
    ];
    let out = tournaments::team_tab::standings_only_rows(&rows);
    assert_eq!(
        out,
        vec![
            (1, 3, "Alpha".to_string(), true),
            (1, 3, "Delta".to_string(), true),
            (3, 2, "Beta".to_string(), false),
            (4, 1, "Echo".to_string(), true),
            (4, 1, "Gamma".to_string(), true),
        ]
    );
    assert!(tournaments::team_tab::standings_only_rows(&vec![]).is_empty());
}

#[test]
fn points_rows_keep_rank_order_and_skip_teams_without_points() {
    let wins = |id: &str, w: i64| (id.to_string(), vec![(RankableTeamMetric::Wins, MetricValue::Integer(w))]);
    let standings = TeamStandings {
        metrics: vec![RankableTeamMetric::Wins],
        ranked_metrics_of_team: vec![wins("b", 2), wins("a", 2), wins("c", 0)],
        pullup_metrics: vec![],
        ranked: vec![vec![team("b"), team("a")], vec![team("d")], vec![team("c")]],
    };
    assert_eq!(
        standings.points_rows(),
        vec![("Team b".to_string(), 2), ("Team a".to_string(), 2), ("Team c".to_string(), 0)]
    );
}
