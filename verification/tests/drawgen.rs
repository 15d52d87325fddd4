use rand::seq::IteratorRandom;
use rand::SeedableRng;
use tournaments::drawgen::{
    after_generation, check_ticket_current, debates_of_draw, draw_error_text, draw_of_choices, gen_random, next_draw_ticket,
    rooms_for_teams, store_plan, AfterGeneration, DrawInput, GeneratorAnswer,
    MakeDrawError,
};
use tournaments::participants::Team;
use tournaments::rounds::Round;
use tournaments::standings::{TeamHistory, TeamStandings};
use tournaments::tournament::Tournament;

fn tournament(teams_per_side: i64) -> Tournament {
    Tournament {
        id: "t1".to_string(),
        teams_per_side,
        substantive_speakers: 3,
        reply_speakers: false,
        substantive_speech_min_speak: None,
        substantive_speech_max_speak: None,
        reply_speech_min_speak: None,
        reply_speech_max_speak: None,
    }
}

fn team(i: usize) -> Team {
    Team { id: format!("T{i}"), tournament_id: "t1".to_string(), name: format!("Team {i}"), institution_id: None, number: i as i64 }
}

fn input(teams_per_side: i64, n: usize, seed: u64) -> DrawInput {
    DrawInput {
        tournament: tournament(teams_per_side),
        round: Round {
            id: "R1".to_string(),
            tournament_id: "t1".to_string(),
            seq: 1,
            name: "Round 1".to_string(),
            kind: "P".to_string(),
            break_cat: None,
            completed: false,
            draw_status: "draft".to_string(),
            draw_released_at: None,
            motions_released_at: None,
            results_published_at: None,
        },
        teams: (0..n).map(team).collect(),
        standings: TeamStandings { metrics: vec![], ranked_metrics_of_team: vec![], pullup_metrics: vec![], ranked: vec![] },
        history: TeamHistory(vec![]),
        rng: rand_chacha::ChaCha20Rng::seed_from_u64(seed),
    }
}

#[test]
fn draw_tickets() {
    assert!(matches!(next_draw_ticket(None, false), Ok(0)));
    assert!(matches!(next_draw_ticket(None, true), Ok(0)));
    assert!(matches!(next_draw_ticket(Some(3), true), Ok(4)));
    assert!(matches!(next_draw_ticket(Some(3), false), Err(MakeDrawError::AlreadyInProgress)));
    assert!(matches!(check_ticket_current(true), Err(MakeDrawError::TicketExpired)));
    assert!(matches!(check_ticket_current(false), Ok(())));
}

#[test]
fn a_random_draw_places_every_team_once() {
    for seed in 0..5u64 {
        let draw = match gen_random(input(2, 8, seed)) {
            Ok(d) => d,
            Err(_) => panic!("the draw was refused"),
        };
        assert_eq!(draw.len(), 2);
        let mut seen: Vec<String> = Vec::new();
        for (prop, opp) in &draw {
            assert_eq!(prop.len(), 2);
            assert_eq!(opp.len(), 2);
            for t in prop.iter().chain(opp.iter()) {
                seen.push(t.id.clone());
            }
        }
        seen.sort();
        let mut all: Vec<String> = (0..8).map(|i| format!("T{i}")).collect();
        all.sort();
        assert_eq!(seen, all);
    }
}

#[test]
fn random_draws_are_refused_without_a_full_room() {
    match gen_random(input(1, 0, 1)) {
        Err(MakeDrawError::InvalidTeamCount(m)) => assert_eq!(m, "There are no available teams!"),
        _ => panic!("an empty draw was made"),
    }
    match gen_random(input(2, 6, 1)) {
        Err(MakeDrawError::InvalidTeamCount(m)) => assert_eq!(
            m,
            "Expected the number of teams to be divisible by 4.\n             However, there are $6 available teams to be drawn."
        ),
        _ => panic!("an uneven draw was made"),
    }
}

#[test]
fn stored_rows_of_a_draw() {
    let draw = vec![(vec![team(1)], vec![team(2)]), (vec![team(3)], vec![team(4)])];
    let rows = debates_of_draw(&draw, &"t1".to_string(), &"R1".to_string());
    assert_eq!(rows.debates.len(), 2);
    assert_eq!(rows.debates[0].number, 1);
    assert_eq!(rows.debates[1].number, 2);
    assert_eq!(rows.debates[0].status, "draft");
    assert!(rows.debates[0].room_id.is_none());
    assert_eq!(rows.debate_teams.len(), 4);
    let places: Vec<(String, i64, i64)> =
        rows.debate_teams.iter().map(|t| (t.team_id.clone(), t.side, t.seq)).collect();
    assert_eq!(
        places,
        vec![("T1".to_string(), 0, 0), ("T2".to_string(), 1, 0), ("T3".to_string(), 0, 0), ("T4".to_string(), 1, 0)]
    );
    assert_eq!(rows.debate_teams[2].debate_id, rows.debates[1].id);
    assert_ne!(rows.debates[0].id, rows.debates[1].id);
}

#[test]
fn messages_of_draw_errors() {
    assert_eq!(draw_error_text(&MakeDrawError::InvalidConfiguration("x".to_string())), Some("Invalid configuration: x".to_string()));
    assert_eq!(draw_error_text(&MakeDrawError::InvalidTeamCount("y".to_string())), Some("Wrong number of teams: y".to_string()));
    assert_eq!(draw_error_text(&MakeDrawError::AlreadyInProgress), None);
    assert_eq!(draw_error_text(&MakeDrawError::TicketExpired), Some("Draw generation was cancelled.".to_string()));
    assert_eq!(draw_error_text(&MakeDrawError::Panic), Some("Internal application error.".to_string()));
}

#[test]
fn rooms_of_a_power_paired_draw() {
    assert!(matches!(rooms_for_teams(8, 2), Ok(2)));
    match rooms_for_teams(0, 1) {
        Err(MakeDrawError::InvalidTeamCount(m)) => assert_eq!(m, "There are no teams!"),
        _ => panic!("no teams were accepted"),
    }
    match rooms_for_teams(5, 1) {
        Err(MakeDrawError::InvalidTeamCount(m)) => {
            assert_eq!(m, "The number of available teams should be divisible by 2\n             (there were 5 teams).")
        }
        _ => panic!("an odd number of teams was accepted"),
    }
}

fn ids_of(draw: &[(Vec<Team>, Vec<Team>)]) -> Vec<(Vec<String>, Vec<String>)> {
    draw.iter()
        .map(|(p, o)| (p.iter().map(|t| t.id.clone()).collect(), o.iter().map(|t| t.id.clone()).collect()))
        .collect()
}

#[test]
fn draws_follow_the_choices() {
    let teams: Vec<Team> = (0..4).map(team).collect();
    let first_each_time = draw_of_choices(teams.clone(), &vec![0, 0, 0, 0], 1);
    assert_eq!(
        ids_of(&first_each_time),
        vec![(vec!["T0".to_string()], vec!["T3".to_string()]), (vec!["T2".to_string()], vec!["T1".to_string()])]
    );
    let other = draw_of_choices(teams.clone(), &vec![3, 0, 1, 0], 1);
    assert_eq!(
        ids_of(&other),
        vec![(vec!["T3".to_string()], vec!["T0".to_string()]), (vec!["T1".to_string()], vec!["T2".to_string()])]
    );
    let bp = draw_of_choices(teams, &vec![1, 2, 0, 0], 2);
    assert_eq!(ids_of(&bp), vec![(vec!["T1".to_string(), "T2".to_string()], vec!["T0".to_string(), "T3".to_string()])]);
}

#[test]
fn a_random_draw_is_the_draw_of_its_random_choices() {
    for seed in [1u64, 7, 42] {
        let mut rng = rand_chacha::ChaCha20Rng::seed_from_u64(seed);
        let choices: Vec<usize> = (0..8).map(|k| (0..8 - k).choose(&mut rng).unwrap()).collect();
        let expected = draw_of_choices((0..8).map(team).collect(), &choices, 2);
        let drawn = match gen_random(input(2, 8, seed)) {
            Ok(d) => d,
            Err(_) => panic!("the draw was refused"),
        };
        assert_eq!(ids_of(&drawn), ids_of(&expected));
    }
}

#[test]
fn steps_after_the_generator_answers() {
    assert!(matches!(after_generation(GeneratorAnswer::Drawn), AfterGeneration::StoreDraw));
    assert!(matches!(after_generation(GeneratorAnswer::Panicked), AfterGeneration::Abandon(MakeDrawError::Panic)));
    match after_generation(GeneratorAnswer::Refused(MakeDrawError::InvalidTeamCount("odd".to_string()))) {
        AfterGeneration::Abandon(MakeDrawError::InvalidTeamCount(m)) => assert_eq!(m, "odd"),
        _ => panic!("a refusal was not reported"),
    }
    let forced = store_plan(false, true);
    assert!(forced.delete_debates && forced.store_draw && forced.result.is_ok());
    let plain = store_plan(false, false);
    assert!(!plain.delete_debates && plain.store_draw && plain.result.is_ok());
    let expired = store_plan(true, true);
    assert!(!expired.delete_debates && !expired.store_draw);
    assert!(matches!(expired.result, Err(MakeDrawError::TicketExpired)));
}

#[test]
fn a_ticket_without_force_needs_no_headroom() {
    assert!(matches!(next_draw_ticket(Some(i64::MAX), false), Err(MakeDrawError::AlreadyInProgress)));
}
