use tournaments::draw_edit::{
    allocated_judge_ids, allocated_room_ids, apply_move, change_judge_role, cmd_parts, draw_error_message,
    edit_path_for_tournament_id, edit_path_with_error, move_judge, move_room, move_team, panel_change_key,
    panel_snapshot, partial_href, role_class, round_ids_of_query, rounds_query, select_judge_href, select_room_href,
    stable_signature, submit_cmd_message, submit_cmd_redirect, Cmd, DrawAllocatorState, DrawTables,
    JudgeAllocatedAt, MoveJudgeError, MoveRoomError, Role,
};
use tournaments::draws::{Debate, DebateRepr, DebateTeam, Room, RoundDrawRepr};
use tournaments::participants::{DebateJudge, Judge, TournamentParticipants};
use tournaments::rounds::Round;
use tournaments::tournament::Tournament;

fn fnv(text: &str) -> String {
    let mut hash: u64 = 0xcbf29ce484222325;
    for b in text.as_bytes() {
        hash ^= *b as u64;
        hash = hash.wrapping_mul(0x100000001b3);
    }
    format!("{hash:016x}")
}

fn error_of<T>(r: Result<T, String>) -> String {
    match r {
        Err(e) => e,
        Ok(_) => panic!("the command was applied"),
    }
}

fn strings(v: &[&str]) -> Vec<String> {
    v.iter().map(|s| s.to_string()).collect()
}

fn round(id: &str, seq: i64) -> Round {
    Round {
        id: id.to_string(),
        tournament_id: "t1".to_string(),
        seq,
        name: format!("Round {seq}"),
        kind: "P".to_string(),
        break_cat: None,
        completed: false,
        draw_status: "draft".to_string(),
        draw_released_at: None,
        motions_released_at: None,
        results_published_at: None,
    }
}

fn debate(id: &str, round_id: &str, number: i64, room: Option<&str>) -> Debate {
    Debate {
        id: id.to_string(),
        tournament_id: "t1".to_string(),
        round_id: round_id.to_string(),
        room_id: room.map(|r| r.to_string()),
        number,
        status: "draft".to_string(),
    }
}

fn judge(id: &str, number: i64) -> Judge {
    Judge { id: id.to_string(), tournament_id: "t1".to_string(), name: format!("Judge {id}"), number }
}

fn seat(debate_id: &str, judge_id: &str, status: &str) -> DebateJudge {
    DebateJudge {
        id: format!("{debate_id}-{judge_id}"),
        tournament_id: "t1".to_string(),
        debate_id: debate_id.to_string(),
        judge_id: judge_id.to_string(),
        status: status.to_string(),
    }
}

fn team_row(id: &str, debate_id: &str, team_id: &str, side: i64, seq: i64) -> DebateTeam {
    DebateTeam {
        id: id.to_string(),
        tournament_id: "t1".to_string(),
        debate_id: debate_id.to_string(),
        team_id: team_id.to_string(),
        side,
        seq,
    }
}

fn tables() -> DrawTables {
    DrawTables {
        rounds: vec![round("R1", 1), round("R2", 2)],
        debates: vec![debate("D1", "R1", 1, Some("A")), debate("D2", "R1", 2, Some("B")), debate("D3", "R2", 1, None)],
        judges: vec![judge("J1", 1), judge("J2", 2), judge("J3", 3)],
        judges_of_debate: vec![seat("D1", "J1", "C"), seat("D2", "J2", "C")],
        teams_of_debate: vec![team_row("x1", "D1", "T1", 0, 0), team_row("x2", "D2", "T2", 1, 0)],
    }
}

fn seats(v: &[DebateJudge]) -> Vec<(String, String, String)> {
    v.iter().map(|s| (s.debate_id.clone(), s.judge_id.clone(), s.status.clone())).collect()
}

fn triple(d: &str, j: &str, s: &str) -> (String, String, String) {
    (d.to_string(), j.to_string(), s.to_string())
}

fn debate_repr(d: Debate, judges_of_debate: Vec<DebateJudge>, room: Option<Room>) -> DebateRepr {
    DebateRepr {
        debate: d,
        room,
        teams_of_debate: vec![],
        teams: vec![],
        speakers_of_team: vec![],
        judges_of_debate,
        judges: vec![],
        motions: vec![],
    }
}

fn room(id: &str) -> Room {
    Room { id: id.to_string(), tournament_id: "t1".to_string(), name: format!("Room {id}"), url: None, priority: 0, number: 1 }
}

#[test]
fn roles_read_from_codes() {
    assert!(matches!(Role::of_str("C"), Ok(Role::Chair)));
    assert!(matches!(Role::of_str("P"), Ok(Role::Panelist)));
    assert!(matches!(Role::of_str("T"), Ok(Role::Trainee)));
    assert!(matches!(Role::of_str(""), Ok(Role::Panelist)));
    match Role::of_str("X") {
        Err(m) => assert_eq!(m, "Invalid role: X"),
        Ok(_) => panic!("an unknown role was accepted"),
    }
    assert!(matches!(Role::from_str("T"), Role::Trainee));
    assert_eq!(Role::Chair.to_string(), "C");
    assert_eq!(Role::Trainee.to_string(), "T");
    assert_eq!(role_class(Role::Panelist), "judge-pill judge-pill-panelist");
}

#[test]
fn command_parts() {
    let (j, d, r) = cmd_parts(&Cmd::Chair(4, Some(2)));
    assert_eq!((j, d), (4, Some(2)));
    assert!(matches!(r, Role::Chair));
    let (j, d, r) = cmd_parts(&Cmd::Trainee(1, None));
    assert_eq!((j, d), (1, None));
    assert!(matches!(r, Role::Trainee));
}

#[test]
fn editor_addresses() {
    let ids = strings(&["r1", "r2"]);
    assert_eq!(rounds_query(&ids), "rounds=r1&rounds=r2");
    assert_eq!(rounds_query(&vec![]), "");
    assert_eq!(edit_path_for_tournament_id("t1", &ids), "/tournaments/t1/rounds/draws/edit?rounds=r1&rounds=r2");
    assert_eq!(
        edit_path_with_error("t1", &ids, "conflict"),
        "/tournaments/t1/rounds/draws/edit?rounds=r1&rounds=r2&error=conflict"
    );
    assert_eq!(partial_href("/x?a=1"), "/x?a=1&partial=true");
    assert_eq!(partial_href("/x"), "/x?partial=true");
    let t = Tournament {
        id: "t1".to_string(),
        teams_per_side: 1,
        substantive_speakers: 3,
        reply_speakers: false,
        substantive_speech_min_speak: None,
        substantive_speech_max_speak: None,
        reply_speech_min_speak: None,
        reply_speech_max_speak: None,
    };
    assert_eq!(
        select_judge_href(&t, &ids, "j1", Some("d1")),
        "/tournaments/t1/rounds/draws/edit?rounds=r1&rounds=r2&selected_judge_id=j1&source_debate_id=d1"
    );
    assert_eq!(
        select_room_href(&t, &ids, "A", None),
        "/tournaments/t1/rounds/draws/edit?rounds=r1&rounds=r2&selected_room_id=A"
    );
    assert_eq!(
        select_room_href(&t, &ids, "A", Some("d2")),
        "/tournaments/t1/rounds/draws/edit?rounds=r1&rounds=r2&selected_room_id=A&source_room_debate_id=d2"
    );
}

#[test]
fn error_codes_of_the_editor() {
    assert_eq!(draw_error_message(Some("conflict")), Some("One of those panels was modified, please try again."));
    assert_eq!(draw_error_message(Some("other")), None);
    assert_eq!(draw_error_message(None), None);
}

#[test]
fn signatures_are_fnv_1a() {
    assert_eq!(stable_signature(""), "cbf29ce484222325");
    assert_eq!(stable_signature("a"), "af63dc4c8601ec8c");
    assert_eq!(stable_signature("foobar"), "85944171f73967e8");
    assert_eq!(stable_signature("é|ü"), fnv("é|ü"));
    assert_eq!(panel_change_key("p", "q"), fnv("from:p|to:q"));
}

#[test]
fn panel_snapshots_sort_their_rows() {
    let a = panel_snapshot("debate", Some("d1"), vec![("j2".to_string(), "P".to_string()), ("j1".to_string(), "C".to_string())]);
    let b = panel_snapshot("debate", Some("d1"), vec![("j1".to_string(), "C".to_string()), ("j2".to_string(), "P".to_string())]);
    assert_eq!(a, "debate:d1|j1:C|j2:P");
    assert_eq!(a, b);
    assert_eq!(panel_snapshot("unallocated", None, vec![]), "unallocated");
    let c = panel_snapshot("unallocated", None, vec![("b".to_string(), "U".to_string()), ("ab".to_string(), "U".to_string()), ("a".to_string(), "U".to_string())]);
    assert_eq!(c, "unallocated|a:U|ab:U|b:U");
}

#[test]
fn allocated_judges_and_rooms() {
    let reprs = vec![RoundDrawRepr {
        round: round("R1", 1),
        debates: vec![
            debate_repr(debate("D1", "R1", 1, Some("A")), vec![seat("D1", "J1", "C"), seat("D1", "J2", "P")], None),
            debate_repr(debate("D2", "R1", 2, None), vec![seat("D2", "J1", "P"), seat("D2", "J3", "C")], None),
            debate_repr(debate("D3", "R1", 3, Some("A")), vec![], None),
        ],
    }];
    assert_eq!(allocated_judge_ids(&reprs), strings(&["J1", "J2", "J3"]));
    assert_eq!(allocated_room_ids(&reprs), strings(&["A"]));
}

#[test]
fn selecting_a_judge_or_a_room() {
    let reprs = vec![RoundDrawRepr {
        round: round("R1", 1),
        debates: vec![
            debate_repr(debate("D1", "R1", 1, Some("A")), vec![seat("D1", "J1", "C")], Some(room("A"))),
        ],
    }];
    let participants = TournamentParticipants { speakers: vec![], judges: vec![judge("J1", 1), judge("J2", 2)] };
    let rooms = vec![room("B")];
    match DrawAllocatorState::from_query(&participants, &rooms, &reprs, Some("J2"), None, None, None) {
        DrawAllocatorState::JudgeSelected(sel) => {
            assert_eq!(sel.judge.id, "J2");
            assert!(matches!(sel.location, JudgeAllocatedAt::Unallocated));
            assert_eq!(sel.panel_snapshot, "unallocated|J2:U");
        }
        _ => panic!("the judge was not selected"),
    }
    match DrawAllocatorState::from_query(&participants, &rooms, &reprs, Some("J1"), Some("D1"), None, None) {
        DrawAllocatorState::JudgeSelected(sel) => {
            assert_eq!(sel.location.debate_id(), Some("D1"));
            assert_eq!(sel.panel_snapshot, "debate:D1|J1:C");
        }
        _ => panic!("the judge was not selected"),
    }
    assert!(matches!(
        DrawAllocatorState::from_query(&participants, &rooms, &reprs, Some("J1"), Some("nope"), None, None),
        DrawAllocatorState::Allocation
    ));
    match DrawAllocatorState::from_query(&participants, &rooms, &reprs, None, None, Some("A"), None) {
        DrawAllocatorState::RoomSelected(sel) => {
            assert_eq!(sel.room_id, "A");
            assert_eq!(sel.location.debate_id(), Some("D1"));
        }
        _ => panic!("the room was not selected"),
    }
    let state = DrawAllocatorState::from_query(&participants, &rooms, &reprs, None, None, Some("B"), None);
    assert!(state.selected_room_is("B"));
    assert!(!state.selected_judge_is("J1"));
    assert_eq!(tournaments::draw_edit::room_link_class(&state, "B", "pill"), "pill selected");
    assert_eq!(tournaments::draw_edit::judge_link_class(&state, "J1", "pill"), "pill");
}

#[test]
fn moving_a_judge_to_chair_a_panel() {
    let t = tables();
    let key = panel_change_key("debate:D2|J2:C", "debate:D1|J1:C");
    let out = match move_judge(&t, "t1", "J2", Some("D2"), Some("D1"), "C", Some(&key)) {
        Ok(out) => out,
        Err(e) => panic!("refused: {}", e.message()),
    };
    assert_eq!(out.round_ids, strings(&["R1"]));
    assert_eq!(seats(&out.judges_of_debate), vec![triple("D1", "J1", "P"), triple("D1", "J2", "C")]);
}

#[test]
fn moving_a_judge_off_every_panel() {
    let t = tables();
    let key = panel_change_key("debate:D1|J1:C", "unallocated|J3:U");
    let out = match move_judge(&t, "t1", "J1", Some("D1"), Some(""), "", Some(&key)) {
        Ok(out) => out,
        Err(e) => panic!("refused: {}", e.message()),
    };
    assert_eq!(seats(&out.judges_of_debate), vec![triple("D2", "J2", "C")]);
}

#[test]
fn refused_judge_moves() {
    let t = tables();
    match move_judge(&t, "t1", "J2", Some("D2"), Some("D1"), "C", Some("stale")) {
        Err(MoveJudgeError::Conflict(ids)) => assert_eq!(ids, strings(&["R1"])),
        _ => panic!("a stale key was accepted"),
    }
    assert!(matches!(move_judge(&t, "t1", "J9", None, Some("D1"), "C", None), Err(MoveJudgeError::JudgeNotFound)));
    assert!(matches!(move_judge(&t, "t1", "J1", Some("D9"), None, "C", None), Err(MoveJudgeError::SourceNotFound)));
    assert!(matches!(move_judge(&t, "t1", "J1", None, Some("D9"), "C", None), Err(MoveJudgeError::TargetNotFound)));
    assert!(matches!(move_judge(&t, "t1", "J1", None, None, "C", None), Err(MoveJudgeError::NoDebateGiven)));
    assert!(matches!(
        move_judge(&t, "t1", "J1", Some("D1"), Some("D3"), "C", None),
        Err(MoveJudgeError::DifferentRoundSequences)
    ));
    let key = panel_change_key("unallocated|J3:U", "debate:D1|J1:C");
    match move_judge(&t, "t1", "J3", None, Some("D1"), "X", Some(&key)) {
        Err(e) => {
            assert!(matches!(e, MoveJudgeError::InvalidRole(_)));
            assert_eq!(e.message(), "Invalid role: X");
        }
        Ok(_) => panic!("an unknown role was accepted"),
    }
    assert_eq!(MoveJudgeError::NoDebateGiven.message(), "No source or target debate specified");
}

#[test]
fn moving_a_room_swaps_rooms() {
    let t = tables();
    let rooms = vec![room("A"), room("B")];
    let ids = strings(&["R1"]);
    let out = match move_room(&t, &rooms, "t1", "A", Some("D2"), &ids) {
        Ok(ds) => ds,
        Err(e) => panic!("refused: {}", e.message()),
    };
    let held: Vec<Option<String>> = out.iter().map(|d| d.room_id.clone()).collect();
    assert_eq!(held, vec![Some("B".to_string()), Some("A".to_string()), None]);
    let out = match move_room(&t, &rooms, "t1", "A", None, &ids) {
        Ok(ds) => ds,
        Err(e) => panic!("refused: {}", e.message()),
    };
    let held: Vec<Option<String>> = out.iter().map(|d| d.room_id.clone()).collect();
    assert_eq!(held, vec![None, Some("B".to_string()), None]);
    let same = match move_room(&t, &rooms, "t1", "A", Some("D1"), &ids) {
        Ok(ds) => ds,
        Err(e) => panic!("refused: {}", e.message()),
    };
    assert_eq!(same.len(), 3);
    assert_eq!(same[0].room_id, Some("A".to_string()));
    assert!(matches!(move_room(&t, &rooms, "t1", "A", Some("D1"), &vec![]), Err(MoveRoomError::NoRounds)));
    assert!(matches!(move_room(&t, &rooms, "t1", "Z", Some("D1"), &ids), Err(MoveRoomError::RoomNotFound)));
    assert!(matches!(move_room(&t, &rooms, "t1", "A", Some("D9"), &ids), Err(MoveRoomError::DebateNotFound)));
}

#[test]
fn swapping_teams_twice_restores_the_draw() {
    let mut t = tables();
    let ids = strings(&["R1"]);
    let once = move_team(&t, "t1", "T1", "T2", &ids).unwrap();
    assert_eq!((once[0].debate_id.as_str(), once[0].side, once[0].seq), ("D2", 1, 0));
    assert_eq!((once[1].debate_id.as_str(), once[1].side, once[1].seq), ("D1", 0, 0));
    t.teams_of_debate = once;
    let twice = move_team(&t, "t1", "T1", "T2", &ids).unwrap();
    assert_eq!((twice[0].debate_id.as_str(), twice[0].side), ("D1", 0));
    assert_eq!((twice[1].debate_id.as_str(), twice[1].side), ("D2", 1));
    match move_team(&t, "t1", "T1", "T9", &ids) {
        Err(m) => assert_eq!(m, "Team not found in draw."),
        Ok(_) => panic!("an unknown team was swapped"),
    }
}

#[test]
fn changing_a_role() {
    let t = tables();
    let out = change_judge_role(&t.judges_of_debate, "J1", "D1", "T");
    assert_eq!(seats(&out), vec![triple("D1", "J1", "T"), triple("D2", "J2", "C")]);
    let out = change_judge_role(&t.judges_of_debate, "J2", "D2", "??");
    assert_eq!(seats(&out), vec![triple("D1", "J1", "C"), triple("D2", "J2", "P")]);
}

#[test]
fn commands_of_the_command_bar() {
    let t = tables();
    let ids = strings(&["R1"]);
    let seats_after = apply_move(&t, 1, Some(2), Role::Trainee, &ids).unwrap();
    assert_eq!(seats(&seats_after), vec![triple("D2", "J2", "C"), triple("D2", "J1", "T")]);
    let seats_after = apply_move(&t, 2, None, Role::Chair, &ids).unwrap();
    assert_eq!(seats(&seats_after), vec![triple("D1", "J1", "C")]);
    let refused = apply_move(&t, 9, Some(1), Role::Chair, &ids);
    assert_eq!(submit_cmd_message(&refused), Some("Error evaluating command: No such judge with numnber j9".to_string()));
    assert_eq!(error_of(refused), "No such judge with numnber j9");
    assert_eq!(error_of(apply_move(&t, 1, Some(7), Role::Chair, &ids)), "Debate with number 7 does not exist.");
    assert_eq!(submit_cmd_message(&apply_move(&t, 1, None, Role::Chair, &ids)), None);
}

#[test]
fn round_parameters() {
    assert_eq!(round_ids_of_query(Some(" r1 , r2,")), strings(&["r1", "r2"]));
    assert_eq!(round_ids_of_query(None), Vec::<String>::new());
    assert_eq!(submit_cmd_redirect("t1", &strings(&["r1", "r2"])), "/tournaments/t1/rounds/draws/edit?rounds=r1,r2");
}

#[test]
fn seats_that_stay_keep_their_identifiers() {
    let t = tables();
    let key = panel_change_key("debate:D2|J2:C", "debate:D1|J1:C");
    let out = match move_judge(&t, "t1", "J2", Some("D2"), Some("D1"), "C", Some(&key)) {
        Ok(out) => out,
        Err(e) => panic!("refused: {}", e.message()),
    };
    assert_eq!(out.judges_of_debate.len(), 2);
    assert_eq!(out.judges_of_debate[0].id, "D1-J1");
    let ids = strings(&["R1"]);
    let seats_after = apply_move(&t, 1, Some(2), Role::Trainee, &ids).unwrap();
    assert_eq!(seats_after.len(), 2);
    assert_eq!(seats_after[0].id, "D2-J2");
    let cleared = apply_move(&t, 2, None, Role::Chair, &ids).unwrap();
    let kept: Vec<String> = cleared.iter().map(|s| s.id.clone()).collect();
    assert_eq!(kept, vec!["D1-J1".to_string()]);
}
