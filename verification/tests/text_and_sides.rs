use tournaments::sides::name_of_side;
use tournaments::text::{comma_separated, hundredths_to_string, i64_to_string, trim, u64_to_hex, u64_to_string};
use tournaments::tournament::{get_score_bounds, Tournament};

fn tournament(teams_per_side: i64) -> Tournament {
    Tournament {
        id: "t1".to_string(),
        teams_per_side,
        substantive_speakers: 3,
        reply_speakers: true,
        substantive_speech_min_speak: Some(5000),
        substantive_speech_max_speak: Some(8000),
        reply_speech_min_speak: None,
        reply_speech_max_speak: Some(4000),
    }
}

#[test]
fn side_names_of_two_team_format() {
    let t = tournament(1);
    assert_eq!(name_of_side(&t, 0, 0, true), "Gov");
    assert_eq!(name_of_side(&t, 0, 0, false), "Government");
    assert_eq!(name_of_side(&t, 1, 0, true), "Opp");
    assert_eq!(name_of_side(&t, 1, 0, false), "Opposition");
}

#[test]
fn side_names_of_four_team_format() {
    let t = tournament(2);
    assert_eq!(name_of_side(&t, 0, 0, true), "OG");
    assert_eq!(name_of_side(&t, 1, 0, true), "OO");
    assert_eq!(name_of_side(&t, 0, 1, true), "CG");
    assert_eq!(name_of_side(&t, 1, 1, true), "CO");
    assert_eq!(name_of_side(&t, 0, 1, false), "Closing Government");
    assert_eq!(name_of_side(&t, 1, 1, false), "Closing Opposition");
}

#[test]
fn side_names_without_a_special_name() {
    let t = tournament(3);
    assert_eq!(name_of_side(&t, 0, 2, true), "Prop 2");
    assert_eq!(name_of_side(&t, 0, 2, false), "Proposition 2");
    assert_eq!(name_of_side(&t, 1, 0, true), "Opp 0");
    assert_eq!(name_of_side(&t, 1, 2, false), "Opposition 2");
}

#[test]
fn integers_in_decimal() {
    assert_eq!(u64_to_string(0), "0");
    assert_eq!(u64_to_string(1234), "1234");
    assert_eq!(u64_to_string(u64::MAX), u64::MAX.to_string());
    assert_eq!(i64_to_string(-42), "-42");
    assert_eq!(i64_to_string(i64::MIN), i64::MIN.to_string());
    assert_eq!(i64_to_string(7), "7");
}

#[test]
fn integers_in_hexadecimal() {
    assert_eq!(u64_to_hex(255, 4), "00ff");
    assert_eq!(u64_to_hex(0xcbf29ce484222325, 16), "cbf29ce484222325");
    assert_eq!(u64_to_hex(0x1234, 2), "34");
}

#[test]
fn scores_in_hundredths() {
    assert_eq!(hundredths_to_string(7550), "75.5");
    assert_eq!(hundredths_to_string(7525), "75.25");
    assert_eq!(hundredths_to_string(7500), "75");
    assert_eq!(hundredths_to_string(-150), "-1.5");
    assert_eq!(hundredths_to_string(5), "0.05");
}

#[test]
fn trimming_white_space() {
    assert_eq!(trim("  a b \t"), "a b");
    assert_eq!(trim("\u{3000}x\u{2028}"), "x");
    assert_eq!(trim("   "), "");
    assert_eq!(trim(""), "");
    assert_eq!(trim("\u{85}motion\u{a0}"), "motion");
}

#[test]
fn comma_separated_lists() {
    assert_eq!(comma_separated(" r1, ,r2,,  "), vec!["r1".to_string(), "r2".to_string()]);
    assert_eq!(comma_separated(""), Vec::<String>::new());
    assert_eq!(comma_separated("a"), vec!["a".to_string()]);
}

#[test]
fn reply_speeches_fall_back_to_substantive_bounds() {
    let t = tournament(1);
    assert_eq!(get_score_bounds(&t, false), (Some(5000), Some(8000)));
    assert_eq!(get_score_bounds(&t, true), (Some(5000), Some(4000)));
    assert!(t.score_is_valid(7500, false));
    assert!(!t.score_is_valid(8100, false));
    assert!(!t.score_is_valid(4100, true));
}

#[test]
fn distinct_positions_have_distinct_names() {
    for teams_per_side in [1, 2, 3] {
        let t = tournament(teams_per_side);
        for short in [true, false] {
            let mut names: Vec<String> = Vec::new();
            for side in [0, 1] {
                for seq in [-2, 0, 1, 2, 10, 12] {
                    names.push(name_of_side(&t, side, seq, short));
                }
            }
            for i in 0..names.len() {
                for j in 0..names.len() {
                    if i != j {
                        assert_ne!(names[i], names[j]);
                    }
                }
            }
        }
    }
    assert_eq!(name_of_side(&tournament(1), 0, 12, true), "Prop 12");
    assert_eq!(name_of_side(&tournament(2), 1, -2, false), "Opposition -2");
}
