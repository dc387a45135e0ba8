use bulls_and_cows::secret::nth_unused;
use bulls_and_cows::{get_bulls_and_cows, strip_line_end, take_turn, validate_input, ChosenSecret, TurnReport, ValidationError};

fn digits_distinct(text: &str) -> bool {
    let chars: Vec<char> = text.chars().collect();
    for a in 0..chars.len() {
        for b in (a + 1)..chars.len() {
            if chars[a] == chars[b] {
                return false;
            }
        }
    }
    true
}

#[test]
fn test_random_number() {
    let chosen = ChosenSecret::new();
    assert!(chosen.number < 10000u32);
}

#[test]
fn test_validation() {
    let err = validate_input("sd41").expect_err("Fails to parse");
    assert_eq!("Parse error on user input", err.message());
    let err = validate_input("1123").expect_err("Fails to validate");
    assert_eq!("Input does not respect the rule `Digits cannot be repeated`", err.message());
    let err = validate_input("12345").expect_err("Fails to validate");
    assert_eq!("Input does not respect the rule `Number has to have 4 digits`", err.message());
    let ok = validate_input("1234").expect("Should not fail");
    assert_eq!(ok, 1234u32);
    let ok = validate_input("234").expect("Should not fail");
    assert_eq!(ok, 234u32);
}

#[test]
fn test_bc_count() {
    assert_eq!((0, 0), get_bulls_and_cows("1234", "5678"));
    assert_eq!((0, 4), get_bulls_and_cows("1234", "4321"));
    assert_eq!((1, 3), get_bulls_and_cows("0123", "312"));
    assert_eq!((4, 0), get_bulls_and_cows("0123", "123"));
}

#[test]
fn secrets_have_four_distinct_digits() {
    for _ in 0..200 {
        let chosen = ChosenSecret::new();
        assert!(chosen.number < 10000);
        assert_eq!(chosen.digits().len(), 4);
        assert_eq!(chosen.digits(), format!("{:04}", chosen.number));
        assert!(digits_distinct(chosen.digits()));
    }
}

#[test]
fn secret_from_number_pads_with_zeros() {
    let chosen = ChosenSecret::from_number(123).expect("distinct digits");
    assert_eq!(chosen.number, 123);
    assert_eq!(chosen.digits(), "0123");
    let chosen = ChosenSecret::from_number(9876).expect("distinct digits");
    assert_eq!(chosen.digits(), "9876");
}

#[test]
fn secret_from_number_refuses_bad_values() {
    assert!(ChosenSecret::from_number(1123).is_none());
    assert!(ChosenSecret::from_number(11).is_none());
    assert!(ChosenSecret::from_number(10000).is_none());
    assert!(ChosenSecret::from_number(12345).is_none());
}

#[test]
fn validation_accepts_short_and_zero_led_guesses() {
    assert_eq!(validate_input("0123").unwrap(), 123);
    assert_eq!(validate_input("7").unwrap(), 7);
    assert_eq!(validate_input("0").unwrap(), 0);
}

#[test]
fn validation_parse_errors() {
    assert!(matches!(validate_input(""), Err(ValidationError::Parse)));
    assert!(matches!(validate_input("12a4"), Err(ValidationError::Parse)));
    assert!(matches!(validate_input("-123"), Err(ValidationError::Parse)));
    assert!(matches!(validate_input("+123"), Err(ValidationError::Parse)));
    assert!(matches!(validate_input("4294967296"), Err(ValidationError::Parse)));
    assert!(matches!(validate_input("1234 "), Err(ValidationError::Parse)));
}

#[test]
fn validation_repeat_wins_over_length_before_fifth_digit() {
    let err = validate_input("11234").expect_err("repeat");
    assert_eq!("Input does not respect the rule `Digits cannot be repeated`", err.message());
    let err = validate_input("12341").expect_err("repeat at the fifth digit");
    assert_eq!("Input does not respect the rule `Digits cannot be repeated`", err.message());
    let err = validate_input("123456").expect_err("length");
    assert_eq!("Input does not respect the rule `Number has to have 4 digits`", err.message());
    let err = validate_input("4294967295").expect_err("repeat");
    assert_eq!("Input does not respect the rule `Digits cannot be repeated`", err.message());
}

#[test]
fn scoring_examples() {
    assert_eq!((4, 0), get_bulls_and_cows("1234", "1234"));
    assert_eq!((2, 2), get_bulls_and_cows("1234", "1243"));
    assert_eq!((1, 2), get_bulls_and_cows("0123", "9"));
    assert_eq!((0, 0), get_bulls_and_cows("1234", "5"));
    assert_eq!((0, 1), get_bulls_and_cows("1234", "51"));
}

#[test]
fn scoring_repeats_the_same_result() {
    let first = get_bulls_and_cows("0123", "312");
    let second = get_bulls_and_cows("0123", "312");
    assert_eq!(first, second);
    assert_eq!(first, (1, 3));
}

#[test]
fn scoring_four_digit_guess_stays_within_four() {
    for guess in ["0000", "1111", "3210", "9876", "1230", "0123"] {
        let (bulls, cows) = get_bulls_and_cows("0123", guess);
        assert!(bulls + cows <= 4);
    }
    assert_eq!((1, 3), get_bulls_and_cows("0123", "1111"));
}

#[test]
fn line_endings_are_cut() {
    assert_eq!(strip_line_end("1234\n"), "1234");
    assert_eq!(strip_line_end("1234\r\n"), "1234");
    assert_eq!(strip_line_end("12\n\r\n"), "12");
    assert_eq!(strip_line_end("\n"), "");
    assert_eq!(strip_line_end("12 \n"), "12 ");
}

#[test]
fn game_miss_then_win() {
    let secret = ChosenSecret::from_number(1234).expect("distinct digits");
    match take_turn(&secret, "5678\n") {
        TurnReport::Missed { bulls, cows } => assert_eq!((bulls, cows), (0, 0)),
        other => panic!("unexpected report {:?}", other),
    }
    assert!(!take_turn(&secret, "5678\n").ends_game());
    let report = take_turn(&secret, "1234\n");
    assert!(matches!(report, TurnReport::Won));
    assert!(report.ends_game());
}

#[test]
fn game_reports_refusals_and_scores() {
    let secret = ChosenSecret::from_number(123).expect("distinct digits");
    match take_turn(&secret, "1123\r\n") {
        TurnReport::Refused(err) => {
            assert_eq!("Input does not respect the rule `Digits cannot be repeated`", err.message())
        }
        other => panic!("unexpected report {:?}", other),
    }
    assert!(matches!(take_turn(&secret, "abc\n"), TurnReport::Refused(ValidationError::Parse)));
    match take_turn(&secret, "312\n") {
        TurnReport::Missed { bulls, cows } => assert_eq!((bulls, cows), (1, 3)),
        other => panic!("unexpected report {:?}", other),
    }
    assert!(matches!(take_turn(&secret, "123\n"), TurnReport::Won));
    assert!(matches!(take_turn(&secret, "0123"), TurnReport::Won));
}

#[test]
fn draws_pick_among_unused_digits() {
    assert_eq!(ChosenSecret::from_draws([0, 0, 0, 0]).number, 123);
    assert_eq!(ChosenSecret::from_draws([0, 0, 0, 0]).digits(), "0123");
    assert_eq!(ChosenSecret::from_draws([9, 8, 7, 6]).number, 9876);
    assert_eq!(ChosenSecret::from_draws([1, 1, 1, 1]).number, 1234);
    assert_eq!(ChosenSecret::from_draws([5, 0, 3, 6]).number, 5049);
    assert_eq!(ChosenSecret::from_draws([1, 1, 0, 0]).digits(), "1203");
}

#[test]
fn nth_unused_skips_used_digits() {
    assert_eq!(nth_unused(&vec![], 0), 0);
    assert_eq!(nth_unused(&vec![0, 1, 2], 0), 3);
    assert_eq!(nth_unused(&vec![3, 7], 3), 4);
    assert_eq!(nth_unused(&vec![9, 0], 7), 8);
}

#[test]
fn secret_value_and_digits_agree() {
    let chosen = ChosenSecret::from_number(4072).expect("distinct digits");
    assert_eq!(chosen.number(), 4072);
    assert_eq!(chosen.number, 4072);
    assert_eq!(chosen.digits(), "4072");
}
