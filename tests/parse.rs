use filler::errors::GameError;
use filler::parse::{get_ids, get_width_and_height, parse_usize, split_whitespace};

#[test]
fn test_get_width_and_height() {
    let line = "Anfield 20 15:";
    let msg = format!("Failed to get width and height: {:?}", line);
    let dims = get_width_and_height(line.to_string()).expect(&msg);
    assert_eq!(dims, [20, 15]);
}

#[test]
fn test_get_width_and_height_fail() {
    let line = "Anfield xx 15:";
    let err = get_width_and_height(line.to_string()).unwrap_err();
    match err {
        GameError::ParseDimensions(_) => {}
        _ => panic!("Unexpected error variant"),
    }
}

#[test]
fn test_get_ids_success() {
    let p1 = "$$$ exec p1 : [robots/bender]";
    let ids1 = get_ids(p1.to_string()).expect("Failed to get ID for player 1");
    assert_eq!(ids1, 1);

    let p2 = "$$$ exec p2 : [robots/bender]";
    let ids2 = get_ids(p2.to_string()).expect("Failed to get ID for player 2");
    assert_eq!(ids2, 2);
}

#[test]
fn test_get_ids_fail_short_line() {
    let p = "short line";
    let err = get_ids(p.to_string()).unwrap_err();
    match err {
        GameError::ParsePlayerIds(msg) => assert_eq!(msg, "line too short"),
        _ => panic!("Expected ParsePlayerIds error"),
    }
}

#[test]
fn test_get_ids_fail_invalid_digit() {
    let p = "$$$ exec px : [robots/bender]";
    let err = get_ids(p.to_string()).unwrap_err();
    match err {
        GameError::ParsePlayerIds(msg) => assert!(
            msg.contains("character at 11th position is not a digit"),
            "Unexpected message: {}",
            msg
        ),
        _ => panic!("Expected ParsePlayerIds error"),
    }
}

#[test]
fn test_get_ids_fail_wrong_digit() {
    let p = "$$$ exec p3 : [robots/bender]";
    let err = get_ids(p.to_string()).unwrap_err();
    match err {
        GameError::ParsePlayerIds(msg) => assert_eq!(msg, "wrong digit"),
        _ => panic!("Expected ParsePlayerIds error"),
    }
}

#[test]
fn piece_header_dimensions() {
    assert_eq!(get_width_and_height("Piece 4 1:".to_string()).unwrap(), [4, 1]);
    assert_eq!(get_width_and_height("  Piece\t+7   3::".to_string()).unwrap(), [7, 3]);
}

#[test]
fn header_with_too_few_words_is_refused() {
    match get_width_and_height("Piece 4".to_string()) {
        Err(GameError::ParseDimensions(_)) => {}
        _ => panic!("expected ParseDimensions"),
    }
}

#[test]
fn header_with_bad_height_is_refused() {
    match get_width_and_height("Anfield 20 1x:".to_string()) {
        Err(GameError::ParseDimensions(msg)) => assert_eq!(msg, "invalid digit found in string"),
        _ => panic!("expected ParseDimensions"),
    }
}

#[test]
fn numbers_parse_like_std() {
    let chars = |s: &str| s.chars().collect::<Vec<char>>();
    assert_eq!(parse_usize(&chars("0")).unwrap(), 0);
    assert_eq!(parse_usize(&chars("+42")).unwrap(), 42);
    assert_eq!(parse_usize(&chars("18446744073709551615")).unwrap(), usize::MAX);
    assert_eq!(parse_usize(&chars("")).unwrap_err(), "cannot parse integer from empty string");
    assert_eq!(parse_usize(&chars("+")).unwrap_err(), "invalid digit found in string");
    assert_eq!(parse_usize(&chars("-1")).unwrap_err(), "invalid digit found in string");
    assert_eq!(
        parse_usize(&chars("18446744073709551616")).unwrap_err(),
        "number too large to fit in target type"
    );
}

#[test]
fn words_split_at_white_space() {
    let words = split_whitespace("  Anfield\t20 \u{3000}15:\n");
    let words: Vec<String> = words.into_iter().map(|w| w.into_iter().collect()).collect();
    assert_eq!(words, vec!["Anfield", "20", "15:"]);
    assert!(split_whitespace("   ").is_empty());
}
