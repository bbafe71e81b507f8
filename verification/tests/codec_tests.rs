use timelog::codec::{decode, encode, hhmm_string};
use timelog::ledger::{non_linear, process_replacement, ReplaceError};
use timelog::time::TimeOfDay;

fn t(hour: u8, minute: u8) -> TimeOfDay {
    TimeOfDay::new(hour, minute).unwrap()
}

#[test]
fn encode_empty_chain() {
    assert_eq!(encode(&vec![]), "");
}

#[test]
fn encode_single_time() {
    assert_eq!(encode(&vec![t(9, 0)]), "09:00");
}

#[test]
fn encode_joins_with_single_spaces() {
    let chain = vec![t(9, 0), t(12, 30), t(13, 5), t(17, 45)];
    assert_eq!(encode(&chain), "09:00 12:30 13:05 17:45");
}

#[test]
fn hhmm_is_zero_padded() {
    assert_eq!(hhmm_string(&t(7, 5)), "07:05");
    assert_eq!(hhmm_string(&t(0, 0)), "00:00");
    assert_eq!(hhmm_string(&t(23, 59)), "23:59");
}

#[test]
fn decode_empty_text_is_empty_chain() {
    assert_eq!(decode("").unwrap(), vec![]);
    assert_eq!(decode("   \t\n").unwrap(), vec![]);
}

#[test]
fn decode_single_token() {
    assert_eq!(decode("09:00").unwrap(), vec![t(9, 0)]);
}

#[test]
fn decode_ignores_surrounding_whitespace() {
    assert_eq!(decode("  09:00 17:30\n").unwrap(), vec![t(9, 0), t(17, 30)]);
}

#[test]
fn decode_round_trip() {
    let chain = vec![t(8, 15), t(12, 0), t(12, 45), t(18, 30)];
    assert_eq!(decode(&encode(&chain)).unwrap(), chain);
}

#[test]
fn decode_round_trip_empty() {
    let chain: Vec<TimeOfDay> = vec![];
    assert_eq!(decode(&encode(&chain)).unwrap(), chain);
}

#[test]
fn decode_rejects_bad_token_atomically() {
    // One malformed token invalidates the whole decode.
    assert!(decode("09:00 banana 17:30").is_err());
    assert!(decode("9:00").is_err());
    assert!(decode("09:0").is_err());
    assert!(decode("0900").is_err());
    assert!(decode("24:00").is_err());
    assert!(decode("09:60").is_err());
    assert!(decode("09:00  17:30").is_err());
}

#[test]
fn non_linear_detects_reversed_pair() {
    assert!(non_linear(&vec![t(9, 0), t(8, 0)]));
    assert!(!non_linear(&vec![t(8, 0), t(9, 0)]));
    assert!(!non_linear(&vec![t(9, 0), t(9, 0)]));
    assert!(!non_linear(&vec![]));
    assert!(!non_linear(&vec![t(9, 0)]));
}

#[test]
fn replacement_rejects_non_monotonic_chain() {
    // A reversed pair is an order violation, never accepted as-is.
    match process_replacement("09:00 08:00") {
        Err(ReplaceError::OrderViolation) => {},
        other => panic!("expected an order violation, got {:?}", other),
    }
}

#[test]
fn replacement_rejects_malformed_token() {
    // `8:00` is not a well-formed `HH:MM` token, so the decode itself fails.
    match process_replacement("09:00 8:00") {
        Err(ReplaceError::ParseFailure) => {},
        other => panic!("expected a parse failure, got {:?}", other),
    }
}

#[test]
fn replacement_accepts_ordered_chain() {
    let fixed = process_replacement("09:00 12:00 13:00 17:30").unwrap();
    assert_eq!(fixed, vec![t(9, 0), t(12, 0), t(13, 0), t(17, 30)]);
}
