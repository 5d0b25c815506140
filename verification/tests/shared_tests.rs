//! Shared types: times, their parts and arithmetic, and string helpers.

use elma::state::State;
use elma::utils::{parse_top10, string_null_pad, trim_string, write_top10};
use elma::{BestTimes, ElmaError, Time, TimeEntry};

#[test]
fn correct_time_to_parts() {
    assert_eq!((false, 0, 19, 8, 1), Time(114801).to_parts());
    assert_eq!((false, 0, 1, 40, 21), Time(10021).to_parts());
    assert_eq!((false, 0, 1, 40, 99), Time(10099).to_parts());
    assert_eq!((false, 1, 38, 20, 99), Time(590099).to_parts());
    assert_eq!((false, 0, 0, 10, 0), Time(1000).to_parts());
    assert_eq!((false, 0, 10, 0, 0), Time(60000).to_parts());
    assert_eq!((false, 0, 0, 0, 0), Time(0).to_parts());
    assert_eq!((false, 5, 20, 20, 39), Time(1922039).to_parts());
    assert_eq!((true, 0, 0, 24, 19), Time(-2419).to_parts());
}

#[test]
fn time_ops_work_correctly() {
    assert_eq!(Time(114832), Time(114801).plus(Time(31)));
    assert_eq!(Time(331), Time(0).plus(Time(331)));
    assert_eq!(Time(0), Time(110319).minus(Time(110319)));
    assert_eq!(Time(-100), Time(2319).minus(Time(2419)));
    assert_eq!(Time(640139), Time(643451).minus(Time(3312)));
}

#[test]
/// Supply some bogus utf-8 bytes.
fn trim_string_invalid_utf8() {
    assert_eq!(
        trim_string(&[222, 222, 222, 100, 211]).unwrap_err(),
        ElmaError::StringFromUtf8(0)
    );
}

#[test]
/// Supply shorter padding than string length.
fn string_null_pad_length_error() {
    assert_eq!(
        string_null_pad("elma-rust", 5).unwrap_err(),
        ElmaError::PaddingTooShort(-4)
    );
}

#[test]
/// Supply UTF-8 characters.
fn string_null_pad_utf8_error() {
    assert_eq!(
        string_null_pad("\u{2717}\u{2717}\u{2717}\u{2717}\u{2717}\u{2717}\u{2717}\u{2717}", 10)
            .unwrap_err(),
        ElmaError::NonASCII
    );
}

#[test]
fn trim_string_stops_at_null() {
    let cstring: [u8; 10] = [0x45, 0x6C, 0x6D, 0x61, 0x00, 0x00, 0x00, 0x7E, 0x7E, 0x7E];
    assert_eq!(trim_string(&cstring).unwrap(), "Elma");
}

#[test]
fn string_null_pad_pads() {
    let padded = string_null_pad("Elma", 10).unwrap();
    assert_eq!(&padded, &[0x45, 0x6C, 0x6D, 0x61, 0, 0, 0, 0, 0, 0]);
}

#[test]
fn default_state() {
    let state = State::new();
    assert_eq!(state.version, 200);
    assert_eq!(state.times.len(), 90);
    assert_eq!(state.players.len(), 0);
    assert_eq!(state.player_a_keys.throttle, 200);
    assert_eq!(state.player_b_keys.toggle_show_hide, 3);
    assert_eq!(state.sound_enabled, true);
    assert_eq!(state.swap_bikes, false);
    assert_eq!(state.inc_screen_size_key, 13);
    assert_eq!(state, State::new());
}

#[test]
/// Parsing a written best-times block recovers its entries.
fn top10_block_round_trip() {
    let mut bt = BestTimes::new();
    bt.single.push(TimeEntry::new(("Rust", "Cargo"), 201));
    bt.single.push(TimeEntry::new(("a", "b"), 305));
    bt.multi.push(TimeEntry::new(("x", "y"), 44));
    let bytes = write_top10(&bt).unwrap();
    assert_eq!(bytes.len(), 688);
    let single = parse_top10(&bytes[0..344]).unwrap();
    let multi = parse_top10(&bytes[344..688]).unwrap();
    assert_eq!(single, bt.single);
    assert_eq!(multi, bt.multi);
}
