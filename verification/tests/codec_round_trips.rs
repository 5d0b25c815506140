//! Whole-file round trips for the replay and state codecs, the remaining
//! level round-trip cases, and the width measure.

use elma::lev::{Level, Polygon, Top10Save};
use elma::rec::{Event, EventType, Frame, Replay, Ride};
use elma::state::{PlayerEntry, State};
use elma::{ElmaError, Position, Time, TimeEntry};

fn sample_ride(seed: u16) -> Ride {
    let mut r = Ride::new();
    for i in 0..40u16 {
        let v = seed.wrapping_add(i.wrapping_mul(301));
        r.frames.push(Frame {
            bike: Position::new(
                (v as f32 * 0.37).to_bits(),
                (-(v as f32) * 1.5).to_bits(),
            ),
            left_wheel: Position::new(v as i16, -(v as i16)),
            right_wheel: Position::new((v / 3) as i16, 3),
            head: Position::new(0, (v % 449) as i16),
            rotation: (v % 10000) as i16,
            left_wheel_rotation: (v % 251) as u8,
            right_wheel_rotation: (v % 13) as u8,
            throttle_and_dir: (v % 256) as u8,
            back_wheel_rot_speed: (v % 7) as u8,
            collision_strength: (v % 256) as u8,
        });
    }
    r.events.push(Event {
        time: 1.57728480001688_f64.to_bits(),
        event_type: EventType::VoltRight,
    });
    r.events.push(Event {
        time: 1.6974048000097273_f64.to_bits(),
        event_type: EventType::Ground(0.72119284_f32.to_bits()),
    });
    r.events.push(Event { time: 2.0_f64.to_bits(), event_type: EventType::Apple });
    r.events.push(Event { time: 2.5_f64.to_bits(), event_type: EventType::Turn });
    r.events.push(Event { time: 3.0_f64.to_bits(), event_type: EventType::VoltLeft });
    r.events.push(Event {
        time: 6.398683200001716_f64.to_bits(),
        event_type: EventType::ObjectTouch(3),
    });
    r
}

#[test]
/// A single-ride replay survives encode and decode field for field.
fn replay_round_trip_single() {
    let mut replay = Replay::new();
    replay.flag_tag = false;
    replay.link = 2549082363;
    replay.level = String::from("tutor14.lev");
    replay.rides.push(sample_ride(7));
    let bytes = replay.to_bytes().unwrap();
    let loaded = Replay::from_bytes(&bytes).unwrap();
    assert_eq!(loaded, replay);
    assert_eq!(loaded.is_multi(), false);
}

#[test]
/// A two-ride replay stores the multi flag and both rides.
fn replay_round_trip_multi() {
    let mut replay = Replay::new();
    replay.flag_tag = true;
    replay.link = 12345;
    replay.level = String::from("lev01.lev");
    replay.rides.push(sample_ride(3));
    replay.rides.push(sample_ride(91));
    let bytes = replay.to_bytes().unwrap();
    let loaded = Replay::from_bytes(&bytes).unwrap();
    assert_eq!(loaded, replay);
    assert_eq!(loaded.is_multi(), true);
}

#[test]
/// An unknown event code is rejected with its value.
fn load_invalid_event_replay() {
    let mut replay = Replay::new();
    replay.level = String::from("x.lev");
    replay.rides.push(sample_ride(1));
    let mut bytes = replay.to_bytes().unwrap();
    // The first event's type code: header 36 bytes, 40 frames of 27 bytes,
    // the 4-byte event count, 10 bytes into the first record.
    let code_at = 36 + 40 * 27 + 4 + 10;
    bytes[code_at] = 8;
    assert_eq!(Replay::from_bytes(&bytes).unwrap_err(), ElmaError::InvalidEvent(8));
}

#[test]
/// A corrupted end-of-player marker is the marker-mismatch error.
fn replay_eor_mismatch() {
    let mut replay = Replay::new();
    replay.level = String::from("x.lev");
    replay.rides.push(sample_ride(1));
    let bytes = replay.to_bytes().unwrap();
    let eor_at = bytes.len() - 4;
    for j in 0..4 {
        for flip in [1u8, 0x80] {
            let mut broken = bytes.clone();
            broken[eor_at + j] ^= flip;
            assert_eq!(
                Replay::from_bytes(&broken).unwrap_err(),
                ElmaError::EORMismatch,
                "byte {j} flip {flip}"
            );
        }
    }
}

#[test]
/// A bad version word is a replay-file error.
fn replay_bad_version() {
    let mut replay = Replay::new();
    replay.level = String::from("x.lev");
    replay.rides.push(sample_ride(1));
    let mut bytes = replay.to_bytes().unwrap();
    bytes[4] = 0x84;
    assert_eq!(Replay::from_bytes(&bytes).unwrap_err(), ElmaError::InvalidReplayFile);
}

fn sample_state() -> State {
    let mut state = State::new();
    state.times[0].single.push(TimeEntry::new(("proman", "proman"), 1465));
    state.times[0].single.push(TimeEntry::new(("proman", "proman"), 1487));
    state.times[0].multi.push(TimeEntry::new(("proman", "proman"), 1492));
    state.times[0].multi.push(TimeEntry::new(("proman", "proman"), 1494));
    state.times[89].single.push(TimeEntry::new(("last", "one"), 99));
    state.players.push(PlayerEntry {
        name: String::from("proman"),
        skipped_internals: vec![false, false, true, true, true, true, true, false],
        last_internal: 8,
        selected_internal: 3,
    });
    state.players.push(PlayerEntry {
        name: String::from("second"),
        skipped_internals: vec![],
        last_internal: 1,
        selected_internal: -1,
    });
    state.player_a_name = String::from("proman");
    state.sound_enabled = false;
    state.flagtag = true;
    state.swap_bikes = true;
    state.last_edited_lev_name = String::from("mylevel.lev");
    state
}

#[test]
/// The state database survives encode and decode, including the inverted
/// bike-swap flag and the player table; flag lists come back padded to
/// their 54 slots.
fn state_round_trip() {
    let state = sample_state();
    let bytes = state.to_bytes().unwrap();
    assert_eq!(bytes.len(), 67910);
    let loaded = State::from_bytes(&bytes).unwrap();
    assert_eq!(loaded.version, 200);
    assert_eq!(loaded.times, state.times);
    assert_eq!(loaded.players.len(), 2);
    assert_eq!(&loaded.players[0].skipped_internals[..8], &state.players[0].skipped_internals[..]);
    assert_eq!(loaded.players[0].skipped_internals.len(), 54);
    assert_eq!(loaded.players[0].name, "proman");
    assert_eq!(loaded.players[0].last_internal, 8);
    assert_eq!(loaded.players[1].selected_internal, -1);
    assert_eq!(loaded.player_a_name, state.player_a_name);
    assert_eq!(loaded.player_b_name, state.player_b_name);
    assert_eq!(loaded.player_a_keys, state.player_a_keys);
    assert_eq!(loaded.player_b_keys, state.player_b_keys);
    assert_eq!(loaded.sound_enabled, false);
    assert_eq!(loaded.flagtag, true);
    assert_eq!(loaded.swap_bikes, true);
    assert_eq!(loaded.video_detail, state.video_detail);
    assert_eq!(loaded.last_edited_lev_name, "mylevel.lev");
    assert_eq!(loaded.last_played_external, "");
}

#[test]
/// A fresh default state round trips whole.
fn default_state_round_trip() {
    let state = State::new();
    let bytes = state.to_bytes().unwrap();
    let loaded = State::from_bytes(&bytes).unwrap();
    assert_eq!(loaded, state);
}

#[test]
/// A bad version word or a bad end word is the state-file error.
fn state_bad_markers() {
    let state = State::new();
    let bytes = state.to_bytes().unwrap();
    let mut broken = bytes.clone();
    broken[0] ^= 1;
    assert_eq!(State::from_bytes(&broken).unwrap_err(), ElmaError::InvalidStateFile);
    let mut broken2 = bytes.clone();
    broken2[67906] ^= 1;
    assert_eq!(State::from_bytes(&broken2).unwrap_err(), ElmaError::InvalidStateFile);
    assert_eq!(
        State::from_bytes(&bytes[..100]).unwrap_err(),
        ElmaError::InvalidStateFile
    );
}

#[test]
/// Two fresh levels agree on every field once their random links match.
fn level_default_values() {
    let mut default_lev = Level::new();
    let mut new_lev = Level::new();
    default_lev.link = 1000;
    new_lev.link = 1000;
    assert_eq!(default_lev, new_lev);
    assert!(new_lev.check_topology().is_ok());
}

#[test]
/// The width spans from the left-most to the right-most vertex: a level
/// reaching from -100 to 100 is 200 units wide, not zero.
fn width_spans_extremes() {
    let mut level = Level::new();
    level.polygons = vec![Polygon {
        grass: false,
        vertices: vec![
            Position::new((-100.0f64).to_bits(), 0u64),
            Position::new(100.0f64.to_bits(), 0u64),
            Position::new(0u64, 50.0f64.to_bits()),
        ],
    }];
    assert_eq!(level.width(), 200.0f64.to_bits());
    assert_eq!(level.height(), 50.0f64.to_bits());
    assert!(level.check_topology().is_err());
}

#[test]
/// The time parser: digit runs weighted right to left, separators free,
/// a leading minus sign negating.
fn string_to_time() {
    assert_eq!(Time::from("320:20,39"), Time(1922039));
    assert_eq!(Time::from("-320:-20,39"), Time(-1922039));
    assert_eq!(Time::from("98:20,99"), Time(590099));
    assert_eq!(Time::from("01:38:20,99"), Time(590099));
    assert_eq!(Time::from("19:08,01"), Time(114801));
    assert_eq!(Time::from("0:08,01"), Time(801));
    assert_eq!(Time::from("00:08,01"), Time(801));
    assert_eq!(Time::from("08,01"), Time(801));
    assert_eq!(Time::from("8,01"), Time(801));
    assert_eq!(Time::from("-8,01"), Time(-801));
    assert_eq!(Time::from("01"), Time(1));
    assert_eq!(Time::from("1"), Time(1));
    assert_eq!(Time::from("0"), Time(0));
    assert_eq!(Time::from("00,00:00"), Time(0));
    assert_eq!(Time::from("01:00;00"), Time(6000));
    assert_eq!(Time::from("01:00,00"), Time(6000));
}

#[test]
/// The display form of times, zero-padded pairs with hours shown only when
/// nonzero.
fn correct_time_format() {
    assert_eq!("19:08,01", Time(114801).text());
    assert_eq!("01:40,21", Time(10021).text());
    assert_eq!("01:40,99", Time(10099).text());
    assert_eq!("01:38:20,99", Time(590099).text());
    assert_eq!("00:10,00", Time(1000).text());
    assert_eq!("10:00,00", Time(60000).text());
    assert_eq!("00:00,00", Time(0).text());
    assert_eq!("05:20:20,39", Time(1922039).text());
    assert_eq!("-00:24,19", Time(-2419).text());
}
