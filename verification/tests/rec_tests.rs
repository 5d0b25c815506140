//! Replay values and the derived race-time queries, on constructed rides.

use elma::rec::{Direction, Event, EventType, Frame, Replay, Ride};
use elma::Position;

fn ride(frames: usize, last_event: Option<Event>) -> Ride {
    let mut r = Ride::new();
    for _ in 0..frames {
        r.frames.push(Frame::new());
    }
    if let Some(e) = last_event {
        r.events.push(Event {
            time: 1.57728480001688_f64.to_bits(),
            event_type: EventType::VoltRight,
        });
        r.events.push(e);
    }
    r
}

#[test]
fn rec_default_values() {
    let frame = Frame::new();
    assert_eq!(
        frame,
        Frame {
            bike: Position { x: 0, y: 0 },
            left_wheel: Position { x: 0, y: 0 },
            right_wheel: Position { x: 0, y: 0 },
            head: Position { x: 0, y: 0 },
            rotation: 0,
            left_wheel_rotation: 0,
            right_wheel_rotation: 0,
            throttle_and_dir: 0,
            back_wheel_rot_speed: 0,
            collision_strength: 0,
        }
    );
    assert_eq!(frame.throttle(), false);
    assert_eq!(frame.direction(), Direction::Left);
    let event = Event::new();
    assert_eq!(
        event,
        Event { time: 0, event_type: EventType::ObjectTouch(0) }
    );
    let mut replay = Replay::new();
    replay.link = 1239;
    assert_eq!(replay.flag_tag, false);
    assert_eq!(replay.link, 1239);
    assert_eq!(replay.level, String::new());
    assert_eq!(replay.rides.len(), 0);
}

#[test]
fn throttle_and_direction_bits() {
    let mut frame = Frame::new();
    frame.throttle_and_dir = 205;
    assert_eq!(frame.throttle(), true);
    assert_eq!(frame.direction(), Direction::Left);
    frame.throttle_and_dir = 2;
    assert_eq!(frame.throttle(), false);
    assert_eq!(frame.direction(), Direction::Right);
}

#[test]
/// The reference scenario: 440 frames, link 2549082363, level
/// "tutor14.lev", last event an object touch at 6.398683200001716, reports
/// 14649 milliseconds, finished.
fn replay_get_time_ms_finished_single() {
    let mut replay = Replay::new();
    replay.link = 2549082363;
    replay.level = String::from("tutor14.lev");
    replay.rides.push(ride(
        440,
        Some(Event {
            time: 6.398683200001716_f64.to_bits(),
            event_type: EventType::ObjectTouch(3),
        }),
    ));
    assert_eq!(replay.link, 2549082363);
    assert_eq!(replay.level, "tutor14.lev");
    assert_eq!(replay.is_multi(), false);
    let (time, finished) = replay.get_time_ms();
    assert_eq!(time, 14649);
    assert_eq!(finished, true);
}

#[test]
/// An unfinished replay with no touch event reports the rounded
/// frame-count estimate: sixteen frames of 33.333 units give 533.
fn replay_get_time_ms_unfinished_no_event() {
    let mut replay = Replay::new();
    replay.rides.push(ride(16, None));
    let (time, finished) = replay.get_time_ms();
    assert_eq!(time, 533);
    assert_eq!(finished, false);
}

#[test]
/// With the frame estimate more than one interval past the last touch the
/// replay counts as unfinished and the frame estimate is reported.
fn replay_get_time_ms_unfinished_event_single() {
    let mut replay = Replay::new();
    // 300 frames = 9999.9 units; a touch at 2 game units = 4578.75 ms.
    replay.rides.push(ride(
        300,
        Some(Event { time: 2.0_f64.to_bits(), event_type: EventType::ObjectTouch(1) }),
    ));
    let (time, finished) = replay.get_time_ms();
    assert_eq!(time, (300.0_f64 * 33.333).round() as usize);
    assert_eq!(finished, false);
}

#[test]
/// A multiplayer replay reports the larger of the two rides' estimates.
fn replay_get_time_ms_finished_multi() {
    let mut replay = Replay::new();
    replay.rides.push(ride(
        440,
        Some(Event {
            time: 6.398683200001716_f64.to_bits(),
            event_type: EventType::ObjectTouch(3),
        }),
    ));
    replay.rides.push(ride(
        441,
        Some(Event {
            time: 6.408306600000001_f64.to_bits(),
            event_type: EventType::ObjectTouch(3),
        }),
    ));
    assert_eq!(replay.is_multi(), true);
    let (time, finished) = replay.get_time_ms();
    assert_eq!(time, (6.408306600000001_f64 * 2289.37728938).round() as usize);
    assert_eq!(finished, true);
}

#[test]
fn replay_get_time_hs_finished_single() {
    let mut replay = Replay::new();
    replay.rides.push(ride(
        440,
        Some(Event {
            time: 6.398683200001716_f64.to_bits(),
            event_type: EventType::ObjectTouch(3),
        }),
    ));
    let (time, finished) = replay.get_time_hs();
    assert_eq!(time, 1464);
    assert_eq!(finished, true);
}

#[test]
fn replay_get_time_hs_unfinished_no_event() {
    let mut replay = Replay::new();
    replay.rides.push(ride(16, None));
    let (time, finished) = replay.get_time_hs();
    assert_eq!(time, 53);
    assert_eq!(finished, false);
}

#[test]
/// A last event that is no touch gives a zero event estimate, so only the
/// frame estimate counts.
fn replay_last_event_not_touch() {
    let mut replay = Replay::new();
    let mut r = ride(100, None);
    r.events.push(Event { time: 2.0_f64.to_bits(), event_type: EventType::Apple });
    replay.rides.push(r);
    let (time, finished) = replay.get_time_ms();
    assert_eq!(time, (100.0_f64 * 33.333).round() as usize);
    assert_eq!(finished, false);
}
