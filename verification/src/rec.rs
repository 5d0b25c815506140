//! Replay recordings: per-frame bike, wheel and head kinematics plus a
//! discrete event stream, with one ride per player. Stored floats are
//! carried as bit patterns; the derived race-time queries run the format's
//! double arithmetic exactly over them.

use vstd::prelude::*;

use crate::bytes::{
    bits_of_i16, bits_of_i32, i16_of_bits, i32_of_bits, le_u16_at, le_u16_of, le_u32_at,
    le_u32_of, le_u64_at, le_u64_of, push_i16, push_i32, push_u16, push_u32, push_u64, read_i16,
    read_i32, read_u16, read_u32, read_u64,
};
use crate::fp::{
    fp_add, fp_add_exec, fp_gt, fp_gt_exec, fp_is_zero, fp_is_zero_exec, fp_max, fp_max_exec,
    fp_mul, fp_mul_exec, fp_round_u64, fp_round_u64_exec,
};
use crate::shared::Position;
use crate::ElmaError;

verus! {

/// The bit pattern of the double 33.333, the frame interval of the format.
pub const FRAME_INTERVAL: u64 = 0x4040_AA9F_BE76_C8B4;

/// The bit pattern of the double 2289.37728938, the game-time to
/// millisecond scale of touch events.
pub const TIME_SCALE: u64 = 0x40A1_E2C1_2C12_D875;

/// Bike direction.
#[derive(Debug, Eq, PartialEq, Clone, Copy)]
pub enum Direction {
    /// Right.
    Right,
    /// Left.
    Left,
}

impl Default for Direction {
    /// The default direction is left.
    fn default() -> (r: Self)
        ensures
            r == Direction::Left,
    {
        Direction::Left
    }
}

/// One frame of replay.
#[derive(Debug, Default, PartialEq, Clone, Copy)]
pub struct Frame {
    /// Bike position, as stored single-precision bit patterns.
    pub bike: Position<u32>,
    /// Left wheel position relative to the bike.
    pub left_wheel: Position<i16>,
    /// Right wheel position relative to the bike.
    pub right_wheel: Position<i16>,
    /// Head position relative to the bike.
    pub head: Position<i16>,
    /// Bike rotation. Range 0..10000.
    pub rotation: i16,
    /// Left wheel rotation. Range 0..255.
    pub left_wheel_rotation: u8,
    /// Right wheel rotation. Range 0..255.
    pub right_wheel_rotation: u8,
    /// State of throttle and direction: bit 0 is throttle, bit 1 direction.
    pub throttle_and_dir: u8,
    /// Rotation speed of back wheel.
    pub back_wheel_rot_speed: u8,
    /// Collision strength.
    pub collision_strength: u8,
}

impl Frame {
    /// Returns a new Frame with every field zero.
    pub fn new() -> (r: Self)
        ensures
            r == Frame::blank(),
    {
        Frame {
            bike: Position { x: 0, y: 0 },
            left_wheel: Position { x: 0, y: 0 },
            right_wheel: Position { x: 0, y: 0 },
            head: Position { x: 0, y: 0 },
            rotation: 0,
            left_wheel_rotation: 0,
            right_wheel_rotation: 0,
            throttle_and_dir: 0,
            back_wheel_rot_speed: 0,
            collision_strength: 0,
        }
    }

    /// The all-zero frame.
    pub open spec fn blank() -> Frame {
        Frame {
            bike: Position { x: 0u32, y: 0u32 },
            left_wheel: Position { x: 0i16, y: 0i16 },
            right_wheel: Position { x: 0i16, y: 0i16 },
            head: Position { x: 0i16, y: 0i16 },
            rotation: 0i16,
            left_wheel_rotation: 0u8,
            right_wheel_rotation: 0u8,
            throttle_and_dir: 0u8,
            back_wheel_rot_speed: 0u8,
            collision_strength: 0u8,
        }
    }

    /// Returns whether throttle is on: bit 0 of the packed field.
    pub fn throttle(&self) -> (r: bool)
        ensures
            r == (self.throttle_and_dir % 2 == 1),
    {
        self.throttle_and_dir % 2 == 1
    }

    /// Returns the current direction: bit 1 of the packed field.
    pub fn direction(&self) -> (r: Direction)
        ensures
            r == (if (self.throttle_and_dir / 2) % 2 == 1 {
                Direction::Right
            } else {
                Direction::Left
            }),
    {
        if (self.throttle_and_dir / 2) % 2 == 1 {
            Direction::Right
        } else {
            Direction::Left
        }
    }
}

/// Type of event.
#[derive(Debug, PartialEq, Clone, Copy)]
pub enum EventType {
    /// Object touch, with the index of the object.
    ObjectTouch(i16),
    /// Apple take. An apple take always generates two events: a touch and
    /// an apple.
    Apple,
    /// Bike turn.
    Turn,
    /// Bike volt right.
    VoltRight,
    /// Bike volt left.
    VoltLeft,
    /// Ground touch, with its strength as a single-precision bit pattern.
    Ground(u32),
}

impl Default for EventType {
    /// The default event type is a touch of object zero.
    fn default() -> (r: EventType)
        ensures
            r == EventType::ObjectTouch(0i16),
    {
        EventType::ObjectTouch(0)
    }
}

/// Replay events.
#[derive(Debug, Default, PartialEq, Clone, Copy)]
pub struct Event {
    /// Time of event, in game-time units, as a double bit pattern.
    pub time: u64,
    /// Event type.
    pub event_type: EventType,
}

impl Event {
    /// Returns a new Event at time zero touching object zero.
    pub fn new() -> (r: Self)
        ensures
            r.time == 0,
            r.event_type == EventType::ObjectTouch(0i16),
    {
        Event { time: 0, event_type: EventType::ObjectTouch(0) }
    }
}

/// The model of a ride: its frames and events.
pub ghost struct RideData {
    /// Player frames.
    pub frames: Seq<Frame>,
    /// Player events.
    pub events: Seq<Event>,
}

/// Player ride information (frames and events).
#[derive(Debug, PartialEq, Default)]
pub struct Ride {
    /// Player frames.
    pub frames: Vec<Frame>,
    /// Player events.
    pub events: Vec<Event>,
}

impl View for Ride {
    type V = RideData;

    open spec fn view(&self) -> RideData {
        RideData { frames: self.frames@, events: self.events@ }
    }
}

/// The frame-based time estimate of a ride: the frame count scaled by the
/// frame interval, in IEEE double arithmetic.
pub open spec fn frame_time(r: RideData) -> u64 {
    fp_mul(crate::fp::fp_from_u64(r.frames.len() as u64), FRAME_INTERVAL)
}

/// The event-based time estimate of a ride: the time of the last event
/// when it is an object touch, zero otherwise, scaled to milliseconds.
pub open spec fn event_time(r: RideData) -> u64 {
    let t: u64 = if r.events.len() == 0 {
        0u64
    } else {
        match r.events.last().event_type {
            EventType::ObjectTouch(_) => r.events.last().time,
            _ => 0u64,
        }
    };
    fp_mul(t, TIME_SCALE)
}

impl Ride {
    /// Creates an empty Ride.
    pub fn new() -> (r: Self)
        ensures
            r@.frames == Seq::<Frame>::empty(),
            r@.events == Seq::<Event>::empty(),
    {
        let r = Ride { frames: Vec::new(), events: Vec::new() };
        proof {
            assert(r@.frames =~= Seq::<Frame>::empty());
            assert(r@.events =~= Seq::<Event>::empty());
        }
        r
    }

    /// Gets the time based on frame count, as a double bit pattern.
    pub fn get_frame_time(&self) -> (r: u64)
        ensures
            r == frame_time(self@),
    {
        fp_mul_exec(crate::fp::fp_from_u64_exec(self.frames.len() as u64), FRAME_INTERVAL)
    }

    /// Gets the time based on the last object-touch event, or zero when the
    /// last event is no touch, as a double bit pattern.
    pub fn get_time(&self) -> (r: u64)
        ensures
            r == event_time(self@),
    {
        let t: u64 = if self.events.len() == 0 {
            0
        } else {
            match self.events[self.events.len() - 1].event_type {
                EventType::ObjectTouch(_) => self.events[self.events.len() - 1].time,
                _ => 0,
            }
        };
        fp_mul_exec(t, TIME_SCALE)
    }
}

/// The model of a replay: flag-tag mode, link, level name and rides.
pub ghost struct ReplayData {
    /// Whether replay is flag-tag or not.
    pub flag_tag: bool,
    /// Random number to link with the level file.
    pub link: u32,
    /// Full level filename.
    pub level: Seq<char>,
    /// Rides of players.
    pub rides: Seq<RideData>,
}

/// Replay struct.
#[derive(Debug, PartialEq)]
pub struct Replay {
    /// Whether replay is flag-tag or not.
    pub flag_tag: bool,
    /// Random number to link with the level file.
    pub link: u32,
    /// Full level filename.
    pub level: String,
    /// Rides of players: one for a single-player replay, two for a
    /// multi-player one.
    pub rides: Vec<Ride>,
}

impl View for Replay {
    type V = ReplayData;

    open spec fn view(&self) -> ReplayData {
        ReplayData {
            flag_tag: self.flag_tag,
            link: self.link,
            level: self.level@,
            rides: self.rides@.map_values(|r: Ride| r@),
        }
    }
}

/// The largest event-based and frame-based estimates over the rides.
pub open spec fn max_times(rides: Seq<RideData>) -> (u64, u64)
    decreases rides.len(),
{
    if rides.len() == 0 {
        (0u64, 0u64)
    } else {
        let acc = max_times(rides.drop_last());
        (
            fp_max(event_time(rides.last()), acc.0),
            fp_max(frame_time(rides.last()), acc.1),
        )
    }
}

/// The reported milliseconds and the finished flag: when no touch event
/// exists the rounded frame estimate, unfinished; when the frame estimate
/// runs more than one frame interval past the touch estimate, likewise;
/// otherwise the rounded touch estimate, finished.
pub open spec fn time_ms(rides: Seq<RideData>) -> (u64, bool) {
    let m = max_times(rides);
    if fp_is_zero(m.0) {
        (fp_round_u64(m.1), false)
    } else if fp_gt(m.1, fp_add(m.0, FRAME_INTERVAL)) {
        (fp_round_u64(m.1), false)
    } else {
        (fp_round_u64(m.0), true)
    }
}

impl Replay {
    /// Return a new, empty single-ride Replay.
    pub fn new() -> (r: Self)
        ensures
            r@.flag_tag == false,
            r@.link == 0,
            r@.level == Seq::<char>::empty(),
            r@.rides == Seq::<RideData>::empty(),
    {
        let r = Replay { flag_tag: false, link: 0, level: String::new(), rides: Vec::new() };
        proof {
            assert(r@.rides =~= Seq::<RideData>::empty());
            assert(r@.level =~= Seq::<char>::empty());
        }
        r
    }

    /// Returns whether this is a multiplayer replay.
    pub fn is_multi(&self) -> (r: bool)
        ensures
            r == (self@.rides.len() > 1),
    {
        self.rides.len() > 1
    }

    /// Get the time of the replay in milliseconds and whether it looks
    /// finished: a replay counts as finished only when its last touch event
    /// stands within one frame interval of the frame-based estimate.
    pub fn get_time_ms(&self) -> (r: (usize, bool))
        ensures
            r.0 == clamp_usize(time_ms(self@.rides).0),
            r.1 == time_ms(self@.rides).1,
    {
        let ghost rides = self@.rides;
        let mut ev: u64 = 0;
        let mut fr: u64 = 0;
        let mut i: usize = 0;
        while i < self.rides.len()
            invariant
                i <= self.rides@.len(),
                rides == self@.rides,
                rides == self.rides@.map_values(|r: Ride| r@),
                (ev, fr) == max_times(rides.subrange(0, i as int)),
            decreases self.rides@.len() - i,
        {
            let e = self.rides[i].get_time();
            let f = self.rides[i].get_frame_time();
            ev = fp_max_exec(e, ev);
            fr = fp_max_exec(f, fr);
            proof {
                assert(rides.subrange(0, i + 1).drop_last() =~= rides.subrange(0, i as int));
                assert(rides.subrange(0, i + 1).last() == rides[i as int]);
                assert(rides[i as int] == self.rides@[i as int]@);
            }
            i += 1;
        }
        proof {
            assert(rides.subrange(0, rides.len() as int) =~= rides);
        }
        if fp_is_zero_exec(ev) {
            return (clamp_usize_exec(fp_round_u64_exec(fr)), false);
        }
        if fp_gt_exec(fr, fp_add_exec(ev, FRAME_INTERVAL)) {
            return (clamp_usize_exec(fp_round_u64_exec(fr)), false);
        }
        (clamp_usize_exec(fp_round_u64_exec(ev)), true)
    }

    /// Get the time of the replay in hundredths and whether it looks
    /// finished.
    pub fn get_time_hs(&self) -> (r: (usize, bool))
        ensures
            r.0 == clamp_usize(time_ms(self@.rides).0) / 10,
            r.1 == time_ms(self@.rides).1,
    {
        let (ms, finished) = self.get_time_ms();
        (ms / 10, finished)
    }
}

/// A machine-word count clamped from a 64-bit one, as a saturating cast
/// clamps it.
pub open spec fn clamp_usize(v: u64) -> usize {
    if v > usize::MAX {
        usize::MAX
    } else {
        v as usize
    }
}

/// Clamps a 64-bit count to a machine word.
pub fn clamp_usize_exec(v: u64) -> (r: usize)
    ensures
        r == clamp_usize(v),
{
    if v > (usize::MAX as u64) {
        usize::MAX
    } else {
        v as usize
    }
}

} // verus!

verus! {

/// The zero double times any finite positive constant is the zero double.
proof fn lemma_zero_event_time(r: RideData)
    requires
        r.events.len() == 0 || !(r.events.last().event_type is ObjectTouch),
    ensures
        event_time(r) == 0u64,
{
    reveal(crate::fp::fp_mul);
    assert(crate::fp::fp_mag(0u64) == 0);
    assert(!crate::fp::fp_is_nan(0u64) && !crate::fp::fp_is_inf(0u64));
    assert(!crate::fp::fp_is_nan(TIME_SCALE) && !crate::fp::fp_is_inf(TIME_SCALE));
    assert(!crate::fp::fp_sign(0u64) && !crate::fp::fp_sign(TIME_SCALE));
    assert(crate::fp::fp_bits_of(false, 0, 0) == 0u64);
}

/// A replay whose rides end in no object touch reports the rounded
/// frame-count estimate and counts as unfinished, whatever its frames hold.
pub proof fn lemma_no_touch_unfinished(rides: Seq<RideData>)
    requires
        forall|i: int|
            0 <= i < rides.len() ==> (#[trigger] rides[i]).events.len() == 0 || !(
            rides[i].events.last().event_type is ObjectTouch),
    ensures
        time_ms(rides).1 == false,
        time_ms(rides).0 == fp_round_u64(max_times(rides).1),
    decreases rides.len(),
{
    lemma_no_touch_zero(rides);
    assert(fp_is_zero(max_times(rides).0)) by {
        assert(crate::fp::fp_mag(0u64) == 0);
    }
}

/// With no touch events the largest event estimate stays the zero double.
proof fn lemma_no_touch_zero(rides: Seq<RideData>)
    requires
        forall|i: int|
            0 <= i < rides.len() ==> (#[trigger] rides[i]).events.len() == 0 || !(
            rides[i].events.last().event_type is ObjectTouch),
    ensures
        max_times(rides).0 == 0u64,
    decreases rides.len(),
{
    if rides.len() > 0 {
        assert forall|i: int|
            0 <= i < rides.drop_last().len() implies (#[trigger] rides.drop_last()[i]).events.len()
            == 0 || !(rides.drop_last()[i].events.last().event_type is ObjectTouch) by {
            assert(rides.drop_last()[i] == rides[i]);
        }
        lemma_no_touch_zero(rides.drop_last());
        assert(rides.last() == rides[rides.len() - 1]);
        lemma_zero_event_time(rides.last());
        assert(fp_max(0u64, 0u64) == 0u64) by {
            assert(!fp_gt(0u64, 0u64)) by {
                assert(crate::fp::fp_mag(0u64) == 0);
            }
            assert(!crate::fp::fp_is_nan(0u64));
        }
    }
}

} // verus!

verus! {

/// End-of-player marker of a replay file.
pub const EOR: i32 = 0x0049_2F75;

/// Replay version word that all valid replays carry.
pub const REPLAY_VERSION: u32 = 0x83;

/// The bit pattern of the single-precision 0.99 stored with voltage and
/// turn events.
pub const EVENT_DEFAULT_EXTRA: u32 = 0x3F7D_70A4;

/// The frame assembled from the fourteen on-disk columns at `base`, each
/// `n` entries long, for frame `j`: bike coordinates as single-precision
/// bit patterns, the six wheel and head columns as stored words, then the
/// rotation and the five byte columns.
pub open spec fn frame_at(b: Seq<u8>, base: int, n: int, j: int) -> Frame {
    Frame {
        bike: Position {
            x: le_u32_at(b, base + 4 * j),
            y: le_u32_at(b, base + 4 * n + 4 * j),
        },
        left_wheel: Position {
            x: i16_of_bits(le_u16_at(b, base + 8 * n + 2 * j)),
            y: i16_of_bits(le_u16_at(b, base + 10 * n + 2 * j)),
        },
        right_wheel: Position {
            x: i16_of_bits(le_u16_at(b, base + 12 * n + 2 * j)),
            y: i16_of_bits(le_u16_at(b, base + 14 * n + 2 * j)),
        },
        head: Position {
            x: i16_of_bits(le_u16_at(b, base + 16 * n + 2 * j)),
            y: i16_of_bits(le_u16_at(b, base + 18 * n + 2 * j)),
        },
        rotation: i16_of_bits(le_u16_at(b, base + 20 * n + 2 * j)),
        left_wheel_rotation: b[base + 22 * n + j],
        right_wheel_rotation: b[base + 23 * n + j],
        throttle_and_dir: b[base + 24 * n + j],
        back_wheel_rot_speed: b[base + 25 * n + j],
        collision_strength: b[base + 26 * n + j],
    }
}

/// The event decoded from the 16-byte record at `pos`: the time, the info
/// word, the type code and the extra word; an unknown code is the event
/// error carrying it.
pub open spec fn parse_event_s(b: Seq<u8>, pos: int) -> Result<Event, ElmaError> {
    let time = le_u64_at(b, pos);
    let info = i16_of_bits(le_u16_at(b, pos + 8));
    let code = b[pos + 10];
    let extra = le_u32_at(b, pos + 12);
    if code == 0 {
        Ok(Event { time, event_type: EventType::ObjectTouch(info) })
    } else if code == 1 {
        Ok(Event { time, event_type: EventType::Ground(extra) })
    } else if code == 4 {
        Ok(Event { time, event_type: EventType::Apple })
    } else if code == 5 {
        Ok(Event { time, event_type: EventType::Turn })
    } else if code == 6 {
        Ok(Event { time, event_type: EventType::VoltRight })
    } else if code == 7 {
        Ok(Event { time, event_type: EventType::VoltLeft })
    } else {
        Err(ElmaError::InvalidEvent(code))
    }
}

/// Parses `k` 16-byte event records starting at `pos`.
pub open spec fn parse_events_s(b: Seq<u8>, pos: int, k: int) -> Result<Seq<Event>, ElmaError>
    decreases k,
{
    if k <= 0 {
        Ok(Seq::<Event>::empty())
    } else {
        match parse_event_s(b, pos) {
            Err(e) => Err(e),
            Ok(ev) => match parse_events_s(b, pos + 16, k - 1) {
                Err(e) => Err(e),
                Ok(rest) => Ok(seq![ev] + rest),
            },
        }
    }
}

/// What parsing one ride block gives: the ride, its header flags and the
/// position after its end-of-player marker.
pub ghost struct RideParse {
    /// The ride's frames and events.
    pub ride: RideData,
    /// The stored multi-player flag.
    pub multi: bool,
    /// The stored flag-tag flag.
    pub flag_tag: bool,
    /// The stored link.
    pub link: u32,
    /// The stored level filename.
    pub level: Seq<char>,
    /// The offset just past the end-of-player marker.
    pub end: int,
}

/// Parses one ride block at `pos`: the frame count, the version word, the
/// two flags, the link, the 12-byte level name and 4 skipped bytes, then
/// the fourteen frame columns, the event records and the end-of-player
/// marker. Short input, a bad version or a bad count is a replay-file
/// error; a bad event code and a bad marker each keep their own error.
pub open spec fn parse_ride_s(b: Seq<u8>, pos: int) -> Result<RideParse, ElmaError> {
    if pos + 36 > b.len() {
        Err(ElmaError::InvalidReplayFile)
    } else {
        let n = i32_of_bits(le_u32_at(b, pos)) as int;
        if n < 0 {
            Err(ElmaError::InvalidReplayFile)
        } else if le_u32_at(b, pos + 4) != REPLAY_VERSION {
            Err(ElmaError::InvalidReplayFile)
        } else {
            match crate::utils::trim_field(b, pos + 20, 12) {
                Err(_) => Err(ElmaError::InvalidReplayFile),
                Ok(level) => {
                    let base = pos + 36;
                    if base + 27 * n + 4 > b.len() {
                        Err(ElmaError::InvalidReplayFile)
                    } else {
                        let k = i32_of_bits(le_u32_at(b, base + 27 * n)) as int;
                        let ebase = base + 27 * n + 4;
                        if k < 0 || ebase + 16 * k + 4 > b.len() {
                            Err(ElmaError::InvalidReplayFile)
                        } else {
                            match parse_events_s(b, ebase, k) {
                                Err(e) => Err(e),
                                Ok(events) => {
                                    if i32_of_bits(le_u32_at(b, ebase + 16 * k)) != EOR {
                                        Err(ElmaError::EORMismatch)
                                    } else {
                                        Ok(
                                            RideParse {
                                                ride: RideData {
                                                    frames: Seq::new(
                                                        n as nat,
                                                        |j: int| frame_at(b, base, n, j),
                                                    ),
                                                    events,
                                                },
                                                multi: le_u32_at(b, pos + 8) != 0,
                                                flag_tag: le_u32_at(b, pos + 12) != 0,
                                                link: le_u32_at(b, pos + 16),
                                                level,
                                                end: ebase + 16 * k + 4,
                                            },
                                        )
                                    }
                                },
                            }
                        }
                    }
                },
            }
        }
    }
}

/// What a replay file's bytes decode to: one ride, or two when the first
/// ride's multi-player flag is set; the replay's own flags come from the
/// first ride's header.
pub open spec fn parse_replay_s(b: Seq<u8>) -> Result<ReplayData, ElmaError> {
    match parse_ride_s(b, 0) {
        Err(e) => Err(e),
        Ok(first) => {
            if first.multi {
                match parse_ride_s(b, first.end) {
                    Err(e) => Err(e),
                    Ok(second) => Ok(
                        ReplayData {
                            flag_tag: first.flag_tag,
                            link: first.link,
                            level: first.level,
                            rides: seq![first.ride, second.ride],
                        },
                    ),
                }
            } else {
                Ok(
                    ReplayData {
                        flag_tag: first.flag_tag,
                        link: first.link,
                        level: first.level,
                        rides: seq![first.ride],
                    },
                )
            }
        },
    }
}

} // verus!

verus! {

/// Whether `k` more bytes stand at `pos` of the buffer.
fn rec_has_bytes(buffer: &[u8], pos: usize, k: usize) -> (r: bool)
    ensures
        r == (pos + k <= buffer@.len()),
        buffer@.len() <= usize::MAX,
{
    pos <= buffer.len() && buffer.len() - pos >= k
}

/// Parses the 16-byte event record at `pos`.
fn parse_event(buffer: &[u8], pos: usize) -> (r: Result<Event, ElmaError>)
    requires
        pos + 16 <= buffer@.len(),
    ensures
        match r {
            Ok(ev) => parse_event_s(buffer@, pos as int) == Ok::<Event, ElmaError>(ev),
            Err(e) => parse_event_s(buffer@, pos as int) == Err::<Event, ElmaError>(e),
        },
{
    let blen = buffer.len();
    assert(pos + 16 <= blen);
    let time = read_u64(buffer, pos);
    let info = read_i16(buffer, pos + 8);
    let code = buffer[pos + 10];
    let extra = read_u32(buffer, pos + 12);
    if code == 0 {
        Ok(Event { time, event_type: EventType::ObjectTouch(info) })
    } else if code == 1 {
        Ok(Event { time, event_type: EventType::Ground(extra) })
    } else if code == 4 {
        Ok(Event { time, event_type: EventType::Apple })
    } else if code == 5 {
        Ok(Event { time, event_type: EventType::Turn })
    } else if code == 6 {
        Ok(Event { time, event_type: EventType::VoltRight })
    } else if code == 7 {
        Ok(Event { time, event_type: EventType::VoltLeft })
    } else {
        Err(ElmaError::InvalidEvent(code))
    }
}

/// Prefixes parsed events onto a parse outcome.
pub open spec fn combine_events(
    head: Seq<Event>,
    rest: Result<Seq<Event>, ElmaError>,
) -> Result<Seq<Event>, ElmaError> {
    match rest {
        Ok(tail) => Ok(head + tail),
        Err(e) => Err(e),
    }
}

/// Parses `k` 16-byte event records starting at `pos`.
fn parse_events(buffer: &[u8], pos0: usize, k: u64) -> (r: Result<Vec<Event>, ElmaError>)
    requires
        pos0 + 16 * k <= buffer@.len(),
    ensures
        match r {
            Ok(v) => parse_events_s(buffer@, pos0 as int, k as int) == Ok::<
                Seq<Event>,
                ElmaError,
            >(v@),
            Err(e) => parse_events_s(buffer@, pos0 as int, k as int) == Err::<
                Seq<Event>,
                ElmaError,
            >(e),
        },
{
    let blen = buffer.len();
    let ghost b = buffer@;
    let mut events: Vec<Event> = Vec::new();
    let mut i: u64 = 0;
    proof {
        assert(events@ =~= Seq::<Event>::empty());
    }
    while i < k
        invariant
            i <= k,
            b == buffer@,
            pos0 + 16 * (k as int) <= b.len(),
            pos0 + 16 * (k as int) <= usize::MAX,
            parse_events_s(b, pos0 as int, k as int) == combine_events(
                events@,
                parse_events_s(b, pos0 + 16 * i, k - i),
            ),
        decreases k - i,
    {
        let ghost before = events@;
        let pos = pos0 + 16 * (i as usize);
        let ev = match parse_event(buffer, pos) {
            Ok(ev) => ev,
            Err(e) => {
                return Err(e);
            },
        };
        events.push(ev);
        i += 1;
        proof {
            let rest = parse_events_s(b, pos0 + 16 * i, k - i);
            assert(parse_events_s(b, pos as int, k - i + 1) == combine_events(seq![ev], rest));
            assert(events@ =~= before.push(ev));
            match rest {
                Ok(tail) => {
                    assert(before + (seq![ev] + tail) =~= before.push(ev) + tail);
                },
                Err(e) => {},
            }
        }
    }
    proof {
        assert(events@ + Seq::<Event>::empty() =~= events@);
    }
    Ok(events)
}

impl Replay {
    /// Load a replay from bytes: decodes one or two ride blocks, or gives
    /// the first error the format rules produce.
    pub fn from_bytes(buffer: &[u8]) -> (r: Result<Replay, ElmaError>)
        ensures
            match r {
                Ok(rp) => parse_replay_s(buffer@) == Ok::<ReplayData, ElmaError>(rp@),
                Err(e) => parse_replay_s(buffer@) == Err::<ReplayData, ElmaError>(e),
            },
    {
        Replay::parse_replay(buffer)
    }

    /// Parses the raw binary data into Replay struct fields.
    fn parse_replay(buffer: &[u8]) -> (r: Result<Replay, ElmaError>)
        ensures
            match r {
                Ok(rp) => parse_replay_s(buffer@) == Ok::<ReplayData, ElmaError>(rp@),
                Err(e) => parse_replay_s(buffer@) == Err::<ReplayData, ElmaError>(e),
            },
    {
        let first = match Replay::parse_ride(buffer, 0) {
            Ok(v) => v,
            Err(e) => {
                return Err(e);
            },
        };
        let (ride1, multi, flag_tag, link, level, end) = first;
        let mut rides: Vec<Ride> = Vec::new();
        if multi {
            let second = match Replay::parse_ride(buffer, end) {
                Ok(v) => v,
                Err(e) => {
                    return Err(e);
                },
            };
            rides.push(ride1);
            rides.push(second.0);
            let replay = Replay { flag_tag, link, level, rides };
            proof {
                assert(replay@.rides =~= seq![
                    parse_ride_s(buffer@, 0)->Ok_0.ride,
                    parse_ride_s(buffer@, parse_ride_s(buffer@, 0)->Ok_0.end)->Ok_0.ride,
                ]);
            }
            Ok(replay)
        } else {
            rides.push(ride1);
            let replay = Replay { flag_tag, link, level, rides };
            proof {
                assert(replay@.rides =~= seq![parse_ride_s(buffer@, 0)->Ok_0.ride]);
            }
            Ok(replay)
        }
    }

    /// Parses one ride block at `pos`, returning the ride, its header
    /// flags, its link and level name, and the position after its marker.
    #[verifier::rlimit(100)]
    #[verifier::spinoff_prover]
    fn parse_ride(buffer: &[u8], pos: usize) -> (r: Result<
        (Ride, bool, bool, u32, String, usize),
        ElmaError,
    >)
        requires
            pos <= buffer@.len(),
        ensures
            match r {
                Ok(v) => parse_ride_s(buffer@, pos as int) == Ok::<RideParse, ElmaError>(
                    RideParse {
                        ride: v.0@,
                        multi: v.1,
                        flag_tag: v.2,
                        link: v.3,
                        level: v.4@,
                        end: v.5 as int,
                    },
                ) && v.5 <= buffer@.len(),
                Err(e) => parse_ride_s(buffer@, pos as int) == Err::<RideParse, ElmaError>(e),
            },
    {
        let ghost b = buffer@;
        let blen = buffer.len();
        if !rec_has_bytes(buffer, pos, 36) {
            return Err(ElmaError::InvalidReplayFile);
        }
        let n_raw = read_i32(buffer, pos);
        if n_raw < 0 {
            return Err(ElmaError::InvalidReplayFile);
        }
        let n = n_raw as usize;
        if read_u32(buffer, pos + 4) != REPLAY_VERSION {
            return Err(ElmaError::InvalidReplayFile);
        }
        proof {
            crate::utils::lemma_trim_subrange(b, pos + 20, 12);
        }
        let level = match crate::utils::trim_string(&buffer[pos + 20..pos + 32]) {
            Ok(s) => s,
            Err(_) => {
                return Err(ElmaError::InvalidReplayFile);
            },
        };
        let multi = read_u32(buffer, pos + 8) != 0;
        let flag_tag = read_u32(buffer, pos + 12) != 0;
        let link = read_u32(buffer, pos + 16);
        let base = pos + 36;
        if ((base as u128) + 27 * (n as u128) + 4) > (blen as u128) {
            assert(base + 27 * (n as int) + 4 > b.len());
            return Err(ElmaError::InvalidReplayFile);
        }
        assert(base + 27 * (n as int) + 4 <= b.len());
        let frames = Replay::read_frames(buffer, base, n);
        let k_raw = read_i32(buffer, base + 27 * n);
        let ebase = base + 27 * n + 4;
        if k_raw < 0 {
            return Err(ElmaError::InvalidReplayFile);
        }
        let k = k_raw as usize;
        if ((ebase as u128) + 16 * (k as u128) + 4) > (blen as u128) {
            assert(ebase + 16 * (k as int) + 4 > b.len());
            return Err(ElmaError::InvalidReplayFile);
        }
        assert(ebase + 16 * (k as int) + 4 <= b.len());
        let events = match parse_events(buffer, ebase, k as u64) {
            Ok(v) => v,
            Err(e) => {
                return Err(e);
            },
        };
        if read_i32(buffer, ebase + 16 * k) != EOR {
            return Err(ElmaError::EORMismatch);
        }
        let ride = Ride { frames, events };
        Ok((ride, multi, flag_tag, link, level, ebase + 16 * k + 4))
    }

    /// Reads the fourteen frame columns into row-wise frames.
    #[verifier::rlimit(100)]
    #[verifier::spinoff_prover]
    fn read_frames(buffer: &[u8], base: usize, n: usize) -> (r: Vec<Frame>)
        requires
            base + 27 * n <= buffer@.len(),
        ensures
            r@ =~= Seq::new(n as nat, |j: int| frame_at(buffer@, base as int, n as int, j)),
    {
        let ghost b = buffer@;
        let blen = buffer.len();
        let mut frames: Vec<Frame> = Vec::new();
        let mut j: usize = 0;
        while j < n
            invariant
                j <= n,
                b == buffer@,
                base + 27 * (n as int) <= b.len(),
                base + 27 * (n as int) <= usize::MAX,
                frames@ =~= Seq::new(j as nat, |q: int| frame_at(b, base as int, n as int, q)),
            decreases n - j,
        {
            let f = Frame {
                bike: Position {
                    x: read_u32(buffer, base + 4 * j),
                    y: read_u32(buffer, base + 4 * n + 4 * j),
                },
                left_wheel: Position {
                    x: read_i16(buffer, base + 8 * n + 2 * j),
                    y: read_i16(buffer, base + 10 * n + 2 * j),
                },
                right_wheel: Position {
                    x: read_i16(buffer, base + 12 * n + 2 * j),
                    y: read_i16(buffer, base + 14 * n + 2 * j),
                },
                head: Position {
                    x: read_i16(buffer, base + 16 * n + 2 * j),
                    y: read_i16(buffer, base + 18 * n + 2 * j),
                },
                rotation: read_i16(buffer, base + 20 * n + 2 * j),
                left_wheel_rotation: buffer[base + 22 * n + j],
                right_wheel_rotation: buffer[base + 23 * n + j],
                throttle_and_dir: buffer[base + 24 * n + j],
                back_wheel_rot_speed: buffer[base + 25 * n + j],
                collision_strength: buffer[base + 26 * n + j],
            };
            assert(f == frame_at(b, base as int, n as int, j as int));
            frames.push(f);
            proof {
                assert(frames@ =~= Seq::new(
                    (j + 1) as nat,
                    |q: int| frame_at(b, base as int, n as int, q),
                ));
            }
            j += 1;
        }
        frames
    }
}

} // verus!

verus! {

/// One four-byte column: the little-endian words of `vs` in order.
pub open spec fn col4v(vs: Seq<u32>) -> Seq<u8> {
    Seq::new(4 * vs.len(), |i: int| le_u32_of(vs[i / 4])[i % 4])
}

/// One two-byte column: the little-endian halfwords of `vs` in order.
pub open spec fn col2v(vs: Seq<u16>) -> Seq<u8> {
    Seq::new(2 * vs.len(), |i: int| le_u16_of(vs[i / 2])[i % 2])
}

/// The frame region: the fourteen columns in on-disk order, each one value
/// per frame.
#[verifier::opaque]
pub open spec fn ser_frames(s: Seq<Frame>) -> Seq<u8> {
    col4v(s.map_values(|f: Frame| f.bike.x)) + col4v(s.map_values(|f: Frame| f.bike.y)) + col2v(
        s.map_values(|f: Frame| bits_of_i16(f.left_wheel.x)),
    ) + col2v(s.map_values(|f: Frame| bits_of_i16(f.left_wheel.y))) + col2v(
        s.map_values(|f: Frame| bits_of_i16(f.right_wheel.x)),
    ) + col2v(s.map_values(|f: Frame| bits_of_i16(f.right_wheel.y))) + col2v(
        s.map_values(|f: Frame| bits_of_i16(f.head.x)),
    ) + col2v(s.map_values(|f: Frame| bits_of_i16(f.head.y))) + col2v(
        s.map_values(|f: Frame| bits_of_i16(f.rotation)),
    ) + s.map_values(|f: Frame| f.left_wheel_rotation) + s.map_values(
        |f: Frame| f.right_wheel_rotation,
    ) + s.map_values(|f: Frame| f.throttle_and_dir) + s.map_values(
        |f: Frame| f.back_wheel_rot_speed,
    ) + s.map_values(|f: Frame| f.collision_strength)
}

/// The 16 bytes of one event record: object touches store their info word
/// and a zero extra; ground touches store an info of minus one and their
/// strength; the rest store minus one and the default extra.
pub open spec fn ser_event(e: Event) -> Seq<u8> {
    let info: i16 = match e.event_type {
        EventType::ObjectTouch(i) => i,
        _ => -1i16,
    };
    let code: u8 = match e.event_type {
        EventType::ObjectTouch(_) => 0u8,
        EventType::Ground(_) => 1u8,
        EventType::Apple => 4u8,
        EventType::Turn => 5u8,
        EventType::VoltRight => 6u8,
        EventType::VoltLeft => 7u8,
    };
    let extra: u32 = match e.event_type {
        EventType::ObjectTouch(_) => 0u32,
        EventType::Ground(g) => g,
        _ => EVENT_DEFAULT_EXTRA,
    };
    le_u64_of(e.time) + le_u16_of(bits_of_i16(info)) + seq![code, 0u8] + le_u32_of(extra)
}

/// The event records in order.
pub open spec fn ser_events(s: Seq<Event>) -> Seq<u8>
    decreases s.len(),
{
    if s.len() == 0 {
        Seq::<u8>::empty()
    } else {
        ser_events(s.drop_last()) + ser_event(s.last())
    }
}

/// The bytes of one ride block: the frame count, the version word, the two
/// flags, the link, the padded level name, four null bytes, the frame
/// columns, the event count and records, then the end-of-player marker.
#[verifier::opaque]
pub open spec fn ser_ride(rd: RideData, multi: bool, flag_tag: bool, link: u32, level: Seq<char>) -> Seq<
    u8,
> {
    le_u32_of((rd.frames.len() % 0x1_0000_0000) as u32) + le_u32_of(REPLAY_VERSION) + le_u32_of(
        if multi {
            1u32
        } else {
            0u32
        },
    ) + le_u32_of(
        if flag_tag {
            1u32
        } else {
            0u32
        },
    ) + le_u32_of(link) + crate::utils::pad_name(level, 12) + le_u32_of(0) + ser_frames(rd.frames)
        + le_u32_of((rd.events.len() % 0x1_0000_0000) as u32) + ser_events(rd.events) + le_u32_of(
        bits_of_i32(EOR),
    )
}

/// The ride blocks of a replay in order, each carrying the replay's own
/// header fields.
pub open spec fn ser_rides(rp: ReplayData, i: int) -> Seq<u8>
    decreases rp.rides.len() - i,
{
    if i < 0 || i >= rp.rides.len() {
        Seq::<u8>::empty()
    } else {
        ser_ride(rp.rides[i], rp.rides.len() > 1, rp.flag_tag, rp.link, rp.level) + ser_rides(
            rp,
            i + 1,
        )
    }
}

/// Every byte a replay file stores.
pub open spec fn ser_replay(rp: ReplayData) -> Seq<u8> {
    ser_rides(rp, 0)
}

/// The one error a replay save can run into: a level name that does not
/// fit its 12-byte field, checked once per stored ride.
pub open spec fn rec_write_err(rp: ReplayData) -> Option<ElmaError> {
    if rp.rides.len() > 0 {
        crate::utils::pad_err(rp.level, 12)
    } else {
        Option::None
    }
}

} // verus!

verus! {

/// Appends one four-byte column.
fn push_col4(out: &mut Vec<u8>, vals: &Vec<u32>)
    ensures
        final(out)@ == old(out)@ + col4v(vals@),
{
    let ghost base = out@;
    let mut j: usize = 0;
    while j < vals.len()
        invariant
            j <= vals@.len(),
            out@ =~= base + col4v(vals@).subrange(0, 4 * j),
        decreases vals@.len() - j,
    {
        push_u32(out, vals[j]);
        proof {
            assert forall|i: int| 4 * j <= i < 4 * j + 4 implies col4v(vals@)[i] == le_u32_of(
                vals@[j as int],
            )[i - 4 * j] by {
                vstd::arithmetic::div_mod::lemma_fundamental_div_mod_converse(
                    i,
                    4,
                    j as int,
                    i - 4 * j,
                );
            }
            assert(out@ =~= base + col4v(vals@).subrange(0, 4 * (j + 1)));
        }
        j += 1;
    }
    assert(col4v(vals@).subrange(0, 4 * (vals@.len() as int)) =~= col4v(vals@));
}

/// Appends one two-byte column.
fn push_col2(out: &mut Vec<u8>, vals: &Vec<u16>)
    ensures
        final(out)@ == old(out)@ + col2v(vals@),
{
    let ghost base = out@;
    let mut j: usize = 0;
    while j < vals.len()
        invariant
            j <= vals@.len(),
            out@ =~= base + col2v(vals@).subrange(0, 2 * j),
        decreases vals@.len() - j,
    {
        push_u16(out, vals[j]);
        proof {
            assert forall|i: int| 2 * j <= i < 2 * j + 2 implies col2v(vals@)[i] == le_u16_of(
                vals@[j as int],
            )[i - 2 * j] by {
                vstd::arithmetic::div_mod::lemma_fundamental_div_mod_converse(
                    i,
                    2,
                    j as int,
                    i - 2 * j,
                );
            }
            assert(out@ =~= base + col2v(vals@).subrange(0, 2 * (j + 1)));
        }
        j += 1;
    }
    assert(col2v(vals@).subrange(0, 2 * (vals@.len() as int)) =~= col2v(vals@));
}

/// Function for writing frame data: the fourteen columns in on-disk order.
#[verifier::rlimit(100)]
#[verifier::spinoff_prover]
fn write_frames(frame_data: &Vec<Frame>) -> (r: Vec<u8>)
    ensures
        r@ == ser_frames(frame_data@),
{
    let ghost fv = frame_data@;
    let mut bike_x: Vec<u32> = Vec::new();
    let mut bike_y: Vec<u32> = Vec::new();
    let mut left_x: Vec<u16> = Vec::new();
    let mut left_y: Vec<u16> = Vec::new();
    let mut right_x: Vec<u16> = Vec::new();
    let mut right_y: Vec<u16> = Vec::new();
    let mut head_x: Vec<u16> = Vec::new();
    let mut head_y: Vec<u16> = Vec::new();
    let mut rotation: Vec<u16> = Vec::new();
    let mut left_rot: Vec<u8> = Vec::new();
    let mut right_rot: Vec<u8> = Vec::new();
    let mut data: Vec<u8> = Vec::new();
    let mut back: Vec<u8> = Vec::new();
    let mut coll: Vec<u8> = Vec::new();
    let mut j: usize = 0;
    while j < frame_data.len()
        invariant
            j <= fv.len(),
            fv == frame_data@,
            bike_x@ =~= fv.subrange(0, j as int).map_values(|f: Frame| f.bike.x),
            bike_y@ =~= fv.subrange(0, j as int).map_values(|f: Frame| f.bike.y),
            left_x@ =~= fv.subrange(0, j as int).map_values(
                |f: Frame| bits_of_i16(f.left_wheel.x),
            ),
            left_y@ =~= fv.subrange(0, j as int).map_values(
                |f: Frame| bits_of_i16(f.left_wheel.y),
            ),
            right_x@ =~= fv.subrange(0, j as int).map_values(
                |f: Frame| bits_of_i16(f.right_wheel.x),
            ),
            right_y@ =~= fv.subrange(0, j as int).map_values(
                |f: Frame| bits_of_i16(f.right_wheel.y),
            ),
            head_x@ =~= fv.subrange(0, j as int).map_values(|f: Frame| bits_of_i16(f.head.x)),
            head_y@ =~= fv.subrange(0, j as int).map_values(|f: Frame| bits_of_i16(f.head.y)),
            rotation@ =~= fv.subrange(0, j as int).map_values(|f: Frame| bits_of_i16(f.rotation)),
            left_rot@ =~= fv.subrange(0, j as int).map_values(|f: Frame| f.left_wheel_rotation),
            right_rot@ =~= fv.subrange(0, j as int).map_values(|f: Frame| f.right_wheel_rotation),
            data@ =~= fv.subrange(0, j as int).map_values(|f: Frame| f.throttle_and_dir),
            back@ =~= fv.subrange(0, j as int).map_values(|f: Frame| f.back_wheel_rot_speed),
            coll@ =~= fv.subrange(0, j as int).map_values(|f: Frame| f.collision_strength),
        decreases fv.len() - j,
    {
        let f = frame_data[j];
        bike_x.push(f.bike.x);
        bike_y.push(f.bike.y);
        left_x.push(crate::crypt::bits_of_i16_exec(f.left_wheel.x));
        left_y.push(crate::crypt::bits_of_i16_exec(f.left_wheel.y));
        right_x.push(crate::crypt::bits_of_i16_exec(f.right_wheel.x));
        right_y.push(crate::crypt::bits_of_i16_exec(f.right_wheel.y));
        head_x.push(crate::crypt::bits_of_i16_exec(f.head.x));
        head_y.push(crate::crypt::bits_of_i16_exec(f.head.y));
        rotation.push(crate::crypt::bits_of_i16_exec(f.rotation));
        left_rot.push(f.left_wheel_rotation);
        right_rot.push(f.right_wheel_rotation);
        data.push(f.throttle_and_dir);
        back.push(f.back_wheel_rot_speed);
        coll.push(f.collision_strength);
        proof {
            assert(fv.subrange(0, j + 1) =~= fv.subrange(0, j as int).push(fv[j as int]));
        }
        j += 1;
    }
    proof {
        assert(fv.subrange(0, fv.len() as int) =~= fv);
    }
    let mut out: Vec<u8> = Vec::new();
    push_col4(&mut out, &bike_x);
    push_col4(&mut out, &bike_y);
    push_col2(&mut out, &left_x);
    push_col2(&mut out, &left_y);
    push_col2(&mut out, &right_x);
    push_col2(&mut out, &right_y);
    push_col2(&mut out, &head_x);
    push_col2(&mut out, &head_y);
    push_col2(&mut out, &rotation);
    let mut lr = left_rot;
    let mut rr = right_rot;
    let mut dt = data;
    let mut bw = back;
    let mut cs = coll;
    out.append(&mut lr);
    out.append(&mut rr);
    out.append(&mut dt);
    out.append(&mut bw);
    out.append(&mut cs);
    proof {
        reveal(ser_frames);
        assert(out@ =~= ser_frames(fv));
    }
    out
}

/// Function for writing event data: the count, then the records.
fn write_events(event_data: &Vec<Event>) -> (r: Vec<u8>)
    ensures
        r@ == le_u32_of((event_data@.len() % 0x1_0000_0000) as u32) + ser_events(event_data@),
{
    let ghost ev = event_data@;
    let mut out: Vec<u8> = Vec::new();
    let n = event_data.len();
    assert(((n as u64) % 0x1_0000_0000u64) as u32 == (ev.len() % 0x1_0000_0000) as u32);
    push_u32(&mut out, ((n as u64) % 0x1_0000_0000u64) as u32);
    let ghost header = out@;
    let mut i: usize = 0;
    while i < event_data.len()
        invariant
            i <= ev.len(),
            ev == event_data@,
            out@ == header + ser_events(ev.subrange(0, i as int)),
        decreases ev.len() - i,
    {
        let e = event_data[i];
        push_u64(&mut out, e.time);
        let info: i16 = match e.event_type {
            EventType::ObjectTouch(ix) => ix,
            _ => -1,
        };
        push_i16(&mut out, info);
        let code: u8 = match e.event_type {
            EventType::ObjectTouch(_) => 0,
            EventType::Ground(_) => 1,
            EventType::Apple => 4,
            EventType::Turn => 5,
            EventType::VoltRight => 6,
            EventType::VoltLeft => 7,
        };
        out.push(code);
        out.push(0);
        let extra: u32 = match e.event_type {
            EventType::ObjectTouch(_) => 0,
            EventType::Ground(g) => g,
            _ => EVENT_DEFAULT_EXTRA,
        };
        push_u32(&mut out, extra);
        i += 1;
        proof {
            assert(ev.subrange(0, i as int).drop_last() =~= ev.subrange(0, i - 1));
            assert(ev.subrange(0, i as int).last() == ev[i - 1]);
            assert(out@ =~= header + ser_events(ev.subrange(0, i as int)));
        }
    }
    proof {
        assert(ev.subrange(0, ev.len() as int) =~= ev);
    }
    out
}

impl Replay {
    /// Returns replay data as a buffer of bytes: one block per ride, each
    /// carrying the replay's flags, link and level name.
    #[verifier::rlimit(100)]
    #[verifier::spinoff_prover]
    pub fn to_bytes(&self) -> (r: Result<Vec<u8>, ElmaError>)
        ensures
            match r {
                Ok(v) => rec_write_err(self@) is None && v@ == ser_replay(self@),
                Err(e) => rec_write_err(self@) == Some(e),
            },
    {
        let ghost rp = self@;
        let mut out: Vec<u8> = Vec::new();
        let multi = self.rides.len() > 1;
        let mut i: usize = 0;
        proof {
            if rp.rides.len() == 0 {
                assert(ser_rides(rp, 0) =~= Seq::<u8>::empty());
            }
        }
        while i < self.rides.len()
            invariant
                i <= self.rides@.len(),
                rp == self@,
                multi == (self.rides@.len() > 1),
                i > 0 ==> crate::utils::pad_err(rp.level, 12) is None,
                ser_rides(rp, 0) == out@ + ser_rides(rp, i as int),
            decreases self.rides@.len() - i,
        {
            let level_b = match crate::utils::string_null_pad(self.level.as_str(), 12) {
                Ok(v) => v,
                Err(e) => {
                    return Err(e);
                },
            };
            let ghost before = out@;
            let ghost rd = rp.rides[i as int];
            assert(rd == self.rides@[i as int]@);
            let n = self.rides[i].frames.len();
            assert(((n as u64) % 0x1_0000_0000u64) as u32 == (rd.frames.len()
                % 0x1_0000_0000) as u32);
            push_u32(&mut out, ((n as u64) % 0x1_0000_0000u64) as u32);
            push_u32(&mut out, REPLAY_VERSION);
            push_u32(&mut out, if multi { 1 } else { 0 });
            push_u32(&mut out, if self.flag_tag { 1 } else { 0 });
            push_u32(&mut out, self.link);
            let mut lb = level_b;
            out.append(&mut lb);
            push_u32(&mut out, 0);
            let fb0 = write_frames(&self.rides[i].frames);
            let ghost fbv = fb0@;
            let mut fb = fb0;
            out.append(&mut fb);
            let eb0 = write_events(&self.rides[i].events);
            let ghost ebv = eb0@;
            let mut eb = eb0;
            out.append(&mut eb);
            push_i32(&mut out, EOR);
            proof {
                assert(fbv == ser_frames(rd.frames));
                assert(ebv == le_u32_of((rd.events.len() % 0x1_0000_0000) as u32) + ser_events(
                    rd.events,
                ));
                reveal(ser_ride);
                assert(out@ =~= before + ser_ride(
                    rp.rides[i as int],
                    rp.rides.len() > 1,
                    rp.flag_tag,
                    rp.link,
                    rp.level,
                ));
                assert(ser_rides(rp, i as int) == ser_ride(
                    rp.rides[i as int],
                    rp.rides.len() > 1,
                    rp.flag_tag,
                    rp.link,
                    rp.level,
                ) + ser_rides(rp, i + 1));
                assert((before + ser_ride(
                    rp.rides[i as int],
                    rp.rides.len() > 1,
                    rp.flag_tag,
                    rp.link,
                    rp.level,
                )) + ser_rides(rp, i + 1) =~= before + (ser_ride(
                    rp.rides[i as int],
                    rp.rides.len() > 1,
                    rp.flag_tag,
                    rp.link,
                    rp.level,
                ) + ser_rides(rp, i + 1)));
            }
            i += 1;
        }
        proof {
            assert(ser_rides(rp, rp.rides.len() as int) =~= Seq::<u8>::empty());
            assert(out@ + Seq::<u8>::empty() =~= out@);
        }
        Ok(out)
    }
}

} // verus!
