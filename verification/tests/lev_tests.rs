//! Level codec round trips, marker rejection and the format's errors.

use elma::lev::{GravityDirection, Level, Object, ObjectType, Picture, Polygon, Top10Save};
use elma::{Clip, ElmaError, Position, TimeEntry};

fn pos(x: f64, y: f64) -> Position<u64> {
    Position::new(x.to_bits(), y.to_bits())
}

/// Builds the level of the format's reference scenario: link 1524269776,
/// name "Rust test", two polygons (one grass), eight objects and a
/// ten-entry single-player list headed by ("Rust", "Cargo", 201).
fn reference_level() -> Level {
    let mut level = Level::new();
    level.link = 1524269776;
    level.name = String::from("Rust test");
    level.polygons = vec![
        Polygon {
            grass: false,
            vertices: vec![
                pos(-23.993693053024586, 3.135779367971911),
                pos(-15.989070625361132, 3.135779367971911),
                pos(-15.989070625361132, -1.995755366905195),
                pos(-24.0, -2.0),
            ],
        },
        Polygon {
            grass: true,
            vertices: vec![
                pos(-23.83645939819548, -2.310222676563402),
                pos(-17.60428907951465, -2.2816347393217473),
                pos(-17.53281923641051, -1.8956975865594021),
                pos(-23.96510511578293, -1.924285523801057),
            ],
        },
    ];
    level.objects = vec![
        Object {
            position: pos(-23.221818747499896, 1.3204453531268072),
            object_type: ObjectType::Killer,
        },
        Object {
            position: pos(-20.37252715482359, 0.3124543521844827),
            object_type: ObjectType::Apple { gravity: GravityDirection::Normal, animation: 9 },
        },
        Object {
            position: pos(-20.3914786548306, -0.5277288147929609),
            object_type: ObjectType::Apple { gravity: GravityDirection::Up, animation: 1 },
        },
        Object {
            position: pos(-19.526026821177144, -0.36348248139887396),
            object_type: ObjectType::Apple { gravity: GravityDirection::Right, animation: 5 },
        },
        Object {
            position: pos(-21.269564821822065, -0.38243398140588436),
            object_type: ObjectType::Apple { gravity: GravityDirection::Left, animation: 1 },
        },
        Object {
            position: pos(-19.55761265452216, 0.4387976855645497),
            object_type: ObjectType::Apple { gravity: GravityDirection::Up, animation: 1 },
        },
        Object {
            position: pos(-20.075620321380434, 1.2473950191969765),
            object_type: ObjectType::Exit,
        },
        Object {
            position: pos(-22.94993115577695, -1.5068896484884773),
            object_type: ObjectType::Player,
        },
    ];
    level.pictures = vec![
        Picture {
            name: String::from("barrel"),
            texture: String::new(),
            mask: String::new(),
            position: pos(-19.37674118849727, -0.895119783101471),
            distance: 380,
            clip: Clip::Sky,
        },
        Picture {
            name: String::new(),
            texture: String::from("stone1"),
            mask: String::from("maskbig"),
            position: pos(-24.465394017511894, 3.964829547979911),
            distance: 750,
            clip: Clip::Sky,
        },
    ];
    let mut single = vec![];
    single.push(TimeEntry::new(("Rust", "Cargo"), 201));
    single.push(TimeEntry::new(("Cargo", "Rust"), 203));
    single.push(TimeEntry::new(("Cargo", "Rust"), 206));
    for t in [208, 215, 230, 240, 250, 290] {
        single.push(TimeEntry::new(("Rust", "Cargo"), t));
    }
    single.push(TimeEntry::new(("Rust", "Cargo"), 308));
    level.best_times.single = single;
    level
}

#[test]
/// The reference scenario's values survive an encode and decode.
fn load_valid_level_1() {
    let level = reference_level();
    let bytes = level.to_bytes(Top10Save::Yes).unwrap();
    let loaded = Level::from_bytes(&bytes).unwrap();
    assert_eq!(loaded.link, 1524269776);
    assert_eq!(loaded.name, "Rust test");
    assert_eq!(loaded.lgr, "default");
    assert_eq!(loaded.ground, "ground");
    assert_eq!(loaded.sky, "sky");
    assert_eq!(loaded.polygons.len(), 2);
    assert_eq!(loaded.polygons, level.polygons);
    assert_eq!(loaded.polygons[1].grass, true);
    assert_eq!(
        f64::from_bits(loaded.polygons[0].vertices[0].x),
        -23.993693053024586
    );
    assert_eq!(loaded.objects.len(), 8);
    assert_eq!(loaded.objects, level.objects);
    assert_eq!(loaded.pictures.len(), 2);
    assert_eq!(loaded.pictures, level.pictures);
    assert_eq!(loaded.best_times.single.len(), 10);
    assert_eq!(loaded.best_times.single[0], TimeEntry::new(("Rust", "Cargo"), 201));
    assert_eq!(loaded.best_times.single[2], TimeEntry::new(("Cargo", "Rust"), 206));
    assert_eq!(loaded.best_times.single[9], TimeEntry::new(("Rust", "Cargo"), 308));
}

#[test]
/// Test top10 saving when lists are longer than ten entries, and whether
/// they get sorted.
fn overflow_top10_and_sort() {
    let mut level = Level::new();
    let mut top10_single = vec![];
    for t in [2221, 231, 1221, 10221, 2321, 22211, 2201, 5, 5121, 918, 17, 8172] {
        top10_single.push(TimeEntry::new(("test_p1", "test_p2"), t));
    }
    let mut top10_multi = vec![];
    for t in [2221, 231, 2321, 22211, 918, 17, 8172] {
        top10_multi.push(TimeEntry::new(("test_p1", "test_p2"), t));
    }
    level.best_times.single = top10_single;
    level.best_times.multi = top10_multi;
    let bytes = level.to_bytes(Top10Save::Yes).unwrap();
    let level = Level::from_bytes(&bytes).unwrap();
    let expected_single: Vec<TimeEntry> = [5, 17, 231, 918, 1221, 2201, 2221, 2321, 5121, 8172]
        .iter()
        .map(|&t| TimeEntry::new(("test_p1", "test_p2"), t))
        .collect();
    let expected_multi: Vec<TimeEntry> = [17, 231, 918, 2221, 2321, 8172, 22211]
        .iter()
        .map(|&t| TimeEntry::new(("test_p1", "test_p2"), t))
        .collect();
    assert_eq!(level.best_times.single, expected_single);
    assert_eq!(level.best_times.multi, expected_multi);
}

#[test]
/// Until the legacy version is supported, encoding such a level errors.
fn save_across_level_1() {
    let mut level = Level::new();
    level.version = elma::Version::Across;
    assert_eq!(level.to_bytes(Top10Save::No).unwrap_err(), ElmaError::AcrossUnsupported);
}

#[test]
/// A buffer with the legacy version tag is rejected as unsupported.
fn load_across_level_1() {
    let mut bytes = reference_level().to_bytes(Top10Save::No).unwrap();
    bytes[3] = 48;
    bytes[4] = 54;
    assert_eq!(Level::from_bytes(&bytes).unwrap_err(), ElmaError::AcrossUnsupported);
}

#[test]
/// A buffer with a garbled version tag is no level file.
fn load_invalid_level_1() {
    let bytes = vec![0u8, 1, 2];
    assert_eq!(Level::from_bytes(&bytes).unwrap_err(), ElmaError::InvalidLevelFile);
}

#[test]
/// An out-of-range gravity code is rejected with its value.
fn load_invalid_gravity_level_1() {
    let mut level = Level::new();
    level.best_times.single.clear();
    let bytes = level.to_bytes(Top10Save::No).unwrap();
    // The first object record: position 16 bytes, type, gravity, animation.
    // Object records start after the polygon section; find the object count
    // sentinel by reconstructing the layout: 130 header bytes, 8 count, one
    // polygon with 4 vertices = 8 + 64 bytes, then 8 object-count bytes.
    let obj0 = 130 + 8 + 72 + 8;
    let mut broken = bytes.clone();
    broken[obj0 + 20] = 6;
    assert_eq!(Level::from_bytes(&broken).unwrap_err(), ElmaError::InvalidGravity(6));
    let mut broken2 = bytes.clone();
    broken2[obj0 + 16] = 6;
    assert_eq!(Level::from_bytes(&broken2).unwrap_err(), ElmaError::InvalidObject(6));
}

#[test]
/// An out-of-range clipping code is rejected with its value.
fn load_invalid_clip_level_1() {
    let mut level = Level::new();
    level.best_times.single.clear();
    level.pictures.push(Picture::new());
    let bytes = level.to_bytes(Top10Save::No).unwrap();
    let pic0 = 130 + 8 + 72 + 8 + 2 * 28 + 8;
    let mut broken = bytes.clone();
    broken[pic0 + 50] = 3;
    assert_eq!(Level::from_bytes(&broken).unwrap_err(), ElmaError::InvalidClipping(3));
}

#[test]
/// Flipping any single byte of the end-of-data marker breaks the decode
/// with exactly the marker-mismatch error, and likewise for the
/// end-of-file marker.
fn marker_mismatch_rejected() {
    let level = reference_level();
    let bytes = level.to_bytes(Top10Save::Yes).unwrap();
    assert!(Level::from_bytes(&bytes).is_ok());
    let eof_at = bytes.len() - 4;
    let eod_at = eof_at - 688 - 4;
    for j in 0..4 {
        for flip in 1..=255u8 {
            if flip == 0x80 && j == 3 {
                continue;
            }
            let mut broken = bytes.clone();
            broken[eod_at + j] ^= flip;
            assert_eq!(
                Level::from_bytes(&broken).unwrap_err(),
                ElmaError::EODMismatch,
                "byte {j} flip {flip}"
            );
            let mut broken2 = bytes.clone();
            broken2[eof_at + j] ^= flip;
            assert_eq!(
                Level::from_bytes(&broken2).unwrap_err(),
                ElmaError::EOFMismatch,
                "byte {j} flip {flip}"
            );
        }
    }
}

#[test]
/// Encoding with Top10Save::No stores an empty, still ciphered, region.
fn save_without_top10_clears_times() {
    let level = reference_level();
    let bytes = level.to_bytes(Top10Save::No).unwrap();
    let loaded = Level::from_bytes(&bytes).unwrap();
    assert_eq!(loaded.best_times.single.len(), 0);
    assert_eq!(loaded.best_times.multi.len(), 0);
    assert_eq!(loaded.polygons, level.polygons);
    assert_eq!(loaded.objects, level.objects);
}

#[test]
/// A fresh level passes its own encode-decode round trip.
fn construct_level_and_save() {
    let mut level = Level::new();
    level.objects.push(Object {
        position: pos(0.0, 0.0),
        object_type: ObjectType::Apple { gravity: GravityDirection::Down, animation: 1 },
    });
    level.pictures.push(Picture::new());
    level.best_times.single.push(TimeEntry::new(("", ""), 100000));
    level.generate_link();
    let bytes = level.to_bytes(Top10Save::Yes).unwrap();
    let loaded = Level::from_bytes(&bytes).unwrap();
    assert_eq!(loaded.link, level.link);
    assert_eq!(loaded.objects, level.objects);
    assert_eq!(loaded.pictures, level.pictures);
}

#[test]
/// A name longer than its field fails the encode with the shortfall.
fn overlong_name_rejected() {
    let mut level = Level::new();
    level.ground = String::from("averylongtexturename");
    assert_eq!(
        level.to_bytes(Top10Save::No).unwrap_err(),
        ElmaError::PaddingTooShort(-10)
    );
    let mut level2 = Level::new();
    level2.sky = String::from("\u{2717}\u{2717}");
    assert_eq!(level2.to_bytes(Top10Save::No).unwrap_err(), ElmaError::NonASCII);
}
