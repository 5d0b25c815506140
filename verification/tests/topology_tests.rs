//! The topology validator: ports of the rule checks, with coordinates
//! written as the bit patterns of their doubles.

use elma::lev::{Level, Object, ObjectType, Picture, Polygon};
use elma::topology::TopologyError;
use elma::Position;

fn pos(x: f64, y: f64) -> Position<u64> {
    Position::new(x.to_bits(), y.to_bits())
}

#[test]
fn topology_ok() {
    let mut level = Level::new();
    // Add multiple exits.
    level.objects.push(Object { position: pos(1.0, 0.0), object_type: ObjectType::Exit });
    level.objects.push(Object { position: pos(2.0, 0.0), object_type: ObjectType::Exit });
    // Add exact allowed dimensions.
    level.polygons = vec![Polygon {
        grass: false,
        vertices: vec![
            pos(0.0, 188.0),
            pos(188.0, 188.0),
            pos(188.0, 0.0),
            pos(0.0, 0.0),
        ],
    }];
    assert_eq!(level.check_topology().is_ok(), true);
}

#[test]
fn topology_err_too_wide() {
    let mut level = Level::new();
    level.polygons.push(Polygon {
        grass: false,
        vertices: vec![
            pos(0.0, 0.0),
            pos(188.0000000000001, 0.0),
            pos(0.0, 1.0),
        ],
    });
    assert_eq!(
        level.check_topology().unwrap_err(),
        TopologyError::TooWide(0.00000000000011368683772161603_f64.to_bits())
    );
}

#[test]
fn topology_err_too_high() {
    let mut level = Level::new();
    level.polygons.push(Polygon {
        grass: false,
        vertices: vec![
            pos(0.0, 0.0),
            pos(0.0, 188.0000000000001),
            pos(1.0, 0.0),
        ],
    });
    assert_eq!(
        level.check_topology().unwrap_err(),
        TopologyError::TooHigh(0.00000000000011368683772161603_f64.to_bits())
    );
}

#[test]
fn topology_missing_exit() {
    let mut level = Level::new();
    level.objects = vec![Object { position: pos(0.0, 0.0), object_type: ObjectType::Player }];
    assert_eq!(level.check_topology().unwrap_err(), TopologyError::MissingExit);
}

#[test]
fn topology_err_too_many_players() {
    let mut level = Level::new();
    level.objects = vec![
        Object { position: pos(0.0, 0.0), object_type: ObjectType::Player },
        Object { position: pos(0.0, 0.0), object_type: ObjectType::Player },
    ];
    assert_eq!(
        level.check_topology().unwrap_err(),
        TopologyError::InvalidPlayerCount(2)
    );
}

#[test]
fn topology_err_missing_player() {
    let mut level = Level::new();
    level.objects = vec![Object { position: pos(0.0, 0.0), object_type: ObjectType::Exit }];
    assert_eq!(
        level.check_topology().unwrap_err(),
        TopologyError::InvalidPlayerCount(0)
    );
}

#[test]
fn topology_err_polygon_count() {
    let mut level = Level::new();
    for _ in 0..1005 {
        level.polygons.push(Polygon::new());
    }
    assert_eq!(level.check_topology().unwrap_err(), TopologyError::MaxPolygons(6));
}

#[test]
fn topology_err_object_count() {
    let mut level = Level::new();
    for _ in 0..255 {
        level.objects.push(Object::new());
    }
    assert_eq!(level.check_topology().unwrap_err(), TopologyError::MaxObjects(5));
}

#[test]
fn topology_err_picture_count() {
    let mut level = Level::new();
    for _ in 0..5005 {
        level.pictures.push(Picture::new());
    }
    assert_eq!(level.check_topology().unwrap_err(), TopologyError::MaxPictures(5));
}

#[test]
fn topology_err_invalid_vertex_count() {
    let mut level = Level::new();
    // Add three polygons, two with less than three vertices, with one valid
    // in between.
    level.polygons.push(Polygon {
        grass: false,
        vertices: vec![pos(1.0, 12.0), pos(138.0, 118.0)],
    });
    level.polygons.push(Polygon {
        grass: false,
        vertices: vec![pos(1.0, 12.0), pos(138.0, 118.0), pos(18.0, 28.0)],
    });
    level.polygons.push(Polygon {
        grass: false,
        vertices: vec![pos(12.0, 32.0), pos(7.0, 83.0)],
    });
    assert_eq!(
        level.check_topology().unwrap_err(),
        TopologyError::InvalidVertexCount(vec![1, 3])
    );
}
