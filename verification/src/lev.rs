//! The level file codec: geometry polygons, gameplay objects, decorative
//! pictures and two embedded best-times lists, all at fixed offsets, with
//! element counts stored as sentinel doubles and the best-times region
//! ciphered. Coordinates and integrity sums are carried as the bit patterns
//! of their stored doubles, which keeps every field byte-exact.

use vstd::prelude::*;

use crate::bytes::{
    bits_of_i32, i32_of_bits, le_u16_of, le_u32_at, le_u32_of, le_u64_at, le_u64_of, push_i32,
    push_u16, push_u32, push_u64, read_i32, read_u32, read_u64,
};
use crate::crypt::{crypt_range, crypt_top10, crypt_top10_seq, TOP10_SIZE};
use crate::fp::{count_of_bits, count_to_bits, sentinel_ok};
use vstd::arithmetic::power2::pow2;
use crate::shared::{clip_code, Clip, EntryData, Position, TimeEntry, Version};
use crate::utils::{
    pad_err, pad_name, parse_top10, parse_top10_block, ser_top10_block, top10_count_ok,
    top10_write_err, trim_field, trim_string,
};
use crate::ElmaError;

verus! {

/// End-of-data marker of a level file.
pub const EOD: i32 = 0x0067_103A;

/// End-of-file marker of a level file.
pub const EOF_MARKER: i32 = 0x0084_5D52;

/// Mantissa of the polygon and object count sentinel constant, over `2^54`.
pub const POLY_SENTINEL_M: u64 = 8365243553776645;

/// Mantissa of the picture count sentinel constant, over `2^55`.
pub const PIC_SENTINEL_M: u64 = 8451174036106725;

/// Top10 save option.
#[derive(Copy, Clone, Debug, PartialEq)]
pub enum Top10Save {
    /// Yes. Will save best times into the file's top10 list.
    Yes,
    /// No. Will give an empty top10 best times list in level file.
    No,
}

/// Apple direction object.
#[derive(Debug, PartialEq, Clone, Copy)]
pub enum GravityDirection {
    /// No gravity change.
    Normal,
    /// Gravity up.
    Up,
    /// Gravity down.
    Down,
    /// Gravity left.
    Left,
    /// Gravity right.
    Right,
}

impl Default for GravityDirection {
    /// The default gravity leaves gravity unchanged.
    fn default() -> (r: GravityDirection)
        ensures
            r == GravityDirection::Normal,
    {
        GravityDirection::Normal
    }
}

/// Type of object.
#[derive(Debug, PartialEq, Clone, Copy)]
pub enum ObjectType {
    /// Apple.
    Apple {
        /// Gravity change.
        gravity: GravityDirection,
        /// Animation number.
        animation: i32,
    },
    /// Flower/exit.
    Exit,
    /// Killer.
    Killer,
    /// Player/start.
    Player,
}

impl Default for ObjectType {
    /// The default object is a still apple with the first animation.
    fn default() -> (r: ObjectType)
        ensures
            r == (ObjectType::Apple { gravity: GravityDirection::Normal, animation: 1 }),
    {
        ObjectType::Apple { gravity: GravityDirection::Normal, animation: 1 }
    }
}

/// The stored code of an object's type.
pub open spec fn object_code(k: ObjectType) -> i32 {
    match k {
        ObjectType::Exit => 1,
        ObjectType::Apple { .. } => 2,
        ObjectType::Killer => 3,
        ObjectType::Player => 4,
    }
}

/// The stored code of an apple's gravity; zero for every other object.
pub open spec fn gravity_code(k: ObjectType) -> i32 {
    match k {
        ObjectType::Apple { gravity: GravityDirection::Up, .. } => 1,
        ObjectType::Apple { gravity: GravityDirection::Down, .. } => 2,
        ObjectType::Apple { gravity: GravityDirection::Left, .. } => 3,
        ObjectType::Apple { gravity: GravityDirection::Right, .. } => 4,
        _ => 0,
    }
}

/// The stored animation field of an apple: the animation number less one;
/// zero for every other object.
pub open spec fn animation_code(k: ObjectType) -> i32 {
    match k {
        ObjectType::Apple { animation: n, .. } => vstd::wrapping::i32_specs::wrapping_sub(n, 1),
        _ => 0,
    }
}

/// Object struct. Every level requires one `ObjectType::Player` Object and
/// at least one `ObjectType::Exit` Object.
#[derive(Debug, Default, PartialEq, Clone, Copy)]
pub struct Object {
    /// Position, as stored double bit patterns.
    pub position: Position<u64>,
    /// Type of Object.
    pub object_type: ObjectType,
}

impl Object {
    /// Create a new `Object`: a still apple at the origin.
    pub fn new() -> (r: Self)
        ensures
            r == (Object {
                position: Position { x: 0u64, y: 0u64 },
                object_type: ObjectType::Apple { gravity: GravityDirection::Normal, animation: 1 },
            }),
    {
        Object {
            position: Position { x: 0, y: 0 },
            object_type: ObjectType::Apple { gravity: GravityDirection::Normal, animation: 1 },
        }
    }
}

/// The model of a polygon: the grass flag and the vertex coordinates.
pub ghost struct PolygonData {
    /// Grass polygon.
    pub grass: bool,
    /// Vertex coordinates, each a pair of stored double bit patterns.
    pub vertices: Seq<Position<u64>>,
}

/// Polygon struct.
#[derive(Debug, Default, PartialEq, Clone)]
pub struct Polygon {
    /// Grass polygon.
    pub grass: bool,
    /// All vertices, as stored double bit patterns.
    pub vertices: Vec<Position<u64>>,
}

impl View for Polygon {
    type V = PolygonData;

    open spec fn view(&self) -> PolygonData {
        PolygonData { grass: self.grass, vertices: self.vertices@ }
    }
}

impl Polygon {
    /// Create a new empty polygon.
    pub fn new() -> (r: Self)
        ensures
            r@.grass == false,
            r@.vertices == Seq::<Position<u64>>::empty(),
    {
        let r = Polygon { grass: false, vertices: Vec::new() };
        assert(r@.vertices =~= Seq::<Position<u64>>::empty());
        r
    }
}

/// The model of a picture: names, position and clipping.
pub ghost struct PicData {
    /// Picture name.
    pub name: Seq<char>,
    /// Texture name.
    pub texture: Seq<char>,
    /// Mask name.
    pub mask: Seq<char>,
    /// Position, as stored double bit patterns.
    pub position: Position<u64>,
    /// Z-distance.
    pub distance: i32,
    /// Clipping.
    pub clip: Clip,
}

/// Picture struct.
#[derive(Debug, Default, PartialEq, Clone)]
pub struct Picture {
    /// Picture name.
    pub name: String,
    /// Texture name.
    pub texture: String,
    /// Mask name.
    pub mask: String,
    /// Position, as stored double bit patterns.
    pub position: Position<u64>,
    /// Z-distance.
    pub distance: i32,
    /// Clipping.
    pub clip: Clip,
}

impl View for Picture {
    type V = PicData;

    open spec fn view(&self) -> PicData {
        PicData {
            name: self.name@,
            texture: self.texture@,
            mask: self.mask@,
            position: self.position,
            distance: self.distance,
            clip: self.clip,
        }
    }
}

impl Picture {
    /// Creates a new picture with default values: a barrel in the sky.
    pub fn new() -> (r: Self)
        ensures
            r@.name == "barrel"@,
            r@.texture == ""@,
            r@.mask == ""@,
            r@.position == (Position { x: 0u64, y: 0u64 }),
            r@.distance == 600,
            r@.clip == Clip::Sky,
    {
        Picture {
            name: "barrel".to_owned(),
            texture: "".to_owned(),
            mask: "".to_owned(),
            position: Position { x: 0, y: 0 },
            distance: 600,
            clip: Clip::Sky,
        }
    }
}

/// The model of an object: position bit patterns and kind.
pub ghost struct ObjectData {
    /// Position, as stored double bit patterns.
    pub position: Position<u64>,
    /// Type of object.
    pub object_type: ObjectType,
}

impl View for Object {
    type V = ObjectData;

    open spec fn view(&self) -> ObjectData {
        ObjectData { position: self.position, object_type: self.object_type }
    }
}

/// The model of a whole level: every persisted field.
pub ghost struct LevelData {
    /// Elma or Across level.
    pub version: Version,
    /// Random number that links level file to replay files.
    pub link: u32,
    /// The four stored integrity checks, as double bit patterns.
    pub integrity: Seq<u64>,
    /// Level name.
    pub name: Seq<char>,
    /// LGR file name.
    pub lgr: Seq<char>,
    /// Ground texture name.
    pub ground: Seq<char>,
    /// Sky texture name.
    pub sky: Seq<char>,
    /// All polygons.
    pub polygons: Seq<PolygonData>,
    /// All objects.
    pub objects: Seq<ObjectData>,
    /// All pictures.
    pub pictures: Seq<PicData>,
    /// Single-player best times.
    pub single: Seq<EntryData>,
    /// Multi-player best times.
    pub multi: Seq<EntryData>,
}

/// Level struct that contains all level information.
#[derive(Debug, PartialEq)]
pub struct Level {
    /// Elma or Across level.
    pub version: Version,
    /// Random number that links level file to replay files.
    pub link: u32,
    /// Contains four integrity checks, as stored double bit patterns.
    pub integrity: [u64; 4],
    /// Level name.
    pub name: String,
    /// LGR file name.
    pub lgr: String,
    /// Ground texture name.
    pub ground: String,
    /// Sky texture name.
    pub sky: String,
    /// All polygons.
    pub polygons: Vec<Polygon>,
    /// All objects.
    pub objects: Vec<Object>,
    /// All pictures.
    pub pictures: Vec<Picture>,
    /// Best times lists.
    pub best_times: crate::BestTimes,
    /// Level file name, where the level was read from or saved to a file.
    pub filename: Option<String>,
}

impl View for Level {
    type V = LevelData;

    open spec fn view(&self) -> LevelData {
        LevelData {
            version: self.version,
            link: self.link,
            integrity: self.integrity@,
            name: self.name@,
            lgr: self.lgr@,
            ground: self.ground@,
            sky: self.sky@,
            polygons: self.polygons@.map_values(|p: Polygon| p@),
            objects: self.objects@.map_values(|o: Object| o@),
            pictures: self.pictures@.map_values(|p: Picture| p@),
            single: self.best_times.single@.map_values(|e: TimeEntry| e@),
            multi: self.best_times.multi@.map_values(|e: TimeEntry| e@),
        }
    }
}

// ---------------------------------------------------------------------------
// The specification parser: what each byte sequence decodes to.
// ---------------------------------------------------------------------------

/// Parses `n` polygons starting at `pos`: each an i32 grass flag, an i32
/// vertex count, then that many coordinate pairs. A negative vertex count
/// reads no vertices. Returns the polygons and the position after them.
pub open spec fn parse_polygons_s(b: Seq<u8>, pos: int, n: int) -> Result<
    (Seq<PolygonData>, int),
    ElmaError,
>
    decreases n,
{
    if n <= 0 {
        Ok((Seq::<PolygonData>::empty(), pos))
    } else if pos + 8 > b.len() {
        Err(ElmaError::InvalidLevelFile)
    } else {
        let grass = i32_of_bits(le_u32_at(b, pos)) > 0;
        let nv = i32_of_bits(le_u32_at(b, pos + 4));
        let k: int = if nv > 0 {
            nv as int
        } else {
            0
        };
        if pos + 8 + 16 * k > b.len() {
            Err(ElmaError::InvalidLevelFile)
        } else {
            let verts = Seq::new(
                k as nat,
                |i: int|
                    Position {
                        x: le_u64_at(b, pos + 8 + 16 * i),
                        y: le_u64_at(b, pos + 8 + 16 * i + 8),
                    },
            );
            match parse_polygons_s(b, pos + 8 + 16 * k, n - 1) {
                Err(e) => Err(e),
                Ok((rest, end)) => Ok(
                    (seq![PolygonData { grass: grass, vertices: verts }] + rest, end),
                ),
            }
        }
    }
}

/// The object decoded from the 28-byte record at `pos`: position, then the
/// type code with the gravity code checked first, which is the order the
/// format validates them in.
pub open spec fn parse_object_s(b: Seq<u8>, pos: int) -> Result<ObjectData, ElmaError> {
    let x = le_u64_at(b, pos);
    let y = le_u64_at(b, pos + 8);
    let type_code = i32_of_bits(le_u32_at(b, pos + 16));
    let gravity_c = i32_of_bits(le_u32_at(b, pos + 20));
    let animation = i32_of_bits(le_u32_at(b, pos + 24));
    if !(0 <= gravity_c <= 4) {
        Err(ElmaError::InvalidGravity(gravity_c))
    } else {
        let gravity = if gravity_c == 0 {
            GravityDirection::Normal
        } else if gravity_c == 1 {
            GravityDirection::Up
        } else if gravity_c == 2 {
            GravityDirection::Down
        } else if gravity_c == 3 {
            GravityDirection::Left
        } else {
            GravityDirection::Right
        };
        if type_code == 1 {
            Ok(ObjectData { position: Position { x, y }, object_type: ObjectType::Exit })
        } else if type_code == 2 {
            if animation == i32::MAX {
                Err(ElmaError::InvalidObject(type_code))
            } else {
                Ok(
                    ObjectData {
                        position: Position { x, y },
                        object_type: ObjectType::Apple {
                            gravity,
                            animation: (animation + 1) as i32,
                        },
                    },
                )
            }
        } else if type_code == 3 {
            Ok(ObjectData { position: Position { x, y }, object_type: ObjectType::Killer })
        } else if type_code == 4 {
            Ok(ObjectData { position: Position { x, y }, object_type: ObjectType::Player })
        } else {
            Err(ElmaError::InvalidObject(type_code))
        }
    }
}

/// Parses `n` 28-byte object records starting at `pos`.
pub open spec fn parse_objects_s(b: Seq<u8>, pos: int, n: int) -> Result<Seq<ObjectData>, ElmaError>
    decreases n,
{
    if n <= 0 {
        Ok(Seq::<ObjectData>::empty())
    } else {
        match parse_object_s(b, pos) {
            Err(e) => Err(e),
            Ok(o) => match parse_objects_s(b, pos + 28, n - 1) {
                Err(e) => Err(e),
                Ok(rest) => Ok(seq![o] + rest),
            },
        }
    }
}

/// The picture decoded from the 54-byte record at `pos`: three 10-byte
/// names, the position, the distance and the clipping code.
pub open spec fn parse_picture_s(b: Seq<u8>, pos: int) -> Result<PicData, ElmaError> {
    match trim_field(b, pos, 10) {
        Err(e) => Err(e),
        Ok(name) => match trim_field(b, pos + 10, 10) {
            Err(e) => Err(e),
            Ok(texture) => match trim_field(b, pos + 20, 10) {
                Err(e) => Err(e),
                Ok(mask) => {
                    let x = le_u64_at(b, pos + 30);
                    let y = le_u64_at(b, pos + 38);
                    let distance = i32_of_bits(le_u32_at(b, pos + 46));
                    let clip_c = i32_of_bits(le_u32_at(b, pos + 50));
                    if clip_c == 0 {
                        Ok(
                            PicData {
                                name,
                                texture,
                                mask,
                                position: Position { x, y },
                                distance,
                                clip: Clip::Unclipped,
                            },
                        )
                    } else if clip_c == 1 {
                        Ok(
                            PicData {
                                name,
                                texture,
                                mask,
                                position: Position { x, y },
                                distance,
                                clip: Clip::Ground,
                            },
                        )
                    } else if clip_c == 2 {
                        Ok(
                            PicData {
                                name,
                                texture,
                                mask,
                                position: Position { x, y },
                                distance,
                                clip: Clip::Sky,
                            },
                        )
                    } else {
                        Err(ElmaError::InvalidClipping(clip_c))
                    }
                },
            },
        },
    }
}

/// Parses `n` 54-byte picture records starting at `pos`.
pub open spec fn parse_pictures_s(b: Seq<u8>, pos: int, n: int) -> Result<Seq<PicData>, ElmaError>
    decreases n,
{
    if n <= 0 {
        Ok(Seq::<PicData>::empty())
    } else {
        match parse_picture_s(b, pos) {
            Err(e) => Err(e),
            Ok(p) => match parse_pictures_s(b, pos + 28 + 26, n - 1) {
                Err(e) => Err(e),
                Ok(rest) => Ok(seq![p] + rest),
            },
        }
    }
}

/// The five version-tag bytes of the supported game version.
pub open spec fn elma_tag() -> Seq<u8> {
    seq![80u8, 79u8, 84u8, 49u8, 52u8]
}

/// The five version-tag bytes of the rejected legacy version.
pub open spec fn across_tag() -> Seq<u8> {
    seq![80u8, 79u8, 84u8, 48u8, 54u8]
}

/// The one best-times region of a level: the 688 ciphered bytes starting at
/// `pos` decrypt to two 344-byte blocks.
pub open spec fn parse_level_top10_s(b: Seq<u8>, pos: int) -> Result<
    (Seq<EntryData>, Seq<EntryData>),
    ElmaError,
> {
    let plain = crypt_top10_seq(b.subrange(pos, pos + 688));
    let half_a = plain.subrange(0, 344);
    let half_b = plain.subrange(344, 688);
    if !top10_count_ok(half_a, 0) {
        Err(ElmaError::InvalidLevelFile)
    } else {
        match parse_top10_block(half_a, 0) {
            Err(e) => Err(e),
            Ok(single) => {
                if !top10_count_ok(half_b, 0) {
                    Err(ElmaError::InvalidLevelFile)
                } else {
                    match parse_top10_block(half_b, 0) {
                        Err(e) => Err(e),
                        Ok(multi) => Ok((single, multi)),
                    }
                }
            },
        }
    }
}

/// What a level file's bytes decode to: the level, or the first error of
/// the parse. Short input is a level-file format error; the version tag,
/// the element sections, the end-of-data marker, the best-times region and
/// the end-of-file marker follow each other at the stated offsets.
pub open spec fn parse_level_s(b: Seq<u8>) -> Result<LevelData, ElmaError> {
    if b.len() < 130 {
        if b.len() >= 5 && b.subrange(0, 5) == across_tag() {
            Err(ElmaError::AcrossUnsupported)
        } else {
            Err(ElmaError::InvalidLevelFile)
        }
    } else if b.subrange(0, 5) == across_tag() {
        Err(ElmaError::AcrossUnsupported)
    } else if b.subrange(0, 5) != elma_tag() {
        Err(ElmaError::InvalidLevelFile)
    } else {
        let link = le_u32_at(b, 7);
        let integrity = Seq::new(4, |i: int| le_u64_at(b, 11 + 8 * i));
        match trim_field(b, 43, 51) {
            Err(e) => Err(e),
            Ok(name) => match trim_field(b, 94, 16) {
                Err(e) => Err(e),
                Ok(lgr) => match trim_field(b, 110, 10) {
                    Err(e) => Err(e),
                    Ok(ground) => match trim_field(b, 120, 10) {
                        Err(e) => Err(e),
                        Ok(sky) => parse_level_body(
                            b,
                            LevelData {
                                version: Version::Elma,
                                link,
                                integrity,
                                name,
                                lgr,
                                ground,
                                sky,
                                polygons: Seq::<PolygonData>::empty(),
                                objects: Seq::<ObjectData>::empty(),
                                pictures: Seq::<PicData>::empty(),
                                single: Seq::<EntryData>::empty(),
                                multi: Seq::<EntryData>::empty(),
                            },
                        ),
                    },
                },
            },
        }
    }
}

/// The polygon section: the sentinel count at offset 130, then the
/// polygons from offset 138.
pub open spec fn parse_poly_section(b: Seq<u8>) -> Result<(Seq<PolygonData>, int), ElmaError> {
    if 130 + 8 > b.len() {
        Err(ElmaError::InvalidLevelFile)
    } else {
        parse_polygons_s(b, 138, count_of_bits(le_u64_at(b, 130), POLY_SENTINEL_M, 54) as int)
    }
}

/// The object section at `pos`: a sentinel count, a whole-section length
/// check, then the 28-byte records.
pub open spec fn parse_obj_section(b: Seq<u8>, pos: int) -> Result<
    (Seq<ObjectData>, int),
    ElmaError,
> {
    if pos + 8 > b.len() {
        Err(ElmaError::InvalidLevelFile)
    } else {
        let n = count_of_bits(le_u64_at(b, pos), POLY_SENTINEL_M, 54) as int;
        if pos + 8 + 28 * n > b.len() {
            Err(ElmaError::InvalidLevelFile)
        } else {
            match parse_objects_s(b, pos + 8, n) {
                Err(e) => Err(e),
                Ok(objs) => Ok((objs, pos + 8 + 28 * n)),
            }
        }
    }
}

/// The picture section at `pos`: a sentinel count, a whole-section length
/// check, then the 54-byte records.
pub open spec fn parse_pic_section(b: Seq<u8>, pos: int) -> Result<(Seq<PicData>, int), ElmaError> {
    if pos + 8 > b.len() {
        Err(ElmaError::InvalidLevelFile)
    } else {
        let n = count_of_bits(le_u64_at(b, pos), PIC_SENTINEL_M, 55) as int;
        if pos + 8 + 54 * n > b.len() {
            Err(ElmaError::InvalidLevelFile)
        } else {
            match parse_pictures_s(b, pos + 8, n) {
                Err(e) => Err(e),
                Ok(pics) => Ok((pics, pos + 8 + 54 * n)),
            }
        }
    }
}

/// The element sections of a level file: polygons, objects and pictures,
/// each preceded by its sentinel count, then the markers and the ciphered
/// best-times region.
pub open spec fn parse_level_body(b: Seq<u8>, head: LevelData) -> Result<LevelData, ElmaError> {
    match parse_poly_section(b) {
        Err(e) => Err(e),
        Ok((polygons, opos)) => match parse_obj_section(b, opos) {
            Err(e) => Err(e),
            Ok((objects, ppos)) => match parse_pic_section(b, ppos) {
                Err(e) => Err(e),
                Ok((pictures, tpos)) => parse_level_tail(
                    b,
                    LevelData { polygons, objects, pictures, ..head },
                    tpos,
                ),
            },
        },
    }
}

/// The two sentinel constants of the level format are well formed.
pub proof fn lemma_sentinels()
    ensures
        sentinel_ok(POLY_SENTINEL_M, 54),
        sentinel_ok(PIC_SENTINEL_M, 55),
{
    vstd::arithmetic::power2::lemma2_to64_rest();
}

/// How the body parse combines its sections, stated once so that the
/// executable parser need not unfold the whole body at every exit.
proof fn lemma_body_poly_err(b: Seq<u8>, head: LevelData, e: ElmaError)
    requires
        parse_poly_section(b) == Err::<(Seq<PolygonData>, int), ElmaError>(e),
    ensures
        parse_level_body(b, head) == Err::<LevelData, ElmaError>(e),
{
}

proof fn lemma_body_obj_err(
    b: Seq<u8>,
    head: LevelData,
    polys: Seq<PolygonData>,
    opos: int,
    e: ElmaError,
)
    requires
        parse_poly_section(b) == Ok::<(Seq<PolygonData>, int), ElmaError>((polys, opos)),
        parse_obj_section(b, opos) == Err::<(Seq<ObjectData>, int), ElmaError>(e),
    ensures
        parse_level_body(b, head) == Err::<LevelData, ElmaError>(e),
{
}

proof fn lemma_body_pic_err(
    b: Seq<u8>,
    head: LevelData,
    polys: Seq<PolygonData>,
    opos: int,
    objs: Seq<ObjectData>,
    ppos: int,
    e: ElmaError,
)
    requires
        parse_poly_section(b) == Ok::<(Seq<PolygonData>, int), ElmaError>((polys, opos)),
        parse_obj_section(b, opos) == Ok::<(Seq<ObjectData>, int), ElmaError>((objs, ppos)),
        parse_pic_section(b, ppos) == Err::<(Seq<PicData>, int), ElmaError>(e),
    ensures
        parse_level_body(b, head) == Err::<LevelData, ElmaError>(e),
{
}

proof fn lemma_body_sections(
    b: Seq<u8>,
    head: LevelData,
    polys: Seq<PolygonData>,
    opos: int,
    objs: Seq<ObjectData>,
    ppos: int,
    pics: Seq<PicData>,
    tpos: int,
)
    requires
        parse_poly_section(b) == Ok::<(Seq<PolygonData>, int), ElmaError>((polys, opos)),
        parse_obj_section(b, opos) == Ok::<(Seq<ObjectData>, int), ElmaError>((objs, ppos)),
        parse_pic_section(b, ppos) == Ok::<(Seq<PicData>, int), ElmaError>((pics, tpos)),
    ensures
        parse_level_body(b, head) == parse_level_tail(
            b,
            LevelData { polygons: polys, objects: objs, pictures: pics, ..head },
            tpos,
        ),
{
}

/// The tail of a level file: the end-of-data marker, the 688-byte ciphered
/// best-times region and the end-of-file marker.
pub open spec fn parse_level_tail(b: Seq<u8>, head: LevelData, pos: int) -> Result<
    LevelData,
    ElmaError,
> {
    if pos + 4 > b.len() {
        Err(ElmaError::InvalidLevelFile)
    } else if i32_of_bits(le_u32_at(b, pos)) != EOD {
        Err(ElmaError::EODMismatch)
    } else if pos + 4 + 688 + 4 > b.len() {
        Err(ElmaError::InvalidLevelFile)
    } else {
        match parse_level_top10_s(b, pos + 4) {
            Err(e) => Err(e),
            Ok((single, multi)) => {
                if i32_of_bits(le_u32_at(b, pos + 4 + 688)) != EOF_MARKER {
                    Err(ElmaError::EOFMismatch)
                } else {
                    Ok(LevelData { single, multi, ..head })
                }
            },
        }
    }
}

} // verus!

verus! {

// ---------------------------------------------------------------------------
// The executable parser.
// ---------------------------------------------------------------------------

/// Whether `k` more bytes stand at `pos` of the buffer.
fn has_bytes(buffer: &[u8], pos: usize, k: usize) -> (r: bool)
    ensures
        r == (pos + k <= buffer@.len()),
        buffer@.len() <= usize::MAX,
{
    pos <= buffer.len() && buffer.len() - pos >= k
}

/// Parses the object record at `pos`.
fn parse_object(buffer: &[u8], pos: usize) -> (r: Result<Object, ElmaError>)
    requires
        pos + 28 <= buffer@.len(),
    ensures
        match r {
            Ok(o) => parse_object_s(buffer@, pos as int) == Ok::<ObjectData, ElmaError>(o@),
            Err(e) => parse_object_s(buffer@, pos as int) == Err::<ObjectData, ElmaError>(e),
        },
{
    let blen = buffer.len();
    assert(pos + 28 <= blen);
    let x = read_u64(buffer, pos);
    let y = read_u64(buffer, pos + 8);
    let type_code = read_i32(buffer, pos + 16);
    let gravity_c = read_i32(buffer, pos + 20);
    let animation = read_i32(buffer, pos + 24);
    if !(0 <= gravity_c && gravity_c <= 4) {
        return Err(ElmaError::InvalidGravity(gravity_c));
    }
    let gravity = if gravity_c == 0 {
        GravityDirection::Normal
    } else if gravity_c == 1 {
        GravityDirection::Up
    } else if gravity_c == 2 {
        GravityDirection::Down
    } else if gravity_c == 3 {
        GravityDirection::Left
    } else {
        GravityDirection::Right
    };
    if type_code == 1 {
        Ok(Object { position: Position { x, y }, object_type: ObjectType::Exit })
    } else if type_code == 2 {
        if animation == i32::MAX {
            // The stored animation is the animation number less one; the
            // largest stored value cannot be represented plus one.
            return Err(ElmaError::InvalidObject(type_code));
        }
        Ok(
            Object {
                position: Position { x, y },
                object_type: ObjectType::Apple { gravity, animation: animation + 1 },
            },
        )
    } else if type_code == 3 {
        Ok(Object { position: Position { x, y }, object_type: ObjectType::Killer })
    } else if type_code == 4 {
        Ok(Object { position: Position { x, y }, object_type: ObjectType::Player })
    } else {
        Err(ElmaError::InvalidObject(type_code))
    }
}

/// Parses `n` polygons starting at `pos`.
fn parse_polygons_exec(buffer: &[u8], pos0: usize, n: u64) -> (r: Result<
    (Vec<Polygon>, usize),
    ElmaError,
>)
    requires
        pos0 <= buffer@.len(),
    ensures
        match r {
            Ok(v) => parse_polygons_s(buffer@, pos0 as int, n as int) == Ok::<
                (Seq<PolygonData>, int),
                ElmaError,
            >((v.0@.map_values(|p: Polygon| p@), v.1 as int)) && v.1 <= buffer@.len(),
            Err(e) => parse_polygons_s(buffer@, pos0 as int, n as int) == Err::<
                (Seq<PolygonData>, int),
                ElmaError,
            >(e),
        },
{
    let ghost b = buffer@;
    let mut polys: Vec<Polygon> = Vec::new();
    let mut pos: usize = pos0;
    let mut i: u64 = 0;
    proof {
        assert(polys@.map_values(|p: Polygon| p@) =~= Seq::<PolygonData>::empty());
    }
    while i < n
        invariant
            i <= n,
            pos <= b.len(),
            b == buffer@,
            parse_polygons_s(b, pos0 as int, n as int) == combine_polys(
                polys@.map_values(|p: Polygon| p@),
                parse_polygons_s(b, pos as int, n - i),
            ),
        decreases n - i,
    {
        let ghost before = polys@.map_values(|p: Polygon| p@);
        if !has_bytes(buffer, pos, 8) {
            assert(parse_polygons_s(b, pos as int, n - i) == Err::<
                (Seq<PolygonData>, int),
                ElmaError,
            >(ElmaError::InvalidLevelFile));
            return Err(ElmaError::InvalidLevelFile);
        }
        let grass_c = read_i32(buffer, pos);
        let nv = read_i32(buffer, pos + 4);
        let k: u64 = if nv > 0 {
            nv as u64
        } else {
            0
        };
        if (pos as u128) + 8 + 16 * (k as u128) > (buffer.len() as u128) {
            assert(pos + 8 + 16 * (k as int) > b.len());
            assert(parse_polygons_s(b, pos as int, n - i) == Err::<
                (Seq<PolygonData>, int),
                ElmaError,
            >(ElmaError::InvalidLevelFile));
            return Err(ElmaError::InvalidLevelFile);
        }
        assert(16 * (k as int) <= b.len());
        let ku: usize = k as usize;
        let mut verts: Vec<Position<u64>> = Vec::new();
        let mut j: usize = 0;
        let ghost vspec = Seq::new(
            k as nat,
            |q: int|
                Position {
                    x: le_u64_at(b, pos + 8 + 16 * q),
                    y: le_u64_at(b, pos + 8 + 16 * q + 8),
                },
        );
        while j < ku
            invariant
                j <= ku,
                ku == k,
                b == buffer@,
                pos + 8 + 16 * (k as int) <= b.len(),
                pos + 8 + 16 * (k as int) <= usize::MAX,
                verts@ =~= vspec.subrange(0, j as int),
                vspec == Seq::new(
                    k as nat,
                    |q: int|
                        Position {
                            x: le_u64_at(b, pos + 8 + 16 * q),
                            y: le_u64_at(b, pos + 8 + 16 * q + 8),
                        },
                ),
            decreases ku - j,
        {
            let base = pos + 8 + 16 * j;
            let x = read_u64(buffer, base);
            let y = read_u64(buffer, base + 8);
            verts.push(Position { x, y });
            assert(verts@ =~= vspec.subrange(0, j + 1));
            j += 1;
        }
        assert(verts@ =~= vspec);
        let poly = Polygon { grass: grass_c > 0, vertices: verts };
        polys.push(poly);
        proof {
            assert(polys@.map_values(|p: Polygon| p@) =~= before.push(poly@));
        }
        let ghost oldpos = pos;
        pos = pos + 8 + 16 * ku;
        i += 1;
        proof {
            let rest = parse_polygons_s(b, pos as int, n - i);
            assert(parse_polygons_s(b, oldpos as int, n - i + 1) == combine_one(poly@, rest));
            lemma_polys_step(before, poly@, rest);
            assert(polys@.map_values(|p: Polygon| p@) == before.push(poly@));
        }
    }
    proof {
        assert(parse_polygons_s(b, pos as int, 0) == Ok::<(Seq<PolygonData>, int), ElmaError>(
            (Seq::<PolygonData>::empty(), pos as int),
        ));
        assert(polys@.map_values(|p: Polygon| p@) + Seq::<PolygonData>::empty() =~= polys@.map_values(
            |p: Polygon| p@,
        ));
    }
    Ok((polys, pos))
}

/// Combines an already-parsed prefix with the outcome of parsing the rest.
pub open spec fn combine_polys(
    head: Seq<PolygonData>,
    rest: Result<(Seq<PolygonData>, int), ElmaError>,
) -> Result<(Seq<PolygonData>, int), ElmaError> {
    match rest {
        Ok((tail, end)) => Ok((head + tail, end)),
        Err(e) => Err(e),
    }
}

/// One unfolding step of the prefix-combination invariant.
proof fn lemma_polys_step(
    before: Seq<PolygonData>,
    one: PolygonData,
    rest: Result<(Seq<PolygonData>, int), ElmaError>,
)
    ensures
        combine_polys(before, combine_one(one, rest)) == combine_polys(before.push(one), rest),
{
    match rest {
        Ok((tail, end)) => {
            assert(before + (seq![one] + tail) =~= before.push(one) + tail);
        },
        Err(e) => {},
    }
}

/// Prefixes one polygon onto a parse outcome.
pub open spec fn combine_one(
    one: PolygonData,
    rest: Result<(Seq<PolygonData>, int), ElmaError>,
) -> Result<(Seq<PolygonData>, int), ElmaError> {
    match rest {
        Ok((tail, end)) => Ok((seq![one] + tail, end)),
        Err(e) => Err(e),
    }
}

} // verus!

verus! {

/// Prefixes already-parsed objects onto a parse outcome.
pub open spec fn combine_objs(
    head: Seq<ObjectData>,
    rest: Result<Seq<ObjectData>, ElmaError>,
) -> Result<Seq<ObjectData>, ElmaError> {
    match rest {
        Ok(tail) => Ok(head + tail),
        Err(e) => Err(e),
    }
}

/// Parses `n` 28-byte object records starting at `pos`.
fn parse_objects_exec(buffer: &[u8], pos0: usize, n: u64) -> (r: Result<Vec<Object>, ElmaError>)
    requires
        pos0 + 28 * n <= buffer@.len(),
    ensures
        match r {
            Ok(v) => parse_objects_s(buffer@, pos0 as int, n as int) == Ok::<
                Seq<ObjectData>,
                ElmaError,
            >(v@.map_values(|o: Object| o@)),
            Err(e) => parse_objects_s(buffer@, pos0 as int, n as int) == Err::<
                Seq<ObjectData>,
                ElmaError,
            >(e),
        },
{
    let blen = buffer.len();
    let ghost b = buffer@;
    let mut objs: Vec<Object> = Vec::new();
    let mut i: u64 = 0;
    proof {
        assert(objs@.map_values(|o: Object| o@) =~= Seq::<ObjectData>::empty());
    }
    while i < n
        invariant
            i <= n,
            b == buffer@,
            pos0 + 28 * (n as int) <= b.len(),
            pos0 + 28 * (n as int) <= usize::MAX,
            parse_objects_s(b, pos0 as int, n as int) == combine_objs(
                objs@.map_values(|o: Object| o@),
                parse_objects_s(b, pos0 + 28 * i, n - i),
            ),
        decreases n - i,
    {
        let ghost before = objs@.map_values(|o: Object| o@);
        let pos = pos0 + 28 * (i as usize);
        let o = match parse_object(buffer, pos) {
            Ok(o) => o,
            Err(e) => {
                return Err(e);
            },
        };
        objs.push(o);
        i += 1;
        proof {
            let rest = parse_objects_s(b, pos0 + 28 * i, n - i);
            assert(parse_objects_s(b, pos as int, n - i + 1) == combine_objs(
                seq![o@],
                rest,
            ));
            assert(objs@.map_values(|x: Object| x@) =~= before.push(o@));
            match rest {
                Ok(tail) => {
                    assert(before + (seq![o@] + tail) =~= before.push(o@) + tail);
                },
                Err(e) => {},
            }
        }
    }
    proof {
        assert(objs@.map_values(|o: Object| o@) + Seq::<ObjectData>::empty() =~= objs@.map_values(
            |o: Object| o@,
        ));
    }
    Ok(objs)
}

/// Parses the 54-byte picture record at `pos`.
fn parse_picture(buffer: &[u8], pos: usize) -> (r: Result<Picture, ElmaError>)
    requires
        pos + 54 <= buffer@.len(),
    ensures
        match r {
            Ok(p) => parse_picture_s(buffer@, pos as int) == Ok::<PicData, ElmaError>(p@),
            Err(e) => parse_picture_s(buffer@, pos as int) == Err::<PicData, ElmaError>(e),
        },
{
    let blen = buffer.len();
    assert(pos + 54 <= blen);
    proof {
        crate::utils::lemma_trim_subrange(buffer@, pos as int, 10);
        crate::utils::lemma_trim_subrange(buffer@, pos + 10, 10);
        crate::utils::lemma_trim_subrange(buffer@, pos + 20, 10);
    }
    let name = match trim_string(&buffer[pos..pos + 10]) {
        Ok(s) => s,
        Err(e) => {
            return Err(e);
        },
    };
    let texture = match trim_string(&buffer[pos + 10..pos + 20]) {
        Ok(s) => s,
        Err(e) => {
            return Err(e);
        },
    };
    let mask = match trim_string(&buffer[pos + 20..pos + 30]) {
        Ok(s) => s,
        Err(e) => {
            return Err(e);
        },
    };
    let x = read_u64(buffer, pos + 30);
    let y = read_u64(buffer, pos + 38);
    let distance = read_i32(buffer, pos + 46);
    let clip_c = read_i32(buffer, pos + 50);
    let clip = if clip_c == 0 {
        Clip::Unclipped
    } else if clip_c == 1 {
        Clip::Ground
    } else if clip_c == 2 {
        Clip::Sky
    } else {
        return Err(ElmaError::InvalidClipping(clip_c));
    };
    Ok(Picture { name, texture, mask, position: Position { x, y }, distance, clip })
}

/// Prefixes already-parsed pictures onto a parse outcome.
pub open spec fn combine_pics(
    head: Seq<PicData>,
    rest: Result<Seq<PicData>, ElmaError>,
) -> Result<Seq<PicData>, ElmaError> {
    match rest {
        Ok(tail) => Ok(head + tail),
        Err(e) => Err(e),
    }
}

/// Parses `n` 54-byte picture records starting at `pos`.
fn parse_pictures_exec(buffer: &[u8], pos0: usize, n: u64) -> (r: Result<Vec<Picture>, ElmaError>)
    requires
        pos0 + 54 * n <= buffer@.len(),
    ensures
        match r {
            Ok(v) => parse_pictures_s(buffer@, pos0 as int, n as int) == Ok::<
                Seq<PicData>,
                ElmaError,
            >(v@.map_values(|p: Picture| p@)),
            Err(e) => parse_pictures_s(buffer@, pos0 as int, n as int) == Err::<
                Seq<PicData>,
                ElmaError,
            >(e),
        },
{
    let blen = buffer.len();
    let ghost b = buffer@;
    let mut pics: Vec<Picture> = Vec::new();
    let mut i: u64 = 0;
    proof {
        assert(pics@.map_values(|p: Picture| p@) =~= Seq::<PicData>::empty());
    }
    while i < n
        invariant
            i <= n,
            b == buffer@,
            pos0 + 54 * (n as int) <= b.len(),
            pos0 + 54 * (n as int) <= usize::MAX,
            parse_pictures_s(b, pos0 as int, n as int) == combine_pics(
                pics@.map_values(|p: Picture| p@),
                parse_pictures_s(b, pos0 + 54 * i, n - i),
            ),
        decreases n - i,
    {
        let ghost before = pics@.map_values(|p: Picture| p@);
        let pos = pos0 + 54 * (i as usize);
        let p = match parse_picture(buffer, pos) {
            Ok(p) => p,
            Err(e) => {
                return Err(e);
            },
        };
        pics.push(p);
        i += 1;
        proof {
            let rest = parse_pictures_s(b, pos0 + 54 * i, n - i);
            assert(parse_pictures_s(b, pos as int, n - i + 1) == combine_pics(seq![p@], rest));
            assert(pics@.map_values(|x: Picture| x@) =~= before.push(p@));
            match rest {
                Ok(tail) => {
                    assert(before + (seq![p@] + tail) =~= before.push(p@) + tail);
                },
                Err(e) => {},
            }
        }
    }
    proof {
        assert(pics@.map_values(|p: Picture| p@) + Seq::<PicData>::empty() =~= pics@.map_values(
            |p: Picture| p@,
        ));
    }
    Ok(pics)
}

} // verus!

verus! {

/// The ground polygon of a fresh level: a ten-by-seven unit square, the
/// coordinates the bit patterns of the doubles 0, 7 and 10.
pub open spec fn default_square() -> PolygonData {
    PolygonData {
        grass: false,
        vertices: seq![
            Position { x: 0x4024_0000_0000_0000u64, y: 0u64 },
            Position { x: 0x4024_0000_0000_0000u64, y: 0x401C_0000_0000_0000u64 },
            Position { x: 0u64, y: 0x401C_0000_0000_0000u64 },
            Position { x: 0u64, y: 0u64 },
        ],
    }
}

/// The player of a fresh level: at x 2, resting on the square's top edge
/// (y is the double 6.6, seven less the object radius).
pub open spec fn default_player() -> ObjectData {
    ObjectData {
        position: Position { x: 0x4000_0000_0000_0000u64, y: 0x401A_6666_6666_6666u64 },
        object_type: ObjectType::Player,
    }
}

/// The exit of a fresh level: at x 8, on the same edge.
pub open spec fn default_exit() -> ObjectData {
    ObjectData {
        position: Position { x: 0x4020_0000_0000_0000u64, y: 0x401A_6666_6666_6666u64 },
        object_type: ObjectType::Exit,
    }
}

/// The partial model a parsed header gives, before any element section.
pub open spec fn level_head(
    link: u32,
    integrity: Seq<u64>,
    name: Seq<char>,
    lgr: Seq<char>,
    ground: Seq<char>,
    sky: Seq<char>,
) -> LevelData {
    LevelData {
        version: Version::Elma,
        link,
        integrity,
        name,
        lgr,
        ground,
        sky,
        polygons: Seq::<PolygonData>::empty(),
        objects: Seq::<ObjectData>::empty(),
        pictures: Seq::<PicData>::empty(),
        single: Seq::<EntryData>::empty(),
        multi: Seq::<EntryData>::empty(),
    }
}

impl Level {
    /// Load a level from bytes: decodes the whole on-disk layout, or gives
    /// the first error the format rules produce.
    pub fn from_bytes(buffer: &[u8]) -> (r: Result<Level, ElmaError>)
        ensures
            match r {
                Ok(l) => parse_level_s(buffer@) == Ok::<LevelData, ElmaError>(l@) && l.filename
                    is None,
                Err(e) => parse_level_s(buffer@) == Err::<LevelData, ElmaError>(e),
            },
    {
        Level::parse_level(buffer)
    }

    /// Parses the raw binary data into `Level` struct fields: the version
    /// tag, the link, the integrity doubles and the four name fields, then
    /// the element sections.
    fn parse_level(buffer: &[u8]) -> (r: Result<Level, ElmaError>)
        ensures
            match r {
                Ok(l) => parse_level_s(buffer@) == Ok::<LevelData, ElmaError>(l@) && l.filename
                    is None,
                Err(e) => parse_level_s(buffer@) == Err::<LevelData, ElmaError>(e),
            },
    {
        let ghost b = buffer@;
        let blen = buffer.len();
        let across = blen >= 5 && buffer[0] == 80 && buffer[1] == 79 && buffer[2] == 84
            && buffer[3] == 48 && buffer[4] == 54;
        proof {
            if across {
                assert(b.subrange(0, 5) =~= across_tag());
            } else if blen >= 5 {
                assert(b.subrange(0, 5)[0] == b[0] && b.subrange(0, 5)[1] == b[1] && b.subrange(
                    0,
                    5,
                )[2] == b[2] && b.subrange(0, 5)[3] == b[3] && b.subrange(0, 5)[4] == b[4]);
            }
        }
        if across {
            return Err(ElmaError::AcrossUnsupported);
        }
        if blen < 130 {
            return Err(ElmaError::InvalidLevelFile);
        }
        let elma = buffer[0] == 80 && buffer[1] == 79 && buffer[2] == 84 && buffer[3] == 49
            && buffer[4] == 52;
        proof {
            if elma {
                assert(b.subrange(0, 5) =~= elma_tag());
            }
        }
        if !elma {
            return Err(ElmaError::InvalidLevelFile);
        }
        let link = read_u32(buffer, 7);
        let integrity: [u64; 4] = [
            read_u64(buffer, 11),
            read_u64(buffer, 19),
            read_u64(buffer, 27),
            read_u64(buffer, 35),
        ];
        proof {
            assert(integrity@ =~= Seq::new(4, |i: int| le_u64_at(b, 11 + 8 * i)));
        }
        proof {
            crate::utils::lemma_trim_subrange(b, 43, 51);
            crate::utils::lemma_trim_subrange(b, 94, 16);
            crate::utils::lemma_trim_subrange(b, 110, 10);
            crate::utils::lemma_trim_subrange(b, 120, 10);
        }
        let name = match trim_string(&buffer[43..94]) {
            Ok(s) => s,
            Err(e) => {
                return Err(e);
            },
        };
        let lgr = match trim_string(&buffer[94..110]) {
            Ok(s) => s,
            Err(e) => {
                return Err(e);
            },
        };
        let ground = match trim_string(&buffer[110..120]) {
            Ok(s) => s,
            Err(e) => {
                return Err(e);
            },
        };
        let sky = match trim_string(&buffer[120..130]) {
            Ok(s) => s,
            Err(e) => {
                return Err(e);
            },
        };
        assert(parse_level_s(b) == parse_level_body(
            b,
            level_head(link, integrity@, name@, lgr@, ground@, sky@),
        ));
        Level::parse_sections(buffer, link, integrity, name, lgr, ground, sky)
    }

    /// Parses the polygon, object and picture sections, then the tail.
    #[verifier::rlimit(100)]
    #[verifier::spinoff_prover]
    fn parse_sections(
        buffer: &[u8],
        link: u32,
        integrity: [u64; 4],
        name: String,
        lgr: String,
        ground: String,
        sky: String,
    ) -> (r: Result<Level, ElmaError>)
        requires
            buffer@.len() >= 130,
        ensures
            match r {
                Ok(l) => parse_level_body(
                    buffer@,
                    level_head(link, integrity@, name@, lgr@, ground@, sky@),
                ) == Ok::<LevelData, ElmaError>(l@) && l.filename is None,
                Err(e) => parse_level_body(
                    buffer@,
                    level_head(link, integrity@, name@, lgr@, ground@, sky@),
                ) == Err::<LevelData, ElmaError>(e),
            },
    {
        let ghost b = buffer@;
        let ghost head = level_head(link, integrity@, name@, lgr@, ground@, sky@);
        let blen = buffer.len();
        proof {
            lemma_sentinels();
        }
        // Polygons.
        if !has_bytes(buffer, 130, 8) {
            proof {
                lemma_body_poly_err(b, head, ElmaError::InvalidLevelFile);
            }
            return Err(ElmaError::InvalidLevelFile);
        }
        let npoly = crate::fp::count_decode(read_u64(buffer, 130), POLY_SENTINEL_M, 54);
        let (polygons, opos) = match parse_polygons_exec(buffer, 138, npoly) {
            Ok(v) => v,
            Err(e) => {
                proof {
                    lemma_body_poly_err(b, head, e);
                }
                return Err(e);
            },
        };
        let ghost polys_v = polygons@.map_values(|p: Polygon| p@);
        assert(parse_poly_section(b) == Ok::<(Seq<PolygonData>, int), ElmaError>(
            (polys_v, opos as int),
        ));
        // Objects.
        let objects = match Level::parse_obj_stage(buffer, opos) {
            Ok(v) => v,
            Err(e) => {
                proof {
                    lemma_body_obj_err(b, head, polys_v, opos as int, e);
                }
                return Err(e);
            },
        };
        let ppos = objects.1;
        let ghost objs_v = objects.0@.map_values(|o: Object| o@);
        // Pictures.
        let pictures = match Level::parse_pic_stage(buffer, ppos) {
            Ok(v) => v,
            Err(e) => {
                proof {
                    lemma_body_pic_err(b, head, polys_v, opos as int, objs_v, ppos as int, e);
                }
                return Err(e);
            },
        };
        let tpos = pictures.1;
        let ghost pics_v = pictures.0@.map_values(|p: Picture| p@);
        let ghost mid = LevelData { polygons: polys_v, objects: objs_v, pictures: pics_v, ..head };
        proof {
            lemma_body_sections(
                b,
                head,
                polys_v,
                opos as int,
                objs_v,
                ppos as int,
                pics_v,
                tpos as int,
            );
        }
        assert(parse_level_body(b, head) == parse_level_tail(b, mid, tpos as int));
        let level = Level {
            version: Version::Elma,
            link,
            integrity,
            name,
            lgr,
            ground,
            sky,
            polygons,
            objects: objects.0,
            pictures: pictures.0,
            best_times: crate::BestTimes { single: Vec::new(), multi: Vec::new() },
            filename: Option::None,
        };
        assert(level@ == mid) by {
            assert(level@.single =~= Seq::<EntryData>::empty());
            assert(level@.multi =~= Seq::<EntryData>::empty());
        }
        Level::parse_tail(buffer, tpos, level)
    }

    /// Parses the object section at `pos`.
    fn parse_obj_stage(buffer: &[u8], pos: usize) -> (r: Result<(Vec<Object>, usize), ElmaError>)
        requires
            pos <= buffer@.len(),
        ensures
            match r {
                Ok(v) => parse_obj_section(buffer@, pos as int) == Ok::<
                    (Seq<ObjectData>, int),
                    ElmaError,
                >((v.0@.map_values(|o: Object| o@), v.1 as int)) && v.1 <= buffer@.len(),
                Err(e) => parse_obj_section(buffer@, pos as int) == Err::<
                    (Seq<ObjectData>, int),
                    ElmaError,
                >(e),
            },
    {
        let ghost b = buffer@;
        let blen = buffer.len();
        proof {
            lemma_sentinels();
        }
        if !has_bytes(buffer, pos, 8) {
            return Err(ElmaError::InvalidLevelFile);
        }
        let n = crate::fp::count_decode(read_u64(buffer, pos), POLY_SENTINEL_M, 54);
        if (pos as u128) + 8 + 28 * (n as u128) > (blen as u128) {
            assert(pos + 8 + 28 * (n as int) > b.len());
            return Err(ElmaError::InvalidLevelFile);
        }
        assert(pos + 8 + 28 * (n as int) <= b.len());
        let objects = match parse_objects_exec(buffer, pos + 8, n) {
            Ok(v) => v,
            Err(e) => {
                return Err(e);
            },
        };
        Ok((objects, pos + 8 + 28 * (n as usize)))
    }

    /// Parses the picture section at `pos`.
    fn parse_pic_stage(buffer: &[u8], pos: usize) -> (r: Result<(Vec<Picture>, usize), ElmaError>)
        requires
            pos <= buffer@.len(),
        ensures
            match r {
                Ok(v) => parse_pic_section(buffer@, pos as int) == Ok::<
                    (Seq<PicData>, int),
                    ElmaError,
                >((v.0@.map_values(|p: Picture| p@), v.1 as int)) && v.1 <= buffer@.len(),
                Err(e) => parse_pic_section(buffer@, pos as int) == Err::<
                    (Seq<PicData>, int),
                    ElmaError,
                >(e),
            },
    {
        let ghost b = buffer@;
        let blen = buffer.len();
        proof {
            lemma_sentinels();
        }
        if !has_bytes(buffer, pos, 8) {
            return Err(ElmaError::InvalidLevelFile);
        }
        let n = crate::fp::count_decode(read_u64(buffer, pos), PIC_SENTINEL_M, 55);
        if (pos as u128) + 8 + 54 * (n as u128) > (blen as u128) {
            assert(pos + 8 + 54 * (n as int) > b.len());
            return Err(ElmaError::InvalidLevelFile);
        }
        assert(pos + 8 + 54 * (n as int) <= b.len());
        let pictures = match parse_pictures_exec(buffer, pos + 8, n) {
            Ok(v) => v,
            Err(e) => {
                return Err(e);
            },
        };
        Ok((pictures, pos + 8 + 54 * (n as usize)))
    }

    /// Parses the end-of-data marker, the ciphered best-times region and
    /// the end-of-file marker, and fills the best times of `level`.
    fn parse_tail(buffer: &[u8], tpos: usize, level: Level) -> (r: Result<Level, ElmaError>)
        requires
            tpos <= buffer@.len(),
            level.filename is None,
            level@.single == Seq::<EntryData>::empty(),
            level@.multi == Seq::<EntryData>::empty(),
        ensures
            match r {
                Ok(l) => parse_level_tail(buffer@, level@, tpos as int) == Ok::<
                    LevelData,
                    ElmaError,
                >(l@) && l.filename is None,
                Err(e) => parse_level_tail(buffer@, level@, tpos as int) == Err::<
                    LevelData,
                    ElmaError,
                >(e),
            },
    {
        let ghost b = buffer@;
        let ghost mid = level@;
        if !has_bytes(buffer, tpos, 4) {
            return Err(ElmaError::InvalidLevelFile);
        }
        if read_i32(buffer, tpos) != EOD {
            return Err(ElmaError::EODMismatch);
        }
        if !has_bytes(buffer, tpos + 4, 692) {
            return Err(ElmaError::InvalidLevelFile);
        }
        // Best-times region: decrypt, then parse the two halves.
        let region = crypt_top10(&buffer[tpos + 4..tpos + 4 + 688]);
        proof {
            assert(region@ == crypt_top10_seq(b.subrange(tpos + 4, tpos + 4 + 688)));
            assert(region@.len() == 688);
        }
        let single = match parse_top10(&region[0..344]) {
            Ok(v) => v,
            Err(e) => {
                return Err(e);
            },
        };
        let multi = match parse_top10(&region[344..688]) {
            Ok(v) => v,
            Err(e) => {
                return Err(e);
            },
        };
        // End-of-file marker.
        if read_i32(buffer, tpos + 4 + 688) != EOF_MARKER {
            return Err(ElmaError::EOFMismatch);
        }
        let mut level2 = level;
        level2.best_times = crate::BestTimes { single, multi };
        proof {
            assert(parse_level_tail(b, mid, tpos as int) == Ok::<LevelData, ElmaError>(level2@));
        }
        Ok(level2)
    }
}

} // verus!

verus! {

// ---------------------------------------------------------------------------
// The specification serializer and the integrity sums.
// ---------------------------------------------------------------------------

/// The 16 bytes of one vertex.
pub open spec fn ser_vertex(v: Position<u64>) -> Seq<u8> {
    le_u64_of(v.x) + le_u64_of(v.y)
}

/// The vertex bytes of a polygon, in order.
pub open spec fn ser_vertices(s: Seq<Position<u64>>) -> Seq<u8>
    decreases s.len(),
{
    if s.len() == 0 {
        Seq::<u8>::empty()
    } else {
        ser_vertices(s.drop_last()) + ser_vertex(s.last())
    }
}

/// The bytes of one polygon: grass flag, vertex count, vertices.
pub open spec fn ser_polygon(p: PolygonData) -> Seq<u8> {
    le_u32_of(bits_of_i32(if p.grass {
        1i32
    } else {
        0i32
    })) + le_u32_of((p.vertices.len() % 0x1_0000_0000) as u32) + ser_vertices(p.vertices)
}

/// The polygon bytes of a level, in order.
pub open spec fn ser_polygons(s: Seq<PolygonData>) -> Seq<u8>
    decreases s.len(),
{
    if s.len() == 0 {
        Seq::<u8>::empty()
    } else {
        ser_polygons(s.drop_last()) + ser_polygon(s.last())
    }
}

/// The 28 bytes of one object record.
pub open spec fn ser_object(o: ObjectData) -> Seq<u8> {
    le_u64_of(o.position.x) + le_u64_of(o.position.y) + le_u32_of(
        bits_of_i32(object_code(o.object_type)),
    ) + le_u32_of(bits_of_i32(gravity_code(o.object_type))) + le_u32_of(
        bits_of_i32(animation_code(o.object_type)),
    )
}

/// The object bytes of a level, in order.
pub open spec fn ser_objects(s: Seq<ObjectData>) -> Seq<u8>
    decreases s.len(),
{
    if s.len() == 0 {
        Seq::<u8>::empty()
    } else {
        ser_objects(s.drop_last()) + ser_object(s.last())
    }
}

/// The 54 bytes of one picture record.
pub open spec fn ser_picture(p: PicData) -> Seq<u8> {
    pad_name(p.name, 10) + pad_name(p.texture, 10) + pad_name(p.mask, 10) + le_u64_of(p.position.x)
        + le_u64_of(p.position.y) + le_u32_of(bits_of_i32(p.distance)) + le_u32_of(
        bits_of_i32(clip_code(p.clip)),
    )
}

/// The picture bytes of a level, in order.
pub open spec fn ser_pictures(s: Seq<PicData>) -> Seq<u8>
    decreases s.len(),
{
    if s.len() == 0 {
        Seq::<u8>::empty()
    } else {
        ser_pictures(s.drop_last()) + ser_picture(s.last())
    }
}

/// A 688-byte run of null bytes: the plain form of an emptied best-times
/// region.
pub open spec fn zero_region() -> Seq<u8> {
    Seq::new(688, |i: int| 0u8)
}

/// The plain (unciphered) best-times region a save writes: the two blocks
/// of the ascending-sorted lists when the times are kept, null bytes
/// otherwise.
#[verifier::opaque]
pub open spec fn t10_plain(l: LevelData, keep: bool) -> Seq<u8> {
    if keep {
        ser_top10_block(crate::shared::sort_entries(l.single)) + ser_top10_block(
            crate::shared::sort_entries(l.multi),
        )
    } else {
        zero_region()
    }
}

/// Every byte a level file stores, given the four integrity doubles and
/// whether the best times are kept: the tag, the link twice, the integrity
/// values, the four names, the three element sections with their sentinel
/// counts, the end-of-data marker, the ciphered best-times region and the
/// end-of-file marker.
#[verifier::opaque]
pub open spec fn ser_level(l: LevelData, integ: Seq<u64>, keep: bool) -> Seq<u8> {
    elma_tag() + le_u16_of((l.link % 0x1_0000) as u16) + le_u32_of(l.link) + le_u64_of(integ[0])
        + le_u64_of(integ[1]) + le_u64_of(integ[2]) + le_u64_of(integ[3]) + pad_name(l.name, 51)
        + pad_name(l.lgr, 16) + pad_name(l.ground, 10) + pad_name(l.sky, 10) + le_u64_of(
        count_to_bits((l.polygons.len() % 0x1_0000_0000_0000_0000) as u64, POLY_SENTINEL_M, 54),
    ) + ser_polygons(l.polygons) + le_u64_of(
        count_to_bits((l.objects.len() % 0x1_0000_0000_0000_0000) as u64, POLY_SENTINEL_M, 54),
    ) + ser_objects(l.objects) + le_u64_of(
        count_to_bits((l.pictures.len() % 0x1_0000_0000_0000_0000) as u64, PIC_SENTINEL_M, 55),
    ) + ser_pictures(l.pictures) + le_u32_of(bits_of_i32(EOD)) + crypt_top10_seq(t10_plain(l, keep))
        + le_u32_of(bits_of_i32(EOF_MARKER))
}

/// The first error a save runs into, if any: an unsupported version, then
/// each fixed-width string field in file order, then the picture names,
/// then the best-times names when the times are kept.
pub open spec fn lev_write_err(l: LevelData, keep: bool) -> Option<ElmaError> {
    if l.version == Version::Across {
        Some(ElmaError::AcrossUnsupported)
    } else if pad_err(l.name, 51) is Some {
        pad_err(l.name, 51)
    } else if pad_err(l.lgr, 16) is Some {
        pad_err(l.lgr, 16)
    } else if pad_err(l.ground, 10) is Some {
        pad_err(l.ground, 10)
    } else if pad_err(l.sky, 10) is Some {
        pad_err(l.sky, 10)
    } else if pics_write_err(l.pictures, 0) is Some {
        pics_write_err(l.pictures, 0)
    } else if keep && top10_write_err(crate::shared::sort_entries(l.single)) is Some {
        top10_write_err(crate::shared::sort_entries(l.single))
    } else if keep && top10_write_err(crate::shared::sort_entries(l.multi)) is Some {
        top10_write_err(crate::shared::sort_entries(l.multi))
    } else {
        Option::None
    }
}

/// Whether picture `n` itself pads cleanly: its name, texture and mask in
/// order.
pub open spec fn pics_write_err_at(s: Seq<PicData>, n: int) -> Option<ElmaError> {
    if pad_err(s[n].name, 10) is Some {
        pad_err(s[n].name, 10)
    } else if pad_err(s[n].texture, 10) is Some {
        pad_err(s[n].texture, 10)
    } else if pad_err(s[n].mask, 10) is Some {
        pad_err(s[n].mask, 10)
    } else {
        Option::None
    }
}

/// The first picture-name error from picture `n` on, if any.
pub open spec fn pics_write_err(s: Seq<PicData>, n: int) -> Option<ElmaError>
    decreases s.len() - n,
{
    if n < 0 || n >= s.len() {
        Option::None
    } else {
        match pics_write_err_at(s, n) {
            Some(e) => Some(e),
            Option::None => pics_write_err(s, n + 1),
        }
    }
}

/// The sum term of the integrity checks: every polygon vertex coordinate,
/// every object coordinate plus its type code, and every picture
/// coordinate, accumulated left to right in IEEE double arithmetic, then
/// scaled by the format's magic factor.
#[verifier::opaque]
pub open spec fn integrity_base(l: LevelData) -> u64 {
    crate::fp::fp_mul(
        crate::fp::fp_add(
            crate::fp::fp_add(poly_sum(l.polygons), obj_sum(l.objects)),
            pic_sum(l.pictures),
        ),
        0x40A95F8755B0D05C,
    )
}

/// The polygon-vertex coordinate sum.
pub open spec fn poly_sum(s: Seq<PolygonData>) -> u64
    decreases s.len(),
{
    if s.len() == 0 {
        0u64
    } else {
        vert_sum(poly_sum(s.drop_last()), s.last().vertices)
    }
}

/// One polygon's vertex coordinates added onto an accumulator.
pub open spec fn vert_sum(acc: u64, s: Seq<Position<u64>>) -> u64
    decreases s.len(),
{
    if s.len() == 0 {
        acc
    } else {
        crate::fp::fp_add(
            vert_sum(acc, s.drop_last()),
            crate::fp::fp_add(s.last().x, s.last().y),
        )
    }
}

/// The object coordinate and type-code sum.
pub open spec fn obj_sum(s: Seq<ObjectData>) -> u64
    decreases s.len(),
{
    if s.len() == 0 {
        0u64
    } else {
        crate::fp::fp_add(
            obj_sum(s.drop_last()),
            crate::fp::fp_add(
                crate::fp::fp_add(s.last().position.x, s.last().position.y),
                crate::fp::fp_from_u64(object_code(s.last().object_type) as u64),
            ),
        )
    }
}

/// The picture coordinate sum.
pub open spec fn pic_sum(s: Seq<PicData>) -> u64
    decreases s.len(),
{
    if s.len() == 0 {
        0u64
    } else {
        crate::fp::fp_add(
            pic_sum(s.drop_last()),
            crate::fp::fp_add(s.last().position.x, s.last().position.y),
        )
    }
}

/// The bit pattern of the double for 11877, the first noise base.
pub const B11877: u64 = 0x40C7_3280_0000_0000;

/// The bit pattern of the double for 20961, the invalid-topology base.
pub const B20961: u64 = 0x40D4_7840_0000_0000;

/// The bit pattern of the double for 12112, the last noise base.
pub const B12112: u64 = 0x40C7_A800_0000_0000;

/// The four stored integrity doubles: the deterministic sum, then three
/// noise terms built from fresh random values, each reduced to its band,
/// converted to a double, offset by its base and lowered by the sum. The
/// second band switches when the caller marks the topology invalid.
#[verifier::opaque]
pub open spec fn integrity_sums(l: LevelData, valid: bool, n1: u32, n2: u32, n3: u32) -> Seq<u64> {
    let sum = integrity_base(l);
    seq![
        sum,
        crate::fp::fp_sub(
            crate::fp::fp_add(crate::fp::fp_from_u64((n1 % 5871) as u64), B11877),
            sum,
        ),
        if valid {
            crate::fp::fp_sub(
                crate::fp::fp_add(crate::fp::fp_from_u64((n2 % 5871) as u64), B11877),
                sum,
            )
        } else {
            crate::fp::fp_sub(
                crate::fp::fp_add(crate::fp::fp_from_u64((n2 % 4982) as u64), B20961),
                sum,
            )
        },
        crate::fp::fp_sub(
            crate::fp::fp_add(crate::fp::fp_from_u64((n3 % 6102) as u64), B12112),
            sum,
        ),
    ]
}

/// Relies on rand::random: a fresh 32-bit value from the process-wide
/// generator; nothing is promised of which value comes back.
#[verifier::external_body]
fn random_u32() -> u32 {
    rand::random::<u32>()
}

} // verus!

verus! {

impl Default for Level {
    /// The default level is a fresh one, as `new` builds it, with its own
    /// random link.
    fn default() -> (r: Level)
        ensures
            r@.version == Version::Elma,
            r@.integrity =~= seq![0u64, 0u64, 0u64, 0u64],
            r@.name == ""@,
            r@.lgr == "default"@,
            r@.ground == "ground"@,
            r@.sky == "sky"@,
            r@.polygons =~= seq![default_square()],
            r@.objects =~= seq![default_player(), default_exit()],
            r@.pictures.len() == 0,
            r@.single.len() == 0 && r@.multi.len() == 0,
            r.filename is None,
    {
        Level::new()
    }
}

impl Level {
    /// Returns a new `Level` with a fresh random link: one square ground
    /// polygon, a player and an exit, default texture names and no times.
    pub fn new() -> (r: Self)
        ensures
            r@.version == Version::Elma,
            r@.integrity =~= seq![0u64, 0u64, 0u64, 0u64],
            r@.name == ""@,
            r@.lgr == "default"@,
            r@.ground == "ground"@,
            r@.sky == "sky"@,
            r@.polygons =~= seq![default_square()],
            r@.objects =~= seq![default_player(), default_exit()],
            r@.pictures.len() == 0,
            r@.single.len() == 0 && r@.multi.len() == 0,
            r.filename is None,
    {
        // The default square is 10 by 7 units; the player and the exit
        // stand on its floor. The coordinates are the bit patterns of the
        // doubles 0, 7, 10, 2, 8 and 6.6 (7 less the object radius).
        let mut vertices: Vec<Position<u64>> = Vec::new();
        vertices.push(Position { x: 0x4024_0000_0000_0000u64, y: 0u64 });  // (10, 0)
        vertices.push(Position { x: 0x4024_0000_0000_0000u64, y: 0x401C_0000_0000_0000u64 });
        vertices.push(Position { x: 0u64, y: 0x401C_0000_0000_0000u64 });  // (0, 7)
        vertices.push(Position { x: 0u64, y: 0u64 });
        let mut polygons: Vec<Polygon> = Vec::new();
        polygons.push(Polygon { grass: false, vertices });
        let mut objects: Vec<Object> = Vec::new();
        objects.push(
            Object {
                position: Position { x: 0x4000_0000_0000_0000u64, y: 0x401A_6666_6666_6666u64 },
                object_type: ObjectType::Player,
            },
        );
        objects.push(
            Object {
                position: Position { x: 0x4020_0000_0000_0000u64, y: 0x401A_6666_6666_6666u64 },
                object_type: ObjectType::Exit,
            },
        );
        let r = Level {
            version: Version::Elma,
            link: random_u32(),
            integrity: [0u64, 0u64, 0u64, 0u64],
            name: "".to_owned(),
            lgr: "default".to_owned(),
            ground: "ground".to_owned(),
            sky: "sky".to_owned(),
            polygons,
            objects,
            pictures: Vec::new(),
            best_times: crate::BestTimes { single: Vec::new(), multi: Vec::new() },
            filename: Option::None,
        };
        proof {
            assert(r@.pictures =~= Seq::<PicData>::empty());
            assert(r@.single =~= Seq::<EntryData>::empty());
            assert(r@.multi =~= Seq::<EntryData>::empty());
            assert(r@.integrity =~= seq![0u64, 0u64, 0u64, 0u64]);
            assert(r@.polygons[0].vertices =~= default_square().vertices);
            assert(r@.polygons =~= seq![default_square()]);
            assert(r@.objects =~= seq![default_player(), default_exit()]);
        }
        r
    }

    /// Generate a random link number. When you save a level, it will keep
    /// the original link number unless explicitly changed manually or by
    /// running this function before saving.
    pub fn generate_link(&mut self)
        ensures
            final(self).version == old(self).version,
            final(self).integrity == old(self).integrity,
            final(self).name == old(self).name,
            final(self).lgr == old(self).lgr,
            final(self).ground == old(self).ground,
            final(self).sky == old(self).sky,
            final(self).polygons == old(self).polygons,
            final(self).objects == old(self).objects,
            final(self).pictures == old(self).pictures,
            final(self).best_times == old(self).best_times,
            final(self).filename == old(self).filename,
    {
        self.link = random_u32();
    }

    /// Calculate integrity sums for the level: the deterministic first sum
    /// and three noise terms drawn from the process-wide generator.
    #[verifier::rlimit(100)]
    #[verifier::spinoff_prover]
    pub fn calculate_integrity_sums(&self, valid_topology: bool) -> (r: [u64; 4])
        ensures
            exists|n1: u32, n2: u32, n3: u32|
                r@ == integrity_sums(self@, valid_topology, n1, n2, n3),
    {
        let ghost l = self@;
        let mut polyacc: u64 = 0;
        let mut i: usize = 0;
        while i < self.polygons.len()
            invariant
                i <= self.polygons@.len(),
                l == self@,
                polyacc == poly_sum(l.polygons.subrange(0, i as int)),
            decreases self.polygons@.len() - i,
        {
            let p = &self.polygons[i];
            let mut j: usize = 0;
            while j < p.vertices.len()
                invariant
                    j <= p.vertices@.len(),
                    p == &self.polygons@[i as int],
                    i < self.polygons@.len(),
                    l == self@,
                    polyacc == vert_sum(
                        poly_sum(l.polygons.subrange(0, i as int)),
                        p.vertices@.subrange(0, j as int),
                    ),
                decreases p.vertices@.len() - j,
            {
                let v = p.vertices[j];
                polyacc = crate::fp::fp_add_exec(polyacc, crate::fp::fp_add_exec(v.x, v.y));
                proof {
                    assert(p.vertices@.subrange(0, j + 1).drop_last() =~= p.vertices@.subrange(
                        0,
                        j as int,
                    ));
                    assert(p.vertices@.subrange(0, j + 1).last() == v);
                }
                j += 1;
            }
            proof {
                assert(p.vertices@.subrange(0, p.vertices@.len() as int) =~= p.vertices@);
                assert(l.polygons.subrange(0, i + 1).drop_last() =~= l.polygons.subrange(
                    0,
                    i as int,
                ));
                assert(l.polygons.subrange(0, i + 1).last() == l.polygons[i as int]);
                assert(l.polygons[i as int].vertices == p.vertices@) by {
                    assert(l.polygons[i as int] == self.polygons@[i as int]@);
                }
            }
            i += 1;
        }
        proof {
            assert(l.polygons.subrange(0, l.polygons.len() as int) =~= l.polygons);
        }
        let mut objacc: u64 = 0;
        let mut oi: usize = 0;
        while oi < self.objects.len()
            invariant
                oi <= self.objects@.len(),
                l == self@,
                objacc == obj_sum(l.objects.subrange(0, oi as int)),
            decreases self.objects@.len() - oi,
        {
            let o = self.objects[oi];
            let code: u64 = match o.object_type {
                ObjectType::Exit => 1,
                ObjectType::Apple { .. } => 2,
                ObjectType::Killer => 3,
                ObjectType::Player => 4,
            };
            objacc = crate::fp::fp_add_exec(
                objacc,
                crate::fp::fp_add_exec(
                    crate::fp::fp_add_exec(o.position.x, o.position.y),
                    crate::fp::fp_from_u64_exec(code),
                ),
            );
            proof {
                assert(l.objects.subrange(0, oi + 1).drop_last() =~= l.objects.subrange(
                    0,
                    oi as int,
                ));
                assert(l.objects.subrange(0, oi + 1).last() == l.objects[oi as int]);
                assert(l.objects[oi as int] == self.objects@[oi as int]@);
                assert(code == object_code(l.objects[oi as int].object_type) as u64);
            }
            oi += 1;
        }
        proof {
            assert(l.objects.subrange(0, l.objects.len() as int) =~= l.objects);
        }
        let mut picacc: u64 = 0;
        let mut pi: usize = 0;
        while pi < self.pictures.len()
            invariant
                pi <= self.pictures@.len(),
                l == self@,
                picacc == pic_sum(l.pictures.subrange(0, pi as int)),
            decreases self.pictures@.len() - pi,
        {
            let p = &self.pictures[pi];
            picacc = crate::fp::fp_add_exec(
                picacc,
                crate::fp::fp_add_exec(p.position.x, p.position.y),
            );
            proof {
                assert(l.pictures.subrange(0, pi + 1).drop_last() =~= l.pictures.subrange(
                    0,
                    pi as int,
                ));
                assert(l.pictures.subrange(0, pi + 1).last() == l.pictures[pi as int]);
                assert(l.pictures[pi as int] == self.pictures@[pi as int]@);
            }
            pi += 1;
        }
        proof {
            assert(l.pictures.subrange(0, l.pictures.len() as int) =~= l.pictures);
        }
        proof {
            reveal(integrity_base);
        }
        let sum = crate::fp::fp_mul_exec(
            crate::fp::fp_add_exec(crate::fp::fp_add_exec(polyacc, objacc), picacc),
            0x40A95F8755B0D05C,
        );
        let r1 = random_u32();
        let r2 = random_u32();
        let r3 = random_u32();
        let t1 = crate::fp::fp_add_exec(crate::fp::fp_from_u64_exec((r1 % 5871) as u64), B11877);
        let s1 = crate::fp::fp_add_exec(t1, crate::fp::fp_neg_exec(sum));
        let t2 = if valid_topology {
            crate::fp::fp_add_exec(crate::fp::fp_from_u64_exec((r2 % 5871) as u64), B11877)
        } else {
            crate::fp::fp_add_exec(crate::fp::fp_from_u64_exec((r2 % 4982) as u64), B20961)
        };
        let s2 = crate::fp::fp_add_exec(t2, crate::fp::fp_neg_exec(sum));
        let t3 = crate::fp::fp_add_exec(crate::fp::fp_from_u64_exec((r3 % 6102) as u64), B12112);
        let s3 = crate::fp::fp_add_exec(t3, crate::fp::fp_neg_exec(sum));
        let out: [u64; 4] = [sum, s1, s2, s3];
        proof {
            reveal(integrity_sums);
            assert(out@ =~= integrity_sums(l, valid_topology, r1, r2, r3));
            assert(out@ == integrity_sums(l, valid_topology, r1, r2, r3));
        }
        out
    }
}

} // verus!

verus! {

/// Copies a best-times list entry by entry.
fn clone_entries(v: &Vec<TimeEntry>) -> (r: Vec<TimeEntry>)
    ensures
        r@ =~= v@,
{
    let mut out: Vec<TimeEntry> = Vec::new();
    let mut i: usize = 0;
    while i < v.len()
        invariant
            i <= v@.len(),
            out@ =~= v@.subrange(0, i as int),
        decreases v@.len() - i,
    {
        out.push(v[i].clone());
        assert(out@ =~= v@.subrange(0, i + 1));
        i += 1;
    }
    assert(out@ =~= v@.subrange(0, v@.len() as int));
    out
}

impl Level {
    /// Writes one polygon: grass flag, vertex count, vertices.
    #[verifier::rlimit(100)]
    #[verifier::spinoff_prover]
    fn write_one_polygon(out: &mut Vec<u8>, p: &Polygon)
        ensures
            final(out)@ == old(out)@ + ser_polygon(p@),
    {
        let nverts = p.vertices.len();
        push_i32(out, if p.grass { 1 } else { 0 });
        push_u32(out, ((nverts as u64) % 0x1_0000_0000u64) as u32);
        let ghost polybase = out@;
        let mut j: usize = 0;
        while j < p.vertices.len()
            invariant
                j <= p.vertices@.len(),
                out@ == polybase + ser_vertices(p.vertices@.subrange(0, j as int)),
            decreases p.vertices@.len() - j,
        {
            let v = p.vertices[j];
            push_u64(out, v.x);
            push_u64(out, v.y);
            proof {
                assert(p.vertices@.subrange(0, j + 1).drop_last() =~= p.vertices@.subrange(
                    0,
                    j as int,
                ));
                assert(p.vertices@.subrange(0, j + 1).last() == v);
                assert(out@ =~= polybase + ser_vertices(p.vertices@.subrange(0, j + 1)));
            }
            j += 1;
        }
        proof {
            assert(p.vertices@.subrange(0, p.vertices@.len() as int) =~= p.vertices@);
            assert(out@ =~= old(out)@ + ser_polygon(p@));
        }
    }

    /// Writes the polygon section: the sentinel count, then each polygon.
    fn write_polygons(&self) -> (r: Vec<u8>)
        ensures
            r@ == le_u64_of(
                count_to_bits(
                    (self@.polygons.len() % 0x1_0000_0000_0000_0000) as u64,
                    POLY_SENTINEL_M,
                    54,
                ),
            ) + ser_polygons(self@.polygons),
    {
        let ghost l = self@;
        proof {
            lemma_sentinels();
        }
        let mut out: Vec<u8> = Vec::new();
        push_u64(
            &mut out,
            crate::fp::count_encode(self.polygons.len() as u64, POLY_SENTINEL_M, 54),
        );
        let ghost header = out@;
        let mut i: usize = 0;
        while i < self.polygons.len()
            invariant
                i <= self.polygons@.len(),
                l == self@,
                out@ == header + ser_polygons(l.polygons.subrange(0, i as int)),
            decreases self.polygons@.len() - i,
        {
            Level::write_one_polygon(&mut out, &self.polygons[i]);
            proof {
                assert(l.polygons.subrange(0, i + 1).drop_last() =~= l.polygons.subrange(
                    0,
                    i as int,
                ));
                assert(l.polygons.subrange(0, i + 1).last() == l.polygons[i as int]);
                assert(l.polygons[i as int] == self.polygons@[i as int]@);
                assert(out@ =~= header + ser_polygons(l.polygons.subrange(0, i + 1)));
            }
            i += 1;
        }
        proof {
            assert(l.polygons.subrange(0, l.polygons.len() as int) =~= l.polygons);
        }
        out
    }

    /// Writes one 28-byte object record.
    #[verifier::rlimit(100)]
    #[verifier::spinoff_prover]
    fn write_one_object(out: &mut Vec<u8>, o: &Object)
        ensures
            final(out)@ == old(out)@ + ser_object(o@),
    {
        push_u64(out, o.position.x);
        push_u64(out, o.position.y);
        push_i32(
            out,
            match o.object_type {
                ObjectType::Exit => 1,
                ObjectType::Apple { .. } => 2,
                ObjectType::Killer => 3,
                ObjectType::Player => 4,
            },
        );
        push_i32(
            out,
            match o.object_type {
                ObjectType::Apple { gravity: GravityDirection::Up, .. } => 1,
                ObjectType::Apple { gravity: GravityDirection::Down, .. } => 2,
                ObjectType::Apple { gravity: GravityDirection::Left, .. } => 3,
                ObjectType::Apple { gravity: GravityDirection::Right, .. } => 4,
                _ => 0,
            },
        );
        push_i32(
            out,
            match o.object_type {
                ObjectType::Apple { animation: n, .. } => n.wrapping_sub(1),
                _ => 0,
            },
        );
        proof {
            assert(out@ =~= old(out)@ + ser_object(o@));
        }
    }

    /// Writes the object section: the sentinel count, then each record.
    fn write_objects(&self) -> (r: Vec<u8>)
        ensures
            r@ == le_u64_of(
                count_to_bits(
                    (self@.objects.len() % 0x1_0000_0000_0000_0000) as u64,
                    POLY_SENTINEL_M,
                    54,
                ),
            ) + ser_objects(self@.objects),
    {
        let ghost l = self@;
        proof {
            lemma_sentinels();
        }
        let mut out: Vec<u8> = Vec::new();
        push_u64(
            &mut out,
            crate::fp::count_encode(self.objects.len() as u64, POLY_SENTINEL_M, 54),
        );
        let ghost header = out@;
        let mut i: usize = 0;
        while i < self.objects.len()
            invariant
                i <= self.objects@.len(),
                l == self@,
                out@ == header + ser_objects(l.objects.subrange(0, i as int)),
            decreases self.objects@.len() - i,
        {
            Level::write_one_object(&mut out, &self.objects[i]);
            proof {
                assert(l.objects.subrange(0, i + 1).drop_last() =~= l.objects.subrange(
                    0,
                    i as int,
                ));
                assert(l.objects.subrange(0, i + 1).last() == l.objects[i as int]);
                assert(l.objects[i as int] == self.objects@[i as int]@);
                assert(out@ =~= header + ser_objects(l.objects.subrange(0, i + 1)));
            }
            i += 1;
        }
        proof {
            assert(l.objects.subrange(0, l.objects.len() as int) =~= l.objects);
        }
        out
    }

    /// Writes the picture section: the sentinel count, then each record;
    /// fails on the first picture name that does not fit its field.
    #[verifier::rlimit(100)]
    #[verifier::spinoff_prover]
    fn write_pictures(&self) -> (r: Result<Vec<u8>, ElmaError>)
        ensures
            match r {
                Ok(v) => pics_write_err(self@.pictures, 0) is None && v@ == le_u64_of(
                    count_to_bits(
                        (self@.pictures.len() % 0x1_0000_0000_0000_0000) as u64,
                        PIC_SENTINEL_M,
                        55,
                    ),
                ) + ser_pictures(self@.pictures),
                Err(e) => pics_write_err(self@.pictures, 0) == Some(e),
            },
    {
        let ghost l = self@;
        proof {
            lemma_sentinels();
        }
        let mut out: Vec<u8> = Vec::new();
        push_u64(
            &mut out,
            crate::fp::count_encode(self.pictures.len() as u64, PIC_SENTINEL_M, 55),
        );
        let ghost header = out@;
        let mut i: usize = 0;
        while i < self.pictures.len()
            invariant
                i <= self.pictures@.len(),
                l == self@,
                out@ == header + ser_pictures(l.pictures.subrange(0, i as int)),
                forall|m: int| 0 <= m < i ==> #[trigger] pics_write_err_at(l.pictures, m) is None,
            decreases self.pictures@.len() - i,
        {
            let p = &self.pictures[i];
            assert(l.pictures[i as int] == self.pictures@[i as int]@);
            let name = match crate::utils::string_null_pad(p.name.as_str(), 10) {
                Ok(v) => v,
                Err(e) => {
                    proof {
                        lemma_pics_err_at(l.pictures, i as int, 0, e);
                    }
                    return Err(e);
                },
            };
            let texture = match crate::utils::string_null_pad(p.texture.as_str(), 10) {
                Ok(v) => v,
                Err(e) => {
                    proof {
                        lemma_pics_err_at(l.pictures, i as int, 0, e);
                    }
                    return Err(e);
                },
            };
            let mask = match crate::utils::string_null_pad(p.mask.as_str(), 10) {
                Ok(v) => v,
                Err(e) => {
                    proof {
                        lemma_pics_err_at(l.pictures, i as int, 0, e);
                    }
                    return Err(e);
                },
            };
            let ghost picbase = out@;
            let mut nm = name;
            let mut tx = texture;
            let mut mk = mask;
            out.append(&mut nm);
            out.append(&mut tx);
            out.append(&mut mk);
            push_u64(&mut out, p.position.x);
            push_u64(&mut out, p.position.y);
            push_i32(&mut out, p.distance);
            push_i32(
                &mut out,
                match p.clip {
                    Clip::Unclipped => 0,
                    Clip::Ground => 1,
                    Clip::Sky => 2,
                },
            );
            proof {
                assert(out@ == picbase + ser_picture(l.pictures[i as int])) by {
                    assert(pad_name(l.pictures[i as int].name, 10) + pad_name(
                        l.pictures[i as int].texture,
                        10,
                    ) + pad_name(l.pictures[i as int].mask, 10) + le_u64_of(
                        l.pictures[i as int].position.x,
                    ) + le_u64_of(l.pictures[i as int].position.y) + le_u32_of(
                        bits_of_i32(l.pictures[i as int].distance),
                    ) + le_u32_of(bits_of_i32(clip_code(l.pictures[i as int].clip)))
                        == ser_picture(l.pictures[i as int]));
                }
                assert(l.pictures.subrange(0, i + 1).drop_last() =~= l.pictures.subrange(
                    0,
                    i as int,
                ));
                assert(l.pictures.subrange(0, i + 1).last() == l.pictures[i as int]);
            }
            i += 1;
        }
        proof {
            assert(l.pictures.subrange(0, l.pictures.len() as int) =~= l.pictures);
            lemma_pics_err_none(l.pictures, 0);
        }
        Ok(out)
    }
}

/// When pictures before `n` pad cleanly and picture `n` does not, the
/// section's first error is picture `n`'s.
proof fn lemma_pics_err_at(s: Seq<PicData>, n: int, from: int, e: ElmaError)
    requires
        0 <= from <= n < s.len(),
        forall|m: int| from <= m < n ==> #[trigger] pics_write_err_at(s, m) is None,
        pics_write_err_at(s, n) == Some(e),
    ensures
        pics_write_err(s, from) == Some(e),
    decreases n - from,
{
    if from < n {
        lemma_pics_err_at(s, n, from + 1, e);
    }
}

/// When every picture from `from` on pads cleanly there is no section error.
proof fn lemma_pics_err_none(s: Seq<PicData>, from: int)
    requires
        0 <= from,
        forall|m: int| from <= m < s.len() ==> #[trigger] pics_write_err_at(s, m) is None,
    ensures
        pics_write_err(s, from) is None,
    decreases s.len() - from,
{
    if from < s.len() {
        lemma_pics_err_none(s, from + 1);
    }
}

} // verus!

verus! {

impl Level {
    /// Converts all struct fields into raw binary form, recomputing the
    /// four integrity sums. With `Top10Save::Yes` the best times are sorted
    /// ascending, truncated to ten per list and ciphered into the file;
    /// with `Top10Save::No` the region holds the cipher of null bytes.
    #[verifier::rlimit(100)]
    #[verifier::spinoff_prover]
    pub fn to_bytes(&self, top_10: Top10Save) -> (r: Result<Vec<u8>, ElmaError>)
        ensures
            match r {
                Ok(v) => lev_write_err(self@, top_10 == Top10Save::Yes) is None && exists|
                    n1: u32,
                    n2: u32,
                    n3: u32,
                |
                    v@ == ser_level(
                        self@,
                        integrity_sums(self@, true, n1, n2, n3),
                        top_10 == Top10Save::Yes,
                    ),
                Err(e) => lev_write_err(self@, top_10 == Top10Save::Yes) == Some(e),
            },
    {
        let ghost l = self@;
        let keep = match top_10 {
            Top10Save::Yes => true,
            Top10Save::No => false,
        };
        match self.version {
            Version::Across => {
                return Err(ElmaError::AcrossUnsupported);
            },
            Version::Elma => {},
        }
        // Validate the string fields in file order before assembling.
        let name_b = match crate::utils::string_null_pad(self.name.as_str(), 51) {
            Ok(v) => v,
            Err(e) => {
                return Err(e);
            },
        };
        let lgr_b = match crate::utils::string_null_pad(self.lgr.as_str(), 16) {
            Ok(v) => v,
            Err(e) => {
                return Err(e);
            },
        };
        let ground_b = match crate::utils::string_null_pad(self.ground.as_str(), 10) {
            Ok(v) => v,
            Err(e) => {
                return Err(e);
            },
        };
        let sky_b = match crate::utils::string_null_pad(self.sky.as_str(), 10) {
            Ok(v) => v,
            Err(e) => {
                return Err(e);
            },
        };
        self.to_bytes_tail(keep, name_b, lgr_b, ground_b, sky_b)
    }

    /// Writes the sections past the validated string fields.
    #[verifier::rlimit(100)]
    #[verifier::spinoff_prover]
    fn to_bytes_tail(
        &self,
        keep: bool,
        name_b: Vec<u8>,
        lgr_b: Vec<u8>,
        ground_b: Vec<u8>,
        sky_b: Vec<u8>,
    ) -> (r: Result<Vec<u8>, ElmaError>)
        requires
            name_b@ == pad_name(self@.name, 51),
            lgr_b@ == pad_name(self@.lgr, 16),
            ground_b@ == pad_name(self@.ground, 10),
            sky_b@ == pad_name(self@.sky, 10),
        ensures
            match r {
                Ok(v) => pics_write_err(self@.pictures, 0) is None && (keep ==> top10_write_err(
                    crate::shared::sort_entries(self@.single),
                ) is None && top10_write_err(crate::shared::sort_entries(self@.multi)) is None)
                    && exists|n1: u32, n2: u32, n3: u32|
                    v@ == ser_level(self@, integrity_sums(self@, true, n1, n2, n3), keep),
                Err(e) => pics_write_err(self@.pictures, 0) == Some(e) || (pics_write_err(
                    self@.pictures,
                    0,
                ) is None && keep && (top10_write_err(crate::shared::sort_entries(self@.single))
                    == Some(e) || (top10_write_err(crate::shared::sort_entries(self@.single))
                    is None && top10_write_err(crate::shared::sort_entries(self@.multi)) == Some(
                    e,
                )))),
            },
    {
        let ghost l = self@;
        let parts = match self.section_bytes(keep) {
            Ok(v) => v,
            Err(e) => {
                return Err(e);
            },
        };
        let (polys_b, objs_b, pics_b, region) = parts;
        let integrity = self.calculate_integrity_sums(true);
        let ghost (n1, n2, n3) = choose|n1: u32, n2: u32, n3: u32|
            integrity@ == integrity_sums(l, true, n1, n2, n3);
        let out = Level::assemble(
            self.link,
            integrity,
            name_b,
            lgr_b,
            ground_b,
            sky_b,
            polys_b,
            objs_b,
            pics_b,
            region,
            Ghost(l),
            Ghost(keep),
        );
        Ok(out)
    }


    /// Writes the three element sections and the ciphered best-times
    /// region, or the first error among the picture and best-times names.
    #[verifier::rlimit(100)]
    #[verifier::spinoff_prover]
    fn section_bytes(&self, keep: bool) -> (r: Result<
        (Vec<u8>, Vec<u8>, Vec<u8>, Vec<u8>),
        ElmaError,
    >)
        ensures
            match r {
                Ok(v) => {
                    &&& pics_write_err(self@.pictures, 0) is None
                    &&& (keep ==> top10_write_err(crate::shared::sort_entries(self@.single))
                        is None && top10_write_err(crate::shared::sort_entries(self@.multi))
                        is None)
                    &&& v.0@ == le_u64_of(
                        count_to_bits(
                            (self@.polygons.len() % 0x1_0000_0000_0000_0000) as u64,
                            POLY_SENTINEL_M,
                            54,
                        ),
                    ) + ser_polygons(self@.polygons)
                    &&& v.1@ == le_u64_of(
                        count_to_bits(
                            (self@.objects.len() % 0x1_0000_0000_0000_0000) as u64,
                            POLY_SENTINEL_M,
                            54,
                        ),
                    ) + ser_objects(self@.objects)
                    &&& v.2@ == le_u64_of(
                        count_to_bits(
                            (self@.pictures.len() % 0x1_0000_0000_0000_0000) as u64,
                            PIC_SENTINEL_M,
                            55,
                        ),
                    ) + ser_pictures(self@.pictures)
                    &&& v.3@ == crypt_top10_seq(t10_plain(self@, keep))
                },
                Err(e) => pics_write_err(self@.pictures, 0) == Some(e) || (pics_write_err(
                    self@.pictures,
                    0,
                ) is None && keep && (top10_write_err(crate::shared::sort_entries(self@.single))
                    == Some(e) || (top10_write_err(crate::shared::sort_entries(self@.single))
                    is None && top10_write_err(crate::shared::sort_entries(self@.multi)) == Some(
                    e,
                )))),
            },
    {
        let polys_b = self.write_polygons();
        let objs_b = self.write_objects();
        let pics_b = match self.write_pictures() {
            Ok(v) => v,
            Err(e) => {
                return Err(e);
            },
        };
        let region = match self.top10_region(keep) {
            Ok(v) => v,
            Err(e) => {
                return Err(e);
            },
        };
        Ok((polys_b, objs_b, pics_b, region))
    }

    /// Joins the validated parts of a level file in file order.
    #[verifier::rlimit(100)]
    #[verifier::spinoff_prover]
    fn assemble(
        link: u32,
        integrity: [u64; 4],
        name_b: Vec<u8>,
        lgr_b: Vec<u8>,
        ground_b: Vec<u8>,
        sky_b: Vec<u8>,
        polys_b: Vec<u8>,
        objs_b: Vec<u8>,
        pics_b: Vec<u8>,
        region: Vec<u8>,
        Ghost(l): Ghost<LevelData>,
        Ghost(keep): Ghost<bool>,
    ) -> (r: Vec<u8>)
        requires
            link == l.link,
            name_b@ == pad_name(l.name, 51),
            lgr_b@ == pad_name(l.lgr, 16),
            ground_b@ == pad_name(l.ground, 10),
            sky_b@ == pad_name(l.sky, 10),
            polys_b@ == le_u64_of(
                count_to_bits(
                    (l.polygons.len() % 0x1_0000_0000_0000_0000) as u64,
                    POLY_SENTINEL_M,
                    54,
                ),
            ) + ser_polygons(l.polygons),
            objs_b@ == le_u64_of(
                count_to_bits(
                    (l.objects.len() % 0x1_0000_0000_0000_0000) as u64,
                    POLY_SENTINEL_M,
                    54,
                ),
            ) + ser_objects(l.objects),
            pics_b@ == le_u64_of(
                count_to_bits(
                    (l.pictures.len() % 0x1_0000_0000_0000_0000) as u64,
                    PIC_SENTINEL_M,
                    55,
                ),
            ) + ser_pictures(l.pictures),
            region@ == crypt_top10_seq(t10_plain(l, keep)),
        ensures
            r@ == ser_level(l, integrity@, keep),
    {
        let mut out: Vec<u8> = Vec::new();
        out.push(80);
        out.push(79);
        out.push(84);
        out.push(49);
        out.push(52);
        assert(out@ =~= elma_tag());
        push_u16(&mut out, (link % 0x1_0000) as u16);
        push_u32(&mut out, link);
        push_u64(&mut out, integrity[0]);
        push_u64(&mut out, integrity[1]);
        push_u64(&mut out, integrity[2]);
        push_u64(&mut out, integrity[3]);
        let mut nm = name_b;
        let mut lg = lgr_b;
        let mut gr = ground_b;
        let mut sk = sky_b;
        let mut po = polys_b;
        let mut ob = objs_b;
        let mut pc = pics_b;
        let mut rg = region;
        out.append(&mut nm);
        out.append(&mut lg);
        out.append(&mut gr);
        out.append(&mut sk);
        out.append(&mut po);
        out.append(&mut ob);
        out.append(&mut pc);
        push_i32(&mut out, EOD);
        out.append(&mut rg);
        push_i32(&mut out, EOF_MARKER);
        proof {
            reveal(ser_level);
            assert(out@ =~= ser_level(l, integrity@, keep));
        }
        out
    }

    /// Builds the 688 ciphered bytes of the best-times region.
    #[verifier::rlimit(100)]
    #[verifier::spinoff_prover]
    fn top10_region(&self, keep: bool) -> (r: Result<Vec<u8>, ElmaError>)
        ensures
            match r {
                Ok(v) => v@ == crypt_top10_seq(t10_plain(self@, keep)) && (keep
                    ==> top10_write_err(crate::shared::sort_entries(self@.single)) is None
                    && top10_write_err(crate::shared::sort_entries(self@.multi)) is None),
                Err(e) => keep && (top10_write_err(crate::shared::sort_entries(self@.single))
                    == Some(e) || (top10_write_err(crate::shared::sort_entries(self@.single))
                    is None && top10_write_err(crate::shared::sort_entries(self@.multi)) == Some(
                    e,
                ))),
            },
    {
        if keep {
            let mut single = clone_entries(&self.best_times.single);
            let mut multi = clone_entries(&self.best_times.multi);
            crate::shared::sort_entries_exec(&mut single);
            crate::shared::sort_entries_exec(&mut multi);
            assert(single@.map_values(|e: TimeEntry| e@) == crate::shared::sort_entries(
                self@.single,
            ));
            assert(multi@.map_values(|e: TimeEntry| e@) == crate::shared::sort_entries(
                self@.multi,
            ));
            let sorted = crate::BestTimes { single, multi };
            let plain = match crate::utils::write_top10(&sorted) {
                Ok(v) => v,
                Err(e) => {
                    return Err(e);
                },
            };
            proof {
                reveal(t10_plain);
            }
            assert(plain@ == t10_plain(self@, true));
            Ok(crypt_top10(plain.as_slice()))
        } else {
            let mut plain: Vec<u8> = Vec::new();
            let mut i: usize = 0;
            while i < 688
                invariant
                    i <= 688,
                    plain@ =~= zero_region().subrange(0, i as int),
                decreases 688 - i,
            {
                plain.push(0);
                assert(plain@ =~= zero_region().subrange(0, i + 1));
                i += 1;
            }
            assert(plain@ =~= zero_region());
            proof {
                reveal(t10_plain);
            }
            Ok(crypt_top10(plain.as_slice()))
        }
    }
}

} // verus!

verus! {

/// The best-times region round trip: sorting a list ascending, storing its
/// block, ciphering the region and deciphering it again gives back exactly
/// the ten lowest-time entries in ascending order, whenever every name
/// fits its field. The cipher layer cancels because the keystream cipher
/// is its own inverse.
pub proof fn lemma_best_times_round(entries: Seq<EntryData>)
    requires
        forall|i: int|
            0 <= i < entries.len() ==> crate::utils::name_fits(
                #[trigger] entries[i].name_a,
                15,
            ) && crate::utils::name_fits(entries[i].name_b, 15),
    ensures
        ({
            let sorted = crate::shared::sort_entries(entries);
            &&& crate::shared::entries_sorted(sorted)
            &&& sorted.to_multiset() == entries.to_multiset()
            &&& crate::crypt::crypt_seq(
                crate::crypt::crypt_seq(
                    crate::utils::ser_top10_block(sorted),
                    crate::crypt::TOP10_SEED_A,
                    crate::crypt::TOP10_SEED_B,
                    crate::crypt::TOP10_MODULUS,
                    688,
                ),
                crate::crypt::TOP10_SEED_A,
                crate::crypt::TOP10_SEED_B,
                crate::crypt::TOP10_MODULUS,
                688,
            ) == crate::utils::ser_top10_block(sorted)
            &&& parse_top10_block(crate::utils::ser_top10_block(sorted), 0) == Ok::<
                Seq<EntryData>,
                ElmaError,
            >(sorted.take(crate::utils::top10_stored(sorted.len() as int)))
        }),
{
    let sorted = crate::shared::sort_entries(entries);
    crate::shared::lemma_sort_entries_sorted(entries);
    crate::crypt::lemma_crypt_involution(
        crate::utils::ser_top10_block(sorted),
        crate::crypt::TOP10_SEED_A,
        crate::crypt::TOP10_SEED_B,
        crate::crypt::TOP10_MODULUS,
        688,
    );
    // Every sorted entry is one of the given entries, so its names fit.
    assert forall|n: int|
        0 <= n < sorted.len() && n < 10 implies crate::utils::name_fits(
        #[trigger] sorted[n].name_a,
        15,
    ) && crate::utils::name_fits(sorted[n].name_b, 15) by {
        sorted.to_multiset_ensures();
        entries.to_multiset_ensures();
        assert(sorted.to_multiset().count(sorted[n]) > 0) by {
            assert(sorted.contains(sorted[n]));
        }
        assert(entries.contains(sorted[n]));
        let i = choose|i: int| 0 <= i < entries.len() && entries[i] == sorted[n];
        assert(crate::utils::name_fits(entries[i].name_a, 15));
    }
    crate::utils::lemma_top10_round(sorted);
}

} // verus!

verus! {

/// An emptied best-times region decodes to two empty lists: a null block's
/// count word is zero, so no entry is read from it.
pub proof fn lemma_zero_region_empty(b: Seq<u8>, off: int)
    requires
        0 <= off,
        off + 344 <= b.len(),
        forall|j: int| off <= j < off + 344 ==> #[trigger] b[j] == 0,
    ensures
        top10_count_ok(b, off),
        parse_top10_block(b, off) == Ok::<Seq<EntryData>, ElmaError>(Seq::<EntryData>::empty()),
{
    assert(b[off + 0] == 0 && b[off + 1] == 0 && b[off + 2] == 0 && b[off + 3] == 0);
    assert(le_u32_at(b, off) == 0);
    assert(parse_top10_block(b, off) == crate::utils::parse_top10_entries(b, off, 0, 0));
}

} // verus!

verus! {

// ---------------------------------------------------------------------------
// Round trip of the whole level format: reading back what the serializer
// wrote. The lemmas walk each section front to back, so the serializers'
// back-to-front recursions are first turned around.
// ---------------------------------------------------------------------------

proof fn lemma_ser_vertices_len(s: Seq<Position<u64>>)
    ensures
        ser_vertices(s).len() == 16 * s.len(),
    decreases s.len(),
{
    if s.len() > 0 {
        lemma_ser_vertices_len(s.drop_last());
    }
}

proof fn lemma_ser_polygons_len(s: Seq<PolygonData>)
    ensures
        s.len() > 0 ==> ser_polygons(s).len() == ser_polygons(s.drop_last()).len() + 8 + 16
            * s.last().vertices.len(),
        s.len() == 0 ==> ser_polygons(s).len() == 0,
    decreases s.len(),
{
    if s.len() > 0 {
        lemma_ser_vertices_len(s.last().vertices);
    }
}

proof fn lemma_ser_objects_len(s: Seq<ObjectData>)
    ensures
        ser_objects(s).len() == 28 * s.len(),
    decreases s.len(),
{
    if s.len() > 0 {
        lemma_ser_objects_len(s.drop_last());
    }
}

proof fn lemma_ser_pictures_len(s: Seq<PicData>)
    ensures
        ser_pictures(s).len() == 54 * s.len(),
    decreases s.len(),
{
    if s.len() > 0 {
        lemma_ser_pictures_len(s.drop_last());
    }
}

proof fn lemma_ser_vertices_first(s: Seq<Position<u64>>)
    requires
        s.len() > 0,
    ensures
        ser_vertices(s) =~= ser_vertex(s[0]) + ser_vertices(s.drop_first()),
    decreases s.len(),
{
    if s.len() == 1 {
        assert(s.drop_last() =~= Seq::<Position<u64>>::empty());
        assert(s.drop_first() =~= Seq::<Position<u64>>::empty());
        assert(s.last() == s[0]);
    } else {
        let dl = s.drop_last();
        lemma_ser_vertices_first(dl);
        assert(s.drop_first().drop_last() =~= dl.drop_first());
        assert(s.drop_first().last() == s.last());
    }
}

proof fn lemma_ser_polygons_first(s: Seq<PolygonData>)
    requires
        s.len() > 0,
    ensures
        ser_polygons(s) =~= ser_polygon(s[0]) + ser_polygons(s.drop_first()),
    decreases s.len(),
{
    if s.len() == 1 {
        assert(s.drop_last() =~= Seq::<PolygonData>::empty());
        assert(s.drop_first() =~= Seq::<PolygonData>::empty());
        assert(s.last() == s[0]);
    } else {
        let dl = s.drop_last();
        lemma_ser_polygons_first(dl);
        assert(s.drop_first().drop_last() =~= dl.drop_first());
        assert(s.drop_first().last() == s.last());
    }
}

proof fn lemma_ser_objects_first(s: Seq<ObjectData>)
    requires
        s.len() > 0,
    ensures
        ser_objects(s) =~= ser_object(s[0]) + ser_objects(s.drop_first()),
    decreases s.len(),
{
    if s.len() == 1 {
        assert(s.drop_last() =~= Seq::<ObjectData>::empty());
        assert(s.drop_first() =~= Seq::<ObjectData>::empty());
        assert(s.last() == s[0]);
    } else {
        let dl = s.drop_last();
        lemma_ser_objects_first(dl);
        assert(s.drop_first().drop_last() =~= dl.drop_first());
        assert(s.drop_first().last() == s.last());
    }
}

proof fn lemma_ser_pictures_first(s: Seq<PicData>)
    requires
        s.len() > 0,
    ensures
        ser_pictures(s) =~= ser_picture(s[0]) + ser_pictures(s.drop_first()),
    decreases s.len(),
{
    if s.len() == 1 {
        assert(s.drop_last() =~= Seq::<PicData>::empty());
        assert(s.drop_first() =~= Seq::<PicData>::empty());
        assert(s.last() == s[0]);
    } else {
        let dl = s.drop_last();
        lemma_ser_pictures_first(dl);
        assert(s.drop_first().drop_last() =~= dl.drop_first());
        assert(s.drop_first().last() == s.last());
    }
}

} // verus!

verus! {

/// Reading back one written vertex gives its coordinates.
proof fn lemma_vertex_read(b: Seq<u8>, off: int, v: Position<u64>)
    requires
        0 <= off,
        off + 16 <= b.len(),
        forall|j: int| 0 <= j < 16 ==> b[off + j] == ser_vertex(v)[j],
    ensures
        le_u64_at(b, off) == v.x,
        le_u64_at(b, off + 8) == v.y,
{
    assert forall|j: int| 0 <= j < 8 implies b[off + j] == le_u64_of(v.x)[j] by {
        assert(b[off + j] == ser_vertex(v)[j]);
    }
    crate::bytes::lemma_le_u64_read(b, off, v.x);
    assert forall|j: int| 0 <= j < 8 implies b[(off + 8) + j] == le_u64_of(v.y)[j] by {
        assert(b[off + (8 + j)] == ser_vertex(v)[8 + j]);
    }
    crate::bytes::lemma_le_u64_read(b, off + 8, v.y);
}

/// Reading back a written vertex list gives every coordinate.
#[verifier::rlimit(100)]
#[verifier::spinoff_prover]
proof fn lemma_vertices_read(b: Seq<u8>, off: int, vs: Seq<Position<u64>>)
    requires
        0 <= off,
        off + 16 * vs.len() <= b.len(),
        forall|j: int| 0 <= j < 16 * vs.len() ==> b[off + j] == ser_vertices(vs)[j],
    ensures
        forall|i: int|
            0 <= i < vs.len() ==> le_u64_at(b, off + 16 * i) == (#[trigger] vs[i]).x && le_u64_at(
                b,
                off + 16 * i + 8,
            ) == vs[i].y,
    decreases vs.len(),
{
    lemma_ser_vertices_len(vs);
    if vs.len() > 0 {
        lemma_ser_vertices_first(vs);
        let rest = vs.drop_first();
        lemma_ser_vertices_len(rest);
        assert forall|j: int| 0 <= j < 16 implies b[off + j] == ser_vertex(vs[0])[j] by {
            assert(b[off + j] == ser_vertices(vs)[j]);
        }
        lemma_vertex_read(b, off, vs[0]);
        assert forall|j: int|
            0 <= j < 16 * rest.len() implies b[(off + 16) + j] == ser_vertices(rest)[j] by {
            assert(b[off + (16 + j)] == ser_vertices(vs)[16 + j]);
        }
        lemma_vertices_read(b, off + 16, rest);
        assert forall|i: int|
            0 <= i < vs.len() implies le_u64_at(b, off + 16 * i) == (#[trigger] vs[i]).x
            && le_u64_at(b, off + 16 * i + 8) == vs[i].y by {
            if i > 0 {
                assert(rest[i - 1] == vs[i]);
                assert(le_u64_at(b, (off + 16) + 16 * (i - 1)) == rest[i - 1].x);
                assert(le_u64_at(b, (off + 16) + 16 * (i - 1) + 8) == rest[i - 1].y);
            }
        }
    }
}

/// Reading back one written polygon, then the rest of the section, gives
/// the polygons and the position after them.
#[verifier::rlimit(100)]
#[verifier::spinoff_prover]
proof fn lemma_parse_ser_polygons(b: Seq<u8>, off: int, s: Seq<PolygonData>)
    requires
        0 <= off,
        off + ser_polygons(s).len() <= b.len(),
        forall|j: int| 0 <= j < ser_polygons(s).len() ==> b[off + j] == ser_polygons(s)[j],
        forall|i: int| 0 <= i < s.len() ==> (#[trigger] s[i]).vertices.len() < 0x8000_0000,
    ensures
        parse_polygons_s(b, off, s.len() as int) == Ok::<(Seq<PolygonData>, int), ElmaError>(
            (s, off + ser_polygons(s).len()),
        ),
    decreases s.len(),
{
    if s.len() == 0 {
        assert(s =~= Seq::<PolygonData>::empty());
    } else {
        lemma_ser_polygons_first(s);
        let p0 = s[0];
        let k = p0.vertices.len() as int;
        lemma_ser_vertices_len(p0.vertices);
        lemma_ser_polygons_len(s);
        let rest = s.drop_first();
        let head_len = 8 + 16 * k;
        assert(ser_polygons(s).len() == head_len + ser_polygons(rest).len()) by {
            lemma_ser_total_len_first(s);
        }
        // The grass flag.
        let g: i32 = if p0.grass {
            1
        } else {
            0
        };
        assert forall|j: int| 0 <= j < 4 implies b[off + j] == le_u32_of(bits_of_i32(g))[j] by {
            assert(b[off + j] == ser_polygons(s)[j]);
            assert(ser_polygons(s)[j] == ser_polygon(p0)[j]);
        }
        crate::bytes::lemma_le_u32_read(b, off, bits_of_i32(g));
        crate::bytes::lemma_i32_bits_round(g);
        assert((i32_of_bits(le_u32_at(b, off)) > 0) == p0.grass);
        // The vertex count.
        let cnt: u32 = (p0.vertices.len() % 0x1_0000_0000) as u32;
        assert forall|j: int| 0 <= j < 4 implies b[(off + 4) + j] == le_u32_of(cnt)[j] by {
            assert(b[off + (4 + j)] == ser_polygons(s)[4 + j]);
            assert(ser_polygons(s)[4 + j] == ser_polygon(p0)[4 + j]);
        }
        crate::bytes::lemma_le_u32_read(b, off + 4, cnt);
        assert(cnt == p0.vertices.len());
        assert(i32_of_bits(le_u32_at(b, off + 4)) == k);
        // The vertices.
        assert forall|j: int|
            0 <= j < 16 * k implies b[(off + 8) + j] == ser_vertices(p0.vertices)[j] by {
            assert(b[off + (8 + j)] == ser_polygons(s)[8 + j]);
            assert(ser_polygons(s)[8 + j] == ser_polygon(p0)[8 + j]);
        }
        lemma_vertices_read(b, off + 8, p0.vertices);
        let verts = Seq::new(
            k as nat,
            |i: int|
                Position { x: le_u64_at(b, off + 8 + 16 * i), y: le_u64_at(b, off + 8 + 16 * i + 8) },
        );
        assert(verts =~= p0.vertices);
        // The rest of the section.
        assert forall|j: int|
            0 <= j < ser_polygons(rest).len() implies b[(off + head_len) + j] == ser_polygons(
            rest,
        )[j] by {
            assert(b[off + (head_len + j)] == ser_polygons(s)[head_len + j]);
        }
        assert forall|i: int|
            0 <= i < rest.len() implies (#[trigger] rest[i]).vertices.len() < 0x8000_0000 by {
            assert(rest[i] == s[i + 1]);
        }
        lemma_parse_ser_polygons(b, off + head_len, rest);
        assert(seq![PolygonData { grass: p0.grass, vertices: verts }] + rest =~= s);
    }
}

/// The section's length is the first polygon's record and the rest.
proof fn lemma_ser_total_len_first(s: Seq<PolygonData>)
    requires
        s.len() > 0,
    ensures
        ser_polygons(s).len() == 8 + 16 * s[0].vertices.len() + ser_polygons(s.drop_first()).len(),
{
    lemma_ser_polygons_first(s);
    lemma_ser_vertices_len(s[0].vertices);
}

} // verus!

verus! {

/// Whether an object's stored animation can be read back: the stored value
/// plus one must fit, which only the smallest stored word breaks.
pub open spec fn object_round_ready(k: ObjectType) -> bool {
    match k {
        ObjectType::Apple { animation, .. } => animation != i32::MIN,
        _ => true,
    }
}

/// Reading back one written object record gives the object.
#[verifier::rlimit(100)]
#[verifier::spinoff_prover]
proof fn lemma_object_read(b: Seq<u8>, pos: int, o: ObjectData)
    requires
        0 <= pos,
        pos + 28 <= b.len(),
        forall|j: int| 0 <= j < 28 ==> b[pos + j] == ser_object(o)[j],
        object_round_ready(o.object_type),
    ensures
        parse_object_s(b, pos) == Ok::<ObjectData, ElmaError>(o),
{
    assert forall|j: int| 0 <= j < 8 implies b[pos + j] == le_u64_of(o.position.x)[j] by {
        assert(b[pos + j] == ser_object(o)[j]);
    }
    crate::bytes::lemma_le_u64_read(b, pos, o.position.x);
    assert forall|j: int| 0 <= j < 8 implies b[(pos + 8) + j] == le_u64_of(o.position.y)[j] by {
        assert(b[pos + (8 + j)] == ser_object(o)[8 + j]);
    }
    crate::bytes::lemma_le_u64_read(b, pos + 8, o.position.y);
    assert forall|j: int|
        0 <= j < 4 implies b[(pos + 16) + j] == le_u32_of(bits_of_i32(object_code(o.object_type)))[j] by {
        assert(b[pos + (16 + j)] == ser_object(o)[16 + j]);
    }
    crate::bytes::lemma_le_u32_read(b, pos + 16, bits_of_i32(object_code(o.object_type)));
    crate::bytes::lemma_i32_bits_round(object_code(o.object_type));
    assert forall|j: int|
        0 <= j < 4 implies b[(pos + 20) + j] == le_u32_of(
        bits_of_i32(gravity_code(o.object_type)),
    )[j] by {
        assert(b[pos + (20 + j)] == ser_object(o)[20 + j]);
    }
    crate::bytes::lemma_le_u32_read(b, pos + 20, bits_of_i32(gravity_code(o.object_type)));
    crate::bytes::lemma_i32_bits_round(gravity_code(o.object_type));
    assert forall|j: int|
        0 <= j < 4 implies b[(pos + 24) + j] == le_u32_of(
        bits_of_i32(animation_code(o.object_type)),
    )[j] by {
        assert(b[pos + (24 + j)] == ser_object(o)[24 + j]);
    }
    crate::bytes::lemma_le_u32_read(b, pos + 24, bits_of_i32(animation_code(o.object_type)));
    crate::bytes::lemma_i32_bits_round(animation_code(o.object_type));
}

/// Reading back a written object section gives the objects.
#[verifier::rlimit(100)]
#[verifier::spinoff_prover]
proof fn lemma_parse_ser_objects(b: Seq<u8>, off: int, s: Seq<ObjectData>)
    requires
        0 <= off,
        off + 28 * s.len() <= b.len(),
        forall|j: int| 0 <= j < 28 * s.len() ==> b[off + j] == ser_objects(s)[j],
        forall|i: int| 0 <= i < s.len() ==> object_round_ready((#[trigger] s[i]).object_type),
    ensures
        parse_objects_s(b, off, s.len() as int) == Ok::<Seq<ObjectData>, ElmaError>(s),
    decreases s.len(),
{
    lemma_ser_objects_len(s);
    if s.len() == 0 {
        assert(s =~= Seq::<ObjectData>::empty());
    } else {
        lemma_ser_objects_first(s);
        let rest = s.drop_first();
        lemma_ser_objects_len(rest);
        assert forall|j: int| 0 <= j < 28 implies b[off + j] == ser_object(s[0])[j] by {
            assert(b[off + j] == ser_objects(s)[j]);
        }
        lemma_object_read(b, off, s[0]);
        assert forall|j: int|
            0 <= j < 28 * rest.len() implies b[(off + 28) + j] == ser_objects(rest)[j] by {
            assert(b[off + (28 + j)] == ser_objects(s)[28 + j]);
        }
        assert forall|i: int|
            0 <= i < rest.len() implies object_round_ready((#[trigger] rest[i]).object_type) by {
            assert(rest[i] == s[i + 1]);
        }
        lemma_parse_ser_objects(b, off + 28, rest);
        assert(seq![s[0]] + rest =~= s);
    }
}

/// Reading back one written picture record gives the picture, whenever its
/// three names fit their fields.
#[verifier::rlimit(100)]
#[verifier::spinoff_prover]
proof fn lemma_picture_read(b: Seq<u8>, pos: int, p: PicData)
    requires
        0 <= pos,
        pos + 54 <= b.len(),
        forall|j: int| 0 <= j < 54 ==> b[pos + j] == ser_picture(p)[j],
        crate::utils::name_fits(p.name, 10),
        crate::utils::name_fits(p.texture, 10),
        crate::utils::name_fits(p.mask, 10),
    ensures
        parse_picture_s(b, pos) == Ok::<PicData, ElmaError>(p),
{
    assert forall|j: int| 0 <= j < 10 implies b[pos + j] == pad_name(p.name, 10)[j] by {
        assert(b[pos + j] == ser_picture(p)[j]);
    }
    crate::utils::lemma_trim_pad_round(p.name, 10, b, pos);
    assert forall|j: int| 0 <= j < 10 implies b[(pos + 10) + j] == pad_name(p.texture, 10)[j] by {
        assert(b[pos + (10 + j)] == ser_picture(p)[10 + j]);
    }
    crate::utils::lemma_trim_pad_round(p.texture, 10, b, pos + 10);
    assert forall|j: int| 0 <= j < 10 implies b[(pos + 20) + j] == pad_name(p.mask, 10)[j] by {
        assert(b[pos + (20 + j)] == ser_picture(p)[20 + j]);
    }
    crate::utils::lemma_trim_pad_round(p.mask, 10, b, pos + 20);
    assert forall|j: int| 0 <= j < 8 implies b[(pos + 30) + j] == le_u64_of(p.position.x)[j] by {
        assert(b[pos + (30 + j)] == ser_picture(p)[30 + j]);
    }
    crate::bytes::lemma_le_u64_read(b, pos + 30, p.position.x);
    assert forall|j: int| 0 <= j < 8 implies b[(pos + 38) + j] == le_u64_of(p.position.y)[j] by {
        assert(b[pos + (38 + j)] == ser_picture(p)[38 + j]);
    }
    crate::bytes::lemma_le_u64_read(b, pos + 38, p.position.y);
    assert forall|j: int|
        0 <= j < 4 implies b[(pos + 46) + j] == le_u32_of(bits_of_i32(p.distance))[j] by {
        assert(b[pos + (46 + j)] == ser_picture(p)[46 + j]);
    }
    crate::bytes::lemma_le_u32_read(b, pos + 46, bits_of_i32(p.distance));
    crate::bytes::lemma_i32_bits_round(p.distance);
    assert forall|j: int|
        0 <= j < 4 implies b[(pos + 50) + j] == le_u32_of(bits_of_i32(clip_code(p.clip)))[j] by {
        assert(b[pos + (50 + j)] == ser_picture(p)[50 + j]);
    }
    crate::bytes::lemma_le_u32_read(b, pos + 50, bits_of_i32(clip_code(p.clip)));
    crate::bytes::lemma_i32_bits_round(clip_code(p.clip));
}

/// Reading back a written picture section gives the pictures.
#[verifier::rlimit(100)]
#[verifier::spinoff_prover]
proof fn lemma_parse_ser_pictures(b: Seq<u8>, off: int, s: Seq<PicData>)
    requires
        0 <= off,
        off + 54 * s.len() <= b.len(),
        forall|j: int| 0 <= j < 54 * s.len() ==> b[off + j] == ser_pictures(s)[j],
        forall|i: int|
            0 <= i < s.len() ==> crate::utils::name_fits((#[trigger] s[i]).name, 10)
                && crate::utils::name_fits(s[i].texture, 10) && crate::utils::name_fits(
                s[i].mask,
                10,
            ),
    ensures
        parse_pictures_s(b, off, s.len() as int) == Ok::<Seq<PicData>, ElmaError>(s),
    decreases s.len(),
{
    lemma_ser_pictures_len(s);
    if s.len() == 0 {
        assert(s =~= Seq::<PicData>::empty());
    } else {
        lemma_ser_pictures_first(s);
        let rest = s.drop_first();
        lemma_ser_pictures_len(rest);
        assert forall|j: int| 0 <= j < 54 implies b[off + j] == ser_picture(s[0])[j] by {
            assert(b[off + j] == ser_pictures(s)[j]);
        }
        lemma_picture_read(b, off, s[0]);
        assert forall|j: int|
            0 <= j < 54 * rest.len() implies b[(off + 54) + j] == ser_pictures(rest)[j] by {
            assert(b[off + (54 + j)] == ser_pictures(s)[54 + j]);
        }
        assert forall|i: int|
            0 <= i < rest.len() implies crate::utils::name_fits((#[trigger] rest[i]).name, 10)
            && crate::utils::name_fits(rest[i].texture, 10) && crate::utils::name_fits(
            rest[i].mask,
            10,
        ) by {
            assert(rest[i] == s[i + 1]);
        }
        lemma_parse_ser_pictures(b, off + 54, rest);
        assert(seq![s[0]] + rest =~= s);
    }
}

} // verus!

verus! {

/// What survives an encode-decode round trip: every field except the
/// integrity doubles, which the encoder regenerates, and the best times,
/// which come back sorted and truncated to ten when kept and empty when
/// not.
pub open spec fn level_round_result(l: LevelData, integ: Seq<u64>, keep: bool) -> LevelData {
    LevelData {
        version: Version::Elma,
        integrity: integ,
        single: if keep {
            crate::shared::sort_entries(l.single).take(
                crate::utils::top10_stored(crate::shared::sort_entries(l.single).len() as int),
            )
        } else {
            Seq::<EntryData>::empty()
        },
        multi: if keep {
            crate::shared::sort_entries(l.multi).take(
                crate::utils::top10_stored(crate::shared::sort_entries(l.multi).len() as int),
            )
        } else {
            Seq::<EntryData>::empty()
        },
        ..l
    }
}

/// A level whose encoding reads back exactly: its version is the supported
/// one, its strings fit their fields without null characters, its element
/// counts fit the stored words, and no apple carries the one animation
/// value whose stored form cannot be read back.
pub open spec fn level_round_ready(l: LevelData, keep: bool) -> bool {
    &&& l.version == Version::Elma
    &&& crate::utils::name_fits(l.name, 51)
    &&& crate::utils::name_fits(l.lgr, 16)
    &&& crate::utils::name_fits(l.ground, 10)
    &&& crate::utils::name_fits(l.sky, 10)
    &&& l.polygons.len() < 0x8000_0000
    &&& forall|i: int| 0 <= i < l.polygons.len() ==> (#[trigger] l.polygons[i]).vertices.len() < 0x8000_0000
    &&& l.objects.len() < 0x8000_0000
    &&& forall|i: int| 0 <= i < l.objects.len() ==> object_round_ready((#[trigger] l.objects[i]).object_type)
    &&& l.pictures.len() < 0x8000_0000
    &&& forall|i: int|
        0 <= i < l.pictures.len() ==> crate::utils::name_fits((#[trigger] l.pictures[i]).name, 10)
            && crate::utils::name_fits(l.pictures[i].texture, 10) && crate::utils::name_fits(
            l.pictures[i].mask,
            10,
        )
    &&& keep ==> forall|i: int|
        0 <= i < l.single.len() ==> crate::utils::name_fits((#[trigger] l.single[i]).name_a, 15)
            && crate::utils::name_fits(l.single[i].name_b, 15)
    &&& keep ==> forall|i: int|
        0 <= i < l.multi.len() ==> crate::utils::name_fits((#[trigger] l.multi[i]).name_a, 15)
            && crate::utils::name_fits(l.multi[i].name_b, 15)
}

/// Sorting keeps every name fitting: the sorted entries are the entries.
proof fn lemma_sorted_names_fit(entries: Seq<EntryData>)
    requires
        forall|i: int|
            0 <= i < entries.len() ==> crate::utils::name_fits(
                (#[trigger] entries[i]).name_a,
                15,
            ) && crate::utils::name_fits(entries[i].name_b, 15),
    ensures
        forall|n: int|
            0 <= n < crate::shared::sort_entries(entries).len() ==> crate::utils::name_fits(
                (#[trigger] crate::shared::sort_entries(entries)[n]).name_a,
                15,
            ) && crate::utils::name_fits(crate::shared::sort_entries(entries)[n].name_b, 15),
{
    let sorted = crate::shared::sort_entries(entries);
    crate::shared::lemma_sort_entries_sorted(entries);
    assert forall|n: int|
        0 <= n < sorted.len() implies crate::utils::name_fits(
        (#[trigger] sorted[n]).name_a,
        15,
    ) && crate::utils::name_fits(sorted[n].name_b, 15) by {
        sorted.to_multiset_ensures();
        entries.to_multiset_ensures();
        assert(sorted.to_multiset().count(sorted[n]) > 0) by {
            assert(sorted.contains(sorted[n]));
        }
        assert(entries.contains(sorted[n]));
        let i = choose|i: int| 0 <= i < entries.len() && entries[i] == sorted[n];
        assert(crate::utils::name_fits(entries[i].name_a, 15));
    }
}

} // verus!

verus! {

/// The polygon, object and picture sections of a level's encoding, named
/// once for the layout facts.
pub open spec fn lev_sections(l: LevelData) -> (Seq<u8>, Seq<u8>, Seq<u8>) {
    (ser_polygons(l.polygons), ser_objects(l.objects), ser_pictures(l.pictures))
}

/// The total length of a level's encoding.
#[verifier::rlimit(100)]
#[verifier::spinoff_prover]
proof fn lemma_level_len(l: LevelData, integ: Seq<u64>, keep: bool)
    ensures
        ({
            let (sp, so, spc) = lev_sections(l);
            ser_level(l, integ, keep).len() == 138 + sp.len() + 8 + so.len() + 8 + spc.len() + 696
        }),
        crypt_top10_seq(t10_plain(l, keep)).len() == 688,
{
    reveal(ser_level);
    reveal(t10_plain);
}

/// A level's encoding regrouped from the right, which makes every region's
/// offset one or two steps deep.
pub open spec fn ser_level_grouped(l: LevelData, integ: Seq<u64>, keep: bool) -> Seq<u8> {
    let (sp, so, spc) = lev_sections(l);
    let head = elma_tag() + le_u16_of((l.link % 0x1_0000) as u16) + le_u32_of(l.link) + le_u64_of(
        integ[0],
    ) + le_u64_of(integ[1]) + le_u64_of(integ[2]) + le_u64_of(integ[3]);
    let mids = pad_name(l.name, 51) + pad_name(l.lgr, 16) + pad_name(l.ground, 10) + pad_name(
        l.sky,
        10,
    ) + le_u64_of(
        count_to_bits((l.polygons.len() % 0x1_0000_0000_0000_0000) as u64, POLY_SENTINEL_M, 54),
    );
    head + (mids + (sp + (le_u64_of(
        count_to_bits((l.objects.len() % 0x1_0000_0000_0000_0000) as u64, POLY_SENTINEL_M, 54),
    ) + (so + (le_u64_of(
        count_to_bits((l.pictures.len() % 0x1_0000_0000_0000_0000) as u64, PIC_SENTINEL_M, 55),
    ) + (spc + (le_u32_of(bits_of_i32(EOD)) + (crypt_top10_seq(t10_plain(l, keep)) + le_u32_of(
        bits_of_i32(EOF_MARKER),
    )))))))))
}

/// The two groupings hold the same bytes.
#[verifier::rlimit(100)]
#[verifier::spinoff_prover]
proof fn lemma_level_grouped(l: LevelData, integ: Seq<u64>, keep: bool)
    ensures
        ser_level(l, integ, keep) =~= ser_level_grouped(l, integ, keep),
{
    reveal(ser_level);
}

} // verus!

verus! {

/// Where every field of a level's encoding stands.
#[verifier::rlimit(100)]
#[verifier::spinoff_prover]
proof fn lemma_level_layout(l: LevelData, integ: Seq<u64>, keep: bool)
    requires
        integ.len() == 4,
    ensures
        ({
            let b = ser_level(l, integ, keep);
            let (sp, so, spc) = lev_sections(l);
            let o_obj = 138 + sp.len() as int;
            let o_pic = o_obj + 8 + so.len() as int;
            let o_eod = o_pic + 8 + spc.len() as int;
            &&& forall|j: int| 0 <= j < 5 ==> b[j] == elma_tag()[j]
            &&& forall|j: int| 0 <= j < 4 ==> #[trigger] b[7 + j] == le_u32_of(l.link)[j]
            &&& forall|j: int| 0 <= j < 8 ==> #[trigger] b[11 + j] == le_u64_of(integ[0])[j]
            &&& forall|j: int| 0 <= j < 8 ==> #[trigger] b[19 + j] == le_u64_of(integ[1])[j]
            &&& forall|j: int| 0 <= j < 8 ==> #[trigger] b[27 + j] == le_u64_of(integ[2])[j]
            &&& forall|j: int| 0 <= j < 8 ==> #[trigger] b[35 + j] == le_u64_of(integ[3])[j]
            &&& forall|j: int| 0 <= j < 51 ==> #[trigger] b[43 + j] == pad_name(l.name, 51)[j]
            &&& forall|j: int| 0 <= j < 16 ==> #[trigger] b[94 + j] == pad_name(l.lgr, 16)[j]
            &&& forall|j: int| 0 <= j < 10 ==> #[trigger] b[110 + j] == pad_name(l.ground, 10)[j]
            &&& forall|j: int| 0 <= j < 10 ==> #[trigger] b[120 + j] == pad_name(l.sky, 10)[j]
            &&& forall|j: int|
                0 <= j < 8 ==> #[trigger] b[130 + j] == le_u64_of(
                    count_to_bits(
                        (l.polygons.len() % 0x1_0000_0000_0000_0000) as u64,
                        POLY_SENTINEL_M,
                        54,
                    ),
                )[j]
            &&& forall|j: int| 0 <= j < sp.len() ==> #[trigger] b[138 + j] == sp[j]
            &&& forall|j: int|
                0 <= j < 8 ==> #[trigger] b[o_obj + j] == le_u64_of(
                    count_to_bits(
                        (l.objects.len() % 0x1_0000_0000_0000_0000) as u64,
                        POLY_SENTINEL_M,
                        54,
                    ),
                )[j]
            &&& forall|j: int| 0 <= j < so.len() ==> #[trigger] b[o_obj + 8 + j] == so[j]
            &&& forall|j: int|
                0 <= j < 8 ==> #[trigger] b[o_pic + j] == le_u64_of(
                    count_to_bits(
                        (l.pictures.len() % 0x1_0000_0000_0000_0000) as u64,
                        PIC_SENTINEL_M,
                        55,
                    ),
                )[j]
            &&& forall|j: int| 0 <= j < spc.len() ==> #[trigger] b[o_pic + 8 + j] == spc[j]
            &&& forall|j: int|
                0 <= j < 4 ==> #[trigger] b[o_eod + j] == le_u32_of(bits_of_i32(EOD))[j]
            &&& forall|j: int|
                0 <= j < 688 ==> #[trigger] b[o_eod + 4 + j] == crypt_top10_seq(
                    t10_plain(l, keep),
                )[j]
            &&& forall|j: int|
                0 <= j < 4 ==> #[trigger] b[o_eod + 692 + j] == le_u32_of(
                    bits_of_i32(EOF_MARKER),
                )[j]
        }),
{
    lemma_level_grouped(l, integ, keep);
    lemma_level_len(l, integ, keep);
    let b = ser_level(l, integ, keep);
    let g = ser_level_grouped(l, integ, keep);
    assert(b == g);
    assert forall|i: int| 0 <= i < b.len() implies b[i] == g[i] by {}
}

} // verus!

verus! {

/// The polygon section of a written level parses back to its polygons.
#[verifier::rlimit(100)]
#[verifier::spinoff_prover]
proof fn lemma_round_polys(l: LevelData, integ: Seq<u64>, keep: bool)
    requires
        integ.len() == 4,
        level_round_ready(l, keep),
    ensures
        parse_poly_section(ser_level(l, integ, keep)) == Ok::<(Seq<PolygonData>, int), ElmaError>(
            (l.polygons, 138 + lev_sections(l).0.len() as int),
        ),
{
    let b = ser_level(l, integ, keep);
    let (sp, so, spc) = lev_sections(l);
    lemma_level_layout(l, integ, keep);
    lemma_level_len(l, integ, keep);
    lemma_sentinels();
    vstd::arithmetic::power2::lemma2_to64_rest();
    let np = l.polygons.len() as u64;
    assert((l.polygons.len() % 0x1_0000_0000_0000_0000) as u64 == np);
    crate::bytes::lemma_le_u64_read(b, 130, count_to_bits(np, POLY_SENTINEL_M, 54));
    crate::fp::lemma_count_round(np, POLY_SENTINEL_M, 54);
    assert(count_of_bits(le_u64_at(b, 130), POLY_SENTINEL_M, 54) == np);
    lemma_parse_ser_polygons(b, 138, l.polygons);
}

/// The object section of a written level parses back to its objects.
#[verifier::rlimit(100)]
#[verifier::spinoff_prover]
proof fn lemma_round_objs(l: LevelData, integ: Seq<u64>, keep: bool)
    requires
        integ.len() == 4,
        level_round_ready(l, keep),
    ensures
        parse_obj_section(ser_level(l, integ, keep), 138 + lev_sections(l).0.len() as int) == Ok::<
            (Seq<ObjectData>, int),
            ElmaError,
        >((l.objects, 146 + lev_sections(l).0.len() + lev_sections(l).1.len() as int)),
{
    let b = ser_level(l, integ, keep);
    let (sp, so, spc) = lev_sections(l);
    let o_obj = 138 + sp.len() as int;
    lemma_level_layout(l, integ, keep);
    lemma_level_len(l, integ, keep);
    lemma_sentinels();
    vstd::arithmetic::power2::lemma2_to64_rest();
    lemma_ser_objects_len(l.objects);
    let no = l.objects.len() as u64;
    assert((l.objects.len() % 0x1_0000_0000_0000_0000) as u64 == no);
    crate::bytes::lemma_le_u64_read(b, o_obj, count_to_bits(no, POLY_SENTINEL_M, 54));
    crate::fp::lemma_count_round(no, POLY_SENTINEL_M, 54);
    assert forall|j: int| 0 <= j < 28 * l.objects.len() implies b[(o_obj + 8) + j] == so[j] by {
        assert(b[o_obj + 8 + j] == so[j]);
    }
    lemma_parse_ser_objects(b, o_obj + 8, l.objects);
}

/// The picture section of a written level parses back to its pictures.
#[verifier::rlimit(100)]
#[verifier::spinoff_prover]
proof fn lemma_round_pics(l: LevelData, integ: Seq<u64>, keep: bool)
    requires
        integ.len() == 4,
        level_round_ready(l, keep),
    ensures
        parse_pic_section(
            ser_level(l, integ, keep),
            146 + lev_sections(l).0.len() + lev_sections(l).1.len() as int,
        ) == Ok::<(Seq<PicData>, int), ElmaError>(
            (
                l.pictures,
                154 + lev_sections(l).0.len() + lev_sections(l).1.len() + lev_sections(
                    l,
                ).2.len() as int,
            ),
        ),
{
    let b = ser_level(l, integ, keep);
    let (sp, so, spc) = lev_sections(l);
    let o_pic = 146 + sp.len() + so.len() as int;
    lemma_level_layout(l, integ, keep);
    lemma_level_len(l, integ, keep);
    lemma_sentinels();
    vstd::arithmetic::power2::lemma2_to64_rest();
    lemma_ser_pictures_len(l.pictures);
    let npc = l.pictures.len() as u64;
    assert((l.pictures.len() % 0x1_0000_0000_0000_0000) as u64 == npc);
    crate::bytes::lemma_le_u64_read(b, o_pic, count_to_bits(npc, PIC_SENTINEL_M, 55));
    crate::fp::lemma_count_round(npc, PIC_SENTINEL_M, 55);
    assert forall|j: int| 0 <= j < 54 * l.pictures.len() implies b[(o_pic + 8) + j] == spc[j] by {
        assert(b[o_pic + 8 + j] == spc[j]);
    }
    lemma_parse_ser_pictures(b, o_pic + 8, l.pictures);
}

} // verus!

verus! {

/// Deciphering the written region gives the plain best-times bytes back.
#[verifier::rlimit(100)]
#[verifier::spinoff_prover]
proof fn lemma_round_region_plain(l: LevelData, integ: Seq<u64>, keep: bool)
    requires
        integ.len() == 4,
    ensures
        ({
            let b = ser_level(l, integ, keep);
            let (sp, so, spc) = lev_sections(l);
            let o_eod = 154 + sp.len() + so.len() + spc.len() as int;
            crypt_top10_seq(b.subrange(o_eod + 4, o_eod + 692)) == t10_plain(l, keep)
        }),
{
    let b = ser_level(l, integ, keep);
    let (sp, so, spc) = lev_sections(l);
    let o_eod = 154 + sp.len() + so.len() + spc.len() as int;
    lemma_level_layout(l, integ, keep);
    lemma_level_len(l, integ, keep);
    let t10 = t10_plain(l, keep);
    assert(t10.len() == 688) by {
        reveal(t10_plain);
    }
    assert(b.subrange(o_eod + 4, o_eod + 692) =~= crypt_top10_seq(t10)) by {
        assert forall|j: int|
            0 <= j < 688 implies b.subrange(o_eod + 4, o_eod + 692)[j] == crypt_top10_seq(t10)[j] by {
            assert(b[o_eod + 4 + j] == crypt_top10_seq(t10)[j]);
        }
    }
    crate::crypt::lemma_crypt_involution(
        t10,
        crate::crypt::TOP10_SEED_A,
        crate::crypt::TOP10_SEED_B,
        crate::crypt::TOP10_MODULUS,
        688,
    );
}

/// The best-times region of a written level parses back: the plain blocks
/// hold the sorted first ten entries of each list when kept, and nothing
/// otherwise.
#[verifier::rlimit(100)]
#[verifier::spinoff_prover]
proof fn lemma_round_region(l: LevelData, integ: Seq<u64>, keep: bool)
    requires
        integ.len() == 4,
        level_round_ready(l, keep),
    ensures
        ({
            let b = ser_level(l, integ, keep);
            let (sp, so, spc) = lev_sections(l);
            let o_eod = 154 + sp.len() + so.len() + spc.len() as int;
            parse_level_top10_s(b, o_eod + 4) == Ok::<(Seq<EntryData>, Seq<EntryData>), ElmaError>(
                (
                    level_round_result(l, integ, keep).single,
                    level_round_result(l, integ, keep).multi,
                ),
            )
        }),
{
    let b = ser_level(l, integ, keep);
    let (sp, so, spc) = lev_sections(l);
    let o_eod = 154 + sp.len() + so.len() + spc.len() as int;
    lemma_round_region_plain(l, integ, keep);
    let plain = crypt_top10_seq(b.subrange(o_eod + 4, o_eod + 692));
    assert(plain == t10_plain(l, keep));
    assert(t10_plain(l, keep).len() == 688) by {
        reveal(t10_plain);
    }
    reveal(t10_plain);
    if keep {
        let ss = crate::shared::sort_entries(l.single);
        let sm = crate::shared::sort_entries(l.multi);
        assert(plain.subrange(0, 344) =~= crate::utils::ser_top10_block(ss));
        assert(plain.subrange(344, 688) =~= crate::utils::ser_top10_block(sm));
        lemma_sorted_names_fit(l.single);
        lemma_sorted_names_fit(l.multi);
        crate::utils::lemma_top10_round(ss);
        crate::utils::lemma_top10_round(sm);
    } else {
        let half_a = plain.subrange(0, 344);
        let half_b = plain.subrange(344, 688);
        assert forall|j: int| 0 <= j < 344 implies #[trigger] half_a[0 + j] == 0 by {
            assert(half_a[j] == zero_region()[j]);
        }
        lemma_zero_region_empty(half_a, 0);
        assert forall|j: int| 0 <= j < 344 implies #[trigger] half_b[0 + j] == 0 by {
            assert(half_b[j] == zero_region()[344 + j]);
        }
        lemma_zero_region_empty(half_b, 0);
    }
}

/// The tail of a written level parses back: the markers stand and the
/// best-times region decodes.
#[verifier::rlimit(100)]
#[verifier::spinoff_prover]
proof fn lemma_round_tail(l: LevelData, integ: Seq<u64>, keep: bool, mid: LevelData)
    requires
        integ.len() == 4,
        level_round_ready(l, keep),
        mid == (LevelData {
            polygons: l.polygons,
            objects: l.objects,
            pictures: l.pictures,
            ..level_head(l.link, integ, l.name, l.lgr, l.ground, l.sky)
        }),
    ensures
        ({
            let b = ser_level(l, integ, keep);
            let (sp, so, spc) = lev_sections(l);
            let o_eod = 154 + sp.len() + so.len() + spc.len() as int;
            parse_level_tail(b, mid, o_eod) == Ok::<LevelData, ElmaError>(
                level_round_result(l, integ, keep),
            )
        }),
{
    let b = ser_level(l, integ, keep);
    let (sp, so, spc) = lev_sections(l);
    let o_eod = 154 + sp.len() + so.len() + spc.len() as int;
    lemma_level_layout(l, integ, keep);
    lemma_level_len(l, integ, keep);
    crate::bytes::lemma_le_u32_read(b, o_eod, bits_of_i32(EOD));
    crate::bytes::lemma_i32_bits_round(EOD);
    lemma_round_region(l, integ, keep);
    assert forall|j: int|
        0 <= j < 4 implies b[(o_eod + 4 + 688) + j] == le_u32_of(bits_of_i32(EOF_MARKER))[j] by {
        assert(b[o_eod + 692 + j] == le_u32_of(bits_of_i32(EOF_MARKER))[j]);
    }
    crate::bytes::lemma_le_u32_read(b, o_eod + 4 + 688, bits_of_i32(EOF_MARKER));
    crate::bytes::lemma_i32_bits_round(EOF_MARKER);
}

/// Decoding what the serializer wrote gives the level back: every field
/// except the freshly written integrity doubles, with the best times
/// sorted ascending and truncated to ten per list when kept and cleared
/// when not.
#[verifier::rlimit(100)]
#[verifier::spinoff_prover]
pub proof fn lemma_level_round(l: LevelData, integ: Seq<u64>, keep: bool)
    requires
        integ.len() == 4,
        level_round_ready(l, keep),
    ensures
        parse_level_s(ser_level(l, integ, keep)) == Ok::<LevelData, ElmaError>(
            level_round_result(l, integ, keep),
        ),
{
    let b = ser_level(l, integ, keep);
    let (sp, so, spc) = lev_sections(l);
    let o_obj = 138 + sp.len() as int;
    let o_pic = o_obj + 8 + so.len() as int;
    let o_eod = o_pic + 8 + spc.len() as int;
    lemma_level_layout(l, integ, keep);
    lemma_level_len(l, integ, keep);
    // The version tag.
    assert(b.subrange(0, 5) =~= elma_tag());
    assert(b.subrange(0, 5) != across_tag()) by {
        assert(b.subrange(0, 5)[3] == 49);
        assert(across_tag()[3] == 48);
    }
    // The link and the integrity doubles.
    crate::bytes::lemma_le_u32_read(b, 7, l.link);
    crate::bytes::lemma_le_u64_read(b, 11, integ[0]);
    crate::bytes::lemma_le_u64_read(b, 19, integ[1]);
    crate::bytes::lemma_le_u64_read(b, 27, integ[2]);
    crate::bytes::lemma_le_u64_read(b, 35, integ[3]);
    assert(Seq::new(4, |i: int| le_u64_at(b, 11 + 8 * i)) =~= integ) by {
        assert(le_u64_at(b, 11 + 8 * 0int) == integ[0]);
        assert(le_u64_at(b, 11 + 8 * 1int) == integ[1]);
        assert(le_u64_at(b, 11 + 8 * 2int) == integ[2]);
        assert(le_u64_at(b, 11 + 8 * 3int) == integ[3]);
    }
    // The four name fields.
    crate::utils::lemma_trim_pad_round(l.name, 51, b, 43);
    crate::utils::lemma_trim_pad_round(l.lgr, 16, b, 94);
    crate::utils::lemma_trim_pad_round(l.ground, 10, b, 110);
    crate::utils::lemma_trim_pad_round(l.sky, 10, b, 120);
    let head = level_head(l.link, integ, l.name, l.lgr, l.ground, l.sky);
    assert(parse_level_s(b) == parse_level_body(b, head));
    // The three sections.
    lemma_round_polys(l, integ, keep);
    lemma_round_objs(l, integ, keep);
    lemma_round_pics(l, integ, keep);
    lemma_body_sections(b, head, l.polygons, o_obj, l.objects, o_pic, l.pictures, o_eod);
    let mid = LevelData { polygons: l.polygons, objects: l.objects, pictures: l.pictures, ..head };
    lemma_round_tail(l, integ, keep, mid);
}

} // verus!

verus! {

/// A buffer that agrees with a written level below the end-of-data marker
/// decodes the same polygon section.
#[verifier::rlimit(100)]
#[verifier::spinoff_prover]
proof fn lemma_prefix_polys(l: LevelData, integ: Seq<u64>, keep: bool, b2: Seq<u8>)
    requires
        integ.len() == 4,
        level_round_ready(l, keep),
        b2.len() == ser_level(l, integ, keep).len(),
        forall|j: int|
            0 <= j < 154 + lev_sections(l).0.len() + lev_sections(l).1.len() + lev_sections(
                l,
            ).2.len() ==> #[trigger] b2[j] == ser_level(l, integ, keep)[j],
    ensures
        parse_poly_section(b2) == Ok::<(Seq<PolygonData>, int), ElmaError>(
            (l.polygons, 138 + lev_sections(l).0.len() as int),
        ),
{
    let b = ser_level(l, integ, keep);
    let (sp, so, spc) = lev_sections(l);
    lemma_level_layout(l, integ, keep);
    lemma_level_len(l, integ, keep);
    lemma_sentinels();
    vstd::arithmetic::power2::lemma2_to64_rest();
    let np = l.polygons.len() as u64;
    crate::bytes::lemma_le_u64_read(b2, 130, count_to_bits(np, POLY_SENTINEL_M, 54));
    crate::fp::lemma_count_round(np, POLY_SENTINEL_M, 54);
    lemma_parse_ser_polygons(b2, 138, l.polygons);
}

/// The same for the object section.
#[verifier::rlimit(100)]
#[verifier::spinoff_prover]
proof fn lemma_prefix_objs(l: LevelData, integ: Seq<u64>, keep: bool, b2: Seq<u8>)
    requires
        integ.len() == 4,
        level_round_ready(l, keep),
        b2.len() == ser_level(l, integ, keep).len(),
        forall|j: int|
            0 <= j < 154 + lev_sections(l).0.len() + lev_sections(l).1.len() + lev_sections(
                l,
            ).2.len() ==> #[trigger] b2[j] == ser_level(l, integ, keep)[j],
    ensures
        parse_obj_section(b2, 138 + lev_sections(l).0.len() as int) == Ok::<
            (Seq<ObjectData>, int),
            ElmaError,
        >((l.objects, 146 + lev_sections(l).0.len() + lev_sections(l).1.len() as int)),
{
    let b = ser_level(l, integ, keep);
    let (sp, so, spc) = lev_sections(l);
    let o_obj = 138 + sp.len() as int;
    lemma_level_layout(l, integ, keep);
    lemma_level_len(l, integ, keep);
    lemma_sentinels();
    vstd::arithmetic::power2::lemma2_to64_rest();
    lemma_ser_objects_len(l.objects);
    let no = l.objects.len() as u64;
    crate::bytes::lemma_le_u64_read(b2, o_obj, count_to_bits(no, POLY_SENTINEL_M, 54));
    crate::fp::lemma_count_round(no, POLY_SENTINEL_M, 54);
    assert forall|j: int| 0 <= j < 28 * l.objects.len() implies b2[(o_obj + 8) + j] == so[j] by {
        assert(b2[o_obj + 8 + j] == b[o_obj + 8 + j]);
        assert(b[o_obj + 8 + j] == so[j]);
    }
    lemma_parse_ser_objects(b2, o_obj + 8, l.objects);
}

/// The same for the picture section.
#[verifier::rlimit(100)]
#[verifier::spinoff_prover]
proof fn lemma_prefix_pics(l: LevelData, integ: Seq<u64>, keep: bool, b2: Seq<u8>)
    requires
        integ.len() == 4,
        level_round_ready(l, keep),
        b2.len() == ser_level(l, integ, keep).len(),
        forall|j: int|
            0 <= j < 154 + lev_sections(l).0.len() + lev_sections(l).1.len() + lev_sections(
                l,
            ).2.len() ==> #[trigger] b2[j] == ser_level(l, integ, keep)[j],
    ensures
        parse_pic_section(
            b2,
            146 + lev_sections(l).0.len() + lev_sections(l).1.len() as int,
        ) == Ok::<(Seq<PicData>, int), ElmaError>(
            (
                l.pictures,
                154 + lev_sections(l).0.len() + lev_sections(l).1.len() + lev_sections(
                    l,
                ).2.len() as int,
            ),
        ),
{
    let b = ser_level(l, integ, keep);
    let (sp, so, spc) = lev_sections(l);
    let o_pic = 146 + sp.len() + so.len() as int;
    lemma_level_layout(l, integ, keep);
    lemma_level_len(l, integ, keep);
    lemma_sentinels();
    vstd::arithmetic::power2::lemma2_to64_rest();
    lemma_ser_pictures_len(l.pictures);
    let npc = l.pictures.len() as u64;
    crate::bytes::lemma_le_u64_read(b2, o_pic, count_to_bits(npc, PIC_SENTINEL_M, 55));
    crate::fp::lemma_count_round(npc, PIC_SENTINEL_M, 55);
    assert forall|j: int| 0 <= j < 54 * l.pictures.len() implies b2[(o_pic + 8) + j] == spc[j] by {
        assert(b2[o_pic + 8 + j] == b[o_pic + 8 + j]);
        assert(b[o_pic + 8 + j] == spc[j]);
    }
    lemma_parse_ser_pictures(b2, o_pic + 8, l.pictures);
}

/// A buffer that agrees with a written level below the end-of-data marker
/// decodes the same header.
#[verifier::rlimit(100)]
#[verifier::spinoff_prover]
proof fn lemma_prefix_head(l: LevelData, integ: Seq<u64>, keep: bool, b2: Seq<u8>)
    requires
        integ.len() == 4,
        level_round_ready(l, keep),
        b2.len() == ser_level(l, integ, keep).len(),
        forall|j: int|
            0 <= j < 154 + lev_sections(l).0.len() + lev_sections(l).1.len() + lev_sections(
                l,
            ).2.len() ==> #[trigger] b2[j] == ser_level(l, integ, keep)[j],
    ensures
        parse_level_s(b2) == parse_level_body(
            b2,
            level_head(
                l.link,
                Seq::new(4, |i: int| le_u64_at(b2, 11 + 8 * i)),
                l.name,
                l.lgr,
                l.ground,
                l.sky,
            ),
        ),
{
    let b = ser_level(l, integ, keep);
    lemma_level_layout(l, integ, keep);
    lemma_level_len(l, integ, keep);
    assert(b2.subrange(0, 5) =~= elma_tag());
    assert(b2.subrange(0, 5) != across_tag()) by {
        assert(b2.subrange(0, 5)[3] == 49);
        assert(across_tag()[3] == 48);
    }
    crate::bytes::lemma_le_u32_read(b2, 7, l.link);
    crate::utils::lemma_trim_pad_round(l.name, 51, b2, 43);
    crate::utils::lemma_trim_pad_round(l.lgr, 16, b2, 94);
    crate::utils::lemma_trim_pad_round(l.ground, 10, b2, 110);
    crate::utils::lemma_trim_pad_round(l.sky, 10, b2, 120);
}

/// A buffer that agrees with a written level up to the end-of-data marker
/// parses like it up to there: the header and the three sections decode to
/// the level's own.
#[verifier::rlimit(100)]
#[verifier::spinoff_prover]
proof fn lemma_prefix_parses(l: LevelData, integ: Seq<u64>, keep: bool, b2: Seq<u8>)
    requires
        integ.len() == 4,
        level_round_ready(l, keep),
        b2.len() == ser_level(l, integ, keep).len(),
        forall|j: int|
            0 <= j < 154 + lev_sections(l).0.len() + lev_sections(l).1.len() + lev_sections(
                l,
            ).2.len() ==> #[trigger] b2[j] == ser_level(l, integ, keep)[j],
    ensures
        ({
            let (sp, so, spc) = lev_sections(l);
            let o_eod = 154 + sp.len() + so.len() + spc.len() as int;
            parse_level_s(b2) == parse_level_tail(
                b2,
                LevelData {
                    polygons: l.polygons,
                    objects: l.objects,
                    pictures: l.pictures,
                    ..level_head(
                        l.link,
                        Seq::new(4, |i: int| le_u64_at(b2, 11 + 8 * i)),
                        l.name,
                        l.lgr,
                        l.ground,
                        l.sky,
                    )
                },
                o_eod,
            )
        }),
{
    let (sp, so, spc) = lev_sections(l);
    let o_obj = 138 + sp.len() as int;
    let o_pic = o_obj + 8 + so.len() as int;
    let o_eod = o_pic + 8 + spc.len() as int;
    let head2 = level_head(
        l.link,
        Seq::new(4, |i: int| le_u64_at(b2, 11 + 8 * i)),
        l.name,
        l.lgr,
        l.ground,
        l.sky,
    );
    lemma_prefix_head(l, integ, keep, b2);
    lemma_prefix_polys(l, integ, keep, b2);
    lemma_prefix_objs(l, integ, keep, b2);
    lemma_prefix_pics(l, integ, keep, b2);
    lemma_body_sections(b2, head2, l.polygons, o_obj, l.objects, o_pic, l.pictures, o_eod);
}

/// Flipping any byte inside either magic-marker region of a written level
/// breaks the decode with exactly that marker's mismatch error: the
/// end-of-data marker's error when a marker byte before the best-times
/// region changed, the end-of-file marker's when one after it did.
#[verifier::rlimit(100)]
#[verifier::spinoff_prover]
pub proof fn lemma_marker_reject(l: LevelData, integ: Seq<u64>, keep: bool, b2: Seq<u8>, t: int)
    requires
        integ.len() == 4,
        level_round_ready(l, keep),
        b2.len() == ser_level(l, integ, keep).len(),
        0 <= t < 4,
        forall|j: int|
            0 <= j < b2.len() && j != 154 + lev_sections(l).0.len() + lev_sections(
                l,
            ).1.len() + lev_sections(l).2.len() + t && j != 850 + lev_sections(
                l,
            ).0.len() + lev_sections(l).1.len() + lev_sections(l).2.len() + t ==> #[trigger] b2[j]
                == ser_level(l, integ, keep)[j],
    ensures
        ({
            let b = ser_level(l, integ, keep);
            let (sp, so, spc) = lev_sections(l);
            let o_eod = 154 + sp.len() + so.len() + spc.len() as int;
            let o_eof = o_eod + 692;
            &&& b2[o_eod + t] != b[o_eod + t] ==> parse_level_s(b2) == Err::<
                LevelData,
                ElmaError,
            >(ElmaError::EODMismatch)
            &&& (b2[o_eod + t] == b[o_eod + t] && b2[o_eof + t] != b[o_eof + t])
                ==> parse_level_s(b2) == Err::<LevelData, ElmaError>(ElmaError::EOFMismatch)
        }),
{
    let b = ser_level(l, integ, keep);
    let (sp, so, spc) = lev_sections(l);
    let o_eod = 154 + sp.len() + so.len() + spc.len() as int;
    let o_eof = o_eod + 692;
    lemma_level_layout(l, integ, keep);
    lemma_level_len(l, integ, keep);
    lemma_prefix_parses(l, integ, keep, b2);
    crate::bytes::lemma_i32_bits_round(EOD);
    crate::bytes::lemma_i32_bits_round(EOF_MARKER);
    if b2[o_eod + t] != b[o_eod + t] {
        if le_u32_at(b2, o_eod) == bits_of_i32(EOD) {
            crate::bytes::lemma_le_u32_read(b, o_eod, bits_of_i32(EOD));
            crate::bytes::lemma_le_u32_inj(b2, b, o_eod);
        }
        assert(i32_of_bits(le_u32_at(b2, o_eod)) != EOD) by {
            if i32_of_bits(le_u32_at(b2, o_eod)) == EOD {
                lemma_bits_i32_round(le_u32_at(b2, o_eod));
            }
        }
    } else if b2[o_eof + t] != b[o_eof + t] {
        crate::bytes::lemma_le_u32_read(b2, o_eod, bits_of_i32(EOD));
        assert forall|j: int| 0 <= j < 688 implies #[trigger] b2[o_eod + 4 + j] == b[o_eod + 4
            + j] by {}
        assert(b2.subrange(o_eod + 4, o_eod + 692) =~= b.subrange(o_eod + 4, o_eod + 692));
        lemma_round_region(l, integ, keep);
        assert(parse_level_top10_s(b2, o_eod + 4) == parse_level_top10_s(b, o_eod + 4));
        if le_u32_at(b2, o_eof) == bits_of_i32(EOF_MARKER) {
            crate::bytes::lemma_le_u32_read(b, o_eof, bits_of_i32(EOF_MARKER));
            crate::bytes::lemma_le_u32_inj(b2, b, o_eof);
        }
        assert(i32_of_bits(le_u32_at(b2, o_eof)) != EOF_MARKER) by {
            if i32_of_bits(le_u32_at(b2, o_eof)) == EOF_MARKER {
                lemma_bits_i32_round(le_u32_at(b2, o_eof));
            }
        }
    }
}

/// The bit pattern of a decoded word is the word again.
proof fn lemma_bits_i32_round(v: u32)
    ensures
        bits_of_i32(i32_of_bits(v)) == v,
{
}

} // verus!
