//! String helpers shared by all codecs (null-padded fixed-width ASCII
//! fields) and the best-times block codec: one 344-byte block per list,
//! holding a count, a ten-slot time array and two ten-slot name columns.

use vstd::prelude::*;

use crate::bytes::{
    bits_of_i32, i32_of_bits, le_u32_at, le_u32_of, push_i32, push_u32, read_i32, read_u32,
};
use crate::shared::{BestTimes, EntryData, Time, TimeEntry};
use crate::ElmaError;
use vstd::string::StringSliceAdditionalSpecFns;

verus! {

/// Size of one player's best-times block.
pub const PLAYER_TOP10_SIZE: usize = 344;

// ---------------------------------------------------------------------------
// Null-terminated fixed-width ASCII fields.
// ---------------------------------------------------------------------------

/// Length of the prefix of the `w`-byte field at `off` that stops at the
/// first null byte: the whole field when no byte of it is null.
pub open spec fn field_prefix_len(b: Seq<u8>, off: int, w: int) -> int
    decreases w,
{
    if w <= 0 {
        0
    } else if b[off] == 0 {
        0
    } else {
        1 + field_prefix_len(b, off + 1, w - 1)
    }
}

/// How many leading bytes of the `k`-byte prefix at `off` are ASCII.
pub open spec fn ascii_prefix_len(b: Seq<u8>, off: int, k: int) -> int
    decreases k,
{
    if k <= 0 {
        0
    } else if b[off] >= 0x80 {
        0
    } else {
        1 + ascii_prefix_len(b, off + 1, k - 1)
    }
}

/// Whether every byte of the `k`-byte prefix at `off` is ASCII.
pub open spec fn prefix_ascii(b: Seq<u8>, off: int, k: int) -> bool {
    forall|j: int| 0 <= j < k ==> #[trigger] b[off + j] < 0x80
}

/// The characters of the `k`-byte ASCII prefix at `off`.
pub open spec fn prefix_chars(b: Seq<u8>, off: int, k: int) -> Seq<char> {
    Seq::new(k as nat, |j: int| b[off + j] as char)
}

/// What trimming the field at `off` of width `w` gives: the characters up
/// to the first null byte, or the string error carrying how many leading
/// bytes of that prefix are ASCII.
pub open spec fn trim_field(b: Seq<u8>, off: int, w: int) -> Result<Seq<char>, ElmaError> {
    let k = field_prefix_len(b, off, w);
    if prefix_ascii(b, off, k) {
        Ok(prefix_chars(b, off, k))
    } else {
        Err(ElmaError::StringFromUtf8(ascii_prefix_len(b, off, k) as usize))
    }
}

/// The `w` bytes of an ASCII name padded with null bytes.
pub open spec fn pad_name(name: Seq<char>, w: int) -> Seq<u8> {
    Seq::new(w as nat, |j: int| if j < name.len() { name[j] as u8 } else { 0 })
}

/// A name that a `w`-byte field can carry and give back unchanged:
/// ASCII, at most `w` characters, no null character.
pub open spec fn name_fits(name: Seq<char>, w: int) -> bool {
    &&& name.len() <= w
    &&& forall|j: int| 0 <= j < name.len() ==> 0 < #[trigger] name[j] <= 0x7f
}

/// Trimming a padded name that fits gives the name back.
pub proof fn lemma_trim_pad_round(name: Seq<char>, w: int, b: Seq<u8>, off: int)
    requires
        name_fits(name, w),
        0 <= off,
        forall|j: int| 0 <= j < w ==> b[off + j] == pad_name(name, w)[j],
    ensures
        trim_field(b, off, w) == Ok::<Seq<char>, ElmaError>(name),
{
    lemma_prefix_of_pad(name, w, b, off, 0);
    let k = field_prefix_len(b, off, w);
    assert(k == name.len());
    assert forall|j: int| 0 <= j < k implies #[trigger] b[off + j] == name[j] as u8 by {
        assert(b[off + j] == pad_name(name, w)[j]);
    }
    assert(prefix_ascii(b, off, k));
    assert forall|j: int| 0 <= j < k implies prefix_chars(b, off, k)[j] == name[j] by {
        assert(b[off + j] == name[j] as u8);
        assert(name[j] as u8 as char == name[j]);
    }
    assert(prefix_chars(b, off, k) =~= name);
}

/// Helper induction: from position `p` of the field, the first null byte
/// stands where the name ends.
proof fn lemma_prefix_of_pad(name: Seq<char>, w: int, b: Seq<u8>, off: int, p: int)
    requires
        name_fits(name, w),
        0 <= p <= w,
        forall|j: int| 0 <= j < w ==> b[off + j] == pad_name(name, w)[j],
        p <= name.len(),
    ensures
        field_prefix_len(b, off + p, w - p) == name.len() - p,
    decreases w - p,
{
    if p == w {
    } else if p == name.len() {
        assert(b[off + p] == pad_name(name, w)[p]);
        assert(b[off + p] == 0);
    } else {
        assert(b[off + p] == pad_name(name, w)[p]);
        assert(b[off + p] == name[p] as u8);
        assert(name[p] as u8 != 0);
        lemma_prefix_of_pad(name, w, b, off, p + 1);
    }
}

/// Trims trailing bytes after and including the first null byte and returns
/// the leading bytes as a string; they must all be ASCII, as every persisted
/// string of these formats is.
pub fn trim_string(data: &[u8]) -> (r: Result<String, ElmaError>)
    ensures
        match r {
            Ok(s) => trim_field(data@, 0, data@.len() as int) == Ok::<Seq<char>, ElmaError>(s@),
            Err(e) => trim_field(data@, 0, data@.len() as int) == Err::<Seq<char>, ElmaError>(e),
        },
{
    let mut k: usize = 0;
    while k < data.len() && data[k] != 0
        invariant
            k <= data@.len(),
            forall|j: int| 0 <= j < k ==> data@[j] != 0,
        decreases data@.len() - k,
    {
        k += 1;
    }
    proof {
        lemma_field_prefix_is_first_null(data@, 0, data@.len() as int, k as int);
    }
    let mut out: Vec<u8> = Vec::new();
    let mut j: usize = 0;
    while j < k
        invariant
            j <= k,
            k <= data@.len(),
            field_prefix_len(data@, 0, data@.len() as int) == k as int,
            forall|i: int| 0 <= i < j ==> data@[i] < 0x80,
            out@ =~= data@.subrange(0, j as int),
        decreases k - j,
    {
        let byte = data[j];
        if byte >= 0x80 {
            proof {
                assert forall|i: int| 0 <= i < j implies #[trigger] data@[0 + i] < 0x80 by {
                    assert(data@[i] < 0x80);
                }
                lemma_ascii_prefix_is_first_high(data@, 0, k as int, j as int);
                assert(data@[0 + j as int] >= 0x80);
                assert(!prefix_ascii(data@, 0, k as int));
                assert(ascii_prefix_len(data@, 0, k as int) == j as int);
            }
            return Err(ElmaError::StringFromUtf8(j));
        }
        out.push(byte);
        j += 1;
    }
    proof {
        assert forall|i: int| 0 <= i < k implies #[trigger] data@[0 + i] < 0x80 by {
            assert(data@[i] < 0x80);
        }
        assert(prefix_ascii(data@, 0, k as int));
    }
    let s = ascii_string(out);
    assert forall|i: int| 0 <= i < k implies s@[i] == prefix_chars(data@, 0, k as int)[i] by {
        assert(out@[i] == data@[0 + i]);
    }
    assert(s@ =~= prefix_chars(data@, 0, k as int));
    Ok(s)
}

/// The first-null scan pins `field_prefix_len` down.
proof fn lemma_field_prefix_is_first_null(b: Seq<u8>, off: int, w: int, k: int)
    requires
        0 <= k <= w,
        forall|j: int| 0 <= j < k ==> #[trigger] b[off + j] != 0,
        k < w ==> b[off + k] == 0,
    ensures
        field_prefix_len(b, off, w) == k,
    decreases k,
{
    if k == 0 {
    } else {
        assert(b[off + 0] != 0);
        assert forall|j: int| 0 <= j < k - 1 implies #[trigger] b[(off + 1) + j] != 0 by {
            assert(b[off + (j + 1)] != 0);
        }
        lemma_field_prefix_is_first_null(b, off + 1, w - 1, k - 1);
    }
}

/// The first-high-byte scan pins `ascii_prefix_len` down.
proof fn lemma_ascii_prefix_is_first_high(b: Seq<u8>, off: int, k: int, j: int)
    requires
        0 <= j <= k,
        forall|i: int| 0 <= i < j ==> #[trigger] b[off + i] < 0x80,
        j < k ==> b[off + j] >= 0x80,
    ensures
        ascii_prefix_len(b, off, k) == j,
    decreases j,
{
    if j == 0 {
    } else {
        assert(b[off + 0] < 0x80);
        assert forall|i: int| 0 <= i < j - 1 implies #[trigger] b[(off + 1) + i] < 0x80 by {
            assert(b[off + (i + 1)] < 0x80);
        }
        lemma_ascii_prefix_is_first_high(b, off + 1, k - 1, j - 1);
    }
}

/// Relies on String::from_utf8: ASCII bytes are valid UTF-8 and decode to
/// the characters with the same values, one per byte.
#[verifier::external_body]
pub(crate) fn ascii_string(v: Vec<u8>) -> (r: String)
    requires
        forall|i: int| 0 <= i < v@.len() ==> v@[i] < 0x80,
    ensures
        r@.len() == v@.len(),
        forall|i: int| 0 <= i < v@.len() ==> r@[i] == v@[i] as char,
{
    match String::from_utf8(v) {
        Ok(s) => s,
        Err(_) => String::new(),  // unreachable: ASCII is valid UTF-8
    }
}

/// Pads a string with null bytes to `pad` bytes; the string must be ASCII
/// and fit the width.
pub fn string_null_pad(name: &str, pad: usize) -> (r: Result<Vec<u8>, ElmaError>)
    ensures
        match r {
            Ok(v) => pad_err(name@, pad as int) is None && v@ == pad_name(name@, pad as int),
            Err(e) => pad_err(name@, pad as int) == Some(e),
        },
{
    let bytes = name.as_bytes();
    if !name.is_ascii() {
        return Err(ElmaError::NonASCII);
    }
    proof {
        vstd::string::is_ascii_spec_bytes(name);
    }
    if bytes.len() > pad {
        let over = bytes.len() - pad;
        let d: usize = if over > (isize::MAX as usize) {
            isize::MAX as usize
        } else {
            over
        };
        return Err(ElmaError::PaddingTooShort(-(d as isize)));
    }
    let mut out: Vec<u8> = Vec::new();
    let mut j: usize = 0;
    while j < bytes.len()
        invariant
            j <= bytes@.len(),
            bytes@.len() <= pad,
            bytes@ == name.spec_bytes(),
            name@.len() == bytes@.len(),
            forall|i: int| 0 <= i < name@.len() ==> #[trigger] bytes@[i] == name@[i] as u8,
            out@ =~= bytes@.subrange(0, j as int),
        decreases bytes@.len() - j,
    {
        out.push(bytes[j]);
        j += 1;
    }
    while out.len() < pad
        invariant
            name@.len() <= pad,
            out@.len() >= name@.len(),
            out@.len() <= pad,
            forall|i: int| 0 <= i < name@.len() ==> #[trigger] out@[i] == name@[i] as u8,
            forall|i: int| name@.len() <= i < out@.len() ==> #[trigger] out@[i] == 0,
        decreases pad - out@.len(),
    {
        out.push(0);
    }
    assert(out@ =~= pad_name(name@, pad as int));
    Ok(out)
}

/// The error padding a name to `w` bytes gives, if any: a non-ASCII name,
/// checked first, or one longer than the field.
pub open spec fn pad_err(name: Seq<char>, w: int) -> Option<ElmaError> {
    if !vstd::utf8::is_ascii_chars(name) {
        Some(ElmaError::NonASCII)
    } else if name.len() > w {
        Some(
            ElmaError::PaddingTooShort(
                if name.len() - w > isize::MAX {
                    (-(isize::MAX as int)) as isize
                } else {
                    (w - name.len()) as isize
                },
            ),
        )
    } else {
        Option::None
    }
}

} // verus!

verus! {

// ---------------------------------------------------------------------------
// The 344-byte best-times block: count, ten time slots, two name columns.
// ---------------------------------------------------------------------------

/// The stored time bits of slot `n`: the entry's time for the slots that
/// hold one of the first ten entries, zero for the rest.
pub open spec fn top10_time_bits(entries: Seq<EntryData>, n: int) -> u32 {
    if 0 <= n < entries.len() && n < 10 {
        bits_of_i32(entries[n].time)
    } else {
        0
    }
}

/// Byte `j` of name slot `n` of one of the two name columns.
pub open spec fn top10_name_byte(entries: Seq<EntryData>, n: int, j: int, first: bool) -> u8 {
    if 0 <= n < entries.len() && n < 10 {
        if first {
            pad_name(entries[n].name_a, 15)[j]
        } else {
            pad_name(entries[n].name_b, 15)[j]
        }
    } else {
        0
    }
}

/// The number of entries a block stores: at most ten.
pub open spec fn top10_count(entries: Seq<EntryData>) -> u32 {
    if entries.len() < 10 {
        entries.len() as u32
    } else {
        10
    }
}

/// Byte `i` of the 344-byte block that stores `entries`: four count bytes,
/// ten four-byte time slots, then two columns of ten 15-byte name fields.
pub open spec fn top10_block_byte(entries: Seq<EntryData>, i: int) -> u8 {
    if i < 4 {
        le_u32_of(top10_count(entries))[i]
    } else if i < 44 {
        le_u32_of(top10_time_bits(entries, (i - 4) / 4))[(i - 4) % 4]
    } else if i < 194 {
        top10_name_byte(entries, (i - 44) / 15, (i - 44) % 15, true)
    } else {
        top10_name_byte(entries, (i - 194) / 15, (i - 194) % 15, false)
    }
}

/// The 344-byte block that stores the first ten of `entries`.
pub open spec fn ser_top10_block(entries: Seq<EntryData>) -> Seq<u8> {
    Seq::new(344, |i: int| top10_block_byte(entries, i))
}

/// The first error that writing a block for `entries` runs into, scanning
/// the stored entries in order, first name then second: a name that is not
/// ASCII or does not fit its 15-byte field.
pub open spec fn top10_write_err_from(entries: Seq<EntryData>, n: int) -> Option<ElmaError>
    decreases 10 - n,
{
    if n >= entries.len() || n >= 10 {
        Option::None
    } else {
        match pad_err(entries[n].name_a, 15) {
            Some(e) => Some(e),
            Option::None => match pad_err(entries[n].name_b, 15) {
                Some(e) => Some(e),
                Option::None => top10_write_err_from(entries, n + 1),
            },
        }
    }
}

/// The first error that writing a block for `entries` runs into, if any.
pub open spec fn top10_write_err(entries: Seq<EntryData>) -> Option<ElmaError> {
    top10_write_err_from(entries, 0)
}

/// Whether the count field of the block at `off` is in range: zero to ten.
pub open spec fn top10_count_ok(b: Seq<u8>, off: int) -> bool {
    le_u32_at(b, off) <= 10
}

/// The entry read from slot `n` of the block at `off`, when both of its
/// name fields trim cleanly.
pub open spec fn top10_read_entry(b: Seq<u8>, off: int, n: int) -> EntryData {
    EntryData {
        name_a: trim_field(b, off + 44 + 15 * n, 15)->Ok_0,
        name_b: trim_field(b, off + 194 + 15 * n, 15)->Ok_0,
        time: i32_of_bits(le_u32_at(b, off + 4 + 4 * n)),
    }
}

/// The entries of slots `n` to `cnt` of the block at `off`, or the first
/// name-field error, scanning slots in order, first name then second.
pub open spec fn parse_top10_entries(b: Seq<u8>, off: int, cnt: int, n: int) -> Result<
    Seq<EntryData>,
    ElmaError,
>
    decreases cnt - n,
{
    if n >= cnt {
        Ok(Seq::<EntryData>::empty())
    } else {
        match trim_field(b, off + 44 + 15 * n, 15) {
            Err(e) => Err(e),
            Ok(_) => match trim_field(b, off + 194 + 15 * n, 15) {
                Err(e) => Err(e),
                Ok(_) => match parse_top10_entries(b, off, cnt, n + 1) {
                    Err(e) => Err(e),
                    Ok(rest) => Ok(seq![top10_read_entry(b, off, n)] + rest),
                },
            },
        }
    }
}

/// What parsing the block at `off` gives when its count is in range.
pub open spec fn parse_top10_block(b: Seq<u8>, off: int) -> Result<Seq<EntryData>, ElmaError>
    recommends
        top10_count_ok(b, off),
{
    parse_top10_entries(b, off, le_u32_at(b, off) as int, 0)
}

/// When every slot before `n` trims cleanly and slot `n` gives the error
/// `e`, parsing from the start gives `e`.
proof fn lemma_parse_entries_err(b: Seq<u8>, off: int, cnt: int, n: int, e: ElmaError)
    requires
        0 <= n < cnt,
        forall|m: int|
            0 <= m < n ==> (#[trigger] trim_field(b, off + 44 + 15 * m, 15)) is Ok && trim_field(
                b,
                off + 194 + 15 * m,
                15,
            ) is Ok,
        trim_field(b, off + 44 + 15 * n, 15) == Err::<Seq<char>, ElmaError>(e) || (trim_field(
            b,
            off + 44 + 15 * n,
            15,
        ) is Ok && trim_field(b, off + 194 + 15 * n, 15) == Err::<Seq<char>, ElmaError>(e)),
    ensures
        parse_top10_entries(b, off, cnt, 0) == Err::<Seq<EntryData>, ElmaError>(e),
{
    lemma_parse_entries_err_from(b, off, cnt, n, 0, e);
}

proof fn lemma_parse_entries_err_from(b: Seq<u8>, off: int, cnt: int, n: int, s: int, e: ElmaError)
    requires
        0 <= s <= n < cnt,
        forall|m: int|
            s <= m < n ==> (#[trigger] trim_field(b, off + 44 + 15 * m, 15)) is Ok && trim_field(
                b,
                off + 194 + 15 * m,
                15,
            ) is Ok,
        trim_field(b, off + 44 + 15 * n, 15) == Err::<Seq<char>, ElmaError>(e) || (trim_field(
            b,
            off + 44 + 15 * n,
            15,
        ) is Ok && trim_field(b, off + 194 + 15 * n, 15) == Err::<Seq<char>, ElmaError>(e)),
    ensures
        parse_top10_entries(b, off, cnt, s) == Err::<Seq<EntryData>, ElmaError>(e),
    decreases n - s,
{
    if s == n {
    } else {
        lemma_parse_entries_err_from(b, off, cnt, n, s + 1, e);
    }
}

/// When every slot from `s` up to `cnt` trims cleanly, parsing from `s`
/// gives exactly the slot entries.
proof fn lemma_parse_entries_ok(b: Seq<u8>, off: int, cnt: int, s: int)
    requires
        0 <= s <= cnt,
        forall|m: int|
            s <= m < cnt ==> (#[trigger] trim_field(b, off + 44 + 15 * m, 15)) is Ok && trim_field(
                b,
                off + 194 + 15 * m,
                15,
            ) is Ok,
    ensures
        parse_top10_entries(b, off, cnt, s) == Ok::<Seq<EntryData>, ElmaError>(
            Seq::new((cnt - s) as nat, |i: int| top10_read_entry(b, off, s + i)),
        ),
    decreases cnt - s,
{
    if s == cnt {
        assert(Seq::new(0, |i: int| top10_read_entry(b, off, s + i))
            =~= Seq::<EntryData>::empty());
    } else {
        lemma_parse_entries_ok(b, off, cnt, s + 1);
        let rest = Seq::new((cnt - s - 1) as nat, |i: int| top10_read_entry(b, off, s + 1 + i));
        assert(seq![top10_read_entry(b, off, s)] + rest =~= Seq::new(
            (cnt - s) as nat,
            |i: int| top10_read_entry(b, off, s + i),
        ));
    }
}

/// Parse top10 lists and return a vector of `TimeEntry`s. The block holds
/// a count, which must be at most ten, ten time slots and two name columns;
/// entry `n` zips time slot `n` with the two names of slot `n`.
pub fn parse_top10(top10: &[u8]) -> (r: Result<Vec<TimeEntry>, ElmaError>)
    requires
        top10@.len() >= 344,
    ensures
        match r {
            Ok(v) => top10_count_ok(top10@, 0) && parse_top10_block(top10@, 0) == Ok::<
                Seq<EntryData>,
                ElmaError,
            >(v@.map_values(|e: TimeEntry| e@)),
            Err(e) => (!top10_count_ok(top10@, 0) && e == ElmaError::InvalidLevelFile) || (
            top10_count_ok(top10@, 0) && parse_top10_block(top10@, 0) == Err::<
                Seq<EntryData>,
                ElmaError,
            >(e)),
        },
{
    let count = read_u32(top10, 0);
    if count > 10 {
        return Err(ElmaError::InvalidLevelFile);
    }
    let cnt = count as usize;
    let mut list: Vec<TimeEntry> = Vec::new();
    let mut n: usize = 0;
    while n < cnt
        invariant
            0 <= n <= cnt,
            cnt == le_u32_at(top10@, 0),
            cnt <= 10,
            top10@.len() >= 344,
            list@.len() == n,
            forall|m: int|
                0 <= m < n ==> (#[trigger] trim_field(top10@, 44 + 15 * m, 15)) is Ok
                    && trim_field(top10@, 194 + 15 * m, 15) is Ok,
            forall|m: int| 0 <= m < n ==> #[trigger] list@[m]@ == top10_read_entry(top10@, 0, m),
        decreases cnt - n,
    {
        let time = read_i32(top10, 4 + n * 4);
        let name_1 = match trim_string(&top10[44 + n * 15..44 + n * 15 + 15]) {
            Ok(s) => s,
            Err(e) => {
                proof {
                    lemma_trim_subrange(top10@, 44 + 15 * (n as int), 15);
                    lemma_parse_entries_err(top10@, 0, cnt as int, n as int, e);
                }
                return Err(e);
            },
        };
        proof {
            lemma_trim_subrange(top10@, 44 + 15 * (n as int), 15);
        }
        let name_2 = match trim_string(&top10[194 + n * 15..194 + n * 15 + 15]) {
            Ok(s) => s,
            Err(e) => {
                proof {
                    lemma_trim_subrange(top10@, 194 + 15 * (n as int), 15);
                    lemma_parse_entries_err(top10@, 0, cnt as int, n as int, e);
                }
                return Err(e);
            },
        };
        proof {
            lemma_trim_subrange(top10@, 194 + 15 * (n as int), 15);
        }
        let entry = TimeEntry { names: (name_1, name_2), time: Time(time) };
        assert(entry@ == top10_read_entry(top10@, 0, n as int));
        list.push(entry);
        n += 1;
    }
    proof {
        lemma_parse_entries_ok(top10@, 0, cnt as int, 0);
        let want = Seq::new(cnt as nat, |i: int| top10_read_entry(top10@, 0, i));
        assert forall|i: int| 0 <= i < cnt implies list@.map_values(|e: TimeEntry| e@)[i]
            == want[i] by {
            assert(list@.map_values(|e: TimeEntry| e@)[i] == list@[i]@);
        }
        assert(list@.map_values(|e: TimeEntry| e@) =~= want);
        let lw = Seq::new((cnt as int - 0) as nat, |i: int| top10_read_entry(top10@, 0, 0 + i));
        assert(lw =~= want);
        assert(parse_top10_entries(top10@, 0, cnt as int, 0) == Ok::<Seq<EntryData>, ElmaError>(
        want));
        assert(le_u32_at(top10@, 0) as int == cnt as int);
        assert(parse_top10_block(top10@, 0) == parse_top10_entries(top10@, 0, cnt as int, 0));
    }
    Ok(list)
}

/// Trimming a subrange of a buffer is trimming the field in place.
pub proof fn lemma_trim_subrange(b: Seq<u8>, off: int, w: int)
    requires
        0 <= off,
        0 <= w,
        off + w <= b.len(),
    ensures
        trim_field(b.subrange(off, off + w), 0, w) == trim_field(b, off, w),
{
    let sub = b.subrange(off, off + w);
    lemma_prefix_len_shift(b, sub, off, 0, w);
    lemma_field_prefix_len_le(b, off, w);
    let k = field_prefix_len(b, off, w);
    assert(field_prefix_len(sub, 0, w) == field_prefix_len(b, off + 0, w));
    assert(field_prefix_len(sub, 0, w) == k);
    assert(0 <= k <= w);
    lemma_ascii_len_shift(b, sub, off, 0, k);
    assert(ascii_prefix_len(sub, 0, k) == ascii_prefix_len(b, off + 0, k));
    assert(prefix_ascii(sub, 0, k) == prefix_ascii(b, off, k)) by {
        if prefix_ascii(sub, 0, k) {
            assert forall|j: int| 0 <= j < k implies #[trigger] b[off + j] < 0x80 by {
                assert(sub[0 + j] < 0x80);
            }
        }
        if prefix_ascii(b, off, k) {
            assert forall|j: int| 0 <= j < k implies #[trigger] sub[0 + j] < 0x80 by {
                assert(b[off + j] < 0x80);
            }
        }
    }
    if prefix_ascii(b, off, k) {
        assert forall|j: int| 0 <= j < k implies prefix_chars(sub, 0, k)[j] == prefix_chars(
            b,
            off,
            k,
        )[j] by {
            assert(sub[0 + j] == b[off + j]);
        }
        assert(prefix_chars(sub, 0, k) =~= prefix_chars(b, off, k));
    }
}

/// The field-prefix length never passes the field width.
proof fn lemma_field_prefix_len_le(b: Seq<u8>, off: int, w: int)
    ensures
        0 <= field_prefix_len(b, off, w) <= if w >= 0 {
            w
        } else {
            0
        },
    decreases w,
{
    if w > 0 && b[off] != 0 {
        lemma_field_prefix_len_le(b, off + 1, w - 1);
    }
}

/// The first-null scan sees the same bytes through a subrange.
proof fn lemma_prefix_len_shift(b: Seq<u8>, sub: Seq<u8>, off: int, p: int, w: int)
    requires
        0 <= p <= w,
        forall|j: int| 0 <= j < w ==> #[trigger] sub[j] == b[off + j],
    ensures
        field_prefix_len(sub, p, w - p) == field_prefix_len(b, off + p, w - p),
    decreases w - p,
{
    if p < w {
        assert(sub[p] == b[off + p]);
        if sub[p] != 0 {
            lemma_prefix_len_shift(b, sub, off, p + 1, w);
        }
    }
}

/// The ASCII scan sees the same bytes through a subrange.
proof fn lemma_ascii_len_shift(b: Seq<u8>, sub: Seq<u8>, off: int, p: int, k: int)
    requires
        0 <= p <= k,
        forall|j: int| 0 <= j < k ==> #[trigger] sub[j] == b[off + j],
    ensures
        ascii_prefix_len(sub, p, k - p) == ascii_prefix_len(b, off + p, k - p),
    decreases k - p,
{
    if p < k {
        assert(sub[p] == b[off + p]);
        if sub[p] < 0x80 {
            lemma_ascii_len_shift(b, sub, off, p + 1, k);
        }
    }
}

} // verus!

verus! {

/// When every stored entry's names pad cleanly, there is no write error.
proof fn lemma_write_err_none(entries: Seq<EntryData>, n: int)
    requires
        0 <= n,
        forall|m: int|
            n <= m < entries.len() && m < 10 ==> (#[trigger] pad_err(entries[m].name_a, 15))
                is None && pad_err(entries[m].name_b, 15) is None,
    ensures
        top10_write_err_from(entries, n) is None,
    decreases 10 - n,
{
    if n < entries.len() && n < 10 {
        lemma_write_err_none(entries, n + 1);
    }
}

/// When every stored entry before `n` pads cleanly and entry `n` does not,
/// the write error is entry `n`'s first one.
proof fn lemma_write_err_at(entries: Seq<EntryData>, n: int, s: int, e: ElmaError)
    requires
        0 <= s <= n < entries.len(),
        n < 10,
        forall|m: int|
            s <= m < n ==> (#[trigger] pad_err(entries[m].name_a, 15)) is None && pad_err(
                entries[m].name_b,
                15,
            ) is None,
        pad_err(entries[n].name_a, 15) == Some(e) || (pad_err(entries[n].name_a, 15) is None
            && pad_err(entries[n].name_b, 15) == Some(e)),
    ensures
        top10_write_err_from(entries, s) == Some(e),
    decreases n - s,
{
    if s < n {
        lemma_write_err_at(entries, n, s + 1, e);
    }
}

/// Writes the 344-byte block storing the first ten of `entries`.
fn write_top10_block(entries: &Vec<TimeEntry>) -> (r: Result<Vec<u8>, ElmaError>)
    ensures
        match r {
            Ok(v) => top10_write_err(entries@.map_values(|e: TimeEntry| e@)) is None && v@
                == ser_top10_block(entries@.map_values(|e: TimeEntry| e@)),
            Err(e) => top10_write_err(entries@.map_values(|e: TimeEntry| e@)) == Some(e),
        },
{
    let ghost ev = entries@.map_values(|e: TimeEntry| e@);
    let cnt: usize = if entries.len() < 10 {
        entries.len()
    } else {
        10
    };
    assert(cnt == top10_count(ev));
    // Validate and collect the two name columns, entry by entry.
    let mut names1: Vec<u8> = Vec::new();
    let mut names2: Vec<u8> = Vec::new();
    let mut n: usize = 0;
    while n < cnt
        invariant
            0 <= n <= cnt,
            cnt == top10_count(ev),
            cnt <= entries@.len(),
            cnt <= 10,
            ev == entries@.map_values(|e: TimeEntry| e@),
            names1@.len() == 15 * n,
            names2@.len() == 15 * n,
            forall|m: int|
                0 <= m < n ==> (#[trigger] pad_err(ev[m].name_a, 15)) is None && pad_err(
                    ev[m].name_b,
                    15,
                ) is None,
            forall|i: int|
                0 <= i < 15 * n ==> #[trigger] names1@[i] == top10_name_byte(ev, i / 15, i % 15, true),
            forall|i: int|
                0 <= i < 15 * n ==> #[trigger] names2@[i] == top10_name_byte(ev, i / 15, i % 15, false),
        decreases cnt - n,
    {
        assert(ev[n as int] == entries@[n as int]@);
        let name_a = match string_null_pad(entries[n].names.0.as_str(), 15) {
            Ok(v) => v,
            Err(e) => {
                proof {
                    lemma_write_err_at(ev, n as int, 0, e);
                }
                return Err(e);
            },
        };
        let name_b = match string_null_pad(entries[n].names.1.as_str(), 15) {
            Ok(v) => v,
            Err(e) => {
                proof {
                    lemma_write_err_at(ev, n as int, 0, e);
                }
                return Err(e);
            },
        };
        let mut j: usize = 0;
        while j < 15
            invariant
                j <= 15,
                n < cnt <= entries@.len(),
                cnt <= 10,
                ev == entries@.map_values(|e: TimeEntry| e@),
                ev.len() == entries@.len(),
                name_a@ == pad_name(ev[n as int].name_a, 15),
                name_b@ == pad_name(ev[n as int].name_b, 15),
                name_a@.len() == 15,
                name_b@.len() == 15,
                names1@.len() == 15 * n + j,
                names2@.len() == 15 * n + j,
                forall|i: int|
                    0 <= i < 15 * n + j ==> #[trigger] names1@[i] == top10_name_byte(
                        ev,
                        i / 15,
                        i % 15,
                        true,
                    ),
                forall|i: int|
                    0 <= i < 15 * n + j ==> #[trigger] names2@[i] == top10_name_byte(
                        ev,
                        i / 15,
                        i % 15,
                        false,
                    ),
            decreases 15 - j,
        {
            names1.push(name_a[j]);
            names2.push(name_b[j]);
            proof {
                let i = 15 * (n as int) + j;
                vstd::arithmetic::div_mod::lemma_fundamental_div_mod_converse(
                    i,
                    15,
                    n as int,
                    j as int,
                );
                assert(i / 15 == n as int && i % 15 == j as int);
                assert(ev.len() == entries@.len());
                assert(names1@[i] == name_a@[j as int]);
                assert(name_a@[j as int] == pad_name(ev[n as int].name_a, 15)[j as int]);
                assert(names1@[i] == top10_name_byte(ev, i / 15, i % 15, true));
                assert(names2@[i] == name_b@[j as int]);
                assert(names2@[i] == top10_name_byte(ev, i / 15, i % 15, false));
            }
            j += 1;
        }
        n += 1;
    }
    proof {
        lemma_write_err_none(ev, 0);
    }
    // Pad both columns with null bytes to ten 15-byte slots.
    while names1.len() < 150
        invariant
            cnt == top10_count(ev),
            names1@.len() >= 15 * cnt,
            names1@.len() <= 150,
            forall|i: int|
                0 <= i < names1@.len() ==> #[trigger] names1@[i] == top10_name_byte(
                    ev,
                    i / 15,
                    i % 15,
                    true,
                ),
        decreases 150 - names1@.len(),
    {
        proof {
            lemma_slot_past_count(ev, names1@.len() as int);
        }
        names1.push(0);
    }
    while names2.len() < 150
        invariant
            cnt == top10_count(ev),
            names2@.len() >= 15 * cnt,
            names2@.len() <= 150,
            forall|i: int|
                0 <= i < names2@.len() ==> #[trigger] names2@[i] == top10_name_byte(
                    ev,
                    i / 15,
                    i % 15,
                    false,
                ),
        decreases 150 - names2@.len(),
    {
        proof {
            lemma_slot_past_count(ev, names2@.len() as int);
        }
        names2.push(0);
    }
    // Assemble: count, time slots, then the two name columns.
    let mut out: Vec<u8> = Vec::new();
    push_u32(&mut out, cnt as u32);
    let mut t: usize = 0;
    while t < 10
        invariant
            t <= 10,
            cnt == top10_count(ev),
            cnt <= entries@.len(),
            ev == entries@.map_values(|e: TimeEntry| e@),
            out@.len() == 4 + 4 * t,
            forall|i: int| 0 <= i < 4 ==> #[trigger] out@[i] == le_u32_of(top10_count(ev))[i],
            forall|i: int|
                4 <= i < 4 + 4 * t ==> #[trigger] out@[i] == le_u32_of(
                    top10_time_bits(ev, (i - 4) / 4),
                )[(i - 4) % 4],
        decreases 10 - t,
    {
        let bits_time: i32 = if t < cnt {
            assert(ev[t as int] == entries@[t as int]@);
            entries[t].time.0
        } else {
            0
        };
        assert(bits_of_i32(bits_time) == top10_time_bits(ev, t as int));
        push_i32(&mut out, bits_time);
        proof {
            let base = 4 + 4 * (t as int);
            assert forall|i: int| base <= i < base + 4 implies #[trigger] out@[i] == le_u32_of(
                top10_time_bits(ev, (i - 4) / 4),
            )[(i - 4) % 4] by {
                vstd::arithmetic::div_mod::lemma_fundamental_div_mod_converse(
                    i - 4,
                    4,
                    t as int,
                    i - base,
                );
                assert(out@[i] == le_u32_of(bits_of_i32(bits_time))[i - base]);
            }
        }
        t += 1;
    }
    let ghost head = out@;
    let mut names1m = names1;
    let mut names2m = names2;
    out.append(&mut names1m);
    out.append(&mut names2m);
    proof {
        assert forall|i: int| 0 <= i < 344 implies out@[i] == top10_block_byte(ev, i) by {
            if i < 4 {
            } else if i < 44 {
                assert(out@[i] == head[i]);
            } else if i < 194 {
                assert(out@[i] == names1@[i - 44]);
            } else {
                assert(out@[i] == names2@[i - 194]);
            }
        }
        assert(out@ =~= ser_top10_block(ev));
    }
    Ok(out)
}

/// Bytes at or past slot `cnt` of a name column are null: they store no
/// entry.
proof fn lemma_slot_past_count(ev: Seq<EntryData>, i: int)
    requires
        15 * top10_count(ev) <= i < 150,
    ensures
        top10_name_byte(ev, i / 15, i % 15, true) == 0,
        top10_name_byte(ev, i / 15, i % 15, false) == 0,
{
    let cnt = top10_count(ev) as int;
    vstd::arithmetic::div_mod::lemma_fundamental_div_mod(i, 15);
    let q = i / 15;
    let r = i % 15;
    assert(i == 15 * q + r);
    if q < cnt {
        assert(i < 15 * cnt);
    }
    assert(q >= cnt);
}

/// Write best-times data as bytes: the single-player block, then the
/// multi-player block, 688 bytes in all; the first ten entries of each list
/// are stored, any beyond are dropped.
pub fn write_top10(best_times: &BestTimes) -> (r: Result<Vec<u8>, ElmaError>)
    ensures
        match r {
            Ok(v) => {
                &&& top10_write_err(best_times@.single) is None
                &&& top10_write_err(best_times@.multi) is None
                &&& v@ == ser_top10_block(best_times@.single) + ser_top10_block(best_times@.multi)
            },
            Err(e) => top10_write_err(best_times@.single) == Some(e) || (top10_write_err(
                best_times@.single,
            ) is None && top10_write_err(best_times@.multi) == Some(e)),
        },
{
    let mut out = match write_top10_block(&best_times.single) {
        Ok(v) => v,
        Err(e) => {
            return Err(e);
        },
    };
    let mut multi = match write_top10_block(&best_times.multi) {
        Ok(v) => v,
        Err(e) => {
            return Err(e);
        },
    };
    let ghost head = out@;
    out.append(&mut multi);
    assert(out@ =~= ser_top10_block(best_times@.single) + ser_top10_block(best_times@.multi));
    Ok(out)
}

} // verus!

verus! {

/// How many entries a block gives back: at most ten.
pub open spec fn top10_stored(n: int) -> int {
    if n < 10 {
        n
    } else {
        10
    }
}

/// Each stored slot's time bytes of a written block read back as the
/// entry's stored time bits.
proof fn lemma_block_times(entries: Seq<EntryData>, n: int)
    requires
        0 <= n < top10_count(entries),
    ensures
        le_u32_at(ser_top10_block(entries), 4 + 4 * n) == top10_time_bits(entries, n),
{
    let b = ser_top10_block(entries);
    assert forall|j: int|
        0 <= j < 4 implies b[(4 + 4 * n) + j] == le_u32_of(top10_time_bits(entries, n))[j] by {
        let i = 4 + 4 * n + j;
        assert(b[i] == top10_block_byte(entries, i));
        vstd::arithmetic::div_mod::lemma_fundamental_div_mod_converse(i - 4, 4, n, j);
    }
    crate::bytes::lemma_le_u32_read(b, 4 + 4 * n, top10_time_bits(entries, n));
}

/// Each stored slot's name fields of a written block trim back to the
/// entry's names, whenever they fit their fields.
proof fn lemma_block_names(entries: Seq<EntryData>, n: int)
    requires
        0 <= n < top10_count(entries),
        name_fits(entries[n].name_a, 15),
        name_fits(entries[n].name_b, 15),
    ensures
        trim_field(ser_top10_block(entries), 44 + 15 * n, 15) == Ok::<Seq<char>, ElmaError>(
            entries[n].name_a,
        ),
        trim_field(ser_top10_block(entries), 194 + 15 * n, 15) == Ok::<Seq<char>, ElmaError>(
            entries[n].name_b,
        ),
{
    let b = ser_top10_block(entries);
    assert forall|j: int|
        0 <= j < 15 implies b[(44 + 15 * n) + j] == pad_name(entries[n].name_a, 15)[j] by {
        let i = 44 + 15 * n + j;
        assert(b[i] == top10_block_byte(entries, i));
        vstd::arithmetic::div_mod::lemma_fundamental_div_mod_converse(i - 44, 15, n, j);
    }
    lemma_trim_pad_round(entries[n].name_a, 15, b, 44 + 15 * n);
    assert forall|j: int|
        0 <= j < 15 implies b[(194 + 15 * n) + j] == pad_name(entries[n].name_b, 15)[j] by {
        let i = 194 + 15 * n + j;
        assert(b[i] == top10_block_byte(entries, i));
        vstd::arithmetic::div_mod::lemma_fundamental_div_mod_converse(i - 194, 15, n, j);
    }
    lemma_trim_pad_round(entries[n].name_b, 15, b, 194 + 15 * n);
}

/// Writing a best-times list and parsing the block back gives exactly the
/// first ten entries, unchanged, whenever their names fit their fields:
/// with the list sorted ascending beforehand, those are the ten lowest
/// times in ascending order.
#[verifier::rlimit(100)]
#[verifier::spinoff_prover]
pub proof fn lemma_top10_round(entries: Seq<EntryData>)
    requires
        forall|n: int|
            0 <= n < entries.len() && n < 10 ==> name_fits(#[trigger] entries[n].name_a, 15)
                && name_fits(entries[n].name_b, 15),
    ensures
        top10_count_ok(ser_top10_block(entries), 0),
        parse_top10_block(ser_top10_block(entries), 0) == Ok::<Seq<EntryData>, ElmaError>(
            entries.take(top10_stored(entries.len() as int)),
        ),
{
    let b = ser_top10_block(entries);
    let cnt = top10_count(entries);
    assert forall|j: int| 0 <= j < 4 implies b[0 + j] == le_u32_of(cnt)[j] by {
        assert(b[j] == top10_block_byte(entries, j));
    }
    crate::bytes::lemma_le_u32_read(b, 0, cnt);
    assert(top10_count_ok(b, 0));
    assert forall|n: int|
        0 <= n < cnt implies (#[trigger] trim_field(b, 44 + 15 * n, 15)) == Ok::<
        Seq<char>,
        ElmaError,
    >(entries[n].name_a) && trim_field(b, 194 + 15 * n, 15) == Ok::<Seq<char>, ElmaError>(
        entries[n].name_b,
    ) by {
        lemma_block_names(entries, n);
    }
    lemma_parse_entries_ok(b, 0, cnt as int, 0);
    let got = Seq::new((cnt as int - 0) as nat, |i: int| top10_read_entry(b, 0, 0 + i));
    assert forall|n: int| 0 <= n < cnt implies got[n] == entries.take(
        top10_stored(entries.len() as int),
    )[n] by {
        assert(got[n] == top10_read_entry(b, 0, n));
        lemma_block_times(entries, n);
        crate::bytes::lemma_i32_bits_round(entries[n].time);
        assert(top10_read_entry(b, 0, n).time == entries[n].time);
        assert(top10_read_entry(b, 0, n).name_a == entries[n].name_a);
        assert(top10_read_entry(b, 0, n).name_b == entries[n].name_b);
    }
    assert(got =~= entries.take(top10_stored(entries.len() as int)));
    assert(parse_top10_block(b, 0) == parse_top10_entries(b, 0, cnt as int, 0));
}

} // verus!
