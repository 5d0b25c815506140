//! Types shared by the level, replay and state codecs: game version,
//! picture clipping, 2D positions, times in hundredths of a second and
//! best-times tables.

use vstd::prelude::*;
use vstd::string::StringSliceAdditionalSpecFns;

verus! {

/// Game version.
#[derive(Debug, PartialEq, Eq, Clone)]
pub enum Version {
    /// Action SuperCross, older version of Elma.
    Across,
    /// Elasto Mania, current active version.
    Elma,
}

impl Default for Version {
    /// The default game version is the current one.
    fn default() -> (r: Version)
        ensures
            r == Version::Elma,
    {
        Version::Elma
    }
}

/// Picture clipping.
#[derive(Debug, Clone, Copy, Eq, PartialEq)]
pub enum Clip {
    /// No clipping.
    Unclipped,
    /// Ground clipping.
    Ground,
    /// Sky clipping.
    Sky,
}

impl Default for Clip {
    /// The default clipping is sky clipping.
    fn default() -> (r: Clip)
        ensures
            r == Clip::Sky,
    {
        Clip::Sky
    }
}

/// The on-disk code of a clipping value.
pub open spec fn clip_code(c: Clip) -> i32 {
    match c {
        Clip::Unclipped => 0,
        Clip::Ground => 1,
        Clip::Sky => 2,
    }
}

/// Shared position struct used by the level and replay codecs. Level
/// coordinates are carried as the 64-bit patterns of their stored doubles;
/// replay coordinates use 32-bit patterns or plain 16-bit integers.
#[derive(Debug, Default, PartialEq, Clone, Copy)]
pub struct Position<T> {
    /// X-position.
    pub x: T,
    /// Y-position.
    pub y: T,
}

impl<T> Position<T> {
    /// Creates a new Position.
    pub fn new(x: T, y: T) -> (r: Self)
        ensures
            r == (Position { x, y }),
    {
        Position { x, y }
    }
}

/// Wrapper for time in hundredths of a second.
#[derive(Debug, Default, Copy, Clone, Eq, PartialEq)]
pub struct Time(pub i32);

/// The parts of a time value: negative flag, then hours, minutes, seconds
/// and hundredths, each as a non-negative count.
pub open spec fn time_parts(t: i32) -> (bool, i32, i32, i32, i32) {
    let a = if t >= 0 {
        t as int
    } else {
        -(t as int)
    };
    (t < 0, (a / 360_000) as i32, ((a / 6000) % 60) as i32, ((a / 100) % 60) as i32, (a
        % 100) as i32)
}

impl Time {
    /// Returns a tuple with `negative?`, `hours`, `mins`, `secs`, `hundredths`.
    pub fn to_parts(self) -> (r: (bool, i32, i32, i32, i32))
        ensures
            r == time_parts(self.0),
    {
        let a: i64 = if self.0 >= 0 {
            self.0 as i64
        } else {
            -(self.0 as i64)
        };
        let hr = (a / 360_000) as i32;
        let m = ((a / 6000) % 60) as i32;
        let s = ((a / 100) % 60) as i32;
        let h = (a % 100) as i32;
        (self.0 < 0, hr, m, s, h)
    }

    /// The sum of two times, in hundredths.
    pub fn plus(self, other: Self) -> (r: Self)
        requires
            i32::MIN <= self.0 + other.0 <= i32::MAX,
        ensures
            r.0 == self.0 + other.0,
    {
        Time(self.0 + other.0)
    }

    /// The difference of two times, in hundredths.
    pub fn minus(self, other: Self) -> (r: Self)
        requires
            i32::MIN <= self.0 - other.0 <= i32::MAX,
        ensures
            r.0 == self.0 - other.0,
    {
        Time(self.0 - other.0)
    }
}

/// Top10 list entry struct.
#[derive(Debug, Default, PartialEq)]
pub struct TimeEntry {
    /// Player names.
    pub names: (String, String),
    /// Time.
    pub time: Time,
}

/// The model of a best-times entry: the two player names and the time.
pub ghost struct EntryData {
    /// First player name.
    pub name_a: Seq<char>,
    /// Second player name.
    pub name_b: Seq<char>,
    /// Time in hundredths.
    pub time: i32,
}

impl View for TimeEntry {
    type V = EntryData;

    open spec fn view(&self) -> EntryData {
        EntryData { name_a: self.names.0@, name_b: self.names.1@, time: self.time.0 }
    }
}

impl Clone for TimeEntry {
    /// A clone keeps both names and the time.
    fn clone(&self) -> (r: Self)
        ensures
            r == *self,
    {
        let r = TimeEntry {
            names: (self.names.0.clone(), self.names.1.clone()),
            time: self.time,
        };
        assert(r.names == self.names);
        r
    }
}

impl TimeEntry {
    /// Creates a new TimeEntry.
    pub fn new(names: (&str, &str), time: i32) -> (r: Self)
        ensures
            r@.name_a == names.0@,
            r@.name_b == names.1@,
            r@.time == time,
    {
        TimeEntry {
            names: (names.0.to_owned(), names.1.to_owned()),
            time: Time(time),
        }
    }
}

/// Best times struct.
#[derive(Debug, Default, PartialEq, Clone)]
pub struct BestTimes {
    /// Single-player times.
    pub single: Vec<TimeEntry>,
    /// Multi-player times.
    pub multi: Vec<TimeEntry>,
}

/// The model of a best-times table: the two entry lists.
pub ghost struct BestTimesData {
    /// Single-player times.
    pub single: Seq<EntryData>,
    /// Multi-player times.
    pub multi: Seq<EntryData>,
}

impl View for BestTimes {
    type V = BestTimesData;

    open spec fn view(&self) -> BestTimesData {
        BestTimesData {
            single: self.single@.map_values(|e: TimeEntry| e@),
            multi: self.multi@.map_values(|e: TimeEntry| e@),
        }
    }
}

impl BestTimes {
    /// Create a new best times struct.
    pub fn new() -> (r: Self)
        ensures
            r@.single == Seq::<EntryData>::empty(),
            r@.multi == Seq::<EntryData>::empty(),
    {
        let r = BestTimes { single: Vec::new(), multi: Vec::new() };
        assert(r@.single =~= Seq::<EntryData>::empty());
        assert(r@.multi =~= Seq::<EntryData>::empty());
        r
    }
}

// ---------------------------------------------------------------------------
// Stable ascending sort of entries by time, used before encoding.
// ---------------------------------------------------------------------------

/// Inserts `e` after every already-placed entry whose time is not larger,
/// which is what keeps the sort stable.
pub open spec fn insert_entry(s: Seq<EntryData>, e: EntryData) -> Seq<EntryData>
    decreases s.len(),
{
    if s.len() == 0 {
        seq![e]
    } else if s.last().time <= e.time {
        s + seq![e]
    } else {
        insert_entry(s.drop_last(), e) + seq![s.last()]
    }
}

/// Stable insertion sort of entries, ascending by time: the order of
/// entries with equal times is kept.
pub open spec fn sort_entries(s: Seq<EntryData>) -> Seq<EntryData>
    decreases s.len(),
{
    if s.len() == 0 {
        s
    } else {
        insert_entry(sort_entries(s.drop_last()), s.last())
    }
}

/// Whether `s` is weakly sorted ascending by time.
pub open spec fn entries_sorted(s: Seq<EntryData>) -> bool {
    forall|i: int, j: int| 0 <= i <= j < s.len() ==> s[i].time <= s[j].time
}

pub proof fn lemma_insert_entry_sorted(s: Seq<EntryData>, e: EntryData)
    requires
        entries_sorted(s),
    ensures
        entries_sorted(insert_entry(s, e)),
        insert_entry(s, e).to_multiset() == s.to_multiset().insert(e),
        insert_entry(s, e).len() == s.len() + 1,
    decreases s.len(),
{
    s.to_multiset_ensures();
    insert_entry(s, e).to_multiset_ensures();
    if s.len() == 0 {
        assert(insert_entry(s, e) =~= s.push(e));
        assert(s.push(e).to_multiset() =~= s.to_multiset().insert(e));
    } else if s.last().time <= e.time {
        assert(insert_entry(s, e) == s + seq![e]);
        assert(s + seq![e] =~= s.push(e));
        assert(entries_sorted(s.push(e)));
    } else {
        let inner = insert_entry(s.drop_last(), e);
        assert(entries_sorted(s.drop_last()));
        lemma_insert_entry_sorted(s.drop_last(), e);
        // Multiset bookkeeping: s == s.drop_last().push(s.last()).
        s.drop_last().to_multiset_ensures();
        inner.to_multiset_ensures();
        assert(s =~= s.drop_last().push(s.last()));
        assert(s.to_multiset() == s.drop_last().to_multiset().insert(s.last()));
        assert(insert_entry(s, e) =~= inner.push(s.last()));
        assert(insert_entry(s, e).to_multiset() == inner.to_multiset().insert(s.last()));
        assert(inner.to_multiset() == s.drop_last().to_multiset().insert(e));
        assert(insert_entry(s, e).to_multiset() == s.to_multiset().insert(e)) by {
            assert(s.drop_last().to_multiset().insert(e).insert(s.last())
                == s.drop_last().to_multiset().insert(s.last()).insert(e));
        }
        // Sortedness: everything in inner is <= e.time or came from s, and
        // s.last() is the largest element of s; e < s.last().
        assert forall|i: int, j: int|
            0 <= i <= j < insert_entry(s, e).len() implies insert_entry(s, e)[i].time
            <= insert_entry(s, e)[j].time by {
            lemma_insert_entry_bound(s.drop_last(), e, s.last().time as int);
            if j < inner.len() {
            } else {
                assert(insert_entry(s, e)[j] == s.last());
                if i < inner.len() {
                    assert(inner[i].time <= s.last().time);
                }
            }
        }
    }
}

/// Every entry of `insert_entry(s, e)` has a time bounded by any bound on
/// the times of `s` and of `e`.
pub proof fn lemma_insert_entry_bound(s: Seq<EntryData>, e: EntryData, bound: int)
    requires
        forall|i: int| 0 <= i < s.len() ==> s[i].time <= bound,
        e.time <= bound,
    ensures
        forall|i: int|
            0 <= i < insert_entry(s, e).len() ==> insert_entry(s, e)[i].time <= bound,
    decreases s.len(),
{
    if s.len() == 0 {
    } else if s.last().time <= e.time {
        assert(insert_entry(s, e) =~= s.push(e));
    } else {
        lemma_insert_entry_bound(s.drop_last(), e, bound);
        let inner = insert_entry(s.drop_last(), e);
        assert forall|i: int|
            0 <= i < insert_entry(s, e).len() implies insert_entry(s, e)[i].time <= bound by {
            if i < inner.len() {
                assert(insert_entry(s, e)[i] == inner[i]);
            } else {
                assert(insert_entry(s, e)[i] == s.last());
            }
        }
    }
}

pub proof fn lemma_sort_entries_sorted(s: Seq<EntryData>)
    ensures
        entries_sorted(sort_entries(s)),
        sort_entries(s).to_multiset() == s.to_multiset(),
        sort_entries(s).len() == s.len(),
    decreases s.len(),
{
    s.to_multiset_ensures();
    if s.len() == 0 {
    } else {
        lemma_sort_entries_sorted(s.drop_last());
        lemma_insert_entry_sorted(sort_entries(s.drop_last()), s.last());
        s.drop_last().to_multiset_ensures();
        assert(s =~= s.drop_last().push(s.last()));
        assert(s.to_multiset() == s.drop_last().to_multiset().insert(s.last()));
    }
}

/// Sorts entries ascending by time, keeping the order of equal times, as a
/// stable sort does.
pub fn sort_entries_exec(entries: &mut Vec<TimeEntry>)
    ensures
        final(entries)@.map_values(|e: TimeEntry| e@) == sort_entries(
            old(entries)@.map_values(|e: TimeEntry| e@),
        ),
{
    let ghost orig = entries@.map_values(|e: TimeEntry| e@);
    let mut sorted: Vec<TimeEntry> = Vec::new();
    let mut i: usize = 0;
    while i < entries.len()
        invariant
            i <= entries@.len(),
            entries@.map_values(|e: TimeEntry| e@) == orig,
            sorted@.map_values(|e: TimeEntry| e@) == sort_entries(
                orig.subrange(0, i as int),
            ),
        decreases entries@.len() - i,
    {
        let e = entries[i].clone();
        assert(e@ == orig[i as int]) by {
            assert(entries@.map_values(|x: TimeEntry| x@)[i as int] == entries@[i as int]@);
        }
        // Find the insertion point: after every entry with time <= e.time.
        let mut j: usize = sorted.len();
        while j > 0 && sorted[j - 1].time.0 > e.time.0
            invariant
                j <= sorted@.len(),
                forall|k: int|
                    j <= k < sorted@.len() ==> sorted@[k].time.0 > e.time.0,
            decreases j,
        {
            j -= 1;
        }
        let ghost pre = sorted@.map_values(|x: TimeEntry| x@);
        sorted.insert(j, e);
        proof {
            let post = sorted@.map_values(|x: TimeEntry| x@);
            lemma_insert_at_point(pre, e@, j as int);
            assert(post =~= pre.subrange(0, j as int) + seq![e@] + pre.subrange(
                j as int,
                pre.len() as int,
            ));
            assert(orig.subrange(0, i + 1) =~= orig.subrange(0, i as int).push(orig[i as int]));
            assert(orig.subrange(0, i + 1).drop_last() =~= orig.subrange(0, i as int));
            assert(post == sort_entries(orig.subrange(0, i + 1)));
        }
        i += 1;
    }
    proof {
        assert(orig.subrange(0, orig.len() as int) =~= orig);
    }
    *entries = sorted;
}

/// When every entry of `s` from `j` on has a time above `e.time` and `s` is
/// sorted, inserting `e` lands exactly at position `j`.
proof fn lemma_insert_at_point(s: Seq<EntryData>, e: EntryData, j: int)
    requires
        0 <= j <= s.len(),
        forall|k: int| j <= k < s.len() ==> s[k].time > e.time,
        j > 0 ==> s[j - 1].time <= e.time,
    ensures
        insert_entry(s, e) =~= s.subrange(0, j) + seq![e] + s.subrange(j, s.len() as int),
    decreases s.len(),
{
    if s.len() == 0 {
    } else if s.last().time <= e.time {
        assert(j == s.len());
        assert(insert_entry(s, e) =~= s + seq![e]);
        assert(s.subrange(0, j) =~= s);
        assert(s.subrange(j, s.len() as int) =~= Seq::<EntryData>::empty());
    } else {
        assert(j < s.len());
        lemma_insert_at_point(s.drop_last(), e, j);
        assert(s.drop_last().subrange(0, j) =~= s.subrange(0, j));
        assert(s.drop_last().subrange(j, s.drop_last().len() as int) + seq![s.last()] =~= s.subrange(
            j,
            s.len() as int,
        ));
    }
}

} // verus!

verus! {

/// Whether a byte is an ASCII digit.
pub open spec fn is_digit_byte(b: u8) -> bool {
    48 <= b <= 57
}

/// Ten to the `k`.
pub open spec fn pow10(k: nat) -> int
    decreases k,
{
    if k == 0 {
        1
    } else {
        10 * pow10((k - 1) as nat)
    }
}

/// Clamps a non-negative total at the largest stored time.
pub open spec fn sat_time(x: int) -> int {
    if x > 0x7FFF_FFFF {
        0x7FFF_FFFF
    } else {
        x
    }
}

/// One digit run folded into the total: the run weights are hundredths,
/// seconds, minutes, hours and days, right to left; any run past the fifth
/// saturates the total.
pub open spec fn add_run(t: int, val: int, n: nat) -> int {
    if n == 0 {
        sat_time(t + val)
    } else if n == 1 {
        sat_time(t + val * 100)
    } else if n == 2 {
        sat_time(t + val * 6000)
    } else if n == 3 {
        sat_time(t + val * 360_000)
    } else if n == 4 {
        sat_time(t + val * 8_640_000)
    } else {
        0x7FFF_FFFF
    }
}

/// One byte folded into the right-to-left scan state: digits grow the
/// current run from its low place; anything else closes a run.
/// The state holds the digits seen in the current run, the run's value,
/// the runs closed so far and the total, the values clamped at the largest
/// stored time.
pub open spec fn tf_step(b: u8, st: (nat, int, nat, int)) -> (nat, int, nat, int) {
    let (k, val, n, t) = st;
    if is_digit_byte(b) {
        let d = (b - 48) as int;
        let v2 = if d == 0 {
            val
        } else if k >= 10 {
            0x7FFF_FFFF
        } else {
            sat_time(val + d * pow10(k))
        };
        ((k + 1) as nat, v2, n, t)
    } else if k > 0 {
        (0nat, 0int, (n + 1) as nat, add_run(t, val, n))
    } else {
        st
    }
}

/// The scan state after the bytes from `i` on have been folded, right to
/// left.
pub open spec fn tf_scan(s: Seq<u8>, i: int) -> (nat, int, nat, int)
    decreases s.len() - i,
{
    if i < 0 || i >= s.len() {
        (0nat, 0int, 0nat, 0int)
    } else {
        tf_step(s[i], tf_scan(s, i + 1))
    }
}

/// The time a string's bytes denote: digit runs weighted right to left,
/// clamped at the largest stored time, negated after a leading minus sign.
pub open spec fn time_of_bytes(s: Seq<u8>) -> int {
    let st = tf_scan(s, 0);
    let total = if st.0 > 0 {
        add_run(st.3, st.1, st.2)
    } else {
        st.3
    };
    if s.len() > 0 && s[0] == 45 {
        -total
    } else {
        total
    }
}

/// Ten to the `k`, executable for the places a run can hold.
fn pow10_exec(k: u64) -> (r: i64)
    requires
        k <= 9,
    ensures
        r == pow10(k as nat),
        1 <= r <= 1_000_000_000,
{
    let mut i: u64 = 0;
    let mut acc: i64 = 1;
    while i < k
        invariant
            i <= k <= 9,
            acc == pow10(i as nat),
            1 <= acc <= 1_000_000_000,
        decreases k - i,
    {
        proof {
            lemma_pow10_bounds((i + 1) as nat);
        }
        acc = acc * 10;
        i += 1;
    }
    acc
}

/// Ten to the `k` stays within the ninth power's bound.
proof fn lemma_pow10_bounds(k: nat)
    requires
        k <= 9,
    ensures
        1 <= pow10(k) <= 1_000_000_000,
{
    assert(pow10(0) == 1);
    assert(pow10(1) == 10);
    assert(pow10(2) == 100);
    assert(pow10(3) == 1000);
    assert(pow10(4) == 10_000);
    assert(pow10(5) == 100_000);
    assert(pow10(6) == 1_000_000);
    assert(pow10(7) == 10_000_000);
    assert(pow10(8) == 100_000_000);
    assert(pow10(9) == 1_000_000_000);
}

/// The scan state stays within the stored-time bounds.
proof fn lemma_tf_scan_bounds(s: Seq<u8>, i: int)
    ensures
        0 <= tf_scan(s, i).1 <= 0x7FFF_FFFF,
        0 <= tf_scan(s, i).3 <= 0x7FFF_FFFF,
    decreases s.len() - i,
{
    if 0 <= i < s.len() {
        lemma_tf_scan_bounds(s, i + 1);
        let st = tf_scan(s, i + 1);
        if is_digit_byte(s[i]) {
            let d = (s[i] - 48) as int;
            if d != 0 && st.0 < 10 {
                lemma_pow10_bounds(st.0);
            }
        }
    }
}

impl Time {
    /// Creates a `Time` from a string: maximal digit runs weighted right to
    /// left as hundredths, seconds, minutes, hours and days, every other
    /// character a separator, negated after a leading minus sign; oversized
    /// runs and totals clamp at the largest stored time.
    pub fn from(s: &str) -> (r: Self)
        ensures
            r.0 == time_of_bytes(s.spec_bytes()),
    {
        let bytes = s.as_bytes();
        let ghost bv = s.spec_bytes();
        let mut i: usize = bytes.len();
        let mut k: u64 = 0;
        let mut val: i64 = 0;
        let mut n: u64 = 0;
        let mut t: i64 = 0;
        proof {
            assert(tf_scan(bv, bytes@.len() as int) == (0nat, 0int, 0nat, 0int));
        }
        while i > 0
            invariant
                i <= bytes@.len(),
                bv == bytes@,
                (k as nat, val as int, n as nat, t as int) == tf_scan(bv, i as int),
                k as nat <= bv.len() - i,
                n as nat <= bv.len() - i,
                0 <= val <= 0x7FFF_FFFF,
                0 <= t <= 0x7FFF_FFFF,
            decreases i,
        {
            i -= 1;
            let b = bytes[i];
            if 48 <= b && b <= 57 {
                let d = (b - 48) as i64;
                if d != 0 {
                    if k >= 10 {
                        val = 0x7FFF_FFFF;
                    } else {
                        let p = pow10_exec(k);
                        proof {
                            assert(d * p <= 9 * 1_000_000_000 && d * p >= 1) by (nonlinear_arith)
                                requires
                                    1 <= d <= 9,
                                    1 <= p <= 1_000_000_000,
    ;
                        }
                        let step = d * p;
                        let sum = val + step;
                        val = if sum > 0x7FFF_FFFF {
                            0x7FFF_FFFF
                        } else {
                            sum
                        };
                    }
                }
                k = k + 1;
            } else if k > 0 {
                t = Time::add_run_exec(t, val, n);
                k = 0;
                val = 0;
                n = n + 1;
            }
            assert((k as nat, val as int, n as nat, t as int) == tf_scan(bv, i as int));
        }
        let total: i64 = if k > 0 {
            Time::add_run_exec(t, val, n)
        } else {
            t
        };
        let signed: i64 = if bytes.len() > 0 && bytes[0] == 45 {
            -total
        } else {
            total
        };
        Time(signed as i32)
    }

    /// Folds one closed run into the total.
    fn add_run_exec(t: i64, val: i64, n: u64) -> (r: i64)
        requires
            0 <= t <= 0x7FFF_FFFF,
            0 <= val <= 0x7FFF_FFFF,
        ensures
            r == add_run(t as int, val as int, n as nat),
            0 <= r <= 0x7FFF_FFFF,
    {
        let sum: i64 = if n == 0 {
            t + val
        } else if n == 1 {
            t + val * 100
        } else if n == 2 {
            t + val * 6000
        } else if n == 3 {
            t + val * 360_000
        } else if n == 4 {
            t + val * 8_640_000
        } else {
            return 0x7FFF_FFFF;
        };
        if sum > 0x7FFF_FFFF {
            0x7FFF_FFFF
        } else {
            sum
        }
    }
}

} // verus!

verus! {

/// The ASCII digit character of `d`.
pub open spec fn digit_char(d: int) -> char {
    ((48 + d) as u8) as char
}

/// Two zero-padded digit characters of `x`, for values below one hundred.
pub open spec fn two_digits(x: int) -> Seq<char> {
    seq![digit_char(x / 10), digit_char(x % 10)]
}

/// The decimal digit characters of `x`.
pub open spec fn dec_chars(x: int) -> Seq<char>
    decreases x,
{
    if x < 10 {
        seq![digit_char(x)]
    } else {
        dec_chars(x / 10) + seq![digit_char(x % 10)]
    }
}

/// The display form of a time: an optional minus sign, the hours
/// (zero-padded to two digits and followed by a colon, shown only when
/// nonzero), then minutes, seconds and hundredths as zero-padded pairs.
pub open spec fn time_text(t: i32) -> Seq<char> {
    let p = time_parts(t);
    (if p.0 {
        seq!['-']
    } else {
        Seq::<char>::empty()
    }) + (if p.1 > 0 {
        (if p.1 < 10 {
            seq![digit_char(0), digit_char(p.1 as int)]
        } else {
            dec_chars(p.1 as int)
        }) + seq![':']
    } else {
        Seq::<char>::empty()
    }) + two_digits(p.2 as int) + seq![':'] + two_digits(p.3 as int) + seq![','] + two_digits(
        p.4 as int,
    )
}

impl Time {
    /// The display form of the time, in place of a formatting trait: for
    /// example eight minutes and a hundredth is "08:00,01".
    #[verifier::rlimit(100)]
    #[verifier::spinoff_prover]
    pub fn text(&self) -> (r: String)
        ensures
            r@ == time_text(self.0),
    {
        let (neg, hr, m, s, h) = self.to_parts();
        let mut out: Vec<u8> = Vec::new();
        if neg {
            out.push(45);
        }
        let ghost sign_part = out@;
        if hr > 0 {
            if hr < 10 {
                out.push(48);
                out.push((48 + hr) as u8);
            } else if hr < 100 {
                out.push((48 + hr / 10) as u8);
                out.push((48 + hr % 10) as u8);
                proof {
                    let x = hr as int;
                    assert(dec_chars(x / 10) =~= seq![digit_char(x / 10)]);
                    assert(dec_chars(x) =~= dec_chars(x / 10) + seq![digit_char(x % 10)]);
                }
            } else if hr < 1000 {
                out.push((48 + hr / 100) as u8);
                out.push((48 + (hr / 10) % 10) as u8);
                out.push((48 + hr % 10) as u8);
                proof {
                    let x = hr as int;
                    vstd::arithmetic::div_mod::lemma_div_denominator(x, 10, 10);
                    assert((x / 10) / 10 == x / 100);
                    assert(dec_chars(x / 100) =~= seq![digit_char(x / 100)]);
                    assert(dec_chars(x / 10) =~= dec_chars(x / 100) + seq![
                        digit_char((x / 10) % 10),
                    ]);
                    assert(dec_chars(x) =~= dec_chars(x / 10) + seq![digit_char(x % 10)]);
                    assert(dec_chars(x) =~= seq![
                        digit_char(x / 100),
                        digit_char((x / 10) % 10),
                        digit_char(x % 10),
                    ]);
                }
            } else {
                out.push((48 + hr / 1000) as u8);
                out.push((48 + (hr / 100) % 10) as u8);
                out.push((48 + (hr / 10) % 10) as u8);
                out.push((48 + hr % 10) as u8);
                proof {
                    let x = hr as int;
                    assert(x < 10000);
                    vstd::arithmetic::div_mod::lemma_div_denominator(x, 10, 10);
                    vstd::arithmetic::div_mod::lemma_div_denominator(x, 100, 10);
                    assert((x / 10) / 10 == x / 100);
                    assert((x / 100) / 10 == x / 1000);
                    assert(dec_chars(x / 1000) =~= seq![digit_char(x / 1000)]);
                    assert(dec_chars(x / 100) =~= dec_chars(x / 1000) + seq![
                        digit_char((x / 100) % 10),
                    ]);
                    assert(dec_chars(x / 10) =~= dec_chars(x / 100) + seq![
                        digit_char((x / 10) % 10),
                    ]);
                    assert(dec_chars(x) =~= dec_chars(x / 10) + seq![digit_char(x % 10)]);
                    assert(dec_chars(x) =~= seq![
                        digit_char(x / 1000),
                        digit_char((x / 100) % 10),
                        digit_char((x / 10) % 10),
                        digit_char(x % 10),
                    ]);
                }
            }
            out.push(58);
        }
        out.push((48 + m / 10) as u8);
        out.push((48 + m % 10) as u8);
        out.push(58);
        out.push((48 + s / 10) as u8);
        out.push((48 + s % 10) as u8);
        out.push(44);
        out.push((48 + h / 10) as u8);
        out.push((48 + h % 10) as u8);
        proof {
            assert(forall|i: int| 0 <= i < out@.len() ==> #[trigger] out@[i] < 0x80);
        }
        let r = crate::utils::ascii_string(out);
        proof {
            assert(45u8 as char == '-');
            assert(58u8 as char == ':');
            assert(44u8 as char == ',');
            assert(r@ =~= time_text(self.0));
        }
        r
    }
}

} // verus!
