//! The global state database: 90 levels' best-times tables, up to 50
//! player profiles and the input and display settings, all ciphered with
//! the state keystream over a fixed table of disjoint regions, the seed
//! state reset at the start of each region.

use vstd::prelude::*;

use crate::bytes::{bits_of_i32, i32_of_bits, le_u32_at, le_u32_of, push_i32, push_u32, read_i32,
    read_u32};
use crate::crypt::{crypt_range, mask_at, STATE_MODULUS, STATE_SEED_A, STATE_SEED_B};
use crate::shared::BestTimes;
use crate::ElmaError;

verus! {

/// Play mode.
#[derive(Debug, Clone, PartialEq, Copy)]
pub enum PlayMode {
    /// Single player.
    Single,
    /// Multi player.
    Multi,
}

impl Default for PlayMode {
    /// The default mode is single player.
    fn default() -> (r: Self)
        ensures
            r == PlayMode::Single,
    {
        PlayMode::Single
    }
}

/// The stored code of a play mode.
pub open spec fn play_mode_code(m: PlayMode) -> i32 {
    match m {
        PlayMode::Single => 1,
        PlayMode::Multi => 0,
    }
}

/// Sound optimization.
#[derive(Debug, Clone, PartialEq, Copy)]
pub enum SoundOptimization {
    /// Compatibility mode.
    Compatibility,
    /// Best quality mode.
    BestQuality,
}

impl Default for SoundOptimization {
    /// The default optimization is best quality.
    fn default() -> (r: Self)
        ensures
            r == SoundOptimization::BestQuality,
    {
        SoundOptimization::BestQuality
    }
}

/// The stored code of a sound optimization.
pub open spec fn sound_opt_code(m: SoundOptimization) -> i32 {
    match m {
        SoundOptimization::Compatibility => 1,
        SoundOptimization::BestQuality => 0,
    }
}

/// Video detail.
#[derive(Debug, Clone, PartialEq, Copy)]
pub enum VideoDetail {
    /// Low details.
    Low,
    /// High details.
    High,
}

impl Default for VideoDetail {
    /// The default detail is high.
    fn default() -> (r: Self)
        ensures
            r == VideoDetail::High,
    {
        VideoDetail::High
    }
}

/// The stored code of a video detail.
pub open spec fn video_detail_code(m: VideoDetail) -> i32 {
    match m {
        VideoDetail::Low => 0,
        VideoDetail::High => 1,
    }
}

/// Player entry in the state database.
#[derive(Default, Debug, Clone, PartialEq)]
pub struct PlayerEntry {
    /// Player name.
    pub name: String,
    /// Which of the 54 internal levels the player has skipped.
    pub skipped_internals: Vec<bool>,
    /// The index of the last internal the player has reached so far.
    pub last_internal: i32,
    /// The last played (selected) internal.
    pub selected_internal: i32,
}

/// Key settings of a player.
#[derive(Default, Debug, Clone, PartialEq, Eq, Copy)]
pub struct PlayerKeys {
    /// Throttle key.
    pub throttle: u32,
    /// Brake key.
    pub brake: u32,
    /// Rotate right key.
    pub rotate_right: u32,
    /// Rotate left key.
    pub rotate_left: u32,
    /// Change direction key.
    pub change_direction: u32,
    /// Toggle navigator key.
    pub toggle_navigator: u32,
    /// Toggle timer key.
    pub toggle_timer: u32,
    /// Toggle show/hide key.
    pub toggle_show_hide: u32,
}

/// The state database.
#[derive(Default, Debug, Clone, PartialEq)]
pub struct State {
    /// State file version; the only supported value is 200.
    pub version: u32,
    /// Best times lists, one per level; the file stores exactly 90.
    pub times: Vec<BestTimes>,
    /// List of players; the file stores up to 50.
    pub players: Vec<PlayerEntry>,
    /// Name of player A, at most 14 characters.
    pub player_a_name: String,
    /// Name of player B, at most 14 characters.
    pub player_b_name: String,
    /// Keys for player A.
    pub player_a_keys: PlayerKeys,
    /// Keys for player B.
    pub player_b_keys: PlayerKeys,
    /// Whether sound is enabled.
    pub sound_enabled: bool,
    /// Sound optimization.
    pub sound_optimization: SoundOptimization,
    /// Play mode.
    pub play_mode: PlayMode,
    /// Whether flag tag mode is enabled.
    pub flagtag: bool,
    /// Whether the bikes are swapped; stored inverted.
    pub swap_bikes: bool,
    /// Video detail.
    pub video_detail: VideoDetail,
    /// Whether objects are animated.
    pub animated_objects: bool,
    /// Whether menus are animated.
    pub animated_menus: bool,
    /// Key for increasing screen size.
    pub inc_screen_size_key: u32,
    /// Key for decreasing screen size.
    pub dec_screen_size_key: u32,
    /// Key for taking a screenshot.
    pub screenshot_key: u32,
    /// Name of the last edited level.
    pub last_edited_lev_name: String,
    /// Name of the last played external level.
    pub last_played_external: String,
}

impl State {
    /// Create a new state database with the game's default settings: 90
    /// empty best-times tables, no players, the stock key bindings, sound
    /// on, single-player mode and high video detail.
    pub fn new() -> (r: Self)
        ensures
            r.version == 200,
            r.times@.len() == 90,
            forall|i: int|
                0 <= i < 90 ==> (#[trigger] r.times@[i])@.single.len() == 0
                    && r.times@[i]@.multi.len() == 0,
            r.players@.len() == 0,
            r.player_a_name@ == Seq::<char>::empty(),
            r.player_b_name@ == Seq::<char>::empty(),
            r.player_a_keys == (PlayerKeys {
                throttle: 200u32,
                brake: 208u32,
                rotate_right: 205u32,
                rotate_left: 203u32,
                change_direction: 57u32,
                toggle_navigator: 47u32,
                toggle_timer: 20u32,
                toggle_show_hide: 2u32,
            }),
            r.player_b_keys == (PlayerKeys {
                throttle: 76u32,
                brake: 80u32,
                rotate_right: 81u32,
                rotate_left: 79u32,
                change_direction: 82u32,
                toggle_navigator: 48u32,
                toggle_timer: 21u32,
                toggle_show_hide: 3u32,
            }),
            r.sound_enabled == true,
            r.sound_optimization == SoundOptimization::BestQuality,
            r.play_mode == PlayMode::Single,
            r.flagtag == false,
            r.swap_bikes == false,
            r.video_detail == VideoDetail::High,
            r.animated_objects == true,
            r.animated_menus == true,
            r.inc_screen_size_key == 13,
            r.dec_screen_size_key == 12,
            r.screenshot_key == 23,
            r.last_edited_lev_name@ == Seq::<char>::empty(),
            r.last_played_external@ == Seq::<char>::empty(),
    {
        let mut times: Vec<BestTimes> = Vec::new();
        let mut i: usize = 0;
        while i < 90
            invariant
                i <= 90,
                times@.len() == i,
                forall|j: int|
                    0 <= j < i ==> (#[trigger] times@[j])@.single.len() == 0
                        && times@[j]@.multi.len() == 0,
            decreases 90 - i,
        {
            times.push(BestTimes::new());
            i += 1;
        }
        State {
            version: 200,
            times,
            players: Vec::new(),
            player_a_name: String::new(),
            player_b_name: String::new(),
            player_a_keys: PlayerKeys {
                throttle: 200,
                brake: 208,
                rotate_right: 205,
                rotate_left: 203,
                change_direction: 57,
                toggle_navigator: 47,
                toggle_timer: 20,
                toggle_show_hide: 2,
            },
            player_b_keys: PlayerKeys {
                throttle: 76,
                brake: 80,
                rotate_right: 81,
                rotate_left: 79,
                change_direction: 82,
                toggle_navigator: 48,
                toggle_timer: 21,
                toggle_show_hide: 3,
            },
            sound_enabled: true,
            sound_optimization: SoundOptimization::BestQuality,
            play_mode: PlayMode::Single,
            flagtag: false,
            swap_bikes: false,
            video_detail: VideoDetail::High,
            animated_objects: true,
            animated_menus: true,
            inc_screen_size_key: 13,
            dec_screen_size_key: 12,
            screenshot_key: 23,
            last_edited_lev_name: String::new(),
            last_played_external: String::new(),
        }
    }
}

/// The lengths of the ciphered regions of a state file, in file order: the
/// version, the times tables, the player table, the player count, the two
/// player names, the nine setting words, the two key blocks, the three
/// extra keys and the two level names. The trailing end marker stays
/// plain.
pub open spec fn state_regions() -> Seq<int> {
    seq![4, 61920, 5800, 4, 15, 15, 4, 4, 4, 4, 4, 4, 4, 4, 32, 32, 4, 4, 4, 20, 20]
}

/// The start offset of region `i`: the lengths of the regions before it.
pub open spec fn region_start(i: int) -> int
    decreases i,
{
    if i <= 0 {
        0
    } else {
        region_start(i - 1) + state_regions()[i - 1]
    }
}

/// Whether a buffer holds the state cipher of `plain`: every region is
/// XORed with the keystream restarted at the region's start, and any bytes
/// past the last region are unchanged.
pub open spec fn state_crypted(plain: Seq<u8>, c: Seq<u8>) -> bool {
    &&& c.len() == plain.len()
    &&& forall|i: int, j: int|
        0 <= i < 21 && #[trigger] region_start(i) <= j < region_start(i + 1) && j < plain.len()
            ==> #[trigger] c[j] == (plain[j] ^ mask_at(
            STATE_SEED_A,
            STATE_SEED_B,
            STATE_MODULUS,
            (j - region_start(i)) as nat,
        ))
    &&& forall|j: int| region_start(21) <= j < plain.len() ==> #[trigger] c[j] == plain[j]
}

/// Ciphers one region of a state buffer in place, the seed state freshly
/// reset.
pub fn crypt_state(buffer: &mut Vec<u8>, start: usize, count: usize)
    requires
        start + count <= old(buffer).len(),
    ensures
        final(buffer)@.len() == old(buffer)@.len(),
        forall|j: int|
            start <= j < start + count ==> final(buffer)@[j] == (old(buffer)@[j] ^ mask_at(
                STATE_SEED_A,
                STATE_SEED_B,
                STATE_MODULUS,
                (j - start) as nat,
            )),
        forall|j: int|
            0 <= j < old(buffer)@.len() && !(start <= j < start + count) ==> final(buffer)@[j]
                == old(buffer)@[j],
{
    crypt_range(buffer, start, count, STATE_SEED_A, STATE_SEED_B, STATE_MODULUS);
}

/// Ciphers a whole state buffer: each region of the fixed table in turn,
/// the seed state reset at each region start. The same transform decrypts,
/// as the keystream cipher is its own inverse.
#[verifier::rlimit(100)]
#[verifier::spinoff_prover]
pub fn crypt_whole_state(buffer: &mut Vec<u8>)
    requires
        old(buffer).len() >= 67906,
    ensures
        final(buffer)@.len() == old(buffer)@.len(),
        state_crypted(old(buffer)@, final(buffer)@),
{
    let ghost orig = buffer@;
    let lens: [usize; 21] = [
        4, 61920, 5800, 4, 15, 15, 4, 4, 4, 4, 4, 4, 4, 4, 32, 32, 4, 4, 4, 20, 20,
    ];
    proof {
        assert forall|q: int| 0 <= q < 21 implies #[trigger] lens@[q] == state_regions()[q] by {
            assert(lens@ =~= state_regions().map_values(|x: int| x as usize));
            assert(lens@[q] == state_regions().map_values(|x: int| x as usize)[q]);
        }
    }
    let mut curr: usize = 0;
    let mut i: usize = 0;
    while i < 21
        invariant
            i <= 21,
            curr == region_start(i as int),
            curr <= 67906,
            buffer@.len() == orig.len() >= 67906,
            forall|q: int| 0 <= q < 21 ==> #[trigger] lens@[q] == state_regions()[q],
            forall|k: int, j: int|
                0 <= k < i && #[trigger] region_start(k) <= j < region_start(k + 1)
                    ==> #[trigger] buffer@[j] == (orig[j] ^ mask_at(
                    STATE_SEED_A,
                    STATE_SEED_B,
                    STATE_MODULUS,
                    (j - region_start(k)) as nat,
                )),
            forall|j: int| region_start(i as int) <= j < orig.len() ==> #[trigger] buffer@[j] == orig[j],
        decreases 21 - i,
    {
        let n = lens[i];
        proof {
            assert(state_regions()[i as int] == n);
            assert(region_start(i + 1) == region_start(i as int) + n);
            lemma_region_starts();
            lemma_region_monotone(i + 1, 21);
            assert(curr + n <= 67906);
        }
        let ghost before = buffer@;
        crypt_state(buffer, curr, n);
        proof {
            assert forall|k: int, j: int|
                0 <= k < i + 1 && #[trigger] region_start(k) <= j < region_start(k + 1)
                    implies #[trigger] buffer@[j] == (orig[j] ^ mask_at(
                    STATE_SEED_A,
                    STATE_SEED_B,
                    STATE_MODULUS,
                    (j - region_start(k)) as nat,
                )) by {
                if k < i {
                    lemma_region_monotone(0, k);
                    lemma_region_monotone(k + 1, i as int);
                    assert(0 <= j < region_start(i as int));
                    assert(buffer@[j] == before[j]);
                } else {
                    assert(k == i);
                    assert(before[j] == orig[j]);
                }
            }
            assert forall|j: int|
                region_start(i + 1) <= j < orig.len() implies #[trigger] buffer@[j] == orig[
                j] by {
                assert(buffer@[j] == before[j]);
            }
        }
        curr = curr + n;
        i += 1;
    }
    proof {
        lemma_region_starts();
    }
}

/// The cumulative region starts are monotone.
proof fn lemma_region_monotone(a: int, b: int)
    requires
        0 <= a <= b <= 21,
    ensures
        region_start(a) <= region_start(b),
    decreases b - a,
{
    if a < b {
        lemma_region_monotone(a, b - 1);
        assert(state_regions()[b - 1] > 0);
    }
}

/// The whole region table spans 67906 bytes.
pub proof fn lemma_region_starts()
    ensures
        region_start(21) == 67906,
{
    assert(region_start(21) == 67906) by {
        assert(region_start(0) == 0);
        assert(region_start(1) == 4);
        assert(region_start(2) == 61924);
        assert(region_start(3) == 67724);
        assert(region_start(4) == 67728);
        assert(region_start(5) == 67743);
        assert(region_start(6) == 67758);
        assert(region_start(7) == 67762);
        assert(region_start(8) == 67766);
        assert(region_start(9) == 67770);
        assert(region_start(10) == 67774);
        assert(region_start(11) == 67778);
        assert(region_start(12) == 67782);
        assert(region_start(13) == 67786);
        assert(region_start(14) == 67790);
        assert(region_start(15) == 67822);
        assert(region_start(16) == 67854);
        assert(region_start(17) == 67858);
        assert(region_start(18) == 67862);
        assert(region_start(19) == 67866);
        assert(region_start(20) == 67886);
        assert(region_start(21) == 67906);
    }
}

} // verus!

verus! {

/// The model of a player entry.
pub ghost struct PlayerData {
    /// Player name.
    pub name: Seq<char>,
    /// Which internals the player has skipped.
    pub skipped_internals: Seq<bool>,
    /// The index of the last internal reached.
    pub last_internal: i32,
    /// The last selected internal.
    pub selected_internal: i32,
}

impl View for PlayerEntry {
    type V = PlayerData;

    open spec fn view(&self) -> PlayerData {
        PlayerData {
            name: self.name@,
            skipped_internals: self.skipped_internals@,
            last_internal: self.last_internal,
            selected_internal: self.selected_internal,
        }
    }
}

/// The model of the whole state database: every persisted field.
pub ghost struct StateData {
    /// State file version.
    pub version: u32,
    /// Best times lists, one per level.
    pub times: Seq<crate::shared::BestTimesData>,
    /// Player entries.
    pub players: Seq<PlayerData>,
    /// Name of player A.
    pub player_a_name: Seq<char>,
    /// Name of player B.
    pub player_b_name: Seq<char>,
    /// Keys for player A.
    pub player_a_keys: PlayerKeys,
    /// Keys for player B.
    pub player_b_keys: PlayerKeys,
    /// Whether sound is enabled.
    pub sound_enabled: bool,
    /// Sound optimization.
    pub sound_optimization: SoundOptimization,
    /// Play mode.
    pub play_mode: PlayMode,
    /// Whether flag tag mode is enabled.
    pub flagtag: bool,
    /// Whether the bikes are swapped.
    pub swap_bikes: bool,
    /// Video detail.
    pub video_detail: VideoDetail,
    /// Whether objects are animated.
    pub animated_objects: bool,
    /// Whether menus are animated.
    pub animated_menus: bool,
    /// Key for increasing screen size.
    pub inc_screen_size_key: u32,
    /// Key for decreasing screen size.
    pub dec_screen_size_key: u32,
    /// Key for taking a screenshot.
    pub screenshot_key: u32,
    /// Name of the last edited level.
    pub last_edited_lev_name: Seq<char>,
    /// Name of the last played external level.
    pub last_played_external: Seq<char>,
}

impl View for State {
    type V = StateData;

    open spec fn view(&self) -> StateData {
        StateData {
            version: self.version,
            times: self.times@.map_values(|t: BestTimes| t@),
            players: self.players@.map_values(|p: PlayerEntry| p@),
            player_a_name: self.player_a_name@,
            player_b_name: self.player_b_name@,
            player_a_keys: self.player_a_keys,
            player_b_keys: self.player_b_keys,
            sound_enabled: self.sound_enabled,
            sound_optimization: self.sound_optimization,
            play_mode: self.play_mode,
            flagtag: self.flagtag,
            swap_bikes: self.swap_bikes,
            video_detail: self.video_detail,
            animated_objects: self.animated_objects,
            animated_menus: self.animated_menus,
            inc_screen_size_key: self.inc_screen_size_key,
            dec_screen_size_key: self.dec_screen_size_key,
            screenshot_key: self.screenshot_key,
            last_edited_lev_name: self.last_edited_lev_name@,
            last_played_external: self.last_played_external@,
        }
    }
}

/// The keystream mask at absolute offset `j` of a state buffer: the
/// keystream restarted at the start of the region `j` falls in. Bytes past
/// the region table carry no mask.
#[verifier::opaque]
pub open spec fn state_mask(j: int) -> u8 {
    let base: int = if j < 4 {
        0
    } else if j < 61924 {
        4
    } else if j < 67724 {
        61924
    } else if j < 67728 {
        67724
    } else if j < 67743 {
        67728
    } else if j < 67758 {
        67743
    } else if j < 67762 {
        67758
    } else if j < 67766 {
        67762
    } else if j < 67770 {
        67766
    } else if j < 67774 {
        67770
    } else if j < 67778 {
        67774
    } else if j < 67782 {
        67778
    } else if j < 67786 {
        67782
    } else if j < 67790 {
        67786
    } else if j < 67822 {
        67790
    } else if j < 67854 {
        67822
    } else if j < 67858 {
        67854
    } else if j < 67862 {
        67858
    } else if j < 67866 {
        67862
    } else if j < 67886 {
        67866
    } else {
        67886
    };
    mask_at(STATE_SEED_A, STATE_SEED_B, STATE_MODULUS, (j - base) as nat)
}

/// The state cipher as a function on whole buffers: each of the table's
/// regions XORed with the restarted keystream, the rest unchanged. Applying
/// it twice gives the buffer back.
#[verifier::opaque]
pub open spec fn state_cipher_seq(b: Seq<u8>) -> Seq<u8> {
    Seq::new(
        b.len(),
        |j: int|
            if j < 67906 {
                b[j] ^ state_mask(j)
            } else {
                b[j]
            },
    )
}

/// The region-table relation and the cipher function agree.
pub proof fn lemma_state_cipher_fn(p: Seq<u8>, c: Seq<u8>)
    requires
        p.len() >= 67906,
        state_crypted(p, c),
    ensures
        c =~= state_cipher_seq(p),
{
    lemma_region_starts();
    reveal(state_mask);
    reveal(state_cipher_seq);
    assert forall|j: int| 0 <= j < p.len() implies c[j] == state_cipher_seq(p)[j] by {
        if j < 67906 {
            let i: int = if j < 4 {
                0
            } else if j < 61924 {
                1
            } else if j < 67724 {
                2
            } else if j < 67728 {
                3
            } else if j < 67743 {
                4
            } else if j < 67758 {
                5
            } else if j < 67762 {
                6
            } else if j < 67766 {
                7
            } else if j < 67770 {
                8
            } else if j < 67774 {
                9
            } else if j < 67778 {
                10
            } else if j < 67782 {
                11
            } else if j < 67786 {
                12
            } else if j < 67790 {
                13
            } else if j < 67822 {
                14
            } else if j < 67854 {
                15
            } else if j < 67858 {
                16
            } else if j < 67862 {
                17
            } else if j < 67866 {
                18
            } else if j < 67886 {
                19
            } else {
                20
            };
            lemma_region_starts_all();
            assert(region_start(i) <= j < region_start(i + 1));
            assert(c[j] == (p[j] ^ mask_at(
                STATE_SEED_A,
                STATE_SEED_B,
                STATE_MODULUS,
                (j - region_start(i)) as nat,
            )));
        }
    }
}

/// The start offset of every region, spelled out.
pub proof fn lemma_region_starts_all()
    ensures
        region_start(0) == 0,
        region_start(1) == 4,
        region_start(2) == 61924,
        region_start(3) == 67724,
        region_start(4) == 67728,
        region_start(5) == 67743,
        region_start(6) == 67758,
        region_start(7) == 67762,
        region_start(8) == 67766,
        region_start(9) == 67770,
        region_start(10) == 67774,
        region_start(11) == 67778,
        region_start(12) == 67782,
        region_start(13) == 67786,
        region_start(14) == 67790,
        region_start(15) == 67822,
        region_start(16) == 67854,
        region_start(17) == 67858,
        region_start(18) == 67862,
        region_start(19) == 67866,
        region_start(20) == 67886,
        region_start(21) == 67906,
{
    assert(region_start(0) == 0);
    assert(region_start(1) == 4);
    assert(region_start(2) == 61924);
    assert(region_start(3) == 67724);
    assert(region_start(4) == 67728);
    assert(region_start(5) == 67743);
    assert(region_start(6) == 67758);
    assert(region_start(7) == 67762);
    assert(region_start(8) == 67766);
    assert(region_start(9) == 67770);
    assert(region_start(10) == 67774);
    assert(region_start(11) == 67778);
    assert(region_start(12) == 67782);
    assert(region_start(13) == 67786);
    assert(region_start(14) == 67790);
    assert(region_start(15) == 67822);
    assert(region_start(16) == 67854);
    assert(region_start(17) == 67858);
    assert(region_start(18) == 67862);
    assert(region_start(19) == 67866);
    assert(region_start(20) == 67886);
    assert(region_start(21) == 67906);
}

} // verus!

verus! {

/// The leading version word every state file starts with.
pub const STATE_START: u32 = 200;

/// The trailing end word a state file closes with.
pub const STATE_END: u32 = 123_432_221;

/// The alternative trailing end word some state files close with.
pub const STATE_END_ALT: u32 = 123_432_112;

/// The best-times tables of levels `i` to 90, each a pair of 344-byte
/// blocks, or nothing when any block is malformed.
pub open spec fn parse_state_times(p: Seq<u8>, i: int) -> Option<
    Seq<crate::shared::BestTimesData>,
>
    decreases 90 - i,
{
    if i >= 90 {
        Some(Seq::<crate::shared::BestTimesData>::empty())
    } else {
        let off = 4 + 688 * i;
        let block_a = p.subrange(off, off + 344);
        let block_b = p.subrange(off + 344, off + 688);
        if !crate::utils::top10_count_ok(block_a, 0) || !crate::utils::top10_count_ok(block_b, 0) {
            Option::None
        } else {
            match (crate::utils::parse_top10_block(block_a, 0), crate::utils::parse_top10_block(
                block_b,
                0,
            )) {
                (Ok(single), Ok(multi)) => match parse_state_times(p, i + 1) {
                    Some(rest) => Some(
                        seq![crate::shared::BestTimesData { single, multi }] + rest,
                    ),
                    Option::None => Option::None,
                },
                _ => Option::None,
            }
        }
    }
}

/// The player entry stored in slot `i`: a 16-byte name field, 54 skip
/// flags, 38 padding bytes and two stored words.
pub open spec fn player_at(p: Seq<u8>, i: int) -> PlayerData {
    let off = 61924 + 116 * i;
    PlayerData {
        name: crate::utils::trim_field(p, off, 16)->Ok_0,
        skipped_internals: Seq::new(54, |k: int| p[off + 16 + k] != 0),
        last_internal: i32_of_bits(le_u32_at(p, off + 108)),
        selected_internal: i32_of_bits(le_u32_at(p, off + 112)),
    }
}

/// The player entries from slot `i` on: slots are read until one whose
/// name field starts empty, the sentinel ending the list; a name field
/// that does not trim cleanly ends the parse.
pub open spec fn parse_state_players(p: Seq<u8>, i: int) -> Option<Seq<PlayerData>>
    decreases 50 - i,
{
    if i >= 50 {
        Some(Seq::<PlayerData>::empty())
    } else {
        let off = 61924 + 116 * i;
        match crate::utils::trim_field(p, off, 16) {
            Err(_) => Option::None,
            Ok(name) => {
                if name.len() == 0 {
                    Some(Seq::<PlayerData>::empty())
                } else {
                    match parse_state_players(p, i + 1) {
                        Some(rest) => Some(seq![player_at(p, i)] + rest),
                        Option::None => Option::None,
                    }
                }
            },
        }
    }
}

/// The stored word at `off` read back as a flag: nonzero means set.
pub open spec fn flag_at(p: Seq<u8>, off: int) -> bool {
    le_u32_at(p, off) != 0
}

/// What a state file's bytes decode to, or nothing when any rule fails:
/// the file is deciphered region by region, then the version word, the 90
/// best-times tables, the player table with its count word, the names, the
/// settings (the bike swap stored inverted), the key blocks and the end
/// word are read at their fixed offsets.
pub open spec fn parse_state_s(b: Seq<u8>) -> Option<StateData> {
    if b.len() < 67910 {
        Option::None
    } else {
        let p = state_cipher_seq(b);
        if le_u32_at(p, 0) != STATE_START {
            Option::None
        } else {
            match (parse_state_times(p, 0), parse_state_players(p, 0)) {
                (Some(times), Some(players)) => parse_state_tail(p, times, players),
                _ => Option::None,
            }
        }
    }
}

/// The fields past the player table: the count word must equal the players
/// found, the four name fields must trim cleanly, and the end word must be
/// one of the two accepted values.
pub open spec fn parse_state_tail(
    p: Seq<u8>,
    times: Seq<crate::shared::BestTimesData>,
    players: Seq<PlayerData>,
) -> Option<StateData> {
    if le_u32_at(p, 67724) != players.len() {
        Option::None
    } else {
        match (crate::utils::trim_field(p, 67728, 15), crate::utils::trim_field(
            p,
            67743,
            15,
        ), crate::utils::trim_field(p, 67866, 20), crate::utils::trim_field(p, 67886, 20)) {
            (Ok(a_name), Ok(b_name), Ok(edited), Ok(external)) => {
                if le_u32_at(p, 67906) != STATE_END && le_u32_at(p, 67906) != STATE_END_ALT {
                    Option::None
                } else {
                    Some(
                        StateData {
                            version: STATE_START,
                            times,
                            players,
                            player_a_name: a_name,
                            player_b_name: b_name,
                            player_a_keys: keys_at(p, 67790),
                            player_b_keys: keys_at(p, 67822),
                            sound_enabled: flag_at(p, 67758),
                            sound_optimization: if le_u32_at(p, 67762) == 0 {
                                SoundOptimization::BestQuality
                            } else {
                                SoundOptimization::Compatibility
                            },
                            play_mode: if le_u32_at(p, 67766) == 0 {
                                PlayMode::Multi
                            } else {
                                PlayMode::Single
                            },
                            flagtag: flag_at(p, 67770),
                            swap_bikes: !flag_at(p, 67774),
                            video_detail: if le_u32_at(p, 67778) == 0 {
                                VideoDetail::Low
                            } else {
                                VideoDetail::High
                            },
                            animated_objects: flag_at(p, 67782),
                            animated_menus: flag_at(p, 67786),
                            inc_screen_size_key: le_u32_at(p, 67854),
                            dec_screen_size_key: le_u32_at(p, 67858),
                            screenshot_key: le_u32_at(p, 67862),
                            last_edited_lev_name: edited,
                            last_played_external: external,
                        },
                    )
                }
            },
            _ => Option::None,
        }
    }
}

/// The key block stored at `off`: eight stored words in binding order.
pub open spec fn keys_at(p: Seq<u8>, off: int) -> PlayerKeys {
    PlayerKeys {
        throttle: le_u32_at(p, off),
        brake: le_u32_at(p, off + 4),
        rotate_right: le_u32_at(p, off + 8),
        rotate_left: le_u32_at(p, off + 12),
        change_direction: le_u32_at(p, off + 16),
        toggle_navigator: le_u32_at(p, off + 20),
        toggle_timer: le_u32_at(p, off + 24),
        toggle_show_hide: le_u32_at(p, off + 28),
    }
}

} // verus!

verus! {

/// Prefixes parsed best-times tables onto a parse outcome.
pub open spec fn combine_times(
    head: Seq<crate::shared::BestTimesData>,
    rest: Option<Seq<crate::shared::BestTimesData>>,
) -> Option<Seq<crate::shared::BestTimesData>> {
    match rest {
        Some(tail) => Some(head + tail),
        Option::None => Option::None,
    }
}

impl State {
    /// Load a state database from bytes: deciphers the buffer, then decodes
    /// every table and setting, or reports the one malformed-state error.
    pub fn from_bytes(buffer: &[u8]) -> (r: Result<State, ElmaError>)
        ensures
            match r {
                Ok(s) => parse_state_s(buffer@) == Some(s@),
                Err(e) => parse_state_s(buffer@) is None && e == ElmaError::InvalidStateFile,
            },
    {
        State::parse(buffer)
    }

    /// Parses the raw binary data into `State` struct fields.
    #[verifier::rlimit(100)]
    #[verifier::spinoff_prover]
    fn parse(buffer: &[u8]) -> (r: Result<State, ElmaError>)
        ensures
            match r {
                Ok(s) => parse_state_s(buffer@) == Some(s@),
                Err(e) => parse_state_s(buffer@) is None && e == ElmaError::InvalidStateFile,
            },
    {
        if buffer.len() < 67910 {
            return Err(ElmaError::InvalidStateFile);
        }
        let mut plain = vstd::slice::slice_to_vec(buffer);
        crypt_whole_state(&mut plain);
        proof {
            lemma_state_cipher_fn(buffer@, plain@);
        }
        let ghost p = state_cipher_seq(buffer@);
        assert(plain@ == p);
        if read_u32(plain.as_slice(), 0) != STATE_START {
            return Err(ElmaError::InvalidStateFile);
        }
        // The 90 best-times tables.
        let mut times: Vec<BestTimes> = Vec::new();
        let mut i: usize = 0;
        proof {
            assert(times@.map_values(|t: BestTimes| t@) =~= Seq::<
                crate::shared::BestTimesData,
            >::empty());
        }
        while i < 90
            invariant
                i <= 90,
                p == state_cipher_seq(buffer@),
                plain@ == p,
                plain@.len() == buffer@.len() >= 67910,
                parse_state_times(p, 0) == combine_times(
                    times@.map_values(|t: BestTimes| t@),
                    parse_state_times(p, i as int),
                ),
            decreases 90 - i,
        {
            let ghost before = times@.map_values(|t: BestTimes| t@);
            let off = 4 + 688 * i;
            proof {
                crate::utils::lemma_trim_subrange(p, off as int, 0);
            }
            let single = match crate::utils::parse_top10(&plain[off..off + 344]) {
                Ok(v) => v,
                Err(_) => {
                    return Err(ElmaError::InvalidStateFile);
                },
            };
            let multi = match crate::utils::parse_top10(&plain[off + 344..off + 688]) {
                Ok(v) => v,
                Err(_) => {
                    return Err(ElmaError::InvalidStateFile);
                },
            };
            let bt = BestTimes { single, multi };
            times.push(bt);
            i += 1;
            proof {
                let rest = parse_state_times(p, i as int);
                assert(parse_state_times(p, i - 1) == combine_times(seq![bt@], rest));
                assert(times@.map_values(|t: BestTimes| t@) =~= before.push(bt@));
                match rest {
                    Some(tail) => {
                        assert(before + (seq![bt@] + tail) =~= before.push(bt@) + tail);
                    },
                    Option::None => {},
                }
            }
        }
        proof {
            assert(parse_state_times(p, 90) == Some(Seq::<crate::shared::BestTimesData>::empty()));
            assert(times@.map_values(|t: BestTimes| t@) + Seq::<
                crate::shared::BestTimesData,
            >::empty() =~= times@.map_values(|t: BestTimes| t@));
        }
        // The player table, ended by the empty-name sentinel.
        let mut players: Vec<PlayerEntry> = Vec::new();
        let mut k: usize = 0;
        let mut stopped = false;
        proof {
            assert(players@.map_values(|q: PlayerEntry| q@) =~= Seq::<PlayerData>::empty());
        }
        while k < 50 && !stopped
            invariant
                k <= 50,
                players@.len() <= k,
                p == state_cipher_seq(buffer@),
                plain@ == p,
                plain@.len() == buffer@.len() >= 67910,
                !stopped ==> parse_state_players(p, 0) == combine_players(
                    players@.map_values(|q: PlayerEntry| q@),
                    parse_state_players(p, k as int),
                ),
                stopped ==> parse_state_players(p, 0) == Some(
                    players@.map_values(|q: PlayerEntry| q@),
                ),
            decreases 50 - k, (if stopped { 0int } else { 1int }),
        {
            let ghost before = players@.map_values(|q: PlayerEntry| q@);
            let off = 61924 + 116 * k;
            proof {
                crate::utils::lemma_trim_subrange(p, off as int, 16);
            }
            let name = match crate::utils::trim_string(&plain[off..off + 16]) {
                Ok(s) => s,
                Err(_) => {
                    return Err(ElmaError::InvalidStateFile);
                },
            };
            if name.as_str().is_empty() {
                stopped = true;
                proof {
                    assert(parse_state_players(p, k as int) == Some(Seq::<PlayerData>::empty()));
                    assert(before + Seq::<PlayerData>::empty() =~= before);
                }
            } else {
                let mut skipped: Vec<bool> = Vec::new();
                let mut f: usize = 0;
                let ghost fspec = Seq::new(54, |q: int| p[off + 16 + q] != 0);
                while f < 54
                    invariant
                        f <= 54,
                        plain@ == p,
                        off + 116 <= p.len(),
                        off == 61924 + 116 * k,
                        k < 50,
                        skipped@ =~= fspec.subrange(0, f as int),
                        fspec == Seq::new(54, |q: int| p[off + 16 + q] != 0),
                    decreases 54 - f,
                {
                    skipped.push(plain[off + 16 + f] != 0);
                    assert(skipped@ =~= fspec.subrange(0, f + 1));
                    f += 1;
                }
                assert(skipped@ =~= fspec);
                let last_internal = read_i32(plain.as_slice(), off + 108);
                let selected_internal = read_i32(plain.as_slice(), off + 112);
                let entry = PlayerEntry { name, skipped_internals: skipped, last_internal, selected_internal };
                assert(entry@ == player_at(p, k as int));
                players.push(entry);
                k += 1;
                proof {
                    let rest = parse_state_players(p, k as int);
                    assert(parse_state_players(p, k - 1) == combine_players(
                        seq![entry@],
                        rest,
                    ));
                    assert(players@.map_values(|q: PlayerEntry| q@) =~= before.push(entry@));
                    match rest {
                        Some(tail) => {
                            assert(before + (seq![entry@] + tail) =~= before.push(entry@) + tail);
                        },
                        Option::None => {},
                    }
                }
            }
        }
        proof {
            if !stopped {
                assert(parse_state_players(p, 50) == Some(Seq::<PlayerData>::empty()));
            }
            assert(players@.map_values(|q: PlayerEntry| q@) + Seq::<PlayerData>::empty()
                =~= players@.map_values(|q: PlayerEntry| q@));
        }
        assert(parse_state_players(p, 0) == Some(players@.map_values(|q: PlayerEntry| q@)));
        State::parse_tail(&plain, buffer, times, players)
    }

    /// Parses the fields past the player table.
    #[verifier::rlimit(100)]
    #[verifier::spinoff_prover]
    fn parse_tail(
        plain: &Vec<u8>,
        buffer: &[u8],
        times: Vec<BestTimes>,
        players: Vec<PlayerEntry>,
    ) -> (r: Result<State, ElmaError>)
        requires
            plain@ == state_cipher_seq(buffer@),
            plain@.len() == buffer@.len() >= 67910,
            le_u32_at(state_cipher_seq(buffer@), 0) == STATE_START,
            parse_state_times(state_cipher_seq(buffer@), 0) == Some(
                times@.map_values(|t: BestTimes| t@),
            ),
            parse_state_players(state_cipher_seq(buffer@), 0) == Some(
                players@.map_values(|q: PlayerEntry| q@),
            ),
            players@.len() <= 50,
        ensures
            match r {
                Ok(s) => parse_state_s(buffer@) == Some(s@),
                Err(e) => parse_state_s(buffer@) is None && e == ElmaError::InvalidStateFile,
            },
    {
        let ghost p = state_cipher_seq(buffer@);
        let count = read_u32(plain.as_slice(), 67724);
        if (count as u64) != (players.len() as u64) {
            return Err(ElmaError::InvalidStateFile);
        }
        proof {
            crate::utils::lemma_trim_subrange(p, 67728, 15);
            crate::utils::lemma_trim_subrange(p, 67743, 15);
            crate::utils::lemma_trim_subrange(p, 67866, 20);
            crate::utils::lemma_trim_subrange(p, 67886, 20);
        }
        let player_a_name = match crate::utils::trim_string(&plain.as_slice()[67728..67743]) {
            Ok(s) => s,
            Err(_) => {
                return Err(ElmaError::InvalidStateFile);
            },
        };
        let player_b_name = match crate::utils::trim_string(&plain.as_slice()[67743..67758]) {
            Ok(s) => s,
            Err(_) => {
                return Err(ElmaError::InvalidStateFile);
            },
        };
        let last_edited_lev_name = match crate::utils::trim_string(
            &plain.as_slice()[67866..67886],
        ) {
            Ok(s) => s,
            Err(_) => {
                return Err(ElmaError::InvalidStateFile);
            },
        };
        let last_played_external = match crate::utils::trim_string(
            &plain.as_slice()[67886..67906],
        ) {
            Ok(s) => s,
            Err(_) => {
                return Err(ElmaError::InvalidStateFile);
            },
        };
        let end = read_u32(plain.as_slice(), 67906);
        if end != STATE_END && end != STATE_END_ALT {
            return Err(ElmaError::InvalidStateFile);
        }
        let state = State {
            version: STATE_START,
            times,
            players,
            player_a_name,
            player_b_name,
            player_a_keys: State::read_keys(plain, 67790),
            player_b_keys: State::read_keys(plain, 67822),
            sound_enabled: read_u32(plain.as_slice(), 67758) != 0,
            sound_optimization: if read_u32(plain.as_slice(), 67762) == 0 {
                SoundOptimization::BestQuality
            } else {
                SoundOptimization::Compatibility
            },
            play_mode: if read_u32(plain.as_slice(), 67766) == 0 {
                PlayMode::Multi
            } else {
                PlayMode::Single
            },
            flagtag: read_u32(plain.as_slice(), 67770) != 0,
            swap_bikes: read_u32(plain.as_slice(), 67774) == 0,
            video_detail: if read_u32(plain.as_slice(), 67778) == 0 {
                VideoDetail::Low
            } else {
                VideoDetail::High
            },
            animated_objects: read_u32(plain.as_slice(), 67782) != 0,
            animated_menus: read_u32(plain.as_slice(), 67786) != 0,
            inc_screen_size_key: read_u32(plain.as_slice(), 67854),
            dec_screen_size_key: read_u32(plain.as_slice(), 67858),
            screenshot_key: read_u32(plain.as_slice(), 67862),
            last_edited_lev_name,
            last_played_external,
        };
        proof {
            assert(parse_state_tail(
                p,
                times@.map_values(|t: BestTimes| t@),
                players@.map_values(|q: PlayerEntry| q@),
            ) == Some(state@));
        }
        Ok(state)
    }

    /// Reads one eight-word key block.
    fn read_keys(plain: &Vec<u8>, off: usize) -> (r: PlayerKeys)
        requires
            off + 32 <= plain@.len(),
        ensures
            r == keys_at(plain@, off as int),
    {
        let n = plain.len();
        assert(off + 32 <= n);
        PlayerKeys {
            throttle: read_u32(plain.as_slice(), off),
            brake: read_u32(plain.as_slice(), off + 4),
            rotate_right: read_u32(plain.as_slice(), off + 8),
            rotate_left: read_u32(plain.as_slice(), off + 12),
            change_direction: read_u32(plain.as_slice(), off + 16),
            toggle_navigator: read_u32(plain.as_slice(), off + 20),
            toggle_timer: read_u32(plain.as_slice(), off + 24),
            toggle_show_hide: read_u32(plain.as_slice(), off + 28),
        }
    }
}

/// Prefixes parsed players onto a parse outcome.
pub open spec fn combine_players(
    head: Seq<PlayerData>,
    rest: Option<Seq<PlayerData>>,
) -> Option<Seq<PlayerData>> {
    match rest {
        Some(tail) => Some(head + tail),
        Option::None => Option::None,
    }
}

} // verus!

verus! {

/// A run of `n` null bytes.
pub open spec fn zero_bytes(n: int) -> Seq<u8> {
    Seq::new(n as nat, |i: int| 0u8)
}

/// The flag column of one player: 54 bytes, one per internal, one where
/// the internal is skipped.
pub open spec fn ser_flags(skipped: Seq<bool>) -> Seq<u8> {
    Seq::new(
        54,
        |k: int|
            if k < skipped.len() && skipped[k] {
                1u8
            } else {
                0u8
            },
    )
}

/// The 116 bytes of one player slot.
pub open spec fn ser_player(q: PlayerData) -> Seq<u8> {
    crate::utils::pad_name(q.name, 16) + ser_flags(q.skipped_internals) + zero_bytes(38)
        + le_u32_of(bits_of_i32(q.last_internal)) + le_u32_of(bits_of_i32(q.selected_internal))
}

/// The player slots in order.
pub open spec fn ser_players_list(s: Seq<PlayerData>) -> Seq<u8>
    decreases s.len(),
{
    if s.len() == 0 {
        Seq::<u8>::empty()
    } else {
        ser_players_list(s.drop_last()) + ser_player(s.last())
    }
}

/// The 688 bytes of one level's pair of best-times blocks.
pub open spec fn ser_state_table(t: crate::shared::BestTimesData) -> Seq<u8> {
    crate::utils::ser_top10_block(t.single) + crate::utils::ser_top10_block(t.multi)
}

/// The best-times tables in order.
pub open spec fn ser_times_list(s: Seq<crate::shared::BestTimesData>) -> Seq<u8>
    decreases s.len(),
{
    if s.len() == 0 {
        Seq::<u8>::empty()
    } else {
        ser_times_list(s.drop_last()) + ser_state_table(s.last())
    }
}

/// The 32 bytes of one key block.
pub open spec fn ser_keys(k: PlayerKeys) -> Seq<u8> {
    le_u32_of(k.throttle) + le_u32_of(k.brake) + le_u32_of(k.rotate_right) + le_u32_of(
        k.rotate_left,
    ) + le_u32_of(k.change_direction) + le_u32_of(k.toggle_navigator) + le_u32_of(k.toggle_timer)
        + le_u32_of(k.toggle_show_hide)
}

/// The stored word of a flag.
pub open spec fn flag_word(b: bool) -> u32 {
    if b {
        1u32
    } else {
        0u32
    }
}

/// Every byte a state file stores before ciphering: the version word, the
/// tables padded to 90, the player slots padded to 50, the count word, the
/// names, the eight setting words (the bike swap stored inverted), the key
/// blocks, the three extra keys, the level names and the end word.
#[verifier::opaque]
pub open spec fn ser_state(s: StateData) -> Seq<u8> {
    le_u32_of(STATE_START) + ser_times_list(s.times) + zero_bytes((90 - s.times.len()) * 688)
        + ser_players_list(s.players) + zero_bytes((50 - s.players.len()) * 116)
        + ser_state_tail(s)
}

/// The bytes past the player slots: the count word, the names, the eight
/// setting words (the bike swap stored inverted), the key blocks, the
/// three extra keys, the level names and the end word.
#[verifier::opaque]
pub open spec fn ser_state_tail(s: StateData) -> Seq<u8> {
    le_u32_of(s.players.len() as u32) + crate::utils::pad_name(s.player_a_name, 15)
        + crate::utils::pad_name(s.player_b_name, 15) + le_u32_of(flag_word(s.sound_enabled))
        + le_u32_of((sound_opt_code(s.sound_optimization)) as u32) + le_u32_of(
        (play_mode_code(s.play_mode)) as u32,
    ) + le_u32_of(flag_word(s.flagtag)) + le_u32_of(flag_word(!s.swap_bikes)) + le_u32_of(
        (video_detail_code(s.video_detail)) as u32,
    ) + le_u32_of(flag_word(s.animated_objects)) + le_u32_of(flag_word(s.animated_menus))
        + ser_keys(s.player_a_keys) + ser_keys(s.player_b_keys) + le_u32_of(s.inc_screen_size_key)
        + le_u32_of(s.dec_screen_size_key) + le_u32_of(s.screenshot_key) + crate::utils::pad_name(
        s.last_edited_lev_name,
        20,
    ) + crate::utils::pad_name(s.last_played_external, 20) + le_u32_of(STATE_END)
}

/// Whether table `i` itself writes cleanly: both lists' names in order.
pub open spec fn times_write_err_at(s: Seq<crate::shared::BestTimesData>, i: int) -> Option<
    ElmaError,
> {
    if crate::utils::top10_write_err(s[i].single) is Some {
        crate::utils::top10_write_err(s[i].single)
    } else if crate::utils::top10_write_err(s[i].multi) is Some {
        crate::utils::top10_write_err(s[i].multi)
    } else {
        Option::None
    }
}

/// The first error that writing table `i` onward runs into.
pub open spec fn times_write_err(s: Seq<crate::shared::BestTimesData>, i: int) -> Option<ElmaError>
    decreases s.len() - i,
{
    if i < 0 || i >= s.len() {
        Option::None
    } else {
        match times_write_err_at(s, i) {
            Some(e) => Some(e),
            Option::None => times_write_err(s, i + 1),
        }
    }
}

/// Whether player slot `i` itself writes cleanly: a name that fits, and a
/// flag list no longer than the 54 slots.
pub open spec fn players_write_err_at(s: Seq<PlayerData>, i: int) -> Option<ElmaError> {
    if crate::utils::pad_err(s[i].name, 16) is Some {
        crate::utils::pad_err(s[i].name, 16)
    } else if s[i].skipped_internals.len() > 54 {
        Some(ElmaError::InvalidStateFile)
    } else {
        Option::None
    }
}

/// The first error that writing player slot `i` onward runs into.
pub open spec fn players_write_err(s: Seq<PlayerData>, i: int) -> Option<ElmaError>
    decreases s.len() - i,
{
    if i < 0 || i >= s.len() {
        Option::None
    } else {
        match players_write_err_at(s, i) {
            Some(e) => Some(e),
            Option::None => players_write_err(s, i + 1),
        }
    }
}

/// The first error a state save runs into, if any: more tables or players
/// than the file holds, then each table's names, each player's name and
/// flags, then the four name fields in file order.
pub open spec fn state_write_err(s: StateData) -> Option<ElmaError> {
    if s.times.len() > 90 {
        Some(ElmaError::InvalidStateFile)
    } else if times_write_err(s.times, 0) is Some {
        times_write_err(s.times, 0)
    } else if s.players.len() > 50 {
        Some(ElmaError::InvalidStateFile)
    } else if players_write_err(s.players, 0) is Some {
        players_write_err(s.players, 0)
    } else if crate::utils::pad_err(s.player_a_name, 15) is Some {
        crate::utils::pad_err(s.player_a_name, 15)
    } else if crate::utils::pad_err(s.player_b_name, 15) is Some {
        crate::utils::pad_err(s.player_b_name, 15)
    } else if crate::utils::pad_err(s.last_edited_lev_name, 20) is Some {
        crate::utils::pad_err(s.last_edited_lev_name, 20)
    } else if crate::utils::pad_err(s.last_played_external, 20) is Some {
        crate::utils::pad_err(s.last_played_external, 20)
    } else {
        Option::None
    }
}

} // verus!

verus! {

/// Each best-times table spans 688 bytes.
proof fn lemma_ser_times_len(s: Seq<crate::shared::BestTimesData>)
    ensures
        ser_times_list(s).len() == 688 * s.len(),
    decreases s.len(),
{
    if s.len() > 0 {
        lemma_ser_times_len(s.drop_last());
    }
}

/// Each player slot spans 116 bytes.
proof fn lemma_ser_players_len(s: Seq<PlayerData>)
    ensures
        ser_players_list(s).len() == 116 * s.len(),
    decreases s.len(),
{
    if s.len() > 0 {
        lemma_ser_players_len(s.drop_last());
    }
}

/// When every table before `n` writes cleanly and table `n` does not, the
/// write error is table `n`'s first one.
proof fn lemma_times_err_at(
    s: Seq<crate::shared::BestTimesData>,
    n: int,
    from: int,
    e: ElmaError,
)
    requires
        0 <= from <= n < s.len(),
        forall|m: int| from <= m < n ==> #[trigger] times_write_err_at(s, m) is None,
        times_write_err_at(s, n) == Some(e),
    ensures
        times_write_err(s, from) == Some(e),
    decreases n - from,
{
    if from < n {
        lemma_times_err_at(s, n, from + 1, e);
    }
}

/// When every table from `from` on writes cleanly there is no error.
proof fn lemma_times_err_none(s: Seq<crate::shared::BestTimesData>, from: int)
    requires
        0 <= from,
        forall|m: int| from <= m < s.len() ==> #[trigger] times_write_err_at(s, m) is None,
    ensures
        times_write_err(s, from) is None,
    decreases s.len() - from,
{
    if from < s.len() {
        lemma_times_err_none(s, from + 1);
    }
}

proof fn lemma_players_err_at(s: Seq<PlayerData>, n: int, from: int, e: ElmaError)
    requires
        0 <= from <= n < s.len(),
        forall|m: int| from <= m < n ==> #[trigger] players_write_err_at(s, m) is None,
        players_write_err_at(s, n) == Some(e),
    ensures
        players_write_err(s, from) == Some(e),
    decreases n - from,
{
    if from < n {
        lemma_players_err_at(s, n, from + 1, e);
    }
}

proof fn lemma_players_err_none(s: Seq<PlayerData>, from: int)
    requires
        0 <= from,
        forall|m: int| from <= m < s.len() ==> #[trigger] players_write_err_at(s, m) is None,
    ensures
        players_write_err(s, from) is None,
    decreases s.len() - from,
{
    if from < s.len() {
        lemma_players_err_none(s, from + 1);
    }
}

impl State {
    /// Writes the 90 table region: the stored tables, then null slots.
    #[verifier::rlimit(100)]
    #[verifier::spinoff_prover]
    fn write_times(times: &Vec<BestTimes>) -> (r: Result<Vec<u8>, ElmaError>)
        requires
            times@.len() <= 90,
        ensures
            match r {
                Ok(v) => times_write_err(times@.map_values(|t: BestTimes| t@), 0) is None && v@
                    == ser_times_list(times@.map_values(|t: BestTimes| t@)) + zero_bytes(
                    (90 - times@.len()) * 688,
                ),
                Err(e) => times_write_err(times@.map_values(|t: BestTimes| t@), 0) == Some(e),
            },
    {
        let ghost tv = times@.map_values(|t: BestTimes| t@);
        let mut out: Vec<u8> = Vec::new();
        let mut i: usize = 0;
        proof {
            assert(ser_times_list(tv.subrange(0, 0)) =~= Seq::<u8>::empty());
        }
        while i < times.len()
            invariant
                i <= times@.len() <= 90,
                tv == times@.map_values(|t: BestTimes| t@),
                out@ == ser_times_list(tv.subrange(0, i as int)),
                forall|m: int| 0 <= m < i ==> #[trigger] times_write_err_at(tv, m) is None,
            decreases times@.len() - i,
        {
            assert(tv[i as int] == times@[i as int]@);
            let mut block = match crate::utils::write_top10(&times[i]) {
                Ok(v) => v,
                Err(e) => {
                    proof {
                        lemma_times_err_at(tv, i as int, 0, e);
                    }
                    return Err(e);
                },
            };
            out.append(&mut block);
            i += 1;
            proof {
                assert(tv.subrange(0, i as int).drop_last() =~= tv.subrange(0, i - 1));
                assert(tv.subrange(0, i as int).last() == tv[i - 1]);
                assert(out@ =~= ser_times_list(tv.subrange(0, i as int)));
            }
        }
        proof {
            assert(tv.subrange(0, tv.len() as int) =~= tv);
            lemma_times_err_none(tv, 0);
        }
        let pad = (90 - times.len()) * 688;
        let ghost base = out@;
        let mut z: usize = 0;
        while z < pad
            invariant
                z <= pad,
                out@ =~= base + zero_bytes(z as int),
            decreases pad - z,
        {
            out.push(0);
            proof {
                assert(out@ =~= base + zero_bytes(z + 1));
            }
            z += 1;
        }
        Ok(out)
    }

    /// Writes the 50 player slot region: the stored players, then null
    /// slots.
    #[verifier::rlimit(100)]
    #[verifier::spinoff_prover]
    fn write_players(players: &Vec<PlayerEntry>) -> (r: Result<Vec<u8>, ElmaError>)
        requires
            players@.len() <= 50,
        ensures
            match r {
                Ok(v) => players_write_err(players@.map_values(|q: PlayerEntry| q@), 0) is None
                    && v@ == ser_players_list(players@.map_values(|q: PlayerEntry| q@))
                    + zero_bytes((50 - players@.len()) * 116),
                Err(e) => players_write_err(players@.map_values(|q: PlayerEntry| q@), 0) == Some(
                    e,
                ),
            },
    {
        let ghost pv = players@.map_values(|q: PlayerEntry| q@);
        let mut out: Vec<u8> = Vec::new();
        let mut i: usize = 0;
        proof {
            assert(ser_players_list(pv.subrange(0, 0)) =~= Seq::<u8>::empty());
        }
        while i < players.len()
            invariant
                i <= players@.len() <= 50,
                pv == players@.map_values(|q: PlayerEntry| q@),
                out@ == ser_players_list(pv.subrange(0, i as int)),
                forall|m: int| 0 <= m < i ==> #[trigger] players_write_err_at(pv, m) is None,
            decreases players@.len() - i,
        {
            assert(pv[i as int] == players@[i as int]@);
            let q = &players[i];
            let mut name = match crate::utils::string_null_pad(q.name.as_str(), 16) {
                Ok(v) => v,
                Err(e) => {
                    proof {
                        lemma_players_err_at(pv, i as int, 0, e);
                    }
                    return Err(e);
                },
            };
            if q.skipped_internals.len() > 54 {
                proof {
                    lemma_players_err_at(pv, i as int, 0, ElmaError::InvalidStateFile);
                }
                return Err(ElmaError::InvalidStateFile);
            }
            let ghost slotbase = out@;
            out.append(&mut name);
            let ghost flagbase = out@;
            let mut k: usize = 0;
            while k < 54
                invariant
                    k <= 54,
                    i < players@.len(),
                    q == &players@[i as int],
                    out@ =~= flagbase + ser_flags(q.skipped_internals@).subrange(0, k as int),
                decreases 54 - k,
            {
                let byte: u8 = if k < q.skipped_internals.len() && q.skipped_internals[k] {
                    1
                } else {
                    0
                };
                out.push(byte);
                proof {
                    assert(out@ =~= flagbase + ser_flags(q.skipped_internals@).subrange(
                        0,
                        k + 1,
                    ));
                }
                k += 1;
            }
            let ghost padbase = out@;
            let mut z: usize = 0;
            while z < 38
                invariant
                    z <= 38,
                    out@ =~= padbase + zero_bytes(z as int),
                decreases 38 - z,
            {
                out.push(0);
                proof {
                    assert(out@ =~= padbase + zero_bytes(z + 1));
                }
                z += 1;
            }
            push_i32(&mut out, q.last_internal);
            push_i32(&mut out, q.selected_internal);
            i += 1;
            proof {
                assert(ser_flags(q.skipped_internals@).subrange(0, 54) =~= ser_flags(
                    q.skipped_internals@,
                ));
                assert(out@ =~= slotbase + ser_player(pv[i - 1]));
                assert(pv.subrange(0, i as int).drop_last() =~= pv.subrange(0, i - 1));
                assert(pv.subrange(0, i as int).last() == pv[i - 1]);
                assert(out@ =~= ser_players_list(pv.subrange(0, i as int)));
            }
        }
        proof {
            assert(pv.subrange(0, pv.len() as int) =~= pv);
            lemma_players_err_none(pv, 0);
        }
        let pad = (50 - players.len()) * 116;
        let ghost base = out@;
        let mut z: usize = 0;
        while z < pad
            invariant
                z <= pad,
                out@ =~= base + zero_bytes(z as int),
            decreases pad - z,
        {
            out.push(0);
            proof {
                assert(out@ =~= base + zero_bytes(z + 1));
            }
            z += 1;
        }
        Ok(out)
    }
}

} // verus!

verus! {

impl State {
    /// Returns the state database as a stream of bytes: the fixed layout
    /// serialized at its offsets, then the whole buffer ciphered region by
    /// region.
    #[verifier::rlimit(100)]
    #[verifier::spinoff_prover]
    pub fn to_bytes(&self) -> (r: Result<Vec<u8>, ElmaError>)
        ensures
            match r {
                Ok(v) => state_write_err(self@) is None && v@ == state_cipher_seq(
                    ser_state(self@),
                ),
                Err(e) => state_write_err(self@) == Some(e),
            },
    {
        let ghost sv = self@;
        if self.times.len() > 90 {
            return Err(ElmaError::InvalidStateFile);
        }
        let times_b = match State::write_times(&self.times) {
            Ok(v) => v,
            Err(e) => {
                return Err(e);
            },
        };
        if self.players.len() > 50 {
            return Err(ElmaError::InvalidStateFile);
        }
        let players_b = match State::write_players(&self.players) {
            Ok(v) => v,
            Err(e) => {
                return Err(e);
            },
        };
        let a_name = match crate::utils::string_null_pad(self.player_a_name.as_str(), 15) {
            Ok(v) => v,
            Err(e) => {
                return Err(e);
            },
        };
        let b_name = match crate::utils::string_null_pad(self.player_b_name.as_str(), 15) {
            Ok(v) => v,
            Err(e) => {
                return Err(e);
            },
        };
        let edited = match crate::utils::string_null_pad(self.last_edited_lev_name.as_str(), 20) {
            Ok(v) => v,
            Err(e) => {
                return Err(e);
            },
        };
        let external = match crate::utils::string_null_pad(
            self.last_played_external.as_str(),
            20,
        ) {
            Ok(v) => v,
            Err(e) => {
                return Err(e);
            },
        };
        let count = self.players.len();
        let out = State::assemble(
            times_b,
            players_b,
            count,
            a_name,
            b_name,
            edited,
            external,
            self,
            Ghost(sv),
        );
        Ok(out)
    }

    /// Joins the validated parts of a state file in file order and ciphers
    /// the buffer.
    #[verifier::rlimit(100)]
    #[verifier::spinoff_prover]
    fn assemble(
        times_b: Vec<u8>,
        players_b: Vec<u8>,
        count: usize,
        a_name: Vec<u8>,
        b_name: Vec<u8>,
        edited: Vec<u8>,
        external: Vec<u8>,
        s: &State,
        Ghost(sv): Ghost<StateData>,
    ) -> (r: Vec<u8>)
        requires
            sv == s@,
            sv.times.len() <= 90,
            sv.players.len() <= 50,
            count == sv.players.len(),
            times_b@ == ser_times_list(sv.times) + zero_bytes((90 - sv.times.len()) * 688),
            players_b@ == ser_players_list(sv.players) + zero_bytes(
                (50 - sv.players.len()) * 116,
            ),
            a_name@ == crate::utils::pad_name(sv.player_a_name, 15),
            b_name@ == crate::utils::pad_name(sv.player_b_name, 15),
            edited@ == crate::utils::pad_name(sv.last_edited_lev_name, 20),
            external@ == crate::utils::pad_name(sv.last_played_external, 20),
        ensures
            r@ == state_cipher_seq(ser_state(sv)),
    {
        let mut out: Vec<u8> = Vec::new();
        push_u32(&mut out, STATE_START);
        let mut tb = times_b;
        let mut pb = players_b;
        out.append(&mut tb);
        out.append(&mut pb);
        let mut tail = State::tail_bytes(count, a_name, b_name, edited, external, s, Ghost(sv));
        out.append(&mut tail);
        proof {
            reveal(ser_state);
            assert(out@ =~= ser_state(sv));
            lemma_ser_times_len(sv.times);
            lemma_ser_players_len(sv.players);
            reveal(ser_state_tail);
            assert(out@.len() == 67910);
        }
        crypt_whole_state(&mut out);
        proof {
            lemma_state_cipher_fn(ser_state(sv), out@);
        }
        out
    }

    /// Writes the bytes past the player slots.
    #[verifier::rlimit(100)]
    #[verifier::spinoff_prover]
    fn tail_bytes(
        count: usize,
        a_name: Vec<u8>,
        b_name: Vec<u8>,
        edited: Vec<u8>,
        external: Vec<u8>,
        s: &State,
        Ghost(sv): Ghost<StateData>,
    ) -> (r: Vec<u8>)
        requires
            sv == s@,
            count == sv.players.len(),
            sv.players.len() <= 50,
            a_name@ == crate::utils::pad_name(sv.player_a_name, 15),
            b_name@ == crate::utils::pad_name(sv.player_b_name, 15),
            edited@ == crate::utils::pad_name(sv.last_edited_lev_name, 20),
            external@ == crate::utils::pad_name(sv.last_played_external, 20),
        ensures
            r@ == ser_state_tail(sv),
    {
        let mut out: Vec<u8> = Vec::new();
        push_u32(&mut out, count as u32);
        let mut an = a_name;
        let mut bn = b_name;
        let mut ed = edited;
        let mut ex = external;
        out.append(&mut an);
        out.append(&mut bn);
        push_u32(&mut out, if s.sound_enabled { 1 } else { 0 });
        push_u32(
            &mut out,
            match s.sound_optimization {
                SoundOptimization::Compatibility => 1,
                SoundOptimization::BestQuality => 0,
            },
        );
        push_u32(
            &mut out,
            match s.play_mode {
                PlayMode::Single => 1,
                PlayMode::Multi => 0,
            },
        );
        push_u32(&mut out, if s.flagtag { 1 } else { 0 });
        push_u32(&mut out, if !s.swap_bikes { 1 } else { 0 });
        push_u32(
            &mut out,
            match s.video_detail {
                VideoDetail::Low => 0,
                VideoDetail::High => 1,
            },
        );
        push_u32(&mut out, if s.animated_objects { 1 } else { 0 });
        push_u32(&mut out, if s.animated_menus { 1 } else { 0 });
        State::push_keys(&mut out, &s.player_a_keys);
        State::push_keys(&mut out, &s.player_b_keys);
        push_u32(&mut out, s.inc_screen_size_key);
        push_u32(&mut out, s.dec_screen_size_key);
        push_u32(&mut out, s.screenshot_key);
        out.append(&mut ed);
        out.append(&mut ex);
        push_u32(&mut out, STATE_END);
        proof {
            reveal(ser_state_tail);
            assert(out@ =~= ser_state_tail(sv));
        }
        out
    }

    /// Appends one eight-word key block.
    fn push_keys(out: &mut Vec<u8>, k: &PlayerKeys)
        ensures
            final(out)@ == old(out)@ + ser_keys(*k),
    {
        push_u32(out, k.throttle);
        push_u32(out, k.brake);
        push_u32(out, k.rotate_right);
        push_u32(out, k.rotate_left);
        push_u32(out, k.change_direction);
        push_u32(out, k.toggle_navigator);
        push_u32(out, k.toggle_timer);
        push_u32(out, k.toggle_show_hide);
        assert(out@ =~= old(out)@ + ser_keys(*k));
    }
}

} // verus!
