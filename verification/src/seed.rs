//! The placeholder flop-cache seed: a grid of twelve canonical flops ×
//! three SPR buckets, single-raised pots, bet-tree version 1, each entry
//! tagged with a coarse board texture that biases its placeholder
//! strategy.

use vstd::prelude::*;
use vstd::utf8::is_ascii_chars;
use crate::cache::{
    PotType, BoardError, board_cards, board_sliceable, parse_board_three_cards,
    lemma_ascii_char_boundary,
};
use crate::text::chars_of;

verus! {

/// A coarse flop texture (a seed heuristic, not a real classifier).
#[derive(Debug, Clone, Copy, PartialEq, Eq, Structural)]
pub enum Texture {
    /// High-card, uncoordinated (e.g. `AhKd2c`).
    DryHigh,
    /// Middle-card, connected (e.g. `9h8c7d`).
    WetMid,
    /// Three cards of one suit.
    Monotone,
    /// Paired or trips.
    Paired,
    /// Flush or straight draws on connected or high cards.
    Draws,
}

/// The rank index of an upper-case rank character (`'2'` → 0 … `'A'` →
/// 12), and -1 for anything else.
pub open spec fn texture_rank(c: char) -> int {
    if c == '2' { 0 }
    else if c == '3' { 1 }
    else if c == '4' { 2 }
    else if c == '5' { 3 }
    else if c == '6' { 4 }
    else if c == '7' { 5 }
    else if c == '8' { 6 }
    else if c == '9' { 7 }
    else if c == 'T' { 8 }
    else if c == 'J' { 9 }
    else if c == 'Q' { 10 }
    else if c == 'K' { 11 }
    else if c == 'A' { 12 }
    else { -1 }
}

/// The texture of a six-character board: paired boards first, then
/// monotone ones; two-suited boards whose lowest rank is at least `T` are
/// draws; boards spanning at most four ranks with top rank at most `J`
/// are wet (draws when two-suited); everything else is dry.
pub open spec fn texture_of(b: Seq<char>) -> Texture {
    let (r1, r2, r3) = (b[0], b[2], b[4]);
    let (s1, s2, s3) = (b[1], b[3], b[5]);
    if r1 == r2 || r1 == r3 || r2 == r3 {
        Texture::Paired
    } else if s1 == s2 && s2 == s3 {
        Texture::Monotone
    } else {
        let (a, c, d) = (texture_rank(r1), texture_rank(r2), texture_rank(r3));
        let hi = if a >= c && a >= d { a } else if c >= d { c } else { d };
        let lo = if a <= c && a <= d { a } else if c <= d { c } else { d };
        let two_suited = s1 == s2 || s1 == s3 || s2 == s3;
        if two_suited && lo >= 8 {
            Texture::Draws
        } else if hi - lo <= 4 && hi <= 9 {
            if two_suited {
                Texture::Draws
            } else {
                Texture::WetMid
            }
        } else {
            Texture::DryHigh
        }
    }
}

/// The rank index of an upper-case rank character, -1 for anything else.
fn texture_rank_of(c: char) -> (r: i32)
    ensures
        r == texture_rank(c),
{
    match c {
        '2' => 0,
        '3' => 1,
        '4' => 2,
        '5' => 3,
        '6' => 4,
        '7' => 5,
        '8' => 6,
        '9' => 7,
        'T' => 8,
        'J' => 9,
        'Q' => 10,
        'K' => 11,
        'A' => 12,
        _ => -1,
    }
}

/// Classifies a six-character board string such as `"AhKd2c"`.
pub fn classify_texture(board: &str) -> (t: Texture)
    requires
        board@.len() == 6,
    ensures
        t == texture_of(board@),
{
    let chars = chars_of(board);
    let (r1, r2, r3) = (chars[0], chars[2], chars[4]);
    let (s1, s2, s3) = (chars[1], chars[3], chars[5]);
    if r1 == r2 || r1 == r3 || r2 == r3 {
        return Texture::Paired;
    }
    if s1 == s2 && s2 == s3 {
        return Texture::Monotone;
    }
    let a = texture_rank_of(r1);
    let c = texture_rank_of(r2);
    let d = texture_rank_of(r3);
    let hi = if a >= c && a >= d {
        a
    } else if c >= d {
        c
    } else {
        d
    };
    let lo = if a <= c && a <= d {
        a
    } else if c <= d {
        c
    } else {
        d
    };
    let two_suited = s1 == s2 || s1 == s3 || s2 == s3;
    if two_suited && lo >= 8 {
        return Texture::Draws;
    }
    if hi - lo <= 4 && hi <= 9 {
        if two_suited {
            Texture::Draws
        } else {
            Texture::WetMid
        }
    } else {
        Texture::DryHigh
    }
}

/// The seed grid's flops, in order.
pub open spec fn seed_board_text(i: int) -> Seq<char> {
    if i == 0 { "AhKd2c"@ }
    else if i == 1 { "QsJd2c"@ }
    else if i == 2 { "Th7c2d"@ }
    else if i == 3 { "JhTh9c"@ }
    else if i == 4 { "9h8c7d"@ }
    else if i == 5 { "QhJhTs"@ }
    else if i == 6 { "8h8c3d"@ }
    else if i == 7 { "AhAc5d"@ }
    else if i == 8 { "KhKdKc"@ }
    else if i == 9 { "AhKhQh"@ }
    else if i == 10 { "7s6s5s"@ }
    else { "ThJhKh"@ }
}

/// Number of flops in the seed grid.
pub const SEED_BOARDS: usize = 12;

/// Number of SPR buckets in the seed grid.
pub const SEED_SPR_BUCKETS: usize = 3;

/// The seed grid's SPR buckets: low, medium and deep stacks.
pub open spec fn seed_spr(j: int) -> u8 {
    if j == 0 { 4 } else if j == 1 { 8 } else { 15 }
}

/// Bet-tree version of every seed entry.
pub const BET_TREE_VERSION: u8 = 1;

/// Flop `i` of the seed grid.
pub fn seed_board(i: usize) -> (s: &'static str)
    requires
        i < SEED_BOARDS,
    ensures
        s@ == seed_board_text(i as int),
        s@.len() == 6,
        is_ascii_chars(s@),
{
    let s = match i {
        0 => "AhKd2c",
        1 => "QsJd2c",
        2 => "Th7c2d",
        3 => "JhTh9c",
        4 => "9h8c7d",
        5 => "QhJhTs",
        6 => "8h8c3d",
        7 => "AhAc5d",
        8 => "KhKdKc",
        9 => "AhKhQh",
        10 => "7s6s5s",
        _ => "ThJhKh",
    };
    proof {
        reveal_strlit("AhKd2c");
        reveal_strlit("QsJd2c");
        reveal_strlit("Th7c2d");
        reveal_strlit("JhTh9c");
        reveal_strlit("9h8c7d");
        reveal_strlit("QhJhTs");
        reveal_strlit("8h8c3d");
        reveal_strlit("AhAc5d");
        reveal_strlit("KhKdKc");
        reveal_strlit("AhKhQh");
        reveal_strlit("7s6s5s");
        reveal_strlit("ThJhKh");
    }
    s
}

/// SPR bucket `j` of the seed grid.
pub fn seed_spr_bucket(j: usize) -> (b: u8)
    requires
        j < SEED_SPR_BUCKETS,
    ensures
        b == seed_spr(j as int),
{
    if j == 0 {
        4
    } else if j == 1 {
        8
    } else {
        15
    }
}

/// Arguments of the `seed-cache` command.
#[derive(Debug, Clone)]
pub struct SeedCacheArgs {
    /// Path of the seed binary to write.
    pub output: String,
}

/// One cell of the seed grid, without its placeholder strategy.
#[derive(Debug, Clone, Copy, PartialEq, Eq)]
pub struct SeedEntry {
    /// The three board card bytes.
    pub canonical_board: [u8; 3],
    /// Stack-to-pot ratio bucket.
    pub spr_bucket: u8,
    /// Pot type (single-raised).
    pub pot_type: PotType,
    /// Bet-tree version.
    pub bet_tree_version: u8,
    /// The board's texture, which biases the placeholder strategy.
    pub texture: Texture,
}

/// `e` is the seed entry for flop `i` and SPR bucket `j`.
pub open spec fn is_seed_entry(e: SeedEntry, i: int, j: int) -> bool {
    &&& board_cards(seed_board_text(i)) == Ok::<_, BoardError<Seq<char>>>(e.canonical_board@)
    &&& e.spr_bucket == seed_spr(j)
    &&& e.pot_type == PotType::Srp
    &&& e.bet_tree_version == BET_TREE_VERSION
    &&& e.texture == texture_of(seed_board_text(i))
}

/// Builds the seed grid, flop-major: entry `3 i + j` is flop `i` with SPR
/// bucket `j`. Fails with the first flop that does not parse.
pub fn build_seed_entries() -> (r: Result<Vec<SeedEntry>, BoardError<String>>)
    ensures
        match r {
            Ok(v) => v@.len() == SEED_BOARDS * SEED_SPR_BUCKETS && forall|i: int, j: int|
                0 <= i < SEED_BOARDS && 0 <= j < SEED_SPR_BUCKETS ==> is_seed_entry(
                    #[trigger] v@[i * 3 + j],
                    i,
                    j,
                ),
            Err(e) => exists|i: int|
                0 <= i < SEED_BOARDS && board_cards(seed_board_text(i)) == Err::<Seq<u8>, _>(
                    e@,
                ),
        },
{
    let mut entries: Vec<SeedEntry> = Vec::new();
    let mut i: usize = 0;
    while i < SEED_BOARDS
        invariant
            i <= SEED_BOARDS,
            entries@.len() == i * 3,
            forall|a: int, j: int|
                0 <= a < i && 0 <= j < SEED_SPR_BUCKETS ==> is_seed_entry(
                    #[trigger] entries@[a * 3 + j],
                    a,
                    j,
                ),
        decreases SEED_BOARDS - i,
    {
        let board_str = seed_board(i);
        proof {
            lemma_ascii_char_boundary(board_str@, 2);
            lemma_ascii_char_boundary(board_str@, 4);
            vstd::utf8::is_ascii_chars_encode_utf8(board_str@);
        }
        let canonical_board = match parse_board_three_cards(board_str) {
            Ok(b) => b,
            Err(e) => {
                return Err(e);
            },
        };
        let texture = classify_texture(board_str);
        let mut j: usize = 0;
        while j < SEED_SPR_BUCKETS
            invariant
                i < SEED_BOARDS,
                j <= SEED_SPR_BUCKETS,
                entries@.len() == i * 3 + j,
                board_cards(seed_board_text(i as int)) == Ok::<_, BoardError<Seq<char>>>(
                    canonical_board@,
                ),
                texture == texture_of(seed_board_text(i as int)),
                forall|a: int, q: int|
                    0 <= a < i && 0 <= q < SEED_SPR_BUCKETS ==> is_seed_entry(
                        #[trigger] entries@[a * 3 + q],
                        a,
                        q,
                    ),
                forall|q: int| 0 <= q < j ==> is_seed_entry(#[trigger] entries@[i * 3 + q], i as int, q),
            decreases SEED_SPR_BUCKETS - j,
        {
            let e = SeedEntry {
                canonical_board,
                spr_bucket: seed_spr_bucket(j),
                pot_type: PotType::Srp,
                bet_tree_version: BET_TREE_VERSION,
                texture,
            };
            let ghost before = entries@;
            entries.push(e);
            assert forall|a: int, q: int|
                0 <= a < i && 0 <= q < SEED_SPR_BUCKETS implies is_seed_entry(
                #[trigger] entries@[a * 3 + q],
                a,
                q,
            ) by {
                assert(a * 3 + q < i * 3) by (nonlinear_arith)
                    requires
                        0 <= a < i,
                        0 <= q < 3,
                ;
                assert(entries@[a * 3 + q] == before[a * 3 + q]);
            }
            j += 1;
        }
        i += 1;
    }
    Ok(entries)
}

} // verus!
