//! The flop-cache side of the toolkit: pot types and their labels, board
//! strings of three cards, the per-spot JSON entries a precompute run
//! writes, the "later file wins" merge of entries that share a key, and
//! the layout of the packed cache binary.
//!
//! Binary layout (little-endian): a 16-byte file header (`PSFLOP\0\0`,
//! format version `u16`, two unused bytes, entry count `u32`), then per
//! entry an 8-byte header (board card bytes ×3, SPR bucket, pot-type byte,
//! bet-tree version, action count, one reserved byte), the action rows
//! (1326 `f32` weights each), one `f32` EV per action and one `f32`
//! exploitability.

use vstd::prelude::*;
use vstd::utf8::{
    encode_utf8, decode_utf8, is_ascii_chars, is_char_boundary, valid_utf8, encode_utf8_first_scalar,
    pop_first_scalar, length_of_first_scalar, is_ascii_chars_encode_utf8,
};
use crate::cards::{
    Card, spec_parse_card, spec_rank_value, spec_suit_value, rank_value, suit_value, valid_card,
    rank_of, suit_of, spec_rank_char, spec_suit_char, lemma_card_name_roundtrip,
};
use crate::text::{chars_of, string_of, append_chars, push_decimal, decimal};
use crate::json::{JsonValue, JsonNumber, str_eq, obj_get, spec_get};

verus! {

broadcast use vstd::utf8::encode_utf8_valid_utf8;

/// The betting history of a pot before the flop.
#[derive(Debug, Clone, Copy, PartialEq, Eq, Structural, Hash)]
pub enum PotType {
    /// Single-raised pot.
    Srp,
    /// Three-bet pot.
    ThreeBet,
    /// Four-bet pot.
    FourBet,
    /// Five-bet pot.
    FiveBet,
}

/// The byte a pot type is stored as: `0..=3` in declaration order.
pub open spec fn pot_byte(p: PotType) -> u8 {
    match p {
        PotType::Srp => 0,
        PotType::ThreeBet => 1,
        PotType::FourBet => 2,
        PotType::FiveBet => 3,
    }
}

/// The pot type stored as byte `b`.
pub open spec fn pot_of_byte(b: u8) -> Option<PotType> {
    if b == 0 {
        Some(PotType::Srp)
    } else if b == 1 {
        Some(PotType::ThreeBet)
    } else if b == 2 {
        Some(PotType::FourBet)
    } else if b == 3 {
        Some(PotType::FiveBet)
    } else {
        None
    }
}

impl PotType {
    /// The byte this pot type is stored as.
    pub fn to_byte(self) -> (b: u8)
        ensures
            b == pot_byte(self),
    {
        match self {
            PotType::Srp => 0,
            PotType::ThreeBet => 1,
            PotType::FourBet => 2,
            PotType::FiveBet => 3,
        }
    }

    /// The pot type stored as byte `b`, if any.
    pub fn from_byte(b: u8) -> (r: Option<PotType>)
        ensures
            r == pot_of_byte(b),
    {
        match b {
            0 => Some(PotType::Srp),
            1 => Some(PotType::ThreeBet),
            2 => Some(PotType::FourBet),
            3 => Some(PotType::FiveBet),
            _ => None,
        }
    }
}

/// The label a precompute run writes for a pot type.
pub open spec fn pot_label(p: PotType) -> Seq<char> {
    match p {
        PotType::Srp => "SRP"@,
        PotType::ThreeBet => "3BP"@,
        PotType::FourBet => "4BP"@,
        PotType::FiveBet => "5BP"@,
    }
}

/// The pot type a label names.
pub open spec fn pot_of_label(s: Seq<char>) -> Option<PotType> {
    if s == "SRP"@ {
        Some(PotType::Srp)
    } else if s == "3BP"@ {
        Some(PotType::ThreeBet)
    } else if s == "4BP"@ {
        Some(PotType::FourBet)
    } else if s == "5BP"@ {
        Some(PotType::FiveBet)
    } else {
        None
    }
}

/// A pot-type label that names no pot type. `S` is `String` at run time
/// and `Seq<char>` in contracts.
#[derive(Debug, Clone, PartialEq, Eq)]
pub struct UnknownPotType<S> {
    /// The label as given.
    pub label: S,
}

impl View for UnknownPotType<String> {
    type V = UnknownPotType<Seq<char>>;

    open spec fn view(&self) -> UnknownPotType<Seq<char>> {
        UnknownPotType { label: self.label@ }
    }
}

/// Parses `"SRP"`, `"3BP"`, `"4BP"` or `"5BP"`.
pub fn parse_pot_type_label(s: &str) -> (r: Result<PotType, UnknownPotType<String>>)
    ensures
        match r {
            Ok(p) => pot_of_label(s@) == Some(p),
            Err(e) => pot_of_label(s@) is None && e@.label == s@,
        },
{
    if str_eq(s, "SRP") {
        Ok(PotType::Srp)
    } else if str_eq(s, "3BP") {
        Ok(PotType::ThreeBet)
    } else if str_eq(s, "4BP") {
        Ok(PotType::FourBet)
    } else if str_eq(s, "5BP") {
        Ok(PotType::FiveBet)
    } else {
        Err(UnknownPotType { label: s.to_owned() })
    }
}

/// The label of a pot type (inverse of [`parse_pot_type_label`]).
pub fn pot_type_label(p: PotType) -> (r: &'static str)
    ensures
        r@ == pot_label(p),
{
    match p {
        PotType::Srp => "SRP",
        PotType::ThreeBet => "3BP",
        PotType::FourBet => "4BP",
        PotType::FiveBet => "5BP",
    }
}

/// Parsing a pot type's label gives back the pot type.
pub proof fn lemma_pot_label_roundtrip(p: PotType)
    ensures
        pot_of_label(pot_label(p)) == Some(p),
{
    reveal_strlit("SRP");
    reveal_strlit("3BP");
    reveal_strlit("4BP");
    reveal_strlit("5BP");
    assert("SRP"@[0] == 'S' && "3BP"@[0] == '3' && "4BP"@[0] == '4' && "5BP"@[0] == '5');
    assert("SRP"@ != "3BP"@ && "SRP"@ != "4BP"@ && "SRP"@ != "5BP"@);
    assert("3BP"@ != "4BP"@ && "3BP"@ != "5BP"@ && "4BP"@ != "5BP"@);
}

/// A label that parses is the label of the pot type it names.
pub proof fn lemma_pot_label_unique(s: Seq<char>)
    requires
        pot_of_label(s) is Some,
    ensures
        pot_label(pot_of_label(s).unwrap()) == s,
{
}

/// Storing a pot type as a byte and reading it back gives the pot type.
pub proof fn lemma_pot_byte_roundtrip(p: PotType)
    ensures
        pot_of_byte(pot_byte(p)) == Some(p),
{
}

/// Why a board string of three cards could not be parsed. `S` is `String`
/// at run time and `Seq<char>` in contracts.
#[derive(Debug, Clone, PartialEq, Eq)]
pub enum BoardError<S> {
    /// The board is not 6 bytes long.
    Length { board: S },
    /// The two bytes at `2 * index` do not name a card.
    BadCard { index: usize, board: S },
}

impl View for BoardError<String> {
    type V = BoardError<Seq<char>>;

    open spec fn view(&self) -> BoardError<Seq<char>> {
        match self {
            BoardError::Length { board } => BoardError::Length { board: board@ },
            BoardError::BadCard { index, board } => BoardError::BadCard {
                index: *index,
                board: board@,
            },
        }
    }
}

/// The card named by bytes `2i` and `2i + 1` of a board: both must be
/// ASCII and spell a card.
pub open spec fn chunk_card(b: Seq<u8>, i: int) -> Option<Card> {
    if b[2 * i] < 128 && b[2 * i + 1] < 128 {
        spec_parse_card(seq![b[2 * i] as char, b[2 * i + 1] as char])
    } else {
        None
    }
}

/// The card bytes of a six-byte board string of three cards.
pub open spec fn board_cards(s: Seq<char>) -> Result<Seq<u8>, BoardError<Seq<char>>> {
    let b = encode_utf8(s);
    if b.len() != 6 {
        Err(BoardError::Length { board: s })
    } else if chunk_card(b, 0) is None {
        Err(BoardError::BadCard { index: 0, board: s })
    } else if chunk_card(b, 1) is None {
        Err(BoardError::BadCard { index: 1, board: s })
    } else if chunk_card(b, 2) is None {
        Err(BoardError::BadCard { index: 2, board: s })
    } else {
        Ok(seq![chunk_card(b, 0).unwrap().0, chunk_card(b, 1).unwrap().0, chunk_card(b, 2).unwrap().0])
    }
}

/// Slicing a six-byte board into two-byte cards stays on character
/// boundaries.
pub open spec fn board_sliceable(s: Seq<char>) -> bool {
    encode_utf8(s).len() == 6 ==> is_char_boundary(encode_utf8(s), 2) && is_char_boundary(
        encode_utf8(s),
        4,
    )
}

/// Every position of an ASCII string is a character boundary.
pub proof fn lemma_ascii_char_boundary(s: Seq<char>, k: int)
    requires
        is_ascii_chars(s),
        0 <= k <= s.len(),
    ensures
        is_char_boundary(encode_utf8(s), k),
    decreases s.len(),
{
    if k > 0 {
        let bytes = encode_utf8(s);
        encode_utf8_first_scalar(s);
        assert(s[0] <= '\u{7f}');
        assert(length_of_first_scalar(bytes) == 1);
        assert(pop_first_scalar(bytes) =~= encode_utf8(s.drop_first()));
        assert(is_ascii_chars(s.drop_first())) by {
            assert forall|i: int| 0 <= i < s.drop_first().len() implies '\0' <= #[trigger] s.drop_first()[i]
                <= '\u{7f}' by {
                assert(s.drop_first()[i] == s[i + 1]);
            }
        }
        lemma_ascii_char_boundary(s.drop_first(), k - 1);
    }
}

/// The card in bytes `hi`, `lo` of a board, when both are ASCII and spell
/// a card.
pub(crate) fn byte_pair_card(hi: u8, lo: u8) -> (r: Option<Card>)
    ensures
        r == (if hi < 128 && lo < 128 {
            spec_parse_card(seq![hi as char, lo as char])
        } else {
            None
        }),
{
    if hi >= 128 || lo >= 128 {
        return None;
    }
    match (rank_value(hi as char), suit_value(lo as char)) {
        (Some(rk), Some(st)) => Some(Card(rk * 4 + st)),
        _ => None,
    }
}

/// Parses a six-byte board string such as `"AhKhQh"` into its three card
/// bytes.
pub fn parse_board_three_cards(s: &str) -> (r: Result<[u8; 3], BoardError<String>>)
    requires
        board_sliceable(s@),
    ensures
        match r {
            Ok(cards) => board_cards(s@) == Ok::<_, BoardError<Seq<char>>>(cards@),
            Err(e) => board_cards(s@) == Err::<Seq<u8>, _>(e@),
        },
{
    let b = s.as_bytes();
    if b.len() != 6 {
        return Err(BoardError::Length { board: s.to_owned() });
    }
    let c0 = match byte_pair_card(b[0], b[1]) {
        Some(c) => c,
        None => {
            return Err(BoardError::BadCard { index: 0, board: s.to_owned() });
        },
    };
    let c1 = match byte_pair_card(b[2], b[3]) {
        Some(c) => c,
        None => {
            return Err(BoardError::BadCard { index: 1, board: s.to_owned() });
        },
    };
    let c2 = match byte_pair_card(b[4], b[5]) {
        Some(c) => c,
        None => {
            return Err(BoardError::BadCard { index: 2, board: s.to_owned() });
        },
    };
    let cards = [c0.0, c1.0, c2.0];
    assert(cards@ =~= seq![c0.0, c1.0, c2.0]);
    Ok(cards)
}

/// Arguments of the `pack-cache` command.
#[derive(Debug, Clone)]
pub struct PackCacheArgs {
    /// Directory of per-spot JSON files.
    pub input: String,
    /// Path of the packed binary to write.
    pub output: String,
    /// Output format; only `binary` is written.
    pub format: String,
}

/// Arguments of the `unpack-cache` command.
#[derive(Debug, Clone)]
pub struct UnpackCacheArgs {
    /// Path of the packed binary to read.
    pub input: String,
    /// Directory to write one JSON file per entry into.
    pub output: String,
}

/// A `--format` that `pack-cache` does not write. `S` is `String` at run
/// time and `Seq<char>` in contracts.
#[derive(Debug, Clone, PartialEq, Eq)]
pub struct UnsupportedPackFormat<S> {
    /// The format as given.
    pub format: S,
}

impl View for UnsupportedPackFormat<String> {
    type V = UnsupportedPackFormat<Seq<char>>;

    open spec fn view(&self) -> UnsupportedPackFormat<Seq<char>> {
        UnsupportedPackFormat { format: self.format@ }
    }
}

/// `pack-cache` writes only the `binary` format.
pub fn check_pack_format(format: &str) -> (r: Result<(), UnsupportedPackFormat<String>>)
    ensures
        match r {
            Ok(()) => format@ == "binary"@,
            Err(e) => format@ != "binary"@ && e@.format == format@,
        },
{
    if str_eq(format, "binary") {
        Ok(())
    } else {
        Err(UnsupportedPackFormat { format: format.to_owned() })
    }
}

/// Number of hole-card combinations; every action row has one weight per
/// combination.
pub const NUM_COMBOS: usize = 1326;

/// The integer fields of one precompute entry, read from its JSON.
#[derive(Debug, Clone, Copy, PartialEq, Eq)]
pub struct EntryHeader {
    /// The three board card bytes.
    pub canonical_board: [u8; 3],
    /// Stack-to-pot ratio bucket.
    pub spr_bucket: u8,
    /// Pot type.
    pub pot_type: PotType,
    /// Bet-tree version (1 when the JSON omits it).
    pub bet_tree_version: u8,
    /// Number of actions (rows of weights).
    pub num_actions: usize,
}

/// Why a precompute entry's JSON is rejected. `S` is `String` at run time
/// and `Seq<char>` in contracts.
#[derive(Debug, Clone, PartialEq, Eq)]
pub enum EntryError<S> {
    /// `board` is missing or not a string.
    MissingBoard,
    /// `board` does not parse.
    Board(BoardError<S>),
    /// `spr_bucket` is missing or not a non-negative integer.
    MissingSprBucket,
    /// `spr_bucket` does not fit in a byte.
    SprBucketTooLarge { value: u64 },
    /// `pot_type` is missing or not a string.
    MissingPotType,
    /// `pot_type` is not a known label.
    PotType(UnknownPotType<S>),
    /// `bet_tree_version` does not fit in a byte.
    BetTreeVersionTooLarge { value: u64 },
    /// `exploitability` is missing or not a number.
    MissingExploitability,
    /// `actions` is missing or not an array.
    MissingActions,
    /// More actions than the cache format allows.
    TooManyActions { count: usize, max: usize },
    /// Action `action` has no `weights` array.
    MissingWeights { action: usize },
    /// Action `action` has a `weights` array of the wrong length.
    WeightsLength { action: usize, length: usize },
    /// Weight `index` of action `action` is not a number.
    WeightNotNumber { action: usize, index: usize },
    /// Action `action` has no numeric `ev`.
    MissingEv { action: usize },
}

impl View for EntryError<String> {
    type V = EntryError<Seq<char>>;

    open spec fn view(&self) -> EntryError<Seq<char>> {
        match self {
            EntryError::MissingBoard => EntryError::MissingBoard,
            EntryError::Board(e) => EntryError::Board(e@),
            EntryError::MissingSprBucket => EntryError::MissingSprBucket,
            EntryError::SprBucketTooLarge { value } => EntryError::SprBucketTooLarge {
                value: *value,
            },
            EntryError::MissingPotType => EntryError::MissingPotType,
            EntryError::PotType(e) => EntryError::PotType(e@),
            EntryError::BetTreeVersionTooLarge { value } => EntryError::BetTreeVersionTooLarge {
                value: *value,
            },
            EntryError::MissingExploitability => EntryError::MissingExploitability,
            EntryError::MissingActions => EntryError::MissingActions,
            EntryError::TooManyActions { count, max } => EntryError::TooManyActions {
                count: *count,
                max: *max,
            },
            EntryError::MissingWeights { action } => EntryError::MissingWeights {
                action: *action,
            },
            EntryError::WeightsLength { action, length } => EntryError::WeightsLength {
                action: *action,
                length: *length,
            },
            EntryError::WeightNotNumber { action, index } => EntryError::WeightNotNumber {
                action: *action,
                index: *index,
            },
            EntryError::MissingEv { action } => EntryError::MissingEv { action: *action },
        }
    }
}

/// The first item of `ws` that is not a number, if any.
pub open spec fn first_non_number(ws: Seq<JsonValue>) -> Option<int>
    decreases ws.len(),
{
    if ws.len() == 0 {
        None
    } else if !(ws[0] is Number) {
        Some(0)
    } else {
        match first_non_number(ws.drop_first()) {
            Some(j) => Some(j + 1),
            None => None,
        }
    }
}

/// The check of action `i` of an entry.
pub open spec fn action_check(a: JsonValue, i: int) -> Result<(), EntryError<Seq<char>>> {
    match spec_get(a, "weights"@) {
        Some(JsonValue::Array(ws)) => if ws@.len() != NUM_COMBOS {
            Err(EntryError::WeightsLength { action: i as usize, length: ws@.len() as usize })
        } else {
            match first_non_number(ws@) {
                Some(j) => Err(EntryError::WeightNotNumber { action: i as usize, index: j as usize }),
                None => match spec_get(a, "ev"@) {
                    Some(JsonValue::Number(_)) => Ok(()),
                    _ => Err(EntryError::MissingEv { action: i as usize }),
                },
            }
        },
        _ => Err(EntryError::MissingWeights { action: i as usize }),
    }
}

/// The check of the actions from position `i` on: the first failing one
/// decides the error.
pub open spec fn actions_check_from(actions: Seq<JsonValue>, i: int) -> Result<
    (),
    EntryError<Seq<char>>,
>
    decreases actions.len() - i,
{
    if i < 0 || i >= actions.len() {
        Ok(())
    } else {
        match action_check(actions[i], i) {
            Err(e) => Err(e),
            Ok(()) => actions_check_from(actions, i + 1),
        }
    }
}

/// The fields of an entry, when its JSON passes every check.
pub struct EntryFields {
    pub board: Seq<u8>,
    pub spr_bucket: u8,
    pub pot_type: PotType,
    pub bet_tree_version: u8,
    pub num_actions: nat,
}

/// Reads and checks a precompute entry's JSON, in the order of its fields:
/// board, SPR bucket, pot type, bet-tree version (default 1),
/// exploitability, actions.
pub open spec fn entry_fields(v: JsonValue, max_actions: usize) -> Result<
    EntryFields,
    EntryError<Seq<char>>,
> {
    match spec_get(v, "board"@) {
        Some(JsonValue::String(board)) => match board_cards(board@) {
            Err(e) => Err(EntryError::Board(e)),
            Ok(cards) => match spec_get(v, "spr_bucket"@) {
                Some(JsonValue::Number(JsonNumber::PosInt(spr))) => if spr > 255 {
                    Err(EntryError::SprBucketTooLarge { value: spr })
                } else {
                    match spec_get(v, "pot_type"@) {
                        Some(JsonValue::String(label)) => match pot_of_label(label@) {
                            None => Err(EntryError::PotType(UnknownPotType { label: label@ })),
                            Some(pot) => {
                                let btv: u64 = match spec_get(v, "bet_tree_version"@) {
                                    Some(JsonValue::Number(JsonNumber::PosInt(n))) => n,
                                    _ => 1,
                                };
                                if btv > 255 {
                                    Err(EntryError::BetTreeVersionTooLarge { value: btv })
                                } else if !(spec_get(v, "exploitability"@) matches Some(
                                    JsonValue::Number(_),
                                )) {
                                    Err(EntryError::MissingExploitability)
                                } else {
                                    match spec_get(v, "actions"@) {
                                        Some(JsonValue::Array(actions)) => if actions@.len()
                                            > max_actions {
                                            Err(
                                                EntryError::TooManyActions {
                                                    count: actions@.len() as usize,
                                                    max: max_actions,
                                                },
                                            )
                                        } else {
                                            match actions_check_from(actions@, 0) {
                                                Err(e) => Err(e),
                                                Ok(()) => Ok(
                                                    EntryFields {
                                                        board: cards,
                                                        spr_bucket: spr as u8,
                                                        pot_type: pot,
                                                        bet_tree_version: btv as u8,
                                                        num_actions: actions@.len(),
                                                    },
                                                ),
                                            }
                                        },
                                        _ => Err(EntryError::MissingActions),
                                    }
                                }
                            },
                        },
                        _ => Err(EntryError::MissingPotType),
                    }
                },
                _ => Err(EntryError::MissingSprBucket),
            },
        },
        _ => Err(EntryError::MissingBoard),
    }
}

/// An accepted entry keeps the JSON's `bet_tree_version`: when the field is
/// a non-negative integer `n` the header's version is `n` (which is then at
/// most 255), and it is 1 only when the field is absent or not such an
/// integer. Entries that differ in the field therefore never share a key.
pub proof fn lemma_entry_keeps_bet_tree_version(v: JsonValue, max_actions: usize)
    requires
        entry_fields(v, max_actions) is Ok,
    ensures
        spec_get(v, "bet_tree_version"@) matches Some(JsonValue::Number(JsonNumber::PosInt(n)))
            ==> n <= 255 && entry_fields(v, max_actions)->Ok_0.bet_tree_version == n,
        entry_fields(v, max_actions)->Ok_0.bet_tree_version == 1 ==> (spec_get(
            v,
            "bet_tree_version"@,
        ) matches Some(JsonValue::Number(JsonNumber::PosInt(n))) ==> n == 1),
        !(spec_get(v, "bet_tree_version"@) matches Some(JsonValue::Number(JsonNumber::PosInt(_))))
            ==> entry_fields(v, max_actions)->Ok_0.bet_tree_version == 1,
{
}

/// An accepted entry keeps the JSON's `spr_bucket` and the pot type its
/// `pot_type` label names.
pub proof fn lemma_entry_keeps_spot_fields(v: JsonValue, max_actions: usize)
    requires
        entry_fields(v, max_actions) is Ok,
    ensures
        spec_get(v, "spr_bucket"@) matches Some(JsonValue::Number(JsonNumber::PosInt(n))) && n
            == entry_fields(v, max_actions)->Ok_0.spr_bucket,
        spec_get(v, "pot_type"@) matches Some(JsonValue::String(label)) && pot_of_label(label@)
            == Some(entry_fields(v, max_actions)->Ok_0.pot_type),
{
}

/// The entry's board, when it is a string, can be sliced into cards.
pub open spec fn entry_board_sliceable(v: JsonValue) -> bool {
    match spec_get(v, "board"@) {
        Some(JsonValue::String(board)) => board_sliceable(board@),
        _ => true,
    }
}

/// The check of one action of an entry.
fn check_action(a: &JsonValue, i: usize) -> (r: Result<(), EntryError<String>>)
    ensures
        match r {
            Ok(()) => action_check(*a, i as int) is Ok,
            Err(e) => action_check(*a, i as int) == Err::<(), _>(e@),
        },
{
    let ws = match a.get("weights") {
        Some(JsonValue::Array(ws)) => ws,
        _ => {
            return Err(EntryError::MissingWeights { action: i });
        },
    };
    if ws.len() != NUM_COMBOS {
        return Err(EntryError::WeightsLength { action: i, length: ws.len() });
    }
    let ghost verdict = action_check(*a, i as int);
    let mut j: usize = 0;
    assert(ws@.skip(0) =~= ws@);
    while j < ws.len()
        invariant
            j <= ws@.len(),
            ws@.len() == NUM_COMBOS,
            verdict == action_check(*a, i as int),
            verdict == match first_non_number(ws@) {
                Some(k) => Err::<(), EntryError<Seq<char>>>(
                    EntryError::WeightNotNumber { action: i, index: k as usize },
                ),
                None => match spec_get(*a, "ev"@) {
                    Some(JsonValue::Number(_)) => Ok(()),
                    _ => Err(EntryError::MissingEv { action: i }),
                },
            },
            first_non_number(ws@) == match first_non_number(ws@.skip(j as int)) {
                Some(k) => Some(k + j),
                None => None,
            },
        decreases ws.len() - j,
    {
        assert(ws@.skip(j as int)[0] == ws@[j as int]);
        if !matches!(ws[j], JsonValue::Number(_)) {
            assert(first_non_number(ws@.skip(j as int)) == Some(0int));
            return Err(EntryError::WeightNotNumber { action: i, index: j });
        }
        assert(ws@.skip(j as int).drop_first() =~= ws@.skip(j + 1));
        j += 1;
    }
    assert(ws@.skip(j as int) =~= Seq::<JsonValue>::empty());
    match a.get("ev") {
        Some(JsonValue::Number(_)) => Ok(()),
        _ => Err(EntryError::MissingEv { action: i }),
    }
}

/// Checks a precompute entry's JSON and reads its integer fields. The
/// floating-point values (weights, EVs, exploitability) are only checked
/// to be numbers. `max_actions` is the cache format's limit on actions
/// per entry.
pub fn check_entry_json(v: &JsonValue, max_actions: usize) -> (r: Result<
    EntryHeader,
    EntryError<String>,
>)
    requires
        entry_board_sliceable(*v),
    ensures
        match r {
            Ok(h) => entry_fields(*v, max_actions) == Ok::<_, EntryError<Seq<char>>>(
                EntryFields {
                    board: h.canonical_board@,
                    spr_bucket: h.spr_bucket,
                    pot_type: h.pot_type,
                    bet_tree_version: h.bet_tree_version,
                    num_actions: h.num_actions as nat,
                },
            ),
            Err(e) => entry_fields(*v, max_actions) == Err::<EntryFields, _>(e@),
        },
{
    let board_str = match v.get("board") {
        Some(JsonValue::String(s)) => s,
        _ => {
            return Err(EntryError::MissingBoard);
        },
    };
    let canonical_board = match parse_board_three_cards(board_str.as_str()) {
        Ok(b) => b,
        Err(e) => {
            return Err(EntryError::Board(e));
        },
    };
    let spr = match v.get("spr_bucket") {
        Some(JsonValue::Number(JsonNumber::PosInt(n))) => *n,
        _ => {
            return Err(EntryError::MissingSprBucket);
        },
    };
    if spr > 255 {
        return Err(EntryError::SprBucketTooLarge { value: spr });
    }
    let label = match v.get("pot_type") {
        Some(JsonValue::String(s)) => s,
        _ => {
            return Err(EntryError::MissingPotType);
        },
    };
    let pot_type = match parse_pot_type_label(label.as_str()) {
        Ok(p) => p,
        Err(e) => {
            return Err(EntryError::PotType(e));
        },
    };
    let btv: u64 = match v.get("bet_tree_version") {
        Some(JsonValue::Number(JsonNumber::PosInt(n))) => *n,
        _ => 1,
    };
    if btv > 255 {
        return Err(EntryError::BetTreeVersionTooLarge { value: btv });
    }
    match v.get("exploitability") {
        Some(JsonValue::Number(_)) => {},
        _ => {
            return Err(EntryError::MissingExploitability);
        },
    }
    let actions = match v.get("actions") {
        Some(JsonValue::Array(a)) => a,
        _ => {
            return Err(EntryError::MissingActions);
        },
    };
    if actions.len() > max_actions {
        return Err(EntryError::TooManyActions { count: actions.len(), max: max_actions });
    }
    let ghost verdict = entry_fields(*v, max_actions);
    let ghost fields = EntryFields {
        board: canonical_board@,
        spr_bucket: spr as u8,
        pot_type,
        bet_tree_version: btv as u8,
        num_actions: actions@.len(),
    };
    assert(verdict == match actions_check_from(actions@, 0) {
        Err(e) => Err(e),
        Ok(()) => Ok::<_, EntryError<Seq<char>>>(fields),
    });
    let mut i: usize = 0;
    while i < actions.len()
        invariant
            i <= actions@.len(),
            verdict == entry_fields(*v, max_actions),
            verdict == match actions_check_from(actions@, 0) {
                Err(e) => Err(e),
                Ok(()) => Ok::<_, EntryError<Seq<char>>>(fields),
            },
            actions_check_from(actions@, 0) == actions_check_from(actions@, i as int),
        decreases actions.len() - i,
    {
        match check_action(&actions[i], i) {
            Ok(()) => {},
            Err(e) => {
                return Err(e);
            },
        }
        i += 1;
    }
    Ok(
        EntryHeader {
            canonical_board,
            spr_bucket: spr as u8,
            pot_type,
            bet_tree_version: btv as u8,
            num_actions: actions.len(),
        },
    )
}

/// The key a cache entry is stored under.
#[derive(Debug, Clone, Copy, PartialEq, Eq)]
pub struct EntryKey {
    /// The three board card bytes.
    pub board: [u8; 3],
    /// Stack-to-pot ratio bucket.
    pub spr_bucket: u8,
    /// Pot-type byte.
    pub pot: u8,
    /// Bet-tree version.
    pub bet_tree_version: u8,
}

/// Two keys are the same key.
pub open spec fn same_key(a: EntryKey, b: EntryKey) -> bool {
    &&& a.board@ == b.board@
    &&& a.spr_bucket == b.spr_bucket
    &&& a.pot == b.pot
    &&& a.bet_tree_version == b.bet_tree_version
}

/// Whether two keys are the same key.
pub fn keys_equal(a: &EntryKey, b: &EntryKey) -> (r: bool)
    ensures
        r == same_key(*a, *b),
{
    let r = a.board[0] == b.board[0] && a.board[1] == b.board[1] && a.board[2] == b.board[2]
        && a.spr_bucket == b.spr_bucket && a.pot == b.pot && a.bet_tree_version
        == b.bet_tree_version;
    assert(r ==> a.board@ =~= b.board@);
    r
}

impl EntryHeader {
    /// The key this entry is stored under.
    pub fn key(&self) -> (k: EntryKey)
        ensures
            k.board@ == self.canonical_board@,
            k.spr_bucket == self.spr_bucket,
            k.pot == pot_byte(self.pot_type),
            k.bet_tree_version == self.bet_tree_version,
    {
        EntryKey {
            board: self.canonical_board,
            spr_bucket: self.spr_bucket,
            pot: self.pot_type.to_byte(),
            bet_tree_version: self.bet_tree_version,
        }
    }
}

/// The first slot of `m` holding an entry whose key is `k`.
pub open spec fn slot_with_key(keys: Seq<EntryKey>, m: Seq<int>, k: EntryKey) -> Option<int>
    decreases m.len(),
{
    if m.len() == 0 {
        None
    } else {
        match slot_with_key(keys, m.drop_last(), k) {
            Some(s) => Some(s),
            None => if same_key(keys[m.last()], k) {
                Some(m.len() - 1)
            } else {
                None
            },
        }
    }
}

/// Merging entries in order, a later entry replacing the earlier one with
/// the same key in its slot: for each slot, the position of the entry it
/// ends up holding. Slots are in the order keys first appear.
pub open spec fn merged_slots(keys: Seq<EntryKey>) -> Seq<int>
    decreases keys.len(),
{
    if keys.len() == 0 {
        seq![]
    } else {
        let m = merged_slots(keys.drop_last());
        let n = keys.len() - 1;
        match slot_with_key(keys, m, keys[n]) {
            Some(s) => m.update(s, n),
            None => m.push(n),
        }
    }
}

proof fn lemma_slot_with_key_at(keys: Seq<EntryKey>, m: Seq<int>, k: EntryKey, s: int)
    requires
        0 <= s <= m.len(),
        forall|t: int| 0 <= t < s ==> !same_key(keys[#[trigger] m[t]], k),
        s < m.len() ==> same_key(keys[m[s]], k),
    ensures
        slot_with_key(keys, m, k) == (if s < m.len() {
            Some(s)
        } else {
            None
        }),
    decreases m.len(),
{
    if m.len() > 0 {
        let d = m.drop_last();
        if s < m.len() - 1 {
            assert forall|t: int| 0 <= t < s implies !same_key(keys[#[trigger] d[t]], k) by {
                assert(d[t] == m[t]);
            }
            assert(d[s] == m[s]);
            lemma_slot_with_key_at(keys, d, k, s);
        } else {
            assert forall|t: int| 0 <= t < d.len() implies !same_key(keys[#[trigger] d[t]], k) by {
                assert(d[t] == m[t]);
            }
            lemma_slot_with_key_at(keys, d, k, d.len() as int);
        }
    }
}

proof fn lemma_slot_with_key_prefix(keys: Seq<EntryKey>, more: Seq<EntryKey>, m: Seq<int>, k: EntryKey)
    requires
        keys.len() <= more.len(),
        forall|i: int| 0 <= i < keys.len() ==> more[i] == keys[i],
        forall|t: int| 0 <= t < m.len() ==> 0 <= #[trigger] m[t] < keys.len(),
    ensures
        slot_with_key(more, m, k) == slot_with_key(keys, m, k),
    decreases m.len(),
{
    if m.len() > 0 {
        let d = m.drop_last();
        assert forall|t: int| 0 <= t < d.len() implies 0 <= #[trigger] d[t] < keys.len() by {
            assert(d[t] == m[t]);
        }
        lemma_slot_with_key_prefix(keys, more, d, k);
        assert(m.last() == m[m.len() - 1]);
    }
}

proof fn lemma_slot_with_key_found(keys: Seq<EntryKey>, m: Seq<int>, k: EntryKey)
    ensures
        match slot_with_key(keys, m, k) {
            Some(s) => 0 <= s < m.len() && same_key(keys[m[s]], k),
            None => forall|t: int| 0 <= t < m.len() ==> !same_key(keys[#[trigger] m[t]], k),
        },
    decreases m.len(),
{
    if m.len() > 0 {
        let d = m.drop_last();
        lemma_slot_with_key_found(keys, d, k);
        match slot_with_key(keys, d, k) {
            Some(s) => {
                assert(d[s] == m[s]);
            },
            None => {
                assert forall|t: int| 0 <= t < m.len() - 1 implies !same_key(
                    keys[#[trigger] m[t]],
                    k,
                ) by {
                    assert(d[t] == m[t]);
                }
            },
        }
    }
}

/// Every slot of `m` names a position of `keys`.
pub open spec fn slots_in_range(keys: Seq<EntryKey>, m: Seq<int>) -> bool {
    forall|s: int| 0 <= s < m.len() ==> 0 <= #[trigger] m[s] < keys.len()
}

/// No two slots of `m` hold entries with the same key.
pub open spec fn slots_distinct(keys: Seq<EntryKey>, m: Seq<int>) -> bool {
    forall|s1: int, s2: int|
        0 <= s1 < s2 < m.len() ==> !same_key(keys[#[trigger] m[s1]], keys[#[trigger] m[s2]])
}

/// Every slot of `m` holds the last entry of `keys` with its key.
pub open spec fn slots_latest(keys: Seq<EntryKey>, m: Seq<int>) -> bool {
    forall|s: int, j: int|
        0 <= s < m.len() && m[s] < j < keys.len() ==> !same_key(
            #[trigger] keys[j],
            keys[#[trigger] m[s]],
        )
}

/// Some slot of `m` holds an entry with the key of entry `i`.
pub open spec fn has_slot(keys: Seq<EntryKey>, m: Seq<int>, i: int) -> bool {
    exists|s: int| 0 <= s < m.len() && same_key(keys[#[trigger] m[s]], keys[i])
}

/// Every entry of `keys` has a slot of `m` with its key.
pub open spec fn slots_cover(keys: Seq<EntryKey>, m: Seq<int>) -> bool {
    forall|i: int| 0 <= i < keys.len() ==> #[trigger] has_slot(keys, m, i)
}

proof fn lemma_prefix_lookup(keys: Seq<EntryKey>, m: Seq<int>)
    requires
        keys.len() > 0,
        slots_in_range(keys.drop_last(), m),
    ensures
        forall|t: int| 0 <= t < m.len() ==> keys[#[trigger] m[t]] == keys.drop_last()[m[t]],
{
}

#[verifier::spinoff_prover]
proof fn lemma_step_distinct(keys: Seq<EntryKey>, m: Seq<int>, r: Seq<int>, s: int)
    requires
        keys.len() > 0,
        slots_in_range(keys.drop_last(), m),
        slots_distinct(keys.drop_last(), m),
        0 <= s <= m.len(),
        s < m.len() ==> same_key(keys[m[s]], keys.last()) && r == m.update(s, keys.len() - 1),
        s == m.len() ==> r == m.push(keys.len() - 1) && forall|t: int|
            0 <= t < m.len() ==> !same_key(keys[#[trigger] m[t]], keys.last()),
    ensures
        slots_distinct(keys, r),
{
    let p = keys.drop_last();
    lemma_prefix_lookup(keys, m);
    assert forall|s1: int, s2: int| 0 <= s1 < s2 < r.len() implies !same_key(
        keys[#[trigger] r[s1]],
        keys[#[trigger] r[s2]],
    ) by {
        if s2 == m.len() {
            assert(!same_key(keys[m[s1]], keys.last()));
        } else {
            assert(!same_key(p[m[s1]], p[m[s2]]));
        }
    }
}

#[verifier::spinoff_prover]
proof fn lemma_step_latest(keys: Seq<EntryKey>, m: Seq<int>, r: Seq<int>, s: int)
    requires
        keys.len() > 0,
        slots_in_range(keys.drop_last(), m),
        slots_distinct(keys.drop_last(), m),
        slots_latest(keys.drop_last(), m),
        0 <= s <= m.len(),
        s < m.len() ==> same_key(keys[m[s]], keys.last()) && r == m.update(s, keys.len() - 1),
        s == m.len() ==> r == m.push(keys.len() - 1) && forall|t: int|
            0 <= t < m.len() ==> !same_key(keys[#[trigger] m[t]], keys.last()),
    ensures
        slots_latest(keys, r),
{
    let p = keys.drop_last();
    let n = keys.len() - 1;
    lemma_prefix_lookup(keys, m);
    assert forall|t: int, j: int| 0 <= t < r.len() && r[t] < j < keys.len() implies !same_key(
        #[trigger] keys[j],
        keys[#[trigger] r[t]],
    ) by {
        if t != s {
            if j == n {
                if s < m.len() {
                    assert(!same_key(p[m[t]], p[m[s]]));
                } else {
                    assert(!same_key(keys[m[t]], keys.last()));
                }
            } else {
                assert(keys[j] == p[j]);
                assert(!same_key(p[j], p[m[t]]));
            }
        }
    }
}

#[verifier::spinoff_prover]
proof fn lemma_step_cover(keys: Seq<EntryKey>, m: Seq<int>, r: Seq<int>, s: int)
    requires
        keys.len() > 0,
        slots_in_range(keys.drop_last(), m),
        slots_cover(keys.drop_last(), m),
        0 <= s <= m.len(),
        s < m.len() ==> same_key(keys[m[s]], keys.last()) && r == m.update(s, keys.len() - 1),
        s == m.len() ==> r == m.push(keys.len() - 1),
    ensures
        slots_cover(keys, r),
{
    let p = keys.drop_last();
    let n = keys.len() - 1;
    lemma_prefix_lookup(keys, m);
    assert forall|i: int| 0 <= i < keys.len() implies #[trigger] has_slot(keys, r, i) by {
        if i == n {
            assert(r[s] == n);
            assert(same_key(keys[r[s]], keys[i]));
        } else {
            assert(keys[i] == p[i]);
            assert(has_slot(p, m, i));
            let u = choose|u: int| 0 <= u < m.len() && same_key(p[#[trigger] m[u]], p[i]);
            if u == s {
                assert(same_key(keys[r[u]], keys[i]));
            } else {
                assert(r[u] == m[u]);
                assert(same_key(keys[r[u]], keys[i]));
            }
        }
    }
}

/// Merging keeps one slot per distinct key, every slot holds the last
/// entry with its key, and every entry's key has a slot.
pub proof fn lemma_merge_later_wins(keys: Seq<EntryKey>)
    ensures
        slots_in_range(keys, merged_slots(keys)),
        slots_distinct(keys, merged_slots(keys)),
        slots_latest(keys, merged_slots(keys)),
        slots_cover(keys, merged_slots(keys)),
    decreases keys.len(),
{
    if keys.len() > 0 {
        let p = keys.drop_last();
        let m = merged_slots(p);
        let k = keys[keys.len() - 1];
        lemma_merge_later_wins(p);
        lemma_slot_with_key_prefix(p, keys, m, k);
        lemma_slot_with_key_found(keys, m, k);
        let r = merged_slots(keys);
        let s = match slot_with_key(keys, m, k) {
            Some(s) => s,
            None => m.len() as int,
        };
        lemma_step_distinct(keys, m, r, s);
        lemma_step_latest(keys, m, r, s);
        lemma_step_cover(keys, m, r, s);
    }
}

/// The positions of the entries that survive merging, one per distinct
/// key, in the order keys first appear: a later entry replaces an
/// earlier one with the same key.
pub fn merge_later_wins(keys: &[EntryKey]) -> (r: Vec<usize>)
    ensures
        r@.len() == merged_slots(keys@).len(),
        forall|s: int| 0 <= s < r@.len() ==> r@[s] as int == #[trigger] merged_slots(keys@)[s],
{
    let mut slots: Vec<usize> = Vec::new();
    let mut i: usize = 0;
    assert(keys@.take(0) =~= Seq::<EntryKey>::empty());
    while i < keys.len()
        invariant
            i <= keys@.len(),
            slots@.len() == merged_slots(keys@.take(i as int)).len(),
            forall|s: int|
                0 <= s < slots@.len() ==> slots@[s] as int == #[trigger] merged_slots(
                    keys@.take(i as int),
                )[s],
            forall|s: int| 0 <= s < slots@.len() ==> #[trigger] slots@[s] < i,
        decreases keys.len() - i,
    {
        let ghost m = merged_slots(keys@.take(i as int));
        let ghost t = keys@.take(i as int + 1);
        assert(t.drop_last() =~= keys@.take(i as int));
        let mut s: usize = 0;
        let mut found: Option<usize> = None;
        while s < slots.len()
            invariant_except_break
                found is None,
                forall|q: int| 0 <= q < s ==> !same_key(keys@[#[trigger] m[q]], keys@[i as int]),
            invariant
                s <= slots@.len(),
                i < keys@.len(),
                slots@.len() == m.len(),
                forall|q: int| 0 <= q < slots@.len() ==> slots@[q] as int == #[trigger] m[q],
                forall|q: int| 0 <= q < slots@.len() ==> #[trigger] slots@[q] < i,
            ensures
                match found {
                    Some(f) => f < slots@.len() && same_key(keys@[m[f as int]], keys@[i as int])
                        && forall|q: int|
                        0 <= q < f ==> !same_key(keys@[#[trigger] m[q]], keys@[i as int]),
                    None => forall|q: int|
                        0 <= q < slots@.len() ==> !same_key(
                            keys@[#[trigger] m[q]],
                            keys@[i as int],
                        ),
                },
            decreases slots.len() - s,
        {
            if keys_equal(&keys[slots[s]], &keys[i]) {
                found = Some(s);
                break;
            }
            s += 1;
        }
        proof {
            assert forall|q: int| 0 <= q < m.len() implies 0 <= #[trigger] m[q] < i by {
                assert(slots@[q] as int == m[q]);
            }
            lemma_slot_with_key_prefix(t, keys@, m, keys@[i as int]);
            match found {
                Some(f) => lemma_slot_with_key_at(keys@, m, keys@[i as int], f as int),
                None => lemma_slot_with_key_at(keys@, m, keys@[i as int], m.len() as int),
            }
            assert(t[i as int] == keys@[i as int]);
        }
        match found {
            Some(f) => {
                slots.set(f, i);
            },
            None => {
                slots.push(i);
            },
        }
        i += 1;
    }
    assert(keys@.take(i as int) =~= keys@);
    slots
}

/// The last position before `j` whose key is the key at `i`.
pub open spec fn latest_same_key(keys: Seq<EntryKey>, i: int, j: int) -> Option<int>
    decreases j,
{
    if j <= 0 {
        None
    } else if same_key(keys[j - 1], keys[i]) {
        Some(j - 1)
    } else {
        latest_same_key(keys, i, j - 1)
    }
}

/// For each entry, the earlier entry it overrides when merging: the last
/// one before it with the same key, if any.
pub fn overridden_entries(keys: &[EntryKey]) -> (r: Vec<Option<usize>>)
    ensures
        r@.len() == keys@.len(),
        forall|i: int|
            0 <= i < keys@.len() ==> #[trigger] r@[i] == match latest_same_key(keys@, i, i) {
                Some(j) => Some(j as usize),
                None => None::<usize>,
            },
{
    let mut out: Vec<Option<usize>> = Vec::new();
    let mut i: usize = 0;
    while i < keys.len()
        invariant
            i <= keys@.len(),
            out@.len() == i,
            forall|q: int|
                0 <= q < i ==> #[trigger] out@[q] == match latest_same_key(keys@, q, q) {
                    Some(j) => Some(j as usize),
                    None => None::<usize>,
                },
        decreases keys.len() - i,
    {
        let mut j: usize = i;
        let mut found: Option<usize> = None;
        while j > 0
            invariant_except_break
                found is None,
                latest_same_key(keys@, i as int, i as int) == latest_same_key(keys@, i as int, j as int),
            invariant
                j <= i < keys@.len(),
            ensures
                match found {
                    Some(f) => latest_same_key(keys@, i as int, i as int) == Some(f as int),
                    None => latest_same_key(keys@, i as int, i as int) is None,
                },
            decreases j,
        {
            if keys_equal(&keys[j - 1], &keys[i]) {
                found = Some(j - 1);
                break;
            }
            j -= 1;
        }
        out.push(found);
        i += 1;
    }
    out
}

/// Bytes of the file header.
pub const FILE_HEADER_BYTES: usize = 16;

/// Bytes of an entry header.
pub const ENTRY_HEADER_BYTES: usize = 8;

/// Bytes of one action row of weights.
pub const STRATEGY_BYTES: usize = NUM_COMBOS * 4;

/// The cache format version this reader understands.
pub const FLOP_CACHE_VERSION: u16 = 1;

/// Why a packed cache could not be read.
#[derive(Debug, Clone, Copy, PartialEq, Eq, Structural)]
pub enum UnpackError {
    /// Shorter than the file header.
    TooShort,
    /// The file does not start with `PSFLOP\0\0`.
    BadMagic,
    /// The format version is not [`FLOP_CACHE_VERSION`].
    UnsupportedVersion { version: u16 },
    /// An entry's pot-type byte names no pot type.
    UnknownPotByte { byte: u8 },
}

/// One entry of a packed cache, located in the file's bytes.
#[derive(Debug, Clone, Copy, PartialEq, Eq)]
pub struct UnpackedEntry {
    /// The three board card bytes.
    pub board: [u8; 3],
    /// Stack-to-pot ratio bucket.
    pub spr_bucket: u8,
    /// Pot type.
    pub pot_type: PotType,
    /// Bet-tree version.
    pub bet_tree_version: u8,
    /// Number of actions.
    pub num_actions: usize,
    /// Where the first action row starts.
    pub strategy_offset: usize,
}

impl UnpackedEntry {
    /// One past the entry's last byte.
    pub open spec fn end(&self) -> int {
        self.strategy_offset + self.num_actions * (STRATEGY_BYTES + 4) + 4
    }

    /// Where weight `combo` of action `action` starts.
    pub fn weight_offset(&self, action: usize, combo: usize) -> (r: usize)
        requires
            action < self.num_actions,
            combo < NUM_COMBOS,
            self.end() <= usize::MAX,
        ensures
            r == self.strategy_offset + action * STRATEGY_BYTES + combo * 4,
            r + 4 <= self.end(),
    {
        assert(action * STRATEGY_BYTES + combo * 4 + 4 <= self.num_actions * STRATEGY_BYTES)
            by (nonlinear_arith)
            requires
                action < self.num_actions,
                combo < NUM_COMBOS,
        ;
        assert(self.num_actions * (STRATEGY_BYTES + 4) == self.num_actions * STRATEGY_BYTES
            + self.num_actions * 4) by (nonlinear_arith);
        self.strategy_offset + action * STRATEGY_BYTES + combo * 4
    }

    /// Where the EV of action `action` starts.
    pub fn ev_offset(&self, action: usize) -> (r: usize)
        requires
            action < self.num_actions,
            self.end() <= usize::MAX,
        ensures
            r == self.strategy_offset + self.num_actions * STRATEGY_BYTES + action * 4,
            r + 4 <= self.end(),
    {
        assert(self.num_actions * (STRATEGY_BYTES + 4) == self.num_actions * STRATEGY_BYTES
            + self.num_actions * 4) by (nonlinear_arith);
        assert(action * 4 + 4 <= self.num_actions * 4) by (nonlinear_arith)
            requires
                action < self.num_actions,
        ;
        self.strategy_offset + self.num_actions * STRATEGY_BYTES + action * 4
    }

    /// Where the entry's exploitability starts.
    pub fn exploitability_offset(&self) -> (r: usize)
        requires
            self.end() <= usize::MAX,
        ensures
            r == self.strategy_offset + self.num_actions * (STRATEGY_BYTES + 4),
            r + 4 == self.end(),
    {
        self.strategy_offset + self.num_actions * (STRATEGY_BYTES + 4)
    }
}

/// The little-endian `u16` at `i`.
pub open spec fn le16(b: Seq<u8>, i: int) -> nat {
    (b[i] + 256 * b[i + 1]) as nat
}

/// The little-endian `u32` at `i`.
pub open spec fn le32(b: Seq<u8>, i: int) -> nat {
    (b[i] + 256 * b[i + 1] + 65536 * b[i + 2] + 16777216 * b[i + 3]) as nat
}

/// The file starts with the magic bytes `PSFLOP\0\0`.
pub open spec fn magic_ok(b: Seq<u8>) -> bool {
    &&& b[0] == 80
    &&& b[1] == 83
    &&& b[2] == 70
    &&& b[3] == 76
    &&& b[4] == 79
    &&& b[5] == 80
    &&& b[6] == 0
    &&& b[7] == 0
}

/// One past the last byte of the entry starting at `c`.
pub open spec fn entry_end(b: Seq<u8>, c: int) -> int {
    c + ENTRY_HEADER_BYTES + b[c + 6] * (STRATEGY_BYTES + 4) + 4
}

/// Reading `k` entries from `c` stays within the bytes (an entry with an
/// unknown pot type ends the reading).
pub open spec fn entries_fit(b: Seq<u8>, c: int, k: nat) -> bool
    decreases k,
{
    k == 0 || (c + 5 <= b.len() && (pot_of_byte(b[c + 4]) is None || (entry_end(b, c) <= b.len()
        && entries_fit(b, entry_end(b, c), (k - 1) as nat))))
}

/// Where the entries read from `c` start, and the error that stops the
/// reading, if any.
pub open spec fn entries_from(b: Seq<u8>, c: int, k: nat) -> (Seq<int>, Option<UnpackError>)
    decreases k,
{
    if k == 0 {
        (seq![], None)
    } else {
        match pot_of_byte(b[c + 4]) {
            None => (seq![], Some(UnpackError::UnknownPotByte { byte: b[c + 4] })),
            Some(_) => {
                let (rest, err) = entries_from(b, entry_end(b, c), (k - 1) as nat);
                (seq![c] + rest, err)
            },
        }
    }
}

/// Where the entries of a packed cache start, and the error that stops
/// the reading, if any.
pub open spec fn unpacked(b: Seq<u8>) -> (Seq<int>, Option<UnpackError>) {
    if b.len() < FILE_HEADER_BYTES {
        (seq![], Some(UnpackError::TooShort))
    } else if !magic_ok(b) {
        (seq![], Some(UnpackError::BadMagic))
    } else if le16(b, 8) != FLOP_CACHE_VERSION {
        (seq![], Some(UnpackError::UnsupportedVersion { version: le16(b, 8) as u16 }))
    } else {
        entries_from(b, FILE_HEADER_BYTES as int, le32(b, 12))
    }
}

/// Reading the cache never runs past its bytes.
pub open spec fn unpack_fits(b: Seq<u8>) -> bool {
    b.len() < FILE_HEADER_BYTES || !magic_ok(b) || le16(b, 8) != FLOP_CACHE_VERSION
        || entries_fit(b, FILE_HEADER_BYTES as int, le32(b, 12))
}

/// `e` is the entry that starts at `c`.
pub open spec fn entry_at(b: Seq<u8>, c: int, e: UnpackedEntry) -> bool {
    &&& e.board@ == b.subrange(c, c + 3)
    &&& e.spr_bucket == b[c + 3]
    &&& pot_of_byte(b[c + 4]) == Some(e.pot_type)
    &&& e.bet_tree_version == b[c + 5]
    &&& e.num_actions == b[c + 6]
    &&& e.strategy_offset == c + ENTRY_HEADER_BYTES
}

/// Whether the bytes start with the magic `PSFLOP\0\0`.
fn has_magic(b: &[u8]) -> (r: bool)
    requires
        b@.len() >= 8,
    ensures
        r == magic_ok(b@),
{
    b[0] == 80 && b[1] == 83 && b[2] == 70 && b[3] == 76 && b[4] == 79 && b[5] == 80 && b[6] == 0
        && b[7] == 0
}

/// Whether [`unpack_entries`] can read the bytes: every entry it would
/// read lies within them.
pub fn unpack_in_bounds(bytes: &[u8]) -> (r: bool)
    ensures
        r == unpack_fits(bytes@),
{
    let b = bytes;
    let n = b.len();
    if n < FILE_HEADER_BYTES || !has_magic(b) {
        return true;
    }
    let version: u16 = b[8] as u16 + 256 * (b[9] as u16);
    if version != FLOP_CACHE_VERSION {
        return true;
    }
    let count: u64 = b[12] as u64 + 256 * (b[13] as u64) + 65536 * (b[14] as u64) + 16777216 * (
    b[15] as u64);
    let ghost total = le32(b@, 12);
    let mut cursor: usize = FILE_HEADER_BYTES;
    let mut k: u64 = 0;
    while k < count
        invariant
            b@ == bytes@,
            n == b@.len(),
            k <= count,
            count == total,
            cursor <= n,
            unpack_fits(b@) == entries_fit(b@, cursor as int, (total - k) as nat),
        decreases count - k,
    {
        let c = cursor;
        if n - c < 5 {
            return false;
        }
        if PotType::from_byte(b[c + 4]).is_none() {
            return true;
        }
        if n - c < 12 {
            assert(entry_end(b@, c as int) >= c + 12);
            return false;
        }
        let actions = b[c + 6] as usize;
        assert(actions * (STRATEGY_BYTES + 4) <= 255 * 5308) by (nonlinear_arith)
            requires
                actions <= 255,
                STRATEGY_BYTES + 4 == 5308,
        ;
        if actions * (STRATEGY_BYTES + 4) + 12 > n - c {
            return false;
        }
        cursor = c + ENTRY_HEADER_BYTES + actions * (STRATEGY_BYTES + 4) + 4;
        k += 1;
    }
    true
}

/// Reads the entries of a packed cache: each entry's header fields and
/// where its data lies. Reading stops at the first entry with an unknown
/// pot type; the entries before it are returned with the error.
pub fn unpack_entries(bytes: &[u8]) -> (r: (Vec<UnpackedEntry>, Option<UnpackError>))
    requires
        unpack_fits(bytes@),
    ensures
        r.0@.len() == unpacked(bytes@).0.len(),
        forall|i: int|
            0 <= i < r.0@.len() ==> entry_at(bytes@, #[trigger] unpacked(bytes@).0[i], r.0@[i]),
        forall|i: int| 0 <= i < r.0@.len() ==> (#[trigger] r.0@[i]).end() <= bytes@.len(),
        r.1 == unpacked(bytes@).1,
{
    let b = bytes;
    let mut out: Vec<UnpackedEntry> = Vec::new();
    if b.len() < FILE_HEADER_BYTES {
        return (out, Some(UnpackError::TooShort));
    }
    if !has_magic(b) {
        return (out, Some(UnpackError::BadMagic));
    }
    let version: u16 = b[8] as u16 + 256 * (b[9] as u16);
    if version != FLOP_CACHE_VERSION {
        return (out, Some(UnpackError::UnsupportedVersion { version }));
    }
    let count: u64 = b[12] as u64 + 256 * (b[13] as u64) + 65536 * (b[14] as u64) + 16777216 * (
    b[15] as u64);
    let ghost total = le32(b@, 12);
    let ghost mut starts: Seq<int> = seq![];
    let mut cursor: usize = FILE_HEADER_BYTES;
    let mut k: u64 = 0;
    let n = b.len();
    while k < count
        invariant
            b@ == bytes@,
            n == b@.len(),
            k <= count,
            count == total,
            out@.len() == starts.len(),
            unpacked(b@) == ({
                let (rest, err) = entries_from(b@, cursor as int, (total - k) as nat);
                (starts + rest, err)
            }),
            entries_fit(b@, cursor as int, (total - k) as nat),
            forall|i: int| 0 <= i < out@.len() ==> entry_at(b@, #[trigger] starts[i], out@[i]),
            forall|i: int| 0 <= i < out@.len() ==> (#[trigger] out@[i]).end() <= b@.len(),
        decreases count - k,
    {
        let c = cursor;
        let ghost rest_k = (total - k) as nat;
        assert(rest_k > 0);
        assert(c + 5 <= b@.len());
        let pot_type = match PotType::from_byte(b[c + 4]) {
            Some(p) => p,
            None => {
                assert(entries_from(b@, c as int, rest_k) == (
                    Seq::<int>::empty(),
                    Some(UnpackError::UnknownPotByte { byte: b@[c + 4] }),
                ));
                assert(starts + Seq::<int>::empty() =~= starts);
                return (out, Some(UnpackError::UnknownPotByte { byte: b[c + 4] }));
            },
        };
        let num_actions = b[c + 6] as usize;
        let e = UnpackedEntry {
            board: [b[c], b[c + 1], b[c + 2]],
            spr_bucket: b[c + 3],
            pot_type,
            bet_tree_version: b[c + 5],
            num_actions,
            strategy_offset: c + ENTRY_HEADER_BYTES,
        };
        assert(e.board@ =~= b@.subrange(c as int, c + 3));
        let end = c + ENTRY_HEADER_BYTES + num_actions * (STRATEGY_BYTES + 4) + 4;
        proof {
            let rest_k = (total - k) as nat;
            let (rest, err) = entries_from(b@, end as int, (rest_k - 1) as nat);
            assert(entries_from(b@, c as int, rest_k) == (seq![c as int] + rest, err));
            assert(starts + (seq![c as int] + rest) =~= starts.push(c as int) + rest);
            starts = starts.push(c as int);
        }
        out.push(e);
        cursor = end;
        k += 1;
    }
    assert(entries_from(b@, cursor as int, 0).0 =~= Seq::<int>::empty());
    assert(starts + Seq::<int>::empty() =~= starts);
    (out, None)
}

/// The two-character name of a valid card byte, e.g. `"Ah"`.
pub open spec fn card_name(b: u8) -> Seq<char> {
    seq![spec_rank_char(rank_of(Card(b)) as u8), spec_suit_char(suit_of(Card(b)) as u8)]
}

/// The names of three valid card bytes, concatenated.
pub open spec fn board_name(board: Seq<u8>) -> Seq<char> {
    card_name(board[0]) + card_name(board[1]) + card_name(board[2])
}

/// The board of three valid card bytes, written as card names.
pub fn board_string(board: [u8; 3]) -> (r: String)
    requires
        valid_card(Card(board[0])),
        valid_card(Card(board[1])),
        valid_card(Card(board[2])),
    ensures
        r@ == board_name(board@),
{
    let mut v = Card(board[0]).name();
    let n1 = Card(board[1]).name();
    let n2 = Card(board[2]).name();
    append_chars(&mut v, n1.as_slice());
    append_chars(&mut v, n2.as_slice());
    string_of(&v)
}

/// The file an unpacked entry is written to:
/// `{board}_{spr}spr_{pot}_bt{version}.json`.
pub open spec fn entry_file_name_of(e: UnpackedEntry) -> Seq<char> {
    board_name(e.board@) + seq!['_'] + decimal(e.spr_bucket as nat) + "spr_"@ + pot_label(e.pot_type)
        + "_bt"@ + decimal(e.bet_tree_version as nat) + ".json"@
}

/// Writing a board's valid card bytes as names and parsing the names
/// gives back the bytes: what `unpack-cache` writes, `pack-cache` reads.
pub proof fn lemma_board_name_roundtrip(b: Seq<u8>)
    requires
        b.len() == 3,
        valid_card(Card(b[0])),
        valid_card(Card(b[1])),
        valid_card(Card(b[2])),
    ensures
        board_cards(board_name(b)) == Ok::<Seq<u8>, BoardError<Seq<char>>>(b),
{
    let s = board_name(b);
    assert(s.len() == 6);
    assert forall|i: int| 0 <= i < 3 implies {
        &&& '\0' <= #[trigger] card_name(b[i])[0] <= '\u{7f}'
        &&& '\0' <= card_name(b[i])[1] <= '\u{7f}'
    } by {
        let r = rank_of(Card(b[i]));
        assert(0 <= r < 13);
        let st = suit_of(Card(b[i]));
        assert(0 <= st < 4);
    }
    assert(s[0] == card_name(b[0])[0] && s[1] == card_name(b[0])[1]);
    assert(s[2] == card_name(b[1])[0] && s[3] == card_name(b[1])[1]);
    assert(s[4] == card_name(b[2])[0] && s[5] == card_name(b[2])[1]);
    assert(is_ascii_chars(s));
    is_ascii_chars_encode_utf8(s);
    let e = encode_utf8(s);
    assert forall|k: int| 0 <= k < 6 implies (#[trigger] e[k]) < 128 && e[k] as char == s[k] by {
        assert(s[k] as u8 == e[k]);
    }
    assert forall|i: int| 0 <= i < 3 implies #[trigger] chunk_card(e, i) == Some(Card(b[i])) by {
        lemma_card_name_roundtrip(Card(b[i]));
        assert(seq![e[2 * i] as char, e[2 * i + 1] as char] =~= card_name(b[i]));
    }
    assert(chunk_card(e, 0) == Some(Card(b[0])));
    assert(chunk_card(e, 1) == Some(Card(b[1])));
    assert(chunk_card(e, 2) == Some(Card(b[2])));
    assert(seq![b[0], b[1], b[2]] =~= b);
}

/// The file name an unpacked entry is written to.
pub fn entry_file_name(e: &UnpackedEntry) -> (r: String)
    requires
        valid_card(Card(e.board[0])),
        valid_card(Card(e.board[1])),
        valid_card(Card(e.board[2])),
    ensures
        r@ == entry_file_name_of(*e),
{
    let b = board_string(e.board);
    let mut v = chars_of(b.as_str());
    v.push('_');
    push_decimal(&mut v, e.spr_bucket as u64);
    let spr = chars_of("spr_");
    append_chars(&mut v, spr.as_slice());
    let label = chars_of(pot_type_label(e.pot_type));
    append_chars(&mut v, label.as_slice());
    let bt = chars_of("_bt");
    append_chars(&mut v, bt.as_slice());
    push_decimal(&mut v, e.bet_tree_version as u64);
    let ext = chars_of(".json");
    append_chars(&mut v, ext.as_slice());
    string_of(&v)
}

/// `str::get(lo..hi)`: the part of `s` between byte offsets `lo` and `hi`,
/// or `None` when `lo > hi` or either offset is not a character boundary
/// of `s` (which includes lying past its end).
#[verifier::external_body]
fn str_get<'a>(s: &'a str, lo: usize, hi: usize) -> (r: Option<&'a str>)
    ensures
        r is Some <==> (lo <= hi && is_char_boundary(encode_utf8(s@), lo as int)
            && is_char_boundary(encode_utf8(s@), hi as int)),
        r matches Some(t) ==> encode_utf8(t@) == encode_utf8(s@).subrange(lo as int, hi as int),
{
    s.get(lo..hi)
}

/// The text of card `index` of a board: its two bytes at `2 * index`, or
/// nothing when they do not lie between character boundaries.
pub open spec fn card_text(board: Seq<char>, index: int) -> Seq<char> {
    let b = encode_utf8(board);
    if 0 <= index && 2 * index + 2 <= usize::MAX && is_char_boundary(b, 2 * index)
        && is_char_boundary(b, 2 * index + 2) {
        decode_utf8(b.subrange(2 * index, 2 * index + 2))
    } else {
        seq![]
    }
}

/// The text of card `index` of a board.
pub fn board_card_text(board: &str, index: usize) -> (r: &str)
    ensures
        r@ == card_text(board@, index as int),
{
    if index > (usize::MAX - 2) / 2 {
        proof {
            reveal_strlit("");
        }
        return "";
    }
    let lo = 2 * index;
    match str_get(board, lo, lo + 2) {
        Some(t) => {
            proof {
                vstd::utf8::encode_utf8_decode_utf8(t@);
            }
            t
        },
        None => {
            proof {
                reveal_strlit("");
            }
            ""
        },
    }
}

impl BoardError<Seq<char>> {
    /// The message shown to the user.
    pub open spec fn message_text(self) -> Seq<char> {
        match self {
            BoardError::Length { board } => "board "@ + crate::text::debug_quoted(board) + " must be 6 chars (3 cards)"@,
            BoardError::BadCard { index, board } => "bad card "@ + crate::text::debug_quoted(crate::cache::card_text(board, index as int)) + " in board "@ + crate::text::debug_quoted(board),
        }
    }
}

impl BoardError<String> {
    /// The message shown to the user.
    pub fn message(&self) -> (r: String)
        ensures
            r@ == self@.message_text(),
    {
        let mut v: Vec<char> = Vec::new();
        match self {
            BoardError::Length { board } => {
                crate::text::push_text(&mut v, "board ");
                crate::text::push_debug(&mut v, board.as_str());
                crate::text::push_text(&mut v, " must be 6 chars (3 cards)");
                proof {
                    assert(v@ =~= self@.message_text());
                }
            },
            BoardError::BadCard { index, board } => {
                crate::text::push_text(&mut v, "bad card ");
                { let card = crate::cache::board_card_text(board.as_str(), *index); crate::text::push_debug(&mut v, card); }
                crate::text::push_text(&mut v, " in board ");
                crate::text::push_debug(&mut v, board.as_str());
                proof {
                    assert(v@ =~= self@.message_text());
                }
            },
        }
        crate::text::string_of(&v)
    }
}

impl UnknownPotType<Seq<char>> {
    /// The message shown to the user.
    pub open spec fn message_text(self) -> Seq<char> {
        match self {
            UnknownPotType { label } => "unknown pot_type label: "@ + crate::text::debug_quoted(label),
        }
    }
}

impl UnknownPotType<String> {
    /// The message shown to the user.
    pub fn message(&self) -> (r: String)
        ensures
            r@ == self@.message_text(),
    {
        let mut v: Vec<char> = Vec::new();
        match self {
            UnknownPotType { label } => {
                crate::text::push_text(&mut v, "unknown pot_type label: ");
                crate::text::push_debug(&mut v, label.as_str());
                proof {
                    assert(v@ =~= self@.message_text());
                }
            },
        }
        crate::text::string_of(&v)
    }
}

impl EntryError<Seq<char>> {
    /// The message shown to the user.
    pub open spec fn message_text(self) -> Seq<char> {
        match self {
            EntryError::MissingBoard => "missing string field \"board\""@,
            EntryError::Board(b) => b.message_text(),
            EntryError::MissingSprBucket => "missing integer field \"spr_bucket\""@,
            EntryError::SprBucketTooLarge { value } => "spr_bucket "@ + crate::text::decimal(value as nat) + " does not fit in u8"@,
            EntryError::MissingPotType => "missing string field \"pot_type\""@,
            EntryError::PotType(p) => p.message_text(),
            EntryError::BetTreeVersionTooLarge { value } => "bet_tree_version "@ + crate::text::decimal(value as nat) + " does not fit in u8"@,
            EntryError::MissingExploitability => "missing number field \"exploitability\""@,
            EntryError::MissingActions => "missing array field \"actions\""@,
            EntryError::TooManyActions { count, max } => "too many actions: "@ + crate::text::decimal(count as nat) + " > MAX_ACTIONS="@ + crate::text::decimal(max as nat),
            EntryError::MissingWeights { action } => "action["@ + crate::text::decimal(action as nat) + "]: missing array \"weights\""@,
            EntryError::WeightsLength { action, length } => "action["@ + crate::text::decimal(action as nat) + "]: weights length "@ + crate::text::decimal(length as nat) + " != 1326"@,
            EntryError::WeightNotNumber { action, index } => "action["@ + crate::text::decimal(action as nat) + "].weights["@ + crate::text::decimal(index as nat) + "] is not a number"@,
            EntryError::MissingEv { action } => "action["@ + crate::text::decimal(action as nat) + "]: missing number \"ev\""@,
        }
    }
}

impl EntryError<String> {
    /// The message shown to the user.
    pub fn message(&self) -> (r: String)
        ensures
            r@ == self@.message_text(),
    {
        let mut v: Vec<char> = Vec::new();
        match self {
            EntryError::MissingBoard => {
                crate::text::push_text(&mut v, "missing string field \"board\"");
                proof {
                    assert(v@ =~= self@.message_text());
                }
            },
            EntryError::Board(b) => {
                { let m = b.message(); crate::text::push_text(&mut v, m.as_str()); }
                proof {
                    assert(v@ =~= self@.message_text());
                }
            },
            EntryError::MissingSprBucket => {
                crate::text::push_text(&mut v, "missing integer field \"spr_bucket\"");
                proof {
                    assert(v@ =~= self@.message_text());
                }
            },
            EntryError::SprBucketTooLarge { value } => {
                crate::text::push_text(&mut v, "spr_bucket ");
                crate::text::push_decimal(&mut v, *value as u64);
                crate::text::push_text(&mut v, " does not fit in u8");
                proof {
                    assert(v@ =~= self@.message_text());
                }
            },
            EntryError::MissingPotType => {
                crate::text::push_text(&mut v, "missing string field \"pot_type\"");
                proof {
                    assert(v@ =~= self@.message_text());
                }
            },
            EntryError::PotType(p) => {
                { let m = p.message(); crate::text::push_text(&mut v, m.as_str()); }
                proof {
                    assert(v@ =~= self@.message_text());
                }
            },
            EntryError::BetTreeVersionTooLarge { value } => {
                crate::text::push_text(&mut v, "bet_tree_version ");
                crate::text::push_decimal(&mut v, *value as u64);
                crate::text::push_text(&mut v, " does not fit in u8");
                proof {
                    assert(v@ =~= self@.message_text());
                }
            },
            EntryError::MissingExploitability => {
                crate::text::push_text(&mut v, "missing number field \"exploitability\"");
                proof {
                    assert(v@ =~= self@.message_text());
                }
            },
            EntryError::MissingActions => {
                crate::text::push_text(&mut v, "missing array field \"actions\"");
                proof {
                    assert(v@ =~= self@.message_text());
                }
            },
            EntryError::TooManyActions { count, max } => {
                crate::text::push_text(&mut v, "too many actions: ");
                crate::text::push_decimal(&mut v, *count as u64);
                crate::text::push_text(&mut v, " > MAX_ACTIONS=");
                crate::text::push_decimal(&mut v, *max as u64);
                proof {
                    assert(v@ =~= self@.message_text());
                }
            },
            EntryError::MissingWeights { action } => {
                crate::text::push_text(&mut v, "action[");
                crate::text::push_decimal(&mut v, *action as u64);
                crate::text::push_text(&mut v, "]: missing array \"weights\"");
                proof {
                    assert(v@ =~= self@.message_text());
                }
            },
            EntryError::WeightsLength { action, length } => {
                crate::text::push_text(&mut v, "action[");
                crate::text::push_decimal(&mut v, *action as u64);
                crate::text::push_text(&mut v, "]: weights length ");
                crate::text::push_decimal(&mut v, *length as u64);
                crate::text::push_text(&mut v, " != 1326");
                proof {
                    assert(v@ =~= self@.message_text());
                }
            },
            EntryError::WeightNotNumber { action, index } => {
                crate::text::push_text(&mut v, "action[");
                crate::text::push_decimal(&mut v, *action as u64);
                crate::text::push_text(&mut v, "].weights[");
                crate::text::push_decimal(&mut v, *index as u64);
                crate::text::push_text(&mut v, "] is not a number");
                proof {
                    assert(v@ =~= self@.message_text());
                }
            },
            EntryError::MissingEv { action } => {
                crate::text::push_text(&mut v, "action[");
                crate::text::push_decimal(&mut v, *action as u64);
                crate::text::push_text(&mut v, "]: missing number \"ev\"");
                proof {
                    assert(v@ =~= self@.message_text());
                }
            },
        }
        crate::text::string_of(&v)
    }
}

impl UnpackError {
    /// The message shown to the user.
    pub open spec fn message_text(self) -> Seq<char> {
        match self {
            UnpackError::TooShort => "file too short for header"@,
            UnpackError::BadMagic => "bad magic bytes"@,
            UnpackError::UnsupportedVersion { version } => "unsupported format version: got "@ + crate::text::decimal(version as nat) + ", expected 1"@,
            UnpackError::UnknownPotByte { byte } => "unknown PotType byte "@ + crate::text::decimal(byte as nat),
        }
    }

    /// The message shown to the user.
    pub fn message(&self) -> (r: String)
        ensures
            r@ == self.message_text(),
    {
        let mut v: Vec<char> = Vec::new();
        match self {
            UnpackError::TooShort => {
                crate::text::push_text(&mut v, "file too short for header");
                proof {
                    assert(v@ =~= self.message_text());
                }
            },
            UnpackError::BadMagic => {
                crate::text::push_text(&mut v, "bad magic bytes");
                proof {
                    assert(v@ =~= self.message_text());
                }
            },
            UnpackError::UnsupportedVersion { version } => {
                crate::text::push_text(&mut v, "unsupported format version: got ");
                crate::text::push_decimal(&mut v, *version as u64);
                crate::text::push_text(&mut v, ", expected 1");
                proof {
                    assert(v@ =~= self.message_text());
                }
            },
            UnpackError::UnknownPotByte { byte } => {
                crate::text::push_text(&mut v, "unknown PotType byte ");
                crate::text::push_decimal(&mut v, *byte as u64);
                proof {
                    assert(v@ =~= self.message_text());
                }
            },
        }
        crate::text::string_of(&v)
    }
}

impl UnsupportedPackFormat<Seq<char>> {
    /// The message shown to the user.
    pub open spec fn message_text(self) -> Seq<char> {
        match self {
            UnsupportedPackFormat { format } => "unsupported format "@ + crate::text::debug_quoted(format) + ": only \"binary\" is accepted today"@,
        }
    }
}

impl UnsupportedPackFormat<String> {
    /// The message shown to the user.
    pub fn message(&self) -> (r: String)
        ensures
            r@ == self@.message_text(),
    {
        let mut v: Vec<char> = Vec::new();
        match self {
            UnsupportedPackFormat { format } => {
                crate::text::push_text(&mut v, "unsupported format ");
                crate::text::push_debug(&mut v, format.as_str());
                crate::text::push_text(&mut v, ": only \"binary\" is accepted today");
                proof {
                    assert(v@ =~= self@.message_text());
                }
            },
        }
        crate::text::string_of(&v)
    }
}

} // verus!
