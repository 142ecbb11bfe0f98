//! Translation of a solver fixture (a JSON document) into TexasSolver's
//! line-based `.tsconfig` configuration.
//!
//! The emitted config, one command per line and newline-terminated:
//!
//! ```text
//! set_pot <pot>
//! set_effective_stack <stack>
//! set_board <C,C,C[,C[,C]]>
//! set_range_ip <villain range>
//! set_range_oop <hero range>
//! set_bet_sizes ... (six lines per street that still has live betting)
//! set_allin_threshold 0.67
//! build_tree
//! set_thread_num <N>
//! set_accuracy 0.3
//! set_max_iteration <iterations>
//! set_print_interval 10
//! set_use_isomorphism 1
//! start_solve
//! set_dump_rounds 2
//! dump_result <path>
//! ```
//!
//! Hero is out of position, villain in position. Only the
//! `default_v0_1` bet-tree preset is known: flop 33/66/100, turn
//! 50/100/200, river 33/66/100/200 (percent of pot), plus all-in on every
//! street. A fixture's board length must match its street (6, 8 or 10
//! characters). Ranges go through [`normalize_range_for_texassolver`].

use vstd::prelude::*;
use vstd::utf8::{encode_utf8, is_ascii_chars};
use crate::json::{JsonValue, JsonNumber, entry_lookup, obj_get, spec_as_object, str_eq};
use crate::range::{RangeError, normalized_range, normalize_range_for_texassolver};
use crate::text::{
    chars_of, string_of, append_chars, join_with, join_chars, seqs_of, decimal, push_decimal,
    chars_eq,
};

verus! {

broadcast use vstd::string::is_ascii_spec_bytes, vstd::utf8::is_ascii_chars_encode_utf8;

/// Output formats the translator can write.
#[derive(Debug, Clone, Copy, PartialEq, Eq, Structural)]
pub enum TargetFormat {
    /// TexasSolver's line-based console config.
    TexasSolver,
}

/// A `--format` name that names no known format. `S` is `String` at run
/// time and `Seq<char>` in contracts.
#[derive(Debug, Clone, PartialEq, Eq)]
pub struct UnknownFormat<S> {
    /// The name as given, ASCII lower-cased.
    pub name: S,
}

impl View for UnknownFormat<String> {
    type V = UnknownFormat<Seq<char>>;

    open spec fn view(&self) -> UnknownFormat<Seq<char>> {
        UnknownFormat { name: self.name@ }
    }
}

/// ASCII lower-casing of one character (`char::to_ascii_lowercase`).
pub open spec fn ascii_lower(c: char) -> char {
    if 'A' <= c && c <= 'Z' {
        ((c as u32) + 32) as char
    } else {
        c
    }
}

/// ASCII lower-casing of a character sequence (`str::to_ascii_lowercase`).
pub open spec fn ascii_lowercase(s: Seq<char>) -> Seq<char> {
    s.map_values(|c: char| ascii_lower(c))
}

/// The characters of `s`, ASCII lower-cased.
pub fn to_ascii_lowercase(s: &str) -> (r: Vec<char>)
    ensures
        r@ == ascii_lowercase(s@),
{
    let chars = chars_of(s);
    let mut r: Vec<char> = Vec::new();
    let mut i: usize = 0;
    while i < chars.len()
        invariant
            i <= chars@.len(),
            chars@ == s@,
            r@ == ascii_lowercase(s@).take(i as int),
        decreases chars.len() - i,
    {
        let c = chars[i];
        let l = if 'A' <= c && c <= 'Z' {
            ((c as u8) + 32) as char
        } else {
            c
        };
        r.push(l);
        i += 1;
        assert(r@ =~= ascii_lowercase(s@).take(i as int));
    }
    assert(ascii_lowercase(s@).take(i as int) =~= ascii_lowercase(s@));
    r
}

/// What `--format` name `s` selects.
pub open spec fn format_named(s: Seq<char>) -> Result<TargetFormat, UnknownFormat<Seq<char>>> {
    let l = ascii_lowercase(s);
    if l == "texassolver"@ || l == "ts"@ {
        Ok(TargetFormat::TexasSolver)
    } else {
        Err(UnknownFormat { name: l })
    }
}

impl TargetFormat {
    /// Parses a `--format` argument, case-insensitively: `texassolver` or
    /// `ts`.
    pub fn parse(s: &str) -> (r: Result<TargetFormat, UnknownFormat<String>>)
        ensures
            match r {
                Ok(f) => format_named(s@) == Ok::<_, UnknownFormat<Seq<char>>>(f),
                Err(e) => format_named(s@) == Err::<TargetFormat, _>(e@),
            },
    {
        let lowered = to_ascii_lowercase(s);
        let long_name = chars_of("texassolver");
        let short_name = chars_of("ts");
        if chars_eq(lowered.as_slice(), long_name.as_slice()) || chars_eq(
            lowered.as_slice(),
            short_name.as_slice(),
        ) {
            Ok(TargetFormat::TexasSolver)
        } else {
            Err(UnknownFormat { name: string_of(&lowered) })
        }
    }
}

/// Arguments of the `translate-fixture` command.
#[derive(Debug)]
pub struct TranslateArgs {
    /// Path of the input fixture JSON.
    pub input: String,
    /// Path to write the config to (`-` for standard output).
    pub output: String,
    /// Target solver format.
    pub format: TargetFormat,
    /// Path TexasSolver dumps its result to (`dump_result <path>`).
    pub dump_path: String,
}

/// `s.chunks(2)` joined with commas: `"AhKd2c"` becomes `"Ah,Kd,2c"`.
pub open spec fn paired_csv(s: Seq<char>) -> Seq<char>
    decreases s.len(),
{
    if s.len() <= 2 {
        s
    } else {
        s.take(2).push(',') + paired_csv(s.skip(2))
    }
}

/// Why a fixture could not be translated. `S` is `String` at run time and
/// `Seq<char>` in contracts.
#[derive(Debug, Clone, PartialEq, Eq)]
pub enum TranslateError<S> {
    /// The fixture is not a JSON object.
    NotObject,
    /// A field is missing or not a string (`parent` names the enclosing
    /// object when it is not the root).
    MissingString { field: S, parent: Option<S> },
    /// A field is missing or not a non-negative integer.
    MissingInteger { field: S, parent: Option<S> },
    /// An integer field does not fit in `u32`.
    IntegerTooLarge { field: S, parent: Option<S>, value: u64 },
    /// The `input` object is missing.
    MissingInput { id: S },
    /// The bet-tree preset is not `default_v0_1`.
    UnknownBetTree { id: S, name: S },
    /// The street is not `flop`, `turn` or `river`.
    BadStreet { id: S, street: S },
    /// `to_act` is not `hero` or `villain`.
    BadToAct { id: S, to_act: S },
    /// The board's length (in bytes) does not match the street.
    BoardLength { id: S, board: S, length: usize, street: S, expected: usize },
    /// The board is not ASCII of even length.
    BoardText { board: S },
    /// A range string could not be normalized.
    Range { id: S, field: S, error: RangeError<S> },
}

/// The characters of an optional string.
pub open spec fn opt_view(o: Option<String>) -> Option<Seq<char>> {
    match o {
        Some(s) => Some(s@),
        None => None,
    }
}

impl View for TranslateError<String> {
    type V = TranslateError<Seq<char>>;

    open spec fn view(&self) -> TranslateError<Seq<char>> {
        match self {
            TranslateError::NotObject => TranslateError::NotObject,
            TranslateError::MissingString { field, parent } => TranslateError::MissingString {
                field: field@,
                parent: opt_view(*parent),
            },
            TranslateError::MissingInteger { field, parent } => TranslateError::MissingInteger {
                field: field@,
                parent: opt_view(*parent),
            },
            TranslateError::IntegerTooLarge { field, parent, value } =>
                TranslateError::IntegerTooLarge {
                field: field@,
                parent: opt_view(*parent),
                value: *value,
            },
            TranslateError::MissingInput { id } => TranslateError::MissingInput { id: id@ },
            TranslateError::UnknownBetTree { id, name } => TranslateError::UnknownBetTree {
                id: id@,
                name: name@,
            },
            TranslateError::BadStreet { id, street } => TranslateError::BadStreet {
                id: id@,
                street: street@,
            },
            TranslateError::BadToAct { id, to_act } => TranslateError::BadToAct {
                id: id@,
                to_act: to_act@,
            },
            TranslateError::BoardLength { id, board, length, street, expected } =>
                TranslateError::BoardLength {
                id: id@,
                board: board@,
                length: *length,
                street: street@,
                expected: *expected,
            },
            TranslateError::BoardText { board } => TranslateError::BoardText { board: board@ },
            TranslateError::Range { id, field, error } => TranslateError::Range {
                id: id@,
                field: field@,
                error: error@,
            },
        }
    }
}

/// The comma-separated form of a concatenated board string.
pub open spec fn board_csv(board: Seq<char>) -> Result<Seq<char>, TranslateError<Seq<char>>> {
    if !is_ascii_chars(board) || encode_utf8(board).len() % 2 != 0 {
        Err(TranslateError::BoardText { board })
    } else {
        Ok(paired_csv(board))
    }
}

/// Turns a concatenated board like `"AhKd2c"` into `"Ah,Kd,2c"`; the board
/// must be ASCII of even length.
pub fn format_board_csv(board: &str) -> (r: Result<String, TranslateError<String>>)
    ensures
        match r {
            Ok(t) => board_csv(board@) == Ok::<_, TranslateError<Seq<char>>>(t@),
            Err(e) => board_csv(board@) == Err::<Seq<char>, _>(e@),
        },
{
    if !board.is_ascii() || board.as_bytes().len() % 2 != 0 {
        return Err(TranslateError::BoardText { board: board.to_owned() });
    }
    let chars = chars_of(board);
    let n = chars.len();
    let mut out: Vec<char> = Vec::new();
    let mut i: usize = 0;
    assert(chars@.skip(0) =~= chars@);
    while i < n
        invariant
            i <= n,
            n == chars@.len(),
            i % 2 == 0,
            n % 2 == 0,
            out@ + paired_csv(chars@.skip(i as int)) == paired_csv(chars@),
        decreases n - i,
    {
        let ghost rest = chars@.skip(i as int);
        let ghost before = out@;
        if n - i <= 2 {
            out.push(chars[i]);
            out.push(chars[i + 1]);
            assert(rest =~= seq![chars@[i as int], chars@[i + 1]]);
            i = n;
            assert(chars@.skip(i as int) =~= Seq::<char>::empty());
            assert(out@ + paired_csv(chars@.skip(i as int)) =~= before + rest);
        } else {
            out.push(chars[i]);
            out.push(chars[i + 1]);
            out.push(',');
            assert(rest.take(2).push(',') =~= seq![chars@[i as int], chars@[i + 1], ',']);
            assert(rest.skip(2) =~= chars@.skip(i + 2));
            i = i + 2;
            assert(out@ + paired_csv(chars@.skip(i as int)) =~= before + paired_csv(rest));
        }
    }
    Ok(string_of(&out))
}

/// The characters of an optional string slice.
pub open spec fn opt_str(o: Option<&str>) -> Option<Seq<char>> {
    match o {
        Some(s) => Some(s@),
        None => None,
    }
}

/// The string under `field` of an object's entries.
pub open spec fn required_str(
    obj: Seq<(String, JsonValue)>,
    field: Seq<char>,
    parent: Option<Seq<char>>,
) -> Result<Seq<char>, TranslateError<Seq<char>>> {
    match entry_lookup(obj, field) {
        Some(JsonValue::String(s)) => Ok(s@),
        _ => Err(TranslateError::MissingString { field, parent }),
    }
}

/// The `u32` under `field` of an object's entries.
pub open spec fn required_u32(
    obj: Seq<(String, JsonValue)>,
    field: Seq<char>,
    parent: Option<Seq<char>>,
) -> Result<u32, TranslateError<Seq<char>>> {
    match entry_lookup(obj, field) {
        Some(JsonValue::Number(JsonNumber::PosInt(n))) => if n <= u32::MAX {
            Ok(n as u32)
        } else {
            Err(TranslateError::IntegerTooLarge { field, parent, value: n })
        },
        _ => Err(TranslateError::MissingInteger { field, parent }),
    }
}

/// Looks up a string field of an object.
fn lookup_str<'a>(obj: &'a Vec<(String, JsonValue)>, field: &str, parent: Option<&str>) -> (r:
    Result<&'a str, TranslateError<String>>)
    ensures
        match r {
            Ok(s) => required_str(obj@, field@, opt_str(parent)) == Ok::<
                _,
                TranslateError<Seq<char>>,
            >(s@),
            Err(e) => required_str(obj@, field@, opt_str(parent)) == Err::<Seq<char>, _>(e@),
        },
{
    match obj_get(obj, field) {
        Some(JsonValue::String(s)) => Ok(s.as_str()),
        _ => Err(
            TranslateError::MissingString {
                field: field.to_owned(),
                parent: match parent {
                    Some(p) => Some(p.to_owned()),
                    None => None,
                },
            },
        ),
    }
}

/// Looks up a `u32` field of an object.
fn lookup_u32(obj: &Vec<(String, JsonValue)>, field: &str, parent: Option<&str>) -> (r: Result<
    u32,
    TranslateError<String>,
>)
    ensures
        match r {
            Ok(n) => required_u32(obj@, field@, opt_str(parent)) == Ok::<
                _,
                TranslateError<Seq<char>>,
            >(n),
            Err(e) => required_u32(obj@, field@, opt_str(parent)) == Err::<u32, _>(e@),
        },
{
    let parent_owned = match parent {
        Some(p) => Some(p.to_owned()),
        None => None,
    };
    match obj_get(obj, field) {
        Some(JsonValue::Number(JsonNumber::PosInt(n))) => {
            if *n <= 4294967295u64 {
                Ok(*n as u32)
            } else {
                Err(
                    TranslateError::IntegerTooLarge {
                        field: field.to_owned(),
                        parent: parent_owned,
                        value: *n,
                    },
                )
            }
        },
        _ => Err(TranslateError::MissingInteger { field: field.to_owned(), parent: parent_owned }),
    }
}

/// A string field of the fixture's root object.
fn require_str<'a>(obj: &'a Vec<(String, JsonValue)>, field: &str) -> (r: Result<
    &'a str,
    TranslateError<String>,
>)
    ensures
        match r {
            Ok(s) => required_str(obj@, field@, None) == Ok::<_, TranslateError<Seq<char>>>(s@),
            Err(e) => required_str(obj@, field@, None) == Err::<Seq<char>, _>(e@),
        },
{
    lookup_str(obj, field, None)
}

/// A `u32` field of the fixture's root object.
fn require_u32(obj: &Vec<(String, JsonValue)>, field: &str) -> (r: Result<
    u32,
    TranslateError<String>,
>)
    ensures
        match r {
            Ok(n) => required_u32(obj@, field@, None) == Ok::<_, TranslateError<Seq<char>>>(n),
            Err(e) => required_u32(obj@, field@, None) == Err::<u32, _>(e@),
        },
{
    lookup_u32(obj, field, None)
}

/// A string field of a nested object named `parent`.
fn require_str_field<'a>(obj: &'a Vec<(String, JsonValue)>, field: &str, parent: &str) -> (r:
    Result<&'a str, TranslateError<String>>)
    ensures
        match r {
            Ok(s) => required_str(obj@, field@, Some(parent@)) == Ok::<
                _,
                TranslateError<Seq<char>>,
            >(s@),
            Err(e) => required_str(obj@, field@, Some(parent@)) == Err::<Seq<char>, _>(e@),
        },
{
    lookup_str(obj, field, Some(parent))
}

/// A `u32` field of a nested object named `parent`.
fn require_u32_field(obj: &Vec<(String, JsonValue)>, field: &str, parent: &str) -> (r: Result<
    u32,
    TranslateError<String>,
>)
    ensures
        match r {
            Ok(n) => required_u32(obj@, field@, Some(parent@)) == Ok::<
                _,
                TranslateError<Seq<char>>,
            >(n),
            Err(e) => required_u32(obj@, field@, Some(parent@)) == Err::<u32, _>(e@),
        },
{
    lookup_u32(obj, field, Some(parent))
}

/// Flop bet sizes of the `default_v0_1` preset, in percent of pot.
pub open spec fn flop_pct() -> Seq<u32> {
    seq![33, 66, 100]
}

/// Turn bet sizes of the `default_v0_1` preset.
pub open spec fn turn_pct() -> Seq<u32> {
    seq![50, 100, 200]
}

/// River bet sizes of the `default_v0_1` preset.
pub open spec fn river_pct() -> Seq<u32> {
    seq![33, 66, 100, 200]
}

/// The street names the translator knows.
pub open spec fn is_street(s: Seq<char>) -> bool {
    s == "flop"@ || s == "turn"@ || s == "river"@
}

/// The streets that still have live betting when play starts on
/// `street`, each with its bet sizes.
pub open spec fn live_streets(street: Seq<char>) -> Seq<(Seq<char>, Seq<u32>)> {
    if street == "flop"@ {
        seq![("flop"@, flop_pct()), ("turn"@, turn_pct()), ("river"@, river_pct())]
    } else if street == "turn"@ {
        seq![("turn"@, turn_pct()), ("river"@, river_pct())]
    } else {
        seq![("river"@, river_pct())]
    }
}

/// The plan of [`streets_to_emit`] seen as character sequences.
pub open spec fn plan_view(v: Seq<(&str, Vec<u32>)>) -> Seq<(Seq<char>, Seq<u32>)> {
    v.map_values(|p: (&str, Vec<u32>)| (p.0@, p.1@))
}

/// Which streets still have live betting, with their bet sizes.
fn streets_to_emit(starting_street: &str) -> (r: Vec<(&'static str, Vec<u32>)>)
    requires
        is_street(starting_street@),
    ensures
        plan_view(r@) == live_streets(starting_street@),
{
    let flop: Vec<u32> = vec![33, 66, 100];
    let turn: Vec<u32> = vec![50, 100, 200];
    let river: Vec<u32> = vec![33, 66, 100, 200];
    let ghost (f, t, rv) = (flop@, turn@, river@);
    assert(f =~= flop_pct());
    assert(t =~= turn_pct());
    assert(rv =~= river_pct());
    if str_eq(starting_street, "flop") {
        let r = vec![("flop", flop), ("turn", turn), ("river", river)];
        assert(plan_view(r@) =~= live_streets(starting_street@));
        r
    } else if str_eq(starting_street, "turn") {
        let r = vec![("turn", turn), ("river", river)];
        assert(plan_view(r@) =~= live_streets(starting_street@));
        r
    } else {
        let r = vec![("river", river)];
        assert(plan_view(r@) =~= live_streets(starting_street@));
        r
    }
}

/// Each number in decimal.
pub open spec fn decimals(nums: Seq<u32>) -> Seq<Seq<char>> {
    nums.map_values(|n: u32| decimal(n as nat))
}

/// The numbers in decimal, joined with commas.
pub open spec fn decimal_list(nums: Seq<u32>) -> Seq<char> {
    join_with(decimals(nums), ',')
}

/// The numbers in decimal, joined with commas.
fn join_u32(nums: &[u32]) -> (r: String)
    ensures
        r@ == decimal_list(nums@),
{
    let mut parts: Vec<Vec<char>> = Vec::new();
    let mut i: usize = 0;
    while i < nums.len()
        invariant
            i <= nums@.len(),
            seqs_of(parts@) == decimals(nums@.take(i as int)),
        decreases nums.len() - i,
    {
        let mut d: Vec<char> = Vec::new();
        push_decimal(&mut d, nums[i] as u64);
        assert(d@ =~= decimal(nums@[i as int] as nat));
        let ghost before = parts@;
        parts.push(d);
        assert(seqs_of(parts@) =~= seqs_of(before).push(d@));
        assert(decimals(nums@.take(i as int + 1)) =~= decimals(nums@.take(i as int)).push(
            decimal(nums@[i as int] as nat),
        ));
        i += 1;
    }
    assert(nums@.take(i as int) =~= nums@);
    let joined = join_chars(&parts, ',');
    string_of(&joined)
}

/// One `set_bet_sizes` line: `side,street,action`, then `,sizes` when
/// sizes are given.
pub open spec fn bet_size_line(
    side: Seq<char>,
    street: Seq<char>,
    action: Seq<char>,
    sizes: Option<Seq<char>>,
) -> Seq<char> {
    let head = "set_bet_sizes "@ + side + seq![','] + street + seq![','] + action;
    match sizes {
        Some(csv) => head + seq![','] + csv,
        None => head,
    }
}

/// The six `set_bet_sizes` lines of one street.
pub open spec fn street_lines(street: Seq<char>, csv: Seq<char>) -> Seq<Seq<char>> {
    seq![
        bet_size_line("oop"@, street, "bet"@, Some(csv)),
        bet_size_line("oop"@, street, "raise"@, Some(csv)),
        bet_size_line("oop"@, street, "allin"@, None),
        bet_size_line("ip"@, street, "bet"@, Some(csv)),
        bet_size_line("ip"@, street, "raise"@, Some(csv)),
        bet_size_line("ip"@, street, "allin"@, None),
    ]
}

/// The `set_bet_sizes` lines of every street of a plan, in order.
pub open spec fn bet_lines(plan: Seq<(Seq<char>, Seq<u32>)>) -> Seq<Seq<char>>
    decreases plan.len(),
{
    if plan.len() == 0 {
        seq![]
    } else {
        bet_lines(plan.drop_last()) + street_lines(plan.last().0, decimal_list(plan.last().1))
    }
}

/// The fields of a fixture that the translation reads.
pub struct FixtureFields {
    pub id: Seq<char>,
    pub street: Seq<char>,
    pub iterations: u32,
    pub board: Seq<char>,
    pub hero_range: Seq<char>,
    pub villain_range: Seq<char>,
    pub pot: u32,
    pub effective_stack: u32,
    pub to_act: Seq<char>,
    pub bet_tree: Seq<char>,
}

/// Reads the fixture's fields, in the order the translator checks them.
pub open spec fn fixture_fields(fixture: JsonValue) -> Result<
    FixtureFields,
    TranslateError<Seq<char>>,
> {
    match spec_as_object(fixture) {
        None => Err(TranslateError::NotObject),
        Some(root) => match required_str(root, "id"@, None) {
            Err(e) => Err(e),
            Ok(id) => match required_str(root, "street"@, None) {
                Err(e) => Err(e),
                Ok(street) => match required_u32(root, "iterations"@, None) {
                    Err(e) => Err(e),
                    Ok(iterations) => match entry_lookup(root, "input"@) {
                        Some(JsonValue::Object(input)) => {
                            let p = Some("input"@);
                            match required_str(input@, "board"@, p) {
                                Err(e) => Err(e),
                                Ok(board) => match required_str(input@, "hero_range"@, p) {
                                    Err(e) => Err(e),
                                    Ok(hero_range) => match required_str(
                                        input@,
                                        "villain_range"@,
                                        p,
                                    ) {
                                        Err(e) => Err(e),
                                        Ok(villain_range) => match required_u32(
                                            input@,
                                            "pot"@,
                                            p,
                                        ) {
                                            Err(e) => Err(e),
                                            Ok(pot) => match required_u32(
                                                input@,
                                                "effective_stack"@,
                                                p,
                                            ) {
                                                Err(e) => Err(e),
                                                Ok(effective_stack) => match required_str(
                                                    input@,
                                                    "to_act"@,
                                                    p,
                                                ) {
                                                    Err(e) => Err(e),
                                                    Ok(to_act) => match required_str(
                                                        input@,
                                                        "bet_tree"@,
                                                        p,
                                                    ) {
                                                        Err(e) => Err(e),
                                                        Ok(bet_tree) => Ok(
                                                            FixtureFields {
                                                                id,
                                                                street,
                                                                iterations,
                                                                board,
                                                                hero_range,
                                                                villain_range,
                                                                pot,
                                                                effective_stack,
                                                                to_act,
                                                                bet_tree,
                                                            },
                                                        ),
                                                    },
                                                },
                                            },
                                        },
                                    },
                                },
                            }
                        },
                        _ => Err(TranslateError::MissingInput { id }),
                    },
                },
            },
        },
    }
}

/// The board length (in bytes) a street requires.
pub open spec fn board_chars_for(street: Seq<char>) -> usize {
    if street == "flop"@ {
        6
    } else if street == "turn"@ {
        8
    } else {
        10
    }
}

/// The thread count written to the config: at least one.
pub open spec fn thread_count(threads: usize) -> usize {
    if threads == 0 {
        1
    } else {
        threads
    }
}

/// The lines of the config for validated fields.
pub open spec fn config_lines(
    pot: u32,
    effective_stack: u32,
    board_csv: Seq<char>,
    oop_range: Seq<char>,
    ip_range: Seq<char>,
    street: Seq<char>,
    iterations: u32,
    dump_path: Seq<char>,
    threads: usize,
) -> Seq<Seq<char>> {
    seq![
        "set_pot "@ + decimal(pot as nat),
        "set_effective_stack "@ + decimal(effective_stack as nat),
        "set_board "@ + board_csv,
        "set_range_ip "@ + ip_range,
        "set_range_oop "@ + oop_range,
    ] + bet_lines(live_streets(street)) + seq![
        "set_allin_threshold 0.67"@,
        "build_tree"@,
        "set_thread_num "@ + decimal(thread_count(threads) as nat),
        "set_accuracy 0.3"@,
        "set_max_iteration "@ + decimal(iterations as nat),
        "set_print_interval 10"@,
        "set_use_isomorphism 1"@,
        "start_solve"@,
        "set_dump_rounds 2"@,
        "dump_result "@ + dump_path,
    ]
}

/// The translation of a fixture's fields.
pub open spec fn translation_of(f: FixtureFields, dump_path: Seq<char>, threads: usize) -> Result<
    Seq<char>,
    TranslateError<Seq<char>>,
> {
    if f.bet_tree != "default_v0_1"@ {
        Err(TranslateError::UnknownBetTree { id: f.id, name: f.bet_tree })
    } else if !is_street(f.street) {
        Err(TranslateError::BadStreet { id: f.id, street: f.street })
    } else if !(f.to_act == "hero"@ || f.to_act == "villain"@) {
        Err(TranslateError::BadToAct { id: f.id, to_act: f.to_act })
    } else if encode_utf8(f.board).len() != board_chars_for(f.street) {
        Err(
            TranslateError::BoardLength {
                id: f.id,
                board: f.board,
                length: encode_utf8(f.board).len() as usize,
                street: f.street,
                expected: board_chars_for(f.street),
            },
        )
    } else {
        match board_csv(f.board) {
            Err(e) => Err(e),
            Ok(csv) => match normalized_range(f.hero_range) {
                Err(e) => Err(TranslateError::Range { id: f.id, field: "hero_range"@, error: e }),
                Ok(oop) => match normalized_range(f.villain_range) {
                    Err(e) => Err(
                        TranslateError::Range { id: f.id, field: "villain_range"@, error: e },
                    ),
                    Ok(ip) => Ok(
                        join_with(
                            config_lines(
                                f.pot,
                                f.effective_stack,
                                csv,
                                oop,
                                ip,
                                f.street,
                                f.iterations,
                                dump_path,
                                threads,
                            ),
                            '\n',
                        ).push('\n'),
                    ),
                },
            },
        }
    }
}

/// The config a fixture translates to, or why it cannot be translated.
pub open spec fn translation(fixture: JsonValue, dump_path: Seq<char>, threads: usize) -> Result<
    Seq<char>,
    TranslateError<Seq<char>>,
> {
    match fixture_fields(fixture) {
        Err(e) => Err(e),
        Ok(f) => translation_of(f, dump_path, threads),
    }
}

/// `prefix` followed by `rest`.
fn text_line(prefix: &str, rest: &[char]) -> (r: Vec<char>)
    ensures
        r@ == prefix@ + rest@,
{
    let mut v = chars_of(prefix);
    append_chars(&mut v, rest);
    v
}

/// `prefix` followed by `n` in decimal.
fn number_line(prefix: &str, n: u64) -> (r: Vec<char>)
    ensures
        r@ == prefix@ + decimal(n as nat),
{
    let mut v = chars_of(prefix);
    push_decimal(&mut v, n);
    v
}

/// One `set_bet_sizes` line.
fn make_bet_size_line(side: &str, street: &[char], action: &str, sizes: Option<&[char]>) -> (r:
    Vec<char>)
    ensures
        r@ == bet_size_line(
            side@,
            street@,
            action@,
            match sizes {
                Some(c) => Some(c@),
                None => None,
            },
        ),
{
    let mut v = chars_of("set_bet_sizes ");
    let ghost v0 = v@;
    let side_chars = chars_of(side);
    append_chars(&mut v, side_chars.as_slice());
    v.push(',');
    append_chars(&mut v, street);
    v.push(',');
    let action_chars = chars_of(action);
    append_chars(&mut v, action_chars.as_slice());
    let ghost head = v@;
    assert(head =~= v0 + side@ + seq![','] + street@ + seq![','] + action@);
    match sizes {
        Some(csv) => {
            v.push(',');
            append_chars(&mut v, csv);
        },
        None => {},
    }
    v
}

/// Appends the six `set_bet_sizes` lines of one street.
fn push_street_lines(lines: &mut Vec<Vec<char>>, street: &str, sizes: &Vec<u32>)
    ensures
        seqs_of(final(lines)@) == seqs_of(old(lines)@) + street_lines(
            street@,
            decimal_list(sizes@),
        ),
{
    let csv_text = join_u32(sizes.as_slice());
    let csv = chars_of(csv_text.as_str());
    let st = chars_of(street);
    let ghost before = seqs_of(lines@);
    let l0 = make_bet_size_line("oop", st.as_slice(), "bet", Some(csv.as_slice()));
    let l1 = make_bet_size_line("oop", st.as_slice(), "raise", Some(csv.as_slice()));
    let l2 = make_bet_size_line("oop", st.as_slice(), "allin", None);
    let l3 = make_bet_size_line("ip", st.as_slice(), "bet", Some(csv.as_slice()));
    let l4 = make_bet_size_line("ip", st.as_slice(), "raise", Some(csv.as_slice()));
    let l5 = make_bet_size_line("ip", st.as_slice(), "allin", None);
    let ghost added = seq![l0@, l1@, l2@, l3@, l4@, l5@];
    assert(added =~= street_lines(street@, decimal_list(sizes@)));
    lines.push(l0);
    lines.push(l1);
    lines.push(l2);
    lines.push(l3);
    lines.push(l4);
    lines.push(l5);
    assert(seqs_of(lines@) =~= before + added);
}

/// The lines of the config for validated fields.
fn render_config_lines(
    pot: u32,
    effective_stack: u32,
    board_csv: &str,
    oop_range: &str,
    ip_range: &str,
    street: &str,
    iterations: u32,
    dump_path: &str,
    threads: usize,
) -> (r: Vec<Vec<char>>)
    requires
        is_street(street@),
    ensures
        seqs_of(r@) == config_lines(
            pot,
            effective_stack,
            board_csv@,
            oop_range@,
            ip_range@,
            street@,
            iterations,
            dump_path@,
            threads,
        ),
{
    let mut lines: Vec<Vec<char>> = Vec::new();
    lines.push(number_line("set_pot ", pot as u64));
    lines.push(number_line("set_effective_stack ", effective_stack as u64));
    let board_chars = chars_of(board_csv);
    lines.push(text_line("set_board ", board_chars.as_slice()));
    let ip_chars = chars_of(ip_range);
    lines.push(text_line("set_range_ip ", ip_chars.as_slice()));
    let oop_chars = chars_of(oop_range);
    lines.push(text_line("set_range_oop ", oop_chars.as_slice()));
    let ghost head = seqs_of(lines@);
    assert(head =~= seq![
        "set_pot "@ + decimal(pot as nat),
        "set_effective_stack "@ + decimal(effective_stack as nat),
        "set_board "@ + board_csv@,
        "set_range_ip "@ + ip_range@,
        "set_range_oop "@ + oop_range@,
    ]);
    let plan = streets_to_emit(street);
    let ghost pv = plan_view(plan@);
    let mut i: usize = 0;
    assert(pv.take(0) =~= Seq::<(Seq<char>, Seq<u32>)>::empty());
    assert(head + bet_lines(pv.take(0)) =~= head);
    while i < plan.len()
        invariant
            i <= plan@.len(),
            pv == plan_view(plan@),
            seqs_of(lines@) == head + bet_lines(pv.take(i as int)),
        decreases plan.len() - i,
    {
        let ghost before = seqs_of(lines@);
        push_street_lines(&mut lines, plan[i].0, &plan[i].1);
        proof {
            let t = pv.take(i as int + 1);
            assert(t.drop_last() =~= pv.take(i as int));
            assert(t.last() == (plan@[i as int].0@, plan@[i as int].1@));
            assert(seqs_of(lines@) =~= head + bet_lines(t));
        }
        i += 1;
    }
    assert(pv.take(i as int) =~= pv);
    let ghost mid = seqs_of(lines@);
    lines.push(chars_of("set_allin_threshold 0.67"));
    lines.push(chars_of("build_tree"));
    let thread_num = if threads == 0 {
        1
    } else {
        threads
    };
    lines.push(number_line("set_thread_num ", thread_num as u64));
    lines.push(chars_of("set_accuracy 0.3"));
    lines.push(number_line("set_max_iteration ", iterations as u64));
    lines.push(chars_of("set_print_interval 10"));
    lines.push(chars_of("set_use_isomorphism 1"));
    lines.push(chars_of("start_solve"));
    lines.push(chars_of("set_dump_rounds 2"));
    let dump_chars = chars_of(dump_path);
    lines.push(text_line("dump_result ", dump_chars.as_slice()));
    assert(seqs_of(lines@) =~= mid + seq![
        "set_allin_threshold 0.67"@,
        "build_tree"@,
        "set_thread_num "@ + decimal(thread_count(threads) as nat),
        "set_accuracy 0.3"@,
        "set_max_iteration "@ + decimal(iterations as nat),
        "set_print_interval 10"@,
        "set_use_isomorphism 1"@,
        "start_solve"@,
        "set_dump_rounds 2"@,
        "dump_result "@ + dump_path@,
    ]);
    lines
}

/// Produces the TexasSolver config for a fixture. `dump_path` is written
/// verbatim into the `dump_result` line; `threads` is the thread count to
/// request (zero is raised to one).
pub fn translate_to_texassolver(fixture: &JsonValue, dump_path: &str, threads: usize) -> (r:
    Result<String, TranslateError<String>>)
    ensures
        match r {
            Ok(t) => translation(*fixture, dump_path@, threads) == Ok::<
                _,
                TranslateError<Seq<char>>,
            >(t@),
            Err(e) => translation(*fixture, dump_path@, threads) == Err::<Seq<char>, _>(e@),
        },
{
    let root = match fixture.as_object() {
        Some(m) => m,
        None => {
            return Err(TranslateError::NotObject);
        },
    };
    let id = match require_str(root, "id") {
        Ok(s) => s,
        Err(e) => {
            return Err(e);
        },
    };
    let street = match require_str(root, "street") {
        Ok(s) => s,
        Err(e) => {
            return Err(e);
        },
    };
    let iterations = match require_u32(root, "iterations") {
        Ok(n) => n,
        Err(e) => {
            return Err(e);
        },
    };
    let input = match obj_get(root, "input") {
        Some(JsonValue::Object(m)) => m,
        _ => {
            return Err(TranslateError::MissingInput { id: id.to_owned() });
        },
    };
    let board = match require_str_field(input, "board", "input") {
        Ok(s) => s,
        Err(e) => {
            return Err(e);
        },
    };
    let hero_range = match require_str_field(input, "hero_range", "input") {
        Ok(s) => s,
        Err(e) => {
            return Err(e);
        },
    };
    let villain_range = match require_str_field(input, "villain_range", "input") {
        Ok(s) => s,
        Err(e) => {
            return Err(e);
        },
    };
    let pot = match require_u32_field(input, "pot", "input") {
        Ok(n) => n,
        Err(e) => {
            return Err(e);
        },
    };
    let effective_stack = match require_u32_field(input, "effective_stack", "input") {
        Ok(n) => n,
        Err(e) => {
            return Err(e);
        },
    };
    let to_act = match require_str_field(input, "to_act", "input") {
        Ok(s) => s,
        Err(e) => {
            return Err(e);
        },
    };
    let bet_tree_name = match require_str_field(input, "bet_tree", "input") {
        Ok(s) => s,
        Err(e) => {
            return Err(e);
        },
    };
    let ghost f = FixtureFields {
        id: id@,
        street: street@,
        iterations,
        board: board@,
        hero_range: hero_range@,
        villain_range: villain_range@,
        pot,
        effective_stack,
        to_act: to_act@,
        bet_tree: bet_tree_name@,
    };
    assert(fixture_fields(*fixture) == Ok::<_, TranslateError<Seq<char>>>(f));
    if !str_eq(bet_tree_name, "default_v0_1") {
        return Err(
            TranslateError::UnknownBetTree { id: id.to_owned(), name: bet_tree_name.to_owned() },
        );
    }
    let is_flop = str_eq(street, "flop");
    let is_turn = str_eq(street, "turn");
    let is_river = str_eq(street, "river");
    if !(is_flop || is_turn || is_river) {
        return Err(TranslateError::BadStreet { id: id.to_owned(), street: street.to_owned() });
    }
    if !(str_eq(to_act, "hero") || str_eq(to_act, "villain")) {
        return Err(TranslateError::BadToAct { id: id.to_owned(), to_act: to_act.to_owned() });
    }
    let expected: usize = if is_flop {
        6
    } else if is_turn {
        8
    } else {
        10
    };
    let length = board.as_bytes().len();
    if length != expected {
        return Err(
            TranslateError::BoardLength {
                id: id.to_owned(),
                board: board.to_owned(),
                length,
                street: street.to_owned(),
                expected,
            },
        );
    }
    let board_text = match format_board_csv(board) {
        Ok(c) => c,
        Err(e) => {
            return Err(e);
        },
    };
    let oop_range = match normalize_range_for_texassolver(hero_range) {
        Ok(x) => x,
        Err(e) => {
            return Err(
                TranslateError::Range {
                    id: id.to_owned(),
                    field: "hero_range".to_owned(),
                    error: e,
                },
            );
        },
    };
    let ip_range = match normalize_range_for_texassolver(villain_range) {
        Ok(x) => x,
        Err(e) => {
            return Err(
                TranslateError::Range {
                    id: id.to_owned(),
                    field: "villain_range".to_owned(),
                    error: e,
                },
            );
        },
    };
    let lines = render_config_lines(
        pot,
        effective_stack,
        board_text.as_str(),
        oop_range.as_str(),
        ip_range.as_str(),
        street,
        iterations,
        dump_path,
        threads,
    );
    let mut out = join_chars(&lines, '\n');
    out.push('\n');
    Ok(string_of(&out))
}

/// A translated config is newline-terminated.
pub proof fn lemma_config_ends_with_newline(fixture: JsonValue, dump_path: Seq<char>, threads: usize)
    requires
        translation(fixture, dump_path, threads) is Ok,
    ensures
        translation(fixture, dump_path, threads)->Ok_0.len() > 0,
        translation(fixture, dump_path, threads)->Ok_0.last() == '\n',
{
}

/// Two fixture readings that agree on everything but `to_act`.
pub open spec fn same_but_to_act(a: FixtureFields, b: FixtureFields) -> bool {
    &&& a.id == b.id
    &&& a.street == b.street
    &&& a.iterations == b.iterations
    &&& a.board == b.board
    &&& a.hero_range == b.hero_range
    &&& a.villain_range == b.villain_range
    &&& a.pot == b.pot
    &&& a.effective_stack == b.effective_stack
    &&& a.bet_tree == b.bet_tree
}

/// `to_act` never changes the config and never swaps seats: two fixtures
/// that differ only in who acts (`hero` or `villain`) translate alike, and
/// a successful translation always gives hero's normalized range to the
/// out-of-position player and villain's to the in-position player.
pub proof fn lemma_to_act_never_swaps_seats(
    f1: JsonValue,
    f2: JsonValue,
    dump_path: Seq<char>,
    threads: usize,
)
    requires
        fixture_fields(f1) is Ok,
        fixture_fields(f2) is Ok,
        same_but_to_act(fixture_fields(f1)->Ok_0, fixture_fields(f2)->Ok_0),
        fixture_fields(f1)->Ok_0.to_act == "hero"@ || fixture_fields(f1)->Ok_0.to_act
            == "villain"@,
        fixture_fields(f2)->Ok_0.to_act == "hero"@ || fixture_fields(f2)->Ok_0.to_act
            == "villain"@,
    ensures
        translation(f1, dump_path, threads) == translation(f2, dump_path, threads),
        translation(f1, dump_path, threads) is Ok ==> {
            let a = fixture_fields(f1)->Ok_0;
            &&& board_csv(a.board) is Ok
            &&& normalized_range(a.hero_range) is Ok
            &&& normalized_range(a.villain_range) is Ok
            &&& {
                let lines = config_lines(
                    a.pot,
                    a.effective_stack,
                    board_csv(a.board)->Ok_0,
                    normalized_range(a.hero_range)->Ok_0,
                    normalized_range(a.villain_range)->Ok_0,
                    a.street,
                    a.iterations,
                    dump_path,
                    threads,
                );
                &&& lines[3] == "set_range_ip "@ + normalized_range(a.villain_range)->Ok_0
                &&& lines[4] == "set_range_oop "@ + normalized_range(a.hero_range)->Ok_0
                &&& translation(f1, dump_path, threads)->Ok_0 == join_with(lines, '\n').push(
                    '\n',
                )
            }
        },
{
    let a = fixture_fields(f1)->Ok_0;
    let b = fixture_fields(f2)->Ok_0;
    assert(translation(f1, dump_path, threads) == translation_of(a, dump_path, threads));
    assert(translation(f2, dump_path, threads) == translation_of(b, dump_path, threads));
}

proof fn lemma_bet_lines_start_with_command(plan: Seq<(Seq<char>, Seq<u32>)>)
    ensures
        forall|i: int|
            0 <= i < bet_lines(plan).len() ==> (#[trigger] bet_lines(plan)[i]).len() > 0
                && bet_lines(plan)[i][0] == 's',
    decreases plan.len(),
{
    reveal_strlit("set_bet_sizes ");
    if plan.len() > 0 {
        lemma_bet_lines_start_with_command(plan.drop_last());
        let p = bet_lines(plan.drop_last());
        let q = street_lines(plan.last().0, decimal_list(plan.last().1));
        assert forall|i: int| 0 <= i < bet_lines(plan).len() implies (
        #[trigger] bet_lines(plan)[i]).len() > 0 && bet_lines(plan)[i][0] == 's' by {
            if i < p.len() {
                assert(bet_lines(plan)[i] == p[i]);
            } else {
                assert(bet_lines(plan)[i] == q[i - p.len()]);
            }
        }
    }
}

/// Every line a config is joined from starts with a command name (never
/// a `#` comment, which TexasSolver's line parser rejects).
pub proof fn lemma_config_lines_are_commands(
    pot: u32,
    effective_stack: u32,
    board_csv: Seq<char>,
    oop_range: Seq<char>,
    ip_range: Seq<char>,
    street: Seq<char>,
    iterations: u32,
    dump_path: Seq<char>,
    threads: usize,
)
    ensures
        forall|i: int|
            0 <= i < config_lines(
                pot,
                effective_stack,
                board_csv,
                oop_range,
                ip_range,
                street,
                iterations,
                dump_path,
                threads,
            ).len() ==> {
                let l = #[trigger] config_lines(
                    pot,
                    effective_stack,
                    board_csv,
                    oop_range,
                    ip_range,
                    street,
                    iterations,
                    dump_path,
                    threads,
                )[i];
                l.len() > 0 && l[0] != '#'
            },
{
    reveal_strlit("set_pot ");
    reveal_strlit("set_effective_stack ");
    reveal_strlit("set_board ");
    reveal_strlit("set_range_ip ");
    reveal_strlit("set_range_oop ");
    reveal_strlit("set_allin_threshold 0.67");
    reveal_strlit("build_tree");
    reveal_strlit("set_thread_num ");
    reveal_strlit("set_accuracy 0.3");
    reveal_strlit("set_max_iteration ");
    reveal_strlit("set_print_interval 10");
    reveal_strlit("set_use_isomorphism 1");
    reveal_strlit("start_solve");
    reveal_strlit("set_dump_rounds 2");
    reveal_strlit("dump_result ");
    let lines = config_lines(
        pot,
        effective_stack,
        board_csv,
        oop_range,
        ip_range,
        street,
        iterations,
        dump_path,
        threads,
    );
    let bets = bet_lines(live_streets(street));
    lemma_bet_lines_start_with_command(live_streets(street));
    assert forall|i: int| 0 <= i < lines.len() implies #[trigger] lines[i].len() > 0 && lines[i][0]
        != '#' by {
        if 5 <= i < 5 + bets.len() {
            assert(lines[i] == bets[i - 5]);
        }
    }
}

/// The `parent: ` prefix of a field error, empty at the root.
pub open spec fn parent_prefix(parent: Option<Seq<char>>) -> Seq<char> {
    match parent {
        Some(p) => p + ": "@,
        None => seq![],
    }
}

impl UnknownFormat<Seq<char>> {
    /// The message shown to the user.
    pub open spec fn message_text(self) -> Seq<char> {
        match self {
            UnknownFormat { name } => "unknown --format "@ + crate::text::debug_quoted(name) + " (supported: \"texassolver\")"@,
        }
    }
}

impl UnknownFormat<String> {
    /// The message shown to the user.
    pub fn message(&self) -> (r: String)
        ensures
            r@ == self@.message_text(),
    {
        let mut v: Vec<char> = Vec::new();
        match self {
            UnknownFormat { name } => {
                crate::text::push_text(&mut v, "unknown --format ");
                crate::text::push_debug(&mut v, name.as_str());
                crate::text::push_text(&mut v, " (supported: \"texassolver\")");
                proof {
                    assert(v@ =~= self@.message_text());
                }
            },
        }
        crate::text::string_of(&v)
    }
}

impl TranslateError<Seq<char>> {
    /// The message shown to the user.
    pub open spec fn message_text(self) -> Seq<char> {
        match self {
            TranslateError::NotObject => "fixture is not a JSON object"@,
            TranslateError::MissingString { field, parent } => crate::translate::parent_prefix(parent) + "missing or non-string field "@ + crate::text::debug_quoted(field),
            TranslateError::MissingInteger { field, parent } => crate::translate::parent_prefix(parent) + "missing or non-integer field "@ + crate::text::debug_quoted(field),
            TranslateError::IntegerTooLarge { field, parent, value } => crate::translate::parent_prefix(parent) + "field "@ + crate::text::debug_quoted(field) + " value "@ + crate::text::decimal(value as nat) + " exceeds u32"@,
            TranslateError::MissingInput { id } => "fixture "@ + crate::text::debug_quoted(id) + ": missing 'input' object"@,
            TranslateError::UnknownBetTree { id, name } => "fixture "@ + crate::text::debug_quoted(id) + ": unknown bet_tree preset "@ + crate::text::debug_quoted(name) + " (only \"default_v0_1\" is supported)"@,
            TranslateError::BadStreet { id, street } => "fixture "@ + crate::text::debug_quoted(id) + ": street "@ + crate::text::debug_quoted(street) + " must be flop/turn/river"@,
            TranslateError::BadToAct { id, to_act } => "fixture "@ + crate::text::debug_quoted(id) + ": to_act "@ + crate::text::debug_quoted(to_act) + " must be hero/villain"@,
            TranslateError::BoardLength { id, board, length, street, expected } => "fixture "@ + crate::text::debug_quoted(id) + ": board "@ + crate::text::debug_quoted(board) + " has length "@ + crate::text::decimal(length as nat) + " but street "@ + street + " requires "@ + crate::text::decimal(expected as nat),
            TranslateError::BoardText { board } => "board "@ + crate::text::debug_quoted(board) + " must be ASCII, even length"@,
            TranslateError::Range { id, field, .. } => "fixture "@ + crate::text::debug_quoted(id) + ": "@ + field,
        }
    }
}

impl TranslateError<String> {
    /// The message shown to the user.
    pub fn message(&self) -> (r: String)
        ensures
            r@ == self@.message_text(),
    {
        let mut v: Vec<char> = Vec::new();
        match self {
            TranslateError::NotObject => {
                crate::text::push_text(&mut v, "fixture is not a JSON object");
                proof {
                    assert(v@ =~= self@.message_text());
                }
            },
            TranslateError::MissingString { field, parent } => {
                match parent { Some(p) => { crate::text::push_text(&mut v, p.as_str()); crate::text::push_text(&mut v, ": "); }, None => {}, }
                crate::text::push_text(&mut v, "missing or non-string field ");
                crate::text::push_debug(&mut v, field.as_str());
                proof {
                    assert(v@ =~= self@.message_text());
                }
            },
            TranslateError::MissingInteger { field, parent } => {
                match parent { Some(p) => { crate::text::push_text(&mut v, p.as_str()); crate::text::push_text(&mut v, ": "); }, None => {}, }
                crate::text::push_text(&mut v, "missing or non-integer field ");
                crate::text::push_debug(&mut v, field.as_str());
                proof {
                    assert(v@ =~= self@.message_text());
                }
            },
            TranslateError::IntegerTooLarge { field, parent, value } => {
                match parent { Some(p) => { crate::text::push_text(&mut v, p.as_str()); crate::text::push_text(&mut v, ": "); }, None => {}, }
                crate::text::push_text(&mut v, "field ");
                crate::text::push_debug(&mut v, field.as_str());
                crate::text::push_text(&mut v, " value ");
                crate::text::push_decimal(&mut v, *value as u64);
                crate::text::push_text(&mut v, " exceeds u32");
                proof {
                    assert(v@ =~= self@.message_text());
                }
            },
            TranslateError::MissingInput { id } => {
                crate::text::push_text(&mut v, "fixture ");
                crate::text::push_debug(&mut v, id.as_str());
                crate::text::push_text(&mut v, ": missing 'input' object");
                proof {
                    assert(v@ =~= self@.message_text());
                }
            },
            TranslateError::UnknownBetTree { id, name } => {
                crate::text::push_text(&mut v, "fixture ");
                crate::text::push_debug(&mut v, id.as_str());
                crate::text::push_text(&mut v, ": unknown bet_tree preset ");
                crate::text::push_debug(&mut v, name.as_str());
                crate::text::push_text(&mut v, " (only \"default_v0_1\" is supported)");
                proof {
                    assert(v@ =~= self@.message_text());
                }
            },
            TranslateError::BadStreet { id, street } => {
                crate::text::push_text(&mut v, "fixture ");
                crate::text::push_debug(&mut v, id.as_str());
                crate::text::push_text(&mut v, ": street ");
                crate::text::push_debug(&mut v, street.as_str());
                crate::text::push_text(&mut v, " must be flop/turn/river");
                proof {
                    assert(v@ =~= self@.message_text());
                }
            },
            TranslateError::BadToAct { id, to_act } => {
                crate::text::push_text(&mut v, "fixture ");
                crate::text::push_debug(&mut v, id.as_str());
                crate::text::push_text(&mut v, ": to_act ");
                crate::text::push_debug(&mut v, to_act.as_str());
                crate::text::push_text(&mut v, " must be hero/villain");
                proof {
                    assert(v@ =~= self@.message_text());
                }
            },
            TranslateError::BoardLength { id, board, length, street, expected } => {
                crate::text::push_text(&mut v, "fixture ");
                crate::text::push_debug(&mut v, id.as_str());
                crate::text::push_text(&mut v, ": board ");
                crate::text::push_debug(&mut v, board.as_str());
                crate::text::push_text(&mut v, " has length ");
                crate::text::push_decimal(&mut v, *length as u64);
                crate::text::push_text(&mut v, " but street ");
                crate::text::push_text(&mut v, street.as_str());
                crate::text::push_text(&mut v, " requires ");
                crate::text::push_decimal(&mut v, *expected as u64);
                proof {
                    assert(v@ =~= self@.message_text());
                }
            },
            TranslateError::BoardText { board } => {
                crate::text::push_text(&mut v, "board ");
                crate::text::push_debug(&mut v, board.as_str());
                crate::text::push_text(&mut v, " must be ASCII, even length");
                proof {
                    assert(v@ =~= self@.message_text());
                }
            },
            TranslateError::Range { id, field, .. } => {
                crate::text::push_text(&mut v, "fixture ");
                crate::text::push_debug(&mut v, id.as_str());
                crate::text::push_text(&mut v, ": ");
                crate::text::push_text(&mut v, field.as_str());
                proof {
                    assert(v@ =~= self@.message_text());
                }
            },
        }
        crate::text::string_of(&v)
    }
}

} // verus!
