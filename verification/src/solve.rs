//! Inputs of the `solve` command: the solver selection, the raw
//! arguments, and specific-combo range tokens such as `"AsKs"`.

use vstd::prelude::*;
use vstd::utf8::{encode_utf8, is_char_boundary};
use crate::cards::Card;
use crate::cache::chunk_card;
use crate::json::str_eq;
use crate::text::{
    decimal, push_decimal, chars_of, string_of, trim, trim_chars, split_on, split_chars, seqs_of, rsplit_once,
    rsplit_once_chars,
};

verus! {

/// Version string reported with every solve.
pub const SOLVER_VERSION: &'static str = "0.1.0-wip";

/// Which CFR+ implementation drives a solve.
#[derive(Debug, Clone, Copy, PartialEq, Eq, Structural)]
pub enum SolverKind {
    /// Flat regret tables with vectorized regret matching (the default).
    Flat,
    /// The map-based reference implementation.
    Classic,
}

/// A `--solver` value that names no solver. `S` is `String` at run time
/// and `Seq<char>` in contracts.
#[derive(Debug, Clone, PartialEq, Eq)]
pub struct UnknownSolver<S> {
    /// The value as given.
    pub value: S,
}

impl View for UnknownSolver<String> {
    type V = UnknownSolver<Seq<char>>;

    open spec fn view(&self) -> UnknownSolver<Seq<char>> {
        UnknownSolver { value: self.value@ }
    }
}

/// The solver a `--solver` value names: exactly `flat` or `classic`.
pub open spec fn solver_named(s: Seq<char>) -> Option<SolverKind> {
    if s == "flat"@ {
        Some(SolverKind::Flat)
    } else if s == "classic"@ {
        Some(SolverKind::Classic)
    } else {
        None
    }
}

impl SolverKind {
    /// Parses a `--solver` value.
    pub fn parse(s: &str) -> (r: Result<SolverKind, UnknownSolver<String>>)
        ensures
            match r {
                Ok(k) => solver_named(s@) == Some(k),
                Err(e) => solver_named(s@) is None && e@.value == s@,
            },
    {
        if str_eq(s, "flat") {
            Ok(SolverKind::Flat)
        } else if str_eq(s, "classic") {
            Ok(SolverKind::Classic)
        } else {
            Err(UnknownSolver { value: s.to_owned() })
        }
    }
}

/// Arguments of the `solve` command, as typed.
#[derive(Debug)]
pub struct SolveArgs {
    /// Board string (echoed back in the output).
    pub board_raw: String,
    /// Hero range string.
    pub hero_range_raw: String,
    /// Villain range string.
    pub villain_range_raw: String,
    /// Pot in chips.
    pub pot: u32,
    /// Effective stack in chips.
    pub stack: u32,
    /// CFR iteration count.
    pub iterations: u32,
    /// Bet-tree profile name (`default`).
    pub bet_tree: String,
    /// Solver implementation.
    pub solver: SolverKind,
}

/// The two cards of a four-byte specific-combo token such as `"AsKs"`.
pub open spec fn specific_combo(body: Seq<char>) -> Option<(Card, Card)> {
    let b = encode_utf8(body);
    if b.len() != 4 {
        None
    } else {
        match (chunk_card(b, 0), chunk_card(b, 1)) {
            (Some(x), Some(y)) => Some((x, y)),
            _ => None,
        }
    }
}

/// Reads a four-byte token `<rank><suit><rank><suit>` as two cards.
pub fn try_parse_specific_combo(body: &str) -> (r: Option<(Card, Card)>)
    requires
        encode_utf8(body@).len() == 4 ==> is_char_boundary(encode_utf8(body@), 2),
    ensures
        r == specific_combo(body@),
{
    let b = body.as_bytes();
    if b.len() != 4 {
        return None;
    }
    let x = match crate::cache::byte_pair_card(b[0], b[1]) {
        Some(c) => c,
        None => {
            return None;
        },
    };
    let y = match crate::cache::byte_pair_card(b[2], b[3]) {
        Some(c) => c,
        None => {
            return None;
        },
    };
    Some((x, y))
}

/// How the `solve` command reads one token of a range string.
/// `S` is `String` at run time and `Seq<char>` in contracts.
#[derive(Debug, Clone, PartialEq, Eq)]
pub enum RangeToken<S> {
    /// A specific two-card combination such as `AsKs`, with the text of
    /// its `:weight` suffix (trimmed) when it has one.
    Combo { token: S, first: Card, second: Card, weight: Option<S> },
    /// A specific combination that names the same card twice.
    SameCard { token: S, weight: Option<S> },
    /// Any other token; it goes whole (suffix included) to the general
    /// range parser.
    Broad { token: S },
}

/// The characters of an optional string.
pub open spec fn opt_view(o: Option<String>) -> Option<Seq<char>> {
    match o {
        Some(w) => Some(w@),
        None => None,
    }
}

impl View for RangeToken<String> {
    type V = RangeToken<Seq<char>>;

    open spec fn view(&self) -> RangeToken<Seq<char>> {
        match self {
            RangeToken::Combo { token, first, second, weight } => RangeToken::Combo {
                token: token@,
                first: *first,
                second: *second,
                weight: opt_view(*weight),
            },
            RangeToken::SameCard { token, weight } => RangeToken::SameCard {
                token: token@,
                weight: opt_view(*weight),
            },
            RangeToken::Broad { token } => RangeToken::Broad { token: token@ },
        }
    }
}

/// The trimmed pieces that are not empty, in order.
pub open spec fn nonempty_trimmed(pieces: Seq<Seq<char>>) -> Seq<Seq<char>>
    decreases pieces.len(),
{
    if pieces.len() == 0 {
        seq![]
    } else {
        let rest = nonempty_trimmed(pieces.drop_last());
        let t = trim(pieces.last());
        if t.len() == 0 {
            rest
        } else {
            rest.push(t)
        }
    }
}

/// The tokens of a range string: its comma-separated pieces, trimmed,
/// empty ones dropped.
pub open spec fn range_token_texts(s: Seq<char>) -> Seq<Seq<char>> {
    nonempty_trimmed(split_on(s, ','))
}

/// The combination body of a token and its weight text: when the part
/// before the last `:` is (once trimmed) a specific combination, that part
/// and the trimmed text after the `:`; otherwise the whole token, with no
/// weight.
pub open spec fn combo_body(t: Seq<char>) -> (Seq<char>, Option<Seq<char>>) {
    match rsplit_once(t, ':') {
        Some((b, w)) => if specific_combo(trim(b)) is Some {
            (trim(b), Some(trim(w)))
        } else {
            (t, None)
        },
        None => (t, None),
    }
}

/// How a token is read.
pub open spec fn token_kind(t: Seq<char>) -> RangeToken<Seq<char>> {
    let (body, weight) = combo_body(t);
    match specific_combo(body) {
        Some((x, y)) => if x == y {
            RangeToken::SameCard { token: t, weight }
        } else {
            RangeToken::Combo { token: t, first: x, second: y, weight }
        },
        None => RangeToken::Broad { token: t },
    }
}

/// How each token of a range string is read, in order.
pub open spec fn range_tokens_of(s: Seq<char>) -> Seq<RangeToken<Seq<char>>> {
    range_token_texts(s).map_values(|t: Seq<char>| token_kind(t))
}

/// A string of four bytes can be cut after its second byte.
pub open spec fn combo_cuttable(x: Seq<char>) -> bool {
    encode_utf8(x).len() == 4 ==> is_char_boundary(encode_utf8(x), 2)
}

/// Every string that a token is tried as a combination in can be cut:
/// the token itself and the trimmed part before its last `:`.
pub open spec fn token_cuttable(t: Seq<char>) -> bool {
    &&& combo_cuttable(t)
    &&& (rsplit_once(t, ':') matches Some((b, w)) ==> combo_cuttable(trim(b)))
}

/// Every token of the range string can be read without cutting a
/// character in two.
pub open spec fn range_tokens_cuttable(s: Seq<char>) -> bool {
    forall|i: int|
        0 <= i < range_token_texts(s).len() ==> token_cuttable(#[trigger] range_token_texts(s)[i])
}

proof fn lemma_nonempty_trimmed_prefix(p: Seq<Seq<char>>, i: int)
    requires
        0 <= i <= p.len(),
    ensures
        nonempty_trimmed(p.take(i)).len() <= nonempty_trimmed(p).len(),
        forall|k: int|
            0 <= k < nonempty_trimmed(p.take(i)).len() ==> #[trigger] nonempty_trimmed(p.take(i))[k]
                == nonempty_trimmed(p)[k],
    decreases p.len(),
{
    if i == p.len() {
        assert(p.take(i) =~= p);
    } else {
        let q = p.drop_last();
        assert(q.take(i) =~= p.take(i));
        lemma_nonempty_trimmed_prefix(q, i);
    }
}

/// The string view of a character vector, as a token the combination
/// parser may cut.
fn whole_token(t: String) -> (r: RangeToken<String>)
    requires
        combo_cuttable(t@),
    ensures
        r@ == (match specific_combo(t@) {
            Some((x, y)) => if x == y {
                RangeToken::SameCard { token: t@, weight: None }
            } else {
                RangeToken::Combo { token: t@, first: x, second: y, weight: None }
            },
            None => RangeToken::Broad { token: t@ },
        }),
{
    match try_parse_specific_combo(t.as_str()) {
        Some((x, y)) => if x == y {
            RangeToken::SameCard { token: t, weight: None }
        } else {
            RangeToken::Combo { token: t, first: x, second: y, weight: None }
        },
        None => RangeToken::Broad { token: t },
    }
}

/// How one trimmed, non-empty token is read.
fn classify_range_token(t: &Vec<char>) -> (r: RangeToken<String>)
    requires
        token_cuttable(t@),
    ensures
        r@ == token_kind(t@),
{
    let ts = string_of(t);
    match rsplit_once_chars(t.as_slice(), ':') {
        Some((b, w)) => {
            let bt = trim_chars(b.as_slice());
            let bs = string_of(&bt);
            match try_parse_specific_combo(bs.as_str()) {
                Some((x, y)) => {
                    let wt = trim_chars(w.as_slice());
                    let weight = Some(string_of(&wt));
                    if x == y {
                        RangeToken::SameCard { token: ts, weight }
                    } else {
                        RangeToken::Combo { token: ts, first: x, second: y, weight }
                    }
                },
                None => whole_token(ts),
            }
        },
        None => whole_token(ts),
    }
}

/// Reads a range string token by token, as the `solve` command does
/// before handing broad tokens to the range parser: split on `,`, trim,
/// skip empty tokens, and recognize specific combinations (with an
/// optional `:weight`).
pub fn range_tokens(s: &str) -> (r: Vec<RangeToken<String>>)
    requires
        range_tokens_cuttable(s@),
    ensures
        r@.map_values(|t: RangeToken<String>| t@) == range_tokens_of(s@),
{
    let chars = chars_of(s);
    let pieces = split_chars(chars.as_slice(), ',');
    let ghost p = seqs_of(pieces@);
    let mut out: Vec<RangeToken<String>> = Vec::new();
    let mut i: usize = 0;
    while i < pieces.len()
        invariant
            i <= pieces@.len(),
            p == seqs_of(pieces@),
            p == split_on(s@, ','),
            range_tokens_cuttable(s@),
            out@.map_values(|t: RangeToken<String>| t@) == nonempty_trimmed(p.take(i as int)).map_values(
                |t: Seq<char>| token_kind(t),
            ),
        decreases pieces.len() - i,
    {
        let ghost before = out@.map_values(|t: RangeToken<String>| t@);
        let ghost texts = nonempty_trimmed(p.take(i as int));
        proof {
            let q = p.take(i as int + 1);
            assert(q.drop_last() =~= p.take(i as int));
            assert(q.last() == pieces@[i as int]@);
        }
        let t = trim_chars(pieces[i].as_slice());
        if t.len() > 0 {
            proof {
                lemma_nonempty_trimmed_prefix(p, i as int + 1);
                let n = texts.len();
                assert(nonempty_trimmed(p.take(i as int + 1)) == texts.push(t@));
                assert(nonempty_trimmed(p.take(i as int + 1))[n as int] == t@);
                assert(token_cuttable(range_token_texts(s@)[n as int]));
            }
            let k = classify_range_token(&t);
            let ghost prev = out@;
            out.push(k);
            proof {
                assert(out@.map_values(|t: RangeToken<String>| t@) =~= prev.map_values(
                    |t: RangeToken<String>| t@,
                ).push(k@));
                assert(texts.push(t@).map_values(|t: Seq<char>| token_kind(t)) =~= texts.map_values(
                    |t: Seq<char>| token_kind(t),
                ).push(token_kind(t@)));
            }
        } else {
            assert(nonempty_trimmed(p.take(i as int + 1)) == texts);
        }
        i += 1;
    }
    assert(p.take(i as int) =~= p);
    out
}

/// Whether a four-byte string can be cut after its second byte.
fn cuttable(s: &str) -> (b: bool)
    ensures
        b == combo_cuttable(s@),
{
    s.as_bytes().len() != 4 || s.is_char_boundary(2)
}

/// Whether a token can be read without cutting a character in two.
fn token_is_cuttable(t: &Vec<char>) -> (b: bool)
    ensures
        b == token_cuttable(t@),
{
    let ts = string_of(t);
    if !cuttable(ts.as_str()) {
        return false;
    }
    match rsplit_once_chars(t.as_slice(), ':') {
        Some((b, _w)) => {
            let bt = trim_chars(b.as_slice());
            let bs = string_of(&bt);
            cuttable(bs.as_str())
        },
        None => true,
    }
}

/// Whether [`range_tokens`] can read the string: no token asks for a cut
/// inside a character.
pub fn range_tokens_readable(s: &str) -> (b: bool)
    ensures
        b == range_tokens_cuttable(s@),
{
    let chars = chars_of(s);
    let pieces = split_chars(chars.as_slice(), ',');
    let ghost p = seqs_of(pieces@);
    let mut i: usize = 0;
    while i < pieces.len()
        invariant
            i <= pieces@.len(),
            p == seqs_of(pieces@),
            p == split_on(s@, ','),
            forall|k: int|
                0 <= k < nonempty_trimmed(p.take(i as int)).len() ==> token_cuttable(
                    #[trigger] nonempty_trimmed(p.take(i as int))[k],
                ),
        decreases pieces.len() - i,
    {
        let ghost texts = nonempty_trimmed(p.take(i as int));
        proof {
            let q = p.take(i as int + 1);
            assert(q.drop_last() =~= p.take(i as int));
            assert(q.last() == pieces@[i as int]@);
        }
        let t = trim_chars(pieces[i].as_slice());
        if t.len() > 0 {
            if !token_is_cuttable(&t) {
                proof {
                    lemma_nonempty_trimmed_prefix(p, i as int + 1);
                    let n = texts.len();
                    assert(nonempty_trimmed(p.take(i as int + 1)) == texts.push(t@));
                    assert(nonempty_trimmed(p.take(i as int + 1))[n as int] == t@);
                    assert(range_token_texts(s@)[n as int] == t@);
                }
                return false;
            }
            assert(nonempty_trimmed(p.take(i as int + 1)) == texts.push(t@));
        } else {
            assert(nonempty_trimmed(p.take(i as int + 1)) == texts);
        }
        i += 1;
    }
    assert(p.take(i as int) =~= p);
    true
}

/// Why the numeric and profile settings of a solve are refused. `S` is
/// `String` at run time and `Seq<char>` in contracts.
#[derive(Debug, Clone, PartialEq, Eq)]
pub enum SolveSettingsError<S> {
    /// The bet-tree profile is not `default`.
    UnknownBetTree { name: S },
    /// Zero CFR iterations were asked for.
    ZeroIterations,
    /// The pot is zero.
    ZeroPot,
}

impl View for SolveSettingsError<String> {
    type V = SolveSettingsError<Seq<char>>;

    open spec fn view(&self) -> SolveSettingsError<Seq<char>> {
        match self {
            SolveSettingsError::UnknownBetTree { name } => SolveSettingsError::UnknownBetTree {
                name: name@,
            },
            SolveSettingsError::ZeroIterations => SolveSettingsError::ZeroIterations,
            SolveSettingsError::ZeroPot => SolveSettingsError::ZeroPot,
        }
    }
}

/// The check of a solve's settings, in order: the bet-tree profile must
/// be `default`, the iteration count and the pot positive. A zero stack
/// is accepted (both players are already all in).
pub open spec fn settings_check(bet_tree: Seq<char>, iterations: u32, pot: u32) -> Result<
    (),
    SolveSettingsError<Seq<char>>,
> {
    if bet_tree != "default"@ {
        Err(SolveSettingsError::UnknownBetTree { name: bet_tree })
    } else if iterations == 0 {
        Err(SolveSettingsError::ZeroIterations)
    } else if pot == 0 {
        Err(SolveSettingsError::ZeroPot)
    } else {
        Ok(())
    }
}

/// Checks the bet-tree profile, iteration count and pot of a solve.
pub fn check_solve_settings(bet_tree: &str, iterations: u32, pot: u32) -> (r: Result<
    (),
    SolveSettingsError<String>,
>)
    ensures
        match r {
            Ok(()) => settings_check(bet_tree@, iterations, pot) == Ok::<(), SolveSettingsError<Seq<char>>>(()),
            Err(e) => settings_check(bet_tree@, iterations, pot) == Err::<(), _>(e@),
        },
{
    if !str_eq(bet_tree, "default") {
        return Err(SolveSettingsError::UnknownBetTree { name: bet_tree.to_owned() });
    }
    if iterations == 0 {
        return Err(SolveSettingsError::ZeroIterations);
    }
    if pot == 0 {
        return Err(SolveSettingsError::ZeroPot);
    }
    Ok(())
}

/// A board that is not a river: only five-card boards are solved.
#[derive(Debug, Clone, Copy, PartialEq, Eq, Structural)]
pub struct NotRiver {
    /// How many board cards were given.
    pub cards: u8,
}

/// Only river subgames are solved: the board must hold five cards.
pub fn require_river(board_cards: u8) -> (r: Result<(), NotRiver>)
    ensures
        r == (if board_cards == 5 {
            Ok::<(), NotRiver>(())
        } else {
            Err(NotRiver { cards: board_cards })
        }),
{
    if board_cards == 5 {
        Ok(())
    } else {
        Err(NotRiver { cards: board_cards })
    }
}

/// An action at the root of a solved subgame, with bet and raise sizes in
/// chips.
#[derive(Debug, Clone, Copy, PartialEq, Eq, Structural)]
pub enum SolverAction {
    /// Give up the pot.
    Fold,
    /// Pass without betting.
    Check,
    /// Match the outstanding bet.
    Call,
    /// Open the betting with this many chips.
    Bet(u32),
    /// Raise to this many chips.
    Raise(u32),
    /// Put the whole stack in.
    AllIn,
}

/// The label of an action in the solve output: `fold`, `check`, `call`,
/// `bet_<chips>`, `raise_<chips>` or `allin`.
pub open spec fn action_label_of(a: SolverAction) -> Seq<char> {
    match a {
        SolverAction::Fold => "fold"@,
        SolverAction::Check => "check"@,
        SolverAction::Call => "call"@,
        SolverAction::Bet(n) => "bet_"@ + decimal(n as nat),
        SolverAction::Raise(n) => "raise_"@ + decimal(n as nat),
        SolverAction::AllIn => "allin"@,
    }
}

/// The label of a root action, usable as a JSON key.
pub fn action_label(a: SolverAction) -> (r: String)
    ensures
        r@ == action_label_of(a),
{
    match a {
        SolverAction::Fold => "fold".to_owned(),
        SolverAction::Check => "check".to_owned(),
        SolverAction::Call => "call".to_owned(),
        SolverAction::Bet(n) => {
            let mut v = chars_of("bet_");
            push_decimal(&mut v, n as u64);
            string_of(&v)
        },
        SolverAction::Raise(n) => {
            let mut v = chars_of("raise_");
            push_decimal(&mut v, n as u64);
            string_of(&v)
        },
        SolverAction::AllIn => "allin".to_owned(),
    }
}

impl UnknownSolver<Seq<char>> {
    /// The message shown to the user.
    pub open spec fn message_text(self) -> Seq<char> {
        match self {
            UnknownSolver { value } => "unknown --solver value "@ + crate::text::debug_quoted(value) + " (known: \"flat\", \"classic\")"@,
        }
    }
}

impl UnknownSolver<String> {
    /// The message shown to the user.
    pub fn message(&self) -> (r: String)
        ensures
            r@ == self@.message_text(),
    {
        let mut v: Vec<char> = Vec::new();
        match self {
            UnknownSolver { value } => {
                crate::text::push_text(&mut v, "unknown --solver value ");
                crate::text::push_debug(&mut v, value.as_str());
                crate::text::push_text(&mut v, " (known: \"flat\", \"classic\")");
                proof {
                    assert(v@ =~= self@.message_text());
                }
            },
        }
        crate::text::string_of(&v)
    }
}

impl SolveSettingsError<Seq<char>> {
    /// The message shown to the user.
    pub open spec fn message_text(self) -> Seq<char> {
        match self {
            SolveSettingsError::UnknownBetTree { name } => "unknown bet-tree profile: "@ + crate::text::debug_quoted(name) + " (known: \"default\")"@,
            SolveSettingsError::ZeroIterations => "--iterations must be > 0"@,
            SolveSettingsError::ZeroPot => "--pot must be > 0"@,
        }
    }
}

impl SolveSettingsError<String> {
    /// The message shown to the user.
    pub fn message(&self) -> (r: String)
        ensures
            r@ == self@.message_text(),
    {
        let mut v: Vec<char> = Vec::new();
        match self {
            SolveSettingsError::UnknownBetTree { name } => {
                crate::text::push_text(&mut v, "unknown bet-tree profile: ");
                crate::text::push_debug(&mut v, name.as_str());
                crate::text::push_text(&mut v, " (known: \"default\")");
                proof {
                    assert(v@ =~= self@.message_text());
                }
            },
            SolveSettingsError::ZeroIterations => {
                crate::text::push_text(&mut v, "--iterations must be > 0");
                proof {
                    assert(v@ =~= self@.message_text());
                }
            },
            SolveSettingsError::ZeroPot => {
                crate::text::push_text(&mut v, "--pot must be > 0");
                proof {
                    assert(v@ =~= self@.message_text());
                }
            },
        }
        crate::text::string_of(&v)
    }
}

impl NotRiver {
    /// The message shown to the user.
    pub open spec fn message_text(self) -> Seq<char> {
        match self {
            NotRiver { cards } => "v0.1 supports river-only subgames (need 5 board cards, got "@ + crate::text::decimal(cards as nat) + ")"@,
        }
    }

    /// The message shown to the user.
    pub fn message(&self) -> (r: String)
        ensures
            r@ == self.message_text(),
    {
        let mut v: Vec<char> = Vec::new();
        match self {
            NotRiver { cards } => {
                crate::text::push_text(&mut v, "v0.1 supports river-only subgames (need 5 board cards, got ");
                crate::text::push_decimal(&mut v, *cards as u64);
                crate::text::push_text(&mut v, ")");
                proof {
                    assert(v@ =~= self.message_text());
                }
            },
        }
        crate::text::string_of(&v)
    }
}

} // verus!
