//! Range-string normalization for TexasSolver's range parser, which only
//! understands tokens of two or three characters (`"AA"`, `"AKs"`).
//!
//! Compound tokens are expanded:
//!
//! | token   | expansion                                   |
//! |---------|---------------------------------------------|
//! | `RR-SS` | every pair from the lower to the higher one |
//! | `RR+`   | every pair from `RR` up to `AA`             |
//! | `RR-`   | every pair from `22` up to `RR`             |
//! | `XYs+`  | `XYs` .. `AYs`, skipping the pair slot       |
//! | `XYo+`  | `XYo` .. `AYo`, skipping the pair slot       |
//!
//! A `:weight` suffix is carried onto every expanded token, and all
//! whitespace is removed from the result. Token shapes are judged on the
//! token's UTF-8 bytes.

use vstd::prelude::*;
use vstd::utf8::{encode_utf8, encode_scalar, is_ascii_chars, is_ascii_chars_encode_utf8};
use crate::cards::{spec_rank_char, spec_rank_value, rank_char, rank_value};
use crate::text::{
    last_index_of, lemma_last_index_of, trim_start, trim_end, lemma_split_on_nonempty,
    is_ws, chars_of, string_of, trim, trim_chars, split_on, split_chars, seqs_of, rsplit_once,
    rsplit_once_chars, join_with, join_chars, remove_ws, remove_whitespace, append_chars,
    copy_range,
};

verus! {

/// Why a range string could not be normalized. `S` is `String` at run
/// time and `Seq<char>` in contracts.
#[derive(Debug, Clone, PartialEq, Eq)]
pub enum RangeError<S> {
    /// A compound token names a character that is not a rank.
    BadRank {
        /// The offending token (trimmed, weight included).
        token: S,
    },
    /// A token matches none of the known shapes.
    Unrecognized {
        /// The offending token (trimmed, weight included).
        token: S,
        /// The whole range string.
        range: S,
    },
}

impl View for RangeError<String> {
    type V = RangeError<Seq<char>>;

    open spec fn view(&self) -> RangeError<Seq<char>> {
        match self {
            RangeError::BadRank { token } => RangeError::BadRank { token: token@ },
            RangeError::Unrecognized { token, range } => RangeError::Unrecognized {
                token: token@,
                range: range@,
            },
        }
    }
}

/// `sub`, followed by `:weight` when a weight is given.
pub open spec fn with_weight(sub: Seq<char>, weight: Option<Seq<char>>) -> Seq<char> {
    match weight {
        Some(w) => sub.push(':') + w,
        None => sub,
    }
}

/// The pair token of rank `r`, e.g. `"77"`.
pub open spec fn pair_token(r: int) -> Seq<char> {
    seq![spec_rank_char(r as u8), spec_rank_char(r as u8)]
}

/// Pair tokens from rank `lo` up to rank `hi`, each weighted.
pub open spec fn pair_run(lo: int, hi: int, weight: Option<Seq<char>>) -> Seq<Seq<char>> {
    Seq::new((hi - lo + 1) as nat, |k: int| with_weight(pair_token(lo + k), weight))
}

/// Tokens `R Y suffix` for ranks `R` from `r` up to Ace, skipping `R ==
/// kicker`, each weighted.
pub open spec fn kicker_run(r: int, kicker: int, suffix: char, weight: Option<Seq<char>>) -> Seq<
    Seq<char>,
>
    decreases 13 - r,
{
    if r > 12 {
        seq![]
    } else if r == kicker {
        kicker_run(r + 1, kicker, suffix, weight)
    } else {
        seq![
            with_weight(
                seq![spec_rank_char(r as u8), spec_rank_char(kicker as u8), suffix],
                weight,
            ),
        ] + kicker_run(r + 1, kicker, suffix, weight)
    }
}

/// The body of a token and its optional weight: the parts around the last
/// `:`, each trimmed.
pub open spec fn body_and_weight(token: Seq<char>) -> (Seq<char>, Option<Seq<char>>) {
    match rsplit_once(token, ':') {
        Some((b, w)) => (trim(b), Some(trim(w))),
        None => (token, None),
    }
}

/// The expansion of one non-empty trimmed token of range string `range`.
pub open spec fn token_expansion(token: Seq<char>, range: Seq<char>) -> Result<
    Seq<Seq<char>>,
    RangeError<Seq<char>>,
> {
    let (body, weight) = body_and_weight(token);
    let b = encode_utf8(body);
    if b.len() == 5 && b[2] as char == '-' && b[0] == b[1] && b[3] == b[4] {
        let ra = spec_rank_value(b[0] as char);
        let rb = spec_rank_value(b[3] as char);
        if ra is None || rb is None {
            Err(RangeError::BadRank { token })
        } else {
            let (x, y) = (ra.unwrap() as int, rb.unwrap() as int);
            if x <= y {
                Ok(pair_run(x, y, weight))
            } else {
                Ok(pair_run(y, x, weight))
            }
        }
    } else if b.len() == 3 && b[0] == b[1] && b[2] as char == '+' {
        match spec_rank_value(b[0] as char) {
            Some(lo) => Ok(pair_run(lo as int, 12, weight)),
            None => Err(RangeError::BadRank { token }),
        }
    } else if b.len() == 3 && b[0] == b[1] && b[2] as char == '-' {
        match spec_rank_value(b[0] as char) {
            Some(hi) => Ok(pair_run(0, hi as int, weight)),
            None => Err(RangeError::BadRank { token }),
        }
    } else if b.len() == 4 && b[3] as char == '+' && (b[2] as char == 's' || b[2] as char == 'o') {
        let kicker = spec_rank_value(b[1] as char);
        let start = spec_rank_value(b[0] as char);
        if kicker is None || start is None {
            Err(RangeError::BadRank { token })
        } else {
            Ok(kicker_run(start.unwrap() as int, kicker.unwrap() as int, b[2] as char, weight))
        }
    } else if b.len() == 2 || b.len() == 3 {
        Ok(seq![with_weight(body, weight)])
    } else {
        Err(RangeError::Unrecognized { token, range })
    }
}

/// `x` ends with `:` followed by `w`.
pub open spec fn ends_with_weight(x: Seq<char>, w: Seq<char>) -> bool {
    &&& x.len() >= w.len() + 1
    &&& x.subrange(x.len() - w.len() - 1, x.len() as int) == seq![':'] + w
}

proof fn lemma_with_weight_ends(sub: Seq<char>, w: Seq<char>)
    ensures
        ends_with_weight(with_weight(sub, Some(w)), w),
{
    let x = with_weight(sub, Some(w));
    assert(x.subrange(x.len() - w.len() - 1, x.len() as int) =~= seq![':'] + w);
}

proof fn lemma_kicker_run_weighted(r: int, kicker: int, suffix: char, w: Seq<char>)
    ensures
        forall|i: int|
            0 <= i < kicker_run(r, kicker, suffix, Some(w)).len() ==> ends_with_weight(
                #[trigger] kicker_run(r, kicker, suffix, Some(w))[i],
                w,
            ),
    decreases 13 - r,
{
    if r <= 12 {
        lemma_kicker_run_weighted(r + 1, kicker, suffix, w);
        if r != kicker {
            let head = seq![spec_rank_char(r as u8), spec_rank_char(kicker as u8), suffix];
            lemma_with_weight_ends(head, w);
            let rest = kicker_run(r + 1, kicker, suffix, Some(w));
            let all = kicker_run(r, kicker, suffix, Some(w));
            assert forall|i: int| 0 <= i < all.len() implies ends_with_weight(#[trigger] all[i], w) by {
                if i > 0 {
                    assert(all[i] == rest[i - 1]);
                }
            }
        }
    }
}

/// A weight on a token reaches every token it expands to: when a token of
/// the form `body:w` expands, each resulting token ends with `:w` (the
/// weight trimmed), so no expanded hand gets another weight than the one
/// written.
pub proof fn lemma_weight_reaches_every_token(token: Seq<char>, range: Seq<char>)
    requires
        rsplit_once(token, ':') is Some,
        token_expansion(token, range) is Ok,
    ensures
        forall|i: int|
            0 <= i < token_expansion(token, range)->Ok_0.len() ==> ends_with_weight(
                #[trigger] token_expansion(token, range)->Ok_0[i],
                trim(rsplit_once(token, ':')->Some_0.1),
            ),
{
    let (body, weight) = body_and_weight(token);
    let w = trim(rsplit_once(token, ':')->Some_0.1);
    assert(weight == Some(w));
    let xs = token_expansion(token, range)->Ok_0;
    let b = encode_utf8(body);
    assert forall|lo: int, hi: int, i: int|
        0 <= i < pair_run(lo, hi, Some(w)).len() implies ends_with_weight(
        #[trigger] pair_run(lo, hi, Some(w))[i],
        w,
    ) by {
        lemma_with_weight_ends(pair_token(lo + i), w);
    }
    if b.len() == 4 && b[3] as char == '+' && (b[2] as char == 's' || b[2] as char == 'o') && !(
    b.len() == 5) {
        let kicker = spec_rank_value(b[1] as char);
        let start = spec_rank_value(b[0] as char);
        if kicker is Some && start is Some {
            lemma_kicker_run_weighted(start.unwrap() as int, kicker.unwrap() as int, b[2] as char, w);
        }
    }
    lemma_with_weight_ends(body, w);
    assert forall|i: int| 0 <= i < xs.len() implies ends_with_weight(#[trigger] xs[i], w) by {
        if b.len() == 2 || b.len() == 3 {
            if !(b.len() == 3 && b[0] == b[1] && (b[2] as char == '+' || b[2] as char == '-')) {
                assert(xs == seq![with_weight(body, weight)]);
            }
        }
    }
}

/// Expansions of the first `n` comma-separated pieces, skipping blank ones;
/// the first failing token decides the error.
pub open spec fn expand_pieces(pieces: Seq<Seq<char>>, n: int, range: Seq<char>) -> Result<
    Seq<Seq<char>>,
    RangeError<Seq<char>>,
>
    decreases n,
{
    if n <= 0 {
        Ok(seq![])
    } else {
        match expand_pieces(pieces, n - 1, range) {
            Err(e) => Err(e),
            Ok(acc) => {
                let t = trim(pieces[n - 1]);
                if t.len() == 0 {
                    Ok(acc)
                } else {
                    match token_expansion(t, range) {
                        Ok(x) => Ok(acc + x),
                        Err(e) => Err(e),
                    }
                }
            },
        }
    }
}

/// The normalized form of range string `s`: the expansions of its tokens
/// joined by commas, with all whitespace removed.
pub open spec fn normalized_range(s: Seq<char>) -> Result<Seq<char>, RangeError<Seq<char>>> {
    let pieces = split_on(s, ',');
    match expand_pieces(pieces, pieces.len() as int, s) {
        Ok(out) => Ok(remove_ws(join_with(out, ','))),
        Err(e) => Err(e),
    }
}

/// The characters of an optional character vector.
pub open spec fn opt_chars(w: Option<Vec<char>>) -> Option<Seq<char>> {
    match w {
        Some(v) => Some(v@),
        None => None,
    }
}

/// `sub` followed by `:weight` when a weight is given.
fn emit(sub: &Vec<char>, weight: &Option<Vec<char>>) -> (r: Vec<char>)
    ensures
        r@ == with_weight(sub@, opt_chars(*weight)),
{
    let mut r = copy_range(sub.as_slice(), 0, sub.len());
    assert(sub@.subrange(0, sub@.len() as int) =~= sub@);
    match weight {
        Some(w) => {
            r.push(':');
            append_chars(&mut r, w.as_slice());
        },
        None => {},
    }
    r
}

/// Appends the weighted pair tokens of ranks `lo..=hi`.
fn push_pair_run(out: &mut Vec<Vec<char>>, lo: u8, hi: u8, weight: &Option<Vec<char>>)
    requires
        lo <= hi <= 12,
    ensures
        seqs_of(final(out)@) == seqs_of(old(out)@) + pair_run(lo as int, hi as int, opt_chars(*weight)),
{
    let ghost w = opt_chars(*weight);
    let mut r: u8 = lo;
    while r <= hi
        invariant
            lo <= r <= hi + 1,
            hi <= 12,
            w == opt_chars(*weight),
            seqs_of(out@) == seqs_of(old(out)@) + pair_run(lo as int, r as int - 1, w),
        decreases hi + 1 - r,
    {
        let ch = rank_char(r);
        let pair = vec![ch, ch];
        let tok = emit(&pair, weight);
        let ghost before = out@;
        out.push(tok);
        proof {
            assert(pair@ =~= pair_token(r as int));
            assert(seqs_of(out@) =~= seqs_of(before).push(tok@));
            assert(pair_run(lo as int, r as int, w) =~= pair_run(lo as int, r as int - 1, w).push(
                with_weight(pair_token(r as int), w),
            ));
            assert(seqs_of(out@) =~= seqs_of(old(out)@) + pair_run(lo as int, r as int, w));
        }
        r += 1;
    }
}

/// Appends the weighted tokens `R kicker suffix` for ranks `R` from
/// `start` up to Ace, skipping the pair slot `R == kicker`.
fn push_kicker_run(
    out: &mut Vec<Vec<char>>,
    start: u8,
    kicker: u8,
    suffix: char,
    weight: &Option<Vec<char>>,
)
    requires
        start <= 12,
        kicker <= 12,
    ensures
        seqs_of(final(out)@) == seqs_of(old(out)@) + kicker_run(
            start as int,
            kicker as int,
            suffix,
            opt_chars(*weight),
        ),
{
    let ghost w = opt_chars(*weight);
    let kc = rank_char(kicker);
    let mut r: u8 = start;
    while r <= 12
        invariant
            start <= r <= 13,
            kicker <= 12,
            kc == spec_rank_char(kicker),
            w == opt_chars(*weight),
            seqs_of(out@) + kicker_run(r as int, kicker as int, suffix, w) == seqs_of(old(out)@)
                + kicker_run(start as int, kicker as int, suffix, w),
        decreases 13 - r,
    {
        if r != kicker {
            let first = rank_char(r);
            let three = vec![first, kc, suffix];
            let tok = emit(&three, weight);
            let ghost before = out@;
            out.push(tok);
            proof {
                let rest = kicker_run(r as int + 1, kicker as int, suffix, w);
                assert(three@ =~= seq![spec_rank_char(r), spec_rank_char(kicker), suffix]);
                assert(seqs_of(out@) =~= seqs_of(before).push(tok@));
                assert(kicker_run(r as int, kicker as int, suffix, w) == seq![tok@] + rest);
                assert(seqs_of(before) + (seq![tok@] + rest) =~= seqs_of(out@) + rest);
            }
        }
        r += 1;
    }
    assert(kicker_run(13, kicker as int, suffix, w) =~= Seq::<Seq<char>>::empty());
    assert(seqs_of(out@) + Seq::<Seq<char>>::empty() =~= seqs_of(out@));
}

/// The tokens that one non-empty trimmed token of `range` expands to.
fn expand_token(token: &Vec<char>, range: &Vec<char>) -> (r: Result<
    Vec<Vec<char>>,
    RangeError<String>,
>)
    ensures
        match r {
            Ok(v) => token_expansion(token@, range@) == Ok::<_, RangeError<Seq<char>>>(seqs_of(v@)),
            Err(e) => token_expansion(token@, range@) == Err::<Seq<Seq<char>>, _>(e@),
        },
{
    let (body, weight) = match rsplit_once_chars(token.as_slice(), ':') {
        Some((b, w)) => (trim_chars(b.as_slice()), Some(trim_chars(w.as_slice()))),
        None => {
            let whole = copy_range(token.as_slice(), 0, token.len());
            assert(token@.subrange(0, token@.len() as int) =~= token@);
            (whole, None)
        },
    };
    assert(body_and_weight(token@) == (body@, opt_chars(weight)));
    let body_text = string_of(&body);
    let bytes = body_text.as_str().as_bytes();
    let n = bytes.len();
    let mut out: Vec<Vec<char>> = Vec::new();
    proof {
        assert(seqs_of(out@) =~= Seq::<Seq<char>>::empty());
    }
    if n == 5 && bytes[2] as char == '-' && bytes[0] == bytes[1] && bytes[3] == bytes[4] {
        let a = rank_value(bytes[0] as char);
        let b = rank_value(bytes[3] as char);
        match (a, b) {
            (Some(x), Some(y)) => {
                if x <= y {
                    push_pair_run(&mut out, x, y, &weight);
                } else {
                    push_pair_run(&mut out, y, x, &weight);
                }
            },
            _ => {
                return Err(RangeError::BadRank { token: string_of(token) });
            },
        }
    } else if n == 3 && bytes[0] == bytes[1] && bytes[2] as char == '+' {
        match rank_value(bytes[0] as char) {
            Some(lo) => push_pair_run(&mut out, lo, 12, &weight),
            None => {
                return Err(RangeError::BadRank { token: string_of(token) });
            },
        }
    } else if n == 3 && bytes[0] == bytes[1] && bytes[2] as char == '-' {
        match rank_value(bytes[0] as char) {
            Some(hi) => push_pair_run(&mut out, 0, hi, &weight),
            None => {
                return Err(RangeError::BadRank { token: string_of(token) });
            },
        }
    } else if n == 4 && bytes[3] as char == '+' && (bytes[2] as char == 's' || bytes[2] as char == 'o') {
        let kicker = rank_value(bytes[1] as char);
        let start = rank_value(bytes[0] as char);
        match (kicker, start) {
            (Some(k), Some(st)) => push_kicker_run(&mut out, st, k, bytes[2] as char, &weight),
            _ => {
                return Err(RangeError::BadRank { token: string_of(token) });
            },
        }
    } else if n == 2 || n == 3 {
        let tok = emit(&body, &weight);
        out.push(tok);
        assert(seqs_of(out@) =~= seq![tok@]);
    } else {
        return Err(RangeError::Unrecognized { token: string_of(token), range: string_of(range) });
    }
    Ok(out)
}

/// Once the expansion of a prefix of the pieces fails, every longer
/// prefix fails with the same error.
proof fn lemma_expand_pieces_err(pieces: Seq<Seq<char>>, m: int, n: int, range: Seq<char>)
    requires
        0 <= m <= n,
        expand_pieces(pieces, m, range) is Err,
    ensures
        expand_pieces(pieces, n, range) == expand_pieces(pieces, m, range),
    decreases n - m,
{
    if n > m {
        lemma_expand_pieces_err(pieces, m, n - 1, range);
    }
}

/// Rewrites a range string into the form TexasSolver's range parser
/// accepts: compound tokens expanded, weights carried onto every expanded
/// token, blank pieces dropped, all whitespace removed.
pub fn normalize_range_for_texassolver(s: &str) -> (r: Result<String, RangeError<String>>)
    ensures
        match r {
            Ok(t) => normalized_range(s@) == Ok::<_, RangeError<Seq<char>>>(t@),
            Err(e) => normalized_range(s@) == Err::<Seq<char>, _>(e@),
        },
{
    let chars = chars_of(s);
    let pieces = split_chars(chars.as_slice(), ',');
    let ghost ps = seqs_of(pieces@);
    let mut out: Vec<Vec<char>> = Vec::new();
    let mut i: usize = 0;
    assert(seqs_of(out@) =~= Seq::<Seq<char>>::empty());
    while i < pieces.len()
        invariant
            i <= pieces@.len(),
            ps == seqs_of(pieces@),
            ps == split_on(s@, ','),
            chars@ == s@,
            expand_pieces(ps, i as int, s@) == Ok::<_, RangeError<Seq<char>>>(seqs_of(out@)),
        decreases pieces.len() - i,
    {
        let t = trim_chars(pieces[i].as_slice());
        assert(t@ == trim(ps[i as int]));
        if t.len() > 0 {
            match expand_token(&t, &chars) {
                Ok(mut v) => {
                    let ghost before = out@;
                    let ghost added = v@;
                    out.append(&mut v);
                    assert(seqs_of(out@) =~= seqs_of(before) + seqs_of(added));
                },
                Err(e) => {
                    proof {
                        lemma_expand_pieces_err(ps, i as int + 1, ps.len() as int, s@);
                    }
                    return Err(e);
                },
            }
        }
        i += 1;
    }
    let joined = join_chars(&out, ',');
    let stripped = remove_whitespace(joined.as_slice());
    Ok(string_of(&stripped))
}

/// `s` with every whitespace character removed.
pub fn strip_whitespace(s: &str) -> (r: String)
    ensures
        r@ == remove_ws(s@),
{
    let chars = chars_of(s);
    let stripped = remove_whitespace(chars.as_slice());
    string_of(&stripped)
}

proof fn lemma_remove_ws_has_no_ws(s: Seq<char>)
    ensures
        forall|i: int| 0 <= i < remove_ws(s).len() ==> !is_ws(#[trigger] remove_ws(s)[i]),
    decreases s.len(),
{
    if s.len() > 0 {
        let p = remove_ws(s.drop_last());
        lemma_remove_ws_has_no_ws(s.drop_last());
        if !is_ws(s.last()) {
            assert forall|i: int| 0 <= i < remove_ws(s).len() implies !is_ws(
                #[trigger] remove_ws(s)[i],
            ) by {
                if i < p.len() {
                    assert(remove_ws(s)[i] == p[i]);
                }
            }
        }
    }
}

/// A normalized range string contains no whitespace, so it fits
/// TexasSolver's two-token command lines.
pub proof fn lemma_normalized_has_no_whitespace(s: Seq<char>)
    requires
        normalized_range(s) is Ok,
    ensures
        forall|i: int|
            0 <= i < normalized_range(s)->Ok_0.len() ==> !is_ws(
                #[trigger] normalized_range(s)->Ok_0[i],
            ),
{
    let pieces = split_on(s, ',');
    let out = expand_pieces(pieces, pieces.len() as int, s)->Ok_0;
    lemma_remove_ws_has_no_ws(join_with(out, ','));
}

// ---------------------------------------------------------------------------
// Every piece of a normalized range is a token TexasSolver can read
// ---------------------------------------------------------------------------

/// The part of a normalized piece that TexasSolver's range parser
/// measures: everything before its last `:` (the whole piece without one).
pub open spec fn piece_body(p: Seq<char>) -> Seq<char> {
    match rsplit_once(p, ':') {
        Some((b, _w)) => b,
        None => p,
    }
}

/// A piece TexasSolver's range parser accepts: no comma, and a body of two
/// or three bytes.
pub open spec fn solver_piece(p: Seq<char>) -> bool {
    &&& !p.contains(',')
    &&& 2 <= encode_utf8(piece_body(p)).len() <= 3
}

proof fn lemma_remove_ws_concat(a: Seq<char>, b: Seq<char>)
    ensures
        remove_ws(a + b) == remove_ws(a) + remove_ws(b),
    decreases b.len(),
{
    if b.len() == 0 {
        assert(a + b =~= a);
        assert(remove_ws(a) + remove_ws(b) =~= remove_ws(a));
    } else {
        lemma_remove_ws_concat(a, b.drop_last());
        assert((a + b).drop_last() =~= a + b.drop_last());
        assert((a + b).last() == b.last());
        if !is_ws(b.last()) {
            assert(remove_ws(a) + remove_ws(b) =~= (remove_ws(a) + remove_ws(b.drop_last())).push(
                b.last(),
            ));
        }
    }
}

proof fn lemma_remove_ws_subset(x: Seq<char>)
    ensures
        forall|i: int| 0 <= i < remove_ws(x).len() ==> x.contains(#[trigger] remove_ws(x)[i]),
    decreases x.len(),
{
    if x.len() > 0 {
        let p = x.drop_last();
        lemma_remove_ws_subset(p);
        assert forall|i: int| 0 <= i < remove_ws(x).len() implies x.contains(
            #[trigger] remove_ws(x)[i],
        ) by {
            if i < remove_ws(p).len() {
                assert(remove_ws(x)[i] == remove_ws(p)[i]);
                let k = choose|k: int| 0 <= k < p.len() && p[k] == remove_ws(p)[i];
                assert(x[k] == p[k]);
            } else {
                assert(remove_ws(x)[i] == x.last());
                assert(x[x.len() - 1] == x.last());
            }
        }
    }
}

proof fn lemma_remove_ws_keeps(x: Seq<char>)
    requires
        forall|i: int| 0 <= i < x.len() ==> !is_ws(#[trigger] x[i]),
    ensures
        remove_ws(x) == x,
    decreases x.len(),
{
    if x.len() > 0 {
        let p = x.drop_last();
        assert forall|i: int| 0 <= i < p.len() implies !is_ws(#[trigger] p[i]) by {
            assert(p[i] == x[i]);
        }
        lemma_remove_ws_keeps(p);
        assert(!is_ws(x[x.len() - 1]));
        assert(p.push(x.last()) =~= x);
    }
}

proof fn lemma_split_on_no_sep(y: Seq<char>, sep: char)
    requires
        !y.contains(sep),
    ensures
        split_on(y, sep) == seq![y],
    decreases y.len(),
{
    if y.len() > 0 {
        let p = y.drop_last();
        assert(!p.contains(sep)) by {
            if p.contains(sep) {
                let k = choose|k: int| 0 <= k < p.len() && p[k] == sep;
                assert(y[k] == sep);
            }
        }
        lemma_split_on_no_sep(p, sep);
        assert(y.last() != sep) by {
            assert(y[y.len() - 1] == y.last());
        }
        assert(p.push(y.last()) =~= y);
        assert(seq![p].update(0, p.push(y.last())) =~= seq![y]);
    } else {
        assert(y =~= Seq::<char>::empty());
    }
}

proof fn lemma_split_on_append(x: Seq<char>, y: Seq<char>, sep: char)
    requires
        !y.contains(sep),
    ensures
        split_on(x.push(sep) + y, sep) == split_on(x, sep).push(y),
    decreases y.len(),
{
    let z = x.push(sep) + y;
    if y.len() == 0 {
        assert(z =~= x.push(sep));
        assert(z.drop_last() =~= x);
        assert(z.last() == sep);
        assert(y =~= Seq::<char>::empty());
        assert(split_on(z, sep) == split_on(x, sep).push(seq![]));
    } else {
        let q = y.drop_last();
        assert(!q.contains(sep)) by {
            if q.contains(sep) {
                let k = choose|k: int| 0 <= k < q.len() && q[k] == sep;
                assert(y[k] == sep);
            }
        }
        lemma_split_on_append(x, q, sep);
        assert(z.drop_last() =~= x.push(sep) + q);
        assert(z.last() == y.last());
        assert(y.last() != sep) by {
            assert(y[y.len() - 1] == y.last());
        }
        let p = split_on(x, sep).push(q);
        assert(split_on(z.drop_last(), sep) == p);
        assert(split_on(z, sep) == p.update(p.len() - 1, p.last().push(y.last())));
        assert(p.update(p.len() - 1, p.last().push(y.last())) =~= split_on(x, sep).push(y)) by {
            assert(q.push(y.last()) =~= y);
        }
    }
}

proof fn lemma_split_on_pieces_no_sep(s: Seq<char>, sep: char)
    ensures
        forall|k: int|
            0 <= k < split_on(s, sep).len() ==> !(#[trigger] split_on(s, sep)[k]).contains(sep),
    decreases s.len(),
{
    if s.len() > 0 {
        let p = split_on(s.drop_last(), sep);
        lemma_split_on_pieces_no_sep(s.drop_last(), sep);
        lemma_split_on_nonempty(s.drop_last(), sep);
        let q = split_on(s, sep);
        assert forall|k: int| 0 <= k < q.len() implies !(#[trigger] q[k]).contains(sep) by {
            if s.last() == sep {
                if k < p.len() {
                    assert(q[k] == p[k]);
                } else {
                    assert(q[k] =~= Seq::<char>::empty());
                }
            } else {
                if k < p.len() - 1 {
                    assert(q[k] == p[k]);
                } else {
                    let l = p.last();
                    assert(q[k] == l.push(s.last()));
                    assert(!l.contains(sep)) by {
                        assert(l == p[p.len() - 1]);
                    }
                    if q[k].contains(sep) {
                        let j = choose|j: int| 0 <= j < q[k].len() && q[k][j] == sep;
                        if j < l.len() {
                            assert(l[j] == sep);
                        }
                    }
                }
            }
        }
    }
}

proof fn lemma_last_index_found(t: Seq<char>, sep: char)
    ensures
        match last_index_of(t, sep) {
            Some(i) => 0 <= i < t.len() && t[i] == sep && forall|k: int|
                i < k < t.len() ==> #[trigger] t[k] != sep,
            None => !t.contains(sep),
        },
    decreases t.len(),
{
    if t.len() > 0 {
        let p = t.drop_last();
        lemma_last_index_found(p, sep);
        if t.last() != sep {
            match last_index_of(p, sep) {
                Some(i) => {
                    assert forall|k: int| i < k < t.len() implies #[trigger] t[k] != sep by {
                        if k < p.len() {
                            assert(t[k] == p[k]);
                        } else {
                            assert(t[k] == t.last());
                        }
                    }
                },
                None => {
                    if t.contains(sep) {
                        let k = choose|k: int| 0 <= k < t.len() && t[k] == sep;
                        if k < p.len() {
                            assert(p[k] == sep);
                        } else {
                            assert(t[k] == t.last());
                        }
                    }
                },
            }
        } else {
            assert(t[t.len() - 1] == t.last());
        }
    }
}

proof fn lemma_rsplit_after_sep(x: Seq<char>, y: Seq<char>, sep: char)
    requires
        !y.contains(sep),
    ensures
        rsplit_once(x.push(sep) + y, sep) == Some((x, y)),
{
    let z = x.push(sep) + y;
    let j: int = x.len() as int + 1;
    assert forall|k: int| j <= k < z.len() implies #[trigger] z[k] != sep by {
        assert(z[k] == y[k - j]);
    }
    lemma_last_index_of(z, sep, j);
    assert(z.subrange(0, j) =~= x.push(sep));
    assert(last_index_of(x.push(sep), sep) == Some(x.len() as int));
    assert(z.subrange(0, x.len() as int) =~= x);
    assert(z.subrange(j, z.len() as int) =~= y);
}

proof fn lemma_trim_end_prefix(x: Seq<char>)
    ensures
        trim_end(x) == x.subrange(0, trim_end(x).len() as int),
        trim_end(x).len() <= x.len(),
        trim_end(x).len() > 0 ==> !is_ws(trim_end(x).last()),
    decreases x.len(),
{
    if x.len() > 0 && is_ws(x.last()) {
        lemma_trim_end_prefix(x.drop_last());
        let t = trim_end(x.drop_last());
        assert(x.drop_last().subrange(0, t.len() as int) =~= x.subrange(0, t.len() as int));
    } else if x.len() > 0 {
        assert(x.subrange(0, x.len() as int) =~= x);
    } else {
        assert(x.subrange(0, 0) =~= x);
    }
}

proof fn lemma_trim_start_suffix(x: Seq<char>)
    ensures
        trim_start(x) == x.subrange(x.len() - trim_start(x).len(), x.len() as int),
        trim_start(x).len() <= x.len(),
        trim_start(x).len() > 0 ==> !is_ws(trim_start(x)[0]),
    decreases x.len(),
{
    if x.len() > 0 && is_ws(x[0]) {
        lemma_trim_start_suffix(x.drop_first());
        let t = trim_start(x.drop_first());
        let d = x.drop_first();
        assert(d.subrange(d.len() - t.len(), d.len() as int) =~= x.subrange(
            x.len() - t.len(),
            x.len() as int,
        ));
    } else {
        assert(x.subrange(0, x.len() as int) =~= x);
    }
}

proof fn lemma_trim_shape(x: Seq<char>)
    ensures
        forall|i: int| 0 <= i < trim(x).len() ==> x.contains(#[trigger] trim(x)[i]),
        trim(x).len() > 0 ==> !is_ws(trim(x)[0]) && !is_ws(trim(x).last()),
{
    let e = trim_end(x);
    let t = trim_start(e);
    lemma_trim_end_prefix(x);
    lemma_trim_start_suffix(e);
    let off = e.len() - t.len();
    assert forall|i: int| 0 <= i < t.len() implies x.contains(#[trigger] t[i]) by {
        assert(t[i] == e[off + i]);
        assert(e[off + i] == x[off + i]);
    }
    if t.len() > 0 {
        assert(t.last() == e[e.len() - 1]);
        assert(e.last() == e[e.len() - 1]);
    }
}

proof fn lemma_encode_len_at_least(x: Seq<char>)
    ensures
        encode_utf8(x).len() >= x.len(),
    decreases x.len(),
{
    if x.len() > 0 {
        lemma_encode_len_at_least(x.drop_first());
        assert(encode_scalar(x[0] as u32).len() >= 1);
    }
}

proof fn lemma_short_body(y: Seq<char>)
    requires
        y.len() > 0,
        !is_ws(y[0]),
        !is_ws(y.last()),
        2 <= encode_utf8(y).len() <= 3,
    ensures
        2 <= encode_utf8(remove_ws(y)).len() <= 3,
{
    lemma_encode_len_at_least(y);
    reveal_with_fuel(remove_ws, 4);
    reveal_with_fuel(encode_utf8, 4);
    if y.len() == 1 {
        assert(remove_ws(y) =~= y) by {
            assert(y.drop_last() =~= Seq::<char>::empty());
            assert(y.last() == y[0]);
        }
    } else if y.len() == 2 {
        assert(y[1] == y.last());
        lemma_remove_ws_keeps(y);
    } else {
        assert(y.len() == 3);
        let (a, m, c) = (y[0], y[1], y[2]);
        assert(y =~= seq![a, m, c]);
        assert(c == y.last());
        let ea = encode_scalar(a as u32);
        let em = encode_scalar(m as u32);
        let ec = encode_scalar(c as u32);
        assert(ea.len() >= 1 && em.len() >= 1 && ec.len() >= 1);
        assert(seq![a, m, c].drop_first() =~= seq![m, c]);
        assert(seq![m, c].drop_first() =~= seq![c]);
        assert(seq![c].drop_first() =~= Seq::<char>::empty());
        assert(encode_utf8(seq![a, m, c]).len() == ea.len() + em.len() + ec.len());
        assert(seq![a, m, c].drop_last() =~= seq![a, m]);
        assert(seq![a, m].drop_last() =~= seq![a]);
        assert(seq![a].drop_last() =~= Seq::<char>::empty());
        if is_ws(m) {
            assert(remove_ws(seq![a, m, c]) =~= seq![a, c]);
            assert(seq![a, c].drop_first() =~= seq![c]);
            assert(encode_utf8(seq![a, c]).len() == ea.len() + ec.len());
        } else {
            assert(remove_ws(seq![a, m, c]) =~= seq![a, m, c]);
        }
    }
}

/// The characters a weighted token is written with do not matter beyond
/// these facts: no comma anywhere, no `:` in the weight, no `:` in an
/// unweighted body, and a two- or three-byte body once whitespace is gone.
proof fn lemma_weighted_fits(sub: Seq<char>, weight: Option<Seq<char>>)
    requires
        !sub.contains(','),
        2 <= encode_utf8(remove_ws(sub)).len() <= 3,
        weight is None ==> !sub.contains(':'),
        weight matches Some(w) ==> !w.contains(':') && !w.contains(','),
    ensures
        solver_piece(remove_ws(with_weight(sub, weight))),
{
    let rs = remove_ws(sub);
    lemma_remove_ws_subset(sub);
    assert(!rs.contains(',')) by {
        if rs.contains(',') {
            let k = choose|k: int| 0 <= k < rs.len() && rs[k] == ',';
            assert(sub.contains(rs[k]));
        }
    }
    match weight {
        Some(w) => {
            let rw = remove_ws(w);
            lemma_remove_ws_subset(w);
            lemma_remove_ws_concat(sub.push(':'), w);
            lemma_remove_ws_concat(sub, seq![':']);
            assert(sub.push(':') =~= sub + seq![':']);
            assert(remove_ws(seq![':']) =~= seq![':']) by {
                assert(seq![':'].drop_last() =~= Seq::<char>::empty());
                assert(seq![':'].len() == 1);
                assert(seq![':'].last() == ':');
                assert(!is_ws(':'));
                assert(remove_ws(Seq::<char>::empty()) == Seq::<char>::empty());
            }
            assert(rs + seq![':'] =~= rs.push(':'));
            let p = rs.push(':') + rw;
            assert(remove_ws(with_weight(sub, weight)) == p);
            assert(!rw.contains(':')) by {
                if rw.contains(':') {
                    let k = choose|k: int| 0 <= k < rw.len() && rw[k] == ':';
                    assert(w.contains(rw[k]));
                }
            }
            assert(!rw.contains(',')) by {
                if rw.contains(',') {
                    let k = choose|k: int| 0 <= k < rw.len() && rw[k] == ',';
                    assert(w.contains(rw[k]));
                }
            }
            lemma_rsplit_after_sep(rs, rw, ':');
            assert(!p.contains(',')) by {
                if p.contains(',') {
                    let k = choose|k: int| 0 <= k < p.len() && p[k] == ',';
                    if k < rs.len() {
                        assert(rs[k] == ',');
                    } else if k > rs.len() {
                        assert(rw[k - rs.len() - 1] == ',');
                    }
                }
            }
        },
        None => {
            assert(!rs.contains(':')) by {
                if rs.contains(':') {
                    let k = choose|k: int| 0 <= k < rs.len() && rs[k] == ':';
                    assert(sub.contains(rs[k]));
                }
            }
            lemma_last_index_found(rs, ':');
        },
    }
}

proof fn lemma_ascii_token(t: Seq<char>)
    requires
        forall|i: int| 0 <= i < t.len() ==> is_ascii_token_char(#[trigger] t[i]),
    ensures
        remove_ws(t) == t,
        encode_utf8(t).len() == t.len(),
        !t.contains(','),
        !t.contains(':'),
{
    lemma_remove_ws_keeps(t);
    assert(is_ascii_chars(t));
    is_ascii_chars_encode_utf8(t);
}

/// Rank characters and the suitedness letters.
pub open spec fn is_ascii_token_char(c: char) -> bool {
    c == '2' || c == '3' || c == '4' || c == '5' || c == '6' || c == '7' || c == '8' || c == '9'
        || c == 'T' || c == 'J' || c == 'Q' || c == 'K' || c == 'A' || c == '?' || c == 's' || c
        == 'o'
}

proof fn lemma_rank_char_token(r: u8)
    ensures
        is_ascii_token_char(spec_rank_char(r)),
{
}

/// What the weight of a token may hold: no `:` and no comma.
proof fn lemma_body_and_weight_facts(t: Seq<char>)
    requires
        !t.contains(','),
    ensures
        ({
            let (body, weight) = body_and_weight(t);
            &&& !body.contains(',')
            &&& (weight is None ==> body == t && !t.contains(':'))
            &&& (weight matches Some(w) ==> !w.contains(':') && !w.contains(','))
            &&& (weight is Some ==> exists|b: Seq<char>| body == trim(b) && forall|i: int|
                0 <= i < b.len() ==> t.contains(#[trigger] b[i]))
        }),
{
    lemma_last_index_found(t, ':');
    match rsplit_once(t, ':') {
        Some((b, w)) => {
            let i = last_index_of(t, ':').unwrap();
            assert(b == t.subrange(0, i));
            assert(w == t.subrange(i + 1, t.len() as int));
            lemma_trim_shape(b);
            lemma_trim_shape(w);
            let tb = trim(b);
            let tw = trim(w);
            assert forall|k: int| 0 <= k < b.len() implies t.contains(#[trigger] b[k]) by {
                assert(b[k] == t[k]);
            }
            assert(!tb.contains(',')) by {
                if tb.contains(',') {
                    let k = choose|k: int| 0 <= k < tb.len() && tb[k] == ',';
                    assert(b.contains(tb[k]));
                    let j = choose|j: int| 0 <= j < b.len() && b[j] == tb[k];
                    assert(t.contains(b[j]));
                }
            }
            assert(!tw.contains(':') && !tw.contains(',')) by {
                if tw.contains(':') || tw.contains(',') {
                    let k = choose|k: int| 0 <= k < tw.len() && (tw[k] == ':' || tw[k] == ',');
                    assert(w.contains(tw[k]));
                    let j = choose|j: int| 0 <= j < w.len() && w[j] == tw[k];
                    assert(w[j] == t[i + 1 + j]);
                }
            }
        },
        None => {},
    }
}

/// Every token one non-blank piece expands to fits TexasSolver.
proof fn lemma_expansion_fits(t: Seq<char>, range: Seq<char>)
    requires
        !t.contains(','),
        t.len() > 0,
        !is_ws(t[0]),
        !is_ws(t.last()),
        token_expansion(t, range) is Ok,
    ensures
        forall|k: int|
            0 <= k < token_expansion(t, range)->Ok_0.len() ==> solver_piece(
                remove_ws(#[trigger] token_expansion(t, range)->Ok_0[k]),
            ),
{
    let (body, weight) = body_and_weight(t);
    lemma_body_and_weight_facts(t);
    let x = token_expansion(t, range)->Ok_0;
    let b = encode_utf8(body);
    assert forall|k: int| 0 <= k < x.len() implies solver_piece(remove_ws(#[trigger] x[k])) by {
        if b.len() == 5 && b[2] as char == '-' && b[0] == b[1] && b[3] == b[4] || b.len() == 3 && b[0]
            == b[1] && (b[2] as char == '+' || b[2] as char == '-') {
            let rr = x[k];
            let lo_hi = if b.len() == 5 {
                let (xa, ya) = (
                    spec_rank_value(b[0] as char).unwrap() as int,
                    spec_rank_value(b[3] as char).unwrap() as int,
                );
                if xa <= ya { (xa, ya) } else { (ya, xa) }
            } else if b[2] as char == '+' {
                (spec_rank_value(b[0] as char).unwrap() as int, 12int)
            } else {
                (0int, spec_rank_value(b[0] as char).unwrap() as int)
            };
            let tok = pair_token(lo_hi.0 + k);
            assert(x == pair_run(lo_hi.0, lo_hi.1, weight));
            assert(rr == with_weight(tok, weight));
            lemma_rank_char_token((lo_hi.0 + k) as u8);
            lemma_ascii_token(tok);
            lemma_weighted_fits(tok, weight);
        } else if b.len() == 4 && b[3] as char == '+' && (b[2] as char == 's' || b[2] as char
            == 'o') {
            let kicker = spec_rank_value(b[1] as char).unwrap() as int;
            let start = spec_rank_value(b[0] as char).unwrap() as int;
            lemma_kicker_run_fits(start, kicker, b[2] as char, weight);
        } else {
            assert(b.len() == 2 || b.len() == 3);
            assert(x == seq![with_weight(body, weight)]);
            assert(body.len() > 0) by {
                if body.len() == 0 {
                    assert(body =~= Seq::<char>::empty());
                    assert(encode_utf8(body) =~= Seq::<u8>::empty());
                }
            }
            if weight is Some {
                let bb = choose|bb: Seq<char>| body == trim(bb) && forall|i: int|
                    0 <= i < bb.len() ==> t.contains(#[trigger] bb[i]);
                lemma_trim_shape(bb);
            }
            lemma_short_body(body);
            lemma_weighted_fits(body, weight);
        }
    }
}

proof fn lemma_kicker_run_fits(r: int, kicker: int, suffix: char, weight: Option<Seq<char>>)
    requires
        suffix == 's' || suffix == 'o',
        weight matches Some(w) ==> !w.contains(':') && !w.contains(','),
    ensures
        forall|k: int|
            0 <= k < kicker_run(r, kicker, suffix, weight).len() ==> solver_piece(
                remove_ws(#[trigger] kicker_run(r, kicker, suffix, weight)[k]),
            ),
    decreases 13 - r,
{
    if r <= 12 {
        lemma_kicker_run_fits(r + 1, kicker, suffix, weight);
        if r == kicker {
            assert(kicker_run(r, kicker, suffix, weight) == kicker_run(r + 1, kicker, suffix, weight));
        } else {
            let tok = seq![spec_rank_char(r as u8), spec_rank_char(kicker as u8), suffix];
            lemma_rank_char_token(r as u8);
            lemma_rank_char_token(kicker as u8);
            lemma_ascii_token(tok);
            lemma_weighted_fits(tok, weight);
            let rest = kicker_run(r + 1, kicker, suffix, weight);
            let all = kicker_run(r, kicker, suffix, weight);
            assert(all == seq![with_weight(tok, weight)] + rest);
            assert forall|k: int| 0 <= k < all.len() implies solver_piece(
                remove_ws(#[trigger] all[k]),
            ) by {
                if k > 0 {
                    assert(all[k] == rest[k - 1]);
                } else {
                    assert(all[0] == with_weight(tok, weight));
                }
            }
        }
    }
}

proof fn lemma_expand_pieces_fit(pieces: Seq<Seq<char>>, n: int, range: Seq<char>)
    requires
        0 <= n <= pieces.len(),
        forall|k: int| 0 <= k < pieces.len() ==> !(#[trigger] pieces[k]).contains(','),
        expand_pieces(pieces, n, range) is Ok,
    ensures
        forall|k: int|
            0 <= k < expand_pieces(pieces, n, range)->Ok_0.len() ==> solver_piece(
                remove_ws(#[trigger] expand_pieces(pieces, n, range)->Ok_0[k]),
            ),
    decreases n,
{
    if n > 0 {
        lemma_expand_pieces_fit(pieces, n - 1, range);
        let acc = expand_pieces(pieces, n - 1, range)->Ok_0;
        let t = trim(pieces[n - 1]);
        if t.len() > 0 {
            lemma_trim_shape(pieces[n - 1]);
            assert(!t.contains(',')) by {
                if t.contains(',') {
                    let k = choose|k: int| 0 <= k < t.len() && t[k] == ',';
                    assert(pieces[n - 1].contains(t[k]));
                }
            }
            lemma_expansion_fits(t, range);
            let x = token_expansion(t, range)->Ok_0;
            let all = acc + x;
            assert forall|k: int| 0 <= k < all.len() implies solver_piece(
                remove_ws(#[trigger] all[k]),
            ) by {
                if k >= acc.len() {
                    assert(all[k] == x[k - acc.len()]);
                }
            }
        }
    }
}

proof fn lemma_split_of_joined(out: Seq<Seq<char>>)
    requires
        out.len() > 0,
        forall|k: int| 0 <= k < out.len() ==> solver_piece(remove_ws(#[trigger] out[k])),
    ensures
        split_on(remove_ws(join_with(out, ',')), ',') == out.map_values(|t: Seq<char>| remove_ws(t)),
    decreases out.len(),
{
    let last = remove_ws(out.last());
    assert(solver_piece(remove_ws(out[out.len() - 1])));
    if out.len() == 1 {
        lemma_split_on_no_sep(last, ',');
        assert(out.map_values(|t: Seq<char>| remove_ws(t)) =~= seq![last]);
    } else {
        let p = out.drop_last();
        assert forall|k: int| 0 <= k < p.len() implies solver_piece(remove_ws(#[trigger] p[k])) by {
            assert(p[k] == out[k]);
        }
        lemma_split_of_joined(p);
        let j = join_with(p, ',');
        lemma_remove_ws_concat(j.push(','), out.last());
        lemma_remove_ws_concat(j, seq![',']);
        assert(j.push(',') =~= j + seq![',']);
        assert(remove_ws(seq![',']) =~= seq![',']) by {
            assert(seq![','].drop_last() =~= Seq::<char>::empty());
            assert(seq![','].len() == 1);
            assert(seq![','].last() == ',');
            assert(!is_ws(','));
            assert(remove_ws(Seq::<char>::empty()) == Seq::<char>::empty());
        }
        assert(remove_ws(j) + seq![','] =~= remove_ws(j).push(','));
        lemma_split_on_append(remove_ws(j), last, ',');
        assert(out.map_values(|t: Seq<char>| remove_ws(t)) =~= p.map_values(
            |t: Seq<char>| remove_ws(t),
        ).push(last));
    }
}

/// Every comma-separated piece of a non-empty normalized range is a token
/// TexasSolver's range parser reads: its part before the last `:` has two
/// or three bytes. (A range of blank tokens normalizes to the empty
/// string, which has one empty piece.)
pub proof fn lemma_normalized_pieces_fit_solver(s: Seq<char>)
    requires
        normalized_range(s) is Ok,
        normalized_range(s)->Ok_0.len() > 0,
    ensures
        forall|i: int|
            0 <= i < split_on(normalized_range(s)->Ok_0, ',').len() ==> solver_piece(
                #[trigger] split_on(normalized_range(s)->Ok_0, ',')[i],
            ),
{
    let pieces = split_on(s, ',');
    lemma_split_on_pieces_no_sep(s, ',');
    lemma_expand_pieces_fit(pieces, pieces.len() as int, s);
    let out = expand_pieces(pieces, pieces.len() as int, s)->Ok_0;
    if out.len() == 0 {
        assert(join_with(out, ',') =~= Seq::<char>::empty());
        assert(remove_ws(join_with(out, ',')) =~= Seq::<char>::empty());
    } else {
        lemma_split_of_joined(out);
        let m = out.map_values(|t: Seq<char>| remove_ws(t));
        assert forall|i: int| 0 <= i < m.len() implies solver_piece(#[trigger] m[i]) by {
            assert(m[i] == remove_ws(out[i]));
        }
    }
}

impl RangeError<Seq<char>> {
    /// The message shown to the user.
    pub open spec fn message_text(self) -> Seq<char> {
        match self {
            RangeError::BadRank { token } => "bad rank in "@ + crate::text::debug_quoted(token),
            RangeError::Unrecognized { token, range } => "unrecognized range token "@ + crate::text::debug_quoted(token) + " in range string "@ + crate::text::debug_quoted(range),
        }
    }
}

impl RangeError<String> {
    /// The message shown to the user.
    pub fn message(&self) -> (r: String)
        ensures
            r@ == self@.message_text(),
    {
        let mut v: Vec<char> = Vec::new();
        match self {
            RangeError::BadRank { token } => {
                crate::text::push_text(&mut v, "bad rank in ");
                crate::text::push_debug(&mut v, token.as_str());
                proof {
                    assert(v@ =~= self@.message_text());
                }
            },
            RangeError::Unrecognized { token, range } => {
                crate::text::push_text(&mut v, "unrecognized range token ");
                crate::text::push_debug(&mut v, token.as_str());
                crate::text::push_text(&mut v, " in range string ");
                crate::text::push_debug(&mut v, range.as_str());
                proof {
                    assert(v@ =~= self@.message_text());
                }
            },
        }
        crate::text::string_of(&v)
    }
}

} // verus!
