//! The 169 preflop hand classes: 13 pocket pairs, 78 suited and 78
//! offsuit hands, and the class of a concrete two-card hand.

use vstd::prelude::*;
use crate::cards::{
    Card, Hand, rank_of, suit_of, valid_card, spec_rank_char, spec_rank_value, rank_char,
    lemma_rank_char_roundtrip,
};
use crate::text::string_of;

verus! {

/// Rank character of the `i`-th rank in Ace-high-first order
/// (`0 = 'A' .. 12 = '2'`).
pub open spec fn ace_first_char(i: int) -> char {
    spec_rank_char((12 - i) as u8)
}

/// The class names contributed by cell `(i, j)` of the 13 x 13 grid, Ace
/// first: above the diagonal the suited then offsuit hand, on the diagonal
/// the pair, below it nothing.
pub open spec fn cell_classes(i: int, j: int) -> Seq<Seq<char>> {
    let a = ace_first_char(i);
    let b = ace_first_char(j);
    if i < j {
        seq![seq![a, b, 's'], seq![a, b, 'o']]
    } else if i == j {
        seq![seq![a, b]]
    } else {
        seq![]
    }
}

/// The class names of the first `k` cells in row-major order.
pub open spec fn classes_before(k: int) -> Seq<Seq<char>>
    decreases k,
{
    if k <= 0 {
        seq![]
    } else {
        classes_before(k - 1) + cell_classes((k - 1) / 13, (k - 1) % 13)
    }
}

/// All 169 canonical class names, Ace-high first.
pub open spec fn canonical_hands_169() -> Seq<Seq<char>> {
    classes_before(169)
}

/// The class name of a hand whose first card has the higher byte.
pub open spec fn hand_class(h: Hand) -> Seq<char> {
    cards_class(h.0[0], h.0[1])
}

/// The class name of two cards, the first with the higher byte.
pub open spec fn cards_class(a: Card, b: Card) -> Seq<char> {
    let ca = spec_rank_char(rank_of(a) as u8);
    let cb = spec_rank_char(rank_of(b) as u8);
    if rank_of(a) == rank_of(b) {
        seq![ca, cb]
    } else if suit_of(a) == suit_of(b) {
        seq![ca, cb, 's']
    } else {
        seq![ca, cb, 'o']
    }
}

/// All 169 canonical hand strings, Ace-high first: for each pair of rank
/// positions `i <= j` the suited then offsuit hand (`i < j`) or the pair.
pub fn reference_build_canonical_hands_169() -> (hands: Vec<String>)
    ensures
        hands@.map_values(|s: String| s@) == canonical_hands_169(),
{
    let mut hands: Vec<String> = Vec::new();
    let mut i: usize = 0;
    while i < 13
        invariant
            i <= 13,
            hands@.map_values(|s: String| s@) == classes_before(i as int * 13),
        decreases 13 - i,
    {
        let ci = rank_char((12 - i) as u8);
        let mut j: usize = 0;
        while j < 13
            invariant
                i < 13,
                j <= 13,
                ci == ace_first_char(i as int),
                hands@.map_values(|s: String| s@) == classes_before(i as int * 13 + j as int),
            decreases 13 - j,
        {
            let cj = rank_char((12 - j) as u8);
            let ghost before = hands@.map_values(|s: String| s@);
            let ghost k = i as int * 13 + j as int;
            assert((k + 1 - 1) / 13 == i as int && (k + 1 - 1) % 13 == j as int) by (nonlinear_arith)
                requires k == i as int * 13 + j as int, 0 <= j < 13, 0 <= i;
            if i < j {
                let mut sv: Vec<char> = Vec::new();
                sv.push(ci);
                sv.push(cj);
                sv.push('s');
                let mut ov: Vec<char> = Vec::new();
                ov.push(ci);
                ov.push(cj);
                ov.push('o');
                let s = string_of(&sv);
                let o = string_of(&ov);
                assert(s@ =~= seq![ci, cj, 's']);
                assert(o@ =~= seq![ci, cj, 'o']);
                assert(cj == ace_first_char(j as int));
                hands.push(s);
                hands.push(o);
                assert(hands@.map_values(|s: String| s@) =~= before + cell_classes(i as int, j as int));
            } else if i == j {
                let mut pv: Vec<char> = Vec::new();
                pv.push(ci);
                pv.push(cj);
                let p = string_of(&pv);
                assert(p@ =~= seq![ci, cj]);
                assert(cj == ace_first_char(j as int));
                hands.push(p);
                assert(hands@.map_values(|s: String| s@) =~= before + cell_classes(i as int, j as int));
            } else {
                assert(hands@.map_values(|s: String| s@) =~= before + cell_classes(i as int, j as int));
            }
            j += 1;
        }
        i += 1;
    }
    hands
}

/// Canonical class string of a hand: pair `"AA"`, suited `"AKs"`, or
/// offsuit `"AKo"`, higher rank first (as [`Hand::new`] orders the cards).
pub fn reference_normalize_hand_169(hand: &Hand) -> (s: String)
    requires
        valid_card(hand.0[0]),
        valid_card(hand.0[1]),
    ensures
        s@ == hand_class(*hand),
{
    let a = hand.0[0];
    let b = hand.0[1];
    let ra = a.rank();
    let rb = b.rank();
    let ch_a = rank_char(ra);
    let ch_b = rank_char(rb);
    let mut v: Vec<char> = Vec::new();
    v.push(ch_a);
    v.push(ch_b);
    if ra == rb {
    } else if a.suit() == b.suit() {
        v.push('s');
    } else {
        v.push('o');
    }
    string_of(&v)
}

/// Every cell's classes appear in the classes of any longer prefix.
proof fn lemma_classes_before_contains(k1: int, k2: int, x: Seq<char>)
    requires
        0 <= k1 < k2,
        cell_classes(k1 / 13, k1 % 13).contains(x),
    ensures
        classes_before(k2).contains(x),
    decreases k2,
{
    if k2 - 1 == k1 {
        let p = classes_before(k2 - 1);
        let c = cell_classes(k1 / 13, k1 % 13);
        let idx = choose|m: int| 0 <= m < c.len() && c[m] == x;
        assert(classes_before(k2)[p.len() + idx] == x);
    } else {
        lemma_classes_before_contains(k1, k2 - 1, x);
        let p = classes_before(k2 - 1);
        let idx = choose|m: int| 0 <= m < p.len() && p[m] == x;
        assert(classes_before(k2)[idx] == x);
    }
}

/// Every concrete hand of two valid cards, higher byte first, belongs to
/// one of the 169 canonical classes.
pub proof fn lemma_every_hand_has_canonical_class(h: Hand)
    requires
        valid_card(h.0[0]),
        valid_card(h.0[1]),
        h.0[0].0 >= h.0[1].0,
    ensures
        canonical_hands_169().contains(hand_class(h)),
{
    let ra = rank_of(h.0[0]);
    let rb = rank_of(h.0[1]);
    assert(ra >= rb);
    let i = 12 - ra;
    let j = 12 - rb;
    let k = i * 13 + j;
    assert(k / 13 == i && k % 13 == j) by (nonlinear_arith)
        requires k == i * 13 + j, 0 <= j < 13, 0 <= i;
    assert(ace_first_char(i) == spec_rank_char(ra as u8));
    assert(ace_first_char(j) == spec_rank_char(rb as u8));
    let x = hand_class(h);
    if ra == rb {
        assert(cell_classes(i, j)[0] == x);
    } else if suit_of(h.0[0]) == suit_of(h.0[1]) {
        assert(cell_classes(i, j)[0] == x);
    } else {
        assert(cell_classes(i, j)[1] == x);
    }
    lemma_classes_before_contains(k, 169, x);
}

/// The suits `(high card, low card)` of the `k`-th of the 6 combos of a
/// pocket pair.
pub open spec fn pair_suits(k: int) -> (int, int) {
    if k == 0 {
        (1, 0)
    } else if k == 1 {
        (2, 0)
    } else if k == 2 {
        (3, 0)
    } else if k == 3 {
        (2, 1)
    } else if k == 4 {
        (3, 1)
    } else {
        (3, 2)
    }
}

/// The suits `(high card, low card)` of the `k`-th of the 12 combos of an
/// offsuit hand.
pub open spec fn offsuit_suits(k: int) -> (int, int) {
    let s1 = k / 3;
    let t = k % 3;
    (s1, if t < s1 { t } else { t + 1 })
}

/// The card bytes `(high, low)` of every two-card hand of class `c`: 6 for
/// a pair, 4 suited, 12 offsuit.
pub open spec fn class_combos(c: Seq<char>) -> Seq<(u8, u8)> {
    let hi = spec_rank_value(c[0]).unwrap() as int;
    let lo = spec_rank_value(c[1]).unwrap() as int;
    if c.len() == 2 {
        Seq::new(
            6,
            |k: int| ((4 * hi + pair_suits(k).0) as u8, (4 * hi + pair_suits(k).1) as u8),
        )
    } else if c[2] == 's' {
        Seq::new(4, |k: int| ((4 * hi + k) as u8, (4 * lo + k) as u8))
    } else {
        Seq::new(
            12,
            |k: int| ((4 * hi + offsuit_suits(k).0) as u8, (4 * lo + offsuit_suits(k).1) as u8),
        )
    }
}

/// Whether `c` is one of the class names of grid cell `(i, j)`.
pub open spec fn in_cell(i: int, j: int, c: Seq<char>) -> bool {
    cell_classes(i, j).contains(c)
}

/// A class among the first `n` cells comes from a cell on or above the
/// diagonal.
proof fn lemma_class_cell(n: int, c: Seq<char>)
    requires
        0 <= n,
        classes_before(n).contains(c),
    ensures
        exists|i: int, j: int| 0 <= i <= j < 13 && i * 13 + j < n && #[trigger] in_cell(i, j, c),
    decreases n,
{
    if n > 0 {
        let p = classes_before(n - 1);
        let q = cell_classes((n - 1) / 13, (n - 1) % 13);
        let idx = choose|m: int| 0 <= m < classes_before(n).len() && classes_before(n)[m] == c;
        if idx < p.len() {
            assert(p[idx] == c);
            lemma_class_cell(n - 1, c);
        } else {
            let i = (n - 1) / 13;
            let j = (n - 1) % 13;
            assert(q[idx - p.len()] == c);
            assert(q.contains(c));
            assert(i * 13 + j == n - 1);
            assert(in_cell(i, j, c));
        }
    }
}

/// Hands are split exactly among the 169 classes: a class names precisely
/// the two-card hands listed by [`class_combos`], 6 for a pocket pair, 4
/// for a suited and 12 for an offsuit hand, all distinct. So every class
/// is the class of some hand, and no hand outside the list has it.
pub proof fn lemma_class_combos(c: Seq<char>)
    requires
        canonical_hands_169().contains(c),
    ensures
        c.len() == 2 || (c.len() == 3 && (c[2] == 's' || c[2] == 'o')),
        class_combos(c).len() == (if c.len() == 2 {
            6int
        } else if c[2] == 's' {
            4int
        } else {
            12int
        }),
        class_combos(c).no_duplicates(),
        forall|m: int|
            0 <= m < class_combos(c).len() ==> {
                let (a, b) = #[trigger] class_combos(c)[m];
                &&& b < a < 52
                &&& cards_class(Card(a), Card(b)) == c
            },
        forall|a: u8, b: u8|
            b < a < 52 && cards_class(Card(a), Card(b)) == c ==> #[trigger] class_combos(
                c,
            ).contains((a, b)),
{
    lemma_class_cell(169, c);
    let (i, j) = choose|i: int, j: int|
        0 <= i <= j < 13 && i * 13 + j < 169 && #[trigger] in_cell(i, j, c);
    let hi = 12 - i;
    let lo = 12 - j;
    lemma_rank_char_roundtrip(hi as u8);
    lemma_rank_char_roundtrip(lo as u8);
    let cl = cell_classes(i, j);
    let w = choose|m: int| 0 <= m < cl.len() && cl[m] == c;
    assert(c[0] == spec_rank_char(hi as u8));
    assert(c[1] == spec_rank_char(lo as u8));
    assert(spec_rank_value(c[0]) == Some(hi as u8));
    assert(spec_rank_value(c[1]) == Some(lo as u8));
    let combos = class_combos(c);
    if i == j {
        assert(c.len() == 2);
        assert forall|m: int| 0 <= m < combos.len() implies {
            let (a, b) = #[trigger] combos[m];
            &&& b < a < 52
            &&& cards_class(Card(a), Card(b)) == c
        } by {
            let (a, b) = combos[m];
            assert(a as int == 4 * hi + pair_suits(m).0);
            assert(b as int == 4 * hi + pair_suits(m).1);
            assert(rank_of(Card(a)) == hi);
            assert(rank_of(Card(b)) == hi);
            assert(cards_class(Card(a), Card(b)) =~= c);
        }
        assert forall|a: u8, b: u8|
            b < a < 52 && cards_class(Card(a), Card(b)) == c implies #[trigger] combos.contains(
            (a, b),
        ) by {
            let ra = rank_of(Card(a));
            let rb = rank_of(Card(b));
            lemma_rank_char_roundtrip(ra as u8);
            lemma_rank_char_roundtrip(rb as u8);
            assert(cards_class(Card(a), Card(b)).len() == 2);
            assert(ra == rb);
            assert(cards_class(Card(a), Card(b))[0] == spec_rank_char(ra as u8));
            assert(ra == hi);
            let s1 = a as int % 4;
            let s2 = b as int % 4;
            assert(s1 > s2);
            let m = if s1 == 1 {
                0int
            } else if s1 == 2 && s2 == 0 {
                1
            } else if s1 == 3 && s2 == 0 {
                2
            } else if s1 == 2 {
                3
            } else if s2 == 1 {
                4
            } else {
                5
            };
            assert(pair_suits(m) == (s1, s2));
            assert(combos[m] == (a, b));
        }
        assert forall|m1: int, m2: int|
            0 <= m1 < combos.len() && 0 <= m2 < combos.len() && m1 != m2 implies combos[m1]
            != combos[m2] by {
            assert(pair_suits(m1) != pair_suits(m2));
        }
    } else {
        assert(c.len() == 3);
        assert(hi > lo);
        if w == 0 {
            assert(c[2] == 's');
            assert forall|m: int| 0 <= m < combos.len() implies {
                let (a, b) = #[trigger] combos[m];
                &&& b < a < 52
                &&& cards_class(Card(a), Card(b)) == c
            } by {
                let (a, b) = combos[m];
                assert(a as int == 4 * hi + m);
                assert(b as int == 4 * lo + m);
                assert(rank_of(Card(a)) == hi);
                assert(rank_of(Card(b)) == lo);
                assert(cards_class(Card(a), Card(b)) =~= c);
            }
            assert forall|a: u8, b: u8|
                b < a < 52 && cards_class(Card(a), Card(b)) == c implies #[trigger] combos.contains(
                (a, b),
            ) by {
                let ra = rank_of(Card(a));
                let rb = rank_of(Card(b));
                lemma_rank_char_roundtrip(ra as u8);
                lemma_rank_char_roundtrip(rb as u8);
                assert(cards_class(Card(a), Card(b)).len() == 3);
                assert(cards_class(Card(a), Card(b))[0] == spec_rank_char(ra as u8));
                assert(cards_class(Card(a), Card(b))[1] == spec_rank_char(rb as u8));
                assert(ra == hi);
                assert(rb == lo);
                let m = a as int % 4;
                assert(combos[m] == (a, b));
            }
        } else {
            assert(c[2] == 'o');
            assert forall|m: int| 0 <= m < combos.len() implies {
                let (a, b) = #[trigger] combos[m];
                &&& b < a < 52
                &&& cards_class(Card(a), Card(b)) == c
            } by {
                let (a, b) = combos[m];
                let (s1, s2) = offsuit_suits(m);
                assert(0 <= s1 < 4 && 0 <= s2 < 4 && s1 != s2);
                assert(a as int == 4 * hi + s1);
                assert(b as int == 4 * lo + s2);
                assert(rank_of(Card(a)) == hi);
                assert(rank_of(Card(b)) == lo);
                assert(suit_of(Card(a)) == s1);
                assert(suit_of(Card(b)) == s2);
                assert(cards_class(Card(a), Card(b)) =~= c);
            }
            assert forall|a: u8, b: u8|
                b < a < 52 && cards_class(Card(a), Card(b)) == c implies #[trigger] combos.contains(
                (a, b),
            ) by {
                let ra = rank_of(Card(a));
                let rb = rank_of(Card(b));
                lemma_rank_char_roundtrip(ra as u8);
                lemma_rank_char_roundtrip(rb as u8);
                assert(cards_class(Card(a), Card(b)).len() == 3);
                assert(cards_class(Card(a), Card(b))[0] == spec_rank_char(ra as u8));
                assert(cards_class(Card(a), Card(b))[1] == spec_rank_char(rb as u8));
                assert(ra == hi);
                assert(rb == lo);
                let s1 = a as int % 4;
                let s2 = b as int % 4;
                assert(s1 != s2);
                let m = 3 * s1 + if s2 < s1 { s2 } else { s2 - 1 };
                assert(offsuit_suits(m) == (s1, s2));
                assert(combos[m] == (a, b));
            }
            assert forall|m1: int, m2: int|
                0 <= m1 < combos.len() && 0 <= m2 < combos.len() && m1 != m2 implies combos[m1]
                != combos[m2] by {
                assert(offsuit_suits(m1) != offsuit_suits(m2));
            }
        }
    }
}

} // verus!
