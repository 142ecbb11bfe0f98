//! Independent 5-card and 7-card hand evaluator.
//!
//! A 5-card hand is scored by category (high card 0 up to straight flush 8)
//! and, within its category, by its ranks packed four bits each, most
//! significant first. The value is `category << 28 | inner`, so a higher
//! value is a better hand. The 7-card score is the best score among the 21
//! five-card subsets.

use vstd::prelude::*;
use crate::cards::{Board, Card, Hand, HandRank, rank_of, suit_of, valid_card};

verus! {

/// Number of cards in `s` whose rank is `r`.
pub open spec fn count_rank(s: Seq<Card>, r: int) -> nat
    decreases s.len(),
{
    if s.len() == 0 {
        0
    } else {
        count_rank(s.drop_last(), r) + if rank_of(s.last()) == r { 1nat } else { 0nat }
    }
}

/// Number of cards in `s` whose rank lies in `n..13`.
pub open spec fn count_from(s: Seq<Card>, n: nat) -> nat
    decreases 13 - n,
{
    if n >= 13 {
        0
    } else {
        count_rank(s, n as int) + count_from(s, n + 1)
    }
}

/// The ranks `n..13` that occur exactly `c` times in `s`, highest first,
/// each tagged `(c, rank)`.
pub open spec fn level(s: Seq<Card>, c: nat, n: nat) -> Seq<(u8, u8)>
    decreases 13 - n,
{
    if n >= 13 {
        seq![]
    } else {
        level(s, c, n + 1) + if count_rank(s, n as int) == c {
            seq![(c as u8, n as u8)]
        } else {
            seq![]
        }
    }
}

/// The `(count, rank)` groups whose count exceeds `c` (up to 5), ordered by
/// count descending, then rank descending.
pub open spec fn groups_above(s: Seq<Card>, c: nat) -> Seq<(u8, u8)>
    decreases 5 - c,
{
    if c >= 5 {
        seq![]
    } else {
        groups_above(s, c + 1) + level(s, (c + 1) as nat, 0)
    }
}

/// Every rank present in `s`, as `(count, rank)`, ordered by count
/// descending and then rank descending.
pub open spec fn rank_groups(s: Seq<Card>) -> Seq<(u8, u8)> {
    groups_above(s, 0)
}

/// The ranks `n..13` of `s` with multiplicity, highest first.
pub open spec fn ranks_desc_from(s: Seq<Card>, n: nat) -> Seq<u8>
    decreases 13 - n,
{
    if n >= 13 {
        seq![]
    } else {
        ranks_desc_from(s, n + 1) + Seq::new(count_rank(s, n as int), |i: int| n as u8)
    }
}

/// The ranks of `s` with multiplicity, highest first.
pub open spec fn ranks_desc(s: Seq<Card>) -> Seq<u8> {
    ranks_desc_from(s, 0)
}

/// All five cards share a suit.
pub open spec fn is_flush(s: Seq<Card>) -> bool {
    &&& suit_of(s[0]) == suit_of(s[1])
    &&& suit_of(s[1]) == suit_of(s[2])
    &&& suit_of(s[2]) == suit_of(s[3])
    &&& suit_of(s[3]) == suit_of(s[4])
}

/// Straight test on five ranks sorted descending: five consecutive ranks
/// (top = highest) or the wheel A-5-4-3-2 (top = Five, rank 3).
pub open spec fn straight_of(d: Seq<u8>) -> (bool, u8) {
    if d[0] == d[1] + 1 && d[1] == d[2] + 1 && d[2] == d[3] + 1 && d[3] == d[4] + 1 {
        (true, d[0])
    } else if d[0] == 12 && d[1] == 3 && d[2] == 2 && d[3] == 1 && d[4] == 0 {
        (true, 3u8)
    } else {
        (false, 0u8)
    }
}

/// Ranks packed four bits each, first element most significant.
pub open spec fn pack_seq(s: Seq<u8>) -> u32
    decreases s.len(),
{
    if s.len() == 0 {
        0
    } else {
        (pack_seq(s.drop_last()) << 4u32) | ((s.last() as u32) & 0xFu32)
    }
}

/// Category (0 high card .. 8 straight flush) and packed kickers of a
/// five-card hand.
pub open spec fn category_and_inner(s: Seq<Card>) -> (u32, u32) {
    let d = ranks_desc(s);
    let g = rank_groups(s);
    let flush = is_flush(s);
    let (straight, top) = straight_of(d);
    if flush && straight {
        (8, top as u32)
    } else if g[0].0 == 4 {
        (7, pack_seq(seq![g[0].1, g[1].1]))
    } else if g[0].0 == 3 && g.len() >= 2 && g[1].0 == 2 {
        (6, pack_seq(seq![g[0].1, g[1].1]))
    } else if flush {
        (5, pack_seq(d))
    } else if straight {
        (4, top as u32)
    } else if g[0].0 == 3 {
        (3, pack_seq(seq![g[0].1, g[1].1, g[2].1]))
    } else if g[0].0 == 2 && g.len() >= 2 && g[1].0 == 2 {
        (2, pack_seq(seq![g[0].1, g[1].1, g[2].1]))
    } else if g[0].0 == 2 {
        (1, pack_seq(seq![g[0].1, g[1].1, g[2].1, g[3].1]))
    } else {
        (0, pack_seq(d))
    }
}

/// The category of a five-card hand.
pub open spec fn category_of(s: Seq<Card>) -> u32 {
    category_and_inner(s).0
}

/// The packed score of a five-card hand.
pub open spec fn five_card_score(s: Seq<Card>) -> u32 {
    let (cat, inner) = category_and_inner(s);
    (cat << 28u32) | (inner & 0x0FFF_FFFFu32)
}

/// All cards of `s` are valid.
pub open spec fn all_valid(s: Seq<Card>) -> bool {
    forall|i: int| 0 <= i < s.len() ==> valid_card(#[trigger] s[i])
}

// ---------------------------------------------------------------------------
// Lemmas on counts and groups
// ---------------------------------------------------------------------------

proof fn lemma_count_rank_le(s: Seq<Card>, r: int)
    ensures
        count_rank(s, r) <= s.len(),
    decreases s.len(),
{
    if s.len() > 0 {
        lemma_count_rank_le(s.drop_last(), r);
    }
}

proof fn lemma_count_from_step(s: Seq<Card>, n: nat)
    requires
        s.len() > 0,
    ensures
        count_from(s, n) == count_from(s.drop_last(), n) + if n <= rank_of(s.last()) < 13 {
            1nat
        } else {
            0nat
        },
    decreases 13 - n,
{
    if n < 13 {
        lemma_count_from_step(s, n + 1);
    }
}

proof fn lemma_count_from_empty(s: Seq<Card>, n: nat)
    requires
        s.len() == 0,
    ensures
        count_from(s, n) == 0,
    decreases 13 - n,
{
    if n < 13 {
        lemma_count_from_empty(s, n + 1);
    }
}

proof fn lemma_count_from_total(s: Seq<Card>)
    requires
        all_valid(s),
    ensures
        count_from(s, 0) == s.len(),
    decreases s.len(),
{
    if s.len() > 0 {
        let t = s.drop_last();
        assert(all_valid(t)) by {
            assert forall|i: int| 0 <= i < t.len() implies valid_card(#[trigger] t[i]) by {
                assert(t[i] == s[i]);
            }
        }
        lemma_count_from_total(t);
        lemma_count_from_step(s, 0);
        assert(valid_card(s[s.len() - 1]));
        assert(s.last() == s[s.len() - 1]);
    } else {
        lemma_count_from_empty(s, 0);
    }
}

proof fn lemma_ranks_desc_len(s: Seq<Card>, n: nat)
    ensures
        ranks_desc_from(s, n).len() == count_from(s, n),
    decreases 13 - n,
{
    if n < 13 {
        lemma_ranks_desc_len(s, n + 1);
    }
}

proof fn lemma_level_elems(s: Seq<Card>, c: nat, n: nat)
    requires
        1 <= c <= 5,
    ensures
        forall|i: int|
            0 <= i < level(s, c, n).len() ==> (#[trigger] level(s, c, n)[i]).0 == c
                && n <= level(s, c, n)[i].1 < 13,
    decreases 13 - n,
{
    if n < 13 {
        lemma_level_elems(s, c, n + 1);
        let a = level(s, c, n + 1);
        let b = if count_rank(s, n as int) == c {
            seq![(c as u8, n as u8)]
        } else {
            seq![]
        };
        let l = level(s, c, n);
        assert(l == a + b);
        assert forall|i: int| 0 <= i < l.len() implies (#[trigger] l[i]).0 == c && n <= l[i].1
            < 13 by {
            if i < a.len() {
                assert(l[i] == a[i]);
            } else {
                assert(l[i] == b[i - a.len()]);
            }
        }
    }
}

/// Weighted level sizes add up to the number of cards with rank in `n..13`.
proof fn lemma_level_weight(s: Seq<Card>, n: nat)
    requires
        s.len() <= 5,
    ensures
        level(s, 1, n).len() + 2 * level(s, 2, n).len() + 3 * level(s, 3, n).len() + 4 * level(
            s,
            4,
            n,
        ).len() + 5 * level(s, 5, n).len() == count_from(s, n),
    decreases 13 - n,
{
    if n < 13 {
        lemma_level_weight(s, n + 1);
        lemma_count_rank_le(s, n as int);
    }
}

proof fn lemma_groups_above_elems(s: Seq<Card>, c: nat)
    requires
        c <= 5,
    ensures
        forall|i: int|
            0 <= i < groups_above(s, c).len() ==> (#[trigger] groups_above(s, c)[i]).1 < 13,
    decreases 5 - c,
{
    if c < 5 {
        lemma_groups_above_elems(s, c + 1);
        lemma_level_elems(s, (c + 1) as nat, 0);
        let a = groups_above(s, c + 1);
        let b = level(s, (c + 1) as nat, 0);
        let g = groups_above(s, c);
        assert(g == a + b);
        assert forall|i: int| 0 <= i < g.len() implies (#[trigger] g[i]).1 < 13 by {
            if i < a.len() {
                assert(g[i] == a[i]);
            } else {
                assert(g[i] == b[i - a.len()]);
            }
        }
    }
}

/// Shape of the group list of five valid cards: enough groups exist for
/// every kicker the category needs.
proof fn lemma_group_shape(s: Seq<Card>)
    requires
        s.len() == 5,
        all_valid(s),
    ensures
        rank_groups(s).len() >= 1,
        rank_groups(s)[0].0 == 4 ==> rank_groups(s).len() >= 2,
        rank_groups(s)[0].0 == 3 && !(rank_groups(s).len() >= 2 && rank_groups(s)[1].0 == 2)
            ==> rank_groups(s).len() >= 3,
        rank_groups(s)[0].0 == 2 && rank_groups(s).len() >= 2 && rank_groups(s)[1].0 == 2
            ==> rank_groups(s).len() >= 3,
        rank_groups(s)[0].0 == 2 && !(rank_groups(s).len() >= 2 && rank_groups(s)[1].0 == 2)
            ==> rank_groups(s).len() >= 4,
        forall|i: int| 0 <= i < rank_groups(s).len() ==> (#[trigger] rank_groups(s)[i]).1 < 13,
{
    lemma_count_from_total(s);
    lemma_level_weight(s, 0);
    lemma_level_elems(s, 1, 0);
    lemma_level_elems(s, 2, 0);
    lemma_level_elems(s, 3, 0);
    lemma_level_elems(s, 4, 0);
    lemma_level_elems(s, 5, 0);
    lemma_groups_above_elems(s, 0);
    let l1 = level(s, 1, 0);
    let l2 = level(s, 2, 0);
    let l3 = level(s, 3, 0);
    let l4 = level(s, 4, 0);
    let l5 = level(s, 5, 0);
    let g = rank_groups(s);
    assert(groups_above(s, 5) =~= seq![]);
    assert(groups_above(s, 4) == groups_above(s, 5) + l5);
    assert(groups_above(s, 3) == groups_above(s, 4) + l4);
    assert(groups_above(s, 2) == groups_above(s, 3) + l3);
    assert(groups_above(s, 1) == groups_above(s, 2) + l2);
    assert(groups_above(s, 0) == groups_above(s, 1) + l1);
    assert(g =~= seq![] + l5 + l4 + l3 + l2 + l1);
    let (n1, n2, n3, n4, n5) = (l1.len(), l2.len(), l3.len(), l4.len(), l5.len());
    assert(n1 + 2 * n2 + 3 * n3 + 4 * n4 + 5 * n5 == 5);
    assert forall|i: int| 0 <= i < g.len() implies (#[trigger] g[i]).0 == (if i < n5 {
        5u8
    } else if i < n5 + n4 {
        4u8
    } else if i < n5 + n4 + n3 {
        3u8
    } else if i < n5 + n4 + n3 + n2 {
        2u8
    } else {
        1u8
    }) by {
        if i < n5 {
            assert(g[i] == l5[i]);
        } else if i < n5 + n4 {
            assert(g[i] == l4[i - n5]);
        } else if i < n5 + n4 + n3 {
            assert(g[i] == l3[i - n5 - n4]);
        } else if i < n5 + n4 + n3 + n2 {
            assert(g[i] == l2[i - n5 - n4 - n3]);
        } else {
            assert(g[i] == l1[i - n5 - n4 - n3 - n2]);
        }
    }
}

/// A packed sequence of at most six ranks fits in `4 * len` bits.
proof fn lemma_pack_bound(s: Seq<u8>)
    requires
        s.len() <= 6,
    ensures
        pack_seq(s) < pow16(s.len()),
    decreases s.len(),
{
    if s.len() > 0 {
        let t = s.drop_last();
        lemma_pack_bound(t);
        lemma_pow16_le(t.len());
        let x = pack_seq(t);
        let y = s.last() as u32;
        assert(x < 0x1000000u32 ==> ((x << 4u32) | (y & 0xFu32)) == x * 16 + (y & 0xFu32)
            && (y & 0xFu32) < 16) by (bit_vector);
    }
}

/// `16 ^ n`.
pub open spec fn pow16(n: nat) -> nat
    decreases n,
{
    if n == 0 { 1 } else { 16 * pow16((n - 1) as nat) }
}

proof fn lemma_pow16_le(n: nat)
    requires
        n <= 5,
    ensures
        pow16(n) <= 0x100000,
{
    reveal_with_fuel(pow16, 6);
}

/// The kicker field of a five-card hand fits below bit 28, and the
/// category is at most 8.
pub proof fn lemma_category_inner_bounds(s: Seq<Card>)
    requires
        s.len() == 5,
        all_valid(s),
    ensures
        category_and_inner(s).0 <= 8,
        category_and_inner(s).1 < 0x1000_0000,
{
    lemma_group_shape(s);
    lemma_count_from_total(s);
    lemma_ranks_desc_len(s, 0);
    let g = rank_groups(s);
    let d = ranks_desc(s);
    lemma_pack_bound(d);
    lemma_pack_bound(seq![g[0].1, g[1].1]);
    lemma_pack_bound(seq![g[0].1, g[1].1, g[2].1]);
    lemma_pack_bound(seq![g[0].1, g[1].1, g[2].1, g[3].1]);
    lemma_pow16_le(5);
    reveal_with_fuel(pow16, 5);
}

/// The score of a five-card hand is `category * 2^28 + inner`.
pub proof fn lemma_score_decomposes(s: Seq<Card>)
    requires
        s.len() == 5,
        all_valid(s),
    ensures
        five_card_score(s) == category_and_inner(s).0 * 0x1000_0000 + category_and_inner(s).1,
{
    lemma_category_inner_bounds(s);
    let (cat, inner) = category_and_inner(s);
    assert(cat <= 8 && inner < 0x1000_0000 ==> ((cat << 28u32) | (inner & 0x0FFF_FFFFu32)) == cat
        * 0x1000_0000 + inner) by (bit_vector);
}

/// A hand of a higher category always outscores a hand of a lower one.
pub proof fn lemma_category_dominates(a: Seq<Card>, b: Seq<Card>)
    requires
        a.len() == 5,
        b.len() == 5,
        all_valid(a),
        all_valid(b),
        category_of(a) > category_of(b),
    ensures
        five_card_score(a) > five_card_score(b),
{
    lemma_score_decomposes(a);
    lemma_score_decomposes(b);
    lemma_category_inner_bounds(a);
    lemma_category_inner_bounds(b);
}

// ---------------------------------------------------------------------------
// Executable evaluator
// ---------------------------------------------------------------------------

/// Pack an ordered list of ranks (0..13, highest first) into a u32 with 4
/// bits per rank.
pub fn pack_ranks(ranks: &[u8]) -> (out: u32)
    ensures
        out == pack_seq(ranks@),
{
    let mut out: u32 = 0;
    let mut i: usize = 0;
    while i < ranks.len()
        invariant
            i <= ranks@.len(),
            out == pack_seq(ranks@.take(i as int)),
        decreases ranks.len() - i,
    {
        let r = ranks[i];
        proof {
            let t = ranks@.take(i as int + 1);
            assert(t.drop_last() =~= ranks@.take(i as int));
            assert(t.last() == r);
        }
        out = (out << 4) | (r as u32 & 0xF);
        i += 1;
    }
    assert(ranks@.take(ranks@.len() as int) =~= ranks@);
    out
}

/// Detect straight. `ranks` is 5 elements, sorted descending. Returns
/// `(is_straight, top_rank)`; the wheel's top is Five (rank 3).
pub fn detect_straight(ranks: &[u8; 5]) -> (r: (bool, u8))
    requires
        forall|i: int| 0 <= i < 5 ==> ranks@[i] < 13,
    ensures
        r == straight_of(ranks@),
{
    let normal = ranks[0] == ranks[1] + 1 && ranks[1] == ranks[2] + 1 && ranks[2] == ranks[3] + 1
        && ranks[3] == ranks[4] + 1;
    if normal {
        return (true, ranks[0]);
    }
    let wheel = ranks[0] == 12 && ranks[1] == 3 && ranks[2] == 2 && ranks[3] == 1 && ranks[4] == 0;
    if wheel {
        return (true, 3);
    }
    (false, 0)
}

/// Number of cards per rank, indexed by rank.
fn rank_histogram(cards: &[Card; 5]) -> (counts: Vec<u8>)
    requires
        all_valid(cards@),
    ensures
        counts@.len() == 13,
        forall|r: int| 0 <= r < 13 ==> #[trigger] counts@[r] == count_rank(cards@, r),
{
    let mut counts: Vec<u8> = Vec::new();
    let mut k: usize = 0;
    while k < 13
        invariant
            k <= 13,
            counts@.len() == k,
            forall|r: int| 0 <= r < k ==> counts@[r] == 0,
        decreases 13 - k,
    {
        counts.push(0);
        k += 1;
    }
    let mut i: usize = 0;
    while i < 5
        invariant
            i <= 5,
            all_valid(cards@),
            counts@.len() == 13,
            forall|r: int| 0 <= r < 13 ==> #[trigger] counts@[r] == count_rank(cards@.take(i as int), r),
        decreases 5 - i,
    {
        let c = cards[i];
        assert(valid_card(cards@[i as int]));
        let r = c.rank() as usize;
        proof {
            let t = cards@.take(i as int + 1);
            assert(t.drop_last() =~= cards@.take(i as int));
            assert(t.last() == c);
            assert forall|q: int| 0 <= q < 13 implies count_rank(cards@.take(i as int), q) <= i by {
                lemma_count_rank_le(cards@.take(i as int), q);
            }
        }
        let old_count = counts[r];
        counts.set(r, old_count + 1);
        i += 1;
    }
    assert(cards@.take(5) =~= cards@);
    counts
}

/// The ranks of the cards, highest first, built from the rank histogram.
fn ranks_from_histogram(counts: &Vec<u8>, Ghost(cards): Ghost<Seq<Card>>) -> (ranks: Vec<u8>)
    requires
        counts@.len() == 13,
        forall|r: int| 0 <= r < 13 ==> #[trigger] counts@[r] == count_rank(cards, r),
    ensures
        ranks@ == ranks_desc(cards),
{
    let mut ranks: Vec<u8> = Vec::new();
    let mut n: usize = 13;
    while n > 0
        invariant
            n <= 13,
            counts@.len() == 13,
            forall|r: int| 0 <= r < 13 ==> #[trigger] counts@[r] == count_rank(cards, r),
            ranks@ == ranks_desc_from(cards, n as nat),
        decreases n,
    {
        n -= 1;
        let m = counts[n];
        let mut k: u8 = 0;
        while k < m
            invariant
                k <= m,
                n < 13,
                m == count_rank(cards, n as int),
                ranks@ == ranks_desc_from(cards, (n + 1) as nat) + Seq::new(k as nat, |i: int| n as u8),
            decreases m - k,
        {
            ranks.push(n as u8);
            proof {
                assert(Seq::new((k + 1) as nat, |i: int| n as u8) =~= Seq::new(k as nat, |i: int| n as u8).push(n as u8));
            }
            k += 1;
        }
    }
    ranks
}

/// The `(count, rank)` groups, count descending then rank descending.
fn groups_from_histogram(counts: &Vec<u8>, Ghost(cards): Ghost<Seq<Card>>) -> (groups: Vec<(u8, u8)>)
    requires
        counts@.len() == 13,
        forall|r: int| 0 <= r < 13 ==> #[trigger] counts@[r] == count_rank(cards, r),
    ensures
        groups@ == rank_groups(cards),
{
    let mut groups: Vec<(u8, u8)> = Vec::new();
    let mut c: u8 = 5;
    while c > 0
        invariant
            c <= 5,
            counts@.len() == 13,
            forall|r: int| 0 <= r < 13 ==> #[trigger] counts@[r] == count_rank(cards, r),
            groups@ == groups_above(cards, c as nat),
        decreases c,
    {
        let mut n: usize = 13;
        while n > 0
            invariant
                n <= 13,
                1 <= c <= 5,
                counts@.len() == 13,
                forall|r: int| 0 <= r < 13 ==> #[trigger] counts@[r] == count_rank(cards, r),
                groups@ == groups_above(cards, c as nat) + level(cards, c as nat, n as nat),
            decreases n,
        {
            n -= 1;
            if counts[n] == c {
                groups.push((c, n as u8));
            }
            proof {
                let tail = if count_rank(cards, n as int) == c as nat {
                    seq![(c, n as u8)]
                } else {
                    seq![]
                };
                assert(level(cards, c as nat, n as nat) == level(cards, c as nat, (n + 1) as nat) + tail);
                assert(groups@ =~= groups_above(cards, c as nat) + level(cards, c as nat, n as nat));
            }
        }
        c -= 1;
    }
    groups
}

/// Categorical 5-card hand evaluator. Returns `HandRank(category << 28 |
/// inner)`.
pub fn eval_five(cards: &[Card; 5]) -> (r: HandRank)
    requires
        all_valid(cards@),
    ensures
        r.0 == five_card_score(cards@),
{
    let ghost s = cards@;
    proof {
        lemma_count_from_total(s);
        lemma_ranks_desc_len(s, 0);
        lemma_group_shape(s);
    }
    let counts = rank_histogram(cards);
    let rv = ranks_from_histogram(&counts, Ghost(s));
    let groups = groups_from_histogram(&counts, Ghost(s));
    let ranks: [u8; 5] = [rv[0], rv[1], rv[2], rv[3], rv[4]];
    assert(ranks@ =~= rv@);
    let s0 = cards[0].suit();
    let s1 = cards[1].suit();
    let s2 = cards[2].suit();
    let s3 = cards[3].suit();
    let s4 = cards[4].suit();
    let flush = s0 == s1 && s1 == s2 && s2 == s3 && s3 == s4;
    proof {
        assert forall|i: int| 0 <= i < 5 implies ranks@[i] < 13 by {
            lemma_ranks_desc_elems(s, 0);
        }
    }
    let (is_straight, top) = detect_straight(&ranks);

    let (category, inner): (u32, u32) = if flush && is_straight {
        (8, top as u32)
    } else if groups[0].0 == 4 {
        (7, pack_ranks(&[groups[0].1, groups[1].1]))
    } else if groups[0].0 == 3 && groups.len() >= 2 && groups[1].0 == 2 {
        (6, pack_ranks(&[groups[0].1, groups[1].1]))
    } else if flush {
        (5, pack_ranks(&ranks))
    } else if is_straight {
        (4, top as u32)
    } else if groups[0].0 == 3 {
        (3, pack_ranks(&[groups[0].1, groups[1].1, groups[2].1]))
    } else if groups[0].0 == 2 && groups.len() >= 2 && groups[1].0 == 2 {
        (2, pack_ranks(&[groups[0].1, groups[1].1, groups[2].1]))
    } else if groups[0].0 == 2 {
        (1, pack_ranks(&[groups[0].1, groups[1].1, groups[2].1, groups[3].1]))
    } else {
        (0, pack_ranks(&ranks))
    };
    proof {
        assert((category, inner) == category_and_inner(s));
    }
    assert((1u32 << 28u32) == 0x1000_0000u32) by (bit_vector);
    let mask: u32 = (1u32 << 28) - 1;
    HandRank((category << 28) | (inner & mask))
}

proof fn lemma_ranks_desc_elems(s: Seq<Card>, n: nat)
    ensures
        forall|i: int| 0 <= i < ranks_desc_from(s, n).len() ==> #[trigger] ranks_desc_from(s, n)[i] < 13,
    decreases 13 - n,
{
    if n < 13 {
        lemma_ranks_desc_elems(s, n + 1);
        let a = ranks_desc_from(s, n + 1);
        let b = Seq::new(count_rank(s, n as int), |i: int| n as u8);
        let d = ranks_desc_from(s, n);
        assert(d == a + b);
        assert forall|i: int| 0 <= i < d.len() implies #[trigger] d[i] < 13 by {
            if i < a.len() {
                assert(d[i] == a[i]);
            } else {
                assert(d[i] == b[i - a.len()]);
            }
        }
    }
}

/// Position, among seven cards, of the `j`-th card kept when positions `a`
/// and `b` (`a < b`) are left out.
pub open spec fn kept_index(a: int, b: int, j: int) -> int {
    if j < a {
        j
    } else if j + 1 < b {
        j + 1
    } else {
        j + 2
    }
}

/// The five cards of `c` left after removing positions `a < b`, in order.
pub open spec fn drop_two(c: Seq<Card>, a: int, b: int) -> Seq<Card> {
    Seq::new(5, |j: int| c[kept_index(a, b, j)])
}

/// `v` is the best five-card score among the 21 five-card subsets of the
/// seven cards `c`: no subset scores more, and some subset scores exactly
/// `v`.
pub open spec fn is_best_of_seven(c: Seq<Card>, v: u32) -> bool {
    &&& forall|a: int, b: int| 0 <= a < b < 7 ==> #[trigger] five_card_score(drop_two(c, a, b)) <= v
    &&& exists|a: int, b: int| 0 <= a < b < 7 && v == #[trigger] five_card_score(drop_two(c, a, b))
}

/// The seven cards of a hand and a full board: hole cards first.
pub open spec fn seven_cards(hand: Hand, board: Board) -> Seq<Card> {
    hand.0@ + board.cards@
}

proof fn lemma_drop_two_valid(c: Seq<Card>, a: int, b: int)
    requires
        c.len() == 7,
        all_valid(c),
        0 <= a < b < 7,
    ensures
        all_valid(drop_two(c, a, b)),
        drop_two(c, a, b).len() == 5,
{
    let d = drop_two(c, a, b);
    assert forall|i: int| 0 <= i < d.len() implies valid_card(#[trigger] d[i]) by {
        assert(0 <= kept_index(a, b, i) < 7);
    }
}

/// The best five-card score among the 21 five-card subsets of `cards`.
fn best_of_seven(cards: &[Card; 7]) -> (best: HandRank)
    requires
        all_valid(cards@),
    ensures
        is_best_of_seven(cards@, best.0),
{
    let ghost c = cards@;
    let mut best = HandRank(0);
    let mut a: usize = 0;
    while a < 6
        invariant
            a <= 6,
            c == cards@,
            all_valid(c),
            forall|x: int, y: int| 0 <= x < y < 7 && x < a ==> #[trigger] five_card_score(drop_two(c, x, y)) <= best.0,
            best.0 == 0 || exists|x: int, y: int| 0 <= x < y < 7 && x < a && best.0 == #[trigger] five_card_score(drop_two(c, x, y)),
        decreases 6 - a,
    {
        let mut b: usize = a + 1;
        while b < 7
            invariant
                a < 6,
                a < b <= 7,
                c == cards@,
                all_valid(c),
                forall|x: int, y: int| 0 <= x < y < 7 && (x < a || (x == a && y < b)) ==> #[trigger] five_card_score(drop_two(c, x, y)) <= best.0,
                best.0 == 0 || exists|x: int, y: int| 0 <= x < y < 7 && (x < a || (x == a && y < b)) && best.0 == #[trigger] five_card_score(drop_two(c, x, y)),
            decreases 7 - b,
        {
            let mut idx: [usize; 5] = [0; 5];
            let mut j: usize = 0;
            while j < 5
                invariant
                    j <= 5,
                    a < b < 7,
                    forall|q: int| 0 <= q < j ==> #[trigger] idx@[q] == kept_index(a as int, b as int, q),
                decreases 5 - j,
            {
                let k = if j < a { j } else if j + 1 < b { j + 1 } else { j + 2 };
                idx[j] = k;
                j += 1;
            }
            let five: [Card; 5] = [cards[idx[0]], cards[idx[1]], cards[idx[2]], cards[idx[3]], cards[idx[4]]];
            proof {
                lemma_drop_two_valid(c, a as int, b as int);
                assert(five@ =~= drop_two(c, a as int, b as int));
            }
            let r = eval_five(&five);
            if r.0 > best.0 {
                best = r;
            }
            b += 1;
        }
        a += 1;
    }
    proof {
        if best.0 == 0 {
            lemma_drop_two_valid(c, 0, 1);
            assert(five_card_score(drop_two(c, 0, 1)) <= best.0);
            assert(best.0 == five_card_score(drop_two(c, 0, 1)));
        }
    }
    best
}

/// Public 7-card evaluator: the best 5-card hand rank from the 2 hole
/// cards and the 5 board cards.
pub fn reference_eval_7(hand: &Hand, board: &Board) -> (r: HandRank)
    requires
        board.len == 5,
        all_valid(seven_cards(*hand, *board)),
    ensures
        is_best_of_seven(seven_cards(*hand, *board), r.0),
{
    let cards: [Card; 7] = [
        hand.0[0],
        hand.0[1],
        board.cards[0],
        board.cards[1],
        board.cards[2],
        board.cards[3],
        board.cards[4],
    ];
    assert(cards@ =~= seven_cards(*hand, *board));
    best_of_seven(&cards)
}

/// Public 5-card evaluator.
pub fn reference_eval_5(cards: &[Card; 5]) -> (r: HandRank)
    requires
        all_valid(cards@),
    ensures
        r.0 == five_card_score(cards@),
{
    eval_five(cards)
}

// ---------------------------------------------------------------------------
// Kicker laws
// ---------------------------------------------------------------------------

/// The level of count `c` over ranks `n..13` is exactly the ranks `rs`
/// (strictly decreasing, all in `n..13`) that occur `c` times.
proof fn lemma_level_is(s: Seq<Card>, c: nat, n: nat, rs: Seq<u8>)
    requires
        1 <= c <= 5,
        n <= 13,
        forall|i: int, j: int| 0 <= i < j < rs.len() ==> rs[i] > rs[j],
        forall|i: int| 0 <= i < rs.len() ==> n <= #[trigger] rs[i] < 13,
        forall|i: int| 0 <= i < rs.len() ==> count_rank(s, #[trigger] rs[i] as int) == c,
        forall|r: int| n <= r < 13 && !rs.contains(r as u8) ==> count_rank(s, r) != c,
    ensures
        level(s, c, n) == rs.map_values(|r: u8| (c as u8, r)),
    decreases 13 - n,
{
    if n >= 13 {
        if rs.len() > 0 {
            assert(n <= rs[0] < 13);
        }
        assert(rs.map_values(|r: u8| (c as u8, r)) =~= Seq::<(u8, u8)>::empty());
    } else {
        let m = |r: u8| (c as u8, r);
        if count_rank(s, n as int) == c {
            assert(rs.contains(n as u8));
            let i = choose|i: int| 0 <= i < rs.len() && rs[i] == n as u8;
            if i < rs.len() - 1 {
                assert(rs[i] > rs[rs.len() - 1]);
                assert(n <= rs[rs.len() - 1]);
            }
            assert(rs.last() == n as u8);
            let t = rs.drop_last();
            assert forall|r: int| n + 1 <= r < 13 && !t.contains(r as u8) implies count_rank(s, r)
                != c by {
                if rs.contains(r as u8) {
                    let j = choose|j: int| 0 <= j < rs.len() && rs[j] == r as u8;
                    if j < rs.len() - 1 {
                        assert(t[j] == r as u8);
                    }
                }
            }
            assert forall|k: int| 0 <= k < t.len() implies n + 1 <= #[trigger] t[k] < 13 by {
                assert(t[k] == rs[k]);
                assert(rs[k] > rs[rs.len() - 1]);
            }
            assert forall|k: int| 0 <= k < t.len() implies count_rank(s, #[trigger] t[k] as int)
                == c by {
                assert(t[k] == rs[k]);
            }
            lemma_level_is(s, c, n + 1, t);
            assert(rs.map_values(m) =~= t.map_values(m) + seq![(c as u8, n as u8)]);
        } else {
            assert forall|k: int| 0 <= k < rs.len() implies n + 1 <= #[trigger] rs[k] < 13 by {
                if rs[k] == n as u8 {
                    assert(count_rank(s, rs[k] as int) == c);
                }
            }
            lemma_level_is(s, c, n + 1, rs);
            assert(level(s, c, n) =~= level(s, c, n + 1));
        }
    }
}

/// Two positions holding cards of rank `r` when `r` occurs at least twice.
proof fn lemma_two_of_rank(s: Seq<Card>, r: int)
    requires
        count_rank(s, r) >= 2,
    ensures
        exists|i: int, j: int|
            0 <= i < j < s.len() && rank_of(#[trigger] s[i]) == r && rank_of(#[trigger] s[j]) == r,
    decreases s.len(),
{
    let t = s.drop_last();
    if count_rank(t, r) >= 2 {
        lemma_two_of_rank(t, r);
        let (i, j) = choose|i: int, j: int|
            0 <= i < j < t.len() && rank_of(#[trigger] t[i]) == r && rank_of(#[trigger] t[j]) == r;
        assert(s[i] == t[i] && s[j] == t[j]);
    } else {
        assert(count_rank(t, r) >= 1);
        lemma_one_of_rank(t, r);
        let i = choose|i: int| 0 <= i < t.len() && rank_of(#[trigger] t[i]) == r;
        assert(s[i] == t[i]);
        assert(rank_of(s[s.len() - 1]) == r);
    }
}

/// A position holding a card of rank `r` when `r` occurs.
proof fn lemma_one_of_rank(s: Seq<Card>, r: int)
    requires
        count_rank(s, r) >= 1,
    ensures
        exists|i: int| 0 <= i < s.len() && rank_of(#[trigger] s[i]) == r,
    decreases s.len(),
{
    let t = s.drop_last();
    if count_rank(t, r) >= 1 {
        lemma_one_of_rank(t, r);
        let i = choose|i: int| 0 <= i < t.len() && rank_of(#[trigger] t[i]) == r;
        assert(s[i] == t[i]);
    } else {
        assert(rank_of(s[s.len() - 1]) == r);
    }
}

/// Two positions of the descending rank list hold `r` when `r` occurs at
/// least twice.
proof fn lemma_ranks_desc_repeat(s: Seq<Card>, n: nat, r: int)
    requires
        n <= r < 13,
        count_rank(s, r) >= 2,
    ensures
        exists|i: int, j: int|
            0 <= i < j < ranks_desc_from(s, n).len() && #[trigger] ranks_desc_from(s, n)[i] == r
                && #[trigger] ranks_desc_from(s, n)[j] == r,
    decreases 13 - n,
{
    let a = ranks_desc_from(s, n + 1);
    let b = Seq::new(count_rank(s, n as int), |i: int| n as u8);
    let d = ranks_desc_from(s, n);
    assert(d == a + b);
    if n == r {
        assert(d[a.len() as int] == r);
        assert(d[a.len() as int + 1] == r);
    } else {
        lemma_ranks_desc_repeat(s, n + 1, r);
        let (i, j) = choose|i: int, j: int|
            0 <= i < j < a.len() && #[trigger] a[i] == r && #[trigger] a[j] == r;
        assert(d[i] == a[i] && d[j] == a[j]);
    }
}

/// Five distinct cards with a repeated rank are neither a flush nor a
/// straight.
proof fn lemma_pair_is_no_flush_or_straight(s: Seq<Card>, r: int)
    requires
        s.len() == 5,
        all_valid(s),
        s.no_duplicates(),
        0 <= r < 13,
        count_rank(s, r) >= 2,
    ensures
        !is_flush(s),
        !straight_of(ranks_desc(s)).0,
{
    lemma_two_of_rank(s, r);
    let (i, j) = choose|i: int, j: int|
        0 <= i < j < s.len() && rank_of(#[trigger] s[i]) == r && rank_of(#[trigger] s[j]) == r;
    if is_flush(s) {
        assert(suit_of(s[i]) == suit_of(s[j]));
        assert(s[i].0 == s[j].0);
        assert(s[i] == s[j]);
    }
    lemma_count_from_total(s);
    lemma_ranks_desc_len(s, 0);
    lemma_ranks_desc_repeat(s, 0, r);
    let d = ranks_desc(s);
    let (x, y) = choose|x: int, y: int|
        0 <= x < y < ranks_desc_from(s, 0).len() && #[trigger] ranks_desc_from(s, 0)[x] == r
            && #[trigger] ranks_desc_from(s, 0)[y] == r;
    if straight_of(d).0 {
        assert(d.len() == 5);
        assert(forall|u: int, v: int| 0 <= u < v < 5 ==> d[u] != d[v]);
        assert(d[x] != d[y]);
    }
}

/// Three ranks packed four bits each, as a number.
proof fn lemma_pack3(x: u8, y: u8, z: u8)
    requires
        x < 16,
        y < 16,
        z < 16,
    ensures
        pack_seq(seq![x, y, z]) == x * 256 + y * 16 + z,
{
    let s = seq![x, y, z];
    assert(s.drop_last() =~= seq![x, y]);
    assert(seq![x, y].drop_last() =~= seq![x]);
    assert(seq![x].drop_last() =~= Seq::<u8>::empty());
    let (a, b, c) = (x as u32, y as u32, z as u32);
    let p0 = pack_seq(Seq::<u8>::empty());
    assert(p0 == 0);
    let p1 = pack_seq(seq![x]);
    assert(p1 == ((p0 << 4u32) | (a & 0xFu32)));
    assert(((0u32 << 4u32) | (a & 0xFu32)) == a) by (bit_vector)
        requires
            a < 16,
    ;
    let p2 = pack_seq(seq![x, y]);
    assert(p2 == ((p1 << 4u32) | (b & 0xFu32)));
    assert(((a << 4u32) | (b & 0xFu32)) == a * 16 + b) by (bit_vector)
        requires
            a < 16,
            b < 16,
    ;
    let p3 = pack_seq(s);
    assert(p3 == ((p2 << 4u32) | (c & 0xFu32)));
    assert(((((a * 16 + b) as u32) << 4u32) | (c & 0xFu32)) == a * 256 + b * 16 + c) by (bit_vector)
        requires
            a < 16,
            b < 16,
            c < 16,
    ;
}

/// The groups of a two-pair hand: pairs `p > q` and kicker `k`.
proof fn lemma_two_pair_groups(s: Seq<Card>, p: u8, q: u8, k: u8)
    requires
        s.len() == 5,
        all_valid(s),
        q < p < 13,
        k < 13,
        k != p,
        k != q,
        count_rank(s, p as int) == 2,
        count_rank(s, q as int) == 2,
        count_rank(s, k as int) == 1,
        forall|r: int| 0 <= r < 13 && r != p && r != q && r != k ==> count_rank(s, r) == 0,
    ensures
        rank_groups(s) == seq![(2u8, p), (2u8, q), (1u8, k)],
{
    let e: Seq<u8> = seq![];
    lemma_level_is(s, 5, 0, e);
    lemma_level_is(s, 4, 0, e);
    lemma_level_is(s, 3, 0, e);
    let two: Seq<u8> = seq![p, q];
    let one: Seq<u8> = seq![k];
    assert(two[0] == p && two[1] == q && one[0] == k);
    assert forall|r: int| 0 <= r < 13 && !two.contains(r as u8) implies count_rank(s, r) != 2 by {
        if r == p {
            assert(two.contains(r as u8));
        }
        if r == q {
            assert(two.contains(r as u8));
        }
    }
    assert forall|r: int| 0 <= r < 13 && !one.contains(r as u8) implies count_rank(s, r) != 1 by {
        if r == k {
            assert(one.contains(r as u8));
        }
    }
    lemma_level_is(s, 2, 0, two);
    lemma_level_is(s, 1, 0, one);
    assert(groups_above(s, 5) =~= seq![]);
    assert(groups_above(s, 4) == groups_above(s, 5) + level(s, 5, 0));
    assert(groups_above(s, 3) == groups_above(s, 4) + level(s, 4, 0));
    assert(groups_above(s, 2) == groups_above(s, 3) + level(s, 3, 0));
    assert(groups_above(s, 1) == groups_above(s, 2) + level(s, 2, 0));
    assert(groups_above(s, 0) == groups_above(s, 1) + level(s, 1, 0));
    assert(e.map_values(|r: u8| (5u8, r)) =~= Seq::<(u8, u8)>::empty());
    assert(e.map_values(|r: u8| (4u8, r)) =~= Seq::<(u8, u8)>::empty());
    assert(e.map_values(|r: u8| (3u8, r)) =~= Seq::<(u8, u8)>::empty());
    assert(two.map_values(|r: u8| (2u8, r)) =~= seq![(2u8, p), (2u8, q)]);
    assert(one.map_values(|r: u8| (1u8, r)) =~= seq![(1u8, k)]);
    assert(rank_groups(s) =~= seq![(2u8, p), (2u8, q), (1u8, k)]);
}

/// The groups of a three-of-a-kind hand: trips `p`, kickers `k1 > k2`.
proof fn lemma_trips_groups(s: Seq<Card>, p: u8, k1: u8, k2: u8)
    requires
        s.len() == 5,
        all_valid(s),
        p < 13,
        k2 < k1 < 13,
        k1 != p,
        k2 != p,
        count_rank(s, p as int) == 3,
        count_rank(s, k1 as int) == 1,
        count_rank(s, k2 as int) == 1,
        forall|r: int| 0 <= r < 13 && r != p && r != k1 && r != k2 ==> count_rank(s, r) == 0,
    ensures
        rank_groups(s) == seq![(3u8, p), (1u8, k1), (1u8, k2)],
{
    let e: Seq<u8> = seq![];
    lemma_level_is(s, 5, 0, e);
    lemma_level_is(s, 4, 0, e);
    let three: Seq<u8> = seq![p];
    let one: Seq<u8> = seq![k1, k2];
    assert(three[0] == p && one[0] == k1 && one[1] == k2);
    assert forall|r: int| 0 <= r < 13 && !three.contains(r as u8) implies count_rank(s, r) != 3 by {
        if r == p {
            assert(three.contains(r as u8));
        }
    }
    assert forall|r: int| 0 <= r < 13 && !one.contains(r as u8) implies count_rank(s, r) != 1 by {
        if r == k1 {
            assert(one.contains(r as u8));
        }
        if r == k2 {
            assert(one.contains(r as u8));
        }
    }
    lemma_level_is(s, 3, 0, three);
    lemma_level_is(s, 2, 0, e);
    lemma_level_is(s, 1, 0, one);
    assert(groups_above(s, 5) =~= seq![]);
    assert(groups_above(s, 4) == groups_above(s, 5) + level(s, 5, 0));
    assert(groups_above(s, 3) == groups_above(s, 4) + level(s, 4, 0));
    assert(groups_above(s, 2) == groups_above(s, 3) + level(s, 3, 0));
    assert(groups_above(s, 1) == groups_above(s, 2) + level(s, 2, 0));
    assert(groups_above(s, 0) == groups_above(s, 1) + level(s, 1, 0));
    assert(e.map_values(|r: u8| (5u8, r)) =~= Seq::<(u8, u8)>::empty());
    assert(e.map_values(|r: u8| (4u8, r)) =~= Seq::<(u8, u8)>::empty());
    assert(e.map_values(|r: u8| (2u8, r)) =~= Seq::<(u8, u8)>::empty());
    assert(three.map_values(|r: u8| (3u8, r)) =~= seq![(3u8, p)]);
    assert(one.map_values(|r: u8| (1u8, r)) =~= seq![(1u8, k1), (1u8, k2)]);
    assert(rank_groups(s) =~= seq![(3u8, p), (1u8, k1), (1u8, k2)]);
}

/// Two-pair hands are ranked by high pair, then low pair, then kicker:
/// for five distinct cards made of pairs `pa > qa` and kicker `ka`, and
/// another such hand with `pb > qb` and `kb`, the first scores strictly
/// higher whenever `(pa, qa, ka)` is lexicographically greater than
/// `(pb, qb, kb)`. In particular, equal pairs are decided by the kicker.
pub proof fn lemma_two_pair_order(
    a: Seq<Card>,
    pa: u8,
    qa: u8,
    ka: u8,
    b: Seq<Card>,
    pb: u8,
    qb: u8,
    kb: u8,
)
    requires
        a.len() == 5,
        all_valid(a),
        a.no_duplicates(),
        qa < pa < 13,
        ka < 13,
        ka != pa,
        ka != qa,
        count_rank(a, pa as int) == 2,
        count_rank(a, qa as int) == 2,
        count_rank(a, ka as int) == 1,
        forall|r: int| 0 <= r < 13 && r != pa && r != qa && r != ka ==> count_rank(a, r) == 0,
        b.len() == 5,
        all_valid(b),
        b.no_duplicates(),
        qb < pb < 13,
        kb < 13,
        kb != pb,
        kb != qb,
        count_rank(b, pb as int) == 2,
        count_rank(b, qb as int) == 2,
        count_rank(b, kb as int) == 1,
        forall|r: int| 0 <= r < 13 && r != pb && r != qb && r != kb ==> count_rank(b, r) == 0,
        pa > pb || (pa == pb && qa > qb) || (pa == pb && qa == qb && ka > kb),
    ensures
        five_card_score(a) > five_card_score(b),
{
    lemma_two_pair_groups(a, pa, qa, ka);
    lemma_two_pair_groups(b, pb, qb, kb);
    lemma_pair_is_no_flush_or_straight(a, pa as int);
    lemma_pair_is_no_flush_or_straight(b, pb as int);
    lemma_pack3(pa, qa, ka);
    lemma_pack3(pb, qb, kb);
    assert(category_and_inner(a) == (2u32, (pa * 256 + qa * 16 + ka) as u32));
    assert(category_and_inner(b) == (2u32, (pb * 256 + qb * 16 + kb) as u32));
    lemma_score_decomposes(a);
    lemma_score_decomposes(b);
}

/// Three-of-a-kind hands are ranked by trip rank, then by the two kickers,
/// highest first: for five distinct cards made of trips `pa` and kickers
/// `ka1 > ka2`, and another such hand with `pb`, `kb1 > kb2`, the first
/// scores strictly higher whenever `(pa, ka1, ka2)` is lexicographically
/// greater than `(pb, kb1, kb2)`. In particular, equal trips and first
/// kickers are decided by the second kicker.
pub proof fn lemma_trips_order(
    a: Seq<Card>,
    pa: u8,
    ka1: u8,
    ka2: u8,
    b: Seq<Card>,
    pb: u8,
    kb1: u8,
    kb2: u8,
)
    requires
        a.len() == 5,
        all_valid(a),
        a.no_duplicates(),
        pa < 13,
        ka2 < ka1 < 13,
        ka1 != pa,
        ka2 != pa,
        count_rank(a, pa as int) == 3,
        count_rank(a, ka1 as int) == 1,
        count_rank(a, ka2 as int) == 1,
        forall|r: int| 0 <= r < 13 && r != pa && r != ka1 && r != ka2 ==> count_rank(a, r) == 0,
        b.len() == 5,
        all_valid(b),
        b.no_duplicates(),
        pb < 13,
        kb2 < kb1 < 13,
        kb1 != pb,
        kb2 != pb,
        count_rank(b, pb as int) == 3,
        count_rank(b, kb1 as int) == 1,
        count_rank(b, kb2 as int) == 1,
        forall|r: int| 0 <= r < 13 && r != pb && r != kb1 && r != kb2 ==> count_rank(b, r) == 0,
        pa > pb || (pa == pb && ka1 > kb1) || (pa == pb && ka1 == kb1 && ka2 > kb2),
    ensures
        five_card_score(a) > five_card_score(b),
{
    lemma_trips_groups(a, pa, ka1, ka2);
    lemma_trips_groups(b, pb, kb1, kb2);
    lemma_pair_is_no_flush_or_straight(a, pa as int);
    lemma_pair_is_no_flush_or_straight(b, pb as int);
    lemma_pack3(pa, ka1, ka2);
    lemma_pack3(pb, kb1, kb2);
    assert(category_and_inner(a) == (3u32, (pa * 256 + ka1 * 16 + ka2) as u32));
    assert(category_and_inner(b) == (3u32, (pb * 256 + kb1 * 16 + kb2) as u32));
    lemma_score_decomposes(a);
    lemma_score_decomposes(b);
}

} // verus!

