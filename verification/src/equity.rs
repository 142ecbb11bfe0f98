//! Heads-up equity by showdown counting: the exact outcome on a full
//! board, exhaustive enumeration of every runout of the remaining deck,
//! and seeded Monte Carlo sampling. The functions here count outcomes;
//! turning counts into fractions is left to the caller.

use vstd::prelude::*;
use rand::SeedableRng;
use rand::seq::SliceRandom;
use rand_xoshiro::Xoshiro256StarStar;
use crate::cards::{Card, Hand, Board, HandRank, valid_card};
use crate::eval::{is_best_of_seven, seven_cards, reference_eval_7, all_valid, five_card_score, drop_two};
use crate::showdown::{reference_showdown_winners, showdown_winners, best_score, positions_with};

verus! {

/// Who wins a heads-up showdown.
#[derive(Debug, Clone, Copy, PartialEq, Eq, Structural)]
pub enum Showdown {
    /// Hero's hand is strictly better.
    HeroWins,
    /// Villain's hand is strictly better.
    VillainWins,
    /// The hands chop.
    Tie,
}

/// Outcome counts over a set of runouts.
#[derive(Debug, Clone, Copy, PartialEq, Eq, Structural)]
pub struct EquityTally {
    /// Runouts hero wins outright.
    pub hero_wins: u64,
    /// Runouts villain wins outright.
    pub villain_wins: u64,
    /// Runouts that chop.
    pub ties: u64,
    /// Runouts counted.
    pub total: u64,
}

/// The value of the best five of seven cards.
pub open spec fn seven_rank(c: Seq<Card>) -> u32 {
    choose|v: u32| is_best_of_seven(c, v)
}

/// The best five-of-seven value is unique.
pub proof fn lemma_seven_rank_unique(c: Seq<Card>, v: u32)
    requires
        is_best_of_seven(c, v),
    ensures
        seven_rank(c) == v,
{
    let w = seven_rank(c);
    assert(is_best_of_seven(c, w));
    let (a, b) = choose|a: int, b: int| 0 <= a < b < 7 && v == #[trigger] five_card_score(drop_two(c, a, b));
    let (x, y) = choose|x: int, y: int| 0 <= x < y < 7 && w == #[trigger] five_card_score(drop_two(c, x, y));
    assert(five_card_score(drop_two(c, a, b)) <= w);
    assert(five_card_score(drop_two(c, x, y)) <= v);
}

/// The showdown between two hands on seven-card sets.
pub open spec fn showdown_between(hero_cards: Seq<Card>, villain_cards: Seq<Card>) -> Showdown {
    let (h, v) = (seven_rank(hero_cards), seven_rank(villain_cards));
    if h > v {
        Showdown::HeroWins
    } else if v > h {
        Showdown::VillainWins
    } else {
        Showdown::Tie
    }
}

/// The showdown on a full board.
pub open spec fn river_showdown(hero: Hand, villain: Hand, board: Board) -> Showdown {
    showdown_between(seven_cards(hero, board), seven_cards(villain, board))
}

/// The cards of a hand and a board (every dealt card) are valid.
pub open spec fn cards_valid(hero: Hand, villain: Hand, board: Board) -> bool {
    &&& board.len <= 5
    &&& valid_card(hero.0[0]) && valid_card(hero.0[1])
    &&& valid_card(villain.0[0]) && valid_card(villain.0[1])
    &&& forall|k: int| 0 <= k < board.len ==> valid_card(#[trigger] board.cards[k])
}

/// The showdown of hero against villain on a full board: the better
/// best-five-of-seven wins, equal values chop.
pub fn reference_exact_river_outcome(hero: &Hand, villain: &Hand, board: &Board) -> (r: Showdown)
    requires
        board.len == 5,
        cards_valid(*hero, *villain, *board),
    ensures
        r == river_showdown(*hero, *villain, *board),
{
    assert(all_valid(seven_cards(*hero, *board)));
    assert(all_valid(seven_cards(*villain, *board)));
    let hero_rank = reference_eval_7(hero, board);
    let villain_rank = reference_eval_7(villain, board);
    proof {
        lemma_seven_rank_unique(seven_cards(*hero, *board), hero_rank.0);
        lemma_seven_rank_unique(seven_cards(*villain, *board), villain_rank.0);
    }
    let ranks = [hero_rank, villain_rank];
    let winners = reference_showdown_winners(ranks.as_slice());
    proof {
        let s = ranks@;
        assert(s =~= seq![hero_rank, villain_rank]);
        reveal_with_fuel(positions_with, 3);
        reveal_with_fuel(best_score, 3);
        if hero_rank.0 > villain_rank.0 {
            assert(showdown_winners(s) =~= seq![0usize]);
        } else if villain_rank.0 > hero_rank.0 {
            assert(showdown_winners(s) =~= seq![1usize]);
        } else {
            assert(showdown_winners(s) =~= seq![0usize, 1usize]);
        }
    }
    if winners.len() == 1 && winners[0] == 0 {
        Showdown::HeroWins
    } else if winners.len() == 1 {
        Showdown::VillainWins
    } else {
        Showdown::Tie
    }
}

/// Card `c` is held by one of the players or dealt on the board.
pub open spec fn is_known(hero: Hand, villain: Hand, board: Board, c: int) -> bool {
    ||| hero.0[0].0 == c
    ||| hero.0[1].0 == c
    ||| villain.0[0].0 == c
    ||| villain.0[1].0 == c
    ||| exists|k: int| 0 <= k < board.len && #[trigger] board.cards[k].0 == c
}

/// The unknown cards below `n`, in increasing order.
pub open spec fn deck_below(hero: Hand, villain: Hand, board: Board, n: int) -> Seq<Card>
    decreases n,
{
    if n <= 0 {
        seq![]
    } else {
        let d = deck_below(hero, villain, board, n - 1);
        if is_known(hero, villain, board, n - 1) {
            d
        } else {
            d.push(Card((n - 1) as u8))
        }
    }
}

/// The cards still in the deck, in increasing order.
pub open spec fn remaining_deck(hero: Hand, villain: Hand, board: Board) -> Seq<Card> {
    deck_below(hero, villain, board, 52)
}

/// The cards still in the deck.
fn build_deck(hero: &Hand, villain: &Hand, board: &Board) -> (deck: Vec<Card>)
    requires
        board.len <= 5,
    ensures
        deck@ == remaining_deck(*hero, *villain, *board),
        deck@.len() <= 52,
        forall|j: int| 0 <= j < deck@.len() ==> valid_card(#[trigger] deck@[j]),
{
    let mut known: Vec<bool> = Vec::new();
    let mut c: u8 = 0;
    while c < 52
        invariant
            c <= 52,
            board.len <= 5,
            known@.len() == c,
            forall|j: int| 0 <= j < c ==> #[trigger] known@[j] == is_known(*hero, *villain, *board, j),
        decreases 52 - c,
    {
        let mut k: u8 = 0;
        let mut on_board = false;
        while k < board.len
            invariant
                k <= board.len <= 5,
                on_board == exists|q: int| 0 <= q < k && #[trigger] board.cards[q].0 == c,
            decreases board.len - k,
        {
            if board.cards[k as usize].0 == c {
                on_board = true;
            }
            k += 1;
        }
        let hit = hero.0[0].0 == c || hero.0[1].0 == c || villain.0[0].0 == c || villain.0[1].0 == c
            || on_board;
        known.push(hit);
        c += 1;
    }
    let mut deck: Vec<Card> = Vec::new();
    let mut i: u8 = 0;
    while i < 52
        invariant
            i <= 52,
            known@.len() == 52,
            forall|j: int| 0 <= j < 52 ==> #[trigger] known@[j] == is_known(*hero, *villain, *board, j),
            deck@ == deck_below(*hero, *villain, *board, i as int),
            deck@.len() <= i,
            forall|j: int| 0 <= j < deck@.len() ==> (#[trigger] deck@[j]).0 < i,
        decreases 52 - i,
    {
        if !known[i as usize] {
            deck.push(Card(i));
        }
        i += 1;
    }
    deck
}

/// Every `k`-card combination of `deck[i..]`, in lexicographic order of
/// positions.
pub open spec fn combos(deck: Seq<Card>, i: int, k: nat) -> Seq<Seq<Card>>
    decreases deck.len() - i, k,
{
    if k == 0 {
        seq![seq![]]
    } else if i < 0 || i + k > deck.len() {
        seq![]
    } else {
        combos(deck, i + 1, (k - 1) as nat).map_values(|c: Seq<Card>| seq![deck[i]] + c) + combos(
            deck,
            i + 1,
            k,
        )
    }
}

/// The seven cards of a hand on a board completed by a runout.
pub open spec fn with_runout(hand: Hand, board: Board, runout: Seq<Card>) -> Seq<Card> {
    hand.0@ + board.cards@.take(board.len as int) + runout
}

/// The showdown on a board completed by a runout.
pub open spec fn runout_showdown(hero: Hand, villain: Hand, board: Board, runout: Seq<Card>) -> Showdown {
    showdown_between(with_runout(hero, board, runout), with_runout(villain, board, runout))
}

/// Outcome counts `(hero, villain, ties)` over runouts, each prefixed by
/// `prefix`.
pub open spec fn count_outcomes(
    hero: Hand,
    villain: Hand,
    board: Board,
    prefix: Seq<Card>,
    runouts: Seq<Seq<Card>>,
) -> (nat, nat, nat)
    decreases runouts.len(),
{
    if runouts.len() == 0 {
        (0, 0, 0)
    } else {
        let (h, v, t) = count_outcomes(hero, villain, board, prefix, runouts.drop_last());
        match runout_showdown(hero, villain, board, prefix + runouts.last()) {
            Showdown::HeroWins => (h + 1, v, t),
            Showdown::VillainWins => (h, v + 1, t),
            Showdown::Tie => (h, v, t + 1),
        }
    }
}

/// A tally holds the counts `(hero, villain, ties)` over `n` runouts.
pub open spec fn tally_is(t: EquityTally, counts: (nat, nat, nat), n: nat) -> bool {
    &&& t.hero_wins == counts.0
    &&& t.villain_wins == counts.1
    &&& t.ties == counts.2
    &&& t.total == n
}

/// `2^n`.
pub open spec fn two_pow(n: nat) -> nat
    decreases n,
{
    if n == 0 {
        1
    } else {
        2 * two_pow((n - 1) as nat)
    }
}

proof fn lemma_combos_count(deck: Seq<Card>, i: int, k: nat)
    requires
        0 <= i <= deck.len(),
    ensures
        combos(deck, i, k).len() <= two_pow((deck.len() - i) as nat),
    decreases deck.len() - i, k,
{
    if k > 0 && i + k <= deck.len() {
        lemma_combos_count(deck, i + 1, (k - 1) as nat);
        lemma_combos_count(deck, i + 1, k);
    } else if k == 0 {
        lemma_two_pow_positive((deck.len() - i) as nat);
    }
}

proof fn lemma_two_pow_positive(n: nat)
    ensures
        two_pow(n) >= 1,
    decreases n,
{
    if n > 0 {
        lemma_two_pow_positive((n - 1) as nat);
    }
}

proof fn lemma_two_pow_52()
    ensures
        two_pow(52) == 0x10000000000000,
{
    reveal_with_fuel(two_pow, 53);
}

proof fn lemma_two_pow_monotone(a: nat, b: nat)
    requires
        a <= b,
    ensures
        two_pow(a) <= two_pow(b),
    decreases b,
{
    if a < b {
        lemma_two_pow_monotone(a, (b - 1) as nat);
        lemma_two_pow_positive((b - 1) as nat);
    }
}

proof fn lemma_count_outcomes_split(
    hero: Hand,
    villain: Hand,
    board: Board,
    prefix: Seq<Card>,
    a: Seq<Seq<Card>>,
    b: Seq<Seq<Card>>,
)
    ensures
        ({
            let (h1, v1, t1) = count_outcomes(hero, villain, board, prefix, a);
            let (h2, v2, t2) = count_outcomes(hero, villain, board, prefix, b);
            count_outcomes(hero, villain, board, prefix, a + b) == (h1 + h2, v1 + v2, t1 + t2)
        }),
    decreases b.len(),
{
    if b.len() > 0 {
        lemma_count_outcomes_split(hero, villain, board, prefix, a, b.drop_last());
        assert((a + b).drop_last() =~= a + b.drop_last());
        assert((a + b).last() == b.last());
    } else {
        assert(a + b =~= a);
    }
}

proof fn lemma_count_outcomes_prefixed(
    hero: Hand,
    villain: Hand,
    board: Board,
    prefix: Seq<Card>,
    c: Card,
    runouts: Seq<Seq<Card>>,
)
    ensures
        count_outcomes(
            hero,
            villain,
            board,
            prefix,
            runouts.map_values(|r: Seq<Card>| seq![c] + r),
        ) == count_outcomes(hero, villain, board, prefix.push(c), runouts),
    decreases runouts.len(),
{
    let m = runouts.map_values(|r: Seq<Card>| seq![c] + r);
    if runouts.len() > 0 {
        lemma_count_outcomes_prefixed(hero, villain, board, prefix, c, runouts.drop_last());
        assert(m.drop_last() =~= runouts.drop_last().map_values(|r: Seq<Card>| seq![c] + r));
        assert(prefix + m.last() =~= prefix.push(c) + runouts.last());
    } else {
        assert(m =~= Seq::<Seq<Card>>::empty());
    }
}

/// The board completed by `runout` (which fills the undealt slots).
fn complete_board(board: &Board, runout: &Vec<Card>) -> (full: Board)
    requires
        board.len <= 5,
        runout@.len() == 5 - board.len,
    ensures
        full.len == 5,
        full.cards@ == board.cards@.take(board.len as int) + runout@,
{
    let mut full = *board;
    let base = board.len as usize;
    let mut k: usize = 0;
    while k < runout.len()
        invariant
            base == board.len,
            base + runout@.len() == 5,
            k <= runout@.len(),
            full.len == board.len,
            forall|j: int| 0 <= j < base ==> full.cards@[j] == board.cards@[j],
            forall|j: int| 0 <= j < k ==> full.cards@[base + j] == runout@[j],
        decreases runout.len() - k,
    {
        full.cards[base + k] = runout[k];
        k += 1;
    }
    full.len = 5;
    assert(full.cards@ =~= board.cards@.take(board.len as int) + runout@);
    full
}

/// The showdown on the board completed by `runout`, added to a tally.
fn tally_runout(
    hero: &Hand,
    villain: &Hand,
    board: &Board,
    runout: &Vec<Card>,
    tally: &mut EquityTally,
)
    requires
        cards_valid(*hero, *villain, *board),
        runout@.len() == 5 - board.len,
        forall|j: int| 0 <= j < runout@.len() ==> valid_card(#[trigger] runout@[j]),
        old(tally).total < u64::MAX,
        old(tally).hero_wins + old(tally).villain_wins + old(tally).ties <= old(tally).total,
    ensures
        final(tally).total == old(tally).total + 1,
        ({
            let o = runout_showdown(*hero, *villain, *board, runout@);
            &&& final(tally).hero_wins == old(tally).hero_wins + (if o is HeroWins { 1int } else { 0 })
            &&& final(tally).villain_wins == old(tally).villain_wins + (if o is VillainWins { 1int } else { 0 })
            &&& final(tally).ties == old(tally).ties + (if o is Tie { 1int } else { 0 })
        }),
        final(tally).hero_wins + final(tally).villain_wins + final(tally).ties <= final(tally).total,
{
    let full = complete_board(board, runout);
    assert(cards_valid(*hero, *villain, full)) by {
        assert forall|k: int| 0 <= k < full.len implies valid_card(#[trigger] full.cards[k]) by {
            if k < board.len {
                assert(full.cards@[k] == board.cards@[k]);
            } else {
                assert(full.cards@[k] == runout@[k - board.len]);
            }
        }
    }
    assert(seven_cards(*hero, full) =~= with_runout(*hero, *board, runout@));
    assert(seven_cards(*villain, full) =~= with_runout(*villain, *board, runout@));
    let outcome = reference_exact_river_outcome(hero, villain, &full);
    match outcome {
        Showdown::HeroWins => tally.hero_wins = tally.hero_wins + 1,
        Showdown::VillainWins => tally.villain_wins = tally.villain_wins + 1,
        Showdown::Tie => tally.ties = tally.ties + 1,
    }
    tally.total = tally.total + 1;
}

/// Tallies every runout of `deck[start..]` with `need` more cards, each
/// following the cards already on `stack`.
fn enumerate_runouts(
    hero: &Hand,
    villain: &Hand,
    board: &Board,
    deck: &Vec<Card>,
    start: usize,
    need: usize,
    stack: &mut Vec<Card>,
    tally: &mut EquityTally,
)
    requires
        cards_valid(*hero, *villain, *board),
        start <= deck@.len() <= 52,
        forall|j: int| 0 <= j < deck@.len() ==> valid_card(#[trigger] deck@[j]),
        forall|j: int| 0 <= j < old(stack)@.len() ==> valid_card(#[trigger] old(stack)@[j]),
        old(stack)@.len() + need == 5 - board.len,
        old(tally).hero_wins + old(tally).villain_wins + old(tally).ties <= old(tally).total,
        old(tally).total + combos(deck@, start as int, need as nat).len() <= u64::MAX,
    ensures
        final(stack)@ == old(stack)@,
        ({
            let (h, v, t) = count_outcomes(
                *hero,
                *villain,
                *board,
                old(stack)@,
                combos(deck@, start as int, need as nat),
            );
            &&& final(tally).hero_wins == old(tally).hero_wins + h
            &&& final(tally).villain_wins == old(tally).villain_wins + v
            &&& final(tally).ties == old(tally).ties + t
            &&& final(tally).total == old(tally).total + combos(
                deck@,
                start as int,
                need as nat,
            ).len()
        }),
        final(tally).hero_wins + final(tally).villain_wins + final(tally).ties <= final(tally).total,
    decreases need,
{
    let ghost prefix = stack@;
    if need == 0 {
        tally_runout(hero, villain, board, stack, tally);
        proof {
            let one = combos(deck@, start as int, 0);
            assert(one =~= seq![Seq::<Card>::empty()]);
            assert(one.drop_last() =~= Seq::<Seq<Card>>::empty());
            assert(one.last() == Seq::<Card>::empty());
            assert(prefix + one.last() =~= prefix);
            assert(count_outcomes(*hero, *villain, *board, prefix, one.drop_last()) == (
                0nat,
                0nat,
                0nat,
            ));
        }
        return;
    }
    let ghost t0 = *tally;
    let ghost all = combos(deck@, start as int, need as nat);
    let mut i: usize = start;
    while i + need <= deck.len()
        invariant
            cards_valid(*hero, *villain, *board),
            start <= i,
            need > 0,
            i <= deck@.len() <= 52,
            forall|j: int| 0 <= j < deck@.len() ==> valid_card(#[trigger] deck@[j]),
            stack@ == prefix,
            forall|j: int| 0 <= j < prefix.len() ==> valid_card(#[trigger] prefix[j]),
            prefix.len() + need == 5 - board.len,
            all == combos(deck@, start as int, need as nat),
            t0.total + all.len() <= u64::MAX,
            tally.hero_wins + tally.villain_wins + tally.ties <= tally.total,
            tally.total - t0.total + combos(deck@, i as int, need as nat).len() == all.len(),
            ({
                let (h, v, t) = count_outcomes(*hero, *villain, *board, prefix, all);
                let (h2, v2, t2) = count_outcomes(
                    *hero,
                    *villain,
                    *board,
                    prefix,
                    combos(deck@, i as int, need as nat),
                );
                &&& h == tally.hero_wins - t0.hero_wins + h2
                &&& v == tally.villain_wins - t0.villain_wins + v2
                &&& t == tally.ties - t0.ties + t2
            }),
        decreases deck.len() - i,
    {
        let ghost here = combos(deck@, i as int, need as nat);
        let ghost first = combos(deck@, i + 1, (need - 1) as nat);
        let ghost mapped = first.map_values(|c: Seq<Card>| seq![deck@[i as int]] + c);
        let ghost rest = combos(deck@, i + 1, need as nat);
        proof {
            assert(here == mapped + rest);
            lemma_count_outcomes_split(*hero, *villain, *board, prefix, mapped, rest);
            lemma_count_outcomes_prefixed(*hero, *villain, *board, prefix, deck@[i as int], first);
        }
        stack.push(deck[i]);
        enumerate_runouts(hero, villain, board, deck, i + 1, need - 1, stack, tally);
        stack.pop();
        assert(stack@ =~= prefix);
        i += 1;
    }
    assert(combos(deck@, i as int, need as nat) =~= Seq::<Seq<Card>>::empty());
}

/// Exhaustive equity counts: every way to complete the board from the
/// remaining deck, each tallied as a hero win, a villain win or a chop.
/// A full board counts as its single runout; when the deck cannot
/// complete the board nothing is counted.
pub fn reference_fast_enumeration_tally(hero: &Hand, villain: &Hand, board: &Board) -> (r: EquityTally)
    requires
        cards_valid(*hero, *villain, *board),
    ensures
        ({
            let runouts = combos(
                remaining_deck(*hero, *villain, *board),
                0,
                (5 - board.len) as nat,
            );
            tally_is(r, count_outcomes(*hero, *villain, *board, seq![], runouts), runouts.len())
        }),
        r.hero_wins + r.villain_wins + r.ties == r.total,
{
    let deck = build_deck(hero, villain, board);
    let need = 5 - board.len as usize;
    let mut tally = EquityTally { hero_wins: 0, villain_wins: 0, ties: 0, total: 0 };
    let mut stack: Vec<Card> = Vec::new();
    proof {
        lemma_combos_count(deck@, 0, need as nat);
        lemma_two_pow_monotone(deck@.len(), 52);
        lemma_two_pow_52();
    }
    enumerate_runouts(hero, villain, board, &deck, 0, need, &mut stack, &mut tally);
    proof {
        lemma_count_sum(
            *hero,
            *villain,
            *board,
            Seq::<Card>::empty(),
            combos(deck@, 0, need as nat),
        );
    }
    tally
}

proof fn lemma_count_sum(
    hero: Hand,
    villain: Hand,
    board: Board,
    prefix: Seq<Card>,
    runouts: Seq<Seq<Card>>,
)
    ensures
        ({
            let (h, v, t) = count_outcomes(hero, villain, board, prefix, runouts);
            h + v + t == runouts.len()
        }),
    decreases runouts.len(),
{
    if runouts.len() > 0 {
        lemma_count_sum(hero, villain, board, prefix, runouts.drop_last());
    }
}

/// The xoshiro256** generator of `rand_xoshiro`, carried through the
/// sampler as an opaque value.
#[verifier::external_type_specification]
#[verifier::external_body]
pub struct ExXoshiro256StarStar(Xoshiro256StarStar);

/// The order of `deck` after `rounds` in-place shuffles by `rand`'s
/// `SliceRandom::shuffle`, all driven by one `Xoshiro256StarStar` made by
/// `seed_from_u64(seed)`. Seeding (SplitMix64) and the Fisher-Yates swaps
/// are fixed algorithms, so the order depends on these values alone.
pub uninterp spec fn seeded_deck_order(deck: Seq<Card>, seed: u64, rounds: nat) -> Seq<Card>;

/// A deck together with the seeded generator that shuffles it. The ghost
/// fields record the deck it started from, the seed and how many shuffles
/// were made; only [`SeededDeck::new`] and [`SeededDeck::shuffle`] set them.
struct SeededDeck {
    rng: Xoshiro256StarStar,
    cards: Vec<Card>,
    start: Ghost<Seq<Card>>,
    seed: Ghost<u64>,
    rounds: Ghost<nat>,
}

impl SeededDeck {
    /// The cards in their current order.
    spec fn order(&self) -> Seq<Card> {
        self.cards@
    }

    /// The deck before any shuffle.
    spec fn start(&self) -> Seq<Card> {
        self.start@
    }

    /// The seed of the generator.
    spec fn seed(&self) -> u64 {
        self.seed@
    }

    /// Shuffles made so far.
    spec fn rounds(&self) -> nat {
        self.rounds@
    }

    /// `rand_xoshiro`'s `Xoshiro256StarStar::seed_from_u64(seed)`, paired
    /// with `cards`; no shuffle has been made.
    #[verifier::external_body]
    fn new(cards: Vec<Card>, seed: u64) -> (r: SeededDeck)
        ensures
            r.order() == cards@,
            r.start() == cards@,
            r.seed() == seed,
            r.rounds() == 0,
    {
        let start = Ghost(cards@);
        SeededDeck {
            rng: Xoshiro256StarStar::seed_from_u64(seed),
            cards,
            start,
            seed: Ghost(seed),
            rounds: Ghost(0),
        }
    }

    /// `rand`'s `SliceRandom::shuffle` of the cards with the deck's own
    /// generator: a Fisher-Yates pass of swaps, so the cards afterwards
    /// are a permutation of those before, in the order the seeded
    /// generator gives for this round.
    #[verifier::external_body]
    fn shuffle(&mut self)
        ensures
            final(self).order() == seeded_deck_order(
                old(self).start(),
                old(self).seed(),
                old(self).rounds() + 1,
            ),
            final(self).order().to_multiset() == old(self).order().to_multiset(),
            final(self).start() == old(self).start(),
            final(self).seed() == old(self).seed(),
            final(self).rounds() == old(self).rounds() + 1,
    {
        self.cards.shuffle(&mut self.rng);
        self.rounds = Ghost(self.rounds@ + 1);
    }

    /// The card at position `i`.
    fn card(&self, i: usize) -> (c: Card)
        requires
            i < self.order().len(),
        ensures
            c == self.order()[i as int],
    {
        self.cards[i]
    }

    /// Number of cards.
    fn len(&self) -> (n: usize)
        ensures
            n == self.order().len(),
    {
        self.cards.len()
    }
}

/// The runouts the sampler draws: the first `need` cards of the deck
/// after each of `samples` successive seeded shuffles.
pub open spec fn sampled_runouts(deck: Seq<Card>, seed: u64, samples: nat, need: nat) -> Seq<
    Seq<Card>,
> {
    Seq::new(samples, |k: int| seeded_deck_order(deck, seed, (k + 1) as nat).take(need as int))
}

/// A runout of `need` cards drawn from `deck`.
pub open spec fn is_runout_of(deck: Seq<Card>, runout: Seq<Card>, need: nat) -> bool {
    &&& runout.len() == need
    &&& forall|j: int| 0 <= j < runout.len() ==> deck.contains(#[trigger] runout[j])
}

/// Monte Carlo equity counts: `samples` runouts, the first cards of the
/// remaining deck after each of `samples` successive shuffles by one
/// generator seeded from `seed`, each tallied as a hero win, a villain win
/// or a chop. Equal arguments give equal counts. A full board counts as its single
/// runout whatever `samples` is; when the deck cannot complete the board
/// nothing is counted.
pub fn reference_monte_carlo_tally(
    hero: &Hand,
    villain: &Hand,
    board: &Board,
    samples: u32,
    seed: u64,
) -> (r: EquityTally)
    requires
        cards_valid(*hero, *villain, *board),
    ensures
        ({
            let deck = remaining_deck(*hero, *villain, *board);
            let need = (5 - board.len) as nat;
            if deck.len() < need {
                r == EquityTally { hero_wins: 0, villain_wins: 0, ties: 0, total: 0 }
            } else if need == 0 {
                tally_is(
                    r,
                    count_outcomes(*hero, *villain, *board, seq![], seq![seq![]]),
                    1,
                )
            } else {
                let runouts = sampled_runouts(deck, seed, samples as nat, need);
                &&& forall|j: int|
                    0 <= j < runouts.len() ==> is_runout_of(deck, #[trigger] runouts[j], need)
                &&& tally_is(
                    r,
                    count_outcomes(*hero, *villain, *board, seq![], runouts),
                    samples as nat,
                )
            }
        }),
        board.len == 5 ==> tally_is(
            r,
            outcome_counts(river_showdown(*hero, *villain, *board)),
            1,
        ),
        r.hero_wins + r.villain_wins + r.ties == r.total,
{
    let deck = build_deck(hero, villain, board);
    let need = 5 - board.len as usize;
    let mut tally = EquityTally { hero_wins: 0, villain_wins: 0, ties: 0, total: 0 };
    if deck.len() < need {
        return tally;
    }
    if need == 0 {
        let mut empty: Vec<Card> = Vec::new();
        enumerate_runouts(hero, villain, board, &deck, 0, 0, &mut empty, &mut tally);
        assert(combos(deck@, 0, 0) =~= seq![Seq::<Card>::empty()]);
        proof {
            lemma_full_board_tally_is_exact(*hero, *villain, *board);
        }
        return tally;
    }
    let mut scratch = SeededDeck::new(copy_cards(&deck), seed);
    let ghost mut runouts: Seq<Seq<Card>> = seq![];
    let mut k: u32 = 0;
    while k < samples
        invariant
            cards_valid(*hero, *villain, *board),
            deck@ == remaining_deck(*hero, *villain, *board),
            forall|j: int| 0 <= j < deck@.len() ==> valid_card(#[trigger] deck@[j]),
            need == 5 - board.len,
            need <= deck@.len(),
            scratch.order().to_multiset() == deck@.to_multiset(),
            scratch.start() == deck@,
            scratch.seed() == seed,
            scratch.rounds() == k,
            k <= samples,
            runouts == sampled_runouts(deck@, seed, k as nat, need as nat),
            forall|j: int| 0 <= j < runouts.len() ==> is_runout_of(deck@, #[trigger] runouts[j], need as nat),
            tally_is(tally, count_outcomes(*hero, *villain, *board, seq![], runouts), k as nat),
            tally.hero_wins + tally.villain_wins + tally.ties <= tally.total,
        decreases samples - k,
    {
        scratch.shuffle();
        let ghost order = scratch.order();
        proof {
            order.to_multiset_ensures();
            deck@.to_multiset_ensures();
            assert forall|x: Card| order.contains(x) <==> deck@.contains(x) by {
                assert(order.to_multiset().count(x) == deck@.to_multiset().count(x));
            }
        }
        let mut runout: Vec<Card> = Vec::new();
        let mut j: usize = 0;
        while j < need
            invariant
                j <= need,
                need <= deck@.len(),
                order == scratch.order(),
                order.len() == deck@.len(),
                forall|x: Card| order.contains(x) <==> deck@.contains(x),
                runout@ == order.take(j as int),
            decreases need - j,
        {
            runout.push(scratch.card(j));
            j += 1;
            assert(runout@ =~= order.take(j as int));
        }
        proof {
            assert forall|q: int| 0 <= q < runout@.len() implies deck@.contains(#[trigger] runout@[q]) by {
                assert(order.contains(order[q]));
            }
            assert forall|q: int| 0 <= q < runout@.len() implies valid_card(#[trigger] runout@[q]) by {
                assert(deck@.contains(runout@[q]));
                let w = choose|w: int| 0 <= w < deck@.len() && deck@[w] == runout@[q];
                assert(valid_card(deck@[w]));
            }
        }
        let ghost before = runouts;
        tally_runout(hero, villain, board, &runout, &mut tally);
        proof {
            runouts = runouts.push(runout@);
            assert(runouts.drop_last() =~= before);
            assert(runouts =~= sampled_runouts(deck@, seed, (k + 1) as nat, need as nat));
            assert(Seq::<Card>::empty() + runout@ =~= runout@);
        }
        k += 1;
    }
    proof {
        lemma_count_sum(*hero, *villain, *board, Seq::<Card>::empty(), runouts);
    }
    tally
}

/// The counts of a single showdown: one win, loss or chop.
pub open spec fn outcome_counts(s: Showdown) -> (nat, nat, nat) {
    match s {
        Showdown::HeroWins => (1, 0, 0),
        Showdown::VillainWins => (0, 1, 0),
        Showdown::Tie => (0, 0, 1),
    }
}

/// On a full board the sampler, whatever its sample count and seed, counts
/// the river showdown once: its tally is exactly the exact river result.
pub proof fn lemma_full_board_tally_is_exact(hero: Hand, villain: Hand, board: Board)
    requires
        board.len == 5,
    ensures
        count_outcomes(hero, villain, board, seq![], seq![seq![]]) == outcome_counts(
            river_showdown(hero, villain, board),
        ),
{
    assert(board.cards@.len() == 5);
    assert(board.cards@.take(5) =~= board.cards@);
    assert(with_runout(hero, board, seq![]) =~= seven_cards(hero, board));
    assert(with_runout(villain, board, seq![]) =~= seven_cards(villain, board));
    let rs: Seq<Seq<Card>> = seq![seq![]];
    assert(rs.drop_last() =~= Seq::<Seq<Card>>::empty());
    assert(Seq::<Card>::empty() + rs.last() =~= Seq::<Card>::empty());
    assert(count_outcomes(hero, villain, board, seq![], rs.drop_last()) == (0nat, 0nat, 0nat));
    assert(runout_showdown(hero, villain, board, Seq::<Card>::empty()) == river_showdown(
        hero,
        villain,
        board,
    ));
}

/// A copy of a card vector.
fn copy_cards(v: &Vec<Card>) -> (r: Vec<Card>)
    ensures
        r@ == v@,
{
    let mut r: Vec<Card> = Vec::new();
    let mut i: usize = 0;
    while i < v.len()
        invariant
            i <= v@.len(),
            r@ == v@.take(i as int),
        decreases v.len() - i,
    {
        r.push(v[i]);
        i += 1;
        assert(r@ =~= v@.take(i as int));
    }
    assert(v@.take(i as int) =~= v@);
    r
}

} // verus!
