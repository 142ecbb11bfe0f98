use rand::seq::SliceRandom;
use rand::SeedableRng;
use poker_solver::cards::{Board, Card, Hand};
use poker_solver::equity::{
    reference_exact_river_outcome, reference_fast_enumeration_tally, reference_monte_carlo_tally,
    EquityTally, Showdown,
};

fn cards(s: &str) -> Vec<Card> {
    let chars: Vec<char> = s.chars().collect();
    chars
        .chunks(2)
        .map(|c| {
            let name: String = c.iter().collect();
            Card::parse(&name).unwrap()
        })
        .collect()
}

fn hand(s: &str) -> Hand {
    let c = cards(s);
    Hand::new(c[0], c[1])
}

fn board(s: &str) -> Board {
    let c = cards(s);
    let mut slots = [Card(0); 5];
    for (i, card) in c.iter().enumerate() {
        slots[i] = *card;
    }
    Board { cards: slots, len: c.len() as u8 }
}

/// Fractions (hero, villain, tie) of a tally; all zero when nothing was
/// counted.
fn fractions(t: &EquityTally) -> (f32, f32, f32) {
    if t.total == 0 {
        return (0.0, 0.0, 0.0);
    }
    let n = t.total as f32;
    (t.hero_wins as f32 / n, t.villain_wins as f32 / n, t.ties as f32 / n)
}

fn outcome_fractions(s: Showdown) -> (f32, f32, f32) {
    match s {
        Showdown::HeroWins => (1.0, 0.0, 0.0),
        Showdown::VillainWins => (0.0, 1.0, 0.0),
        Showdown::Tie => (0.0, 0.0, 1.0),
    }
}

#[test]
fn aces_beat_kings_on_blank_river() {
    let hero = hand("AsAc");
    let villain = hand("KsKc");
    let b = board("7c2d5h9sJd");
    let e = outcome_fractions(reference_exact_river_outcome(&hero, &villain, &b));
    assert_eq!(e.0, 1.0);
    assert_eq!(e.1, 0.0);
    assert_eq!(e.2, 0.0);
}

#[test]
fn chop_the_board_gives_tie() {
    let hero = hand("2h3h");
    let villain = hand("4c5c");
    let b = board("AsKsQsJsTs");
    let e = outcome_fractions(reference_exact_river_outcome(&hero, &villain, &b));
    assert_eq!(e.2, 1.0);
    assert_eq!(e.0, 0.0);
    assert_eq!(e.1, 0.0);
}

#[test]
fn villain_wins_when_the_board_pairs_him() {
    let r = reference_exact_river_outcome(&hand("AsAc"), &hand("KsKc"), &board("Kd2d5h9sJd"));
    assert_eq!(r, Showdown::VillainWins);
}

#[test]
fn monte_carlo_agrees_with_exact_on_river() {
    let hero = hand("AsAc");
    let villain = hand("KsKc");
    let b = board("7c2d5h9sJd");
    let exact = outcome_fractions(reference_exact_river_outcome(&hero, &villain, &b));
    let mc = fractions(&reference_monte_carlo_tally(&hero, &villain, &b, 100, 12345));
    assert_eq!(exact, mc);
}

#[test]
fn enumeration_on_turn_is_exact() {
    let hero = hand("AsAc");
    let villain = hand("KsKc");
    let b = board("7c2d5h9s");
    let e = fractions(&reference_fast_enumeration_tally(&hero, &villain, &b));
    assert!(e.0 > 0.9, "hero equity {}", e.0);
    let sum = e.0 + e.1 + e.2;
    assert!((sum - 1.0).abs() < 1e-5, "sum = {sum}");
}

#[test]
fn enumeration_counts_every_river() {
    let t = reference_fast_enumeration_tally(&hand("AsAc"), &hand("KsKc"), &board("7c2d5h9s"));
    // 52 - 4 hole cards - 4 board cards = 44 rivers; villain wins with
    // the two remaining kings only.
    assert_eq!(t, EquityTally { hero_wins: 42, villain_wins: 2, ties: 0, total: 44 });
    let flop = reference_fast_enumeration_tally(&hand("AsAc"), &hand("KsKc"), &board("7c2d5h"));
    assert_eq!(flop.total, 45 * 44 / 2);
    assert_eq!(flop.hero_wins + flop.villain_wins + flop.ties, flop.total);
}

#[test]
fn monte_carlo_determinism() {
    let hero = hand("AsAc");
    let villain = hand("KsKc");
    let b = board("7c2d5h9s");
    let a = reference_monte_carlo_tally(&hero, &villain, &b, 200, 42);
    let c = reference_monte_carlo_tally(&hero, &villain, &b, 200, 42);
    assert_eq!(fractions(&a), fractions(&c));
    assert_eq!(a, c);
    assert_eq!(a.total, 200);
    assert_eq!(a.hero_wins + a.villain_wins + a.ties, 200);
}

#[test]
fn monte_carlo_with_no_samples_counts_nothing() {
    let t = reference_monte_carlo_tally(&hand("AsAc"), &hand("KsKc"), &board("7c2d5h9s"), 0, 7);
    assert_eq!(t, EquityTally { hero_wins: 0, villain_wins: 0, ties: 0, total: 0 });
    assert_eq!(fractions(&t), (0.0, 0.0, 0.0));
}

/// The sampler draws exactly the runouts of successive in-place shuffles
/// of the ascending remaining deck by one `Xoshiro256StarStar` seeded with
/// `seed_from_u64`.
#[test]
fn monte_carlo_draws_the_seeded_shuffles() {
    let hero = hand("AsAc");
    let villain = hand("KsKc");
    let b = board("7c2d5h9s");
    let known = cards("AsAcKsKc7c2d5h9s");
    let mut deck: Vec<Card> = (0..52u8).map(Card).filter(|c| !known.contains(c)).collect();
    let mut rng = rand_xoshiro::Xoshiro256StarStar::seed_from_u64(42);
    let mut expected = EquityTally { hero_wins: 0, villain_wins: 0, ties: 0, total: 0 };
    for _ in 0..200 {
        deck.shuffle(&mut rng);
        let mut full = b;
        full.cards[4] = deck[0];
        full.len = 5;
        match reference_exact_river_outcome(&hero, &villain, &full) {
            Showdown::HeroWins => expected.hero_wins += 1,
            Showdown::VillainWins => expected.villain_wins += 1,
            Showdown::Tie => expected.ties += 1,
        }
        expected.total += 1;
    }
    let got = reference_monte_carlo_tally(&hero, &villain, &b, 200, 42);
    assert_eq!(got, expected);
    // Without the shuffles every sample would repeat one river card.
    assert!(got.hero_wins > 0 && got.villain_wins > 0, "{got:?}");
}
