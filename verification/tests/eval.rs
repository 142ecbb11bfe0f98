use poker_solver::cards::{Board, Card, Hand, HandRank};
use poker_solver::eval::{reference_eval_5, reference_eval_7};
use poker_solver::preflop::{reference_build_canonical_hands_169, reference_normalize_hand_169};
use poker_solver::showdown::reference_showdown_winners;
use std::collections::{HashMap, HashSet};

fn cards(s: &str) -> Vec<Card> {
    let chars: Vec<char> = s.chars().collect();
    chars
        .chunks(2)
        .map(|c| {
            let name: String = c.iter().collect();
            Card::parse(&name).unwrap()
        })
        .collect()
}

fn hand(s: &str) -> Hand {
    let c = cards(s);
    assert_eq!(c.len(), 2);
    Hand::new(c[0], c[1])
}

fn board(s: &str) -> Board {
    let c = cards(s);
    let mut slots = [Card(0); 5];
    for (i, card) in c.iter().enumerate() {
        slots[i] = *card;
    }
    Board { cards: slots, len: c.len() as u8 }
}

fn eval7_str(h: &str, b: &str) -> HandRank {
    reference_eval_7(&hand(h), &board(b))
}

#[test]
fn flush_beats_straight() {
    let flush = eval7_str("2d3d", "4d5d6d9sKs");
    let straight = eval7_str("8c9c", "5d6h7sThQs");
    assert!(flush.0 > straight.0);
}

#[test]
fn full_house_beats_trips() {
    let full = eval7_str("AsAc", "AdKhKd2c7s");
    let trips = eval7_str("AsAc", "Ad5h9d2c7s");
    assert!(full.0 > trips.0);
}

#[test]
fn royal_flush_is_top() {
    let royal = eval7_str("AhKh", "QhJhTh2c3s");
    let quads = eval7_str("AsAc", "AdAhKc2s3d");
    assert!(royal.0 > quads.0);
    let cat = royal.0 >> 28;
    assert_eq!(cat, 8);
}

#[test]
fn wheel_straight_is_detected() {
    let wheel = eval7_str("Ac2c", "3h4d5sKh9c");
    let cat = wheel.0 >> 28;
    assert_eq!(cat, 4, "wheel should be a straight");
    let inner = wheel.0 & ((1 << 28) - 1);
    assert_eq!(inner, 3);
}

#[test]
fn ordering_respects_category() {
    let high = eval7_str("Ah9c", "7s5d3c2hJs");
    let pair = eval7_str("AhAs", "7s5d3c2hJc");
    let two_pair = eval7_str("AhAs", "7s7d3c2hJc");
    let trips = eval7_str("AhAs", "AcJd3c7hKs");
    let straight = eval7_str("9h8h", "7c6d5s2hJc");
    let flush = eval7_str("2h3h", "4h5h7h9sKs");
    let full_house = eval7_str("AhAs", "AcKdKs7h2c");
    let quads = eval7_str("AhAs", "AcAd3c7h2s");
    let straight_flush = eval7_str("9h8h", "7h6h5hKcQc");

    assert!(high.0 < pair.0);
    assert!(pair.0 < two_pair.0);
    assert!(two_pair.0 < trips.0);
    assert!(trips.0 < straight.0);
    assert!(straight.0 < flush.0);
    assert!(flush.0 < full_house.0);
    assert!(full_house.0 < quads.0);
    assert!(quads.0 < straight_flush.0);
}

#[test]
fn eval_5_matches_eval_7_on_royal() {
    let r7 = eval7_str("AhKh", "QhJhTh2c3s");
    let five = [
        Card::parse("Ah").unwrap(),
        Card::parse("Kh").unwrap(),
        Card::parse("Qh").unwrap(),
        Card::parse("Jh").unwrap(),
        Card::parse("Th").unwrap(),
    ];
    let r5 = reference_eval_5(&five);
    assert_eq!(r7, r5);
}

#[test]
fn pair_of_aces_kicker_ordering() {
    let strong = eval7_str("AsAc", "KdQhJs2c3d");
    let mid = eval7_str("AsAc", "KdQhTs2c3d");
    let weak = eval7_str("AsAc", "KdQh9s2c3d");
    assert!(strong.0 > mid.0, "{strong:?} vs {mid:?}");
    assert!(mid.0 > weak.0, "{mid:?} vs {weak:?}");
}

#[test]
fn category_tags_of_each_hand_class() {
    assert_eq!(eval7_str("Ah9c", "7s5d3c2hJs").0 >> 28, 0);
    assert_eq!(eval7_str("AhAs", "7s5d3c2hJc").0 >> 28, 1);
    assert_eq!(eval7_str("AhAs", "7s7d3c2hJc").0 >> 28, 2);
    assert_eq!(eval7_str("AhAs", "AcJd3c7hKs").0 >> 28, 3);
    assert_eq!(eval7_str("9h8h", "7c6d5s2hJc").0 >> 28, 4);
    assert_eq!(eval7_str("2h3h", "4h5h7h9sKs").0 >> 28, 5);
    assert_eq!(eval7_str("AhAs", "AcKdKs7h2c").0 >> 28, 6);
    assert_eq!(eval7_str("AhAs", "AcAd3c7h2s").0 >> 28, 7);
    assert_eq!(eval7_str("9h8h", "7h6h5hKcQc").0 >> 28, 8);
}

#[test]
fn high_card_packs_five_ranks_highest_first() {
    // A J 7 5 3 -> ranks 12, 9, 5, 3, 1
    let five = [
        Card::parse("Ah").unwrap(),
        Card::parse("Jc").unwrap(),
        Card::parse("7s").unwrap(),
        Card::parse("5d").unwrap(),
        Card::parse("3c").unwrap(),
    ];
    assert_eq!(reference_eval_5(&five).0, 0xC9531);
}

#[test]
fn card_parse_accepts_and_rejects() {
    assert_eq!(Card::parse("2c"), Some(Card(0)));
    assert_eq!(Card::parse("As"), Some(Card(51)));
    assert_eq!(Card::parse("Th"), Some(Card(34)));
    assert_eq!(Card::parse("Xx"), None);
    assert_eq!(Card::parse("A"), None);
    assert_eq!(Card::parse("Ahh"), None);
    let name: String = Card(34).name().into_iter().collect();
    assert_eq!(name, "Th");
}

#[test]
fn hand_new_puts_higher_card_first() {
    let h = Hand::new(Card(3), Card(40));
    assert_eq!(h.0, [Card(40), Card(3)]);
    assert_eq!(Card(40).rank(), 10);
    assert_eq!(Card(41).suit(), 1);
}

#[test]
fn pocket_aces_normalize_to_aa() {
    let h = hand("AsAc");
    assert_eq!(reference_normalize_hand_169(&h), "AA");
}

#[test]
fn ak_suited_hearts() {
    let h = hand("AhKh");
    assert_eq!(reference_normalize_hand_169(&h), "AKs");
}

#[test]
fn ak_offsuit() {
    let h = hand("AhKs");
    assert_eq!(reference_normalize_hand_169(&h), "AKo");
}

#[test]
fn order_is_higher_first_regardless_of_input() {
    let h1 = hand("2hAd");
    let h2 = hand("Ad2h");
    assert_eq!(reference_normalize_hand_169(&h1), "A2o");
    assert_eq!(reference_normalize_hand_169(&h2), "A2o");
}

#[test]
fn canonical_hands_has_exactly_169_entries() {
    let hs = reference_build_canonical_hands_169();
    assert_eq!(hs.len(), 169);
    let pairs = hs.iter().filter(|s| s.len() == 2).count();
    let suited = hs.iter().filter(|s| s.ends_with('s')).count();
    let offsuit = hs.iter().filter(|s| s.ends_with('o')).count();
    assert_eq!(pairs, 13);
    assert_eq!(suited, 78);
    assert_eq!(offsuit, 78);
}

#[test]
fn canonical_hands_start_with_aces() {
    let hs = reference_build_canonical_hands_169();
    assert_eq!(hs[0], "AA");
    assert_eq!(hs[1], "AKs");
    assert_eq!(hs[2], "AKo");
    assert_eq!(hs[168], "22");
}

#[test]
fn every_concrete_combo_maps_to_some_canonical_class() {
    let canonical: HashSet<String> = reference_build_canonical_hands_169().into_iter().collect();
    for a in 0..52u8 {
        for b in (a + 1)..52 {
            let h = Hand::new(Card(a), Card(b));
            let class = reference_normalize_hand_169(&h);
            assert!(canonical.contains(&class), "class {class} not in canonical set for hand {h:?}");
        }
    }
}

#[test]
fn empty_input_returns_empty() {
    assert!(reference_showdown_winners(&[]).is_empty());
}

#[test]
fn single_winner() {
    let ranks = [HandRank(10), HandRank(5), HandRank(2)];
    assert_eq!(reference_showdown_winners(&ranks), vec![0]);
}

#[test]
fn three_way_tie_returns_all_three() {
    let ranks = [HandRank(42), HandRank(42), HandRank(10), HandRank(42)];
    assert_eq!(reference_showdown_winners(&ranks), vec![0, 1, 3]);
}

#[test]
fn all_equal_returns_all() {
    let ranks = [HandRank(7), HandRank(7), HandRank(7)];
    assert_eq!(reference_showdown_winners(&ranks), vec![0, 1, 2]);
}

#[test]
fn hands_split_six_four_twelve_over_every_class() {
    let mut counts: HashMap<String, usize> = HashMap::new();
    for a in 0..52u8 {
        for b in (a + 1)..52 {
            let h = Hand::new(Card(a), Card(b));
            *counts.entry(reference_normalize_hand_169(&h)).or_default() += 1;
        }
    }
    let canonical = reference_build_canonical_hands_169();
    assert_eq!(counts.len(), canonical.len());
    for class in canonical {
        let expected = if class.len() == 2 {
            6
        } else if class.ends_with('s') {
            4
        } else {
            12
        };
        assert_eq!(counts.get(&class), Some(&expected), "class {class}");
    }
}
