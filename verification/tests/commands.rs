use poker_solver::cache::{parse_board_three_cards, PotType};
use poker_solver::cards::Card;
use poker_solver::demo::{section_rule, soft_wrap, BANNER_WIDTH};
use poker_solver::seed::{
    build_seed_entries, classify_texture, seed_board, seed_spr_bucket, Texture, BET_TREE_VERSION,
    SEED_BOARDS, SEED_SPR_BUCKETS,
};
use poker_solver::cache::{check_pack_format, UnsupportedPackFormat};
use poker_solver::solve::{
    action_label, check_solve_settings, range_tokens, range_tokens_readable, require_river,
    try_parse_specific_combo, NotRiver, RangeToken, SolveSettingsError, SolverAction, SolverKind,
    UnknownSolver,
};
use std::collections::HashSet;

#[test]
fn solver_kind_parses_known_values() {
    assert_eq!(SolverKind::parse("flat").unwrap(), SolverKind::Flat);
    assert_eq!(SolverKind::parse("classic").unwrap(), SolverKind::Classic);
}

#[test]
fn solver_kind_rejects_unknown_values() {
    let err = SolverKind::parse("mystery").unwrap_err();
    let msg = err.message().to_lowercase();
    assert!(msg.contains("solver"), "err: {msg}");
    assert!(msg.contains("mystery"), "err: {msg}");
    assert_eq!(err.message(), "unknown --solver value \"mystery\" (known: \"flat\", \"classic\")");
    assert_eq!(err, UnknownSolver { value: "mystery".to_string() }, "err: {err:?}");
    assert!(SolverKind::parse("Flat").is_err());
}

#[test]
fn specific_combo_tokens() {
    assert_eq!(
        try_parse_specific_combo("AsKs"),
        Some((Card::parse("As").unwrap(), Card::parse("Ks").unwrap()))
    );
    assert_eq!(try_parse_specific_combo("AKs"), None);
    assert_eq!(try_parse_specific_combo("AsXx"), None);
    assert_eq!(try_parse_specific_combo("22+,"), None);
}

#[test]
fn grid_has_expected_size() {
    let entries = build_seed_entries().unwrap();
    assert_eq!(entries.len(), SEED_BOARDS * SEED_SPR_BUCKETS);
    assert_eq!(entries.len(), 36);
}

#[test]
fn grid_keys_are_unique() {
    let entries = build_seed_entries().unwrap();
    let mut seen = HashSet::new();
    for e in &entries {
        let key = (e.canonical_board, e.spr_bucket, e.pot_type.to_byte(), e.bet_tree_version);
        assert!(seen.insert(key), "duplicate key: {:?}", key);
    }
}

#[test]
fn grid_entries_follow_board_then_spr_order() {
    let entries = build_seed_entries().unwrap();
    for i in 0..SEED_BOARDS {
        let board = parse_board_three_cards(seed_board(i)).unwrap();
        for j in 0..SEED_SPR_BUCKETS {
            let e = &entries[i * 3 + j];
            assert_eq!(e.canonical_board, board);
            assert_eq!(e.spr_bucket, seed_spr_bucket(j));
            assert_eq!(e.pot_type, PotType::Srp);
            assert_eq!(e.bet_tree_version, BET_TREE_VERSION);
            assert_eq!(e.texture, classify_texture(seed_board(i)));
        }
    }
    assert_eq!(seed_spr_bucket(0), 4);
    assert_eq!(seed_spr_bucket(1), 8);
    assert_eq!(seed_spr_bucket(2), 15);
}

#[test]
fn classify_texture_known_boards() {
    assert_eq!(classify_texture("AhKd2c"), Texture::DryHigh);
    assert_eq!(classify_texture("JhTh9c"), Texture::Draws);
    assert_eq!(classify_texture("QhJhTs"), Texture::Draws);
    assert_eq!(classify_texture("9h8c7d"), Texture::WetMid);
    assert_eq!(classify_texture("8h8c3d"), Texture::Paired);
    assert_eq!(classify_texture("KhKdKc"), Texture::Paired);
    assert_eq!(classify_texture("AhKhQh"), Texture::Monotone);
    assert_eq!(classify_texture("7s6s5s"), Texture::Monotone);
    assert_eq!(classify_texture("ThJhKh"), Texture::Monotone);
}

#[test]
fn section_rule_is_banner_width() {
    let rule = section_rule("EXAMPLE");
    assert_eq!(rule.chars().count(), BANNER_WIDTH);
}

#[test]
fn section_rule_exact_text() {
    let rule = section_rule("AB");
    assert!(rule.starts_with("── AB ─"));
    assert_eq!(rule.chars().count(), BANNER_WIDTH);
    let long = "X".repeat(80);
    assert_eq!(section_rule(&long), format!("── {long} "));
}

#[test]
fn soft_wrap_handles_basic_paragraph() {
    let lines = soft_wrap("the quick brown fox jumps over the lazy dog", 20);
    for line in &lines {
        assert!(line.chars().count() <= 20, "line too long: {line:?}");
    }
    let joined = lines.join(" ");
    assert_eq!(joined, "the quick brown fox jumps over the lazy dog");
}

#[test]
fn soft_wrap_exact_lines() {
    assert_eq!(
        soft_wrap("the quick brown fox jumps over the lazy dog", 20),
        vec!["the quick brown fox", "jumps over the lazy", "dog"]
    );
    assert_eq!(soft_wrap("  spaced   out\twords ", 100), vec!["spaced out words"]);
    assert_eq!(soft_wrap("", 10), Vec::<String>::new());
    assert_eq!(soft_wrap("incomprehensibilities ok", 5), vec!["incomprehensibilities", "ok"]);
}

fn card(s: &str) -> Card {
    Card::parse(s).unwrap()
}

#[test]
fn range_tokens_split_and_classify() {
    let toks = range_tokens("  AA ,\tKK ,AKs , AsKs:0.5, 7c7c, QhJh ,, 22+:0.25");
    assert_eq!(
        toks,
        vec![
            RangeToken::Broad { token: "AA".to_string() },
            RangeToken::Broad { token: "KK".to_string() },
            RangeToken::Broad { token: "AKs".to_string() },
            RangeToken::Combo {
                token: "AsKs:0.5".to_string(),
                first: card("As"),
                second: card("Ks"),
                weight: Some("0.5".to_string())
            },
            RangeToken::SameCard { token: "7c7c".to_string(), weight: None },
            RangeToken::Combo {
                token: "QhJh".to_string(),
                first: card("Qh"),
                second: card("Jh"),
                weight: None
            },
            RangeToken::Broad { token: "22+:0.25".to_string() },
        ]
    );
    assert_eq!(range_tokens(" , ,"), vec![]);
    assert_eq!(
        range_tokens("AsKs : x"),
        vec![RangeToken::Combo {
            token: "AsKs : x".to_string(),
            first: card("As"),
            second: card("Ks"),
            weight: Some("x".to_string())
        }]
    );
}

#[test]
fn range_tokens_readability() {
    assert!(range_tokens_readable("AA,KK,AsKs:0.5"));
    assert!(range_tokens_readable("éé,AKs"));
    // A four-byte token whose second byte starts inside a character.
    assert!(!range_tokens_readable("a€"));
    assert!(!range_tokens_readable("AA, a€ :1"));
}

#[test]
fn solve_settings_checks_in_order() {
    assert_eq!(check_solve_settings("default", 100, 10), Ok(()));
    assert_eq!(check_solve_settings("default", 100, 0).unwrap_err(), SolveSettingsError::ZeroPot);
    assert_eq!(
        check_solve_settings("default", 0, 0).unwrap_err(),
        SolveSettingsError::ZeroIterations
    );
    assert_eq!(
        check_solve_settings("mystery-tree", 0, 0).unwrap_err(),
        SolveSettingsError::UnknownBetTree { name: "mystery-tree".to_string() }
    );
    assert_eq!(require_river(5), Ok(()));
    assert_eq!(require_river(3), Err(NotRiver { cards: 3 }));
    assert_eq!(
        NotRiver { cards: 3 }.message(),
        "v0.1 supports river-only subgames (need 5 board cards, got 3)"
    );
    assert!(SolveSettingsError::<String>::ZeroPot.message().contains("pot"));
    assert_eq!(SolveSettingsError::<String>::ZeroIterations.message(), "--iterations must be > 0");
    assert_eq!(
        check_solve_settings("mystery-tree", 0, 0).unwrap_err().message(),
        "unknown bet-tree profile: \"mystery-tree\" (known: \"default\")"
    );
}

#[test]
fn action_labels() {
    assert_eq!(action_label(SolverAction::Fold), "fold");
    assert_eq!(action_label(SolverAction::Check), "check");
    assert_eq!(action_label(SolverAction::Call), "call");
    assert_eq!(action_label(SolverAction::Bet(66)), "bet_66");
    assert_eq!(action_label(SolverAction::Raise(200)), "raise_200");
    assert_eq!(action_label(SolverAction::AllIn), "allin");
}

#[test]
fn pack_format_must_be_binary() {
    assert_eq!(check_pack_format("binary"), Ok(()));
    assert_eq!(
        check_pack_format("json-bundle"),
        Err(UnsupportedPackFormat { format: "json-bundle".to_string() })
    );
    assert_eq!(
        check_pack_format("json-bundle").unwrap_err().message(),
        "unsupported format \"json-bundle\": only \"binary\" is accepted today"
    );
}
