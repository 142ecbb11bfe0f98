use poker_solver::cache::{
    board_string, check_entry_json, entry_file_name, keys_equal, merge_later_wins,
    overridden_entries, unpack_in_bounds,
    parse_board_three_cards, parse_pot_type_label, pot_type_label, unpack_entries, BoardError,
    EntryError, EntryKey, PotType, UnknownPotType, UnpackError, UnpackedEntry, NUM_COMBOS,
    STRATEGY_BYTES,
};
use poker_solver::cards::Card;
use poker_solver::json::{JsonNumber, JsonValue};

#[test]
fn board_parser_accepts_6_char() {
    let b = parse_board_three_cards("AhKhQh").unwrap();
    assert_eq!(b[0], Card::parse("Ah").unwrap().0);
    assert_eq!(b[1], Card::parse("Kh").unwrap().0);
    assert_eq!(b[2], Card::parse("Qh").unwrap().0);
}

#[test]
fn board_parser_rejects_bad_length() {
    assert!(parse_board_three_cards("AhKh").is_err());
    assert!(parse_board_three_cards("AhKhQhAh").is_err());
}

#[test]
fn board_parser_rejects_bad_card() {
    assert!(parse_board_three_cards("XxYyZz").is_err());
}

#[test]
fn board_parser_names_the_failing_card() {
    assert_eq!(
        parse_board_three_cards("AhXx2c").unwrap_err(),
        BoardError::BadCard { index: 1, board: "AhXx2c".to_string() }
    );
    assert_eq!(
        parse_board_three_cards("AhXx2c").unwrap_err().message(),
        "bad card \"Xx\" in board \"AhXx2c\""
    );
    assert_eq!(
        parse_board_three_cards("AhKh").unwrap_err(),
        BoardError::Length { board: "AhKh".to_string() }
    );
    assert_eq!(parse_board_three_cards("2c3d4h").unwrap(), [0, 5, 10]);
}

#[test]
fn pot_type_labels_roundtrip() {
    for p in [PotType::Srp, PotType::ThreeBet, PotType::FourBet, PotType::FiveBet] {
        let label = pot_type_label(p);
        assert_eq!(parse_pot_type_label(label).unwrap().to_byte(), p.to_byte());
    }
}

#[test]
fn pot_type_labels_and_bytes() {
    assert_eq!(pot_type_label(PotType::Srp), "SRP");
    assert_eq!(pot_type_label(PotType::ThreeBet), "3BP");
    assert_eq!(pot_type_label(PotType::FourBet), "4BP");
    assert_eq!(pot_type_label(PotType::FiveBet), "5BP");
    assert_eq!(
        parse_pot_type_label("srp").unwrap_err(),
        UnknownPotType { label: "srp".to_string() }
    );
    assert_eq!(PotType::from_byte(2), Some(PotType::FourBet));
    assert_eq!(PotType::from_byte(4), None);
    assert_eq!(PotType::FiveBet.to_byte(), 3);
}

fn key(board: [u8; 3], spr: u8, pot: u8) -> EntryKey {
    EntryKey { board, spr_bucket: spr, pot, bet_tree_version: 1 }
}

#[test]
fn merge_keeps_later_entry_in_first_slot() {
    let a = key([50, 46, 42], 4, 0);
    let b = key([50, 46, 42], 8, 1);
    let c = key([0, 5, 10], 4, 1);
    assert!(keys_equal(&a, &a));
    assert!(!keys_equal(&a, &b));
    assert_eq!(merge_later_wins(&[a, b, a, c, b]), vec![2, 4, 3]);
    assert_eq!(merge_later_wins(&[a, a]), vec![1]);
    assert_eq!(merge_later_wins(&[]), Vec::<usize>::new());
}

fn num(text: &str) -> JsonValue {
    JsonValue::Number(JsonNumber::Float(text.to_string()))
}

fn posint(n: u64) -> JsonValue {
    JsonValue::Number(JsonNumber::PosInt(n))
}

fn st(s: &str) -> JsonValue {
    JsonValue::String(s.to_string())
}

fn obj(entries: Vec<(&str, JsonValue)>) -> JsonValue {
    JsonValue::Object(entries.into_iter().map(|(k, v)| (k.to_string(), v)).collect())
}

fn action(label: &str, weights: usize) -> JsonValue {
    obj(vec![
        ("label", st(label)),
        ("ev", num("0.12")),
        ("weights", JsonValue::Array((0..weights).map(|_| num("0.5")).collect())),
    ])
}

fn entry_json(board: &str, pot: &str, actions: Vec<JsonValue>) -> JsonValue {
    obj(vec![
        ("board", st(board)),
        ("spr_bucket", posint(4)),
        ("pot_type", st(pot)),
        ("exploitability", num("0.01")),
        ("actions", JsonValue::Array(actions)),
    ])
}

#[test]
fn entry_json_happy_path() {
    let v = entry_json(
        "AhKhQh",
        "SRP",
        vec![action("check", NUM_COMBOS), action("bet_33", NUM_COMBOS)],
    );
    let h = check_entry_json(&v, 8).unwrap();
    assert_eq!(h.canonical_board, [50, 46, 42]);
    assert_eq!(h.spr_bucket, 4);
    assert_eq!(h.pot_type, PotType::Srp);
    assert_eq!(h.bet_tree_version, 1);
    assert_eq!(h.num_actions, 2);
    assert_eq!(h.key(), EntryKey { board: [50, 46, 42], spr_bucket: 4, pot: 0, bet_tree_version: 1 });
}

#[test]
fn entry_json_errors() {
    let short = entry_json("AhKhQh", "SRP", vec![action("check", 3)]);
    assert_eq!(
        check_entry_json(&short, 8).unwrap_err(),
        EntryError::WeightsLength { action: 0, length: 3 }
    );
    let bad_pot = entry_json("AhKhQh", "6BP", vec![]);
    assert_eq!(
        check_entry_json(&bad_pot, 8).unwrap_err(),
        EntryError::PotType(UnknownPotType { label: "6BP".to_string() })
    );
    let too_many = entry_json("AhKhQh", "3BP", (0..3).map(|_| action("a", NUM_COMBOS)).collect());
    assert_eq!(
        check_entry_json(&too_many, 2).unwrap_err(),
        EntryError::TooManyActions { count: 3, max: 2 }
    );
    let bad_board = entry_json("AhKh", "SRP", vec![]);
    assert_eq!(
        check_entry_json(&bad_board, 8).unwrap_err(),
        EntryError::Board(BoardError::Length { board: "AhKh".to_string() })
    );
    assert_eq!(check_entry_json(&obj(vec![]), 8).unwrap_err(), EntryError::MissingBoard);
    assert_eq!(
        check_entry_json(&bad_pot, 8).unwrap_err().message(),
        "unknown pot_type label: \"6BP\""
    );
    assert_eq!(check_entry_json(&too_many, 2).unwrap_err().message(), "too many actions: 3 > MAX_ACTIONS=2");
    assert_eq!(
        check_entry_json(&bad_board, 8).unwrap_err().message(),
        "board \"AhKh\" must be 6 chars (3 cards)"
    );
    assert_eq!(EntryError::<String>::WeightsLength { action: 0, length: 3 }.message(), "action[0]: weights length 3 != 1326");
    assert_eq!(
        EntryError::<String>::WeightNotNumber { action: 2, index: 17 }.message(),
        "action[2].weights[17] is not a number"
    );
}

fn packed(entries: &[([u8; 3], u8, u8, u8, u8)]) -> Vec<u8> {
    let mut b = b"PSFLOP\0\0".to_vec();
    b.extend_from_slice(&1u16.to_le_bytes());
    b.extend_from_slice(&[0, 0]);
    b.extend_from_slice(&(entries.len() as u32).to_le_bytes());
    for (board, spr, pot, btv, n) in entries {
        b.extend_from_slice(board);
        b.extend_from_slice(&[*spr, *pot, *btv, *n, 0]);
        b.extend(std::iter::repeat(0u8).take(*n as usize * (STRATEGY_BYTES + 4) + 4));
    }
    b
}

#[test]
fn unpack_reads_each_entry_header() {
    let bytes = packed(&[([50, 46, 42], 4, 0, 1, 2), ([0, 5, 10], 8, 1, 3, 1)]);
    let (entries, err) = unpack_entries(&bytes);
    assert_eq!(err, None);
    assert_eq!(entries.len(), 2);
    assert_eq!(
        entries[0],
        UnpackedEntry {
            board: [50, 46, 42],
            spr_bucket: 4,
            pot_type: PotType::Srp,
            bet_tree_version: 1,
            num_actions: 2,
            strategy_offset: 24,
        }
    );
    let second = 24 + 2 * (STRATEGY_BYTES + 4) + 4 + 8;
    assert_eq!(entries[1].strategy_offset, second);
    assert_eq!(entries[1].pot_type, PotType::ThreeBet);
    assert_eq!(entries[0].weight_offset(1, 2), 24 + STRATEGY_BYTES + 8);
    assert_eq!(entries[0].ev_offset(1), 24 + 2 * STRATEGY_BYTES + 4);
    assert_eq!(entries[0].exploitability_offset(), 24 + 2 * (STRATEGY_BYTES + 4));
    assert_eq!(entry_file_name(&entries[0]), "AhKhQh_4spr_SRP_bt1.json");
    assert_eq!(entry_file_name(&entries[1]), "2c3d4h_8spr_3BP_bt3.json");
    assert_eq!(board_string([51, 0, 25]), "As2c8d");
}

#[test]
fn unpack_reports_header_errors() {
    assert_eq!(unpack_entries(&[1, 2, 3]).1, Some(UnpackError::TooShort));
    let mut bad_magic = packed(&[]);
    bad_magic[0] = b'X';
    assert_eq!(unpack_entries(&bad_magic).1, Some(UnpackError::BadMagic));
    let mut v2 = packed(&[]);
    v2[8] = 2;
    assert_eq!(unpack_entries(&v2).1, Some(UnpackError::UnsupportedVersion { version: 2 }));
    let bad_pot = packed(&[([50, 46, 42], 4, 0, 1, 1), ([0, 5, 10], 8, 9, 1, 1)]);
    let (entries, err) = unpack_entries(&bad_pot);
    assert_eq!(entries.len(), 1);
    assert_eq!(err, Some(UnpackError::UnknownPotByte { byte: 9 }));
    assert_eq!(UnpackError::UnknownPotByte { byte: 9 }.message(), "unknown PotType byte 9");
    assert_eq!(
        UnpackError::UnsupportedVersion { version: 2 }.message(),
        "unsupported format version: got 2, expected 1"
    );
    assert_eq!(UnpackError::TooShort.message(), "file too short for header");
}

#[test]
fn overrides_point_at_the_latest_earlier_same_key() {
    let a = key([50, 46, 42], 4, 0);
    let b = key([50, 46, 42], 8, 1);
    assert_eq!(overridden_entries(&[a, b, a, a, b]), vec![None, None, Some(0), Some(2), Some(1)]);
    assert_eq!(overridden_entries(&[]), Vec::<Option<usize>>::new());
}

#[test]
fn truncated_cache_is_out_of_bounds() {
    let bytes = packed(&[([50, 46, 42], 4, 0, 1, 2), ([0, 5, 10], 8, 1, 3, 1)]);
    assert!(unpack_in_bounds(&bytes));
    assert!(!unpack_in_bounds(&bytes[..bytes.len() - 1]));
    assert!(!unpack_in_bounds(&bytes[..20]));
    // Header errors are reported, not read past.
    assert!(unpack_in_bounds(&bytes[..10]));
    // An unknown pot byte stops the reading before the entry's data.
    let bad_pot = packed(&[([50, 46, 42], 4, 9, 1, 1)]);
    assert!(unpack_in_bounds(&bad_pot[..24]));
}

#[test]
fn board_names_parse_back_to_their_bytes() {
    for board in [[50u8, 46, 42], [0, 5, 10], [51, 0, 25], [13, 13, 13]] {
        assert_eq!(parse_board_three_cards(&board_string(board)).unwrap(), board);
    }
}
