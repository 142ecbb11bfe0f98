use poker_solver::json::{JsonNumber, JsonValue};
use poker_solver::range::{normalize_range_for_texassolver, strip_whitespace, RangeError};
use poker_solver::translate::{
    format_board_csv, translate_to_texassolver, TargetFormat, TranslateError, UnknownFormat,
};
use std::collections::HashMap;

fn st(s: &str) -> JsonValue {
    JsonValue::String(s.to_string())
}

fn posint(n: u64) -> JsonValue {
    JsonValue::Number(JsonNumber::PosInt(n))
}

fn float(text: &str) -> JsonValue {
    JsonValue::Number(JsonNumber::Float(text.to_string()))
}

fn obj(entries: Vec<(&str, JsonValue)>) -> JsonValue {
    JsonValue::Object(entries.into_iter().map(|(k, v)| (k.to_string(), v)).collect())
}

struct Spot<'a> {
    id: &'a str,
    street: &'a str,
    board: &'a str,
    hero: &'a str,
    villain: &'a str,
    pot: Option<u64>,
    stack: u64,
    to_act: &'a str,
    bet_tree: &'a str,
    iterations: u64,
}

fn fixture(s: &Spot) -> JsonValue {
    let mut input = vec![
        ("board", st(s.board)),
        ("hero_range", st(s.hero)),
        ("villain_range", st(s.villain)),
    ];
    if let Some(p) = s.pot {
        input.push(("pot", posint(p)));
    }
    input.push(("effective_stack", posint(s.stack)));
    input.push(("to_act", st(s.to_act)));
    input.push(("bet_tree", st(s.bet_tree)));
    obj(vec![
        ("id", st(s.id)),
        ("name", st("Dry AK-high flop")),
        ("description", st("Canonical single-raised pot c-bet study spot.")),
        ("street", st(s.street)),
        ("input", obj(input)),
        ("iterations", posint(s.iterations)),
        (
            "tolerances",
            obj(vec![("action_freq_abs", float("0.05")), ("ev_bb_abs", float("0.1"))]),
        ),
        ("expected_reference", st("texassolver")),
        ("expected_notes", st("placeholder")),
    ])
}

fn example_flop() -> Spot<'static> {
    Spot {
        id: "spot_001",
        street: "flop",
        board: "AhKd2c",
        hero: "AA, KK, AKs, AKo, QQ",
        villain: "77, 88, 99, TT, AQs",
        pot: Some(60),
        stack: 970,
        to_act: "hero",
        bet_tree: "default_v0_1",
        iterations: 1000,
    }
}

fn translate(s: &Spot, dump: &str) -> Result<String, TranslateError<String>> {
    translate_to_texassolver(&fixture(s), dump, 4)
}

fn parse_ts_config(cfg: &str) -> HashMap<String, Vec<String>> {
    let mut out: HashMap<String, Vec<String>> = HashMap::new();
    for line in cfg.lines() {
        let line = line.trim();
        if line.is_empty() || line.starts_with('#') {
            continue;
        }
        let (cmd, rest) = match line.split_once(char::is_whitespace) {
            Some((c, r)) => (c.to_string(), r.trim().to_string()),
            None => (line.to_string(), String::new()),
        };
        out.entry(cmd).or_default().push(rest);
    }
    out
}

fn assert_has_line(cfg: &str, needle: &str) {
    assert!(cfg.lines().any(|l| l.trim() == needle), "missing {needle:?} in\n{cfg}");
}

fn assert_no_line_starts_with(cfg: &str, prefix: &str) {
    for line in cfg.lines() {
        assert!(!line.trim().starts_with(prefix), "unexpected {prefix:?} in\n{cfg}");
    }
}

#[test]
fn flop_fixture_emits_all_three_streets() {
    let cfg = translate(&example_flop(), "out.json").unwrap();
    assert!(cfg.contains("set_pot 60"));
    assert!(cfg.contains("set_effective_stack 970"));
    assert!(cfg.contains("set_board Ah,Kd,2c"));
    assert!(cfg.contains("set_range_oop AA,KK,AKs,AKo,QQ"));
    assert!(cfg.contains("set_range_ip 77,88,99,TT,AQs"));
    assert!(cfg.contains("set_bet_sizes oop,flop,bet,33,66,100"));
    assert!(cfg.contains("set_bet_sizes ip,turn,bet,50,100,200"));
    assert!(cfg.contains("set_bet_sizes oop,river,bet,33,66,100,200"));
    assert!(cfg.contains("set_bet_sizes oop,flop,allin"));
    assert!(cfg.contains("set_allin_threshold 0.67"));
    assert!(cfg.contains("build_tree"));
    assert!(cfg.contains("set_max_iteration 1000"));
    assert!(cfg.contains("start_solve"));
    assert!(cfg.contains("dump_result out.json"));
}

#[test]
fn river_fixture_omits_flop_and_turn_bet_sizes() {
    let mut s = example_flop();
    s.street = "river";
    s.board = "AhKd2cQc4d";
    let cfg = translate(&s, "/tmp/r.json").unwrap();
    assert!(cfg.contains("set_bet_sizes oop,river,bet,33,66,100,200"));
    assert!(!cfg.contains("set_bet_sizes oop,flop"));
    assert!(!cfg.contains("set_bet_sizes oop,turn"));
    assert!(cfg.contains("set_board Ah,Kd,2c,Qc,4d"));
}

#[test]
fn turn_fixture_emits_turn_and_river_only() {
    let mut s = example_flop();
    s.street = "turn";
    s.board = "AhKd2cQc";
    let cfg = translate(&s, "out.json").unwrap();
    assert!(cfg.contains("set_bet_sizes oop,turn,bet,50,100,200"));
    assert!(cfg.contains("set_bet_sizes oop,river,bet,33,66,100,200"));
    assert!(!cfg.contains("set_bet_sizes oop,flop"));
    assert!(cfg.contains("set_board Ah,Kd,2c,Qc"));
}

#[test]
fn unknown_bet_tree_rejects() {
    let mut s = example_flop();
    s.bet_tree = "experimental_v0_9";
    let err = translate(&s, "out.json").unwrap_err();
    let msg = err.message();
    assert!(msg.contains("bet_tree") && msg.contains("experimental_v0_9"), "got: {msg}");
    assert_eq!(
        msg,
        "fixture \"spot_001\": unknown bet_tree preset \"experimental_v0_9\" (only \"default_v0_1\" is supported)"
    );
    match err {
        TranslateError::UnknownBetTree { id, name } => {
            assert_eq!(id, "spot_001");
            assert_eq!(name, "experimental_v0_9");
        }
        other => panic!("got: {other:?}"),
    }
}

#[test]
fn bad_street_rejects() {
    let mut s = example_flop();
    s.street = "turn";
    s.board = "AhKd2c";
    let err = translate(&s, "out.json").unwrap_err();
    assert!(err.message().contains("board"), "got: {}", err.message());
    assert_eq!(
        err.message(),
        "fixture \"spot_001\": board \"AhKd2c\" has length 6 but street turn requires 8"
    );
    match err {
        TranslateError::BoardLength { board, length, street, expected, .. } => {
            assert_eq!(board, "AhKd2c");
            assert_eq!(length, 6);
            assert_eq!(street, "turn");
            assert_eq!(expected, 8);
        }
        other => panic!("got: {other:?}"),
    }
}

#[test]
fn missing_required_field_rejects() {
    let mut s = example_flop();
    s.pot = None;
    let err = translate(&s, "out.json").unwrap_err();
    assert!(err.message().contains("pot"), "got: {}", err.message());
    assert_eq!(err.message(), "input: missing or non-integer field \"pot\"");
    assert_eq!(
        err,
        TranslateError::MissingInteger {
            field: "pot".to_string(),
            parent: Some("input".to_string())
        }
    );
}

#[test]
fn non_object_fixture_rejects() {
    let bad = JsonValue::Array(vec![posint(1), posint(2), posint(3)]);
    let err = translate_to_texassolver(&bad, "out.json", 4).unwrap_err();
    assert!(err.message().contains("JSON object"), "got: {}", err.message());
    assert_eq!(err, TranslateError::NotObject);
}

#[test]
fn target_format_parse() {
    assert_eq!(TargetFormat::parse("texassolver").unwrap(), TargetFormat::TexasSolver);
    assert_eq!(TargetFormat::parse("TexasSolver").unwrap(), TargetFormat::TexasSolver);
    assert_eq!(TargetFormat::parse("ts").unwrap(), TargetFormat::TexasSolver);
    assert!(TargetFormat::parse("piosolver").is_err());
    assert!(TargetFormat::parse("").is_err());
}

#[test]
fn format_board_csv_flop() {
    assert_eq!(format_board_csv("AhKd2c").unwrap(), "Ah,Kd,2c");
    assert_eq!(format_board_csv("AhKd2cQc").unwrap(), "Ah,Kd,2c,Qc");
    assert_eq!(format_board_csv("AhKd2cQc4d").unwrap(), "Ah,Kd,2c,Qc,4d");
}

#[test]
fn format_board_csv_rejects_odd_length() {
    assert!(format_board_csv("AhK").is_err());
}

#[test]
fn emitted_config_ends_with_newline() {
    let cfg = translate(&example_flop(), "out.json").unwrap();
    assert!(cfg.ends_with('\n'), "config should end with a newline");
}

#[test]
fn no_comment_lines_emitted() {
    let cfg = translate(&example_flop(), "out.json").unwrap();
    for line in cfg.lines() {
        assert!(!line.trim_start().starts_with('#'), "comment line: {line:?}");
    }
}

#[test]
fn strip_whitespace_helper() {
    assert_eq!(strip_whitespace("AA, KK, AKs"), "AA,KK,AKs");
    assert_eq!(strip_whitespace(" 77-TT\t, AQs\n"), "77-TT,AQs");
    assert_eq!(strip_whitespace("AA,KK"), "AA,KK");
}

#[test]
fn normalize_expands_pair_range_inclusive() {
    assert_eq!(normalize_range_for_texassolver("77-TT").unwrap(), "77,88,99,TT");
    assert_eq!(normalize_range_for_texassolver("TT-77").unwrap(), "77,88,99,TT");
}

#[test]
fn normalize_expands_pair_plus() {
    let out = normalize_range_for_texassolver("22+").unwrap();
    assert!(out.starts_with("22,33,"), "got: {out}");
    assert!(out.ends_with(",KK,AA"), "got: {out}");
}

#[test]
fn normalize_expands_pair_minus() {
    let out = normalize_range_for_texassolver("JJ-").unwrap();
    assert!(out.starts_with("22,"), "got: {out}");
    assert!(out.ends_with(",TT,JJ"), "got: {out}");
}

#[test]
fn normalize_expands_suited_plus() {
    assert_eq!(normalize_range_for_texassolver("T9s+").unwrap(), "T9s,J9s,Q9s,K9s,A9s");
}

#[test]
fn normalize_expands_offsuit_plus() {
    let out = normalize_range_for_texassolver("KTo+").unwrap();
    assert!(out.contains("KTo"), "got: {out}");
    assert!(out.contains("ATo"), "got: {out}");
    assert!(!out.contains("TTo"), "got: {out}");
}

#[test]
fn normalize_passes_through_length_2_and_3() {
    assert_eq!(normalize_range_for_texassolver("AA, KK, AKs, AKo").unwrap(), "AA,KK,AKs,AKo");
}

#[test]
fn normalize_preserves_weight_suffix() {
    let out = normalize_range_for_texassolver("77-99:0.5").unwrap();
    assert_eq!(out, "77:0.5,88:0.5,99:0.5");
}

#[test]
fn normalize_rejects_bad_token() {
    let err = normalize_range_for_texassolver("FOOBAR").unwrap_err();
    assert!(err.message().contains("unrecognized"), "got: {}", err.message());
    assert_eq!(err.message(), "unrecognized range token \"FOOBAR\" in range string \"FOOBAR\"");
    assert_eq!(
        err,
        RangeError::Unrecognized { token: "FOOBAR".to_string(), range: "FOOBAR".to_string() }
    );
}

#[test]
fn normalize_tolerates_trailing_comma_and_whitespace() {
    assert_eq!(normalize_range_for_texassolver(" AA, KK, ").unwrap(), "AA,KK");
}

#[test]
fn translate_flop_fixture_emits_all_streets() {
    let s = Spot {
        id: "spot_flop_test",
        street: "flop",
        board: "AhKd2c",
        hero: "AA, KK, AKs, AKo, QQ",
        villain: "77, 88, 99, TT, AQs, AQo",
        pot: Some(60),
        stack: 970,
        to_act: "hero",
        bet_tree: "default_v0_1",
        iterations: 1000,
    };
    let cfg = translate(&s, "/tmp/ts_dump.json").unwrap();
    let parsed = parse_ts_config(&cfg);
    assert_eq!(parsed.get("set_pot").unwrap()[0], "60");
    assert_eq!(parsed.get("set_effective_stack").unwrap()[0], "970");
    assert_eq!(parsed.get("set_board").unwrap()[0], "Ah,Kd,2c");
    assert_eq!(parsed.get("set_range_oop").unwrap()[0], "AA,KK,AKs,AKo,QQ");
    assert_eq!(parsed.get("set_range_ip").unwrap()[0], "77,88,99,TT,AQs,AQo");
    assert_eq!(parsed.get("set_bet_sizes").unwrap().len(), 18);
    assert_has_line(&cfg, "set_bet_sizes oop,flop,bet,33,66,100");
    assert_has_line(&cfg, "set_bet_sizes ip,flop,bet,33,66,100");
    assert_has_line(&cfg, "set_bet_sizes oop,turn,bet,50,100,200");
    assert_has_line(&cfg, "set_bet_sizes ip,turn,bet,50,100,200");
    assert_has_line(&cfg, "set_bet_sizes oop,river,bet,33,66,100,200");
    assert_has_line(&cfg, "set_bet_sizes ip,river,bet,33,66,100,200");
    assert_has_line(&cfg, "set_bet_sizes oop,flop,allin");
    assert_has_line(&cfg, "set_bet_sizes ip,river,allin");
    assert_eq!(parsed.get("set_allin_threshold").unwrap()[0], "0.67");
    assert_eq!(parsed.get("set_max_iteration").unwrap()[0], "1000");
    assert_eq!(parsed.get("set_use_isomorphism").unwrap()[0], "1");
    assert!(parsed.contains_key("build_tree"));
    assert!(parsed.contains_key("start_solve"));
    assert_eq!(parsed.get("dump_result").unwrap()[0], "/tmp/ts_dump.json");
}

#[test]
fn translate_river_fixture_emits_river_only() {
    let s = Spot {
        id: "spot_river_test",
        street: "river",
        board: "AhKd2cQc4d",
        hero: "AA, KK",
        villain: "QQ, JJ, TT",
        pot: Some(200),
        stack: 800,
        to_act: "villain",
        bet_tree: "default_v0_1",
        iterations: 500,
    };
    let cfg = translate(&s, "/tmp/ts_dump.json").unwrap();
    let parsed = parse_ts_config(&cfg);
    assert_eq!(parsed.get("set_pot").unwrap()[0], "200");
    assert_eq!(parsed.get("set_effective_stack").unwrap()[0], "800");
    assert_eq!(parsed.get("set_board").unwrap()[0], "Ah,Kd,2c,Qc,4d");
    assert_eq!(parsed.get("set_range_oop").unwrap()[0], "AA,KK");
    assert_eq!(parsed.get("set_range_ip").unwrap()[0], "QQ,JJ,TT");
    assert_eq!(parsed.get("set_bet_sizes").unwrap().len(), 6);
    assert_no_line_starts_with(&cfg, "set_bet_sizes oop,flop");
    assert_no_line_starts_with(&cfg, "set_bet_sizes ip,flop");
    assert_no_line_starts_with(&cfg, "set_bet_sizes oop,turn");
    assert_no_line_starts_with(&cfg, "set_bet_sizes ip,turn");
    assert_has_line(&cfg, "set_bet_sizes oop,river,bet,33,66,100,200");
    assert_has_line(&cfg, "set_bet_sizes ip,river,bet,33,66,100,200");
    assert_eq!(parsed.get("set_max_iteration").unwrap()[0], "500");
}

#[test]
fn translate_3bet_pot_flop_fixture_preserves_fields() {
    let s = Spot {
        id: "spot_3bp_test",
        street: "flop",
        board: "QhJs9d",
        hero: "AA, KK, QQ, JJ, AKs, AKo",
        villain: "TT, 99, AKs, KQs",
        pot: Some(180),
        stack: 820,
        to_act: "hero",
        bet_tree: "default_v0_1",
        iterations: 1000,
    };
    let cfg = translate(&s, "/tmp/ts_dump.json").unwrap();
    let parsed = parse_ts_config(&cfg);
    assert_eq!(parsed.get("set_pot").unwrap()[0], "180");
    assert_eq!(parsed.get("set_effective_stack").unwrap()[0], "820");
    assert_eq!(parsed.get("set_board").unwrap()[0], "Qh,Js,9d");
    assert_eq!(parsed.get("set_bet_sizes").unwrap().len(), 18);
}

#[test]
fn translate_with_empty_villain_range_passes_through() {
    let s = Spot {
        id: "spot_empty_villain",
        street: "flop",
        board: "2c3d4h",
        hero: "AA, KK, QQ, JJ, TT, 99, 88, 77",
        villain: "AA",
        pot: Some(40),
        stack: 1000,
        to_act: "hero",
        bet_tree: "default_v0_1",
        iterations: 500,
    };
    let cfg = translate(&s, "/tmp/ts_dump.json").unwrap();
    let parsed = parse_ts_config(&cfg);
    assert_eq!(parsed.get("set_range_ip").unwrap()[0], "AA");
    assert_eq!(parsed.get("set_range_oop").unwrap()[0], "AA,KK,QQ,JJ,TT,99,88,77");
    assert_eq!(parsed.get("set_pot").unwrap()[0], "40");
    assert_eq!(parsed.get("set_effective_stack").unwrap()[0], "1000");
}

#[test]
fn unknown_bet_tree_preset_fails_cleanly() {
    let mut s = example_flop();
    s.bet_tree = "experimental_v2";
    let err = translate(&s, "/tmp/ts_dump.json").unwrap_err();
    assert!(matches!(err, TranslateError::UnknownBetTree { ref name, .. } if name == "experimental_v2"));
}

// Further cases of the library's own.

#[test]
fn thread_count_is_written_and_zero_becomes_one() {
    let cfg = translate_to_texassolver(&fixture(&example_flop()), "d.json", 8).unwrap();
    assert!(cfg.contains("set_thread_num 8\n"));
    let cfg = translate_to_texassolver(&fixture(&example_flop()), "d.json", 0).unwrap();
    assert!(cfg.contains("set_thread_num 1\n"));
}

#[test]
fn config_line_order_is_fixed() {
    let mut s = example_flop();
    s.street = "river";
    s.board = "AhKd2cQc4d";
    s.hero = "AA";
    s.villain = "KK";
    let cfg = translate(&s, "p.json").unwrap();
    let expected = "set_pot 60\nset_effective_stack 970\nset_board Ah,Kd,2c,Qc,4d\n\
set_range_ip KK\nset_range_oop AA\n\
set_bet_sizes oop,river,bet,33,66,100,200\nset_bet_sizes oop,river,raise,33,66,100,200\n\
set_bet_sizes oop,river,allin\nset_bet_sizes ip,river,bet,33,66,100,200\n\
set_bet_sizes ip,river,raise,33,66,100,200\nset_bet_sizes ip,river,allin\n\
set_allin_threshold 0.67\nbuild_tree\nset_thread_num 4\nset_accuracy 0.3\n\
set_max_iteration 1000\nset_print_interval 10\nset_use_isomorphism 1\nstart_solve\n\
set_dump_rounds 2\ndump_result p.json\n";
    assert_eq!(cfg, expected);
}

#[test]
fn each_error_variant_has_an_input() {
    let mut s = example_flop();
    s.street = "preflop";
    assert!(matches!(translate(&s, "d").unwrap_err(), TranslateError::BadStreet { .. }));
    let mut s = example_flop();
    s.to_act = "button";
    assert!(matches!(translate(&s, "d").unwrap_err(), TranslateError::BadToAct { .. }));
    let mut s = example_flop();
    s.board = "AhKdé";
    assert!(matches!(translate(&s, "d").unwrap_err(), TranslateError::BoardText { .. }));
    let mut s = example_flop();
    s.hero = "AA, FOOBAR";
    match translate(&s, "d").unwrap_err() {
        TranslateError::Range { field, error, .. } => {
            assert_eq!(field, "hero_range");
            assert!(matches!(error, RangeError::Unrecognized { .. }));
        }
        other => panic!("got: {other:?}"),
    }
    let mut s = example_flop();
    s.villain = "XX-YY";
    match translate(&s, "d").unwrap_err() {
        TranslateError::Range { field, error, .. } => {
            assert_eq!(field, "villain_range");
            assert_eq!(error, RangeError::BadRank { token: "XX-YY".to_string() });
        }
        other => panic!("got: {other:?}"),
    }
    let mut s = example_flop();
    s.iterations = 5_000_000_000;
    assert_eq!(
        translate(&s, "d").unwrap_err(),
        TranslateError::IntegerTooLarge {
            field: "iterations".to_string(),
            parent: None,
            value: 5_000_000_000
        }
    );
    let no_input = obj(vec![("id", st("x")), ("street", st("flop")), ("iterations", posint(1))]);
    assert_eq!(
        translate_to_texassolver(&no_input, "d", 1).unwrap_err(),
        TranslateError::MissingInput { id: "x".to_string() }
    );
    let no_id = obj(vec![("street", st("flop"))]);
    assert_eq!(
        translate_to_texassolver(&no_id, "d", 1).unwrap_err(),
        TranslateError::MissingString { field: "id".to_string(), parent: None }
    );
}

#[test]
fn target_format_error_carries_lowercased_name() {
    assert_eq!(
        TargetFormat::parse("PioSolver").unwrap_err(),
        UnknownFormat { name: "piosolver".to_string() }
    );
    assert_eq!(TargetFormat::parse("TS").unwrap(), TargetFormat::TexasSolver);
}

#[test]
fn normalized_ranges_carry_weights_and_skip_pair_slot() {
    assert_eq!(
        normalize_range_for_texassolver("K9s+:0.25").unwrap(),
        "K9s:0.25,A9s:0.25"
    );
    assert_eq!(normalize_range_for_texassolver("99s+").unwrap(), "T9s,J9s,Q9s,K9s,A9s");
    assert_eq!(normalize_range_for_texassolver("tt-").unwrap(), "22,33,44,55,66,77,88,99,TT");
    let out = normalize_range_for_texassolver("22+").unwrap();
    assert!(!out.chars().any(char::is_whitespace));
    assert_eq!(out.split(',').count(), 13);
}

#[test]
fn normalized_pieces_have_two_or_three_byte_bodies() {
    let out = normalize_range_for_texassolver("22+:0.5, A K, KTo+, 77-99 : 0. 7, AKs").unwrap();
    assert!(!out.is_empty());
    for piece in out.split(',') {
        let body = match piece.rsplit_once(':') {
            Some((b, _)) => b,
            None => piece,
        };
        assert!(body.len() == 2 || body.len() == 3, "piece {piece:?} in {out:?}");
    }
    assert!(out.starts_with("22:0.5,33:0.5,"));
    assert!(out.contains(",AK,KTo,ATo,77:0.7,88:0.7,99:0.7,AKs"), "got: {out}");
    // Blank tokens only: the one input whose output has an empty piece.
    assert_eq!(normalize_range_for_texassolver(" , ").unwrap(), "");
}

#[test]
fn to_act_never_swaps_seats() {
    let hero_first = example_flop();
    let villain_first = Spot { to_act: "villain", ..example_flop() };
    let a = translate(&hero_first, "out.json").unwrap();
    let b = translate(&villain_first, "out.json").unwrap();
    assert_eq!(a, b);
    let hero_norm = normalize_range_for_texassolver(hero_first.hero).unwrap();
    let villain_norm = normalize_range_for_texassolver(hero_first.villain).unwrap();
    assert_has_line(&a, &format!("set_range_oop {hero_norm}"));
    assert_has_line(&a, &format!("set_range_ip {villain_norm}"));
}
