use poker_solver::json::{JsonNumber, JsonValue};
use poker_solver::notebook::{
    cell_header_title, classify_line, emit_notebook, parse_markdown, text_to_source_lines,
    validate_nbformat_v45, CellError, LineKind, MarkdownError, NotebookError, ParsedCell,
};

fn st(s: &str) -> JsonValue {
    JsonValue::String(s.to_string())
}

fn posint(n: u64) -> JsonValue {
    JsonValue::Number(JsonNumber::PosInt(n))
}

fn obj(entries: Vec<(&str, JsonValue)>) -> JsonValue {
    JsonValue::Object(entries.into_iter().map(|(k, v)| (k.to_string(), v)).collect())
}

fn field<'a>(v: &'a JsonValue, key: &str) -> &'a JsonValue {
    v.get(key).unwrap_or_else(|| panic!("missing key {key}"))
}

fn array(v: &JsonValue) -> &Vec<JsonValue> {
    match v {
        JsonValue::Array(a) => a,
        other => panic!("not an array: {other:?}"),
    }
}

fn joined_source(cell: &JsonValue) -> String {
    array(field(cell, "source")).iter().filter_map(|v| v.as_str()).collect::<Vec<_>>().join("")
}

#[test]
fn classify_line_smoke() {
    assert!(matches!(classify_line("## Cell 1: setup"), LineKind::CellHeader));
    assert!(matches!(classify_line("```python"), LineKind::FenceOpen(ref l) if l == "python"));
    assert!(matches!(classify_line("```bash"), LineKind::FenceOpen(ref l) if l == "bash"));
    assert!(matches!(classify_line("```"), LineKind::FenceClose));
    assert!(matches!(classify_line("plain text"), LineKind::Other));
    assert!(matches!(classify_line("# Not a cell header"), LineKind::Other));
    assert!(matches!(classify_line("## Some non-cell header"), LineKind::Other));
}

#[test]
fn classify_line_fence_edge_cases() {
    assert!(matches!(classify_line("   ```   "), LineKind::FenceClose));
    assert!(matches!(classify_line("```  python extra"), LineKind::FenceOpen(ref l) if l == "python"));
    assert!(matches!(classify_line("  ## Cell 1: x"), LineKind::Other));
}

#[test]
fn cell_header_title_parses() {
    assert_eq!(cell_header_title("## Cell 1: setup"), Some("setup"));
    assert_eq!(cell_header_title("## Cell 42: do all the things"), Some("do all the things"));
    assert_eq!(cell_header_title("## Coordination"), None);
    assert_eq!(cell_header_title("# Title"), None);
}

#[test]
fn parse_single_code_cell() {
    let md = "# Title\n\n\
              Intro prose.\n\n\
              ## Cell 1: setup\n\n\
              ```python\n\
              import os\n\
              print('hi')\n\
              ```\n";
    let cells = parse_markdown(md).unwrap();
    assert_eq!(cells.len(), 2, "got: {cells:#?}");
    match &cells[0] {
        ParsedCell::Markdown { text } => {
            assert!(text.contains("Title"));
            assert!(text.contains("Intro prose"));
        }
        _ => panic!("expected first cell markdown"),
    }
    match &cells[1] {
        ParsedCell::Code { lang, source } => {
            assert_eq!(lang, "python");
            assert!(source.contains("import os"));
            assert!(source.contains("print('hi')"));
            assert!(!source.ends_with('\n'));
        }
        _ => panic!("expected second cell code"),
    }
}

#[test]
fn parse_multiple_cells_with_prose_between() {
    let md = "\
# Title

Leading.

## Cell 1: setup

Some prose before the fence.

```python
a = 1
```

## Cell 2: use

```python
print(a)
```

## Epilogue

Trailing text.
";
    let cells = parse_markdown(md).unwrap();
    assert!(cells.len() >= 4, "got {} cells: {cells:#?}", cells.len());
    match &cells[0] {
        ParsedCell::Markdown { text } => assert!(text.contains("Title")),
        _ => panic!("wrong first cell"),
    }
    let code_cells: Vec<_> = cells
        .iter()
        .filter_map(|c| match c {
            ParsedCell::Code { source, .. } => Some(source.as_str()),
            _ => None,
        })
        .collect();
    assert_eq!(code_cells.len(), 2, "cells: {cells:#?}");
    assert!(code_cells[0].contains("a = 1"));
    assert!(code_cells[1].contains("print(a)"));
    let has_epilogue = cells.iter().any(|c| match c {
        ParsedCell::Markdown { text } => text.contains("Epilogue"),
        _ => false,
    });
    assert!(has_epilogue, "lost the trailing Epilogue section");
}

#[test]
fn parse_bash_cell() {
    let md = "## Cell 1: run\n\n\
              ```bash\n\
              echo hi\n\
              ```\n";
    let cells = parse_markdown(md).unwrap();
    let codes: Vec<_> = cells
        .iter()
        .filter_map(|c| match c {
            ParsedCell::Code { lang, source } => Some((lang.clone(), source.clone())),
            _ => None,
        })
        .collect();
    assert_eq!(codes.len(), 1);
    assert_eq!(codes[0].0, "bash");
    assert!(codes[0].1.contains("echo hi"));
}

#[test]
fn parse_rejects_unclosed_fence() {
    let md = "## Cell 1: bad\n\n\
              ```python\n\
              never_closed = True\n";
    let err = parse_markdown(md).unwrap_err();
    assert!(err.message().contains("unclosed"), "got: {}", err.message());
    assert_eq!(err, MarkdownError::UnclosedFence, "got: {err:?}");
}

#[test]
fn trailing_bash_fence_stays_in_markdown() {
    let md = "\
## Cell 1: setup

```python
print('hi')
```

## Download locally

```bash
rclone copy foo
```

## Notes

A trailing paragraph.
";
    let cells = parse_markdown(md).unwrap();
    let code_count = cells.iter().filter(|c| matches!(c, ParsedCell::Code { .. })).count();
    assert_eq!(code_count, 1, "cells: {cells:#?}");
    let tail_md = cells
        .iter()
        .filter_map(|c| match c {
            ParsedCell::Markdown { text } => Some(text.as_str()),
            _ => None,
        })
        .last()
        .unwrap();
    assert!(tail_md.contains("rclone copy foo"), "tail: {tail_md}");
    assert!(tail_md.contains("A trailing paragraph"), "tail: {tail_md}");
    assert!(tail_md.contains("```bash"), "tail: {tail_md}");
}

#[test]
fn parse_exact_cells_of_small_plan() {
    let md = "# T\n\n## Cell 1: a\n\n```python\nx = 1\n\n```\n\nafter\n";
    let cells = parse_markdown(md).unwrap();
    assert_eq!(
        cells,
        vec![
            ParsedCell::Markdown { text: "# T".to_string() },
            ParsedCell::Code { lang: "python".to_string(), source: "x = 1".to_string() },
            ParsedCell::Markdown { text: "after".to_string() },
        ]
    );
}

#[test]
fn parse_empty_plan_gives_no_cells() {
    assert_eq!(parse_markdown("").unwrap(), vec![]);
    assert_eq!(parse_markdown("\n\n").unwrap(), vec![]);
}

#[test]
fn emit_notebook_shape_is_valid_v45() {
    let cells = vec![
        ParsedCell::Markdown { text: "# Title".to_string() },
        ParsedCell::Code { lang: "python".to_string(), source: "print('hi')".to_string() },
    ];
    let nb = emit_notebook(&cells);
    assert_eq!(field(&nb, "nbformat"), &posint(4));
    assert_eq!(field(&nb, "nbformat_minor"), &posint(5));
    assert!(field(field(&nb, "metadata"), "kernelspec").as_object().is_some());
    let cells_arr = array(field(&nb, "cells"));
    assert_eq!(cells_arr.len(), 2);
    assert_eq!(field(&cells_arr[0], "cell_type"), &st("markdown"));
    assert_eq!(field(&cells_arr[1], "cell_type"), &st("code"));
    assert!(field(&cells_arr[0], "id").as_str().is_some());
    assert!(field(&cells_arr[1], "id").as_str().is_some());
    assert_eq!(field(&cells_arr[1], "execution_count"), &JsonValue::Null);
    assert!(matches!(field(&cells_arr[1], "outputs"), JsonValue::Array(_)));
    validate_nbformat_v45(&nb).unwrap();
}

#[test]
fn emitted_cell_ids_are_zero_padded() {
    let cells = vec![
        ParsedCell::Markdown { text: "a".to_string() },
        ParsedCell::Code { lang: "bash".to_string(), source: "ls".to_string() },
    ];
    let nb = emit_notebook(&cells);
    let cells_arr = array(field(&nb, "cells"));
    assert_eq!(field(&cells_arr[0], "id"), &st("cell-md-000"));
    assert_eq!(field(&cells_arr[1], "id"), &st("cell-code-001"));
    assert_eq!(
        field(field(&cells_arr[1], "metadata"), "source_language"),
        &st("bash")
    );
}

#[test]
fn text_to_source_lines_splits_correctly() {
    assert_eq!(text_to_source_lines(""), Vec::<JsonValue>::new());
    assert_eq!(text_to_source_lines("one"), vec![JsonValue::String("one".to_string())]);
    assert_eq!(
        text_to_source_lines("one\ntwo"),
        vec![JsonValue::String("one\n".to_string()), JsonValue::String("two".to_string())]
    );
    assert_eq!(
        text_to_source_lines("one\ntwo\n"),
        vec![JsonValue::String("one\n".to_string()), JsonValue::String("two\n".to_string())]
    );
}

fn notebook_with(nbformat: u64, minor: u64, cells: Vec<JsonValue>) -> JsonValue {
    obj(vec![
        ("nbformat", posint(nbformat)),
        ("nbformat_minor", posint(minor)),
        ("metadata", obj(vec![("kernelspec", obj(vec![])), ("language_info", obj(vec![]))])),
        ("cells", JsonValue::Array(cells)),
    ])
}

#[test]
fn validate_rejects_bad_nbformat_version() {
    let bad = notebook_with(3, 0, vec![]);
    let err = validate_nbformat_v45(&bad).unwrap_err();
    assert!(err.message().contains("nbformat must be 4"));
    assert_eq!(err, NotebookError::BadNbformat { found: 3 });
}

#[test]
fn validate_rejects_missing_cell_id() {
    let bad = notebook_with(
        4,
        5,
        vec![obj(vec![
            ("cell_type", st("markdown")),
            ("metadata", obj(vec![])),
            ("source", JsonValue::Array(vec![])),
        ])],
    );
    let err = validate_nbformat_v45(&bad).unwrap_err();
    assert_eq!(err, NotebookError::Cell { index: 0, error: CellError::MissingId }, "got: {err:?}");
    assert_eq!(err.message(), "cell 0");
    let inner = CellError::<String>::MissingId.message();
    assert!(inner.contains("id"), "got: {inner}");
    assert_eq!(inner, "cell missing 'id' (required in v4.5)");
}

#[test]
fn validate_rejects_code_cell_missing_outputs() {
    let bad = notebook_with(
        4,
        5,
        vec![obj(vec![
            ("cell_type", st("code")),
            ("id", st("cell-code-0")),
            ("metadata", obj(vec![])),
            ("source", JsonValue::Array(vec![])),
            ("execution_count", JsonValue::Null),
        ])],
    );
    let err = validate_nbformat_v45(&bad).unwrap_err();
    assert_eq!(
        err,
        NotebookError::Cell { index: 0, error: CellError::MissingOutputs },
        "got: {err:?}"
    );
    let inner = CellError::<String>::MissingOutputs.message();
    assert!(inner.contains("outputs"), "got: {inner}");
    assert_eq!(CellError::UnknownCellType { cell_type: "weird".to_string() }.message(), "unknown cell_type \"weird\"");
}

#[test]
fn validate_reports_each_top_level_error() {
    assert_eq!(validate_nbformat_v45(&st("x")).unwrap_err(), NotebookError::RootNotObject);
    assert_eq!(validate_nbformat_v45(&obj(vec![])).unwrap_err(), NotebookError::MissingNbformat);
    assert_eq!(
        validate_nbformat_v45(&notebook_with(4, 4, vec![])).unwrap_err(),
        NotebookError::BadNbformatMinor { found: 4 }
    );
    let no_cells = obj(vec![
        ("nbformat", posint(4)),
        ("nbformat_minor", posint(5)),
        ("metadata", obj(vec![("kernelspec", obj(vec![])), ("language_info", obj(vec![]))])),
    ]);
    assert_eq!(validate_nbformat_v45(&no_cells).unwrap_err(), NotebookError::MissingCells);
    let no_kernel = obj(vec![
        ("nbformat", posint(4)),
        ("nbformat_minor", posint(5)),
        ("metadata", obj(vec![("language_info", obj(vec![]))])),
        ("cells", JsonValue::Array(vec![])),
    ]);
    assert_eq!(validate_nbformat_v45(&no_kernel).unwrap_err(), NotebookError::MissingKernelspec);
    assert!(validate_nbformat_v45(&notebook_with(4, 7, vec![])).is_ok());
}

#[test]
fn validate_rejects_unknown_cell_type_and_bad_source() {
    let weird = notebook_with(
        4,
        5,
        vec![obj(vec![
            ("cell_type", st("widget")),
            ("id", st("x")),
            ("metadata", obj(vec![])),
            ("source", st("text")),
        ])],
    );
    assert_eq!(
        validate_nbformat_v45(&weird).unwrap_err(),
        NotebookError::Cell {
            index: 0,
            error: CellError::UnknownCellType { cell_type: "widget".to_string() }
        }
    );
    let bad_item = notebook_with(
        4,
        5,
        vec![obj(vec![
            ("cell_type", st("markdown")),
            ("id", st("x")),
            ("metadata", obj(vec![])),
            ("source", JsonValue::Array(vec![st("a"), posint(1)])),
        ])],
    );
    assert_eq!(
        validate_nbformat_v45(&bad_item).unwrap_err(),
        NotebookError::Cell { index: 0, error: CellError::SourceItemNotString { index: 1 } }
    );
}

#[test]
fn round_trip_our_actual_plan_shape() {
    let md = "\
# Precompute preflop ranges (Colab notebook plan)

Target: one-time job.

## Cell 1: setup

```python
!curl https://sh.rustup.rs | sh
```

## Cell 2: build

```python
!cargo build --release
```

## Download locally

```bash
# On Henry's Mac:
rclone copy ...
```

## Expected runtime

~8 hours.
";
    let cells = parse_markdown(md).unwrap();
    let nb = emit_notebook(&cells);
    validate_nbformat_v45(&nb).unwrap();
    let cells_arr = array(field(&nb, "cells"));
    let code_count = cells_arr.iter().filter(|c| field(c, "cell_type") == &st("code")).count();
    assert_eq!(code_count, 2, "cells: {cells_arr:#?}");
    let last = cells_arr.last().unwrap();
    assert_eq!(field(last, "cell_type"), &st("markdown"));
    let last_src = joined_source(last);
    assert!(last_src.contains("Expected runtime"), "missing Expected runtime: {last_src}");
}

#[test]
fn source_lines_rejoin_to_the_text() {
    for text in ["", "one", "a\nb", "a\n\nb\n", "\n"] {
        let joined: String =
            text_to_source_lines(text).iter().filter_map(|v| v.as_str()).collect();
        assert_eq!(joined, text);
    }
}

#[test]
fn prose_fence_round_trips_literally() {
    let md = "Intro\n```bash extra\nx\n  ```  \nafter\n";
    let cells = parse_markdown(md).unwrap();
    assert_eq!(
        cells,
        vec![ParsedCell::Markdown { text: "Intro\n```bash extra\nx\n  ```  \nafter".to_string() }]
    );
    let cells = parse_markdown("Intro\n```bash extra\nx\n```\n").unwrap();
    assert_eq!(
        cells,
        vec![ParsedCell::Markdown { text: "Intro\n```bash extra\nx\n```".to_string() }]
    );
}
