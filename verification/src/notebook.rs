//! Conversion of notebook plans written in Markdown into Jupyter
//! notebooks (nbformat 4.5).
//!
//! Plan format: a `## Cell N: <title>` heading starts a code-cell
//! section; the fenced code block that follows becomes the code cell, and
//! prose between the heading and the fence becomes a markdown cell of its
//! own. Prose before the first heading, between sections and after the
//! last fence becomes markdown cells. A fence that opens outside a
//! `## Cell` section stays literally inside the surrounding markdown.
//! An unclosed fence at the end of the file is an error.
//!
//! Emitted cells get deterministic ids `cell-md-NNN` / `cell-code-NNN`
//! from their index; code cells carry their fence language as
//! `metadata.source_language`, `execution_count: null` and `outputs: []`.

use vstd::prelude::*;
use vstd::string::StrSliceExecFns;
use crate::json::{JsonValue, JsonNumber, entry_lookup, obj_get, spec_as_object};
use crate::text::{
    chars_of, string_of, chars_eq, trim, trim_chars, is_ws, trim_start, starts_with_chars,
    has_prefix, copy_range, append_chars, first_word_chars, leading_word, trim_end_char,
    trim_start_char, trim_end_matches_char, trim_matches_char, split_inclusive,
    split_inclusive_chars, seqs_of, split_once, trim_bounds, lemma_first_index_of, decimal,
    push_decimal,
};

verus! {

/// Arguments of the `md-to-ipynb` command.
#[derive(Debug)]
pub struct MdToIpynbArgs {
    /// Path of the input `.md` plan.
    pub input: String,
    /// Path to write the `.ipynb` to (`-` for standard output).
    pub output: String,
}

/// One cell parsed out of a plan. `S` is `String` at run time and
/// `Seq<char>` in contracts.
#[derive(Debug, Clone, PartialEq, Eq)]
pub enum ParsedCell<S> {
    /// A markdown cell; `text` has no leading or trailing newlines.
    Markdown { text: S },
    /// A code cell: the fence language and the fence body without its
    /// final newlines.
    Code { lang: S, source: S },
}

impl View for ParsedCell<String> {
    type V = ParsedCell<Seq<char>>;

    open spec fn view(&self) -> ParsedCell<Seq<char>> {
        match self {
            ParsedCell::Markdown { text } => ParsedCell::Markdown { text: text@ },
            ParsedCell::Code { lang, source } => ParsedCell::Code {
                lang: lang@,
                source: source@,
            },
        }
    }
}

/// The cells of a vector of parsed cells.
pub open spec fn cells_view(v: Seq<ParsedCell<String>>) -> Seq<ParsedCell<Seq<char>>> {
    v.map_values(|c: ParsedCell<String>| c@)
}

/// What a plan line is, judged without its line ending.
#[derive(Debug, Clone, PartialEq, Eq)]
pub enum LineKind<S> {
    /// A `## Cell ...` heading.
    CellHeader,
    /// An opening fence with its language.
    FenceOpen(S),
    /// A bare closing fence.
    FenceClose,
    /// Anything else.
    Other,
}

impl View for LineKind<String> {
    type V = LineKind<Seq<char>>;

    open spec fn view(&self) -> LineKind<Seq<char>> {
        match self {
            LineKind::CellHeader => LineKind::CellHeader,
            LineKind::FenceOpen(l) => LineKind::FenceOpen(l@),
            LineKind::FenceClose => LineKind::FenceClose,
            LineKind::Other => LineKind::Other,
        }
    }
}

/// Why a plan could not be parsed.
#[derive(Debug, Clone, Copy, PartialEq, Eq, Structural)]
pub enum MarkdownError {
    /// A code fence is still open at the end of the file.
    UnclosedFence,
}

/// The kind of a line (given without its line ending): a heading that
/// starts with `## Cell `; else, once trimmed, a bare fence, or a fence
/// followed by a language word (a fence followed only by whitespace is a
/// closing fence); else other text.
pub open spec fn line_kind(stripped: Seq<char>) -> LineKind<Seq<char>> {
    if has_prefix(stripped, "## Cell "@) {
        LineKind::CellHeader
    } else {
        let t = trim(stripped);
        if t == "```"@ {
            LineKind::FenceClose
        } else if has_prefix(t, "```"@) {
            let lang = leading_word(trim_start(t.skip("```"@.len() as int)));
            if lang.len() > 0 {
                LineKind::FenceOpen(lang)
            } else {
                LineKind::FenceClose
            }
        } else {
            LineKind::Other
        }
    }
}

/// The kind of a line given as characters.
fn classify_chars(stripped: &[char]) -> (r: LineKind<String>)
    ensures
        r@ == line_kind(stripped@),
{
    let header = chars_of("## Cell ");
    if starts_with_chars(stripped, header.as_slice()) {
        return LineKind::CellHeader;
    }
    let t = trim_chars(stripped);
    let fence = chars_of("```");
    if chars_eq(t.as_slice(), fence.as_slice()) {
        return LineKind::FenceClose;
    }
    if starts_with_chars(t.as_slice(), fence.as_slice()) {
        let rest = copy_range(t.as_slice(), fence.len(), t.len());
        assert(rest@ =~= t@.skip(fence@.len() as int));
        let lang = first_word_chars(rest.as_slice());
        if lang.len() > 0 {
            LineKind::FenceOpen(string_of(&lang))
        } else {
            LineKind::FenceClose
        }
    } else {
        LineKind::Other
    }
}

/// Classifies one plan line, given without its line ending.
pub fn classify_line(stripped: &str) -> (r: LineKind<String>)
    ensures
        r@ == line_kind(stripped@),
{
    let chars = chars_of(stripped);
    classify_chars(chars.as_slice())
}

/// The markdown cell that buffered prose becomes: the text without
/// leading and trailing newlines, unless it is blank.
pub open spec fn flushed(buf: Seq<char>) -> Option<ParsedCell<Seq<char>>> {
    let t = trim_end_char(trim_start_char(buf, '\n'), '\n');
    if trim(t).len() == 0 {
        None
    } else {
        Some(ParsedCell::Markdown { text: t })
    }
}

/// The markdown cell of buffered prose, if it is not blank.
fn flush_markdown(buf: &[char]) -> (r: Option<ParsedCell<String>>)
    ensures
        match r {
            Some(c) => flushed(buf@) == Some(c@),
            None => flushed(buf@) is None,
        },
{
    let t = trim_matches_char(buf, '\n');
    let inner = trim_chars(t.as_slice());
    if inner.len() == 0 {
        None
    } else {
        Some(ParsedCell::Markdown { text: string_of(&t) })
    }
}

/// The title of a `## Cell N: title` heading: what follows the first
/// `:` after the `## Cell ` prefix, trimmed.
pub open spec fn header_title(line: Seq<char>) -> Option<Seq<char>> {
    if has_prefix(line, "## Cell "@) {
        match split_once(line.skip("## Cell "@.len() as int), ':') {
            Some((_, rest)) => Some(trim(rest)),
            None => None,
        }
    } else {
        None
    }
}

/// The title of a `## Cell N: title` heading.
pub fn cell_header_title(line: &str) -> (r: Option<&str>)
    ensures
        match r {
            Some(t) => header_title(line@) == Some(t@),
            None => header_title(line@) is None,
        },
{
    let chars = chars_of(line);
    let prefix = chars_of("## Cell ");
    if !starts_with_chars(chars.as_slice(), prefix.as_slice()) {
        return None;
    }
    let p = prefix.len();
    let n = chars.len();
    let ghost tail = chars@.skip(p as int);
    let mut k: usize = p;
    while k < n && chars[k] != ':'
        invariant
            p <= k <= n,
            n == chars@.len(),
            tail == chars@.skip(p as int),
            forall|j: int| 0 <= j < k - p ==> #[trigger] tail[j] != ':',
        decreases n - k,
    {
        assert(tail[k - p] == chars@[k as int]);
        k += 1;
    }
    proof {
        if k < n {
            assert(tail[k - p] == chars@[k as int]);
        }
        lemma_first_index_of(tail, ':', k - p);
    }
    if k == n {
        return None;
    }
    let rest = copy_range(chars.as_slice(), k + 1, n);
    assert(rest@ =~= tail.skip(k - p + 1));
    let (a, b) = trim_bounds(rest.as_slice());
    assert(rest@.subrange(a as int, b as int) =~= chars@.subrange(k + 1 + a, k + 1 + b));
    Some(line.substring_char(k + 1 + a, k + 1 + b))
}

/// An open code fence, as the parser sees it.
pub struct FenceState {
    /// The fence's language.
    pub lang: Seq<char>,
    /// Whether the fence opened inside a `## Cell` section.
    pub inside_cell: bool,
    /// The opening line as written, with its line ending.
    pub opening: Seq<char>,
    /// The lines read inside the fence so far, with their line endings.
    pub body: Seq<char>,
}

/// The parser's state between lines.
pub struct ParseState {
    /// Cells completed so far.
    pub cells: Seq<ParsedCell<Seq<char>>>,
    /// Prose buffered for the next markdown cell.
    pub md_buf: Seq<char>,
    /// Whether a `## Cell` section is open and its fence not yet seen.
    pub in_cell: bool,
    /// The open fence, if any.
    pub fence: Option<FenceState>,
}

/// `cells`, followed by the markdown cell of `buf` when it is not blank.
pub open spec fn with_flushed(cells: Seq<ParsedCell<Seq<char>>>, buf: Seq<char>) -> Seq<
    ParsedCell<Seq<char>>,
> {
    match flushed(buf) {
        Some(c) => cells.push(c),
        None => cells,
    }
}

/// The state after reading line `raw` (with its line ending, if any).
pub open spec fn next_state(st: ParseState, raw: Seq<char>) -> ParseState {
    let kind = line_kind(trim_end_char(raw, '\n'));
    match st.fence {
        Some(f) => if kind is FenceClose {
            if f.inside_cell {
                ParseState {
                    cells: st.cells.push(
                        ParsedCell::Code { lang: f.lang, source: trim_end_char(f.body, '\n') },
                    ),
                    md_buf: st.md_buf,
                    in_cell: false,
                    fence: None,
                }
            } else {
                ParseState {
                    cells: st.cells,
                    md_buf: st.md_buf + f.opening + f.body + raw,
                    in_cell: st.in_cell,
                    fence: None,
                }
            }
        } else {
            ParseState {
                cells: st.cells,
                md_buf: st.md_buf,
                in_cell: st.in_cell,
                fence: Some(
                    FenceState {
                        lang: f.lang,
                        inside_cell: f.inside_cell,
                        opening: f.opening,
                        body: f.body + raw,
                    },
                ),
            }
        },
        None => match kind {
            LineKind::CellHeader => ParseState {
                cells: with_flushed(st.cells, st.md_buf),
                md_buf: seq![],
                in_cell: true,
                fence: None,
            },
            LineKind::FenceOpen(lang) => if st.in_cell {
                ParseState {
                    cells: with_flushed(st.cells, st.md_buf),
                    md_buf: seq![],
                    in_cell: true,
                    fence: Some(FenceState { lang, inside_cell: true, opening: raw, body: seq![] }),
                }
            } else {
                ParseState {
                    cells: st.cells,
                    md_buf: st.md_buf,
                    in_cell: false,
                    fence: Some(FenceState { lang, inside_cell: false, opening: raw, body: seq![] }),
                }
            },
            _ => ParseState {
                cells: st.cells,
                md_buf: st.md_buf + raw,
                in_cell: st.in_cell,
                fence: None,
            },
        },
    }
}

/// The state before any line.
pub open spec fn initial_state() -> ParseState {
    ParseState { cells: seq![], md_buf: seq![], in_cell: false, fence: None }
}

/// The state after reading `lines` in order.
pub open spec fn state_after(lines: Seq<Seq<char>>) -> ParseState
    decreases lines.len(),
{
    if lines.len() == 0 {
        initial_state()
    } else {
        next_state(state_after(lines.drop_last()), lines.last())
    }
}

/// The cells of a plan, or why it cannot be parsed.
pub open spec fn parsed_markdown(md: Seq<char>) -> Result<
    Seq<ParsedCell<Seq<char>>>,
    MarkdownError,
> {
    let st = state_after(split_inclusive(md, '\n'));
    if st.fence is Some {
        Err(MarkdownError::UnclosedFence)
    } else {
        Ok(with_flushed(st.cells, st.md_buf))
    }
}

/// Whether a `## Cell` section is open.
enum Scope {
    /// Outside any `## Cell` section.
    Outside,
    /// Inside a `## Cell` section, before its fence.
    CellProse,
}

/// The fenced block being read, if any.
enum Fence {
    /// No fence is open.
    Closed,
    /// A fence is open.
    Open { lang: Vec<char>, inside_cell: bool, opening: Vec<char>, body: Vec<char> },
}

/// The parser between lines.
struct Parser {
    cells: Vec<ParsedCell<String>>,
    md_buf: Vec<char>,
    scope: Scope,
    fence: Fence,
}

impl Parser {
    /// The state this parser is in.
    spec fn model(&self) -> ParseState {
        ParseState {
            cells: cells_view(self.cells@),
            md_buf: self.md_buf@,
            in_cell: self.scope is CellProse,
            fence: match self.fence {
                Fence::Closed => None,
                Fence::Open { lang, inside_cell, opening, body } => Some(
                    FenceState { lang: lang@, inside_cell, opening: opening@, body: body@ },
                ),
            },
        }
    }

    /// A parser that has read nothing.
    fn new() -> (p: Parser)
        ensures
            p.model() == initial_state(),
    {
        let p = Parser {
            cells: Vec::new(),
            md_buf: Vec::new(),
            scope: Scope::Outside,
            fence: Fence::Closed,
        };
        assert(cells_view(p.cells@) =~= Seq::<ParsedCell<Seq<char>>>::empty());
        p
    }

    /// Reads one line (with its line ending, if any).
    fn feed(self, raw: &[char]) -> (r: Parser)
        ensures
            r.model() == next_state(self.model(), raw@),
    {
        let ghost st = self.model();
        let Parser { mut cells, mut md_buf, scope, fence } = self;
        let ghost cv = cells_view(cells@);
        let stripped = trim_end_matches_char(raw, '\n');
        let kind = classify_chars(stripped.as_slice());
        match fence {
            Fence::Open { lang, inside_cell, opening, body } => {
                if matches!(kind, LineKind::FenceClose) {
                    if inside_cell {
                        let source = trim_end_matches_char(body.as_slice(), '\n');
                        let cell = ParsedCell::Code {
                            lang: string_of(&lang),
                            source: string_of(&source),
                        };
                        cells.push(cell);
                        assert(cells_view(cells@) =~= cv.push(cell@));
                        Parser { cells, md_buf, scope: Scope::Outside, fence: Fence::Closed }
                    } else {
                        let ghost m0 = md_buf@;
                        append_chars(&mut md_buf, opening.as_slice());
                        append_chars(&mut md_buf, body.as_slice());
                        append_chars(&mut md_buf, raw);
                        assert(md_buf@ =~= m0 + opening@ + body@ + raw@);
                        Parser { cells, md_buf, scope, fence: Fence::Closed }
                    }
                } else {
                    let mut body = body;
                    append_chars(&mut body, raw);
                    Parser {
                        cells,
                        md_buf,
                        scope,
                        fence: Fence::Open { lang, inside_cell, opening, body },
                    }
                }
            },
            Fence::Closed => {
                match kind {
                    LineKind::CellHeader => {
                        match flush_markdown(md_buf.as_slice()) {
                            Some(cell) => {
                                cells.push(cell);
                                assert(cells_view(cells@) =~= cv.push(cell@));
                            },
                            None => {},
                        }
                        Parser {
                            cells,
                            md_buf: Vec::new(),
                            scope: Scope::CellProse,
                            fence: Fence::Closed,
                        }
                    },
                    LineKind::FenceOpen(lang) => {
                        let lang_chars = chars_of(lang.as_str());
                        let opening = copy_range(raw, 0, raw.len());
                        assert(opening@ =~= raw@);
                        match scope {
                            Scope::CellProse => {
                                match flush_markdown(md_buf.as_slice()) {
                                    Some(cell) => {
                                        cells.push(cell);
                                        assert(cells_view(cells@) =~= cv.push(cell@));
                                    },
                                    None => {},
                                }
                                Parser {
                                    cells,
                                    md_buf: Vec::new(),
                                    scope: Scope::CellProse,
                                    fence: Fence::Open {
                                        lang: lang_chars,
                                        inside_cell: true,
                                        opening,
                                        body: Vec::new(),
                                    },
                                }
                            },
                            Scope::Outside => Parser {
                                cells,
                                md_buf,
                                scope: Scope::Outside,
                                fence: Fence::Open {
                                    lang: lang_chars,
                                    inside_cell: false,
                                    opening,
                                    body: Vec::new(),
                                },
                            },
                        }
                    },
                    _ => {
                        append_chars(&mut md_buf, raw);
                        Parser { cells, md_buf, scope, fence: Fence::Closed }
                    },
                }
            },
        }
    }
}

/// Parses a plan into its cells, in order.
pub fn parse_markdown(md: &str) -> (r: Result<Vec<ParsedCell<String>>, MarkdownError>)
    ensures
        match r {
            Ok(v) => parsed_markdown(md@) == Ok::<_, MarkdownError>(cells_view(v@)),
            Err(e) => parsed_markdown(md@) == Err::<Seq<ParsedCell<Seq<char>>>, _>(e),
        },
{
    let chars = chars_of(md);
    let lines = split_inclusive_chars(chars.as_slice(), '\n');
    let ghost ls = seqs_of(lines@);
    let mut p = Parser::new();
    let mut i: usize = 0;
    assert(ls.take(0) =~= Seq::<Seq<char>>::empty());
    while i < lines.len()
        invariant
            i <= lines@.len(),
            ls == seqs_of(lines@),
            p.model() == state_after(ls.take(i as int)),
        decreases lines.len() - i,
    {
        p = p.feed(lines[i].as_slice());
        assert(ls.take(i as int + 1).drop_last() =~= ls.take(i as int));
        i += 1;
    }
    assert(ls.take(i as int) =~= ls);
    let Parser { mut cells, md_buf, scope, fence } = p;
    match fence {
        Fence::Open { .. } => Err(MarkdownError::UnclosedFence),
        Fence::Closed => {
            let ghost cv = cells_view(cells@);
            match flush_markdown(md_buf.as_slice()) {
                Some(cell) => {
                    cells.push(cell);
                    assert(cells_view(cells@) =~= cv.push(cell@));
                },
                None => {},
            }
            Ok(cells)
        },
    }
}

/// `v` is the JSON string `s`.
pub open spec fn is_string(v: JsonValue, s: Seq<char>) -> bool {
    v is String && v->String_0@ == s
}

/// `vs` are JSON strings holding `ss`, in order.
pub open spec fn strings_are(vs: Seq<JsonValue>, ss: Seq<Seq<char>>) -> bool {
    vs.len() == ss.len() && forall|i: int| 0 <= i < vs.len() ==> is_string(#[trigger] vs[i], ss[i])
}

/// `v` is an object whose keys are `keys`, in order.
pub open spec fn has_keys(v: JsonValue, keys: Seq<Seq<char>>) -> bool {
    v is Object && v->Object_0@.len() == keys.len() && forall|i: int|
        0 <= i < keys.len() ==> (#[trigger] v->Object_0@[i]).0@ == keys[i]
}

/// The value of entry `i` of an object.
pub open spec fn entry(v: JsonValue, i: int) -> JsonValue {
    v->Object_0@[i].1
}

/// `v` is an empty JSON array.
pub open spec fn is_empty_array(v: JsonValue) -> bool {
    v is Array && v->Array_0@.len() == 0
}

/// `v` is the JSON integer `n`.
pub open spec fn is_integer(v: JsonValue, n: u64) -> bool {
    v == JsonValue::Number(JsonNumber::PosInt(n))
}

/// `n` in decimal, zero-padded to at least three digits.
pub open spec fn padded3(n: nat) -> Seq<char> {
    if n < 10 {
        seq!['0', '0'] + decimal(n)
    } else if n < 100 {
        seq!['0'] + decimal(n)
    } else {
        decimal(n)
    }
}

/// `v` is the nbformat `source` of `text`: its lines, each keeping its
/// newline.
pub open spec fn is_source(v: JsonValue, text: Seq<char>) -> bool {
    v is Array && strings_are(v->Array_0@, split_inclusive(text, '\n'))
}

/// `v` is the nbformat cell emitted for `cell` at position `index`.
pub open spec fn emitted_cell(v: JsonValue, index: nat, cell: ParsedCell<Seq<char>>) -> bool {
    match cell {
        ParsedCell::Markdown { text } => {
            &&& has_keys(v, seq!["cell_type"@, "id"@, "metadata"@, "source"@])
            &&& is_string(entry(v, 0), "markdown"@)
            &&& is_string(entry(v, 1), "cell-md-"@ + padded3(index))
            &&& has_keys(entry(v, 2), seq![])
            &&& is_source(entry(v, 3), text)
        },
        ParsedCell::Code { lang, source } => {
            &&& has_keys(
                v,
                seq!["cell_type"@, "execution_count"@, "id"@, "metadata"@, "outputs"@, "source"@],
            )
            &&& is_string(entry(v, 0), "code"@)
            &&& entry(v, 1) is Null
            &&& is_string(entry(v, 2), "cell-code-"@ + padded3(index))
            &&& has_keys(entry(v, 3), seq!["source_language"@])
            &&& is_string(entry(entry(v, 3), 0), lang)
            &&& is_empty_array(entry(v, 4))
            &&& is_source(entry(v, 5), source)
        },
    }
}

/// `v` is the nbformat 4.5 notebook emitted for `cells`.
pub open spec fn emitted_notebook(v: JsonValue, cells: Seq<ParsedCell<Seq<char>>>) -> bool {
    &&& has_keys(v, seq!["cells"@, "metadata"@, "nbformat"@, "nbformat_minor"@])
    &&& entry(v, 0) is Array
    &&& entry(v, 0)->Array_0@.len() == cells.len()
    &&& forall|i: int|
        0 <= i < cells.len() ==> emitted_cell(#[trigger] entry(v, 0)->Array_0@[i], i as nat, cells[i])
    &&& has_keys(entry(v, 1), seq!["colab"@, "kernelspec"@, "language_info"@])
    &&& has_keys(entry(entry(v, 1), 0), seq!["provenance"@])
    &&& is_empty_array(entry(entry(entry(v, 1), 0), 0))
    &&& has_keys(entry(entry(v, 1), 1), seq!["display_name"@, "language"@, "name"@])
    &&& is_string(entry(entry(entry(v, 1), 1), 0), "Python 3"@)
    &&& is_string(entry(entry(entry(v, 1), 1), 1), "python"@)
    &&& is_string(entry(entry(entry(v, 1), 1), 2), "python3"@)
    &&& has_keys(entry(entry(v, 1), 2), seq!["name"@])
    &&& is_string(entry(entry(entry(v, 1), 2), 0), "python"@)
    &&& is_integer(entry(v, 2), 4)
    &&& is_integer(entry(v, 3), 5)
}

/// A JSON string value holding `s`.
fn json_str(s: &str) -> (v: JsonValue)
    ensures
        is_string(v, s@),
{
    JsonValue::String(s.to_owned())
}

/// The nbformat `source` array of `text`: its lines, each keeping its
/// newline; empty text gives an empty array.
pub fn text_to_source_lines(text: &str) -> (r: Vec<JsonValue>)
    ensures
        strings_are(r@, split_inclusive(text@, '\n')),
{
    let chars = chars_of(text);
    let lines = split_inclusive_chars(chars.as_slice(), '\n');
    let ghost ls = seqs_of(lines@);
    let mut out: Vec<JsonValue> = Vec::new();
    let mut i: usize = 0;
    while i < lines.len()
        invariant
            i <= lines@.len(),
            ls == seqs_of(lines@),
            strings_are(out@, ls.take(i as int)),
        decreases lines.len() - i,
    {
        let v = JsonValue::String(string_of(&lines[i]));
        out.push(v);
        i += 1;
        assert forall|k: int| 0 <= k < out@.len() implies is_string(
            #[trigger] out@[k],
            ls.take(i as int)[k],
        ) by {
            if k < out@.len() - 1 {
                assert(ls.take(i as int)[k] == ls.take(i - 1)[k]);
            }
        }
    }
    assert(ls.take(i as int) =~= ls);
    out
}

/// `prefix` followed by `index` zero-padded to three digits.
fn cell_id(prefix: &str, index: usize) -> (r: String)
    ensures
        r@ == prefix@ + padded3(index as nat),
{
    let mut v = chars_of(prefix);
    let ghost v0 = v@;
    if index < 10 {
        v.push('0');
        v.push('0');
    } else if index < 100 {
        v.push('0');
    }
    push_decimal(&mut v, index as u64);
    assert(v@ =~= v0 + padded3(index as nat));
    string_of(&v)
}

/// The nbformat cell of `cell` at position `index`.
fn emit_cell(index: usize, cell: &ParsedCell<String>) -> (r: JsonValue)
    ensures
        emitted_cell(r, index as nat, cell@),
{
    match cell {
        ParsedCell::Markdown { text } => {
            let id = cell_id("cell-md-", index);
            let source = text_to_source_lines(text.as_str());
            let entries = vec![
                ("cell_type".to_owned(), json_str("markdown")),
                ("id".to_owned(), JsonValue::String(id)),
                ("metadata".to_owned(), JsonValue::Object(Vec::new())),
                ("source".to_owned(), JsonValue::Array(source)),
            ];
            let v = JsonValue::Object(entries);
            assert(has_keys(v, seq!["cell_type"@, "id"@, "metadata"@, "source"@]));
            v
        },
        ParsedCell::Code { lang, source } => {
            let id = cell_id("cell-code-", index);
            let src = text_to_source_lines(source.as_str());
            let meta = vec![("source_language".to_owned(), JsonValue::String(lang.clone()))];
            let entries = vec![
                ("cell_type".to_owned(), json_str("code")),
                ("execution_count".to_owned(), JsonValue::Null),
                ("id".to_owned(), JsonValue::String(id)),
                ("metadata".to_owned(), JsonValue::Object(meta)),
                ("outputs".to_owned(), JsonValue::Array(Vec::new())),
                ("source".to_owned(), JsonValue::Array(src)),
            ];
            let v = JsonValue::Object(entries);
            assert(has_keys(
                v,
                seq!["cell_type"@, "execution_count"@, "id"@, "metadata"@, "outputs"@, "source"@],
            ));
            assert(has_keys(entry(v, 3), seq!["source_language"@]));
            v
        },
    }
}

/// The nbformat 4.5 notebook of the cells.
pub fn emit_notebook(cells: &[ParsedCell<String>]) -> (r: JsonValue)
    ensures
        emitted_notebook(r, cells_view(cells@)),
{
    let mut emitted: Vec<JsonValue> = Vec::new();
    let mut i: usize = 0;
    while i < cells.len()
        invariant
            i <= cells@.len(),
            emitted@.len() == i,
            forall|k: int|
                0 <= k < i ==> emitted_cell(#[trigger] emitted@[k], k as nat, cells@[k]@),
        decreases cells.len() - i,
    {
        let c = emit_cell(i, &cells[i]);
        emitted.push(c);
        i += 1;
    }
    let kernelspec = vec![
        ("display_name".to_owned(), json_str("Python 3")),
        ("language".to_owned(), json_str("python")),
        ("name".to_owned(), json_str("python3")),
    ];
    let language_info = vec![("name".to_owned(), json_str("python"))];
    let colab = vec![("provenance".to_owned(), JsonValue::Array(Vec::new()))];
    let metadata = vec![
        ("colab".to_owned(), JsonValue::Object(colab)),
        ("kernelspec".to_owned(), JsonValue::Object(kernelspec)),
        ("language_info".to_owned(), JsonValue::Object(language_info)),
    ];
    let root = vec![
        ("cells".to_owned(), JsonValue::Array(emitted)),
        ("metadata".to_owned(), JsonValue::Object(metadata)),
        ("nbformat".to_owned(), JsonValue::Number(JsonNumber::PosInt(4))),
        ("nbformat_minor".to_owned(), JsonValue::Number(JsonNumber::PosInt(5))),
    ];
    let v = JsonValue::Object(root);
    assert(has_keys(v, seq!["cells"@, "metadata"@, "nbformat"@, "nbformat_minor"@]));
    assert(has_keys(entry(v, 1), seq!["colab"@, "kernelspec"@, "language_info"@]));
    assert(has_keys(entry(entry(v, 1), 0), seq!["provenance"@]));
    assert(has_keys(entry(entry(v, 1), 1), seq!["display_name"@, "language"@, "name"@]));
    assert(has_keys(entry(entry(v, 1), 2), seq!["name"@]));
    v
}

/// Why a cell fails the nbformat 4.5 shape check. `S` is `String` at run
/// time and `Seq<char>` in contracts.
#[derive(Debug, Clone, PartialEq, Eq)]
pub enum CellError<S> {
    /// The cell is not an object.
    NotObject,
    /// `cell_type` is missing or not a string.
    MissingCellType,
    /// `id` is missing or not a string (required in 4.5).
    MissingId,
    /// `metadata` is missing or not an object.
    MissingMetadata,
    /// `source` is missing.
    MissingSource,
    /// Item `index` of the `source` array is not a string.
    SourceItemNotString { index: usize },
    /// `source` is neither a string nor an array.
    BadSource,
    /// A code cell has no `execution_count`.
    MissingExecutionCount,
    /// A code cell has no `outputs`.
    MissingOutputs,
    /// A code cell's `outputs` is not an array.
    OutputsNotArray,
    /// `cell_type` is not `markdown`, `code` or `raw`.
    UnknownCellType { cell_type: S },
}

impl View for CellError<String> {
    type V = CellError<Seq<char>>;

    open spec fn view(&self) -> CellError<Seq<char>> {
        match self {
            CellError::NotObject => CellError::NotObject,
            CellError::MissingCellType => CellError::MissingCellType,
            CellError::MissingId => CellError::MissingId,
            CellError::MissingMetadata => CellError::MissingMetadata,
            CellError::MissingSource => CellError::MissingSource,
            CellError::SourceItemNotString { index } => CellError::SourceItemNotString {
                index: *index,
            },
            CellError::BadSource => CellError::BadSource,
            CellError::MissingExecutionCount => CellError::MissingExecutionCount,
            CellError::MissingOutputs => CellError::MissingOutputs,
            CellError::OutputsNotArray => CellError::OutputsNotArray,
            CellError::UnknownCellType { cell_type } => CellError::UnknownCellType {
                cell_type: cell_type@,
            },
        }
    }
}

/// Why a notebook fails the nbformat 4.5 shape check.
#[derive(Debug, Clone, PartialEq, Eq)]
pub enum NotebookError<S> {
    /// The root is not an object.
    RootNotObject,
    /// `nbformat` is missing or not a non-negative integer.
    MissingNbformat,
    /// `nbformat` is not 4.
    BadNbformat { found: u64 },
    /// `nbformat_minor` is missing or not a non-negative integer.
    MissingNbformatMinor,
    /// `nbformat_minor` is below 5.
    BadNbformatMinor { found: u64 },
    /// `metadata` is missing or not an object.
    MissingMetadata,
    /// `metadata.kernelspec` is missing or not an object.
    MissingKernelspec,
    /// `metadata.language_info` is missing or not an object.
    MissingLanguageInfo,
    /// `cells` is missing or not an array.
    MissingCells,
    /// Cell `index` fails its check.
    Cell { index: usize, error: CellError<S> },
}

impl View for NotebookError<String> {
    type V = NotebookError<Seq<char>>;

    open spec fn view(&self) -> NotebookError<Seq<char>> {
        match self {
            NotebookError::RootNotObject => NotebookError::RootNotObject,
            NotebookError::MissingNbformat => NotebookError::MissingNbformat,
            NotebookError::BadNbformat { found } => NotebookError::BadNbformat { found: *found },
            NotebookError::MissingNbformatMinor => NotebookError::MissingNbformatMinor,
            NotebookError::BadNbformatMinor { found } => NotebookError::BadNbformatMinor {
                found: *found,
            },
            NotebookError::MissingMetadata => NotebookError::MissingMetadata,
            NotebookError::MissingKernelspec => NotebookError::MissingKernelspec,
            NotebookError::MissingLanguageInfo => NotebookError::MissingLanguageInfo,
            NotebookError::MissingCells => NotebookError::MissingCells,
            NotebookError::Cell { index, error } => NotebookError::Cell {
                index: *index,
                error: error@,
            },
        }
    }
}

/// The first item of `items` that is not a string, if any.
pub open spec fn first_non_string(items: Seq<JsonValue>) -> Option<int>
    decreases items.len(),
{
    if items.len() == 0 {
        None
    } else if !(items[0] is String) {
        Some(0)
    } else {
        match first_non_string(items.drop_first()) {
            Some(j) => Some(j + 1),
            None => None,
        }
    }
}

/// The check of a cell's type-specific fields.
pub open spec fn cell_type_check(obj: Seq<(String, JsonValue)>, cell_type: Seq<char>) -> Result<
    (),
    CellError<Seq<char>>,
> {
    if cell_type == "markdown"@ || cell_type == "raw"@ {
        Ok(())
    } else if cell_type == "code"@ {
        if entry_lookup(obj, "execution_count"@) is None {
            Err(CellError::MissingExecutionCount)
        } else {
            match entry_lookup(obj, "outputs"@) {
                None => Err(CellError::MissingOutputs),
                Some(JsonValue::Array(_)) => Ok(()),
                Some(_) => Err(CellError::OutputsNotArray),
            }
        }
    } else {
        Err(CellError::UnknownCellType { cell_type })
    }
}

/// The nbformat 4.5 shape check of one cell.
pub open spec fn cell_check(cell: JsonValue) -> Result<(), CellError<Seq<char>>> {
    match spec_as_object(cell) {
        None => Err(CellError::NotObject),
        Some(obj) => match entry_lookup(obj, "cell_type"@) {
            Some(JsonValue::String(ct)) => {
                if !(entry_lookup(obj, "id"@) matches Some(JsonValue::String(_))) {
                    Err(CellError::MissingId)
                } else if !(entry_lookup(obj, "metadata"@) matches Some(JsonValue::Object(_))) {
                    Err(CellError::MissingMetadata)
                } else {
                    match entry_lookup(obj, "source"@) {
                        None => Err(CellError::MissingSource),
                        Some(JsonValue::Array(items)) => match first_non_string(items@) {
                            Some(j) => Err(CellError::SourceItemNotString { index: j as usize }),
                            None => cell_type_check(obj, ct@),
                        },
                        Some(JsonValue::String(_)) => cell_type_check(obj, ct@),
                        Some(_) => Err(CellError::BadSource),
                    }
                }
            },
            _ => Err(CellError::MissingCellType),
        },
    }
}

/// The check of the cells from position `i` on: the first failing cell
/// decides the error.
pub open spec fn cells_check_from(cells: Seq<JsonValue>, i: int) -> Result<
    (),
    NotebookError<Seq<char>>,
>
    decreases cells.len() - i,
{
    if i < 0 || i >= cells.len() {
        Ok(())
    } else {
        match cell_check(cells[i]) {
            Err(e) => Err(NotebookError::Cell { index: i as usize, error: e }),
            Ok(()) => cells_check_from(cells, i + 1),
        }
    }
}

/// The nbformat 4.5 shape check of a notebook.
pub open spec fn notebook_check(nb: JsonValue) -> Result<(), NotebookError<Seq<char>>> {
    match spec_as_object(nb) {
        None => Err(NotebookError::RootNotObject),
        Some(root) => match entry_lookup(root, "nbformat"@) {
            Some(JsonValue::Number(JsonNumber::PosInt(major))) => if major != 4 {
                Err(NotebookError::BadNbformat { found: major })
            } else {
                match entry_lookup(root, "nbformat_minor"@) {
                    Some(JsonValue::Number(JsonNumber::PosInt(minor))) => if minor < 5 {
                        Err(NotebookError::BadNbformatMinor { found: minor })
                    } else {
                        match entry_lookup(root, "metadata"@) {
                            Some(JsonValue::Object(meta)) => if !(entry_lookup(
                                meta@,
                                "kernelspec"@,
                            ) matches Some(JsonValue::Object(_))) {
                                Err(NotebookError::MissingKernelspec)
                            } else if !(entry_lookup(meta@, "language_info"@) matches Some(
                                JsonValue::Object(_),
                            )) {
                                Err(NotebookError::MissingLanguageInfo)
                            } else {
                                match entry_lookup(root, "cells"@) {
                                    Some(JsonValue::Array(cells)) => cells_check_from(cells@, 0),
                                    _ => Err(NotebookError::MissingCells),
                                }
                            },
                            _ => Err(NotebookError::MissingMetadata),
                        }
                    },
                    _ => Err(NotebookError::MissingNbformatMinor),
                }
            },
            _ => Err(NotebookError::MissingNbformat),
        },
    }
}

/// The check of a cell's type-specific fields.
fn check_cell_type(obj: &Vec<(String, JsonValue)>, cell_type: &str) -> (r: Result<
    (),
    CellError<String>,
>)
    ensures
        match r {
            Ok(()) => cell_type_check(obj@, cell_type@) is Ok,
            Err(e) => cell_type_check(obj@, cell_type@) == Err::<(), _>(e@),
        },
{
    if crate::json::str_eq(cell_type, "markdown") || crate::json::str_eq(cell_type, "raw") {
        Ok(())
    } else if crate::json::str_eq(cell_type, "code") {
        if obj_get(obj, "execution_count").is_none() {
            return Err(CellError::MissingExecutionCount);
        }
        match obj_get(obj, "outputs") {
            None => Err(CellError::MissingOutputs),
            Some(JsonValue::Array(_)) => Ok(()),
            Some(_) => Err(CellError::OutputsNotArray),
        }
    } else {
        Err(CellError::UnknownCellType { cell_type: cell_type.to_owned() })
    }
}

/// The nbformat 4.5 shape check of one cell.
fn validate_cell(cell: &JsonValue) -> (r: Result<(), CellError<String>>)
    ensures
        match r {
            Ok(()) => cell_check(*cell) is Ok,
            Err(e) => cell_check(*cell) == Err::<(), _>(e@),
        },
{
    let obj = match cell.as_object() {
        Some(m) => m,
        None => {
            return Err(CellError::NotObject);
        },
    };
    let cell_type = match obj_get(obj, "cell_type") {
        Some(JsonValue::String(s)) => s,
        _ => {
            return Err(CellError::MissingCellType);
        },
    };
    match obj_get(obj, "id") {
        Some(JsonValue::String(_)) => {},
        _ => {
            return Err(CellError::MissingId);
        },
    }
    match obj_get(obj, "metadata") {
        Some(JsonValue::Object(_)) => {},
        _ => {
            return Err(CellError::MissingMetadata);
        },
    }
    match obj_get(obj, "source") {
        None => {
            return Err(CellError::MissingSource);
        },
        Some(JsonValue::Array(items)) => {
            let mut j: usize = 0;
            assert(items@.skip(0) =~= items@);
            let ghost verdict = match first_non_string(items@) {
                Some(k) => Err(CellError::SourceItemNotString { index: k as usize }),
                None => cell_type_check(obj@, cell_type@),
            };
            assert(cell_check(*cell) == verdict);
            while j < items.len()
                invariant
                    j <= items@.len(),
                    cell_check(*cell) == verdict,
                    verdict == match first_non_string(items@) {
                        Some(k) => Err(CellError::SourceItemNotString { index: k as usize }),
                        None => cell_type_check(obj@, cell_type@),
                    },
                    first_non_string(items@) == match first_non_string(items@.skip(j as int)) {
                        Some(k) => Some(k + j),
                        None => None,
                    },
                decreases items.len() - j,
            {
                assert(items@.skip(j as int)[0] == items@[j as int]);
                if !matches!(items[j], JsonValue::String(_)) {
                    assert(first_non_string(items@.skip(j as int)) == Some(0int));
                    return Err(CellError::SourceItemNotString { index: j });
                }
                assert(items@.skip(j as int).drop_first() =~= items@.skip(j + 1));
                j += 1;
            }
            assert(items@.skip(j as int) =~= Seq::<JsonValue>::empty());
        },
        Some(JsonValue::String(_)) => {},
        Some(_) => {
            return Err(CellError::BadSource);
        },
    }
    check_cell_type(obj, cell_type.as_str())
}

/// Minimal nbformat 4.5 shape check of a notebook: `nbformat` 4,
/// `nbformat_minor` at least 5, `metadata` with `kernelspec` and
/// `language_info` objects, and a `cells` array whose every cell passes
/// the cell check.
pub fn validate_nbformat_v45(notebook: &JsonValue) -> (r: Result<(), NotebookError<String>>)
    ensures
        match r {
            Ok(()) => notebook_check(*notebook) is Ok,
            Err(e) => notebook_check(*notebook) == Err::<(), _>(e@),
        },
{
    let root = match notebook.as_object() {
        Some(m) => m,
        None => {
            return Err(NotebookError::RootNotObject);
        },
    };
    let major = match obj_get(root, "nbformat") {
        Some(JsonValue::Number(JsonNumber::PosInt(n))) => *n,
        _ => {
            return Err(NotebookError::MissingNbformat);
        },
    };
    if major != 4 {
        return Err(NotebookError::BadNbformat { found: major });
    }
    let minor = match obj_get(root, "nbformat_minor") {
        Some(JsonValue::Number(JsonNumber::PosInt(n))) => *n,
        _ => {
            return Err(NotebookError::MissingNbformatMinor);
        },
    };
    if minor < 5 {
        return Err(NotebookError::BadNbformatMinor { found: minor });
    }
    let meta = match obj_get(root, "metadata") {
        Some(JsonValue::Object(m)) => m,
        _ => {
            return Err(NotebookError::MissingMetadata);
        },
    };
    match obj_get(meta, "kernelspec") {
        Some(JsonValue::Object(_)) => {},
        _ => {
            return Err(NotebookError::MissingKernelspec);
        },
    }
    match obj_get(meta, "language_info") {
        Some(JsonValue::Object(_)) => {},
        _ => {
            return Err(NotebookError::MissingLanguageInfo);
        },
    }
    let cells = match obj_get(root, "cells") {
        Some(JsonValue::Array(a)) => a,
        _ => {
            return Err(NotebookError::MissingCells);
        },
    };
    let mut i: usize = 0;
    assert(notebook_check(*notebook) == cells_check_from(cells@, 0));
    while i < cells.len()
        invariant
            i <= cells@.len(),
            notebook_check(*notebook) == cells_check_from(cells@, 0),
            cells_check_from(cells@, 0) == cells_check_from(cells@, i as int),
        decreases cells.len() - i,
    {
        match validate_cell(&cells[i]) {
            Ok(()) => {},
            Err(e) => {
                assert(cells_check_from(cells@, i as int) == Err::<(), _>(
                    NotebookError::Cell { index: i, error: e@ },
                ));
                return Err(NotebookError::Cell { index: i, error: e });
            },
        }
        i += 1;
    }
    Ok(())
}

proof fn lemma_strings_have_no_non_string(vs: Seq<JsonValue>, ss: Seq<Seq<char>>)
    requires
        strings_are(vs, ss),
    ensures
        first_non_string(vs) is None,
    decreases vs.len(),
{
    if vs.len() > 0 {
        assert(is_string(vs[0], ss[0]));
        let (t, u) = (vs.drop_first(), ss.drop_first());
        assert forall|i: int| 0 <= i < t.len() implies is_string(#[trigger] t[i], u[i]) by {
            assert(is_string(vs[i + 1], ss[i + 1]));
        }
        lemma_strings_have_no_non_string(t, u);
    }
}

proof fn lemma_emitted_cell_is_valid(v: JsonValue, index: nat, cell: ParsedCell<Seq<char>>)
    requires
        emitted_cell(v, index, cell),
    ensures
        cell_check(v) is Ok,
{
    reveal_strlit("cell_type");
    reveal_strlit("execution_count");
    reveal_strlit("id");
    reveal_strlit("metadata");
    reveal_strlit("outputs");
    reveal_strlit("source");
    reveal_strlit("markdown");
    reveal_strlit("code");
    reveal_strlit("raw");
    assert("cell_type"@.len() == 9 && "id"@.len() == 2 && "metadata"@.len() == 8);
    assert("source"@.len() == 6 && "outputs"@.len() == 7 && "execution_count"@.len() == 15);
    assert("source"@[0] != "outputs"@[0]);
    let e = v->Object_0@;
    match cell {
        ParsedCell::Markdown { text } => {
            assert(entry_lookup(e, "cell_type"@) == Some(e[0].1));
            assert(entry_lookup(e.drop_first(), "id"@) == Some(e[1].1));
            assert(entry_lookup(e, "id"@) == Some(e[1].1));
            assert(entry_lookup(e.drop_first().drop_first(), "metadata"@) == Some(e[2].1));
            assert(entry_lookup(e, "metadata"@) == Some(e[2].1));
            let e3 = e.drop_first().drop_first().drop_first();
            assert(entry_lookup(e3, "source"@) == Some(e[3].1));
            assert(entry_lookup(e.drop_first().drop_first(), "source"@) == Some(e[3].1));
            assert(entry_lookup(e.drop_first(), "source"@) == Some(e[3].1));
            assert(entry_lookup(e, "source"@) == Some(e[3].1));
            lemma_strings_have_no_non_string(e[3].1->Array_0@, split_inclusive(text, '\n'));
        },
        ParsedCell::Code { lang, source } => {
            let e1 = e.drop_first();
            let e2 = e1.drop_first();
            let e3 = e2.drop_first();
            let e4 = e3.drop_first();
            let e5 = e4.drop_first();
            assert(entry_lookup(e, "cell_type"@) == Some(e[0].1));
            assert(entry_lookup(e2, "id"@) == Some(e[2].1));
            assert(entry_lookup(e1, "id"@) == Some(e[2].1));
            assert(entry_lookup(e, "id"@) == Some(e[2].1));
            assert(entry_lookup(e3, "metadata"@) == Some(e[3].1));
            assert(entry_lookup(e2, "metadata"@) == Some(e[3].1));
            assert(entry_lookup(e1, "metadata"@) == Some(e[3].1));
            assert(entry_lookup(e, "metadata"@) == Some(e[3].1));
            assert(entry_lookup(e5, "source"@) == Some(e[5].1));
            assert(entry_lookup(e4, "source"@) == Some(e[5].1));
            assert(entry_lookup(e3, "source"@) == Some(e[5].1));
            assert(entry_lookup(e2, "source"@) == Some(e[5].1));
            assert(entry_lookup(e1, "source"@) == Some(e[5].1));
            assert(entry_lookup(e, "source"@) == Some(e[5].1));
            assert(entry_lookup(e1, "execution_count"@) == Some(e[1].1));
            assert(entry_lookup(e, "execution_count"@) == Some(e[1].1));
            assert(entry_lookup(e4, "outputs"@) == Some(e[4].1));
            assert(entry_lookup(e3, "outputs"@) == Some(e[4].1));
            assert(entry_lookup(e2, "outputs"@) == Some(e[4].1));
            assert(entry_lookup(e1, "outputs"@) == Some(e[4].1));
            assert(entry_lookup(e, "outputs"@) == Some(e[4].1));
            lemma_strings_have_no_non_string(e[5].1->Array_0@, split_inclusive(source, '\n'));
        },
    }
}

proof fn lemma_emitted_cells_are_valid(
    cells: Seq<JsonValue>,
    parsed: Seq<ParsedCell<Seq<char>>>,
    i: int,
)
    requires
        0 <= i <= cells.len(),
        cells.len() == parsed.len(),
        forall|k: int| 0 <= k < cells.len() ==> emitted_cell(#[trigger] cells[k], k as nat, parsed[k]),
    ensures
        cells_check_from(cells, i) is Ok,
    decreases cells.len() - i,
{
    if i < cells.len() {
        lemma_emitted_cell_is_valid(cells[i], i as nat, parsed[i]);
        lemma_emitted_cells_are_valid(cells, parsed, i + 1);
    }
}

/// Every notebook [`emit_notebook`] produces passes
/// [`validate_nbformat_v45`].
pub proof fn lemma_emitted_notebook_is_valid(v: JsonValue, cells: Seq<ParsedCell<Seq<char>>>)
    requires
        emitted_notebook(v, cells),
    ensures
        notebook_check(v) is Ok,
{
    reveal_strlit("cells");
    reveal_strlit("metadata");
    reveal_strlit("nbformat");
    reveal_strlit("nbformat_minor");
    reveal_strlit("colab");
    reveal_strlit("kernelspec");
    reveal_strlit("language_info");
    assert("cells"@.len() == 5 && "metadata"@.len() == 8 && "nbformat"@.len() == 8);
    assert("nbformat_minor"@.len() == 14 && "metadata"@[0] != "nbformat"@[0]);
    assert("colab"@.len() == 5 && "kernelspec"@.len() == 10 && "language_info"@.len() == 13);
    let e = v->Object_0@;
    let e1 = e.drop_first();
    let e2 = e1.drop_first();
    let e3 = e2.drop_first();
    assert(entry_lookup(e, "cells"@) == Some(e[0].1));
    assert(entry_lookup(e1, "metadata"@) == Some(e[1].1));
    assert(entry_lookup(e, "metadata"@) == Some(e[1].1));
    assert(entry_lookup(e2, "nbformat"@) == Some(e[2].1));
    assert(entry_lookup(e1, "nbformat"@) == Some(e[2].1));
    assert(entry_lookup(e, "nbformat"@) == Some(e[2].1));
    assert(entry_lookup(e3, "nbformat_minor"@) == Some(e[3].1));
    assert(entry_lookup(e2, "nbformat_minor"@) == Some(e[3].1));
    assert(entry_lookup(e1, "nbformat_minor"@) == Some(e[3].1));
    assert(entry_lookup(e, "nbformat_minor"@) == Some(e[3].1));
    let m = e[1].1->Object_0@;
    let m1 = m.drop_first();
    let m2 = m1.drop_first();
    assert(entry_lookup(m1, "kernelspec"@) == Some(m[1].1));
    assert(entry_lookup(m, "kernelspec"@) == Some(m[1].1));
    assert(entry_lookup(m2, "language_info"@) == Some(m[2].1));
    assert(entry_lookup(m1, "language_info"@) == Some(m[2].1));
    assert(entry_lookup(m, "language_info"@) == Some(m[2].1));
    lemma_emitted_cells_are_valid(e[0].1->Array_0@, cells, 0);
}

/// A parsed cell's text is tidy: markdown is non-blank with no leading
/// or trailing newline; code has a language and no trailing newline.
pub open spec fn tidy_cell(c: ParsedCell<Seq<char>>) -> bool {
    match c {
        ParsedCell::Markdown { text } => {
            &&& trim(text).len() > 0
            &&& text[0] != '\n'
            &&& text.last() != '\n'
        },
        ParsedCell::Code { lang, source } => {
            &&& lang.len() > 0
            &&& (source.len() == 0 || source.last() != '\n')
        },
    }
}

proof fn lemma_trim_end_char(s: Seq<char>, c: char)
    ensures
        trim_end_char(s, c).len() <= s.len(),
        trim_end_char(s, c) == s.take(trim_end_char(s, c).len() as int),
        trim_end_char(s, c).len() == 0 || trim_end_char(s, c).last() != c,
    decreases s.len(),
{
    if s.len() > 0 && s.last() == c {
        lemma_trim_end_char(s.drop_last(), c);
        let t = trim_end_char(s.drop_last(), c);
        assert(s.drop_last().take(t.len() as int) =~= s.take(t.len() as int));
    } else {
        assert(s.take(s.len() as int) =~= s);
    }
}

proof fn lemma_trim_start_char(s: Seq<char>, c: char)
    ensures
        trim_start_char(s, c).len() == 0 || trim_start_char(s, c)[0] != c,
    decreases s.len(),
{
    if s.len() > 0 && s[0] == c {
        lemma_trim_start_char(s.drop_first(), c);
    }
}

proof fn lemma_flushed_is_tidy(buf: Seq<char>)
    ensures
        flushed(buf) matches Some(cell) ==> tidy_cell(cell),
{
    let a = trim_start_char(buf, '\n');
    let t = trim_end_char(a, '\n');
    lemma_trim_start_char(buf, '\n');
    lemma_trim_end_char(a, '\n');
    if trim(t).len() > 0 {
        if t.len() == 0 {
            assert(trim(t).len() == 0);
        }
        assert(t[0] == a[0]);
    }
}

proof fn lemma_with_flushed_tidy(cells: Seq<ParsedCell<Seq<char>>>, buf: Seq<char>)
    requires
        forall|i: int| 0 <= i < cells.len() ==> tidy_cell(#[trigger] cells[i]),
    ensures
        forall|i: int|
            0 <= i < with_flushed(cells, buf).len() ==> tidy_cell(#[trigger] with_flushed(cells, buf)[i]),
{
    lemma_flushed_is_tidy(buf);
}

proof fn lemma_states_are_tidy(lines: Seq<Seq<char>>)
    ensures
        forall|i: int|
            0 <= i < state_after(lines).cells.len() ==> tidy_cell(
                #[trigger] state_after(lines).cells[i],
            ),
        state_after(lines).fence matches Some(f) ==> f.lang.len() > 0,
    decreases lines.len(),
{
    if lines.len() > 0 {
        let st = state_after(lines.drop_last());
        lemma_states_are_tidy(lines.drop_last());
        lemma_with_flushed_tidy(st.cells, st.md_buf);
        let raw = lines.last();
        let kind = line_kind(trim_end_char(raw, '\n'));
        let next = state_after(lines);
        match st.fence {
            Some(f) => {
                if kind is FenceClose && f.inside_cell {
                    let body = f.body;
                    lemma_trim_end_char(body, '\n');
                    assert forall|i: int| 0 <= i < next.cells.len() implies tidy_cell(
                        #[trigger] next.cells[i],
                    ) by {
                        if i < st.cells.len() {
                            assert(next.cells[i] == st.cells[i]);
                        }
                    }
                }
            },
            None => {},
        }
    }
}

/// Every cell of a parsed plan is tidy: markdown cells are non-blank and
/// carry no leading or trailing newline; code cells have a language and
/// no trailing newline.
pub proof fn lemma_parsed_cells_are_tidy(md: Seq<char>)
    requires
        parsed_markdown(md) is Ok,
    ensures
        forall|i: int|
            0 <= i < parsed_markdown(md)->Ok_0.len() ==> tidy_cell(
                #[trigger] parsed_markdown(md)->Ok_0[i],
            ),
{
    let st = state_after(split_inclusive(md, '\n'));
    lemma_states_are_tidy(split_inclusive(md, '\n'));
    lemma_with_flushed_tidy(st.cells, st.md_buf);
}

/// `x` occurs in `s` as a contiguous run.
pub open spec fn is_infix(x: Seq<char>, s: Seq<char>) -> bool {
    exists|i: int| 0 <= i && i + x.len() <= s.len() && #[trigger] s.subrange(i, i + x.len()) == x
}

/// Whether a code fence is open after `lines`: a fence line opens one when
/// none is open, a bare fence line closes an open one, and every line
/// inside an open fence is its content.
pub open spec fn fence_open_after(lines: Seq<Seq<char>>) -> bool
    decreases lines.len(),
{
    if lines.len() == 0 {
        false
    } else {
        let kind = line_kind(trim_end_char(lines.last(), '\n'));
        if fence_open_after(lines.drop_last()) {
            !(kind is FenceClose)
        } else {
            kind is FenceOpen
        }
    }
}

/// A line of plain text with something other than whitespace on it.
pub open spec fn is_prose_line(raw: Seq<char>) -> bool {
    let t = trim_end_char(raw, '\n');
    &&& line_kind(t) is Other
    &&& exists|k: int| 0 <= k < t.len() && !is_ws(#[trigger] t[k])
}

/// Some markdown cell of `cells` contains `x`.
pub open spec fn in_markdown_cell(x: Seq<char>, cells: Seq<ParsedCell<Seq<char>>>) -> bool {
    exists|j: int|
        0 <= j < cells.len() && (#[trigger] cells[j] matches ParsedCell::Markdown { text } && is_infix(
            x,
            text,
        ))
}

proof fn lemma_trim_end_char_prefix(s: Seq<char>, c: char)
    ensures
        trim_end_char(s, c).len() <= s.len(),
        trim_end_char(s, c) == s.take(trim_end_char(s, c).len() as int),
        forall|k: int|
            trim_end_char(s, c).len() <= k < s.len() ==> #[trigger] s[k] == c,
    decreases s.len(),
{
    if s.len() > 0 && s.last() == c {
        lemma_trim_end_char_prefix(s.drop_last(), c);
        assert(s.drop_last().take(trim_end_char(s, c).len() as int) =~= s.take(
            trim_end_char(s, c).len() as int,
        ));
        assert forall|k: int| trim_end_char(s, c).len() <= k < s.len() implies #[trigger] s[k] == c by {
            if k < s.len() - 1 {
                assert(s.drop_last()[k] == s[k]);
            }
        }
    } else {
        assert(s.take(s.len() as int) =~= s);
    }
}

proof fn lemma_trim_start_char_suffix(s: Seq<char>, c: char)
    ensures
        trim_start_char(s, c).len() <= s.len(),
        trim_start_char(s, c) == s.skip(s.len() - trim_start_char(s, c).len()),
        forall|k: int| 0 <= k < s.len() - trim_start_char(s, c).len() ==> #[trigger] s[k] == c,
    decreases s.len(),
{
    if s.len() > 0 && s[0] == c {
        lemma_trim_start_char_suffix(s.drop_first(), c);
        let r = trim_start_char(s, c);
        assert(s.drop_first().skip(s.len() - 1 - r.len()) =~= s.skip(s.len() - r.len()));
        assert forall|k: int| 0 <= k < s.len() - r.len() implies #[trigger] s[k] == c by {
            if k > 0 {
                assert(s[k] == s.drop_first()[k - 1]);
            }
        }
    } else {
        assert(s.skip(0) =~= s);
    }
}

proof fn lemma_trim_end_prefix(s: Seq<char>)
    ensures
        crate::text::trim_end(s).len() <= s.len(),
        crate::text::trim_end(s) == s.take(crate::text::trim_end(s).len() as int),
        crate::text::trim_end(s).len() > 0 ==> !is_ws(crate::text::trim_end(s).last()),
        forall|k: int| 0 <= k < s.len() && !is_ws(#[trigger] s[k]) ==> k < crate::text::trim_end(
            s,
        ).len(),
    decreases s.len(),
{
    if s.len() > 0 && is_ws(s.last()) {
        lemma_trim_end_prefix(s.drop_last());
        let r = crate::text::trim_end(s);
        assert(s.drop_last().take(r.len() as int) =~= s.take(r.len() as int));
        assert forall|k: int| 0 <= k < s.len() && !is_ws(#[trigger] s[k]) implies k < r.len() by {
            assert(k < s.len() - 1);
            assert(s.drop_last()[k] == s[k]);
        }
    } else {
        assert(s.take(s.len() as int) =~= s);
    }
}

proof fn lemma_trim_start_suffix(s: Seq<char>)
    ensures
        trim_start(s).len() <= s.len(),
        trim_start(s) == s.skip(s.len() - trim_start(s).len()),
        trim_start(s).len() > 0 ==> !is_ws(trim_start(s)[0]),
        forall|k: int| 0 <= k < s.len() && !is_ws(#[trigger] s[k]) ==> s.len() - trim_start(s).len()
            <= k,
    decreases s.len(),
{
    if s.len() > 0 && is_ws(s[0]) {
        lemma_trim_start_suffix(s.drop_first());
        let r = trim_start(s);
        assert(s.drop_first().skip(s.len() - 1 - r.len()) =~= s.skip(s.len() - r.len()));
        assert forall|k: int| 0 <= k < s.len() && !is_ws(#[trigger] s[k]) implies s.len() - r.len()
            <= k by {
            assert(k > 0);
            assert(s.drop_first()[k - 1] == s[k]);
        }
    } else {
        assert(s.skip(0) =~= s);
    }
}

/// The trimmed text of a string with a non-blank character: non-empty,
/// a run of the string, starting and ending with a non-blank character.
proof fn lemma_trim_core(s: Seq<char>, k: int)
    requires
        0 <= k < s.len(),
        !is_ws(s[k]),
    ensures
        trim(s).len() > 0,
        !is_ws(trim(s)[0]),
        !is_ws(trim(s).last()),
        is_infix(trim(s), s),
{
    let u = crate::text::trim_end(s);
    lemma_trim_end_prefix(s);
    assert(k < u.len());
    assert(u[k] == s[k]);
    lemma_trim_start_suffix(u);
    let r = trim(s);
    let a = u.len() - r.len();
    assert(a <= k);
    assert(r.len() > 0);
    assert(r.last() == u.last());
    assert(s.subrange(a, a + r.len()) =~= r);
}

proof fn lemma_infix_trans(x: Seq<char>, y: Seq<char>, z: Seq<char>)
    requires
        is_infix(x, y),
        is_infix(y, z),
    ensures
        is_infix(x, z),
{
    let i = choose|i: int| 0 <= i && i + x.len() <= y.len() && #[trigger] y.subrange(i, i + x.len()) == x;
    let j = choose|j: int| 0 <= j && j + y.len() <= z.len() && #[trigger] z.subrange(j, j + y.len()) == y;
    assert(z.subrange(j + i, j + i + x.len()) =~= x);
}

proof fn lemma_infix_extend(x: Seq<char>, s: Seq<char>, t: Seq<char>)
    requires
        is_infix(x, s),
    ensures
        is_infix(x, s + t),
{
    let i = choose|i: int| 0 <= i && i + x.len() <= s.len() && #[trigger] s.subrange(i, i + x.len()) == x;
    assert((s + t).subrange(i, i + x.len()) =~= x);
}

/// Flushing a buffer that holds a run with non-blank ends yields a
/// markdown cell holding that run.
proof fn lemma_flush_keeps(x: Seq<char>, buf: Seq<char>)
    requires
        is_infix(x, buf),
        x.len() > 0,
        !is_ws(x[0]),
        !is_ws(x.last()),
    ensures
        flushed(buf) matches Some(ParsedCell::Markdown { text }) && is_infix(x, text),
{
    let i = choose|i: int| 0 <= i && i + x.len() <= buf.len() && #[trigger] buf.subrange(i, i + x.len()) == x;
    let b1 = trim_start_char(buf, '\n');
    lemma_trim_start_char_suffix(buf, '\n');
    let a = buf.len() - b1.len();
    assert(buf[i] == x[0]);
    assert(is_ws('\n'));
    assert(a <= i);
    let t = trim_end_char(b1, '\n');
    lemma_trim_end_char_prefix(b1, '\n');
    let e = i - a + x.len();
    assert(b1[e - 1] == buf[i + x.len() - 1]);
    assert(buf[i + x.len() - 1] == x.last());
    assert(e <= t.len());
    assert(t.subrange(i - a, e) =~= x);
    assert(is_infix(x, t));
    assert(t[i - a] == x[0]);
    lemma_trim_core(t, i - a);
}

proof fn lemma_with_flushed_keeps(x: Seq<char>, cells: Seq<ParsedCell<Seq<char>>>, buf: Seq<char>)
    requires
        in_markdown_cell(x, cells) || (is_infix(x, buf) && x.len() > 0 && !is_ws(x[0]) && !is_ws(
            x.last(),
        )),
    ensures
        in_markdown_cell(x, with_flushed(cells, buf)),
{
    let w = with_flushed(cells, buf);
    if in_markdown_cell(x, cells) {
        let j = choose|j: int|
            0 <= j < cells.len() && (#[trigger] cells[j] matches ParsedCell::Markdown { text }
                && is_infix(x, text));
        assert(w[j] == cells[j]);
    } else {
        lemma_flush_keeps(x, buf);
        assert(w[cells.len() as int] == flushed(buf)->Some_0);
    }
}

proof fn lemma_push_keeps(x: Seq<char>, cells: Seq<ParsedCell<Seq<char>>>, c: ParsedCell<Seq<char>>)
    requires
        in_markdown_cell(x, cells),
    ensures
        in_markdown_cell(x, cells.push(c)),
{
    let j = choose|j: int|
        0 <= j < cells.len() && (#[trigger] cells[j] matches ParsedCell::Markdown { text }
            && is_infix(x, text));
    assert(cells.push(c)[j] == cells[j]);
}

/// The content of line `i`: its text without line ending, trimmed.
pub open spec fn line_core(lines: Seq<Seq<char>>, i: int) -> Seq<char> {
    trim(trim_end_char(lines[i], '\n'))
}

/// After the first `n` lines, every prose line read outside a fence is in
/// the buffer or in a markdown cell.
proof fn lemma_prose_kept_upto(lines: Seq<Seq<char>>, n: int)
    requires
        0 <= n <= lines.len(),
    ensures
        (state_after(lines.take(n)).fence is None) == !fence_open_after(lines.take(n)),
        forall|i: int|
            0 <= i < n && !fence_open_after(lines.take(i)) && is_prose_line(#[trigger] lines[i])
                ==> is_infix(line_core(lines, i), state_after(lines.take(n)).md_buf)
                || in_markdown_cell(line_core(lines, i), state_after(lines.take(n)).cells),
    decreases n,
{
    if n > 0 {
        lemma_prose_kept_upto(lines, n - 1);
        let pre = lines.take(n - 1);
        let cur = lines.take(n);
        assert(cur.drop_last() =~= pre);
        assert(cur.last() == lines[n - 1]);
        let st = state_after(pre);
        let st2 = state_after(cur);
        let raw = lines[n - 1];
        assert(st2 == next_state(st, raw));
        let t = trim_end_char(raw, '\n');
        let kind = line_kind(t);
        assert forall|i: int|
            0 <= i < n && !fence_open_after(lines.take(i)) && is_prose_line(#[trigger] lines[i])
                implies is_infix(line_core(lines, i), st2.md_buf) || in_markdown_cell(
            line_core(lines, i),
            st2.cells,
        ) by {
            let x = line_core(lines, i);
            let ti = trim_end_char(lines[i], '\n');
            let k = choose|k: int| 0 <= k < ti.len() && !is_ws(#[trigger] ti[k]);
            lemma_trim_core(ti, k);
            if i < n - 1 {
                if in_markdown_cell(x, st.cells) {
                    if st2.cells != st.cells {
                        if st.fence is Some {
                            lemma_push_keeps(x, st.cells, st2.cells.last());
                            assert(st2.cells =~= st.cells.push(st2.cells.last()));
                        } else {
                            lemma_with_flushed_keeps(x, st.cells, st.md_buf);
                        }
                    }
                } else {
                    assert(is_infix(x, st.md_buf));
                    match st.fence {
                        Some(f) => {
                            if kind is FenceClose && !f.inside_cell {
                                lemma_infix_extend(x, st.md_buf, f.opening + f.body + raw);
                                assert(st.md_buf + f.opening + f.body + raw =~= st.md_buf + (
                                f.opening + f.body + raw));
                            }
                        },
                        None => {
                            if kind is CellHeader || (kind is FenceOpen && st.in_cell) {
                                lemma_with_flushed_keeps(x, st.cells, st.md_buf);
                            } else if !(kind is FenceOpen) {
                                lemma_infix_extend(x, st.md_buf, raw);
                            }
                        },
                    }
                }
            } else {
                assert(i == n - 1);
                assert(lines.take(i) == pre);
                assert(st.fence is None);
                assert(kind is Other);
                assert(st2.md_buf == st.md_buf + raw);
                lemma_trim_end_char_prefix(raw, '\n');
                assert(raw.subrange(0int, 0int + t.len()) =~= t);
                assert(is_infix(t, raw));
                lemma_infix_trans(x, t, raw);
                let j = choose|j: int| 0 <= j && j + x.len() <= raw.len() && #[trigger] raw.subrange(j, j + x.len()) == x;
                assert((st.md_buf + raw).subrange(st.md_buf.len() + j, st.md_buf.len() + j + x.len()) =~= x);
            }
        }
    } else {
        assert(lines.take(0) =~= Seq::<Seq<char>>::empty());
    }
}

/// Parsing keeps all prose: the content of every non-blank plain-text line
/// of a plan that lies outside any code fence (and is not a `## Cell`
/// heading or a fence line) appears in some markdown cell of the result.
pub proof fn lemma_prose_is_kept(md: Seq<char>, i: int)
    requires
        parsed_markdown(md) is Ok,
        0 <= i < split_inclusive(md, '\n').len(),
        !fence_open_after(split_inclusive(md, '\n').take(i)),
        is_prose_line(split_inclusive(md, '\n')[i]),
    ensures
        in_markdown_cell(line_core(split_inclusive(md, '\n'), i), parsed_markdown(md)->Ok_0),
{
    let lines = split_inclusive(md, '\n');
    lemma_prose_kept_upto(lines, lines.len() as int);
    assert(lines.take(lines.len() as int) =~= lines);
    let st = state_after(lines);
    let x = line_core(lines, i);
    let ti = trim_end_char(lines[i], '\n');
    let k = choose|k: int| 0 <= k < ti.len() && !is_ws(#[trigger] ti[k]);
    lemma_trim_core(ti, k);
    lemma_with_flushed_keeps(x, st.cells, st.md_buf);
}

impl MarkdownError {
    /// The message shown to the user.
    pub open spec fn message_text(self) -> Seq<char> {
        match self {
            MarkdownError::UnclosedFence => "unclosed code fence at end of file"@,
        }
    }

    /// The message shown to the user.
    pub fn message(&self) -> (r: String)
        ensures
            r@ == self.message_text(),
    {
        let mut v: Vec<char> = Vec::new();
        match self {
            MarkdownError::UnclosedFence => {
                crate::text::push_text(&mut v, "unclosed code fence at end of file");
                proof {
                    assert(v@ =~= self.message_text());
                }
            },
        }
        crate::text::string_of(&v)
    }
}

impl CellError<Seq<char>> {
    /// The message shown to the user.
    pub open spec fn message_text(self) -> Seq<char> {
        match self {
            CellError::NotObject => "cell is not an object"@,
            CellError::MissingCellType => "cell missing 'cell_type'"@,
            CellError::MissingId => "cell missing 'id' (required in v4.5)"@,
            CellError::MissingMetadata => "cell missing 'metadata' object"@,
            CellError::MissingSource => "cell missing 'source'"@,
            CellError::SourceItemNotString { index } => "cell source["@ + crate::text::decimal(index as nat) + "] is not a string"@,
            CellError::BadSource => "cell 'source' must be a string or array of strings"@,
            CellError::MissingExecutionCount => "code cell missing 'execution_count'"@,
            CellError::MissingOutputs => "code cell missing 'outputs'"@,
            CellError::OutputsNotArray => "code cell 'outputs' must be an array"@,
            CellError::UnknownCellType { cell_type } => "unknown cell_type "@ + crate::text::debug_quoted(cell_type),
        }
    }
}

impl CellError<String> {
    /// The message shown to the user.
    pub fn message(&self) -> (r: String)
        ensures
            r@ == self@.message_text(),
    {
        let mut v: Vec<char> = Vec::new();
        match self {
            CellError::NotObject => {
                crate::text::push_text(&mut v, "cell is not an object");
                proof {
                    assert(v@ =~= self@.message_text());
                }
            },
            CellError::MissingCellType => {
                crate::text::push_text(&mut v, "cell missing 'cell_type'");
                proof {
                    assert(v@ =~= self@.message_text());
                }
            },
            CellError::MissingId => {
                crate::text::push_text(&mut v, "cell missing 'id' (required in v4.5)");
                proof {
                    assert(v@ =~= self@.message_text());
                }
            },
            CellError::MissingMetadata => {
                crate::text::push_text(&mut v, "cell missing 'metadata' object");
                proof {
                    assert(v@ =~= self@.message_text());
                }
            },
            CellError::MissingSource => {
                crate::text::push_text(&mut v, "cell missing 'source'");
                proof {
                    assert(v@ =~= self@.message_text());
                }
            },
            CellError::SourceItemNotString { index } => {
                crate::text::push_text(&mut v, "cell source[");
                crate::text::push_decimal(&mut v, *index as u64);
                crate::text::push_text(&mut v, "] is not a string");
                proof {
                    assert(v@ =~= self@.message_text());
                }
            },
            CellError::BadSource => {
                crate::text::push_text(&mut v, "cell 'source' must be a string or array of strings");
                proof {
                    assert(v@ =~= self@.message_text());
                }
            },
            CellError::MissingExecutionCount => {
                crate::text::push_text(&mut v, "code cell missing 'execution_count'");
                proof {
                    assert(v@ =~= self@.message_text());
                }
            },
            CellError::MissingOutputs => {
                crate::text::push_text(&mut v, "code cell missing 'outputs'");
                proof {
                    assert(v@ =~= self@.message_text());
                }
            },
            CellError::OutputsNotArray => {
                crate::text::push_text(&mut v, "code cell 'outputs' must be an array");
                proof {
                    assert(v@ =~= self@.message_text());
                }
            },
            CellError::UnknownCellType { cell_type } => {
                crate::text::push_text(&mut v, "unknown cell_type ");
                crate::text::push_debug(&mut v, cell_type.as_str());
                proof {
                    assert(v@ =~= self@.message_text());
                }
            },
        }
        crate::text::string_of(&v)
    }
}

impl NotebookError<Seq<char>> {
    /// The message shown to the user.
    pub open spec fn message_text(self) -> Seq<char> {
        match self {
            NotebookError::RootNotObject => "notebook root is not an object"@,
            NotebookError::MissingNbformat => "missing integer field 'nbformat'"@,
            NotebookError::BadNbformat { found } => "nbformat must be 4, got "@ + crate::text::decimal(found as nat),
            NotebookError::MissingNbformatMinor => "missing integer field 'nbformat_minor'"@,
            NotebookError::BadNbformatMinor { found } => "nbformat_minor must be >= 5, got "@ + crate::text::decimal(found as nat),
            NotebookError::MissingMetadata => "missing object field 'metadata'"@,
            NotebookError::MissingKernelspec => "metadata.kernelspec must be an object"@,
            NotebookError::MissingLanguageInfo => "metadata.language_info must be an object"@,
            NotebookError::MissingCells => "missing array field 'cells'"@,
            NotebookError::Cell { index, .. } => "cell "@ + crate::text::decimal(index as nat),
        }
    }
}

impl NotebookError<String> {
    /// The message shown to the user.
    pub fn message(&self) -> (r: String)
        ensures
            r@ == self@.message_text(),
    {
        let mut v: Vec<char> = Vec::new();
        match self {
            NotebookError::RootNotObject => {
                crate::text::push_text(&mut v, "notebook root is not an object");
                proof {
                    assert(v@ =~= self@.message_text());
                }
            },
            NotebookError::MissingNbformat => {
                crate::text::push_text(&mut v, "missing integer field 'nbformat'");
                proof {
                    assert(v@ =~= self@.message_text());
                }
            },
            NotebookError::BadNbformat { found } => {
                crate::text::push_text(&mut v, "nbformat must be 4, got ");
                crate::text::push_decimal(&mut v, *found as u64);
                proof {
                    assert(v@ =~= self@.message_text());
                }
            },
            NotebookError::MissingNbformatMinor => {
                crate::text::push_text(&mut v, "missing integer field 'nbformat_minor'");
                proof {
                    assert(v@ =~= self@.message_text());
                }
            },
            NotebookError::BadNbformatMinor { found } => {
                crate::text::push_text(&mut v, "nbformat_minor must be >= 5, got ");
                crate::text::push_decimal(&mut v, *found as u64);
                proof {
                    assert(v@ =~= self@.message_text());
                }
            },
            NotebookError::MissingMetadata => {
                crate::text::push_text(&mut v, "missing object field 'metadata'");
                proof {
                    assert(v@ =~= self@.message_text());
                }
            },
            NotebookError::MissingKernelspec => {
                crate::text::push_text(&mut v, "metadata.kernelspec must be an object");
                proof {
                    assert(v@ =~= self@.message_text());
                }
            },
            NotebookError::MissingLanguageInfo => {
                crate::text::push_text(&mut v, "metadata.language_info must be an object");
                proof {
                    assert(v@ =~= self@.message_text());
                }
            },
            NotebookError::MissingCells => {
                crate::text::push_text(&mut v, "missing array field 'cells'");
                proof {
                    assert(v@ =~= self@.message_text());
                }
            },
            NotebookError::Cell { index, .. } => {
                crate::text::push_text(&mut v, "cell ");
                crate::text::push_decimal(&mut v, *index as u64);
                proof {
                    assert(v@ =~= self@.message_text());
                }
            },
        }
        crate::text::string_of(&v)
    }
}

} // verus!
