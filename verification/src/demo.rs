//! Text layout for the terminal demo: section rules sized to the banner,
//! and greedy word wrapping of narration.

use vstd::prelude::*;
use crate::text::{chars_of, string_of, append_chars, is_ws, is_whitespace, join_with};

verus! {

/// Width of the banner rules, in characters.
pub const BANNER_WIDTH: usize = 67;

/// Width of a strategy bar, in cells.
pub const BAR_WIDTH: usize = 10;

/// Arguments of the `demo` command.
#[derive(Debug, Clone)]
pub struct DemoArgs {
    /// Which spot to render (`royal`, `coinflip`, `bluff_catch` or `all`).
    pub spot: String,
    /// When false, no ANSI color escapes are written.
    pub use_color: bool,
}

/// `n` copies of `c`.
pub open spec fn repeat_char(c: char, n: nat) -> Seq<char> {
    Seq::new(n, |i: int| c)
}

/// `── <label> ───…`: the label, then as many `─` as fill the banner
/// width (none when the label is too long).
pub open spec fn section_rule_text(label: Seq<char>) -> Seq<char> {
    let used = 3 + label.len() + 1;
    let tail = if used >= BANNER_WIDTH { 0 } else { (BANNER_WIDTH - used) as nat };
    seq!['─', '─', ' '] + label + seq![' '] + repeat_char('─', tail)
}

/// A section rule: `── <label> ` followed by `─` up to the banner width.
pub fn section_rule(label: &str) -> (r: String)
    ensures
        r@ == section_rule_text(label@),
{
    let l = chars_of(label);
    let mut v: Vec<char> = Vec::new();
    v.push('─');
    v.push('─');
    v.push(' ');
    append_chars(&mut v, l.as_slice());
    v.push(' ');
    let tail: u64 = if l.len() >= BANNER_WIDTH - 4 {
        0
    } else {
        (BANNER_WIDTH - 4 - l.len()) as u64
    };
    let ghost head = v@;
    let mut k: u64 = 0;
    while k < tail
        invariant
            k <= tail,
            v@ == head + repeat_char('─', k as nat),
        decreases tail - k,
    {
        v.push('─');
        k += 1;
        assert(v@ =~= head + repeat_char('─', k as nat));
    }
    assert(head =~= seq!['─', '─', ' '] + label@ + seq![' ']);
    string_of(&v)
}

/// A section rule is exactly the banner width when its label leaves room
/// for the frame.
pub proof fn lemma_section_rule_width(label: Seq<char>)
    requires
        label.len() + 4 <= BANNER_WIDTH,
    ensures
        section_rule_text(label).len() == BANNER_WIDTH,
{
}

/// Reading whitespace-separated words: the words completed so far and the
/// word being read.
pub open spec fn word_state(s: Seq<char>) -> (Seq<Seq<char>>, Seq<char>)
    decreases s.len(),
{
    if s.len() == 0 {
        (seq![], seq![])
    } else {
        let (done, cur) = word_state(s.drop_last());
        let c = s.last();
        if is_ws(c) {
            if cur.len() > 0 {
                (done.push(cur), seq![])
            } else {
                (done, cur)
            }
        } else {
            (done, cur.push(c))
        }
    }
}

/// The whitespace-separated words of `s` (`str::split_whitespace`).
pub open spec fn words_of(s: Seq<char>) -> Seq<Seq<char>> {
    let (done, cur) = word_state(s);
    if cur.len() > 0 {
        done.push(cur)
    } else {
        done
    }
}

/// Greedy wrapping of the first `k` words: the finished lines and the
/// line being filled.
pub open spec fn wrap_state(words: Seq<Seq<char>>, k: int, width: int) -> (
    Seq<Seq<char>>,
    Seq<char>,
)
    decreases k,
{
    if k <= 0 {
        (seq![], seq![])
    } else {
        let (done, line) = wrap_state(words, k - 1, width);
        let w = words[k - 1];
        if line.len() == 0 {
            (done, w)
        } else if line.len() + 1 + w.len() > width {
            (done.push(line), w)
        } else {
            (done, line + seq![' '] + w)
        }
    }
}

/// The lines of `text` wrapped greedily at `width`: words are kept whole
/// and joined by single spaces; a word goes to a new line when it would
/// push the current line past `width`.
pub open spec fn wrapped(text: Seq<char>, width: int) -> Seq<Seq<char>> {
    let words = words_of(text);
    let (done, line) = wrap_state(words, words.len() as int, width);
    if line.len() > 0 {
        done.push(line)
    } else {
        done
    }
}

/// The whitespace-separated words of `s`.
fn split_words(s: &[char]) -> (r: Vec<Vec<char>>)
    ensures
        r@.map_values(|w: Vec<char>| w@) == words_of(s@),
{
    let mut done: Vec<Vec<char>> = Vec::new();
    let mut cur: Vec<char> = Vec::new();
    let mut i: usize = 0;
    assert(s@.take(0) =~= Seq::<char>::empty());
    while i < s.len()
        invariant
            i <= s@.len(),
            word_state(s@.take(i as int)) == (done@.map_values(|w: Vec<char>| w@), cur@),
        decreases s.len() - i,
    {
        let c = s[i];
        let ghost before = done@.map_values(|w: Vec<char>| w@);
        proof {
            let t = s@.take(i as int + 1);
            assert(t.drop_last() =~= s@.take(i as int));
            assert(t.last() == c);
        }
        if is_whitespace(c) {
            if cur.len() > 0 {
                let w = cur;
                done.push(w);
                cur = Vec::new();
                assert(done@.map_values(|w: Vec<char>| w@) =~= before.push(w@));
            }
        } else {
            cur.push(c);
        }
        i += 1;
    }
    assert(s@.take(i as int) =~= s@);
    if cur.len() > 0 {
        let ghost before = done@.map_values(|w: Vec<char>| w@);
        let w = cur;
        done.push(w);
        assert(done@.map_values(|w: Vec<char>| w@) =~= before.push(w@));
    }
    done
}

/// Greedy word wrap at `width` characters: words are never split and are
/// joined by single spaces.
pub fn soft_wrap(text: &str, width: usize) -> (r: Vec<String>)
    ensures
        r@.map_values(|l: String| l@) == wrapped(text@, width as int),
{
    let chars = chars_of(text);
    let words = split_words(chars.as_slice());
    let ghost ws = words@.map_values(|w: Vec<char>| w@);
    let mut out: Vec<String> = Vec::new();
    let mut line: Vec<char> = Vec::new();
    let mut k: usize = 0;
    while k < words.len()
        invariant
            k <= words@.len(),
            ws == words@.map_values(|w: Vec<char>| w@),
            ws == words_of(text@),
            wrap_state(ws, k as int, width as int) == (out@.map_values(|l: String| l@), line@),
        decreases words.len() - k,
    {
        let w = &words[k];
        assert(w@ == ws[k as int]);
        let ghost before = out@.map_values(|l: String| l@);
        if line.len() == 0 {
            line = copy_chars(w);
        } else if line.len() as u128 + 1 + w.len() as u128 > width as u128 {
            let finished = string_of(&line);
            out.push(finished);
            assert(out@.map_values(|l: String| l@) =~= before.push(line@));
            line = copy_chars(w);
        } else {
            line.push(' ');
            append_chars(&mut line, w.as_slice());
        }
        k += 1;
    }
    if line.len() > 0 {
        let ghost before = out@.map_values(|l: String| l@);
        let finished = string_of(&line);
        out.push(finished);
        assert(out@.map_values(|l: String| l@) =~= before.push(line@));
    }
    out
}

/// A copy of a character vector.
fn copy_chars(v: &Vec<char>) -> (r: Vec<char>)
    ensures
        r@ == v@,
{
    let mut r: Vec<char> = Vec::new();
    append_chars(&mut r, v.as_slice());
    r
}

/// The finished lines followed by the current line, when it is not
/// empty.
pub open spec fn flat_lines(state: (Seq<Seq<char>>, Seq<char>)) -> Seq<Seq<char>> {
    if state.1.len() > 0 {
        state.0.push(state.1)
    } else {
        state.0
    }
}

proof fn lemma_words_nonempty(s: Seq<char>)
    ensures
        word_state(s).1.len() == 0 || !is_ws(word_state(s).1.last()),
        forall|i: int|
            0 <= i < word_state(s).0.len() ==> #[trigger] word_state(s).0[i].len() > 0,
        forall|i: int| 0 <= i < words_of(s).len() ==> #[trigger] words_of(s)[i].len() > 0,
    decreases s.len(),
{
    if s.len() > 0 {
        lemma_words_nonempty(s.drop_last());
    }
}

/// A line fits the width, or is a single word too long to fit.
pub open spec fn line_ok(l: Seq<char>, words: Seq<Seq<char>>, width: int) -> bool {
    l.len() <= width || words.contains(l)
}

proof fn lemma_wrap_state(words: Seq<Seq<char>>, k: int, width: int)
    requires
        0 <= k <= words.len(),
        forall|i: int| 0 <= i < words.len() ==> #[trigger] words[i].len() > 0,
    ensures
        join_with(flat_lines(wrap_state(words, k, width)), ' ') == join_with(words.take(k), ' '),
        k == 0 ==> wrap_state(words, k, width).0.len() == 0,
        k > 0 ==> wrap_state(words, k, width).1.len() > 0,
        forall|i: int|
            0 <= i < flat_lines(wrap_state(words, k, width)).len() ==> line_ok(
                #[trigger] flat_lines(wrap_state(words, k, width))[i],
                words,
                width,
            ),
    decreases k,
{
    if k > 0 {
        lemma_wrap_state(words, k - 1, width);
        let (done, line) = wrap_state(words, k - 1, width);
        let w = words[k - 1];
        let t = words.take(k);
        assert(t.drop_last() =~= words.take(k - 1));
        assert(t.last() == w);
        assert(words.contains(w));
        let prev = flat_lines((done, line));
        let now = flat_lines(wrap_state(words, k, width));
        if line.len() == 0 {
            assert(now =~= seq![w]);
            assert(words.take(k - 1) =~= Seq::<Seq<char>>::empty());
        } else if line.len() + 1 + w.len() > width {
            assert(now =~= done.push(line).push(w));
            assert(now.drop_last() =~= prev);
            assert forall|i: int| 0 <= i < now.len() implies line_ok(#[trigger] now[i], words, width) by {
                if i < now.len() - 1 {
                    assert(now[i] == prev[i]);
                }
            }
        } else {
            let merged = line + seq![' '] + w;
            assert(now =~= done.push(merged));
            if done.len() > 0 {
                assert(now.drop_last() =~= done);
                assert(prev.drop_last() =~= done);
                assert(join_with(now, ' ') =~= join_with(prev, ' ').push(' ') + w);
            } else {
                assert(prev =~= seq![line]);
                assert(join_with(now, ' ') =~= join_with(prev, ' ').push(' ') + w);
            }
            assert forall|i: int| 0 <= i < now.len() implies line_ok(#[trigger] now[i], words, width) by {
                if i < now.len() - 1 {
                    assert(now[i] == prev[i]);
                }
            }
        }
    } else {
        assert(words.take(0) =~= Seq::<Seq<char>>::empty());
    }
}

/// Wrapping loses no word: the wrapped lines joined by single spaces are
/// the text's words joined by single spaces.
pub proof fn lemma_wrap_keeps_words(text: Seq<char>, width: int)
    ensures
        join_with(wrapped(text, width), ' ') == join_with(words_of(text), ' '),
{
    let words = words_of(text);
    lemma_words_nonempty(text);
    lemma_wrap_state(words, words.len() as int, width);
    assert(words.take(words.len() as int) =~= words);
}

/// Every wrapped line fits the width, unless it is a single word longer
/// than the width.
pub proof fn lemma_wrap_fits(text: Seq<char>, width: int)
    ensures
        forall|i: int|
            0 <= i < wrapped(text, width).len() ==> line_ok(
                #[trigger] wrapped(text, width)[i],
                words_of(text),
                width,
            ),
{
    let words = words_of(text);
    lemma_words_nonempty(text);
    lemma_wrap_state(words, words.len() as int, width);
}

} // verus!
