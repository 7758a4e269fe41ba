//! The lines of a document as the parser reads them.
//!
//! A document is cut at its newline characters. Lines that begin with `;;`
//! are comments: they keep their place in the numbering and are otherwise
//! left out. Blank lines after the last line that carries text are dropped,
//! and that last line loses its trailing whitespace.

use crate::text::{
    blank, is_blank, last_before, lemma_is_blank, lemma_last_before,
    lemma_last_before_is, not_whitespace, slice_of, starts_with, to_chars, trim_end, trimmed_end,
};
use vstd::prelude::*;

verus! {

/// A line that is not a comment, with its 1-based number in the document.
#[derive(Debug, Clone, PartialEq)]
pub struct Line {
    pub text: Vec<char>,
    pub number: usize,
}

/// The value of a line.
pub struct LineModel {
    pub text: Seq<char>,
    pub number: nat,
}

impl View for Line {
    type V = LineModel;

    open spec fn view(&self) -> LineModel {
        LineModel { text: self.text@, number: self.number as nat }
    }
}

/// The values of a list of lines.
pub open spec fn line_views(s: Seq<Line>) -> Seq<LineModel> {
    Seq::new(s.len(), |i: int| s[i]@)
}

/// The texts of a list of character vectors.
pub open spec fn texts(s: Seq<Vec<char>>) -> Seq<Seq<char>> {
    Seq::new(s.len(), |i: int| s[i]@)
}

/// The pieces of `s` between its newline characters, in order. There is
/// always at least one piece.
pub open spec fn split_lines(s: Seq<char>) -> Seq<Seq<char>>
    decreases s.len(),
{
    if s.len() == 0 {
        seq![Seq::<char>::empty()]
    } else {
        let before = split_lines(s.drop_last());
        if s.last() == '\n' {
            before.push(Seq::<char>::empty())
        } else {
            before.update(before.len() - 1, before.last().push(s.last()))
        }
    }
}

/// A text has at least one line, and one more line than newline characters at most.
pub proof fn lemma_split_lines_len(s: Seq<char>)
    ensures
        1 <= split_lines(s).len() <= s.len() + 1,
    decreases s.len(),
{
    if s.len() > 0 {
        lemma_split_lines_len(s.drop_last());
    }
}

/// `lines` with a newline character between every two of them.
pub open spec fn join_lines(lines: Seq<Seq<char>>) -> Seq<char>
    decreases lines.len(),
{
    if lines.len() == 0 {
        Seq::<char>::empty()
    } else if lines.len() == 1 {
        lines[0]
    } else {
        join_lines(lines.drop_last()) + seq!['\n'] + lines.last()
    }
}

/// Cutting a text into lines loses nothing: no line holds a newline
/// character, and the lines with newline characters between them are the
/// text.
pub proof fn lemma_split_lines(s: Seq<char>)
    ensures
        forall|i: int, j: int|
            0 <= i < split_lines(s).len() && 0 <= j < split_lines(s)[i].len() ==> (
            #[trigger] split_lines(s)[i][j]) != '\n',
        join_lines(split_lines(s)) == s,
    decreases s.len(),
{
    if s.len() > 0 {
        let before = split_lines(s.drop_last());
        lemma_split_lines(s.drop_last());
        lemma_split_lines_len(s.drop_last());
        let lines = split_lines(s);
        if s.last() == '\n' {
            assert(lines.drop_last() == before);
            assert(join_lines(lines) == s.drop_last() + seq!['\n'] + Seq::<char>::empty());
            assert(s.drop_last() + seq!['\n'] + Seq::<char>::empty() == s);
        } else {
            let last = before.last().push(s.last());
            assert(lines.last() == last);
            assert(lines.drop_last() == before.drop_last());
            assert forall|i: int, j: int|
                0 <= i < lines.len() && 0 <= j < lines[i].len() implies (#[trigger] lines[i][j])
                != '\n' by {
                if i < lines.len() - 1 {
                    assert(lines[i] == before[i]);
                } else if j < before.last().len() {
                    assert(lines[i][j] == before[i][j]);
                }
            }
            if before.len() == 1 {
                assert(join_lines(before) == before[0]);
                assert(join_lines(lines) == last);
                assert(last == s) by {
                    assert(before[0] == s.drop_last());
                    assert(s.drop_last().push(s.last()) == s);
                }
            } else {
                assert(join_lines(before) == join_lines(before.drop_last()) + seq!['\n']
                    + before.last());
                assert(join_lines(lines) == join_lines(before.drop_last()) + seq!['\n'] + last);
                assert(join_lines(before.drop_last()) + seq!['\n'] + last == (join_lines(
                    before.drop_last(),
                ) + seq!['\n'] + before.last()).push(s.last()));
                assert(s.drop_last().push(s.last()) == s);
            }
        }
    } else {
        assert(split_lines(s)[0] == s);
    }
}

/// A comment line begins with two semicolons.
pub open spec fn is_comment(line: Seq<char>) -> bool {
    starts_with(line, seq![';', ';'])
}

/// The lines of `raw` that are not comments, each with its 1-based position
/// in `raw`.
pub open spec fn numbered(raw: Seq<Seq<char>>) -> Seq<LineModel>
    decreases raw.len(),
{
    if raw.len() == 0 {
        Seq::<LineModel>::empty()
    } else {
        let before = numbered(raw.drop_last());
        if is_comment(raw.last()) {
            before
        } else {
            before.push(LineModel { text: raw.last(), number: raw.len() })
        }
    }
}

/// The test for a text that is not blank.
pub open spec fn inked_text() -> spec_fn(Seq<char>) -> bool {
    |t: Seq<char>| !is_blank(t)
}

/// The test for a line that is not blank.
pub open spec fn inked_line() -> spec_fn(LineModel) -> bool {
    |l: LineModel| !is_blank(l.text)
}

/// `lines` without the blank lines at its end.
pub open spec fn without_blank_tail(lines: Seq<LineModel>) -> Seq<LineModel> {
    lines.take(last_before(lines, lines.len() as int, inked_line()) + 1)
}

/// `lines` with the trailing whitespace of its last line removed.
pub open spec fn with_last_trimmed(lines: Seq<LineModel>) -> Seq<LineModel> {
    if lines.len() == 0 {
        lines
    } else {
        lines.update(
            lines.len() - 1,
            LineModel { text: trim_end(lines.last().text), number: lines.last().number },
        )
    }
}

/// The lines of `content` that the parser reads.
pub open spec fn significant_lines(content: Seq<char>) -> Seq<LineModel> {
    with_last_trimmed(without_blank_tail(numbered(split_lines(content))))
}

/// The number of lines of `content` up to the last one that is not blank.
pub open spec fn line_count(content: Seq<char>) -> nat {
    let raw = split_lines(content);
    (last_before(raw, raw.len() as int, inked_text()) + 1) as nat
}

/// What the parser relies on in a list of lines: numbers start at one,
/// increase strictly and stay within `total`, and the last line is not blank.
pub open spec fn lines_wf(lines: Seq<LineModel>, total: nat) -> bool {
    &&& forall|i: int| 0 <= i < lines.len() ==> 1 <= (#[trigger] lines[i]).number <= total
    &&& forall|i: int, j: int|
        0 <= i < j < lines.len() ==> (#[trigger] lines[i]).number < (#[trigger] lines[j]).number
    &&& lines.len() > 0 ==> !is_blank(lines.last().text)
}

/// The lines that are not comments keep their texts and their places: each
/// carries its position, and the positions rise.
pub proof fn lemma_numbered(raw: Seq<Seq<char>>)
    ensures
        numbered(raw).len() <= raw.len(),
        forall|i: int|
            0 <= i < numbered(raw).len() ==> {
                let l = #[trigger] numbered(raw)[i];
                &&& 1 <= l.number <= raw.len()
                &&& l.text == raw[l.number - 1]
                &&& !is_comment(l.text)
            },
        forall|i: int, j: int|
            0 <= i < j < numbered(raw).len() ==> (#[trigger] numbered(raw)[i]).number < (
            #[trigger] numbered(raw)[j]).number,
    decreases raw.len(),
{
    if raw.len() > 0 {
        lemma_numbered(raw.drop_last());
    }
}

/// A text is blank exactly when it is blank without its trailing whitespace.
pub proof fn lemma_trim_end_keeps_ink(t: Seq<char>)
    ensures
        is_blank(trim_end(t)) == is_blank(t),
{
    lemma_is_blank(t);
    lemma_is_blank(trim_end(t));
    lemma_last_before(t, t.len() as int, not_whitespace());
    let k = last_before(t, t.len() as int, not_whitespace());
    if k >= 0 {
        assert(trim_end(t)[k] == t[k]);
    } else {
        assert(trim_end(t).len() == 0);
    }
}

/// The lines that the parser reads are well formed.
pub proof fn lemma_significant_lines(content: Seq<char>)
    ensures
        lines_wf(significant_lines(content), line_count(content)),
{
    let raw = split_lines(content);
    let all = numbered(raw);
    let kept = without_blank_tail(all);
    let lines = significant_lines(content);
    let total = line_count(content);
    lemma_numbered(raw);
    lemma_last_before(all, all.len() as int, inked_line());
    lemma_last_before(raw, raw.len() as int, inked_text());
    let k = last_before(all, all.len() as int, inked_line());
    assert(kept.len() == k + 1);
    if kept.len() > 0 {
        let last = all[k];
        assert(!is_blank(last.text));
        assert(inked_text()(raw[last.number - 1]));
        assert(last.number <= total);
        lemma_trim_end_keeps_ink(last.text);
        assert forall|i: int| 0 <= i < lines.len() implies 1 <= (#[trigger] lines[i]).number
            <= total by {
            assert(lines[i].number == all[i].number);
            if i < k {
                assert(all[i].number < all[k].number);
            }
        }
        assert forall|i: int, j: int| 0 <= i < j < lines.len() implies (#[trigger] lines[i]).number
            < (#[trigger] lines[j]).number by {
            assert(lines[i].number == all[i].number);
            assert(lines[j].number == all[j].number);
        }
    }
}

/// Cuts `content` at its newline characters.
pub fn split(content: &Vec<char>) -> (raw: Vec<Vec<char>>)
    ensures
        texts(raw@) == split_lines(content@),
{
    let mut raw: Vec<Vec<char>> = Vec::new();
    let mut current: Vec<char> = Vec::new();
    let mut i: usize = 0;
    while i < content.len()
        invariant
            i <= content.len(),
            texts(raw@).push(current@) == split_lines(content@.take(i as int)),
        decreases content.len() - i,
    {
        let c = content[i];
        proof {
            assert(content@.take(i + 1).drop_last() == content@.take(i as int));
        }
        if c == '\n' {
            let ghost done = texts(raw@).push(current@);
            raw.push(current);
            current = Vec::new();
            assert(texts(raw@) == done);
        } else {
            let ghost before = texts(raw@).push(current@);
            current.push(c);
            assert(texts(raw@).push(current@) == before.update(
                before.len() - 1,
                before.last().push(c),
            ));
        }
        i += 1;
    }
    let ghost done = texts(raw@).push(current@);
    raw.push(current);
    assert(texts(raw@) == done);
    assert(content@.take(content.len() as int) == content@);
    raw
}

/// Whether `line` is a comment.
pub fn comment(line: &Vec<char>) -> (b: bool)
    ensures
        b == is_comment(line@),
{
    let b = line.len() >= 2 && line[0] == ';' && line[1] == ';';
    proof {
        if line.len() >= 2 {
            assert(line@.subrange(0, 2) == seq![line@[0], line@[1]]);
            assert(seq![';', ';'][0] == ';' && seq![';', ';'][1] == ';');
        }
    }
    b
}

/// The lines of `content` that the parser reads, and the count of its lines
/// up to the last one that is not blank.
pub fn significant(content: &str) -> (r: (Vec<Line>, usize))
    ensures
        line_views(r.0@) == significant_lines(content@),
        r.1 == line_count(content@),
        lines_wf(line_views(r.0@), r.1 as nat),
{
    let chars = to_chars(content);
    let raw = split(&chars);
    let ghost raw_texts = texts(raw@);
    // The count of lines up to the last one that is not blank.
    let mut total: usize = raw.len();
    while total > 0 && blank(&raw[total - 1])
        invariant
            total <= raw.len(),
            raw_texts == texts(raw@),
            forall|j: int| total <= j < raw.len() ==> !inked_text()(#[trigger] raw_texts[j]),
        decreases total,
    {
        total -= 1;
    }
    proof {
        lemma_last_before_is(raw_texts, raw_texts.len() as int, total as int - 1, inked_text());
    }
    // The lines that are not comments, numbered.
    let mut lines: Vec<Line> = Vec::new();
    let mut i: usize = 0;
    while i < raw.len()
        invariant
            i <= raw.len(),
            raw_texts == texts(raw@),
            line_views(lines@) == numbered(raw_texts.take(i as int)),
        decreases raw.len() - i,
    {
        proof {
            assert(raw_texts.take(i + 1).drop_last() == raw_texts.take(i as int));
        }
        if !comment(&raw[i]) {
            let ghost before = line_views(lines@);
            let text = slice_of(&raw[i], 0, raw[i].len());
            assert(text@ == raw_texts[i as int]);
            lines.push(Line { text, number: i + 1 });
            assert(line_views(lines@) == before.push(
                LineModel { text: raw_texts[i as int], number: (i + 1) as nat },
            ));
        }
        i += 1;
    }
    assert(raw_texts.take(raw.len() as int) == raw_texts);
    let ghost all = line_views(lines@);
    // Drop the blank lines at the end.
    let mut keep: usize = lines.len();
    while keep > 0 && blank(&lines[keep - 1].text)
        invariant
            keep <= lines.len(),
            all == line_views(lines@),
            forall|j: int| keep <= j < lines.len() ==> !inked_line()(#[trigger] all[j]),
        decreases keep,
    {
        keep -= 1;
    }
    proof {
        lemma_last_before_is(all, all.len() as int, keep as int - 1, inked_line());
    }
    lines.truncate(keep);
    assert(line_views(lines@) == without_blank_tail(all));
    // Trim the end of the last line.
    let ghost kept = line_views(lines@);
    match lines.pop() {
        Some(last) => {
            let text = trimmed_end(&last.text);
            lines.push(Line { text, number: last.number });
            assert(line_views(lines@) == with_last_trimmed(kept));
        },
        None => {},
    }
    proof {
        lemma_significant_lines(content@);
    }
    (lines, total)
}

} // verus!
