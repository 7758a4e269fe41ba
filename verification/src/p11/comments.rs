//! Comments do not change what is parsed.
//!
//! Two documents whose lines, comments left out, are the same lines in the
//! same order parse alike: both fail with the same error, or both give the
//! same sections. Only line numbers can differ, and every section stands on
//! the same line in both.
//!
//! For one comment line put into a document the line numbers are related
//! exactly. A section's number is one more if the section stands at or after
//! the comment. The numbers of captions, bodies and header values count the
//! lines read when they ended, so they are one more if they are at or after
//! the comment's line, and the count of the lines before the comment becomes
//! one more where the comment was read with them. The number of a header
//! that stands on one line counts from the section's line, so it is one more
//! only where the comment stands between the two.

use crate::error::ErrorModel;
use crate::p11::line::{
    inked_line, is_comment, lemma_significant_lines, numbered, significant_lines, split_lines,
    without_blank_tail, LineModel,
};
use crate::p11::machine::{
    close_scope, inline_header, inline_headers, intro_line, joined, lemma_after_block,
    lemma_dispatch, lemma_end, lemma_end_step, lemma_next, lemma_reading_inline_headers,
    lemma_reading_section, parsed, stops_headers, FrameModel, ReadingModel, StateModel,
};
use crate::p11::section::{HeaderModel, SectionModel};
use crate::text::{
    first_from, lemma_first_from, lemma_first_from_alike, lemma_last_before,
    lemma_last_before_alike,
};
use vstd::prelude::*;

verus! {

/// Whether two headers are equal but for line numbers.
pub open spec fn alike_header(a: HeaderModel, b: HeaderModel) -> bool
    decreases a,
{
    match a {
        HeaderModel::KV { key, kind, value, .. } => {
            &&& b is KV
            &&& b->KV_key == key
            &&& b->KV_kind == kind
            &&& b->KV_value == value
        },
        HeaderModel::Section { key, kind, section, .. } => {
            &&& b is Section
            &&& b->Section_key == key
            &&& b->Section_kind == kind
            &&& b->Section_section.len() == section.len()
            &&& forall|i: int|
                0 <= i < section.len() ==> alike(#[trigger] section[i], b->Section_section[i])
        },
    }
}

/// Whether two sections are equal but for line numbers: their own, and
/// those of their captions, headers, bodies and the sections below them.
pub open spec fn alike(a: SectionModel, b: SectionModel) -> bool
    decreases a,
{
    &&& a.name == b.name
    &&& a.kind == b.kind
    &&& a.is_commented == b.is_commented
    &&& a.block_body == b.block_body
    &&& match a.caption {
        Some(h) => b.caption is Some && alike_header(h, b.caption->0),
        None => b.caption is None,
    }
    &&& match a.body {
        Some(body) => b.body is Some && b.body->0.value == body.value,
        None => b.body is None,
    }
    &&& a.headers.len() == b.headers.len()
    &&& forall|i: int| 0 <= i < a.headers.len() ==> alike_header(#[trigger] a.headers[i], b.headers[i])
    &&& a.sub_sections.len() == b.sub_sections.len()
    &&& forall|i: int|
        0 <= i < a.sub_sections.len() ==> alike(#[trigger] a.sub_sections[i], b.sub_sections[i])
}

/// Whether two lists of sections are equal but for line numbers.
pub open spec fn alike_all(a: Seq<SectionModel>, b: Seq<SectionModel>) -> bool {
    &&& a.len() == b.len()
    &&& forall|i: int| 0 <= i < a.len() ==> alike(#[trigger] a[i], b[i])
}

/// Whether two errors are equal but for line numbers.
pub open spec fn alike_errors(a: ErrorModel, b: ErrorModel) -> bool {
    match a {
        ErrorModel::ParseError { message, doc_id, .. } => b is ParseError && b->ParseError_message
            == message && b->ParseError_doc_id == doc_id,
        ErrorModel::SectionNotFound { doc_id, .. } => b is SectionNotFound
            && b->SectionNotFound_doc_id == doc_id,
        ErrorModel::MoreThanOneCaption { doc_id, .. } => b is MoreThanOneCaption
            && b->MoreThanOneCaption_doc_id == doc_id,
    }
}

/// Whether two results of parsing are equal but for line numbers.
pub open spec fn alike_results(
    a: Result<Seq<SectionModel>, ErrorModel>,
    b: Result<Seq<SectionModel>, ErrorModel>,
) -> bool {
    match a {
        Ok(x) => b is Ok && alike_all(x, b->Ok_0),
        Err(e) => b is Err && alike_errors(e, b->Err_0),
    }
}

/// The texts of `lines`.
pub open spec fn texts_of(lines: Seq<LineModel>) -> Seq<Seq<char>> {
    Seq::new(lines.len(), |i: int| lines[i].text)
}

/// The lines of `content` that are not comments, in order.
pub open spec fn uncommented(content: Seq<char>) -> Seq<Seq<char>> {
    texts_of(numbered(split_lines(content)))
}

/// Whether two lists of lines hold the same texts in the same order.
pub open spec fn same_texts(a: Seq<LineModel>, b: Seq<LineModel>) -> bool {
    &&& a.len() == b.len()
    &&& forall|i: int| 0 <= i < a.len() ==> (#[trigger] a[i]).text == b[i].text
}

/// Whether two stacks of open sections are equal but for line numbers.
pub open spec fn alike_frames(a: Seq<FrameModel>, b: Seq<FrameModel>) -> bool {
    &&& a.len() == b.len()
    &&& forall|i: int|
        0 <= i < a.len() ==> alike((#[trigger] a[i]).section, b[i].section) && a[i].readings
            == b[i].readings
}

/// Whether two states of the parser are equal but for line numbers.
pub open spec fn alike_states(a: StateModel, b: StateModel) -> bool {
    &&& a.wf()
    &&& b.wf()
    &&& same_texts(a.lines, b.lines)
    &&& a.pos == b.pos
    &&& a.doc_id == b.doc_id
    &&& alike_frames(a.state, b.state)
    &&& alike_all(a.sections, b.sections)
}

/// Whether two results of a step are equal but for line numbers.
pub open spec fn alike_steps(
    a: Result<StateModel, ErrorModel>,
    b: Result<StateModel, ErrorModel>,
) -> bool {
    match a {
        Ok(x) => b is Ok && alike_states(x, b->Ok_0),
        Err(e) => b is Err && alike_errors(e, b->Err_0),
    }
}

/// Lines with the same texts are scanned alike: the next line with text, the
/// end of a block and the end of the headers are at the same index.
pub proof fn lemma_same_scans(a: Seq<LineModel>, b: Seq<LineModel>, i: int)
    requires
        same_texts(a, b),
    ensures
        first_from(a, i, inked_line()) == first_from(b, i, inked_line()),
        first_from(a, i, intro_line()) == first_from(b, i, intro_line()),
        first_from(a, i, stops_headers()) == first_from(b, i, stops_headers()),
{
    assert forall|j: int| 0 <= j < a.len() implies inked_line()(#[trigger] a[j]) == inked_line()(
        b[j],
    ) by {
        assert(a[j].text == b[j].text);
    }
    assert forall|j: int| 0 <= j < a.len() implies intro_line()(#[trigger] a[j]) == intro_line()(
        b[j],
    ) by {
        assert(a[j].text == b[j].text);
    }
    assert forall|j: int| 0 <= j < a.len() implies stops_headers()(#[trigger] a[j])
        == stops_headers()(b[j]) by {
        assert(a[j].text == b[j].text);
    }
    lemma_first_from_alike(a, b, i, inked_line());
    lemma_first_from_alike(a, b, i, intro_line());
    lemma_first_from_alike(a, b, i, stops_headers());
}

proof fn lemma_same_joined(a: Seq<LineModel>, b: Seq<LineModel>, from: int, to: int)
    requires
        same_texts(a, b),
        0 <= from,
        to <= a.len(),
    ensures
        joined(a, from, to) == joined(b, from, to),
    decreases to - from,
{
    if to > from {
        assert(a[to - 1].text == b[to - 1].text);
        assert(a[from].text == b[from].text);
        if to > from + 1 {
            lemma_same_joined(a, b, from, to - 1);
        }
    }
}

proof fn lemma_same_inline_headers(
    a: Seq<LineModel>,
    b: Seq<LineModel>,
    from: int,
    to: int,
    base_a: nat,
    base_b: nat,
)
    requires
        same_texts(a, b),
        0 <= from,
        to <= a.len(),
    ensures
        inline_headers(a, from, to, base_a).len() == inline_headers(b, from, to, base_b).len(),
        forall|i: int|
            0 <= i < inline_headers(a, from, to, base_a).len() ==> alike_header(
                #[trigger] inline_headers(a, from, to, base_a)[i],
                inline_headers(b, from, to, base_b)[i],
            ),
    decreases to - from,
{
    if to > from {
        lemma_same_inline_headers(a, b, from, to - 1, base_a, base_b);
        assert(a[to - 1].text == b[to - 1].text);
        assert(alike_header(inline_header(a[to - 1], base_a), inline_header(b[to - 1], base_b)));
    }
}

/// Stacks that are alike close a scope alike.
pub proof fn lemma_close_scope_alike(
    a: Seq<FrameModel>,
    b: Seq<FrameModel>,
    target: Seq<char>,
    line_a: nat,
    line_b: nat,
    got_a: Seq<SectionModel>,
    got_b: Seq<SectionModel>,
)
    requires
        alike_frames(a, b),
        alike_all(got_a, got_b),
    ensures
        match close_scope(a, target, line_a, got_a) {
            Some(x) => close_scope(b, target, line_b, got_b) is Some && alike_frames(
                x,
                close_scope(b, target, line_b, got_b)->0,
            ),
            None => close_scope(b, target, line_b, got_b) is None,
        },
    decreases a.len(),
        (if a.len() > 0 {
            a.last().readings.len()
        } else {
            0
        }),
{
    if a.len() > 0 {
        let top_a = a.last();
        let top_b = b.last();
        let below_a = a.drop_last();
        let below_b = b.drop_last();
        assert(alike(a[a.len() - 1].section, b[a.len() - 1].section));
        assert(a[a.len() - 1].readings == b[a.len() - 1].readings);
        assert forall|i: int| 0 <= i < below_a.len() implies alike(
            (#[trigger] below_a[i]).section,
            below_b[i].section,
        ) && below_a[i].readings == below_b[i].readings by {
            assert(below_a[i] == a[i]);
            assert(below_b[i] == b[i]);
        }
        if top_a.readings.len() == 0 {
            let more_a = got_a.push(top_a.section);
            let more_b = got_b.push(top_b.section);
            assert forall|i: int| 0 <= i < more_a.len() implies alike(
                #[trigger] more_a[i],
                more_b[i],
            ) by {
                if i < got_a.len() {
                    assert(more_a[i] == got_a[i]);
                    assert(more_b[i] == got_b[i]);
                }
            }
            lemma_close_scope_alike(below_a, below_b, target, line_a, line_b, more_a, more_b);
        } else {
            let rest = top_a.readings.drop_last();
            let next_a = below_a.push(FrameModel { section: top_a.section, readings: rest });
            let next_b = below_b.push(FrameModel { section: top_b.section, readings: rest });
            assert forall|i: int| 0 <= i < next_a.len() implies alike(
                (#[trigger] next_a[i]).section,
                next_b[i].section,
            ) && next_a[i].readings == next_b[i].readings by {
                if i < below_a.len() {
                    assert(next_a[i] == below_a[i]);
                    assert(next_b[i] == below_b[i]);
                }
            }
            let turned_a = got_a.reverse();
            let turned_b = got_b.reverse();
            assert forall|i: int| 0 <= i < turned_a.len() implies alike(
                #[trigger] turned_a[i],
                turned_b[i],
            ) by {
                assert(turned_a[i] == got_a[got_a.len() - 1 - i]);
                assert(turned_b[i] == got_b[got_b.len() - 1 - i]);
            }
            let matched = match top_a.readings.last() {
                ReadingModel::Section => target == top_a.section.name,
                ReadingModel::Header { key, .. } => target == top_a.section.name + seq!['.'] + key,
                _ => false,
            };
            if matched {
                let after_a = close_scope(a, target, line_a, got_a)->0;
                let after_b = close_scope(b, target, line_b, got_b)->0;
                let new_a = after_a.last().section;
                let new_b = after_b.last().section;
                match top_a.readings.last() {
                    ReadingModel::Section => {
                        assert forall|i: int| 0 <= i < new_a.sub_sections.len() implies alike(
                            #[trigger] new_a.sub_sections[i],
                            new_b.sub_sections[i],
                        ) by {
                            let n = top_a.section.sub_sections.len();
                            if i < n {
                                assert(new_a.sub_sections[i] == top_a.section.sub_sections[i]);
                                assert(new_b.sub_sections[i] == top_b.section.sub_sections[i]);
                            } else {
                                assert(new_a.sub_sections[i] == turned_a[i - n]);
                                assert(new_b.sub_sections[i] == turned_b[i - n]);
                            }
                        }
                        assert forall|i: int| 0 <= i < new_a.headers.len() implies alike_header(
                            #[trigger] new_a.headers[i],
                            new_b.headers[i],
                        ) by {
                            assert(new_a.headers[i] == top_a.section.headers[i]);
                        }
                    },
                    ReadingModel::Header { key, kind } => {
                        assert forall|i: int| 0 <= i < new_a.headers.len() implies alike_header(
                            #[trigger] new_a.headers[i],
                            new_b.headers[i],
                        ) by {
                            if i < top_a.section.headers.len() {
                                assert(new_a.headers[i] == top_a.section.headers[i]);
                                assert(new_b.headers[i] == top_b.section.headers[i]);
                            }
                        }
                        assert forall|i: int| 0 <= i < new_a.sub_sections.len() implies alike(
                            #[trigger] new_a.sub_sections[i],
                            new_b.sub_sections[i],
                        ) by {
                            assert(new_a.sub_sections[i] == top_a.section.sub_sections[i]);
                        }
                    },
                    _ => {},
                }
                assert(alike(new_a, new_b));
                assert forall|i: int| 0 <= i < after_a.len() implies alike(
                    (#[trigger] after_a[i]).section,
                    after_b[i].section,
                ) && after_a[i].readings == after_b[i].readings by {
                    if i < below_a.len() {
                        assert(after_a[i] == below_a[i]);
                        assert(after_b[i] == below_b[i]);
                    }
                }
            } else {
                lemma_close_scope_alike(next_a, next_b, target, line_a, line_b, got_a, got_b);
            }
        }
    }
}

proof fn lemma_with_top_alike(a: StateModel, b: StateModel, top_a: FrameModel, top_b: FrameModel)
    requires
        alike_frames(a.state, b.state),
        a.state.len() > 0,
        alike(top_a.section, top_b.section),
        top_a.readings == top_b.readings,
    ensures
        alike_frames(a.with_top(top_a).state, b.with_top(top_b).state),
{
    let x = a.with_top(top_a).state;
    let y = b.with_top(top_b).state;
    assert forall|i: int| 0 <= i < x.len() implies alike((#[trigger] x[i]).section, y[i].section)
        && x[i].readings == y[i].readings by {
        if i < a.state.len() - 1 {
            assert(x[i] == a.state[i]);
            assert(y[i] == b.state[i]);
        }
    }
}

/// Sections that are alike stay alike when headers that are alike are
/// added to both and the rest changes in the same way.
proof fn lemma_alike_kept(
    old_a: SectionModel,
    old_b: SectionModel,
    new_a: SectionModel,
    new_b: SectionModel,
)
    requires
        alike(old_a, old_b),
        new_a.name == old_a.name && new_b.name == old_b.name,
        new_a.kind == old_a.kind && new_b.kind == old_b.kind,
        new_a.is_commented == old_a.is_commented && new_b.is_commented == old_b.is_commented,
        new_a.sub_sections == old_a.sub_sections && new_b.sub_sections == old_b.sub_sections,
        new_a.block_body == new_b.block_body,
        match new_a.caption {
            Some(h) => new_b.caption is Some && alike_header(h, new_b.caption->0),
            None => new_b.caption is None,
        },
        match new_a.body {
            Some(body) => new_b.body is Some && new_b.body->0.value == body.value,
            None => new_b.body is None,
        },
        new_a.headers.len() == new_b.headers.len(),
        forall|i: int|
            0 <= i < new_a.headers.len() ==> alike_header(#[trigger] new_a.headers[i], new_b.headers[i]),
    ensures
        alike(new_a, new_b),
{
    assert forall|i: int| 0 <= i < new_a.sub_sections.len() implies alike(
        #[trigger] new_a.sub_sections[i],
        new_b.sub_sections[i],
    ) by {
        assert(new_a.sub_sections[i] == old_a.sub_sections[i]);
    }
}

proof fn lemma_alike_pushed(old_a: SectionModel, old_b: SectionModel, h_a: HeaderModel, h_b: HeaderModel)
    requires
        alike(old_a, old_b),
        alike_header(h_a, h_b),
    ensures
        old_a.headers.push(h_a).len() == old_b.headers.push(h_b).len(),
        forall|i: int|
            0 <= i < old_a.headers.push(h_a).len() ==> alike_header(
                #[trigger] old_a.headers.push(h_a)[i],
                old_b.headers.push(h_b)[i],
            ),
{
    let x = old_a.headers.push(h_a);
    let y = old_b.headers.push(h_b);
    assert forall|i: int| 0 <= i < x.len() implies alike_header(#[trigger] x[i], y[i]) by {
        if i < old_a.headers.len() {
            assert(x[i] == old_a.headers[i]);
            assert(y[i] == old_b.headers[i]);
        }
    }
}

/// States that are alike read an end marker alike.
pub proof fn lemma_end_step_alike(a: StateModel, b: StateModel)
    requires
        alike_states(a, b),
    ensures
        match a.end_step() {
            Ok(Some(x)) => b.end_step() matches Ok(Some(y)) && alike_states(x, y),
            Ok(None) => b.end_step() == Ok::<Option<StateModel>, ErrorModel>(None),
            Err(e) => b.end_step() is Err && alike_errors(e, b.end_step()->Err_0),
        },
{
    lemma_same_scans(a.lines, b.lines, a.pos as int);
    lemma_first_from(a.lines, a.pos as int, inked_line());
    lemma_end_step(a);
    lemma_end_step(b);
    let f = a.clean_content();
    if a.pos <= f < a.lines.len() {
        assert(a.lines[f].text == b.lines[f].text);
        match crate::p11::laws::end_target(a) {
            Some(target) => {
                lemma_close_scope_alike(
                    a.state,
                    b.state,
                    target,
                    a.line_number,
                    b.line_number,
                    Seq::empty(),
                    Seq::empty(),
                );
            },
            None => {},
        }
    }
}

/// States that are alike read the end markers at the cursor alike.
pub proof fn lemma_end_alike(a: StateModel, b: StateModel)
    requires
        alike_states(a, b),
    ensures
        alike_steps(a.end(), b.end()),
    decreases a.lines.len() - a.pos,
{
    lemma_end_step_alike(a, b);
    lemma_end_step(a);
    match a.end_step() {
        Ok(Some(x)) => {
            lemma_end_alike(x, b.end_step()->Ok_0->0);
        },
        _ => {},
    }
}

/// States that are alike read the headers that stand one per line alike.
pub proof fn lemma_reading_inline_headers_alike(a: StateModel, b: StateModel)
    requires
        alike_states(a, b),
    ensures
        alike_steps(a.reading_inline_headers(), b.reading_inline_headers()),
{
    lemma_same_scans(a.lines, b.lines, a.pos as int);
    lemma_first_from(a.lines, a.pos as int, stops_headers());
    lemma_reading_inline_headers(a);
    lemma_reading_inline_headers(b);
    let q = first_from(a.lines, a.pos as int, stops_headers());
    lemma_same_inline_headers(a.lines, b.lines, a.pos as int, q, a.line_number, b.line_number);
    if a.latest() is Some {
        let top_a = a.state.last();
        let top_b = b.state.last();
        assert(alike(a.state[a.state.len() - 1].section, b.state[a.state.len() - 1].section));
        assert(a.state[a.state.len() - 1].readings == b.state[a.state.len() - 1].readings);
        let found_a = inline_headers(a.lines, a.pos as int, q, a.line_number);
        let found_b = inline_headers(b.lines, b.pos as int, q, b.line_number);
        let new_a = SectionModel { headers: top_a.section.headers + found_a, ..top_a.section };
        let new_b = SectionModel { headers: top_b.section.headers + found_b, ..top_b.section };
        assert forall|i: int| 0 <= i < new_a.headers.len() implies alike_header(
            #[trigger] new_a.headers[i],
            new_b.headers[i],
        ) by {
            let n = top_a.section.headers.len();
            if i < n {
                assert(new_a.headers[i] == top_a.section.headers[i]);
                assert(new_b.headers[i] == top_b.section.headers[i]);
            } else {
                assert(new_a.headers[i] == found_a[i - n]);
                assert(new_b.headers[i] == found_b[i - n]);
            }
        }
        lemma_alike_kept(top_a.section, top_b.section, new_a, new_b);
        let moved_a = StateModel { pos: q as nat, line_number: a.count_before(q), ..a };
        let moved_b = StateModel { pos: q as nat, line_number: b.count_before(q), ..b };
        lemma_with_top_alike(
            moved_a,
            moved_b,
            FrameModel { section: new_a, readings: top_a.readings },
            FrameModel { section: new_b, readings: top_b.readings },
        );
    }
}

/// States that are alike open a section alike.
pub proof fn lemma_reading_section_alike(a: StateModel, b: StateModel)
    requires
        alike_states(a, b),
    ensures
        alike_steps(a.reading_section(), b.reading_section()),
{
    lemma_same_scans(a.lines, b.lines, a.pos as int);
    lemma_first_from(a.lines, a.pos as int, inked_line());
    lemma_reading_section(a);
    lemma_reading_section(b);
    let f = a.clean_content();
    if 0 <= f < a.lines.len() {
        assert(a.lines[f].text == b.lines[f].text);
        match (a.reading_section(), b.reading_section()) {
            (Err(_), _) => {},
            (_, Err(_)) => {},
            (Ok(_), Ok(_)) => {
                let start = crate::text::trim(a.lines[f].text);
                let is_commented = crate::text::starts_with(
                    start,
                    crate::p11::syntax::commented_mark(),
                );
                let line = if is_commented {
                    start.skip(3)
                } else {
                    start.skip(2)
                };
                let parts = crate::p11::syntax::colon_parts(line)->0;
                let (name, kind) = crate::p11::syntax::name_and_kind(parts.0);
                let section_a = SectionModel {
                    name,
                    kind,
                    caption: match parts.1 {
                        Some(v) => Some(crate::p11::machine::caption_header(v, a.lines[f].number)),
                        None => None,
                    },
                    headers: Seq::empty(),
                    body: None,
                    sub_sections: Seq::empty(),
                    is_commented,
                    line_number: a.lines[f].number,
                    block_body: false,
                };
                let section_b = SectionModel {
                    caption: match parts.1 {
                        Some(v) => Some(crate::p11::machine::caption_header(v, b.lines[f].number)),
                        None => None,
                    },
                    line_number: b.lines[f].number,
                    ..section_a
                };
                match parts.1 {
                    Some(v) => {
                        assert(alike_header(
                            crate::p11::machine::caption_header(v, a.lines[f].number),
                            crate::p11::machine::caption_header(v, b.lines[f].number),
                        ));
                    },
                    None => {},
                }
                assert(section_a.headers.len() == 0 && section_b.headers.len() == 0);
                assert(section_a.sub_sections.len() == 0 && section_b.sub_sections.len() == 0);
                assert(alike(section_a, section_b));
                let opened_a = StateModel {
                    state: a.state.push(
                        FrameModel { section: section_a, readings: seq![ReadingModel::Section] },
                    ),
                    pos: (f + 1) as nat,
                    line_number: a.lines[f].number,
                    ..a
                };
                let opened_b = StateModel {
                    state: b.state.push(
                        FrameModel { section: section_b, readings: seq![ReadingModel::Section] },
                    ),
                    pos: (f + 1) as nat,
                    line_number: b.lines[f].number,
                    ..b
                };
                assert forall|i: int| 0 <= i < opened_a.state.len() implies alike(
                    (#[trigger] opened_a.state[i]).section,
                    opened_b.state[i].section,
                ) && opened_a.state[i].readings == opened_b.state[i].readings by {
                    if i < a.state.len() {
                        assert(opened_a.state[i] == a.state[i]);
                        assert(opened_b.state[i] == b.state[i]);
                    }
                }
                assert(opened_a.wf());
                assert(opened_b.wf());
                lemma_reading_inline_headers_alike(opened_a, opened_b);
            },
        }
    }
}

proof fn lemma_reading_block_headers_alike(a: StateModel, b: StateModel)
    requires
        alike_states(a, b),
        a.pos < a.lines.len(),
    ensures
        alike_steps(a.reading_block_headers(), b.reading_block_headers()),
{
    lemma_same_scans(a.lines, b.lines, a.pos as int);
    lemma_first_from(a.lines, a.pos as int, inked_line());
    if a.state.len() > 0 {
        let f = a.clean_content();
        assert(a.lines[f].text == b.lines[f].text);
        let top_a = a.state.last();
        let top_b = b.state.last();
        assert(alike(a.state[a.state.len() - 1].section, b.state[a.state.len() - 1].section));
        assert(a.state[a.state.len() - 1].readings == b.state[a.state.len() - 1].readings);
        match (a.reading_block_headers(), b.reading_block_headers()) {
            (Ok(x), Ok(y)) => {
                let new_a = x.state.last();
                let new_b = y.state.last();
                assert(x.state == a.state.drop_last().push(new_a));
                assert(y.state == b.state.drop_last().push(new_b));
                if new_a.section.headers != top_a.section.headers {
                    let h_a = new_a.section.headers.last();
                    let h_b = new_b.section.headers.last();
                    assert(new_a.section.headers == top_a.section.headers.push(h_a));
                    assert(new_b.section.headers == top_b.section.headers.push(h_b));
                    assert(alike_header(h_a, h_b));
                    lemma_alike_pushed(top_a.section, top_b.section, h_a, h_b);
                } else {
                    assert(new_b.section.headers == top_b.section.headers);
                }
                lemma_alike_kept(top_a.section, top_b.section, new_a.section, new_b.section);
                lemma_with_top_alike(a, b, new_a, new_b);
            },
            _ => {},
        }
    }
}

proof fn lemma_after_block_alike(a: StateModel, b: StateModel)
    requires
        alike_states(a, b),
        a.pos < a.lines.len(),
    ensures
        a.block_end() == b.block_end(),
        a.block_refused() == b.block_refused(),
        a.block_value() == b.block_value(),
        alike_states(a.after_block(), b.after_block()),
        a.pos <= a.block_end() <= a.lines.len(),
        forall|what: Seq<char>| alike_errors(#[trigger] a.block_error(what), b.block_error(what)),
{
    lemma_same_scans(a.lines, b.lines, a.pos as int);
    lemma_first_from(a.lines, a.pos as int, intro_line());
    lemma_after_block(a);
    lemma_after_block(b);
    lemma_same_joined(a.lines, b.lines, a.pos as int, a.block_end());
    assert(a.lines[a.pos as int].text == b.lines[a.pos as int].text);
}

proof fn lemma_reading_header_value_alike(
    a: StateModel,
    b: StateModel,
    key: Seq<char>,
    kind: Option<Seq<char>>,
)
    requires
        alike_states(a, b),
        a.pos < a.lines.len(),
    ensures
        alike_steps(a.reading_header_value(key, kind), b.reading_header_value(key, kind)),
{
    lemma_same_scans(a.lines, b.lines, a.pos as int);
    lemma_first_from(a.lines, a.pos as int, inked_line());
    lemma_reading_section_alike(a, b);
    lemma_after_block_alike(a, b);
    let f = a.clean_content();
    assert(a.lines[f].text == b.lines[f].text);
    if !crate::p11::syntax::opens_section(crate::text::trim(a.lines[f].text)) {
        match (a.reading_header_value(key, kind), b.reading_header_value(key, kind)) {
            (Ok(x), Ok(y)) => {
                let top_a = a.state.last();
                let top_b = b.state.last();
                assert(alike(
                    a.state[a.state.len() - 1].section,
                    b.state[a.state.len() - 1].section,
                ));
                assert(a.state[a.state.len() - 1].readings == b.state[a.state.len() - 1].readings);
                let new_a = x.state.last();
                let new_b = y.state.last();
                assert(x.state == a.state.drop_last().push(new_a));
                assert(y.state == b.state.drop_last().push(new_b));
                let h_a = new_a.section.headers.last();
                let h_b = new_b.section.headers.last();
                assert(new_a.section.headers == top_a.section.headers.push(h_a));
                assert(new_b.section.headers == top_b.section.headers.push(h_b));
                assert(alike_header(h_a, h_b));
                lemma_alike_pushed(top_a.section, top_b.section, h_a, h_b);
                lemma_alike_kept(top_a.section, top_b.section, new_a.section, new_b.section);
                lemma_with_top_alike(a.after_block(), b.after_block(), new_a, new_b);
            },
            _ => {},
        }
    }
}

proof fn lemma_reading_caption_value_alike(a: StateModel, b: StateModel)
    requires
        alike_states(a, b),
        a.pos < a.lines.len(),
    ensures
        alike_steps(a.reading_caption_value(), b.reading_caption_value()),
{
    lemma_after_block_alike(a, b);
    match (a.reading_caption_value(), b.reading_caption_value()) {
        (Ok(x), Ok(y)) => {
            let top_a = a.state.last();
            let top_b = b.state.last();
            assert(alike(a.state[a.state.len() - 1].section, b.state[a.state.len() - 1].section));
            assert(a.state[a.state.len() - 1].readings == b.state[a.state.len() - 1].readings);
            let new_a = x.state.last();
            let new_b = y.state.last();
            assert(x.state == a.state.drop_last().push(new_a));
            assert(y.state == b.state.drop_last().push(new_b));
            assert(alike_header(new_a.section.caption->0, new_b.section.caption->0));
            lemma_alike_kept(top_a.section, top_b.section, new_a.section, new_b.section);
            lemma_with_top_alike(a.after_block(), b.after_block(), new_a, new_b);
        },
        _ => {},
    }
}

proof fn lemma_reading_body_value_alike(a: StateModel, b: StateModel)
    requires
        alike_states(a, b),
        a.pos < a.lines.len(),
    ensures
        alike_steps(a.reading_body_value(), b.reading_body_value()),
{
    lemma_after_block_alike(a, b);
    match (a.reading_body_value(), b.reading_body_value()) {
        (Ok(x), Ok(y)) => {
            let top_a = a.state.last();
            let top_b = b.state.last();
            assert(alike(a.state[a.state.len() - 1].section, b.state[a.state.len() - 1].section));
            assert(a.state[a.state.len() - 1].readings == b.state[a.state.len() - 1].readings);
            let new_a = x.state.last();
            let new_b = y.state.last();
            assert(x.state == a.state.drop_last().push(new_a));
            assert(y.state == b.state.drop_last().push(new_b));
            lemma_alike_kept(top_a.section, top_b.section, new_a.section, new_b.section);
            lemma_with_top_alike(a.after_block(), b.after_block(), new_a, new_b);
        },
        _ => {},
    }
}

/// States that are alike read on alike.
pub proof fn lemma_dispatch_alike(a: StateModel, b: StateModel)
    requires
        alike_states(a, b),
        a.pos < a.lines.len(),
    ensures
        alike_steps(a.dispatch(), b.dispatch()),
{
    if a.state.len() > 0 {
        assert(a.state[a.state.len() - 1].readings == b.state[a.state.len() - 1].readings);
    }
    assert(a.latest() == b.latest());
    match a.latest() {
        None => lemma_reading_section_alike(a, b),
        Some(ReadingModel::Subsection) => lemma_reading_section_alike(a, b),
        Some(ReadingModel::Section) => lemma_reading_block_headers_alike(a, b),
        Some(ReadingModel::Header { key, kind }) => lemma_reading_header_value_alike(
            a,
            b,
            key,
            kind,
        ),
        Some(ReadingModel::Caption) => lemma_reading_caption_value_alike(a, b),
        Some(ReadingModel::Body) => lemma_reading_body_value_alike(a, b),
    }
}

/// States that are alike parse alike to the end.
pub proof fn lemma_run_alike(a: StateModel, b: StateModel)
    requires
        alike_states(a, b),
    ensures
        alike_results(a.run(), b.run()),
    decreases a.lines.len() - a.pos, a.rank(),
{
    lemma_next(a);
    lemma_next(b);
    lemma_end(a);
    lemma_end(b);
    lemma_end_alike(a, b);
    match (a.end(), b.end()) {
        (Ok(x), Ok(y)) => {
            if x.pos >= x.lines.len() {
                let done_a = x.drained();
                let done_b = y.drained();
                assert forall|i: int| 0 <= i < done_a.sections.len() implies alike(
                    #[trigger] done_a.sections[i],
                    done_b.sections[i],
                ) by {
                    let n = x.sections.len();
                    if i < n {
                        assert(done_a.sections[i] == x.sections[i]);
                        assert(done_b.sections[i] == y.sections[i]);
                    } else {
                        assert(done_a.sections[i] == x.state[i - n].section);
                        assert(done_b.sections[i] == y.state[i - n].section);
                    }
                }
            } else {
                lemma_dispatch_alike(x, y);
                lemma_dispatch(x);
                match (x.dispatch(), y.dispatch()) {
                    (Ok(t), Ok(u)) => {
                        lemma_run_alike(t, u);
                    },
                    _ => {},
                }
            }
        },
        _ => {},
    }
}

/// The lines that the parser reads of two documents are the same texts
/// when the documents' lines, comments left out, are.
pub proof fn lemma_same_significant_lines(a: Seq<char>, b: Seq<char>)
    requires
        uncommented(a) == uncommented(b),
    ensures
        same_texts(significant_lines(a), significant_lines(b)),
{
    let all_a = numbered(split_lines(a));
    let all_b = numbered(split_lines(b));
    assert(all_a.len() == all_b.len()) by {
        assert(uncommented(a).len() == all_a.len());
        assert(uncommented(b).len() == all_b.len());
    }
    assert forall|i: int| 0 <= i < all_a.len() implies (#[trigger] all_a[i]).text
        == all_b[i].text by {
        assert(uncommented(a)[i] == all_a[i].text);
        assert(uncommented(b)[i] == all_b[i].text);
    }
    assert forall|j: int| 0 <= j < all_a.len() implies inked_line()(#[trigger] all_a[j])
        == inked_line()(all_b[j]) by {
        assert(all_a[j].text == all_b[j].text);
    }
    lemma_last_before_alike(all_a, all_b, all_a.len() as int, inked_line());
    lemma_last_before(all_a, all_a.len() as int, inked_line());
    let kept_a = without_blank_tail(all_a);
    let kept_b = without_blank_tail(all_b);
    assert(kept_a.len() == kept_b.len());
    let lines_a = significant_lines(a);
    let lines_b = significant_lines(b);
    assert forall|i: int| 0 <= i < lines_a.len() implies (#[trigger] lines_a[i]).text
        == lines_b[i].text by {
        assert(kept_a[i] == all_a[i]);
        assert(kept_b[i] == all_b[i]);
        assert(all_a[i].text == all_b[i].text);
    }
}

/// Comments do not change what is parsed. Two documents whose lines,
/// comments left out, are the same lines in the same order either both fail,
/// with errors that differ in their line numbers at most, or both give
/// sections that differ in the line numbers they carry at most.
pub proof fn lemma_comments_only_move_lines(a: Seq<char>, b: Seq<char>, doc_id: Seq<char>)
    requires
        uncommented(a) == uncommented(b),
    ensures
        alike_results(parsed(a, doc_id), parsed(b, doc_id)),
{
    lemma_same_significant_lines(a, b);
    lemma_significant_lines(a);
    lemma_significant_lines(b);
    lemma_run_alike(StateModel::start(a, doc_id), StateModel::start(b, doc_id));
}

/// Cutting a text into lines cuts it at every newline character: the lines
/// of two texts with a newline between them are the lines of the first and
/// then the lines of the second.
pub proof fn lemma_split_lines_concat(x: Seq<char>, y: Seq<char>)
    ensures
        split_lines(x + seq!['\n'] + y) == split_lines(x) + split_lines(y),
    decreases y.len(),
{
    let z = x + seq!['\n'] + y;
    if y.len() == 0 {
        assert(z.drop_last() == x);
        assert(split_lines(x) + split_lines(y) == split_lines(x).push(Seq::<char>::empty()));
    } else {
        assert(z.drop_last() == x + seq!['\n'] + y.drop_last());
        lemma_split_lines_concat(x, y.drop_last());
        crate::p11::line::lemma_split_lines_len(y.drop_last());
        let head = split_lines(x);
        let tail = split_lines(y.drop_last());
        let before = head + tail;
        assert(before.last() == tail.last());
        if y.last() == '\n' {
            assert(before.push(Seq::<char>::empty()) == head + tail.push(Seq::<char>::empty()));
        } else {
            assert(before.update(before.len() - 1, before.last().push(y.last())) == head
                + tail.update(tail.len() - 1, tail.last().push(y.last())));
        }
    }
}

/// A text without a newline character is one line.
pub proof fn lemma_split_lines_single(x: Seq<char>)
    requires
        forall|j: int| 0 <= j < x.len() ==> x[j] != '\n',
    ensures
        split_lines(x) == seq![x],
    decreases x.len(),
{
    if x.len() > 0 {
        assert forall|j: int| 0 <= j < x.drop_last().len() implies x.drop_last()[j] != '\n' by {
            assert(x.drop_last()[j] == x[j]);
        }
        lemma_split_lines_single(x.drop_last());
        assert(x.last() == x[x.len() - 1]);
        assert(seq![x.drop_last()].update(0, x.drop_last().push(x.last())) == seq![x]) by {
            assert(x.drop_last().push(x.last()) == x);
        }
    } else {
        assert(x == Seq::<char>::empty());
    }
}

/// A comment line alone leaves no line.
pub proof fn lemma_numbered_comment(comment: Seq<char>)
    requires
        is_comment(comment),
    ensures
        texts_of(numbered(seq![comment])).len() == 0,
{
    let one = seq![comment];
    assert(one.drop_last().len() == 0);
    assert(numbered(one.drop_last()).len() == 0);
    assert(one.last() == comment);
}

} // verus!
