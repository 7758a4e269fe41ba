//! Comments do not move a section to another line.
//!
//! Of two documents whose lines, comments left out, are the same, every
//! section of the one parse stands on the line on which its counterpart of the
//! other parse stands. For a comment line put into a document this says by
//! how much the line number of each section changes.

use crate::error::ErrorModel;
use crate::p11::comments::{
    alike, alike_all, alike_frames, alike_states, lemma_close_scope_alike, lemma_dispatch_alike,
    lemma_end_alike, lemma_end_step_alike, lemma_numbered_comment,
    lemma_reading_inline_headers_alike, lemma_reading_section_alike, lemma_run_alike,
    lemma_same_scans, lemma_same_significant_lines, texts_of, uncommented,
};
use crate::p11::line::{
    inked_line, is_comment, lemma_significant_lines, numbered, significant_lines, split_lines,
    without_blank_tail, LineModel,
};
use crate::p11::machine::{
    close_scope, inline_headers, lemma_after_block, lemma_dispatch, lemma_end, lemma_end_step,
    lemma_next, lemma_reading_inline_headers, lemma_reading_section, parsed, stops_headers,
    FrameModel, ReadingModel, StateModel,
};
use crate::p11::section::{HeaderModel, SectionModel};
use crate::text::{first_from, lemma_first_from, lemma_last_before};
use vstd::prelude::*;

verus! {

/// Whether `x` and `y` are the numbers that one line has in the two
/// documents whose lines are `la` and `lb`.
pub open spec fn placed(la: Seq<LineModel>, lb: Seq<LineModel>, x: nat, y: nat) -> bool {
    exists|i: int|
        0 <= i < la.len() && i < lb.len() && (#[trigger] la[i]).number == x && lb[i].number == y
}

/// Whether the sections in the values of two headers stand on the same
/// lines of their documents.
pub open spec fn header_placed(
    la: Seq<LineModel>,
    lb: Seq<LineModel>,
    a: HeaderModel,
    b: HeaderModel,
) -> bool
    decreases a,
{
    match a {
        HeaderModel::KV { .. } => true,
        HeaderModel::Section { section, .. } => {
            &&& b is Section
            &&& b->Section_section.len() == section.len()
            &&& forall|i: int|
                0 <= i < section.len() ==> section_placed(
                    la,
                    lb,
                    #[trigger] section[i],
                    b->Section_section[i],
                )
        },
    }
}

/// Whether two sections, and the sections below them and in their headers,
/// stand on the same lines of their documents: the line numbers of each pair
/// are the numbers that one line has in the one document and in the other.
pub open spec fn section_placed(
    la: Seq<LineModel>,
    lb: Seq<LineModel>,
    a: SectionModel,
    b: SectionModel,
) -> bool
    decreases a,
{
    &&& placed(la, lb, a.line_number, b.line_number)
    &&& a.sub_sections.len() == b.sub_sections.len()
    &&& forall|i: int|
        0 <= i < a.sub_sections.len() ==> section_placed(
            la,
            lb,
            #[trigger] a.sub_sections[i],
            b.sub_sections[i],
        )
    &&& a.headers.len() == b.headers.len()
    &&& forall|i: int|
        0 <= i < a.headers.len() ==> header_placed(la, lb, #[trigger] a.headers[i], b.headers[i])
    &&& a.caption matches Some(h) ==> b.caption is Some && header_placed(la, lb, h, b.caption->0)
}

/// Whether the sections of two lists stand on the same lines, pair by pair.
pub open spec fn all_placed(
    la: Seq<LineModel>,
    lb: Seq<LineModel>,
    a: Seq<SectionModel>,
    b: Seq<SectionModel>,
) -> bool {
    &&& a.len() == b.len()
    &&& forall|i: int| 0 <= i < a.len() ==> section_placed(la, lb, #[trigger] a[i], b[i])
}

/// Whether the open sections of two stacks stand on the same lines.
pub open spec fn frames_placed(
    la: Seq<LineModel>,
    lb: Seq<LineModel>,
    a: Seq<FrameModel>,
    b: Seq<FrameModel>,
) -> bool {
    &&& a.len() == b.len()
    &&& forall|i: int|
        0 <= i < a.len() ==> section_placed(la, lb, (#[trigger] a[i]).section, b[i].section)
}

/// Whether two states are equal but for line numbers, with every section
/// on the same line in both.
pub open spec fn states_placed(a: StateModel, b: StateModel) -> bool {
    &&& alike_states(a, b)
    &&& frames_placed(a.lines, b.lines, a.state, b.state)
    &&& all_placed(a.lines, b.lines, a.sections, b.sections)
}

/// Whether what two steps give, where they give a state, are states with
/// every section on the same line in both.
pub open spec fn steps_placed(
    a: StateModel,
    b: StateModel,
    x: Result<StateModel, ErrorModel>,
    y: Result<StateModel, ErrorModel>,
) -> bool {
    x matches Ok(t) ==> {
        &&& y is Ok
        &&& t.lines == a.lines
        &&& y->Ok_0.lines == b.lines
        &&& states_placed(t, y->Ok_0)
    }
}

proof fn lemma_close_scope_placed(
    la: Seq<LineModel>,
    lb: Seq<LineModel>,
    a: Seq<FrameModel>,
    b: Seq<FrameModel>,
    target: Seq<char>,
    line_a: nat,
    line_b: nat,
    got_a: Seq<SectionModel>,
    got_b: Seq<SectionModel>,
)
    requires
        alike_frames(a, b),
        alike_all(got_a, got_b),
        frames_placed(la, lb, a, b),
        all_placed(la, lb, got_a, got_b),
    ensures
        close_scope(a, target, line_a, got_a) matches Some(x) ==> close_scope(
            b,
            target,
            line_b,
            got_b,
        ) is Some && frames_placed(la, lb, x, close_scope(b, target, line_b, got_b)->0),
    decreases a.len(),
        (if a.len() > 0 {
            a.last().readings.len()
        } else {
            0
        }),
{
    lemma_close_scope_alike(a, b, target, line_a, line_b, got_a, got_b);
    if a.len() > 0 {
        let top_a = a.last();
        let top_b = b.last();
        let below_a = a.drop_last();
        let below_b = b.drop_last();
        assert(alike(a[a.len() - 1].section, b[a.len() - 1].section));
        assert(a[a.len() - 1].readings == b[a.len() - 1].readings);
        assert(section_placed(la, lb, a[a.len() - 1].section, b[a.len() - 1].section));
        assert forall|i: int| 0 <= i < below_a.len() implies alike(
            (#[trigger] below_a[i]).section,
            below_b[i].section,
        ) && below_a[i].readings == below_b[i].readings && section_placed(
            la,
            lb,
            below_a[i].section,
            below_b[i].section,
        ) by {
            assert(below_a[i] == a[i]);
            assert(below_b[i] == b[i]);
        }
        if top_a.readings.len() == 0 {
            let more_a = got_a.push(top_a.section);
            let more_b = got_b.push(top_b.section);
            assert forall|i: int| 0 <= i < more_a.len() implies alike(
                #[trigger] more_a[i],
                more_b[i],
            ) && section_placed(la, lb, more_a[i], more_b[i]) by {
                if i < got_a.len() {
                    assert(more_a[i] == got_a[i]);
                    assert(more_b[i] == got_b[i]);
                }
            }
            lemma_close_scope_placed(
                la,
                lb,
                below_a,
                below_b,
                target,
                line_a,
                line_b,
                more_a,
                more_b,
            );
        } else {
            let rest = top_a.readings.drop_last();
            let next_a = below_a.push(FrameModel { section: top_a.section, readings: rest });
            let next_b = below_b.push(FrameModel { section: top_b.section, readings: rest });
            assert forall|i: int| 0 <= i < next_a.len() implies alike(
                (#[trigger] next_a[i]).section,
                next_b[i].section,
            ) && next_a[i].readings == next_b[i].readings && section_placed(
                la,
                lb,
                next_a[i].section,
                next_b[i].section,
            ) by {
                if i < below_a.len() {
                    assert(next_a[i] == below_a[i]);
                    assert(next_b[i] == below_b[i]);
                }
            }
            let turned_a = got_a.reverse();
            let turned_b = got_b.reverse();
            assert forall|i: int| 0 <= i < turned_a.len() implies section_placed(
                la,
                lb,
                #[trigger] turned_a[i],
                turned_b[i],
            ) by {
                assert(turned_a[i] == got_a[got_a.len() - 1 - i]);
                assert(turned_b[i] == got_b[got_b.len() - 1 - i]);
            }
            let matched = match top_a.readings.last() {
                ReadingModel::Section => target == top_a.section.name,
                ReadingModel::Header { key, .. } => target == top_a.section.name + seq!['.'] + key,
                _ => false,
            };
            if matched {
                let after_a = close_scope(a, target, line_a, got_a)->0;
                let after_b = close_scope(b, target, line_b, got_b)->0;
                let new_a = after_a.last().section;
                let new_b = after_b.last().section;
                match top_a.readings.last() {
                    ReadingModel::Section => {
                        assert forall|i: int|
                            0 <= i < new_a.sub_sections.len() implies section_placed(
                            la,
                            lb,
                            #[trigger] new_a.sub_sections[i],
                            new_b.sub_sections[i],
                        ) by {
                            let n = top_a.section.sub_sections.len();
                            if i < n {
                                assert(new_a.sub_sections[i] == top_a.section.sub_sections[i]);
                                assert(new_b.sub_sections[i] == top_b.section.sub_sections[i]);
                            } else {
                                assert(new_a.sub_sections[i] == turned_a[i - n]);
                                assert(new_b.sub_sections[i] == turned_b[i - n]);
                            }
                        }
                        assert forall|i: int| 0 <= i < new_a.headers.len() implies header_placed(
                            la,
                            lb,
                            #[trigger] new_a.headers[i],
                            new_b.headers[i],
                        ) by {
                            assert(new_a.headers[i] == top_a.section.headers[i]);
                        }
                    },
                    ReadingModel::Header { key, kind } => {
                        let h_a = new_a.headers.last();
                        let h_b = new_b.headers.last();
                        assert(header_placed(la, lb, h_a, h_b));
                        assert forall|i: int| 0 <= i < new_a.headers.len() implies header_placed(
                            la,
                            lb,
                            #[trigger] new_a.headers[i],
                            new_b.headers[i],
                        ) by {
                            if i < top_a.section.headers.len() {
                                assert(new_a.headers[i] == top_a.section.headers[i]);
                                assert(new_b.headers[i] == top_b.section.headers[i]);
                            }
                        }
                        assert forall|i: int|
                            0 <= i < new_a.sub_sections.len() implies section_placed(
                            la,
                            lb,
                            #[trigger] new_a.sub_sections[i],
                            new_b.sub_sections[i],
                        ) by {
                            assert(new_a.sub_sections[i] == top_a.section.sub_sections[i]);
                        }
                    },
                    _ => {},
                }
                assert(section_placed(la, lb, new_a, new_b));
                assert forall|i: int| 0 <= i < after_a.len() implies section_placed(
                    la,
                    lb,
                    (#[trigger] after_a[i]).section,
                    after_b[i].section,
                ) by {
                    if i < below_a.len() {
                        assert(after_a[i] == below_a[i]);
                        assert(after_b[i] == below_b[i]);
                    }
                }
            } else {
                lemma_close_scope_placed(
                    la,
                    lb,
                    next_a,
                    next_b,
                    target,
                    line_a,
                    line_b,
                    got_a,
                    got_b,
                );
            }
        }
    }
}

proof fn lemma_with_top_placed(a: StateModel, b: StateModel, top_a: FrameModel, top_b: FrameModel)
    requires
        frames_placed(a.lines, b.lines, a.state, b.state),
        a.state.len() > 0,
        section_placed(a.lines, b.lines, top_a.section, top_b.section),
    ensures
        frames_placed(a.lines, b.lines, a.with_top(top_a).state, b.with_top(top_b).state),
{
    let x = a.with_top(top_a).state;
    let y = b.with_top(top_b).state;
    assert forall|i: int| 0 <= i < x.len() implies section_placed(
        a.lines,
        b.lines,
        (#[trigger] x[i]).section,
        y[i].section,
    ) by {
        if i < a.state.len() - 1 {
            assert(x[i] == a.state[i]);
            assert(y[i] == b.state[i]);
        }
    }
}

/// Sections on the same lines stay so when only their captions, headers,
/// bodies and block marks change, and what is added holds no section.
proof fn lemma_placed_kept(
    la: Seq<LineModel>,
    lb: Seq<LineModel>,
    old_a: SectionModel,
    old_b: SectionModel,
    new_a: SectionModel,
    new_b: SectionModel,
)
    requires
        section_placed(la, lb, old_a, old_b),
        new_a.line_number == old_a.line_number && new_b.line_number == old_b.line_number,
        new_a.sub_sections == old_a.sub_sections && new_b.sub_sections == old_b.sub_sections,
        new_a.headers.len() == new_b.headers.len(),
        forall|i: int|
            0 <= i < new_a.headers.len() ==> header_placed(
                la,
                lb,
                #[trigger] new_a.headers[i],
                new_b.headers[i],
            ),
        new_a.caption matches Some(h) ==> new_b.caption is Some && header_placed(
            la,
            lb,
            h,
            new_b.caption->0,
        ),
    ensures
        section_placed(la, lb, new_a, new_b),
{
    assert forall|i: int| 0 <= i < new_a.sub_sections.len() implies section_placed(
        la,
        lb,
        #[trigger] new_a.sub_sections[i],
        new_b.sub_sections[i],
    ) by {
        assert(new_a.sub_sections[i] == old_a.sub_sections[i]);
    }
}

/// What three kinds of step have in common: the section on top of the
/// stack keeps its line and the sections below it, and its headers stay or
/// grow by headers of text.
proof fn lemma_top_changed_placed(a: StateModel, b: StateModel, x: StateModel, y: StateModel)
    requires
        states_placed(a, b),
        alike_states(x, y),
        a.state.len() > 0,
        x.lines == a.lines && y.lines == b.lines,
        x.sections == a.sections && y.sections == b.sections,
        x.state == a.state.drop_last().push(x.state.last()),
        y.state == b.state.drop_last().push(y.state.last()),
        x.state.last().section.line_number == a.state.last().section.line_number,
        y.state.last().section.line_number == b.state.last().section.line_number,
        x.state.last().section.sub_sections == a.state.last().section.sub_sections,
        y.state.last().section.sub_sections == b.state.last().section.sub_sections,
        (x.state.last().section.caption == a.state.last().section.caption
            && y.state.last().section.caption == b.state.last().section.caption) || (
        x.state.last().section.caption is Some && x.state.last().section.caption->0 is KV),
        x.state.last().section.headers == a.state.last().section.headers || (
        x.state.last().section.headers.len() == a.state.last().section.headers.len() + 1
            && x.state.last().section.headers.drop_last() == a.state.last().section.headers
            && x.state.last().section.headers.last() is KV),
        y.state.last().section.headers == b.state.last().section.headers || (
        y.state.last().section.headers.len() == b.state.last().section.headers.len() + 1
            && y.state.last().section.headers.drop_last() == b.state.last().section.headers),
    ensures
        states_placed(x, y),
{
    let la = a.lines;
    let lb = b.lines;
    let n = a.state.len();
    let old_a = a.state.last().section;
    let old_b = b.state.last().section;
    let new_a = x.state.last().section;
    let new_b = y.state.last().section;
    assert(section_placed(la, lb, a.state[n - 1].section, b.state[n - 1].section));
    assert(alike(x.state[n - 1].section, y.state[n - 1].section));
    assert forall|i: int| 0 <= i < new_a.headers.len() implies header_placed(
        la,
        lb,
        #[trigger] new_a.headers[i],
        new_b.headers[i],
    ) by {
        if i < old_a.headers.len() {
            if new_a.headers != old_a.headers {
                assert(new_a.headers[i] == new_a.headers.drop_last()[i]);
            }
            if new_b.headers != old_b.headers {
                assert(new_b.headers[i] == new_b.headers.drop_last()[i]);
            }
            assert(header_placed(la, lb, old_a.headers[i], old_b.headers[i]));
        }
    }
    assert(new_a.caption matches Some(h) ==> new_b.caption is Some && header_placed(
        la,
        lb,
        h,
        new_b.caption->0,
    ));
    lemma_placed_kept(la, lb, old_a, old_b, new_a, new_b);
    assert forall|i: int| 0 <= i < x.state.len() implies section_placed(
        la,
        lb,
        (#[trigger] x.state[i]).section,
        y.state[i].section,
    ) by {
        if i < n - 1 {
            assert(x.state[i] == a.state[i]);
            assert(y.state[i] == b.state[i]);
        }
    }
}

proof fn lemma_end_placed(a: StateModel, b: StateModel)
    requires
        states_placed(a, b),
    ensures
        steps_placed(a, b, a.end(), b.end()),
    decreases a.lines.len() - a.pos,
{
    lemma_end_step_alike(a, b);
    lemma_end_step(a);
    lemma_end_step(b);
    match a.end_step() {
        Ok(Some(x)) => {
            let y = b.end_step()->Ok_0->0;
            let target = crate::p11::laws::end_target(a)->0;
            lemma_same_scans(a.lines, b.lines, a.pos as int);
            let f = a.clean_content();
            assert(a.lines[f].text == b.lines[f].text);
            lemma_close_scope_placed(
                a.lines,
                b.lines,
                a.state,
                b.state,
                target,
                a.line_number,
                b.line_number,
                Seq::empty(),
                Seq::empty(),
            );
            lemma_end_placed(x, y);
        },
        _ => {},
    }
}

proof fn lemma_inline_headers_hold_no_section(
    lines: Seq<LineModel>,
    from: int,
    to: int,
    base: nat,
)
    ensures
        forall|i: int|
            0 <= i < inline_headers(lines, from, to, base).len() ==> (#[trigger] inline_headers(
                lines,
                from,
                to,
                base,
            )[i]) is KV,
    decreases to - from,
{
    if to > from {
        lemma_inline_headers_hold_no_section(lines, from, to - 1, base);
    }
}

proof fn lemma_reading_inline_headers_placed(a: StateModel, b: StateModel)
    requires
        states_placed(a, b),
    ensures
        steps_placed(a, b, a.reading_inline_headers(), b.reading_inline_headers()),
{
    lemma_reading_inline_headers_alike(a, b);
    lemma_reading_inline_headers(a);
    lemma_reading_inline_headers(b);
    match (a.reading_inline_headers(), b.reading_inline_headers()) {
        (Ok(x), Ok(y)) => {
            let la = a.lines;
            let lb = b.lines;
            let n = a.state.len();
            let old_a = a.state.last().section;
            let old_b = b.state.last().section;
            let new_a = x.state.last().section;
            let new_b = y.state.last().section;
            let q = first_from(a.lines, a.pos as int, stops_headers());
            let found = inline_headers(a.lines, a.pos as int, q, a.line_number);
            lemma_inline_headers_hold_no_section(a.lines, a.pos as int, q, a.line_number);
            assert(section_placed(la, lb, a.state[n - 1].section, b.state[n - 1].section));
            assert(alike(x.state[n - 1].section, y.state[n - 1].section));
            assert forall|i: int| 0 <= i < new_a.headers.len() implies header_placed(
                la,
                lb,
                #[trigger] new_a.headers[i],
                new_b.headers[i],
            ) by {
                if i < old_a.headers.len() {
                    assert(new_a.headers[i] == old_a.headers[i]);
                    assert(new_b.headers[i] == old_b.headers[i]);
                    assert(header_placed(la, lb, old_a.headers[i], old_b.headers[i]));
                } else {
                    assert(new_a.headers[i] == found[i - old_a.headers.len()]);
                }
            }
            lemma_placed_kept(la, lb, old_a, old_b, new_a, new_b);
            assert forall|i: int| 0 <= i < x.state.len() implies section_placed(
                la,
                lb,
                (#[trigger] x.state[i]).section,
                y.state[i].section,
            ) by {
                if i < n - 1 {
                    assert(x.state[i] == a.state[i]);
                    assert(y.state[i] == b.state[i]);
                }
            }
        },
        _ => {},
    }
}

proof fn lemma_reading_section_placed(a: StateModel, b: StateModel)
    requires
        states_placed(a, b),
    ensures
        steps_placed(a, b, a.reading_section(), b.reading_section()),
{
    lemma_reading_section_alike(a, b);
    lemma_same_scans(a.lines, b.lines, a.pos as int);
    lemma_first_from(a.lines, a.pos as int, inked_line());
    lemma_reading_section(a);
    lemma_reading_section(b);
    let f = a.clean_content();
    match (a.reading_section(), b.reading_section()) {
        (Ok(x), Ok(y)) => {
            assert(a.lines[f].text == b.lines[f].text);
            let opened_a = StateModel {
                state: a.state.push(
                    FrameModel {
                        section: SectionModel { headers: Seq::empty(), ..x.state.last().section },
                        readings: seq![ReadingModel::Section],
                    },
                ),
                pos: (f + 1) as nat,
                line_number: a.lines[f].number,
                ..a
            };
            let opened_b = StateModel {
                state: b.state.push(
                    FrameModel {
                        section: SectionModel { headers: Seq::empty(), ..y.state.last().section },
                        readings: seq![ReadingModel::Section],
                    },
                ),
                pos: (f + 1) as nat,
                line_number: b.lines[f].number,
                ..b
            };
            lemma_reading_inline_headers(opened_a);
            lemma_reading_inline_headers(opened_b);
            assert(opened_a.reading_inline_headers() == Ok::<StateModel, ErrorModel>(x));
            assert(opened_b.reading_inline_headers() == Ok::<StateModel, ErrorModel>(y));
            let section_a = opened_a.state.last().section;
            let section_b = opened_b.state.last().section;
            assert(placed(a.lines, b.lines, section_a.line_number, section_b.line_number)) by {
                assert(a.lines[f].number == section_a.line_number);
                assert(b.lines[f].number == section_b.line_number);
            }
            assert(section_a.caption matches Some(h) ==> h is KV && section_b.caption is Some);
            assert(section_a.sub_sections.len() == 0 && section_b.sub_sections.len() == 0);
            assert(section_a.headers.len() == 0 && section_b.headers.len() == 0);
            assert(section_a.caption matches Some(h) ==> header_placed(
                a.lines,
                b.lines,
                h,
                section_b.caption->0,
            ));
            assert(placed(a.lines, b.lines, section_a.line_number, section_b.line_number));
            assert(section_placed(a.lines, b.lines, section_a, section_b));
            assert(opened_a.wf());
            assert(opened_b.wf());
            assert(alike_states(opened_a, opened_b)) by {
                assert(alike(section_a, section_b)) by {
                    assert(alike(x.state.last().section, y.state.last().section)) by {
                        assert(alike(
                            x.state[x.state.len() - 1].section,
                            y.state[x.state.len() - 1].section,
                        ));
                    }
                }
                assert forall|i: int| 0 <= i < opened_a.state.len() implies alike(
                    (#[trigger] opened_a.state[i]).section,
                    opened_b.state[i].section,
                ) && opened_a.state[i].readings == opened_b.state[i].readings by {
                    if i < a.state.len() {
                        assert(opened_a.state[i] == a.state[i]);
                        assert(opened_b.state[i] == b.state[i]);
                    }
                }
            }
            assert(frames_placed(a.lines, b.lines, opened_a.state, opened_b.state)) by {
                assert forall|i: int| 0 <= i < opened_a.state.len() implies section_placed(
                    a.lines,
                    b.lines,
                    (#[trigger] opened_a.state[i]).section,
                    opened_b.state[i].section,
                ) by {
                    if i < a.state.len() {
                        assert(opened_a.state[i] == a.state[i]);
                        assert(opened_b.state[i] == b.state[i]);
                    }
                }
            }
            lemma_reading_inline_headers_placed(opened_a, opened_b);
        },
        _ => {},
    }
}

#[verifier::rlimit(60)]
proof fn lemma_dispatch_placed(a: StateModel, b: StateModel)
    requires
        states_placed(a, b),
        a.pos < a.lines.len(),
    ensures
        steps_placed(a, b, a.dispatch(), b.dispatch()),
{
    lemma_dispatch_alike(a, b);
    lemma_dispatch(a);
    lemma_dispatch(b);
    lemma_same_scans(a.lines, b.lines, a.pos as int);
    lemma_first_from(a.lines, a.pos as int, inked_line());
    lemma_after_block(a);
    lemma_after_block(b);
    if a.state.len() > 0 {
        assert(a.state[a.state.len() - 1].readings == b.state[a.state.len() - 1].readings);
    }
    assert(a.latest() == b.latest());
    let f = a.clean_content();
    let opens = 0 <= f < a.lines.len() && crate::p11::syntax::opens_section(
        crate::text::trim(a.lines[f].text),
    );
    if f < a.lines.len() {
        assert(a.lines[f].text == b.lines[f].text);
    }
    match a.latest() {
        None => lemma_reading_section_placed(a, b),
        Some(ReadingModel::Subsection) => lemma_reading_section_placed(a, b),
        Some(ReadingModel::Header { key, kind }) if opens => lemma_reading_section_placed(a, b),
        _ => {
            match (a.dispatch(), b.dispatch()) {
                (Ok(x), Ok(y)) => {
                    assert(x.state == a.state.drop_last().push(x.state.last()));
                    assert(y.state == b.state.drop_last().push(y.state.last()));
                    let old_a = a.state.last().section;
                    let old_b = b.state.last().section;
                    let new_a = x.state.last().section;
                    let new_b = y.state.last().section;
                    if new_a.headers != old_a.headers {
                        assert(new_a.headers == old_a.headers.push(new_a.headers.last()));
                        assert(new_a.headers.drop_last() == old_a.headers);
                    }
                    if new_b.headers != old_b.headers {
                        assert(new_b.headers == old_b.headers.push(new_b.headers.last()));
                        assert(new_b.headers.drop_last() == old_b.headers);
                    }
                    lemma_top_changed_placed(a, b, x, y);
                },
                _ => {},
            }
        },
    }
}

proof fn lemma_run_placed(a: StateModel, b: StateModel)
    requires
        states_placed(a, b),
    ensures
        a.run() matches Ok(x) ==> b.run() is Ok && all_placed(a.lines, b.lines, x, b.run()->Ok_0),
    decreases a.lines.len() - a.pos, a.rank(),
{
    lemma_next(a);
    lemma_next(b);
    lemma_end(a);
    lemma_end(b);
    lemma_end_alike(a, b);
    lemma_end_placed(a, b);
    lemma_run_alike(a, b);
    match (a.end(), b.end()) {
        (Ok(x), Ok(y)) => {
            if x.pos >= x.lines.len() {
                let done_a = x.drained();
                let done_b = y.drained();
                assert forall|i: int| 0 <= i < done_a.sections.len() implies section_placed(
                    a.lines,
                    b.lines,
                    #[trigger] done_a.sections[i],
                    done_b.sections[i],
                ) by {
                    let n = x.sections.len();
                    if i < n {
                        assert(done_a.sections[i] == x.sections[i]);
                        assert(done_b.sections[i] == y.sections[i]);
                    } else {
                        assert(done_a.sections[i] == x.state[i - n].section);
                        assert(done_b.sections[i] == y.state[i - n].section);
                    }
                }
            } else {
                lemma_dispatch_alike(x, y);
                lemma_dispatch_placed(x, y);
                lemma_dispatch(x);
                match (x.dispatch(), y.dispatch()) {
                    (Ok(t), Ok(u)) => {
                        lemma_run_placed(t, u);
                    },
                    _ => {},
                }
            }
        },
        _ => {},
    }
}

/// Comments do not move a section to another line. Of two documents whose
/// lines, comments left out, are the same, every section of the one parse
/// stands, at every depth, on the line on which its counterpart of the other
/// parse stands: their line numbers are the two numbers of one line.
pub proof fn lemma_sections_keep_their_lines(a: Seq<char>, b: Seq<char>, doc_id: Seq<char>)
    requires
        uncommented(a) == uncommented(b),
    ensures
        parsed(a, doc_id) matches Ok(x) ==> parsed(b, doc_id) is Ok && all_placed(
            significant_lines(a),
            significant_lines(b),
            x,
            parsed(b, doc_id)->Ok_0,
        ),
{
    lemma_same_significant_lines(a, b);
    lemma_significant_lines(a);
    lemma_significant_lines(b);
    lemma_run_placed(StateModel::start(a, doc_id), StateModel::start(b, doc_id));
}

/// The number of a line after a line has been put in as line `k`: one more
/// for the lines from `k` on.
pub open spec fn shift(n: nat, k: nat) -> nat {
    if n >= k {
        n + 1
    } else {
        n
    }
}

/// Whether the sections in the value of `b` stand where those of `a` stand
/// after a line has been put in as line `k`.
pub open spec fn header_moved(a: HeaderModel, b: HeaderModel, k: nat) -> bool
    decreases a,
{
    match a {
        HeaderModel::KV { .. } => true,
        HeaderModel::Section { section, .. } => {
            &&& b is Section
            &&& b->Section_section.len() == section.len()
            &&& forall|i: int|
                0 <= i < section.len() ==> moved(#[trigger] section[i], b->Section_section[i], k)
        },
    }
}

/// Whether `b` stands where `a` stands after a line has been put in as
/// line `k`, and so for the sections below them and in their headers: the
/// line number of each is that of its counterpart, and one more from line `k`
/// on.
pub open spec fn moved(a: SectionModel, b: SectionModel, k: nat) -> bool
    decreases a,
{
    &&& b.line_number == shift(a.line_number, k)
    &&& a.sub_sections.len() == b.sub_sections.len()
    &&& forall|i: int|
        0 <= i < a.sub_sections.len() ==> moved(#[trigger] a.sub_sections[i], b.sub_sections[i], k)
    &&& a.headers.len() == b.headers.len()
    &&& forall|i: int|
        0 <= i < a.headers.len() ==> header_moved(#[trigger] a.headers[i], b.headers[i], k)
    &&& a.caption matches Some(h) ==> b.caption is Some && header_moved(h, b.caption->0, k)
}

/// Whether the sections of `b` stand where those of `a` stand after a line
/// has been put in as line `k`.
pub open spec fn all_moved(a: Seq<SectionModel>, b: Seq<SectionModel>, k: nat) -> bool {
    &&& a.len() == b.len()
    &&& forall|i: int| 0 <= i < a.len() ==> moved(#[trigger] a[i], b[i], k)
}

/// Whether every line of `lb` has the number of its counterpart in `la`
/// after a line has been put in as line `k`.
pub open spec fn lines_shifted(la: Seq<LineModel>, lb: Seq<LineModel>, k: nat) -> bool {
    &&& la.len() == lb.len()
    &&& forall|i: int| 0 <= i < la.len() ==> (#[trigger] lb[i]).number == shift(la[i].number, k)
}

proof fn lemma_header_placed_moved(
    la: Seq<LineModel>,
    lb: Seq<LineModel>,
    a: HeaderModel,
    b: HeaderModel,
    k: nat,
)
    requires
        lines_shifted(la, lb, k),
        header_placed(la, lb, a, b),
    ensures
        header_moved(a, b, k),
    decreases a,
{
    match a {
        HeaderModel::Section { section, .. } => {
            assert forall|i: int| 0 <= i < section.len() implies moved(
                #[trigger] section[i],
                b->Section_section[i],
                k,
            ) by {
                lemma_placed_moved(la, lb, section[i], b->Section_section[i], k);
            }
        },
        _ => {},
    }
}

/// Sections on the same lines of two documents whose line numbers differ by
/// a line put in as line `k` stand where `moved` says.
pub proof fn lemma_placed_moved(
    la: Seq<LineModel>,
    lb: Seq<LineModel>,
    a: SectionModel,
    b: SectionModel,
    k: nat,
)
    requires
        lines_shifted(la, lb, k),
        section_placed(la, lb, a, b),
    ensures
        moved(a, b, k),
    decreases a,
{
    let i = choose|i: int|
        0 <= i < la.len() && i < lb.len() && (#[trigger] la[i]).number == a.line_number
            && lb[i].number == b.line_number;
    assert(lb[i].number == shift(la[i].number, k));
    assert forall|j: int| 0 <= j < a.sub_sections.len() implies moved(
        #[trigger] a.sub_sections[j],
        b.sub_sections[j],
        k,
    ) by {
        lemma_placed_moved(la, lb, a.sub_sections[j], b.sub_sections[j], k);
    }
    assert forall|j: int| 0 <= j < a.headers.len() implies header_moved(
        #[trigger] a.headers[j],
        b.headers[j],
        k,
    ) by {
        lemma_header_placed_moved(la, lb, a.headers[j], b.headers[j], k);
    }
    match a.caption {
        Some(h) => {
            lemma_header_placed_moved(la, lb, h, b.caption->0, k);
        },
        None => {},
    }
}

/// The lines that are not comments of lines put one after the other: those
/// of the first, and those of the second with their numbers raised by the
/// count of the first.
proof fn lemma_numbered_append(x: Seq<Seq<char>>, y: Seq<Seq<char>>)
    ensures
        numbered(x + y).len() == numbered(x).len() + numbered(y).len(),
        forall|i: int| 0 <= i < numbered(x).len() ==> numbered(x + y)[i] == #[trigger] numbered(x)[i],
        forall|j: int|
            0 <= j < numbered(y).len() ==> numbered(x + y)[numbered(x).len() + j] == (LineModel {
                text: (#[trigger] numbered(y)[j]).text,
                number: numbered(y)[j].number + x.len(),
            }),
    decreases y.len(),
{
    if y.len() == 0 {
        assert(x + y == x);
    } else {
        assert((x + y).drop_last() == x + y.drop_last());
        assert((x + y).last() == y.last());
        lemma_numbered_append(x, y.drop_last());
    }
}

/// A comment line put in after `head` raises the numbers of the lines of
/// `tail` by one and leaves everything else.
pub proof fn lemma_inserted_numbers(head: Seq<Seq<char>>, comment: Seq<char>, tail: Seq<Seq<char>>)
    requires
        is_comment(comment),
    ensures
        texts_of(numbered(head + seq![comment] + tail)) == texts_of(numbered(head + tail)),
        lines_shifted(
            numbered(head + tail),
            numbered(head + seq![comment] + tail),
            (head.len() + 1) as nat,
        ),
{
    let with = head + seq![comment] + tail;
    let without = head + tail;
    assert(with == head + (seq![comment] + tail));
    lemma_numbered_append(head, seq![comment] + tail);
    lemma_numbered_append(seq![comment], tail);
    lemma_numbered_append(head, tail);
    lemma_numbered_comment(comment);
    assert(numbered(seq![comment]).len() == 0) by {
        assert(texts_of(numbered(seq![comment])).len() == numbered(seq![comment]).len());
    }
    crate::p11::line::lemma_numbered(head);
    crate::p11::line::lemma_numbered(tail);
    let nh = numbered(head).len() as int;
    let k = (head.len() + 1) as nat;
    let a = numbered(without);
    let b = numbered(with);
    assert(a.len() == b.len());
    assert forall|i: int| 0 <= i < a.len() implies (#[trigger] b[i]).number == shift(a[i].number, k)
        && b[i].text == a[i].text by {
        if i < nh {
            assert(a[i] == numbered(head)[i]);
            assert(b[i] == numbered(head)[i]);
        } else {
            let j = i - nh;
            let t = numbered(tail)[j];
            assert(a[nh + j].number == t.number + head.len());
            let u = numbered(seq![comment] + tail)[j];
            assert(numbered(seq![comment] + tail)[0 + j].number == t.number + 1);
            assert(b[nh + j].number == u.number + head.len());
            assert(b[nh + j].text == u.text);
            assert(numbered(seq![comment] + tail)[0 + j].text == t.text);
        }
    }
    assert(texts_of(b) == texts_of(a));
}

/// The lines that the parser reads carry the numbers of the lines that are
/// not comments.
pub proof fn lemma_significant_numbers(content: Seq<char>)
    ensures
        significant_lines(content).len() <= numbered(split_lines(content)).len(),
        forall|i: int|
            0 <= i < significant_lines(content).len() ==> (#[trigger] significant_lines(
                content,
            )[i]).number == numbered(split_lines(content))[i].number,
{
    let all = numbered(split_lines(content));
    lemma_last_before(all, all.len() as int, inked_line());
    let kept = without_blank_tail(all);
    assert forall|i: int| 0 <= i < significant_lines(content).len() implies (
    #[trigger] significant_lines(content)[i]).number == all[i].number by {
        assert(kept[i] == all[i]);
    }
}

} // verus!
