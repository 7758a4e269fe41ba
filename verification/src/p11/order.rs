//! The order of what is parsed.
//!
//! Sections come out in the order of their lines, at every depth, and the
//! headers of a section in the order in which they were read.

use crate::p11::line::{inked_line, lemma_significant_lines};
use crate::p11::machine::{
    close_scope, inline_headers, intro_line, lemma_after_block, lemma_end, lemma_end_step,
    lemma_next, lemma_reading_inline_headers, lemma_reading_section, parsed, stops_headers,
    FrameModel, ReadingModel, StateModel,
};
use crate::p11::section::{HeaderModel, SectionModel};
use crate::text::{first_from, lemma_first_from};
use vstd::prelude::*;

verus! {

/// The line number that a header carries.
pub open spec fn header_line(h: HeaderModel) -> nat {
    match h {
        HeaderModel::KV { line_number, .. } => line_number,
        HeaderModel::Section { line_number, .. } => line_number,
    }
}

/// The line numbers of the sections rise strictly.
pub open spec fn rising(sections: Seq<SectionModel>) -> bool {
    forall|i: int, j: int|
        0 <= i < j < sections.len() ==> (#[trigger] sections[i]).line_number < (
        #[trigger] sections[j]).line_number
}

/// The line numbers of the headers do not fall.
pub open spec fn not_falling(headers: Seq<HeaderModel>) -> bool {
    forall|i: int, j: int|
        0 <= i < j < headers.len() ==> header_line(#[trigger] headers[i]) <= header_line(
            #[trigger] headers[j],
        )
}

/// The sections in the value of the header are in order, at every depth.
pub open spec fn header_ordered(h: HeaderModel) -> bool
    decreases h,
{
    match h {
        HeaderModel::KV { .. } => true,
        HeaderModel::Section { section, .. } => rising(section) && forall|i: int|
            0 <= i < section.len() ==> ordered(#[trigger] section[i]),
    }
}

/// The sections below `s` are in the order of their lines and its headers
/// in the order in which they were read, at every depth.
pub open spec fn ordered(s: SectionModel) -> bool
    decreases s,
{
    &&& rising(s.sub_sections)
    &&& forall|i: int| 0 <= i < s.sub_sections.len() ==> ordered(#[trigger] s.sub_sections[i])
    &&& not_falling(s.headers)
    &&& forall|i: int| 0 <= i < s.headers.len() ==> header_ordered(#[trigger] s.headers[i])
    &&& s.caption matches Some(h) ==> header_ordered(h)
}

/// Whether every section of the list is in order.
pub open spec fn all_ordered(sections: Seq<SectionModel>) -> bool {
    forall|i: int| 0 <= i < sections.len() ==> ordered(#[trigger] sections[i])
}

/// What holds of an open section while the parser runs: it is in order,
/// nothing in it lies beyond the lines read so far, and as long as its headers
/// are being read it has no sections below it.
pub open spec fn frame_ordered(frame: FrameModel, line_number: nat) -> bool {
    &&& ordered(frame.section)
    &&& frame.section.line_number <= line_number
    &&& forall|i: int|
        0 <= i < frame.section.headers.len() ==> header_line(#[trigger] frame.section.headers[i])
            <= line_number
    &&& forall|j: int| 0 < j < frame.readings.len() ==> !((#[trigger] frame.readings[j]) is Section)
    &&& frame.readings.len() > 0 && frame.readings[0] is Section
        ==> frame.section.sub_sections.len() == 0
}

/// The line numbers of the open sections rise strictly from the bottom of
/// the stack to its top.
pub open spec fn frames_rising(state: Seq<FrameModel>) -> bool {
    forall|i: int, j: int|
        0 <= i < j < state.len() ==> (#[trigger] state[i]).section.line_number < (
        #[trigger] state[j]).section.line_number
}

/// Whether the open sections are in order, among themselves and each in
/// itself.
pub open spec fn frames_ordered(state: Seq<FrameModel>, line_number: nat) -> bool {
    &&& frames_rising(state)
    &&& forall|i: int| 0 <= i < state.len() ==> frame_ordered(#[trigger] state[i], line_number)
}

/// Whether the state is one of a parse in which everything is in order.
pub open spec fn state_ordered(s: StateModel) -> bool {
    &&& s.wf()
    &&& s.sections.len() == 0
    &&& frames_ordered(s.state, s.line_number)
}

/// The sections taken off the stack so far, latest first: their lines fall,
/// and all lie after the line of the section on top of what is left.
pub open spec fn collected_ordered(state: Seq<FrameModel>, collected: Seq<SectionModel>) -> bool {
    &&& all_ordered(collected)
    &&& forall|i: int, j: int|
        0 <= i < j < collected.len() ==> (#[trigger] collected[i]).line_number > (
        #[trigger] collected[j]).line_number
    &&& forall|i: int, k: int|
        0 <= i < state.len() && 0 <= k < collected.len() ==> (#[trigger] state[i]).section.line_number
            < (#[trigger] collected[k]).line_number
}

proof fn lemma_frames_later(state: Seq<FrameModel>, from: nat, to: nat)
    requires
        frames_ordered(state, from),
        from <= to,
    ensures
        frames_ordered(state, to),
{
    assert forall|i: int| 0 <= i < state.len() implies frame_ordered(#[trigger] state[i], to) by {
        assert(frame_ordered(state[i], from));
    }
}

proof fn lemma_close_scope_ordered(
    state: Seq<FrameModel>,
    target: Seq<char>,
    line_number: nat,
    collected: Seq<SectionModel>,
)
    requires
        frames_ordered(state, line_number),
        collected_ordered(state, collected),
    ensures
        close_scope(state, target, line_number, collected) matches Some(closed) ==> frames_ordered(
            closed,
            line_number,
        ),
    decreases state.len(),
        (if state.len() > 0 {
            state.last().readings.len()
        } else {
            0
        }),
{
    if state.len() > 0 {
        let top = state.last();
        let below = state.drop_last();
        assert(frame_ordered(state[state.len() - 1], line_number));
        assert forall|i: int| 0 <= i < below.len() implies frame_ordered(
            #[trigger] below[i],
            line_number,
        ) by {
            assert(below[i] == state[i]);
        }
        assert(frames_rising(below)) by {
            assert forall|i: int, j: int| 0 <= i < j < below.len() implies (
            #[trigger] below[i]).section.line_number < (#[trigger] below[j]).section.line_number by {
                assert(below[i] == state[i] && below[j] == state[j]);
            }
        }
        if top.readings.len() == 0 {
            let more = collected.push(top.section);
            assert(collected_ordered(below, more)) by {
                assert forall|i: int| 0 <= i < more.len() implies ordered(#[trigger] more[i]) by {
                    if i < collected.len() {
                        assert(more[i] == collected[i]);
                    }
                }
                assert forall|i: int, j: int| 0 <= i < j < more.len() implies (
                #[trigger] more[i]).line_number > (#[trigger] more[j]).line_number by {
                    assert(more[i] == collected[i]);
                    if j < collected.len() {
                        assert(more[j] == collected[j]);
                    } else {
                        assert(state[state.len() - 1].section == more[j]);
                    }
                }
                assert forall|i: int, k: int| 0 <= i < below.len() && 0 <= k < more.len() implies (
                #[trigger] below[i]).section.line_number < (#[trigger] more[k]).line_number by {
                    assert(below[i] == state[i]);
                    if k < collected.len() {
                        assert(more[k] == collected[k]);
                    } else {
                        assert(state[state.len() - 1].section == more[k]);
                    }
                }
            }
            lemma_close_scope_ordered(below, target, line_number, more);
        } else {
            let rest = top.readings.drop_last();
            let shorter = FrameModel { section: top.section, readings: rest };
            let next = below.push(shorter);
            assert(frame_ordered(shorter, line_number)) by {
                assert forall|j: int| 0 < j < rest.len() implies !((#[trigger] rest[j]) is Section) by {
                    assert(rest[j] == top.readings[j]);
                }
                if rest.len() > 0 {
                    assert(rest[0] == top.readings[0]);
                }
            }
            assert(frames_ordered(next, line_number)) by {
                assert forall|i: int| 0 <= i < next.len() implies frame_ordered(
                    #[trigger] next[i],
                    line_number,
                ) by {
                    if i < below.len() {
                        assert(next[i] == below[i]);
                    }
                }
                assert forall|i: int, j: int| 0 <= i < j < next.len() implies (
                #[trigger] next[i]).section.line_number < (#[trigger] next[j]).section.line_number by {
                    assert(next[i].section == state[i].section);
                    assert(next[j].section == state[j].section);
                }
            }
            assert(collected_ordered(next, collected)) by {
                assert forall|i: int, k: int|
                    0 <= i < next.len() && 0 <= k < collected.len() implies (
                #[trigger] next[i]).section.line_number < (#[trigger] collected[k]).line_number by {
                    assert(next[i].section == state[i].section);
                }
            }
            let turned = collected.reverse();
            assert(rising(turned) && all_ordered(turned)) by {
                assert forall|i: int| 0 <= i < turned.len() implies ordered(#[trigger] turned[i]) by {
                    assert(turned[i] == collected[collected.len() - 1 - i]);
                }
                assert forall|i: int, j: int| 0 <= i < j < turned.len() implies (
                #[trigger] turned[i]).line_number < (#[trigger] turned[j]).line_number by {
                    assert(turned[i] == collected[collected.len() - 1 - i]);
                    assert(turned[j] == collected[collected.len() - 1 - j]);
                }
            }
            let matched = match top.readings.last() {
                ReadingModel::Section => target == top.section.name,
                ReadingModel::Header { key, .. } => target == top.section.name + seq!['.'] + key,
                _ => false,
            };
            if matched {
                let closed = close_scope(state, target, line_number, collected)->0;
                let section = closed.last().section;
                match top.readings.last() {
                    ReadingModel::Section => {
                        assert(top.readings.len() == 1) by {
                            if top.readings.len() > 1 {
                                assert(!(top.readings[top.readings.len() - 1] is Section));
                            }
                        }
                        assert(top.section.sub_sections.len() == 0);
                        assert(section.sub_sections == turned);
                        assert(ordered(section));
                    },
                    ReadingModel::Header { key, kind } => {
                        let header = HeaderModel::Section {
                            line_number,
                            key,
                            kind,
                            section: turned,
                        };
                        assert(header_ordered(header));
                        let grown = top.section.headers.push(header);
                        assert(section.headers == grown);
                        assert forall|i: int| 0 <= i < grown.len() implies header_ordered(
                            #[trigger] grown[i],
                        ) && header_line(grown[i]) <= line_number by {
                            if i < top.section.headers.len() {
                                assert(grown[i] == top.section.headers[i]);
                            }
                        }
                        assert(not_falling(grown)) by {
                            assert forall|i: int, j: int| 0 <= i < j < grown.len() implies header_line(
                                #[trigger] grown[i],
                            ) <= header_line(#[trigger] grown[j]) by {
                                assert(grown[i] == top.section.headers[i]);
                                if j < top.section.headers.len() {
                                    assert(grown[j] == top.section.headers[j]);
                                }
                            }
                        }
                        assert(ordered(section));
                    },
                    _ => {},
                }
                assert(frame_ordered(closed.last(), line_number)) by {
                    assert forall|j: int| 0 < j < rest.len() implies !((#[trigger] rest[j]) is Section) by {
                        assert(rest[j] == top.readings[j]);
                    }
                    if rest.len() > 0 {
                        assert(rest[0] == top.readings[0]);
                        if top.readings.last() is Section {
                            assert(top.readings.len() == 1);
                        }
                    }
                }
                assert(frames_ordered(closed, line_number)) by {
                    assert forall|i: int| 0 <= i < closed.len() implies frame_ordered(
                        #[trigger] closed[i],
                        line_number,
                    ) by {
                        if i < below.len() {
                            assert(closed[i] == below[i]);
                        }
                    }
                    assert forall|i: int, j: int| 0 <= i < j < closed.len() implies (
                    #[trigger] closed[i]).section.line_number < (
                    #[trigger] closed[j]).section.line_number by {
                        assert(closed[i].section.line_number == state[i].section.line_number);
                        assert(closed[j].section.line_number == state[j].section.line_number);
                    }
                }
            } else {
                lemma_close_scope_ordered(next, target, line_number, collected);
            }
        }
    }
}

proof fn lemma_end_step_ordered(s: StateModel)
    requires
        state_ordered(s),
    ensures
        s.end_step() matches Ok(Some(t)) ==> state_ordered(t),
{
    lemma_end_step(s);
    match s.end_step() {
        Ok(Some(t)) => {
            let target = crate::p11::laws::end_target(s)->0;
            lemma_close_scope_ordered(s.state, target, s.line_number, Seq::empty());
            lemma_frames_later(t.state, s.line_number, t.line_number);
        },
        _ => {},
    }
}

proof fn lemma_end_ordered(s: StateModel)
    requires
        state_ordered(s),
    ensures
        s.end() matches Ok(t) ==> state_ordered(t),
    decreases s.lines.len() - s.pos,
{
    lemma_end_step(s);
    lemma_end_step_ordered(s);
    match s.end_step() {
        Ok(Some(t)) => {
            lemma_end_ordered(t);
        },
        _ => {},
    }
}

/// The headers that stand one per line carry the distance of their line
/// from the first line after `base`.
proof fn lemma_inline_headers_lines(
    lines: Seq<crate::p11::line::LineModel>,
    from: int,
    to: int,
    base: nat,
)
    requires
        0 <= from <= to <= lines.len(),
    ensures
        inline_headers(lines, from, to, base).len() == to - from,
        forall|i: int|
            0 <= i < to - from ==> (#[trigger] inline_headers(lines, from, to, base)[i]) is KV
                && header_line(inline_headers(lines, from, to, base)[i]) == (lines[from
                + i].number - 1 - base) as nat,
    decreases to - from,
{
    if to > from {
        lemma_inline_headers_lines(lines, from, to - 1, base);
    }
}

proof fn lemma_with_top_ordered(s: StateModel, frame: FrameModel)
    requires
        frames_ordered(s.state, s.line_number),
        s.state.len() > 0,
        frame_ordered(frame, s.line_number),
        frame.section.line_number == s.state.last().section.line_number,
    ensures
        frames_ordered(s.with_top(frame).state, s.line_number),
{
    let after = s.with_top(frame).state;
    assert forall|i: int| 0 <= i < after.len() implies frame_ordered(
        #[trigger] after[i],
        s.line_number,
    ) by {
        if i < s.state.len() - 1 {
            assert(after[i] == s.state[i]);
        }
    }
    assert forall|i: int, j: int| 0 <= i < j < after.len() implies (
    #[trigger] after[i]).section.line_number < (#[trigger] after[j]).section.line_number by {
        assert(after[i].section.line_number == s.state[i].section.line_number);
        assert(after[j].section.line_number == s.state[j].section.line_number);
    }
}

/// An open section in order stays in order when a header is added whose
/// line is no earlier than those of its headers.
proof fn lemma_pushed_ordered(frame: FrameModel, h: HeaderModel, from: nat, to: nat)
    requires
        frame_ordered(frame, from),
        from <= header_line(h) <= to,
        h is KV,
    ensures
        not_falling(frame.section.headers.push(h)),
        forall|i: int|
            0 <= i < frame.section.headers.push(h).len() ==> header_ordered(
                #[trigger] frame.section.headers.push(h)[i],
            ) && header_line(frame.section.headers.push(h)[i]) <= to,
{
    let grown = frame.section.headers.push(h);
    assert forall|i: int| 0 <= i < grown.len() implies header_ordered(#[trigger] grown[i])
        && header_line(grown[i]) <= to by {
        if i < frame.section.headers.len() {
            assert(grown[i] == frame.section.headers[i]);
        }
    }
    assert forall|i: int, j: int| 0 <= i < j < grown.len() implies header_line(#[trigger] grown[i])
        <= header_line(#[trigger] grown[j]) by {
        assert(grown[i] == frame.section.headers[i]);
        if j < frame.section.headers.len() {
            assert(grown[j] == frame.section.headers[j]);
        }
    }
}

proof fn lemma_reading_section_ordered(s: StateModel)
    requires
        state_ordered(s),
    ensures
        s.reading_section() matches Ok(t) ==> state_ordered(t),
{
    lemma_reading_section(s);
    lemma_first_from(s.lines, s.pos as int, inked_line());
    match s.reading_section() {
        Ok(t) => {
            let f = s.clean_content();
            let number = s.lines[f].number;
            assert(s.lines[s.pos as int].number <= number);
            let opened = StateModel {
                state: s.state.push(
                    FrameModel {
                        section: SectionModel { headers: Seq::empty(), ..t.state.last().section },
                        readings: seq![ReadingModel::Section],
                    },
                ),
                pos: (f + 1) as nat,
                line_number: number,
                ..s
            };
            assert(opened.wf());
            lemma_reading_inline_headers(opened);
            assert(opened.reading_inline_headers() == Ok::<StateModel, crate::error::ErrorModel>(t));
            let q = first_from(opened.lines, opened.pos as int, stops_headers());
            lemma_first_from(opened.lines, opened.pos as int, stops_headers());
            let found = inline_headers(opened.lines, opened.pos as int, q, opened.line_number);
            lemma_inline_headers_lines(opened.lines, opened.pos as int, q, opened.line_number);
            let section = t.state.last().section;
            assert(section.headers == found);
            assert(not_falling(found)) by {
                assert forall|i: int, j: int| 0 <= i < j < found.len() implies header_line(
                    #[trigger] found[i],
                ) <= header_line(#[trigger] found[j]) by {
                    assert(opened.lines[opened.pos + i].number < opened.lines[opened.pos
                        + j].number);
                }
            }
            assert forall|i: int| 0 <= i < found.len() implies header_ordered(#[trigger] found[i])
                && header_line(found[i]) <= t.line_number by {
                if q < opened.lines.len() {
                    assert(opened.lines[opened.pos + i].number < opened.lines[q].number);
                } else {
                    assert(opened.lines[opened.pos + i].number <= opened.total);
                }
            }
            assert(section.sub_sections.len() == 0);
            assert(section.caption matches Some(h) ==> header_ordered(h));
            assert(rising(section.sub_sections));
            assert(not_falling(section.headers));
            assert(forall|i: int|
                0 <= i < section.headers.len() ==> header_ordered(#[trigger] section.headers[i]));
            assert(ordered(section));
            assert(frame_ordered(t.state.last(), t.line_number));
            lemma_frames_later(s.state, s.line_number, t.line_number);
            assert(frames_ordered(t.state, t.line_number)) by {
                assert forall|i: int| 0 <= i < t.state.len() implies frame_ordered(
                    #[trigger] t.state[i],
                    t.line_number,
                ) by {
                    if i < s.state.len() {
                        assert(t.state[i] == s.state[i]);
                    }
                }
                assert forall|i: int, j: int| 0 <= i < j < t.state.len() implies (
                #[trigger] t.state[i]).section.line_number < (
                #[trigger] t.state[j]).section.line_number by {
                    assert(t.state[i] == s.state[i]);
                    if j < s.state.len() {
                        assert(t.state[j] == s.state[j]);
                    } else {
                        assert(frame_ordered(s.state[i], s.line_number));
                    }
                }
            }
        },
        Err(_) => {},
    }
}

proof fn lemma_reading_block_headers_ordered(s: StateModel)
    requires
        state_ordered(s),
        s.pos < s.lines.len(),
        s.latest() == Some(ReadingModel::Section),
    ensures
        s.reading_block_headers() matches Ok(t) ==> state_ordered(t),
{
    lemma_first_from(s.lines, s.pos as int, inked_line());
    match s.reading_block_headers() {
        Ok(t) => {
            let top = s.state.last();
            assert(frame_ordered(s.state[s.state.len() - 1], s.line_number));
            let after = t.state.last();
            assert(t.state == s.state.drop_last().push(after));
            let f = s.clean_content();
            assert(s.lines[s.pos as int].number <= s.lines[f].number);
            if after.section.headers != top.section.headers {
                let h = after.section.headers.last();
                assert(after.section.headers == top.section.headers.push(h));
                lemma_pushed_ordered(top, h, s.line_number, t.line_number);
            }
            assert(frame_ordered(after, t.line_number)) by {
                assert(frame_ordered(top, s.line_number));
                if after.readings != top.readings {
                    assert(after.readings == top.readings.push(after.readings.last()));
                    assert forall|j: int| 0 < j < after.readings.len() implies !((
                    #[trigger] after.readings[j]) is Section) by {
                        if j < top.readings.len() {
                            assert(after.readings[j] == top.readings[j]);
                        }
                    }
                    assert(after.readings[0] == top.readings[0]);
                }
                assert forall|i: int| 0 <= i < after.section.headers.len() implies header_line(
                    #[trigger] after.section.headers[i],
                ) <= t.line_number by {
                    if after.section.headers == top.section.headers {
                        assert(header_line(top.section.headers[i]) <= s.line_number);
                    }
                }
            }
            lemma_frames_later(s.state, s.line_number, t.line_number);
            let moved = StateModel { line_number: t.line_number, pos: t.pos, ..s };
            lemma_with_top_ordered(moved, after);
        },
        Err(_) => {},
    }
}

/// What the three readings of a block have in common: lines are read, the
/// top reading goes, and the section on top changes in its headers, its
/// caption or its body.
proof fn lemma_block_read_ordered(s: StateModel, t: StateModel)
    requires
        state_ordered(s),
        s.pos < s.lines.len(),
        s.state.len() > 0,
        s.state.last().readings.len() > 0,
        t.wf(),
        t.sections == s.sections,
        t.line_number == s.after_block().line_number,
        t.state.len() == s.state.len(),
        t.state == s.state.drop_last().push(t.state.last()),
        t.state.last().section.line_number == s.state.last().section.line_number,
        t.state.last().section.sub_sections == s.state.last().section.sub_sections,
        t.state.last().section.caption == s.state.last().section.caption || (
        t.state.last().section.caption is Some && t.state.last().section.caption->0 is KV),
        t.state.last().section.headers == s.state.last().section.headers || (exists|
            h: HeaderModel,
        |
            h is KV && header_line(h) == t.line_number && t.state.last().section.headers
                == s.state.last().section.headers.push(h)),
        t.state.last().readings == s.state.last().readings.drop_last() || t.state.last().readings
            == s.state.last().readings.drop_last().push(ReadingModel::Subsection),
    ensures
        state_ordered(t),
{
    lemma_after_block(s);
    lemma_first_from(s.lines, s.pos as int, intro_line());
    let top = s.state.last();
    let after = t.state.last();
    assert(frame_ordered(s.state[s.state.len() - 1], s.line_number));
    assert(s.line_number <= t.line_number);
    if after.section.headers != top.section.headers {
        let h = choose|h: HeaderModel|
            h is KV && header_line(h) == t.line_number && after.section.headers
                == top.section.headers.push(h);
        lemma_pushed_ordered(top, h, s.line_number, t.line_number);
    }
    let rest = top.readings.drop_last();
    assert(ordered(after.section)) by {
        assert(ordered(top.section));
        assert(after.section.caption matches Some(h) ==> header_ordered(h));
        if after.section.headers == top.section.headers {
            assert forall|i: int| 0 <= i < after.section.headers.len() implies header_ordered(
                #[trigger] after.section.headers[i],
            ) by {
                assert(header_ordered(top.section.headers[i]));
            }
        }
    }
    assert(frame_ordered(after, t.line_number)) by {
        assert forall|j: int| 0 < j < after.readings.len() implies !((
        #[trigger] after.readings[j]) is Section) by {
            if j < rest.len() {
                assert(after.readings[j] == top.readings[j]);
            }
        }
        if after.readings.len() > 0 && after.readings[0] is Section {
            assert(rest.len() > 0);
            assert(after.readings[0] == top.readings[0]);
        }
        assert forall|i: int| 0 <= i < after.section.headers.len() implies header_line(
            #[trigger] after.section.headers[i],
        ) <= t.line_number by {
            if after.section.headers == top.section.headers {
                assert(header_line(top.section.headers[i]) <= s.line_number);
            }
        }
    }
    lemma_frames_later(s.state, s.line_number, t.line_number);
    let moved = StateModel { line_number: t.line_number, pos: t.pos, ..s };
    lemma_with_top_ordered(moved, after);
}

proof fn lemma_dispatch_ordered(s: StateModel)
    requires
        state_ordered(s),
        s.pos < s.lines.len(),
    ensures
        s.dispatch() matches Ok(t) ==> state_ordered(t),
{
    crate::p11::machine::lemma_dispatch(s);
    lemma_after_block(s);
    match s.latest() {
        None => lemma_reading_section_ordered(s),
        Some(ReadingModel::Subsection) => lemma_reading_section_ordered(s),
        Some(ReadingModel::Section) => lemma_reading_block_headers_ordered(s),
        Some(ReadingModel::Header { key, kind }) => {
            let f = s.clean_content();
            if 0 <= f < s.lines.len() && crate::p11::syntax::opens_section(
                crate::text::trim(s.lines[f].text),
            ) {
                lemma_reading_section_ordered(s);
            } else {
                match s.reading_header_value(key, kind) {
                    Ok(t) => {
                        let h = t.state.last().section.headers.last();
                        assert(h is KV && header_line(h) == t.line_number
                            && t.state.last().section.headers
                            == s.state.last().section.headers.push(h));
                        lemma_block_read_ordered(s, t);
                    },
                    Err(_) => {},
                }
            }
        },
        Some(ReadingModel::Caption) => {
            match s.reading_caption_value() {
                Ok(t) => {
                    lemma_block_read_ordered(s, t);
                },
                Err(_) => {},
            }
        },
        Some(ReadingModel::Body) => {
            match s.reading_body_value() {
                Ok(t) => {
                    lemma_block_read_ordered(s, t);
                },
                Err(_) => {},
            }
        },
    }
}

proof fn lemma_run_ordered(s: StateModel)
    requires
        state_ordered(s),
    ensures
        s.run() matches Ok(sections) ==> rising(sections) && all_ordered(sections),
    decreases s.lines.len() - s.pos, s.rank(),
{
    lemma_next(s);
    lemma_end(s);
    lemma_end_ordered(s);
    match s.end() {
        Ok(e) => {
            if e.pos >= e.lines.len() {
                let done = e.drained().sections;
                assert(done.len() == e.state.len());
                assert forall|i: int| 0 <= i < done.len() implies ordered(#[trigger] done[i]) by {
                    assert(done[i] == e.state[i].section);
                    assert(frame_ordered(e.state[i], e.line_number));
                }
                assert forall|i: int, j: int| 0 <= i < j < done.len() implies (
                #[trigger] done[i]).line_number < (#[trigger] done[j]).line_number by {
                    assert(done[i] == e.state[i].section);
                    assert(done[j] == e.state[j].section);
                }
            } else {
                lemma_dispatch_ordered(e);
                crate::p11::machine::lemma_dispatch(e);
                match e.dispatch() {
                    Ok(t) => {
                        lemma_run_ordered(t);
                    },
                    Err(_) => {},
                }
            }
        },
        Err(_) => {},
    }
}

/// The sections of a parsed document come in the order of their lines, and
/// so do the sections below each of them and in the value of each header;
/// the line numbers of the headers of a section never fall.
pub proof fn lemma_sections_in_order(content: Seq<char>, doc_id: Seq<char>)
    ensures
        parsed(content, doc_id) matches Ok(sections) ==> rising(sections) && all_ordered(sections),
{
    lemma_significant_lines(content);
    lemma_run_ordered(StateModel::start(content, doc_id));
}

} // verus!
