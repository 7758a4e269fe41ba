//! The line numbers of a document with a comment line put in.
//!
//! A section's number is one more if the section stands at or after the
//! comment. The numbers of captions, bodies and header values count the
//! lines read when they ended: they are one more from the comment's line on,
//! and the count of the lines before the comment becomes one more where the
//! comment was read with them. The number of a header that stands on one
//! line counts from the section's line, so it is one more only where the
//! comment stands between the two.

use crate::error::ErrorModel;
use crate::p11::comments::{
    alike, alike_all, alike_frames, alike_results, alike_states, lemma_close_scope_alike,
    lemma_comments_only_move_lines, lemma_dispatch_alike, lemma_end_alike, lemma_end_step_alike,
    lemma_reading_inline_headers_alike, lemma_reading_section_alike, lemma_run_alike,
    lemma_same_scans, lemma_same_significant_lines, lemma_split_lines_concat,
    lemma_split_lines_single,
};
use crate::p11::line::{
    inked_line, is_comment, lemma_significant_lines, numbered, significant_lines, split_lines,
};
use crate::p11::machine::{
    close_scope, inline_header, inline_headers, intro_line, lemma_after_block, lemma_dispatch,
    lemma_end, lemma_end_step, lemma_next, lemma_reading_inline_headers, lemma_reading_section,
    parsed, stops_headers, FrameModel, ReadingModel, StateModel,
};
use crate::p11::places::{
    all_moved, lemma_inserted_numbers, lemma_placed_moved, lemma_sections_keep_their_lines,
    lemma_significant_numbers, lines_shifted, moved, shift,
};
use crate::p11::section::{HeaderModel, SectionModel};
use crate::text::{first_from, lemma_first_from, lemma_last_before};
use vstd::prelude::*;

verus! {

/// How a count of lines read changes when a line is put in as line `k`: it
/// is one more from `k` on and the same below `k - 1`; the count `k - 1`, of
/// the lines before the new one, stays, or becomes `k` where the new line was
/// read with them.
pub open spec fn near(x: nat, y: nat, k: nat) -> bool {
    y == shift(x, k) || (x + 1 == k && y == k)
}

/// The number `y` is `x` or one more.
pub open spec fn one_more_at_most(x: nat, y: nat) -> bool {
    y == x || y == x + 1
}

/// Whether the line numbers in the header `b` are those in `a` after a
/// line has been put in as line `k`. The number of a header of text is the
/// same or one more; that of a header of sections changes as a count does.
pub open spec fn header_renumbered(a: HeaderModel, b: HeaderModel, k: nat) -> bool
    decreases a,
{
    match a {
        HeaderModel::KV { line_number, .. } => b is KV && one_more_at_most(
            line_number,
            b->KV_line_number,
        ),
        HeaderModel::Section { line_number, section, .. } => {
            &&& b is Section
            &&& near(line_number, b->Section_line_number, k)
            &&& b->Section_section.len() == section.len()
            &&& forall|i: int|
                0 <= i < section.len() ==> renumbered(
                    #[trigger] section[i],
                    b->Section_section[i],
                    k,
                )
        },
    }
}

/// Whether the line numbers that `b` carries beside its own, those of its
/// caption, headers and body and of everything below it, are those of `a`
/// after a line has been put in as line `k`.
pub open spec fn renumbered(a: SectionModel, b: SectionModel, k: nat) -> bool
    decreases a,
{
    &&& match a.caption {
        Some(h) => b.caption is Some && header_renumbered(h, b.caption->0, k),
        None => b.caption is None,
    }
    &&& match a.body {
        Some(body) => b.body is Some && near(body.line_number, b.body->0.line_number, k),
        None => b.body is None,
    }
    &&& a.headers.len() == b.headers.len()
    &&& forall|i: int|
        0 <= i < a.headers.len() ==> header_renumbered(#[trigger] a.headers[i], b.headers[i], k)
    &&& a.sub_sections.len() == b.sub_sections.len()
    &&& forall|i: int|
        0 <= i < a.sub_sections.len() ==> renumbered(
            #[trigger] a.sub_sections[i],
            b.sub_sections[i],
            k,
        )
}

/// Whether the sections of `b` carry the line numbers of those of `a` after
/// a line has been put in as line `k`.
pub open spec fn all_renumbered(a: Seq<SectionModel>, b: Seq<SectionModel>, k: nat) -> bool {
    &&& a.len() == b.len()
    &&& forall|i: int| 0 <= i < a.len() ==> renumbered(#[trigger] a[i], b[i], k)
}

/// Whether the open sections of `b` carry the line numbers of those of `a`
/// after a line has been put in as line `k`.
pub open spec fn frames_renumbered(a: Seq<FrameModel>, b: Seq<FrameModel>, k: nat) -> bool {
    &&& a.len() == b.len()
    &&& forall|i: int| 0 <= i < a.len() ==> renumbered((#[trigger] a[i]).section, b[i].section, k)
}

/// Whether `b` is the state of the parser on a document that `a` is the
/// state on, with a comment put in as line `k`.
pub open spec fn states_renumbered(a: StateModel, b: StateModel, k: nat) -> bool {
    &&& alike_states(a, b)
    &&& k >= 1
    &&& lines_shifted(a.lines, b.lines, k)
    &&& near(a.total, b.total, k)
    &&& near(a.line_number, b.line_number, k)
    &&& frames_renumbered(a.state, b.state, k)
    &&& all_renumbered(a.sections, b.sections, k)
}

/// Whether what two steps give, where they give a state, are such states.
pub open spec fn steps_renumbered(
    a: StateModel,
    b: StateModel,
    x: Result<StateModel, ErrorModel>,
    y: Result<StateModel, ErrorModel>,
    k: nat,
) -> bool {
    x matches Ok(t) ==> {
        &&& y is Ok
        &&& t.lines == a.lines && t.total == a.total
        &&& y->Ok_0.lines == b.lines && y->Ok_0.total == b.total
        &&& states_renumbered(t, y->Ok_0, k)
    }
}

/// The count of lines read before a line changes as a count does.
proof fn lemma_count_before_near(a: StateModel, b: StateModel, q: int, k: nat)
    requires
        states_renumbered(a, b, k),
        0 <= q <= a.lines.len(),
    ensures
        near(a.count_before(q), b.count_before(q), k),
        q < a.lines.len() ==> near(a.lines[q].number, b.lines[q].number, k),
{
    if q < a.lines.len() {
        assert(b.lines[q].number == shift(a.lines[q].number, k));
        assert(a.lines[q].number >= 1);
    }
}

#[verifier::rlimit(60)]
proof fn lemma_close_scope_renumbered(
    a: Seq<FrameModel>,
    b: Seq<FrameModel>,
    target: Seq<char>,
    line_a: nat,
    line_b: nat,
    got_a: Seq<SectionModel>,
    got_b: Seq<SectionModel>,
    k: nat,
)
    requires
        alike_frames(a, b),
        alike_all(got_a, got_b),
        frames_renumbered(a, b, k),
        all_renumbered(got_a, got_b, k),
        near(line_a, line_b, k),
    ensures
        close_scope(a, target, line_a, got_a) matches Some(x) ==> close_scope(
            b,
            target,
            line_b,
            got_b,
        ) is Some && frames_renumbered(x, close_scope(b, target, line_b, got_b)->0, k),
    decreases a.len(),
        (if a.len() > 0 {
            a.last().readings.len()
        } else {
            0
        }),
{
    lemma_close_scope_alike(a, b, target, line_a, line_b, got_a, got_b);
    if a.len() > 0 {
        let top_a = a.last();
        let top_b = b.last();
        let below_a = a.drop_last();
        let below_b = b.drop_last();
        assert(alike(a[a.len() - 1].section, b[a.len() - 1].section));
        assert(a[a.len() - 1].readings == b[a.len() - 1].readings);
        assert(renumbered(a[a.len() - 1].section, b[a.len() - 1].section, k));
        assert forall|i: int| 0 <= i < below_a.len() implies alike(
            (#[trigger] below_a[i]).section,
            below_b[i].section,
        ) && below_a[i].readings == below_b[i].readings && renumbered(
            below_a[i].section,
            below_b[i].section,
            k,
        ) by {
            assert(below_a[i] == a[i]);
            assert(below_b[i] == b[i]);
        }
        if top_a.readings.len() == 0 {
            let more_a = got_a.push(top_a.section);
            let more_b = got_b.push(top_b.section);
            assert forall|i: int| 0 <= i < more_a.len() implies alike(
                #[trigger] more_a[i],
                more_b[i],
            ) && renumbered(more_a[i], more_b[i], k) by {
                if i < got_a.len() {
                    assert(more_a[i] == got_a[i]);
                    assert(more_b[i] == got_b[i]);
                }
            }
            lemma_close_scope_renumbered(
                below_a,
                below_b,
                target,
                line_a,
                line_b,
                more_a,
                more_b,
                k,
            );
        } else {
            let rest = top_a.readings.drop_last();
            let next_a = below_a.push(FrameModel { section: top_a.section, readings: rest });
            let next_b = below_b.push(FrameModel { section: top_b.section, readings: rest });
            assert forall|i: int| 0 <= i < next_a.len() implies alike(
                (#[trigger] next_a[i]).section,
                next_b[i].section,
            ) && next_a[i].readings == next_b[i].readings && renumbered(
                next_a[i].section,
                next_b[i].section,
                k,
            ) by {
                if i < below_a.len() {
                    assert(next_a[i] == below_a[i]);
                    assert(next_b[i] == below_b[i]);
                }
            }
            let turned_a = got_a.reverse();
            let turned_b = got_b.reverse();
            assert forall|i: int| 0 <= i < turned_a.len() implies renumbered(
                #[trigger] turned_a[i],
                turned_b[i],
                k,
            ) by {
                assert(turned_a[i] == got_a[got_a.len() - 1 - i]);
                assert(turned_b[i] == got_b[got_b.len() - 1 - i]);
            }
            let matched = match top_a.readings.last() {
                ReadingModel::Section => target == top_a.section.name,
                ReadingModel::Header { key, .. } => target == top_a.section.name + seq!['.'] + key,
                _ => false,
            };
            if matched {
                let after_a = close_scope(a, target, line_a, got_a)->0;
                let after_b = close_scope(b, target, line_b, got_b)->0;
                let new_a = after_a.last().section;
                let new_b = after_b.last().section;
                match top_a.readings.last() {
                    ReadingModel::Section => {
                        assert forall|i: int|
                            0 <= i < new_a.sub_sections.len() implies renumbered(
                            #[trigger] new_a.sub_sections[i],
                            new_b.sub_sections[i],
                            k,
                        ) by {
                            let n = top_a.section.sub_sections.len();
                            if i < n {
                                assert(new_a.sub_sections[i] == top_a.section.sub_sections[i]);
                                assert(new_b.sub_sections[i] == top_b.section.sub_sections[i]);
                            } else {
                                assert(new_a.sub_sections[i] == turned_a[i - n]);
                                assert(new_b.sub_sections[i] == turned_b[i - n]);
                            }
                        }
                        assert forall|i: int|
                            0 <= i < new_a.headers.len() implies header_renumbered(
                            #[trigger] new_a.headers[i],
                            new_b.headers[i],
                            k,
                        ) by {
                            assert(new_a.headers[i] == top_a.section.headers[i]);
                        }
                    },
                    ReadingModel::Header { key, kind } => {
                        let h_a = new_a.headers.last();
                        let h_b = new_b.headers.last();
                        assert(header_renumbered(h_a, h_b, k));
                        assert forall|i: int|
                            0 <= i < new_a.headers.len() implies header_renumbered(
                            #[trigger] new_a.headers[i],
                            new_b.headers[i],
                            k,
                        ) by {
                            if i < top_a.section.headers.len() {
                                assert(new_a.headers[i] == top_a.section.headers[i]);
                                assert(new_b.headers[i] == top_b.section.headers[i]);
                            }
                        }
                        assert forall|i: int|
                            0 <= i < new_a.sub_sections.len() implies renumbered(
                            #[trigger] new_a.sub_sections[i],
                            new_b.sub_sections[i],
                            k,
                        ) by {
                            assert(new_a.sub_sections[i] == top_a.section.sub_sections[i]);
                        }
                    },
                    _ => {},
                }
                assert(renumbered(new_a, new_b, k));
                assert forall|i: int| 0 <= i < after_a.len() implies renumbered(
                    (#[trigger] after_a[i]).section,
                    after_b[i].section,
                    k,
                ) by {
                    if i < below_a.len() {
                        assert(after_a[i] == below_a[i]);
                        assert(after_b[i] == below_b[i]);
                    }
                }
            } else {
                lemma_close_scope_renumbered(
                    next_a,
                    next_b,
                    target,
                    line_a,
                    line_b,
                    got_a,
                    got_b,
                    k,
                );
            }
        }
    }
}

/// What the readings have in common: the section on top of the stack keeps
/// the sections below it, and its caption, headers and body stay or change
/// alike in both states.
proof fn lemma_top_changed_renumbered(
    a: StateModel,
    b: StateModel,
    x: StateModel,
    y: StateModel,
    k: nat,
)
    requires
        states_renumbered(a, b, k),
        alike_states(x, y),
        a.state.len() > 0,
        x.lines == a.lines && y.lines == b.lines,
        x.total == a.total && y.total == b.total,
        x.sections == a.sections && y.sections == b.sections,
        near(x.line_number, y.line_number, k),
        x.state == a.state.drop_last().push(x.state.last()),
        y.state == b.state.drop_last().push(y.state.last()),
        x.state.last().section.sub_sections == a.state.last().section.sub_sections,
        y.state.last().section.sub_sections == b.state.last().section.sub_sections,
        (x.state.last().section.caption == a.state.last().section.caption
            && y.state.last().section.caption == b.state.last().section.caption) || (
        x.state.last().section.caption is Some && y.state.last().section.caption is Some
            && header_renumbered(
            x.state.last().section.caption->0,
            y.state.last().section.caption->0,
            k,
        )),
        (x.state.last().section.body == a.state.last().section.body
            && y.state.last().section.body == b.state.last().section.body) || (
        x.state.last().section.body is Some && y.state.last().section.body is Some && near(
            x.state.last().section.body->0.line_number,
            y.state.last().section.body->0.line_number,
            k,
        )),
        (x.state.last().section.headers == a.state.last().section.headers
            && y.state.last().section.headers == b.state.last().section.headers) || (
        x.state.last().section.headers.len() == a.state.last().section.headers.len() + 1
            && x.state.last().section.headers.drop_last() == a.state.last().section.headers
            && y.state.last().section.headers.len() == b.state.last().section.headers.len() + 1
            && y.state.last().section.headers.drop_last() == b.state.last().section.headers
            && header_renumbered(
            x.state.last().section.headers.last(),
            y.state.last().section.headers.last(),
            k,
        )),
    ensures
        states_renumbered(x, y, k),
{
    let n = a.state.len();
    let old_a = a.state.last().section;
    let old_b = b.state.last().section;
    let new_a = x.state.last().section;
    let new_b = y.state.last().section;
    assert(renumbered(a.state[n - 1].section, b.state[n - 1].section, k));
    assert forall|i: int| 0 <= i < new_a.headers.len() implies header_renumbered(
        #[trigger] new_a.headers[i],
        new_b.headers[i],
        k,
    ) by {
        if i < old_a.headers.len() {
            if new_a.headers != old_a.headers {
                assert(new_a.headers[i] == new_a.headers.drop_last()[i]);
                assert(new_b.headers[i] == new_b.headers.drop_last()[i]);
            }
            assert(header_renumbered(old_a.headers[i], old_b.headers[i], k));
        }
    }
    assert forall|i: int| 0 <= i < new_a.sub_sections.len() implies renumbered(
        #[trigger] new_a.sub_sections[i],
        new_b.sub_sections[i],
        k,
    ) by {
        assert(new_a.sub_sections[i] == old_a.sub_sections[i]);
    }
    assert(renumbered(new_a, new_b, k));
    assert forall|i: int| 0 <= i < x.state.len() implies renumbered(
        (#[trigger] x.state[i]).section,
        y.state[i].section,
        k,
    ) by {
        if i < n - 1 {
            assert(x.state[i] == a.state[i]);
            assert(y.state[i] == b.state[i]);
        }
    }
}

proof fn lemma_end_renumbered(a: StateModel, b: StateModel, k: nat)
    requires
        states_renumbered(a, b, k),
    ensures
        steps_renumbered(a, b, a.end(), b.end(), k),
    decreases a.lines.len() - a.pos,
{
    lemma_end_step_alike(a, b);
    lemma_end_step(a);
    lemma_end_step(b);
    match a.end_step() {
        Ok(Some(x)) => {
            let y = b.end_step()->Ok_0->0;
            let target = crate::p11::laws::end_target(a)->0;
            lemma_same_scans(a.lines, b.lines, a.pos as int);
            lemma_first_from(a.lines, a.pos as int, inked_line());
            let f = a.clean_content();
            assert(a.lines[f].text == b.lines[f].text);
            lemma_close_scope_renumbered(
                a.state,
                b.state,
                target,
                a.line_number,
                b.line_number,
                Seq::empty(),
                Seq::empty(),
                k,
            );
            lemma_count_before_near(a, b, f, k);
            lemma_end_renumbered(x, y, k);
        },
        _ => {},
    }
}

/// The headers that stand one per line carry, in the two documents, numbers
/// that are the same or one apart.
proof fn lemma_inline_headers_renumbered(a: StateModel, b: StateModel, from: int, to: int, k: nat)
    requires
        states_renumbered(a, b, k),
        a.pos <= from,
        to <= a.lines.len(),
    ensures
        inline_headers(a.lines, from, to, a.line_number).len() == inline_headers(
            b.lines,
            from,
            to,
            b.line_number,
        ).len(),
        forall|i: int|
            0 <= i < inline_headers(a.lines, from, to, a.line_number).len() ==> header_renumbered(
                #[trigger] inline_headers(a.lines, from, to, a.line_number)[i],
                inline_headers(b.lines, from, to, b.line_number)[i],
                k,
            ),
    decreases to - from,
{
    if to > from {
        lemma_inline_headers_renumbered(a, b, from, to - 1, k);
        let la = a.lines[to - 1];
        let lb = b.lines[to - 1];
        assert(lb.number == shift(la.number, k));
        assert(a.lines[a.pos as int].number <= la.number);
        assert(b.lines[a.pos as int].number <= lb.number);
        assert(header_renumbered(
            inline_header(la, a.line_number),
            inline_header(lb, b.line_number),
            k,
        ));
    }
}

proof fn lemma_reading_inline_headers_renumbered(a: StateModel, b: StateModel, k: nat)
    requires
        states_renumbered(a, b, k),
    ensures
        steps_renumbered(a, b, a.reading_inline_headers(), b.reading_inline_headers(), k),
{
    lemma_reading_inline_headers_alike(a, b);
    lemma_reading_inline_headers(a);
    lemma_reading_inline_headers(b);
    lemma_same_scans(a.lines, b.lines, a.pos as int);
    lemma_first_from(a.lines, a.pos as int, stops_headers());
    match (a.reading_inline_headers(), b.reading_inline_headers()) {
        (Ok(x), Ok(y)) => {
            let n = a.state.len();
            let old_a = a.state.last().section;
            let old_b = b.state.last().section;
            let new_a = x.state.last().section;
            let new_b = y.state.last().section;
            let q = first_from(a.lines, a.pos as int, stops_headers());
            let found_a = inline_headers(a.lines, a.pos as int, q, a.line_number);
            let found_b = inline_headers(b.lines, b.pos as int, q, b.line_number);
            lemma_inline_headers_renumbered(a, b, a.pos as int, q, k);
            lemma_count_before_near(a, b, q, k);
            assert(renumbered(a.state[n - 1].section, b.state[n - 1].section, k));
            assert forall|i: int| 0 <= i < new_a.headers.len() implies header_renumbered(
                #[trigger] new_a.headers[i],
                new_b.headers[i],
                k,
            ) by {
                let m = old_a.headers.len();
                if i < m {
                    assert(new_a.headers[i] == old_a.headers[i]);
                    assert(new_b.headers[i] == old_b.headers[i]);
                    assert(header_renumbered(old_a.headers[i], old_b.headers[i], k));
                } else {
                    assert(new_a.headers[i] == found_a[i - m]);
                    assert(new_b.headers[i] == found_b[i - m]);
                }
            }
            assert forall|i: int| 0 <= i < new_a.sub_sections.len() implies renumbered(
                #[trigger] new_a.sub_sections[i],
                new_b.sub_sections[i],
                k,
            ) by {
                assert(new_a.sub_sections[i] == old_a.sub_sections[i]);
            }
            assert(renumbered(new_a, new_b, k));
            assert forall|i: int| 0 <= i < x.state.len() implies renumbered(
                (#[trigger] x.state[i]).section,
                y.state[i].section,
                k,
            ) by {
                if i < n - 1 {
                    assert(x.state[i] == a.state[i]);
                    assert(y.state[i] == b.state[i]);
                }
            }
        },
        _ => {},
    }
}

#[verifier::rlimit(60)]
proof fn lemma_reading_section_renumbered(a: StateModel, b: StateModel, k: nat)
    requires
        states_renumbered(a, b, k),
    ensures
        steps_renumbered(a, b, a.reading_section(), b.reading_section(), k),
{
    lemma_reading_section_alike(a, b);
    lemma_same_scans(a.lines, b.lines, a.pos as int);
    lemma_first_from(a.lines, a.pos as int, inked_line());
    lemma_reading_section(a);
    lemma_reading_section(b);
    let f = a.clean_content();
    match (a.reading_section(), b.reading_section()) {
        (Ok(x), Ok(y)) => {
            assert(a.lines[f].text == b.lines[f].text);
            lemma_count_before_near(a, b, f, k);
            let opened_a = StateModel {
                state: a.state.push(
                    FrameModel {
                        section: SectionModel { headers: Seq::empty(), ..x.state.last().section },
                        readings: seq![ReadingModel::Section],
                    },
                ),
                pos: (f + 1) as nat,
                line_number: a.lines[f].number,
                ..a
            };
            let opened_b = StateModel {
                state: b.state.push(
                    FrameModel {
                        section: SectionModel { headers: Seq::empty(), ..y.state.last().section },
                        readings: seq![ReadingModel::Section],
                    },
                ),
                pos: (f + 1) as nat,
                line_number: b.lines[f].number,
                ..b
            };
            lemma_reading_inline_headers(opened_a);
            lemma_reading_inline_headers(opened_b);
            assert(opened_a.reading_inline_headers() == Ok::<StateModel, ErrorModel>(x));
            assert(opened_b.reading_inline_headers() == Ok::<StateModel, ErrorModel>(y));
            let section_a = opened_a.state.last().section;
            let section_b = opened_b.state.last().section;
            assert(section_a.sub_sections.len() == 0 && section_b.sub_sections.len() == 0);
            assert(section_a.headers.len() == 0 && section_b.headers.len() == 0);
            assert(section_a.body is None && section_b.body is None);
            assert(alike(section_a, section_b)) by {
                assert(alike(
                    x.state[x.state.len() - 1].section,
                    y.state[x.state.len() - 1].section,
                ));
            }
            assert(match section_a.caption {
                Some(h) => section_b.caption is Some && header_renumbered(
                    h,
                    section_b.caption->0,
                    k,
                ),
                None => section_b.caption is None,
            });
            assert(renumbered(section_a, section_b, k));
            assert(opened_a.wf());
            assert(opened_b.wf());
            assert(alike_states(opened_a, opened_b)) by {
                assert forall|i: int| 0 <= i < opened_a.state.len() implies alike(
                    (#[trigger] opened_a.state[i]).section,
                    opened_b.state[i].section,
                ) && opened_a.state[i].readings == opened_b.state[i].readings by {
                    if i < a.state.len() {
                        assert(opened_a.state[i] == a.state[i]);
                        assert(opened_b.state[i] == b.state[i]);
                    }
                }
            }
            assert(frames_renumbered(opened_a.state, opened_b.state, k)) by {
                assert forall|i: int| 0 <= i < opened_a.state.len() implies renumbered(
                    (#[trigger] opened_a.state[i]).section,
                    opened_b.state[i].section,
                    k,
                ) by {
                    if i < a.state.len() {
                        assert(opened_a.state[i] == a.state[i]);
                        assert(opened_b.state[i] == b.state[i]);
                    }
                }
            }
            lemma_reading_inline_headers_renumbered(opened_a, opened_b, k);
        },
        _ => {},
    }
}

#[verifier::rlimit(60)]
proof fn lemma_dispatch_renumbered(a: StateModel, b: StateModel, k: nat)
    requires
        states_renumbered(a, b, k),
        a.pos < a.lines.len(),
    ensures
        steps_renumbered(a, b, a.dispatch(), b.dispatch(), k),
{
    lemma_dispatch_alike(a, b);
    lemma_dispatch(a);
    lemma_dispatch(b);
    lemma_same_scans(a.lines, b.lines, a.pos as int);
    lemma_first_from(a.lines, a.pos as int, inked_line());
    lemma_first_from(a.lines, a.pos as int, intro_line());
    lemma_after_block(a);
    lemma_after_block(b);
    if a.state.len() > 0 {
        assert(a.state[a.state.len() - 1].readings == b.state[a.state.len() - 1].readings);
    }
    assert(a.latest() == b.latest());
    let f = a.clean_content();
    let opens = 0 <= f < a.lines.len() && crate::p11::syntax::opens_section(
        crate::text::trim(a.lines[f].text),
    );
    assert(a.lines[f].text == b.lines[f].text);
    lemma_count_before_near(a, b, f, k);
    lemma_count_before_near(a, b, a.block_end(), k);
    match a.latest() {
        None => lemma_reading_section_renumbered(a, b, k),
        Some(ReadingModel::Subsection) => lemma_reading_section_renumbered(a, b, k),
        Some(ReadingModel::Header { key, kind }) if opens => lemma_reading_section_renumbered(
            a,
            b,
            k,
        ),
        _ => {
            match (a.dispatch(), b.dispatch()) {
                (Ok(x), Ok(y)) => {
                    assert(x.state == a.state.drop_last().push(x.state.last()));
                    assert(y.state == b.state.drop_last().push(y.state.last()));
                    let old_a = a.state.last().section;
                    let old_b = b.state.last().section;
                    let new_a = x.state.last().section;
                    let new_b = y.state.last().section;
                    assert(alike(
                        x.state[x.state.len() - 1].section,
                        y.state[x.state.len() - 1].section,
                    ));
                    if new_a.headers != old_a.headers {
                        assert(new_a.headers == old_a.headers.push(new_a.headers.last()));
                        assert(new_a.headers.drop_last() == old_a.headers);
                        assert(new_b.headers == old_b.headers.push(new_b.headers.last()));
                        assert(new_b.headers.drop_last() == old_b.headers);
                        assert(header_renumbered(new_a.headers.last(), new_b.headers.last(), k));
                    } else {
                        assert(new_b.headers == old_b.headers);
                    }
                    lemma_top_changed_renumbered(a, b, x, y, k);
                },
                _ => {},
            }
        },
    }
}

proof fn lemma_run_renumbered(a: StateModel, b: StateModel, k: nat)
    requires
        states_renumbered(a, b, k),
    ensures
        a.run() matches Ok(x) ==> b.run() is Ok && all_renumbered(x, b.run()->Ok_0, k),
    decreases a.lines.len() - a.pos, a.rank(),
{
    lemma_next(a);
    lemma_next(b);
    lemma_end(a);
    lemma_end(b);
    lemma_end_alike(a, b);
    lemma_end_renumbered(a, b, k);
    lemma_run_alike(a, b);
    match (a.end(), b.end()) {
        (Ok(x), Ok(y)) => {
            if x.pos >= x.lines.len() {
                let done_a = x.drained();
                let done_b = y.drained();
                assert forall|i: int| 0 <= i < done_a.sections.len() implies renumbered(
                    #[trigger] done_a.sections[i],
                    done_b.sections[i],
                    k,
                ) by {
                    let n = x.sections.len();
                    if i < n {
                        assert(done_a.sections[i] == x.sections[i]);
                        assert(done_b.sections[i] == y.sections[i]);
                    } else {
                        assert(done_a.sections[i] == x.state[i - n].section);
                        assert(done_b.sections[i] == y.state[i - n].section);
                    }
                }
            } else {
                lemma_dispatch_alike(x, y);
                lemma_dispatch_renumbered(x, y, k);
                lemma_dispatch(x);
                match (x.dispatch(), y.dispatch()) {
                    (Ok(t), Ok(u)) => {
                        lemma_run_renumbered(t, u, k);
                    },
                    _ => {},
                }
            }
        },
        _ => {},
    }
}

/// A comment line is not blank.
proof fn lemma_comment_is_inked(comment: Seq<char>)
    requires
        is_comment(comment),
    ensures
        !crate::text::is_blank(comment),
{
    crate::text::lemma_is_blank(comment);
    assert(comment.subrange(0, 2)[0] == comment[0]);
    assert(seq![';', ';'][0] == ';');
    assert(!crate::text::is_whitespace(comment[0]));
}

/// A comment line that is put in at or above the line after the last line
/// that is not blank raises the count of the lines up to that line by one.
proof fn lemma_line_count_inserted(with: Seq<char>, without: Seq<char>, head: Seq<Seq<char>>, comment: Seq<char>, tail: Seq<Seq<char>>)
    requires
        is_comment(comment),
        split_lines(with) == head + seq![comment] + tail,
        split_lines(without) == head + tail,
        head.len() <= crate::p11::line::line_count(without),
    ensures
        crate::p11::line::line_count(with) == crate::p11::line::line_count(without) + 1,
{
    let inked = crate::p11::line::inked_text();
    let o = head + tail;
    let w = head + seq![comment] + tail;
    let last = last_before_of(o);
    lemma_last_before(o, o.len() as int, inked);
    lemma_comment_is_inked(comment);
    let h = head.len() as int;
    assert forall|j: int| last + 1 < j < w.len() implies !inked(#[trigger] w[j]) by {
        assert(w[j] == o[j - 1]);
    }
    if last + 1 == h {
        assert(w[h] == comment);
    } else {
        assert(w[last + 1] == o[last]);
    }
    crate::text::lemma_last_before_is(w, w.len() as int, last + 1, inked);
}

/// The index of the last line of `raw` that is not blank, or `-1`.
pub open spec fn last_before_of(raw: Seq<Seq<char>>) -> int {
    crate::text::last_before(raw, raw.len() as int, crate::p11::line::inked_text())
}

/// A comment line put into a document leaves what is parsed as it is but for
/// line numbers, and says which numbers change. `head` and `tail` are the
/// lines before and after the comment, which becomes line `k`, one more than
/// the count of `head`. Where the document without the comment parses, the
/// document with it parses, and:
///
/// - every section, at every depth, has its line number, and one more if
///   it stands at or after line `k`;
/// - unless the comment is put in below the blank lines at the end of the
///   document, the other line numbers, which count the lines read when a
///   caption, a body or the value of a header ended, are the same below
///   `k - 1` and one more from `k` on, and the number `k - 1` stays or becomes
///   `k`; the number of a header that stands on one line is the same or one
///   more.
pub proof fn lemma_comment_inserted(
    with: Seq<char>,
    without: Seq<char>,
    head: Seq<Seq<char>>,
    comment: Seq<char>,
    tail: Seq<Seq<char>>,
    doc_id: Seq<char>,
)
    requires
        is_comment(comment),
        split_lines(with) == head + seq![comment] + tail,
        split_lines(without) == head + tail,
    ensures
        alike_results(parsed(without, doc_id), parsed(with, doc_id)),
        parsed(without, doc_id) matches Ok(x) ==> parsed(with, doc_id) is Ok && all_moved(
            x,
            parsed(with, doc_id)->Ok_0,
            (head.len() + 1) as nat,
        ),
        head.len() <= crate::p11::line::line_count(without) ==> (parsed(without, doc_id) matches Ok(
            x,
        ) ==> all_renumbered(x, parsed(with, doc_id)->Ok_0, (head.len() + 1) as nat)),
{
    let k = (head.len() + 1) as nat;
    lemma_inserted_numbers(head, comment, tail);
    lemma_comments_only_move_lines(without, with, doc_id);
    lemma_sections_keep_their_lines(without, with, doc_id);
    lemma_same_significant_lines(without, with);
    lemma_significant_numbers(without);
    lemma_significant_numbers(with);
    lemma_significant_lines(without);
    lemma_significant_lines(with);
    let la = significant_lines(without);
    let lb = significant_lines(with);
    assert(lines_shifted(la, lb, k)) by {
        assert forall|i: int| 0 <= i < la.len() implies (#[trigger] lb[i]).number == shift(
            la[i].number,
            k,
        ) by {
            assert(numbered(split_lines(with))[i].number == shift(
                numbered(split_lines(without))[i].number,
                k,
            ));
        }
    }
    match parsed(without, doc_id) {
        Ok(x) => {
            let y = parsed(with, doc_id)->Ok_0;
            assert forall|i: int| 0 <= i < x.len() implies moved(#[trigger] x[i], y[i], k) by {
                lemma_placed_moved(la, lb, x[i], y[i], k);
            }
        },
        Err(_) => {},
    }
    if head.len() <= crate::p11::line::line_count(without) {
        lemma_line_count_inserted(with, without, head, comment, tail);
        let a = StateModel::start(without, doc_id);
        let b = StateModel::start(with, doc_id);
        assert(states_renumbered(a, b, k));
        lemma_run_renumbered(a, b, k);
    }
}

/// A comment line between two lines of a document does not change what is
/// parsed but for line numbers, and the sections that stand after it stand
/// one line further down. Unless the comment is put in below the blank lines
/// at the end of the document, the other line numbers change as
/// `all_renumbered` says.
pub proof fn lemma_comment_between_lines(
    before: Seq<char>,
    comment: Seq<char>,
    after: Seq<char>,
    doc_id: Seq<char>,
)
    requires
        is_comment(comment),
        forall|j: int| 0 <= j < comment.len() ==> comment[j] != '\n',
    ensures
        alike_results(
            parsed(before + seq!['\n'] + after, doc_id),
            parsed(before + seq!['\n'] + comment + seq!['\n'] + after, doc_id),
        ),
        parsed(before + seq!['\n'] + after, doc_id) matches Ok(x) ==> parsed(
            before + seq!['\n'] + comment + seq!['\n'] + after,
            doc_id,
        ) is Ok && all_moved(
            x,
            parsed(before + seq!['\n'] + comment + seq!['\n'] + after, doc_id)->Ok_0,
            (split_lines(before).len() + 1) as nat,
        ),
        split_lines(before).len() <= crate::p11::line::line_count(before + seq!['\n'] + after) ==> (
        parsed(before + seq!['\n'] + after, doc_id) matches Ok(x) ==> all_renumbered(
            x,
            parsed(before + seq!['\n'] + comment + seq!['\n'] + after, doc_id)->Ok_0,
            (split_lines(before).len() + 1) as nat,
        )),
{
    let with = before + seq!['\n'] + comment + seq!['\n'] + after;
    let without = before + seq!['\n'] + after;
    assert(with == before + seq!['\n'] + (comment + seq!['\n'] + after));
    lemma_split_lines_concat(before, comment + seq!['\n'] + after);
    lemma_split_lines_concat(comment, after);
    lemma_split_lines_single(comment);
    lemma_split_lines_concat(before, after);
    let head = split_lines(before);
    let tail = split_lines(after);
    assert(head + (seq![comment] + tail) == head + seq![comment] + tail);
    lemma_comment_inserted(with, without, head, comment, tail, doc_id);
}

/// A comment line before the first line of a document moves every section
/// one line down and changes nothing else but line numbers, which change as
/// `all_renumbered` says.
pub proof fn lemma_comment_at_start(comment: Seq<char>, content: Seq<char>, doc_id: Seq<char>)
    requires
        is_comment(comment),
        forall|j: int| 0 <= j < comment.len() ==> comment[j] != '\n',
    ensures
        alike_results(parsed(content, doc_id), parsed(comment + seq!['\n'] + content, doc_id)),
        parsed(content, doc_id) matches Ok(x) ==> parsed(comment + seq!['\n'] + content, doc_id)
            is Ok && all_moved(x, parsed(comment + seq!['\n'] + content, doc_id)->Ok_0, 1)
            && all_renumbered(x, parsed(comment + seq!['\n'] + content, doc_id)->Ok_0, 1),
{
    lemma_split_lines_concat(comment, content);
    lemma_split_lines_single(comment);
    let head = Seq::<Seq<char>>::empty();
    let tail = split_lines(content);
    assert(head + seq![comment] + tail == seq![comment] + tail);
    assert(head + tail == tail);
    lemma_comment_inserted(comment + seq!['\n'] + content, content, head, comment, tail, doc_id);
}

/// A comment line after the last line of a document moves no section and
/// changes nothing but line numbers. Where the document does not end in
/// blank lines, the other line numbers change as `all_renumbered` says.
pub proof fn lemma_comment_at_end(content: Seq<char>, comment: Seq<char>, doc_id: Seq<char>)
    requires
        is_comment(comment),
        forall|j: int| 0 <= j < comment.len() ==> comment[j] != '\n',
    ensures
        alike_results(parsed(content, doc_id), parsed(content + seq!['\n'] + comment, doc_id)),
        parsed(content, doc_id) matches Ok(x) ==> parsed(content + seq!['\n'] + comment, doc_id)
            is Ok && all_moved(
            x,
            parsed(content + seq!['\n'] + comment, doc_id)->Ok_0,
            (split_lines(content).len() + 1) as nat,
        ),
        split_lines(content).len() <= crate::p11::line::line_count(content) ==> (parsed(
            content,
            doc_id,
        ) matches Ok(x) ==> all_renumbered(
            x,
            parsed(content + seq!['\n'] + comment, doc_id)->Ok_0,
            (split_lines(content).len() + 1) as nat,
        )),
{
    lemma_split_lines_concat(content, comment);
    lemma_split_lines_single(comment);
    let head = split_lines(content);
    let tail = Seq::<Seq<char>>::empty();
    assert(head + seq![comment] + tail == head + seq![comment]);
    assert(head + tail == head);
    lemma_comment_inserted(content + seq!['\n'] + comment, content, head, comment, tail, doc_id);
}

} // verus!
