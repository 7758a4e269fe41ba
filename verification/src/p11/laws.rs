//! What holds of the parser, whatever the document.

use crate::error::ErrorModel;
use crate::p11::line::{
    inked_line, is_comment, lemma_numbered, lemma_significant_lines, numbered, significant_lines,
    split_lines, without_blank_tail,
};
use crate::p11::machine::{
    close_scope, inline_headers, lemma_after_block, lemma_end, lemma_end_step,
    lemma_next, lemma_reading_inline_headers, lemma_reading_section, parsed, stops_headers,
    FrameModel, ReadingModel, StateModel,
};
use crate::p11::section::{HeaderModel, SectionModel};
use crate::p11::syntax::{
    active_mark, colon_parts, commented_mark, name_and_kind, opens_section, spec_clean_line,
};
use crate::text::{
    lemma_first_from, lemma_last_before, lemma_trim_after_trim_end, starts_with, trim, trim_start,
};
use vstd::prelude::*;

verus! {

/// A backslash before a mark that opens a section, or before the two
/// semicolons of a comment, keeps the line from being read as one, and the
/// line is recorded without the backslash.
pub proof fn lemma_escapes(rest: Seq<char>)
    ensures
        spec_clean_line(seq!['\\'] + active_mark() + rest) == active_mark() + rest,
        !opens_section(seq!['\\'] + active_mark() + rest),
        spec_clean_line(seq!['\\', ';', ';'] + rest) == seq![';', ';'] + rest,
        !is_comment(seq!['\\', ';', ';'] + rest),
{
    let mark = seq!['\\', '-', '-', ' '];
    let line = seq!['\\'] + active_mark() + rest;
    assert(line.subrange(0, 4) == mark);
    assert(line.skip(1) == active_mark() + rest);
    assert(line[0] == '\\');
    assert(line.subrange(0, 3)[0] == line[0]);
    assert(line.subrange(0, 4)[0] == line[0]);
    assert(active_mark()[0] == '-');
    assert(crate::p11::syntax::commented_mark()[0] == '/');
    let comment = seq!['\\', ';', ';'] + rest;
    assert(comment.subrange(0, 3) == seq!['\\', ';', ';']);
    assert(comment.skip(1) == seq![';', ';'] + rest);
    assert(comment.subrange(0, 2)[0] == comment[0]);
    assert(seq![';', ';'][0] == ';');
}

/// Only the one backslash goes: a line that begins with anything else is
/// recorded as it stands.
pub proof fn lemma_no_other_escape(line: Seq<char>)
    requires
        line.len() == 0 || line[0] != '\\',
    ensures
        spec_clean_line(line) == line,
{
    if line.len() >= 3 {
        assert(line.subrange(0, 3)[0] == line[0]);
        assert(seq!['\\', ';', ';'][0] == '\\');
    }
    if line.len() >= 4 {
        assert(line.subrange(0, 4)[0] == line[0]);
        assert(seq!['\\', '-', '-', ' '][0] == '\\');
    }
}

/// Whether `reading`, held for a section named `name`, is the scope that
/// an end marker for `target` closes.
pub open spec fn names_scope(name: Seq<char>, reading: ReadingModel, target: Seq<char>) -> bool {
    match reading {
        ReadingModel::Section => target == name,
        ReadingModel::Header { key, .. } => target == name + seq!['.'] + key,
        _ => false,
    }
}

/// Whether the scope `target` is open in `frame`.
pub open spec fn opens_scope(frame: FrameModel, target: Seq<char>) -> bool {
    exists|j: int|
        0 <= j < frame.readings.len() && names_scope(
            frame.section.name,
            #[trigger] frame.readings[j],
            target,
        )
}

/// Whether the scope `target` is open: a section of that name whose
/// headers are being read, or a header `key` that is being read for a section
/// `name`, with `target` equal to `name.key`.
pub open spec fn has_open_scope(state: Seq<FrameModel>, target: Seq<char>) -> bool {
    exists|i: int| 0 <= i < state.len() && opens_scope(#[trigger] state[i], target)
}

/// A scope can be closed exactly when it is open.
pub proof fn lemma_close_scope_needs_open(
    state: Seq<FrameModel>,
    target: Seq<char>,
    line_number: nat,
    collected: Seq<SectionModel>,
)
    ensures
        close_scope(state, target, line_number, collected) is Some <==> has_open_scope(
            state,
            target,
        ),
    decreases state.len(),
        (if state.len() > 0 {
            state.last().readings.len()
        } else {
            0
        }),
{
    if state.len() > 0 {
        let top = state.last();
        let below = state.drop_last();
        if top.readings.len() == 0 {
            lemma_close_scope_needs_open(below, target, line_number, collected.push(top.section));
            if has_open_scope(state, target) {
                let i = choose|i: int| 0 <= i < state.len() && opens_scope(#[trigger] state[i], target);
                assert(i < state.len() - 1);
                assert(below[i] == state[i]);
            }
            if has_open_scope(below, target) {
                let i = choose|i: int| 0 <= i < below.len() && opens_scope(#[trigger] below[i], target);
                assert(state[i] == below[i]);
            }
        } else {
            let last = top.readings.last();
            let rest = top.readings.drop_last();
            if names_scope(top.section.name, last, target) {
                assert(opens_scope(top, target));
                assert(state[state.len() - 1] == top);
            } else {
                let shorter = FrameModel { section: top.section, readings: rest };
                let next = below.push(shorter);
                lemma_close_scope_needs_open(next, target, line_number, collected);
                if has_open_scope(state, target) {
                    let i = choose|i: int|
                        0 <= i < state.len() && opens_scope(#[trigger] state[i], target);
                    if i < state.len() - 1 {
                        assert(next[i] == state[i]);
                    } else {
                        let j = choose|j: int|
                            0 <= j < top.readings.len() && names_scope(
                                top.section.name,
                                #[trigger] top.readings[j],
                                target,
                            );
                        assert(j < top.readings.len() - 1);
                        assert(rest[j] == top.readings[j]);
                        assert(opens_scope(shorter, target));
                        assert(next[state.len() - 1] == shorter);
                    }
                }
                if has_open_scope(next, target) {
                    let i = choose|i: int|
                        0 <= i < next.len() && opens_scope(#[trigger] next[i], target);
                    if i < state.len() - 1 {
                        assert(state[i] == next[i]);
                    } else {
                        let j = choose|j: int|
                            0 <= j < shorter.readings.len() && names_scope(
                                shorter.section.name,
                                #[trigger] shorter.readings[j],
                                target,
                            );
                        assert(top.readings[j] == rest[j]);
                        assert(opens_scope(top, target));
                        assert(state[state.len() - 1] == top);
                    }
                }
            }
        }
    }
}

/// The scope that the end marker at the cursor names, if the next line with
/// text is an end marker that names one.
pub open spec fn end_target(s: StateModel) -> Option<Seq<char>> {
    let f = s.clean_content();
    if s.pos <= f < s.lines.len() {
        let start = trim_start(s.lines[f].text);
        if starts_with(start, active_mark()) {
            match colon_parts(start.skip(2)) {
                Some((name, Some(target))) => if name == "end"@ {
                    Some(target)
                } else {
                    None
                },
                _ => None,
            }
        } else {
            None
        }
    } else {
        None
    }
}

/// An end marker is read exactly when the scope that it names is open. When
/// it is not, the parse fails and the error names the scope.
pub proof fn lemma_end_needs_open(s: StateModel)
    ensures
        end_target(s) matches Some(target) ==> {
            &&& s.end_step() is Ok <==> has_open_scope(s.state, target)
            &&& s.end_step() is Ok ==> s.end_step()->Ok_0 is Some
            &&& !has_open_scope(s.state, target) ==> s.end_step() == Err::<
                Option<StateModel>,
                ErrorModel,
            >(
                ErrorModel::ParseError {
                    message: "No section found to end: "@ + target,
                    doc_id: s.doc_id,
                    line_number: s.line_number,
                },
            )
        },
{
    match end_target(s) {
        Some(target) => {
            lemma_close_scope_needs_open(s.state, target, s.line_number, Seq::empty());
        },
        None => {},
    }
}

/// Whether the line `text` introduces the section `s`: trimmed, it begins
/// with a mark that opens a section, commented or not as `s` is, and what
/// stands before its first colon gives the name and the kind of `s`.
pub open spec fn introduces(text: Seq<char>, s: SectionModel) -> bool {
    let start = trim(text);
    let line = if starts_with(start, commented_mark()) {
        start.skip(3)
    } else {
        start.skip(2)
    };
    &&& opens_section(start)
    &&& s.is_commented == starts_with(start, commented_mark())
    &&& colon_parts(line) is Some
    &&& colon_parts(line) matches Some(parts) && name_and_kind(parts.0) == (s.name, s.kind)
    &&& s.name.len() > 0
}

/// Whether every section in the value of the header `h` stands on its line.
pub open spec fn header_sited(h: HeaderModel, raw: Seq<Seq<char>>) -> bool
    decreases h,
{
    match h {
        HeaderModel::KV { .. } => true,
        HeaderModel::Section { section, .. } => forall|i: int|
            0 <= i < section.len() ==> sited(#[trigger] section[i], raw),
    }
}

/// Whether the section `s` and every section below it stand on their lines:
/// the line number of each is the 1-based position, among the lines `raw` of
/// the document, of the line that introduces it.
pub open spec fn sited(s: SectionModel, raw: Seq<Seq<char>>) -> bool
    decreases s,
{
    &&& 1 <= s.line_number <= raw.len()
    &&& introduces(raw[s.line_number - 1], s)
    &&& forall|i: int| 0 <= i < s.sub_sections.len() ==> sited(#[trigger] s.sub_sections[i], raw)
    &&& forall|i: int| 0 <= i < s.headers.len() ==> header_sited(#[trigger] s.headers[i], raw)
    &&& s.caption matches Some(h) ==> header_sited(h, raw)
}

/// Whether every section of the list stands on its line.
pub open spec fn all_sited(sections: Seq<SectionModel>, raw: Seq<Seq<char>>) -> bool {
    forall|i: int| 0 <= i < sections.len() ==> sited(#[trigger] sections[i], raw)
}

/// Whether every open section stands on its line.
pub open spec fn frames_sited(state: Seq<FrameModel>, raw: Seq<Seq<char>>) -> bool {
    forall|i: int| 0 <= i < state.len() ==> sited((#[trigger] state[i]).section, raw)
}

/// Whether `s` is a state of the parser on `content` in which every section
/// stands on its line.
pub open spec fn state_sited(s: StateModel, content: Seq<char>) -> bool {
    &&& s.wf()
    &&& s.lines == significant_lines(content)
    &&& frames_sited(s.state, split_lines(content))
    &&& all_sited(s.sections, split_lines(content))
}

/// A line that the parser reads is the line of the document with its
/// number, but for whitespace at its end.
pub proof fn lemma_line_text(content: Seq<char>, i: int)
    requires
        0 <= i < significant_lines(content).len(),
    ensures
        1 <= significant_lines(content)[i].number <= split_lines(content).len(),
        trim(significant_lines(content)[i].text) == trim(
            split_lines(content)[significant_lines(content)[i].number - 1],
        ),
{
    let raw = split_lines(content);
    let all = numbered(raw);
    let kept = without_blank_tail(all);
    lemma_numbered(raw);
    lemma_last_before(all, all.len() as int, inked_line());
    assert(kept[i] == all[i]);
    lemma_trim_after_trim_end(all[i].text);
}

proof fn lemma_close_scope_sited(
    state: Seq<FrameModel>,
    target: Seq<char>,
    line_number: nat,
    collected: Seq<SectionModel>,
    raw: Seq<Seq<char>>,
)
    requires
        frames_sited(state, raw),
        all_sited(collected, raw),
    ensures
        close_scope(state, target, line_number, collected) matches Some(closed) ==> frames_sited(
            closed,
            raw,
        ),
    decreases state.len(),
        (if state.len() > 0 {
            state.last().readings.len()
        } else {
            0
        }),
{
    if state.len() > 0 {
        let top = state.last();
        let below = state.drop_last();
        assert(sited(state[state.len() - 1].section, raw));
        assert forall|i: int| 0 <= i < below.len() implies sited(
            (#[trigger] below[i]).section,
            raw,
        ) by {
            assert(below[i] == state[i]);
        }
        if top.readings.len() == 0 {
            let more = collected.push(top.section);
            assert forall|i: int| 0 <= i < more.len() implies sited(#[trigger] more[i], raw) by {
                if i < collected.len() {
                    assert(more[i] == collected[i]);
                }
            }
            lemma_close_scope_sited(below, target, line_number, more, raw);
        } else {
            let rest = top.readings.drop_last();
            let shorter = FrameModel { section: top.section, readings: rest };
            let next = below.push(shorter);
            assert forall|i: int| 0 <= i < next.len() implies sited(
                (#[trigger] next[i]).section,
                raw,
            ) by {
                if i < below.len() {
                    assert(next[i] == below[i]);
                }
            }
            let turned = collected.reverse();
            assert forall|i: int| 0 <= i < turned.len() implies sited(#[trigger] turned[i], raw) by {
                assert(turned[i] == collected[collected.len() - 1 - i]);
            }
            match close_scope(state, target, line_number, collected) {
                Some(closed) => {
                    match top.readings.last() {
                        ReadingModel::Section => {
                            if target == top.section.name {
                                let grown = top.section.sub_sections + turned;
                                let section = SectionModel { sub_sections: grown, ..top.section };
                                assert forall|i: int| 0 <= i < grown.len() implies sited(
                                    #[trigger] grown[i],
                                    raw,
                                ) by {
                                    if i < top.section.sub_sections.len() {
                                        assert(grown[i] == top.section.sub_sections[i]);
                                    } else {
                                        assert(grown[i] == turned[i
                                            - top.section.sub_sections.len()]);
                                    }
                                }
                                assert(sited(section, raw));
                                assert forall|i: int| 0 <= i < closed.len() implies sited(
                                    (#[trigger] closed[i]).section,
                                    raw,
                                ) by {
                                    if i < below.len() {
                                        assert(closed[i] == below[i]);
                                    }
                                }
                            } else {
                                lemma_close_scope_sited(next, target, line_number, collected, raw);
                            }
                        },
                        ReadingModel::Header { key, kind } => {
                            if target == top.section.name + seq!['.'] + key {
                                let header = HeaderModel::Section {
                                    line_number,
                                    key,
                                    kind,
                                    section: turned,
                                };
                                assert(header_sited(header, raw));
                                let grown = top.section.headers.push(header);
                                let section = SectionModel { headers: grown, ..top.section };
                                assert forall|i: int| 0 <= i < grown.len() implies header_sited(
                                    #[trigger] grown[i],
                                    raw,
                                ) by {
                                    if i < top.section.headers.len() {
                                        assert(grown[i] == top.section.headers[i]);
                                    }
                                }
                                assert(sited(section, raw));
                                assert forall|i: int| 0 <= i < closed.len() implies sited(
                                    (#[trigger] closed[i]).section,
                                    raw,
                                ) by {
                                    if i < below.len() {
                                        assert(closed[i] == below[i]);
                                    }
                                }
                            } else {
                                lemma_close_scope_sited(next, target, line_number, collected, raw);
                            }
                        },
                        _ => {
                            lemma_close_scope_sited(next, target, line_number, collected, raw);
                        },
                    }
                },
                None => {},
            }
        }
    }
}

/// A state whose sections stand on their lines, with something about the
/// section on top of the stack changed that is neither its name, kind, line
/// or comment mark nor a section below it.
proof fn lemma_with_top_sited(s: StateModel, frame: FrameModel, raw: Seq<Seq<char>>)
    requires
        frames_sited(s.state, raw),
        s.state.len() > 0,
        sited(frame.section, raw),
    ensures
        frames_sited(s.with_top(frame).state, raw),
{
    let after = s.with_top(frame).state;
    assert forall|i: int| 0 <= i < after.len() implies sited((#[trigger] after[i]).section, raw) by {
        if i < s.state.len() - 1 {
            assert(after[i] == s.state[i]);
        }
    }
}

proof fn lemma_inline_headers_plain(lines: Seq<crate::p11::line::LineModel>, from: int, to: int, base: nat)
    ensures
        forall|i: int|
            0 <= i < inline_headers(lines, from, to, base).len() ==> (#[trigger] inline_headers(
                lines,
                from,
                to,
                base,
            )[i]) is KV,
    decreases to - from,
{
    if to > from {
        lemma_inline_headers_plain(lines, from, to - 1, base);
    }
}

proof fn lemma_reading_inline_headers_sited(s: StateModel, content: Seq<char>)
    requires
        state_sited(s, content),
    ensures
        s.reading_inline_headers() matches Ok(t) ==> state_sited(t, content),
{
    let raw = split_lines(content);
    lemma_reading_inline_headers(s);
    match s.reading_inline_headers() {
        Ok(t) => {
            let q = crate::text::first_from(s.lines, s.pos as int, stops_headers());
            let found = inline_headers(s.lines, s.pos as int, q, s.line_number);
            lemma_inline_headers_plain(s.lines, s.pos as int, q, s.line_number);
            let top = s.state.last();
            assert(sited(s.state[s.state.len() - 1].section, raw));
            let grown = top.section.headers + found;
            let section = SectionModel { headers: grown, ..top.section };
            assert forall|i: int| 0 <= i < grown.len() implies header_sited(
                #[trigger] grown[i],
                raw,
            ) by {
                if i < top.section.headers.len() {
                    assert(grown[i] == top.section.headers[i]);
                } else {
                    assert(grown[i] == found[i - top.section.headers.len()]);
                }
            }
            assert(sited(section, raw));
            let moved = StateModel { pos: q as nat, line_number: s.count_before(q), ..s };
            lemma_with_top_sited(moved, FrameModel { section, readings: top.readings }, raw);
        },
        Err(_) => {},
    }
}

proof fn lemma_reading_section_sited(s: StateModel, content: Seq<char>)
    requires
        state_sited(s, content),
    ensures
        s.reading_section() matches Ok(t) ==> state_sited(t, content),
{
    let raw = split_lines(content);
    lemma_reading_section(s);
    lemma_first_from(s.lines, s.pos as int, inked_line());
    match s.reading_section() {
        Ok(t) => {
            let f = s.clean_content();
            lemma_line_text(content, f);
            let start = trim(s.lines[f].text);
            let is_commented = starts_with(start, commented_mark());
            let line = if is_commented {
                start.skip(3)
            } else {
                start.skip(2)
            };
            let number = s.lines[f].number;
            let parts = colon_parts(line)->0;
            let (name, kind) = name_and_kind(parts.0);
            let section = SectionModel {
                name,
                kind,
                caption: match parts.1 {
                    Some(v) => Some(crate::p11::machine::caption_header(v, number)),
                    None => None,
                },
                headers: Seq::empty(),
                body: None,
                sub_sections: Seq::empty(),
                is_commented,
                line_number: number,
                block_body: false,
            };
            assert(introduces(raw[number - 1], section));
            assert(section.caption matches Some(h) ==> header_sited(h, raw));
            assert(sited(section, raw));
            let opened = StateModel {
                state: s.state.push(FrameModel { section, readings: seq![ReadingModel::Section] }),
                pos: (f + 1) as nat,
                line_number: number,
                ..s
            };
            assert forall|i: int| 0 <= i < opened.state.len() implies sited(
                (#[trigger] opened.state[i]).section,
                raw,
            ) by {
                if i < s.state.len() {
                    assert(opened.state[i] == s.state[i]);
                }
            }
            assert(opened.wf());
            lemma_reading_inline_headers_sited(opened, content);
        },
        Err(_) => {},
    }
}

/// A section that stood on its line still does when only its caption, its
/// headers, its body or its block mark change, as long as the sections in
/// the new caption and headers stand on their lines.
proof fn lemma_section_kept(old: SectionModel, new: SectionModel, raw: Seq<Seq<char>>)
    requires
        sited(old, raw),
        new.name == old.name,
        new.kind == old.kind,
        new.is_commented == old.is_commented,
        new.line_number == old.line_number,
        new.sub_sections == old.sub_sections,
        forall|i: int| 0 <= i < new.headers.len() ==> header_sited(#[trigger] new.headers[i], raw),
        new.caption matches Some(h) ==> header_sited(h, raw),
    ensures
        sited(new, raw),
{
}

/// The headers of a section that stands on its line, with a header of text
/// added, hold no section that does not stand on its line.
proof fn lemma_pushed_header(old: SectionModel, h: HeaderModel, raw: Seq<Seq<char>>)
    requires
        sited(old, raw),
        h is KV,
    ensures
        forall|i: int|
            0 <= i < old.headers.push(h).len() ==> header_sited(
                #[trigger] old.headers.push(h)[i],
                raw,
            ),
{
    let grown = old.headers.push(h);
    assert forall|i: int| 0 <= i < grown.len() implies header_sited(#[trigger] grown[i], raw) by {
        if i < old.headers.len() {
            assert(grown[i] == old.headers[i]);
        }
    }
}

proof fn lemma_reading_block_headers_sited(s: StateModel, content: Seq<char>)
    requires
        state_sited(s, content),
        s.pos < s.lines.len(),
    ensures
        s.reading_block_headers() matches Ok(t) ==> state_sited(t, content),
{
    let raw = split_lines(content);
    lemma_first_from(s.lines, s.pos as int, inked_line());
    match s.reading_block_headers() {
        Ok(t) => {
            let top = s.state.last();
            assert(sited(s.state[s.state.len() - 1].section, raw));
            let after = t.state.last();
            assert(t.state == s.state.drop_last().push(after));
            if after.section.headers != top.section.headers {
                let h = after.section.headers.last();
                assert(after.section.headers == top.section.headers.push(h));
                lemma_pushed_header(top.section, h, raw);
            }
            lemma_section_kept(top.section, after.section, raw);
            lemma_with_top_sited(s, after, raw);
        },
        Err(_) => {},
    }
}

proof fn lemma_reading_header_value_sited(
    s: StateModel,
    key: Seq<char>,
    kind: Option<Seq<char>>,
    content: Seq<char>,
)
    requires
        state_sited(s, content),
        s.pos < s.lines.len(),
    ensures
        s.reading_header_value(key, kind) matches Ok(t) ==> state_sited(t, content),
{
    let raw = split_lines(content);
    lemma_reading_section_sited(s, content);
    lemma_after_block(s);
    let f = s.clean_content();
    if !(0 <= f < s.lines.len() && opens_section(trim(s.lines[f].text))) {
        match s.reading_header_value(key, kind) {
            Ok(t) => {
                let top = s.state.last();
                assert(sited(s.state[s.state.len() - 1].section, raw));
                let after = t.state.last();
                assert(t.state == s.state.drop_last().push(after));
                let h = after.section.headers.last();
                assert(after.section.headers == top.section.headers.push(h));
                lemma_pushed_header(top.section, h, raw);
                lemma_section_kept(top.section, after.section, raw);
                lemma_with_top_sited(s, after, raw);
            },
            Err(_) => {},
        }
    }
}

proof fn lemma_reading_caption_value_sited(s: StateModel, content: Seq<char>)
    requires
        state_sited(s, content),
        s.pos < s.lines.len(),
    ensures
        s.reading_caption_value() matches Ok(t) ==> state_sited(t, content),
{
    let raw = split_lines(content);
    lemma_after_block(s);
    match s.reading_caption_value() {
        Ok(t) => {
            let top = s.state.last();
            assert(sited(s.state[s.state.len() - 1].section, raw));
            let after = t.state.last();
            assert(t.state == s.state.drop_last().push(after));
            lemma_section_kept(top.section, after.section, raw);
            lemma_with_top_sited(s, after, raw);
        },
        Err(_) => {},
    }
}

proof fn lemma_reading_body_value_sited(s: StateModel, content: Seq<char>)
    requires
        state_sited(s, content),
        s.pos < s.lines.len(),
    ensures
        s.reading_body_value() matches Ok(t) ==> state_sited(t, content),
{
    let raw = split_lines(content);
    lemma_after_block(s);
    match s.reading_body_value() {
        Ok(t) => {
            let top = s.state.last();
            assert(sited(s.state[s.state.len() - 1].section, raw));
            let after = t.state.last();
            assert(t.state == s.state.drop_last().push(after));
            lemma_section_kept(top.section, after.section, raw);
            lemma_with_top_sited(s, after, raw);
        },
        Err(_) => {},
    }
}

proof fn lemma_dispatch_sited(s: StateModel, content: Seq<char>)
    requires
        state_sited(s, content),
        s.pos < s.lines.len(),
    ensures
        s.dispatch() matches Ok(t) ==> state_sited(t, content),
{
    match s.latest() {
        None => lemma_reading_section_sited(s, content),
        Some(ReadingModel::Subsection) => lemma_reading_section_sited(s, content),
        Some(ReadingModel::Section) => lemma_reading_block_headers_sited(s, content),
        Some(ReadingModel::Header { key, kind }) => lemma_reading_header_value_sited(
            s,
            key,
            kind,
            content,
        ),
        Some(ReadingModel::Caption) => lemma_reading_caption_value_sited(s, content),
        Some(ReadingModel::Body) => lemma_reading_body_value_sited(s, content),
    }
}

proof fn lemma_end_sited(s: StateModel, content: Seq<char>)
    requires
        state_sited(s, content),
    ensures
        s.end() matches Ok(t) ==> state_sited(t, content),
    decreases s.lines.len() - s.pos,
{
    lemma_end_step(s);
    match s.end_step() {
        Ok(Some(t)) => {
            let target = end_target(s)->0;
            lemma_close_scope_sited(
                s.state,
                target,
                s.line_number,
                Seq::empty(),
                split_lines(content),
            );
            lemma_end_sited(t, content);
        },
        _ => {},
    }
}

proof fn lemma_run_sited(s: StateModel, content: Seq<char>)
    requires
        state_sited(s, content),
    ensures
        s.run() matches Ok(sections) ==> all_sited(sections, split_lines(content)),
    decreases s.lines.len() - s.pos, s.rank(),
{
    let raw = split_lines(content);
    lemma_next(s);
    lemma_end(s);
    lemma_end_sited(s, content);
    match s.end() {
        Ok(e) => {
            if e.pos >= e.lines.len() {
                let done = e.drained();
                assert forall|i: int| 0 <= i < done.sections.len() implies sited(
                    #[trigger] done.sections[i],
                    raw,
                ) by {
                    if i < e.sections.len() {
                        assert(done.sections[i] == e.sections[i]);
                    } else {
                        assert(done.sections[i] == e.state[i - e.sections.len()].section);
                    }
                }
            } else {
                lemma_dispatch_sited(e, content);
                match e.dispatch() {
                    Ok(t) => {
                        lemma_run_sited(t, content);
                    },
                    Err(_) => {},
                }
            }
        },
        Err(_) => {},
    }
}

/// Every section of a parsed document, at whatever depth, stands on its
/// line: its line number is the 1-based position of the line that
/// introduces it, and its name is not empty.
pub proof fn lemma_sections_stand_on_their_lines(content: Seq<char>, doc_id: Seq<char>)
    ensures
        parsed(content, doc_id) matches Ok(sections) ==> all_sited(sections, split_lines(content)),
{
    let s = StateModel::start(content, doc_id);
    lemma_significant_lines(content);
    lemma_run_sited(s, content);
}

/// Whether the next line with text is a block header `caption` of the
/// section on top of the stack: a line that opens a section named by the
/// section's name, a dot and `caption`, with whatever kind and value.
pub open spec fn caption_block_at_cursor(s: StateModel) -> bool {
    let f = s.clean_content();
    let start = trim(s.lines[f].text);
    let line = if starts_with(start, commented_mark()) {
        start.skip(3)
    } else {
        start.skip(2)
    };
    &&& s.state.len() > 0
    &&& 0 <= f < s.lines.len()
    &&& opens_section(start)
    &&& colon_parts(line) matches Some(parts) && name_and_kind(parts.0).0
        == s.state.last().section.name + seq!['.'] + "caption"@
}

/// A section has one caption at most: it is held in an `Option`, and a
/// block header `caption` for a section that has a caption is refused,
/// whatever its kind and whether or not a value stands on its line. The error
/// carries the line of the section.
pub proof fn lemma_second_caption_is_refused(s: StateModel)
    requires
        caption_block_at_cursor(s),
        s.state.last().section.caption is Some,
    ensures
        s.reading_block_headers() == Err::<StateModel, ErrorModel>(
            ErrorModel::MoreThanOneCaption {
                doc_id: s.doc_id,
                line_number: s.state.last().section.line_number,
            },
        ),
{
    let top = s.state.last();
    let prefix = top.section.name + seq!['.'];
    let name = top.section.name + seq!['.'] + "caption"@;
    assert(name.subrange(0, prefix.len() as int) == prefix);
    assert(name.skip(prefix.len() as int) == "caption"@);
}

/// Whether the next line with text is a block header `body` of the section
/// on top of the stack, with whatever kind and value.
pub open spec fn body_block_at_cursor(s: StateModel) -> bool {
    let f = s.clean_content();
    let start = trim(s.lines[f].text);
    let line = if starts_with(start, commented_mark()) {
        start.skip(3)
    } else {
        start.skip(2)
    };
    &&& s.state.len() > 0
    &&& 0 <= f < s.lines.len()
    &&& opens_section(start)
    &&& colon_parts(line) matches Some(parts) && name_and_kind(parts.0).0
        == s.state.last().section.name + seq!['.'] + "body"@
}

/// A section has one body at most: a block header `body` for a section
/// that has a body is refused.
pub proof fn lemma_second_body_is_refused(s: StateModel)
    requires
        body_block_at_cursor(s),
        s.state.last().section.body is Some,
    ensures
        s.reading_block_headers() == Err::<StateModel, ErrorModel>(
            crate::p11::machine::second_body(s.doc_id, s.state.last().section.line_number),
        ),
{
    let top = s.state.last();
    let prefix = top.section.name + seq!['.'];
    let name = top.section.name + seq!['.'] + "body"@;
    assert(name.subrange(0, prefix.len() as int) == prefix);
    assert(name.skip(prefix.len() as int) == "body"@);
    reveal_strlit("body");
    reveal_strlit("caption");
    assert("body"@ != "caption"@) by {
        assert("body"@.len() == 4);
        assert("caption"@.len() == 7);
    }
}

/// Whether every open section of `before` that has a caption or a body has
/// the same caption or body in `after`, where it is still open.
pub open spec fn captions_and_bodies_kept(before: Seq<FrameModel>, after: Seq<FrameModel>) -> bool {
    forall|i: int|
        0 <= i < before.len() && i < after.len() ==> {
            &&& (#[trigger] before[i]).section.caption is Some ==> after[i].section.caption
                == before[i].section.caption
            &&& before[i].section.body is Some ==> after[i].section.body == before[i].section.body
        }
}

proof fn lemma_close_scope_keeps_captions(
    state: Seq<FrameModel>,
    target: Seq<char>,
    line_number: nat,
    collected: Seq<SectionModel>,
)
    ensures
        close_scope(state, target, line_number, collected) matches Some(closed) ==> closed.len()
            <= state.len() && forall|i: int|
            0 <= i < closed.len() ==> (#[trigger] closed[i]).section.caption
                == state[i].section.caption && closed[i].section.body == state[i].section.body,
    decreases state.len(),
        (if state.len() > 0 {
            state.last().readings.len()
        } else {
            0
        }),
{
    if state.len() > 0 {
        let top = state.last();
        let below = state.drop_last();
        if top.readings.len() == 0 {
            lemma_close_scope_keeps_captions(below, target, line_number, collected.push(top.section));
        } else {
            let next = below.push(
                FrameModel { section: top.section, readings: top.readings.drop_last() },
            );
            lemma_close_scope_keeps_captions(next, target, line_number, collected);
            match close_scope(state, target, line_number, collected) {
                Some(closed) => {
                    assert forall|i: int| 0 <= i < closed.len() implies (
                    #[trigger] closed[i]).section.caption == state[i].section.caption
                        && closed[i].section.body == state[i].section.body by {
                        if i < next.len() {
                            assert(next[i].section.caption == state[i].section.caption);
                            assert(next[i].section.body == state[i].section.body);
                        }
                    }
                },
                None => {},
            }
        }
    }
}

/// A caption and a body, once a section has them, stay as they are: no end
/// marker and no reading replaces them, adds to them or takes them away for
/// a section that stays open. A section that leaves the stack is not
/// changed any more.
pub proof fn lemma_caption_and_body_are_kept(s: StateModel)
    requires
        s.wf(),
    ensures
        s.end_step() matches Ok(Some(t)) ==> captions_and_bodies_kept(s.state, t.state),
        s.dispatch() matches Ok(t) ==> captions_and_bodies_kept(s.state, t.state),
{
    match end_target(s) {
        Some(target) => {
            lemma_close_scope_keeps_captions(s.state, target, s.line_number, Seq::empty());
        },
        None => {},
    }
    lemma_reading_section(s);
    lemma_first_from(s.lines, s.pos as int, inked_line());
    match s.dispatch() {
        Ok(t) => {
            assert forall|i: int| 0 <= i < s.state.len() && i < t.state.len() implies {
                &&& (#[trigger] s.state[i]).section.caption is Some ==> t.state[i].section.caption
                    == s.state[i].section.caption
                &&& s.state[i].section.body is Some ==> t.state[i].section.body
                    == s.state[i].section.body
            } by {
                if i < s.state.len() - 1 {
                    assert(t.state[i] == s.state[i]);
                }
            }
        },
        Err(_) => {},
    }
}

/// Whether every section that is marked as having read a block in `before`
/// is still marked in `after`, where it is still open.
pub open spec fn marks_kept(before: Seq<FrameModel>, after: Seq<FrameModel>) -> bool {
    forall|i: int|
        0 <= i < before.len() && i < after.len() && (#[trigger] before[i]).section.block_body ==> (
        #[trigger] after[i]).section.block_body
}

proof fn lemma_close_scope_keeps_marks(
    state: Seq<FrameModel>,
    target: Seq<char>,
    line_number: nat,
    collected: Seq<SectionModel>,
)
    ensures
        close_scope(state, target, line_number, collected) matches Some(closed) ==> closed.len()
            <= state.len() && forall|i: int|
            0 <= i < closed.len() ==> (#[trigger] closed[i]).section.block_body
                == state[i].section.block_body,
    decreases state.len(),
        (if state.len() > 0 {
            state.last().readings.len()
        } else {
            0
        }),
{
    if state.len() > 0 {
        let top = state.last();
        let below = state.drop_last();
        if top.readings.len() == 0 {
            lemma_close_scope_keeps_marks(below, target, line_number, collected.push(top.section));
        } else {
            let next = below.push(
                FrameModel { section: top.section, readings: top.readings.drop_last() },
            );
            lemma_close_scope_keeps_marks(next, target, line_number, collected);
            match close_scope(state, target, line_number, collected) {
                Some(closed) => {
                    assert forall|i: int| 0 <= i < closed.len() implies (
                    #[trigger] closed[i]).section.block_body == state[i].section.block_body by {
                        if i < next.len() {
                            assert(next[i].section.block_body == state[i].section.block_body);
                        }
                    }
                },
                None => {},
            }
        }
    }
}

/// The mark that a section has read a block is never taken back: neither
/// an end marker nor a reading clears it for a section that stays open.
pub proof fn lemma_block_mark_is_kept(s: StateModel)
    requires
        s.wf(),
    ensures
        s.end_step() matches Ok(Some(t)) ==> marks_kept(s.state, t.state),
        s.pos < s.lines.len() ==> (s.dispatch() matches Ok(t) ==> marks_kept(s.state, t.state)),
{
    match end_target(s) {
        Some(target) => {
            lemma_close_scope_keeps_marks(s.state, target, s.line_number, Seq::empty());
        },
        None => {},
    }
    if s.pos < s.lines.len() {
        lemma_reading_section(s);
        lemma_first_from(s.lines, s.pos as int, inked_line());
        let f = s.clean_content();
        match s.dispatch() {
            Ok(t) => {
                assert forall|i: int|
                    0 <= i < s.state.len() && i < t.state.len() && (
                    #[trigger] s.state[i]).section.block_body implies (
                #[trigger] t.state[i]).section.block_body by {
                    if i < s.state.len() - 1 {
                        assert(t.state[i] == s.state[i]);
                    }
                }
            },
            Err(_) => {},
        }
    }
}

/// Once a section has read a block, what follows its headers is read as
/// the sections below it, never as its body: a reading of its headers either
/// reads a block header or turns to the sections below.
pub proof fn lemma_after_a_block_come_sections(s: StateModel)
    requires
        s.wf(),
        s.latest() == Some(ReadingModel::Section),
        s.state.last().section.block_body,
    ensures
        s.reading_block_headers() matches Ok(t) ==> t.pos > s.pos || (t.pos == s.pos && t.latest()
            == Some(ReadingModel::Subsection)),
{
    lemma_first_from(s.lines, s.pos as int, inked_line());
}

} // verus!
