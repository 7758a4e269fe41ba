//! The parser as a mathematical state machine.
//!
//! The machine reads the lines of a document from top to bottom. It keeps a
//! stack of open sections; beside each one it keeps what is being read for
//! it. One step looks at the line under the cursor and at the reading on top
//! of the stack, and either consumes lines or changes what is being read.
//! The executable parser is proved to take exactly these steps.

use crate::error::ErrorModel;
use crate::p11::line::{inked_line, lines_wf, significant_lines, line_count, LineModel};
use crate::p11::section::{BodyModel, HeaderModel, SectionModel};
use crate::p11::syntax::{
    active_mark, colon_parts, commented_mark, missing_colon, name_and_kind, opens_section,
    spec_clean_line, strip_prefix,
};
use crate::text::{first_from, is_blank, lemma_first_from, starts_with, trim, trim_start};
use vstd::prelude::*;

verus! {

/// What is being read for an open section.
pub enum ReadingModel {
    /// Its headers: the lines after its opening line.
    Section,
    /// The lines of a header that was opened without a value.
    Header { key: Seq<char>, kind: Option<Seq<char>> },
    /// The lines of its caption.
    Caption,
    /// The lines of its body.
    Body,
    /// The sections written below it.
    Subsection,
}

/// An open section and what is being read for it, innermost reading last.
pub struct FrameModel {
    pub section: SectionModel,
    pub readings: Seq<ReadingModel>,
}

/// The state of the parser.
pub struct StateModel {
    /// The lines of the document.
    pub lines: Seq<LineModel>,
    /// The count of the document's lines up to the last one that is not blank.
    pub total: nat,
    /// The index in `lines` of the next line to read.
    pub pos: nat,
    /// How many lines of the document have been read, comments included.
    pub line_number: nat,
    pub doc_id: Seq<char>,
    /// The open sections, outermost first.
    pub state: Seq<FrameModel>,
    /// The sections of the finished document.
    pub sections: Seq<SectionModel>,
}

/// The test for a line that begins with a mark that opens a section.
pub open spec fn intro_line() -> spec_fn(LineModel) -> bool {
    |l: LineModel| opens_section(l.text)
}

/// The caption written on a section's opening line or read from its caption
/// block, as a header.
pub open spec fn caption_header(value: Seq<char>, line_number: nat) -> HeaderModel {
    HeaderModel::KV { line_number, key: "$caption$"@, kind: None, value: Some(value) }
}

/// The lines from `from` up to `to`, each without its escape, joined by
/// newline characters.
pub open spec fn joined(lines: Seq<LineModel>, from: int, to: int) -> Seq<char>
    decreases to - from,
{
    if to <= from {
        Seq::<char>::empty()
    } else if to == from + 1 {
        spec_clean_line(lines[from].text)
    } else {
        joined(lines, from, to - 1) + seq!['\n'] + spec_clean_line(lines[to - 1].text)
    }
}

/// The header that stands on one line below a section's opening line. Its
/// line number counts from the line after the last line read before the
/// headers, which has the number zero.
pub open spec fn inline_header(line: LineModel, base: nat) -> HeaderModel {
    let parts = colon_parts(spec_clean_line(line.text))->0;
    let (key, kind) = name_and_kind(parts.0);
    HeaderModel::KV { line_number: (line.number - 1 - base) as nat, key, kind, value: parts.1 }
}

/// Whether the headers below an opening line stop at `line`: at a blank
/// line, at a line that opens a section, and at a line without a colon.
pub open spec fn stops_headers() -> spec_fn(LineModel) -> bool {
    |l: LineModel|
        is_blank(l.text) || opens_section(l.text) || colon_parts(spec_clean_line(l.text)) is None
}

/// The headers on the lines from `from` up to `to`.
pub open spec fn inline_headers(lines: Seq<LineModel>, from: int, to: int, base: nat) -> Seq<
    HeaderModel,
>
    decreases to - from,
{
    if to <= from {
        Seq::<HeaderModel>::empty()
    } else {
        inline_headers(lines, from, to - 1, base).push(inline_header(lines[to - 1], base))
    }
}

/// Closes the scope named `target`. Frames are taken from the top of the
/// stack until a reading matches: the headers of a section named `target`, or
/// a header `key` of a section `name` with `target` equal to `name.key`.
/// Readings that do not match are dropped; a section whose readings are used
/// up leaves the stack and is collected. The collected sections, in the order
/// in which they were opened, become the sub-sections of the matching
/// section, or the value of the matching header. `None` when the stack runs
/// out.
pub open spec fn close_scope(
    state: Seq<FrameModel>,
    target: Seq<char>,
    line_number: nat,
    collected: Seq<SectionModel>,
) -> Option<Seq<FrameModel>>
    decreases state.len(),
        (if state.len() > 0 {
            state.last().readings.len()
        } else {
            0
        }),
{
    if state.len() == 0 {
        None
    } else {
        let top = state.last();
        let below = state.drop_last();
        if top.readings.len() == 0 {
            close_scope(below, target, line_number, collected.push(top.section))
        } else {
            let rest = top.readings.drop_last();
            match top.readings.last() {
                ReadingModel::Section => if target == top.section.name {
                    Some(
                        below.push(
                            FrameModel {
                                section: SectionModel {
                                    sub_sections: top.section.sub_sections + collected.reverse(),
                                    ..top.section
                                },
                                readings: rest,
                            },
                        ),
                    )
                } else {
                    close_scope(
                        below.push(FrameModel { section: top.section, readings: rest }),
                        target,
                        line_number,
                        collected,
                    )
                },
                ReadingModel::Header { key, kind } => if target == top.section.name + seq!['.']
                    + key {
                    Some(
                        below.push(
                            FrameModel {
                                section: SectionModel {
                                    headers: top.section.headers.push(
                                        HeaderModel::Section {
                                            line_number,
                                            key,
                                            kind,
                                            section: collected.reverse(),
                                        },
                                    ),
                                    ..top.section
                                },
                                readings: rest,
                            },
                        ),
                    )
                } else {
                    close_scope(
                        below.push(FrameModel { section: top.section, readings: rest }),
                        target,
                        line_number,
                        collected,
                    )
                },
                _ => close_scope(
                    below.push(FrameModel { section: top.section, readings: rest }),
                    target,
                    line_number,
                    collected,
                ),
            }
        }
    }
}

/// The error for a caption where the section, which stands on line
/// `line_number`, has one.
pub open spec fn second_caption(doc_id: Seq<char>, line_number: nat) -> ErrorModel {
    ErrorModel::MoreThanOneCaption { doc_id, line_number }
}

/// The error for a body where the section, which stands on line
/// `line_number`, has one.
pub open spec fn second_body(doc_id: Seq<char>, line_number: nat) -> ErrorModel {
    ErrorModel::ParseError { message: "more than one body"@, doc_id, line_number }
}

/// The sections of a stack of frames, outermost first.
pub open spec fn frame_sections(state: Seq<FrameModel>) -> Seq<SectionModel> {
    Seq::new(state.len(), |i: int| state[i].section)
}

impl StateModel {
    /// The state before the first line of `content` is read.
    pub open spec fn start(content: Seq<char>, doc_id: Seq<char>) -> StateModel {
        StateModel {
            lines: significant_lines(content),
            total: line_count(content),
            pos: 0,
            line_number: 0,
            doc_id,
            state: Seq::empty(),
            sections: Seq::empty(),
        }
    }

    /// The cursor is within the lines, and the count of lines read is below
    /// the number of the line under the cursor.
    pub open spec fn wf(self) -> bool {
        &&& lines_wf(self.lines, self.total)
        &&& self.pos <= self.lines.len()
        &&& self.line_number <= self.total
        &&& self.pos < self.lines.len() ==> self.line_number < self.lines[self.pos as int].number
    }

    /// The reading on top of the stack.
    pub open spec fn latest(self) -> Option<ReadingModel> {
        if self.state.len() > 0 && self.state.last().readings.len() > 0 {
            Some(self.state.last().readings.last())
        } else {
            None
        }
    }

    /// The index of the first line at or after the cursor that is not blank.
    pub open spec fn clean_content(self) -> int {
        first_from(self.lines, self.pos as int, inked_line())
    }

    /// The count of lines read once every line before line `q` is read.
    pub open spec fn count_before(self, q: int) -> nat {
        if 0 <= q < self.lines.len() {
            (self.lines[q].number - 1) as nat
        } else {
            self.total
        }
    }

    /// The state with `frame` in place of the top of the stack.
    pub open spec fn with_top(self, frame: FrameModel) -> StateModel {
        StateModel { state: self.state.drop_last().push(frame), ..self }
    }

    /// The state with `reading` added to the readings of the top frame.
    pub open spec fn reading(self, reading: ReadingModel) -> StateModel {
        let top = self.state.last();
        self.with_top(FrameModel { section: top.section, readings: top.readings.push(reading) })
    }

    /// The top frame without its latest reading, when it has one.
    pub open spec fn without_latest(self) -> Option<FrameModel> {
        if self.state.len() > 0 && self.state.last().readings.len() > 0 {
            let top = self.state.last();
            Some(FrameModel { section: top.section, readings: top.readings.drop_last() })
        } else {
            None
        }
    }

    /// Reads one end marker, if the next line with text is one. `Ok(None)`
    /// when it is not. An end marker is a line that, after whitespace, opens
    /// a section named `end`; its caption names the scope to close.
    pub open spec fn end_step(self) -> Result<Option<StateModel>, ErrorModel> {
        let f = self.clean_content();
        if f < self.pos || f >= self.lines.len() {
            Ok(None)
        } else {
            let start = trim_start(self.lines[f].text);
            if !starts_with(start, active_mark()) {
                Ok(None)
            } else {
                let line = start.skip(2);
                match colon_parts(line) {
                    None => Err(missing_colon(line, self.doc_id, self.line_number + 1)),
                    Some((name, caption)) => if name != "end"@ {
                        Ok(None)
                    } else {
                        match caption {
                            None => Err(
                                ErrorModel::ParseError {
                                    message: "section name not provided for `end`"@,
                                    doc_id: self.doc_id,
                                    line_number: self.line_number,
                                },
                            ),
                            Some(target) => match close_scope(
                                self.state,
                                target,
                                self.line_number,
                                Seq::empty(),
                            ) {
                                None => Err(
                                    ErrorModel::ParseError {
                                        message: "No section found to end: "@ + target,
                                        doc_id: self.doc_id,
                                        line_number: self.line_number,
                                    },
                                ),
                                Some(state) => Ok(
                                    Some(
                                        StateModel {
                                            state,
                                            pos: (f + 1) as nat,
                                            line_number: self.lines[f].number,
                                            ..self
                                        },
                                    ),
                                ),
                            },
                        }
                    },
                }
            }
        }
    }

    /// Reads the end markers that follow one another at the cursor.
    pub open spec fn end(self) -> Result<StateModel, ErrorModel>
        decreases self.lines.len() - self.pos,
    {
        match self.end_step() {
            Err(e) => Err(e),
            Ok(None) => Ok(self),
            Ok(Some(s)) => s.end(),
        }
    }

    /// Reads the headers that stand one per line at the cursor, up to the
    /// first blank line, line that opens a section, or line without a colon,
    /// and gives them to the section on top of the stack.
    pub open spec fn reading_inline_headers(self) -> Result<StateModel, ErrorModel> {
        let q = first_from(self.lines, self.pos as int, stops_headers());
        let headers = inline_headers(self.lines, self.pos as int, q, self.line_number);
        let line_number = self.count_before(q);
        if self.latest() is None {
            Err(ErrorModel::SectionNotFound { doc_id: self.doc_id, line_number })
        } else {
            let top = self.state.last();
            Ok(
                StateModel { pos: q as nat, line_number, ..self }.with_top(
                    FrameModel {
                        section: SectionModel {
                            headers: top.section.headers + headers,
                            ..top.section
                        },
                        readings: top.readings,
                    },
                ),
            )
        }
    }

    /// Opens the section that the next line with text introduces, and reads
    /// the headers that stand on the lines below it. The line is trimmed. A
    /// line that does not begin with a mark that opens a section gives
    /// `SectionNotFound`; one without a colon, or without a name before the
    /// colon, gives a `ParseError`. What stands before the colon is the name
    /// of the section, after its kind if a space is in it; what stands after
    /// the colon is its caption.
    pub open spec fn reading_section(self) -> Result<StateModel, ErrorModel> {
        let f = self.clean_content();
        let not_found = ErrorModel::SectionNotFound {
            doc_id: self.doc_id,
            line_number: self.line_number + 1,
        };
        if f < 0 || f >= self.lines.len() {
            Err(not_found)
        } else {
            let start = trim(self.lines[f].text);
            if !opens_section(start) {
                Err(not_found)
            } else {
                let is_commented = starts_with(start, commented_mark());
                let line = if is_commented {
                    start.skip(3)
                } else {
                    start.skip(2)
                };
                let number = self.lines[f].number;
                match colon_parts(line) {
                    None => Err(missing_colon(line, self.doc_id, number)),
                    Some((name_with_kind, caption)) => {
                        let (name, kind) = name_and_kind(name_with_kind);
                        if name.len() == 0 {
                            Err(
                                ErrorModel::ParseError {
                                    message: "section name is missing in: "@ + line,
                                    doc_id: self.doc_id,
                                    line_number: number,
                                },
                            )
                        } else {
                            let section = SectionModel {
                                name,
                                kind,
                                caption: match caption {
                                    Some(v) => Some(caption_header(v, number)),
                                    None => None,
                                },
                                headers: Seq::empty(),
                                body: None,
                                sub_sections: Seq::empty(),
                                is_commented,
                                line_number: number,
                                block_body: false,
                            };
                            StateModel {
                                state: self.state.push(
                                    FrameModel { section, readings: seq![ReadingModel::Section] },
                                ),
                                pos: (f + 1) as nat,
                                line_number: number,
                                ..self
                            }.reading_inline_headers()
                        }
                    },
                }
            }
        }
    }

    /// Reads the next header that stands in a block of its own below the
    /// section on top of the stack: a line that opens a section whose name is
    /// the section's name, a dot and the key. With a value on that line the
    /// header is complete; without one, its value, the caption or the body is
    /// read next. The key `caption` for a section that has a caption gives
    /// `MoreThanOneCaption`, and the key `body` for a section that has a body
    /// is refused too, whatever the kind. Any other line leaves the headers:
    /// the body is read next, or the sections below once a block has been
    /// read.
    pub open spec fn reading_block_headers(self) -> Result<StateModel, ErrorModel> {
        let f = self.clean_content();
        if self.state.len() == 0 {
            Err(ErrorModel::SectionNotFound { doc_id: self.doc_id, line_number: self.line_number })
        } else {
            let top = self.state.last();
            let fallback = if !top.section.block_body {
                ReadingModel::Body
            } else {
                ReadingModel::Subsection
            };
            let start = if 0 <= f < self.lines.len() {
                trim(self.lines[f].text)
            } else {
                Seq::<char>::empty()
            };
            if !opens_section(start) {
                Ok(self.reading(fallback))
            } else {
                let line = if starts_with(start, commented_mark()) {
                    start.skip(3)
                } else {
                    start.skip(2)
                };
                match colon_parts(line) {
                    None => Err(missing_colon(line, self.doc_id, self.line_number)),
                    Some((name_with_kind, value)) => {
                        let (name, kind) = name_and_kind(name_with_kind);
                        match strip_prefix(name, top.section.name + seq!['.']) {
                            None => Ok(self.reading(fallback)),
                            Some(key) => {
                                let number = self.lines[f].number;
                                let moved = StateModel {
                                    pos: (f + 1) as nat,
                                    line_number: number,
                                    ..self
                                };
                                if key == "caption"@ && top.section.caption is Some {
                                    Err(second_caption(self.doc_id, top.section.line_number))
                                } else if key == "body"@ && top.section.body is Some {
                                    Err(second_body(self.doc_id, top.section.line_number))
                                } else {
                                    match value {
                                        Some(v) => Ok(
                                            moved.with_top(
                                                FrameModel {
                                                    section: SectionModel {
                                                        block_body: true,
                                                        headers: top.section.headers.push(
                                                            HeaderModel::KV {
                                                                line_number: number,
                                                                key,
                                                                kind,
                                                                value: Some(v),
                                                            },
                                                        ),
                                                        ..top.section
                                                    },
                                                    readings: top.readings,
                                                },
                                            ),
                                        ),
                                        None => Ok(
                                            moved.with_top(
                                                FrameModel {
                                                    section: SectionModel {
                                                        block_body: true,
                                                        ..top.section
                                                    },
                                                    readings: top.readings.push(
                                                        if key == "caption"@ {
                                                            ReadingModel::Caption
                                                        } else if key == "body"@ {
                                                            ReadingModel::Body
                                                        } else {
                                                            ReadingModel::Header { key, kind }
                                                        },
                                                    ),
                                                },
                                            ),
                                        ),
                                    }
                                }
                            },
                        }
                    },
                }
            }
        }
    }

    /// The index of the line at which the block at the cursor ends: the
    /// first line that begins with a mark that opens a section, or the end of
    /// the lines.
    pub open spec fn block_end(self) -> int {
        first_from(self.lines, self.pos as int, intro_line())
    }

    /// A block has to begin with a blank line.
    pub open spec fn block_refused(self) -> bool {
        self.pos < self.block_end() && !is_blank(self.lines[self.pos as int].text)
    }

    /// The error for a block of `what` that does not begin with a blank line.
    pub open spec fn block_error(self, what: Seq<char>) -> ErrorModel {
        ErrorModel::ParseError {
            message: "start section "@ + what + " '"@ + self.lines[self.pos as int].text
                + "' after a newline!!"@,
            doc_id: self.doc_id,
            line_number: self.lines[self.pos as int].number,
        }
    }

    /// The text of the block at the cursor: its lines without their escapes,
    /// joined, and trimmed as a whole.
    pub open spec fn block_value(self) -> Seq<char> {
        trim(joined(self.lines, self.pos as int, self.block_end()))
    }

    /// The state with the cursor after the block.
    pub open spec fn after_block(self) -> StateModel {
        StateModel {
            pos: self.block_end() as nat,
            line_number: self.count_before(self.block_end()),
            ..self
        }
    }

    /// Reads the value of the header `key` that was opened without one. Where
    /// the next line with text opens a section, that section is read instead
    /// and the header stays open until its end marker. Otherwise the block at
    /// the cursor is the value, and an empty block is no value.
    pub open spec fn reading_header_value(
        self,
        key: Seq<char>,
        kind: Option<Seq<char>>,
    ) -> Result<StateModel, ErrorModel> {
        let f = self.clean_content();
        if 0 <= f < self.lines.len() && opens_section(trim(self.lines[f].text)) {
            self.reading_section()
        } else if self.block_refused() {
            Err(self.block_error("header"@))
        } else {
            let s = self.after_block();
            let value = self.block_value();
            match s.without_latest() {
                None => Err(
                    ErrorModel::SectionNotFound { doc_id: self.doc_id, line_number: s.line_number },
                ),
                Some(frame) => Ok(
                    s.with_top(
                        FrameModel {
                            section: SectionModel {
                                headers: frame.section.headers.push(
                                    HeaderModel::KV {
                                        line_number: s.line_number,
                                        key,
                                        kind,
                                        value: if value.len() == 0 {
                                            None
                                        } else {
                                            Some(value)
                                        },
                                    },
                                ),
                                ..frame.section
                            },
                            readings: frame.readings,
                        },
                    ),
                ),
            }
        }
    }

    /// Reads the block at the cursor as the caption of the section on top of
    /// the stack. A section that has a caption keeps it: the block is
    /// refused with `MoreThanOneCaption`.
    pub open spec fn reading_caption_value(self) -> Result<StateModel, ErrorModel> {
        if self.block_refused() {
            Err(self.block_error("caption"@))
        } else {
            let s = self.after_block();
            match s.without_latest() {
                None => Err(
                    ErrorModel::SectionNotFound { doc_id: self.doc_id, line_number: s.line_number },
                ),
                Some(frame) => if frame.section.caption is Some {
                    Err(second_caption(self.doc_id, frame.section.line_number))
                } else {
                    Ok(
                        s.with_top(
                            FrameModel {
                                section: SectionModel {
                                    caption: Some(caption_header(self.block_value(), s.line_number)),
                                    ..frame.section
                                },
                                readings: frame.readings,
                            },
                        ),
                    )
                },
            }
        }
    }

    /// Reads the block at the cursor as the body of the section on top of the
    /// stack; an empty block leaves the section as it is. A section that has
    /// a body keeps it: a block with text is refused. Unless a block header
    /// has been read for the section, the sections below it are read next.
    pub open spec fn reading_body_value(self) -> Result<StateModel, ErrorModel> {
        if self.block_refused() {
            Err(self.block_error("body"@))
        } else {
            let s = self.after_block();
            let value = self.block_value();
            match s.without_latest() {
                None => Err(
                    ErrorModel::SectionNotFound { doc_id: self.doc_id, line_number: s.line_number },
                ),
                Some(frame) => if value.len() > 0 && frame.section.body is Some {
                    Err(second_body(self.doc_id, frame.section.line_number))
                } else {
                    let section = if value.len() == 0 {
                        frame.section
                    } else {
                        SectionModel {
                            body: Some(BodyModel { line_number: s.line_number, value }),
                            ..frame.section
                        }
                    };
                    Ok(
                        s.with_top(
                            FrameModel {
                                section,
                                readings: if !section.block_body {
                                    frame.readings.push(ReadingModel::Subsection)
                                } else {
                                    frame.readings
                                },
                            },
                        ),
                    )
                },
            }
        }
    }

    /// Reads on according to the reading on top of the stack.
    pub open spec fn dispatch(self) -> Result<StateModel, ErrorModel> {
        match self.latest() {
            None => self.reading_section(),
            Some(ReadingModel::Subsection) => self.reading_section(),
            Some(ReadingModel::Section) => self.reading_block_headers(),
            Some(ReadingModel::Header { key, kind }) => self.reading_header_value(key, kind),
            Some(ReadingModel::Caption) => self.reading_caption_value(),
            Some(ReadingModel::Body) => self.reading_body_value(),
        }
    }

    /// The state with every open section moved to the finished sections.
    pub open spec fn drained(self) -> StateModel {
        StateModel {
            sections: self.sections + frame_sections(self.state),
            state: Seq::empty(),
            ..self
        }
    }

    /// One step of the parser: the end markers at the cursor, then either the
    /// end of the document, where the open sections are finished, or one
    /// reading. The flag says whether the document is finished.
    pub open spec fn next(self) -> Result<(StateModel, bool), ErrorModel> {
        match self.end() {
            Err(e) => Err(e),
            Ok(s) => if s.pos >= s.lines.len() {
                Ok((s.drained(), true))
            } else {
                match s.dispatch() {
                    Err(e) => Err(e),
                    Ok(t) => Ok((t, false)),
                }
            },
        }
    }

    /// How many steps without reading a line the top of the stack allows.
    pub open spec fn rank(self) -> nat {
        if self.state.len() == 0 {
            0
        } else {
            let top = self.state.last();
            let held: nat = if top.readings.len() == 0 {
                0
            } else {
                match top.readings.last() {
                    ReadingModel::Subsection => 0,
                    ReadingModel::Body => if top.section.block_body {
                        3
                    } else {
                        1
                    },
                    ReadingModel::Section => if top.section.block_body {
                        2
                    } else {
                        3
                    },
                    ReadingModel::Caption => 3,
                    ReadingModel::Header { .. } => 3,
                }
            };
            held + top.readings.len()
        }
    }
}

impl StateModel {
    /// The parser from this state on: steps until the document is finished
    /// or a step fails.
    pub open spec fn run(self) -> Result<Seq<SectionModel>, ErrorModel>
        decreases self.lines.len() - self.pos, self.rank(),
        when self.wf()
    {
        match self.next() {
            Err(e) => Err(e),
            Ok((s, done)) => if done {
                Ok(s.sections)
            } else {
                proof {
                    lemma_next(self);
                }
                s.run()
            },
        }
    }
}

/// The sections of the document `content`, or the first error in it.
pub open spec fn parsed(content: Seq<char>, doc_id: Seq<char>) -> Result<
    Seq<SectionModel>,
    ErrorModel,
> {
    StateModel::start(content, doc_id).run()
}

/// Whether `t` is a state of the same document as `s`.
pub open spec fn same_document(s: StateModel, t: StateModel) -> bool {
    &&& t.lines == s.lines
    &&& t.total == s.total
    &&& t.doc_id == s.doc_id
}

/// Reading an end marker moves the cursor on and leaves the state well formed.
pub proof fn lemma_end_step(s: StateModel)
    requires
        s.wf(),
    ensures
        s.end_step() matches Ok(Some(t)) ==> t.wf() && same_document(s, t) && t.pos > s.pos
            && t.sections == s.sections,
{
    lemma_first_from(s.lines, s.pos as int, inked_line());
}

/// Reading end markers never moves the cursor back, and changes nothing where
/// it does not move it.
pub proof fn lemma_end(s: StateModel)
    requires
        s.wf(),
    ensures
        s.end() matches Ok(t) ==> {
            &&& t.wf()
            &&& same_document(s, t)
            &&& t.pos >= s.pos
            &&& t.sections == s.sections
            &&& t.pos == s.pos ==> t == s
        },
    decreases s.lines.len() - s.pos,
{
    lemma_end_step(s);
    match s.end_step() {
        Ok(Some(t)) => {
            lemma_end(t);
        },
        _ => {},
    }
}

/// Reading headers never moves the cursor back and leaves the stack as high
/// as it was.
pub proof fn lemma_reading_inline_headers(s: StateModel)
    requires
        s.wf(),
    ensures
        s.reading_inline_headers() matches Ok(t) ==> {
            &&& t.wf()
            &&& same_document(s, t)
            &&& t.pos >= s.pos
            &&& t.sections == s.sections
            &&& t.state.len() == s.state.len()
        },
{
    lemma_first_from(s.lines, s.pos as int, stops_headers());
}

/// Opening a section moves the cursor on.
pub proof fn lemma_reading_section(s: StateModel)
    requires
        s.wf(),
    ensures
        s.reading_section() matches Ok(t) ==> {
            &&& t.wf()
            &&& same_document(s, t)
            &&& t.pos > s.pos
            &&& t.sections == s.sections
        },
{
    lemma_first_from(s.lines, s.pos as int, inked_line());
    let f = s.clean_content();
    if 0 <= f < s.lines.len() {
        let start = trim(s.lines[f].text);
        if opens_section(start) {
            let line = if starts_with(start, commented_mark()) {
                start.skip(3)
            } else {
                start.skip(2)
            };
            match colon_parts(line) {
                Some((name_with_kind, caption)) => {
                    let (name, kind) = name_and_kind(name_with_kind);
                    if name.len() > 0 {
                        let number = s.lines[f].number;
                        let section = SectionModel {
                            name,
                            kind,
                            caption: match caption {
                                Some(v) => Some(caption_header(v, number)),
                                None => None,
                            },
                            headers: Seq::empty(),
                            body: None,
                            sub_sections: Seq::empty(),
                            is_commented: starts_with(start, commented_mark()),
                            line_number: number,
                            block_body: false,
                        };
                        let opened = StateModel {
                            state: s.state.push(
                                FrameModel { section, readings: seq![ReadingModel::Section] },
                            ),
                            pos: (f + 1) as nat,
                            line_number: number,
                            ..s
                        };
                        assert(opened.wf());
                        lemma_reading_inline_headers(opened);
                    }
                },
                None => {},
            }
        }
    }
}

/// Reading a block never moves the cursor back.
pub proof fn lemma_after_block(s: StateModel)
    requires
        s.wf(),
    ensures
        s.after_block().wf(),
        s.after_block().pos >= s.pos,
{
    lemma_first_from(s.lines, s.pos as int, intro_line());
}

/// A reading either moves the cursor on or leaves less to do for the top of
/// the stack.
pub proof fn lemma_dispatch(s: StateModel)
    requires
        s.wf(),
        s.pos < s.lines.len(),
    ensures
        s.dispatch() matches Ok(t) ==> {
            &&& t.wf()
            &&& same_document(s, t)
            &&& t.sections == s.sections
            &&& t.pos > s.pos || (t.pos == s.pos && t.rank() < s.rank())
        },
{
    lemma_first_from(s.lines, s.pos as int, inked_line());
    lemma_reading_section(s);
    lemma_after_block(s);
}

/// A step that does not finish the document either moves the cursor on or
/// leaves less to do for the top of the stack: the parser ends.
pub proof fn lemma_next(s: StateModel)
    requires
        s.wf(),
    ensures
        s.next() matches Ok((t, done)) ==> {
            &&& t.wf()
            &&& same_document(s, t)
            &&& !done ==> t.sections == s.sections
            &&& !done ==> t.pos > s.pos || (t.pos == s.pos && t.rank() < s.rank())
        },
{
    lemma_end(s);
    match s.end() {
        Ok(t) => {
            if t.pos < t.lines.len() {
                lemma_dispatch(t);
            }
        },
        Err(_) => {},
    }
}

} // verus!
