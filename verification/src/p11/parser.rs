//! The parser: the executable state machine over the lines of a document.

use crate::error::{Error, ErrorModel};
use crate::p11::line::{inked_line, line_views, significant, Line};
use crate::p11::laws::{has_open_scope, lemma_close_scope_needs_open, names_scope, opens_scope};
use crate::p11::machine::{
    close_scope, same_document, frame_sections, inline_header, inline_headers, intro_line,
    joined, lemma_after_block, lemma_end_step, lemma_next,
    lemma_reading_inline_headers, lemma_reading_section, parsed, stops_headers, FrameModel,
    ReadingModel, StateModel,
};
use crate::p11::section::{
    copy_opt, header_views, lemma_header_view, lemma_section_view, opt_text, section_views, Body, Header,
    HeaderModel, Section, SectionModel,
};
use crate::p11::syntax::{
    clean_line, colon_separated_values, get_name_and_kind, is_active, is_body, is_caption,
    is_commented, is_end, is_introducer, opt_chars, stripped,
};
use crate::text::{
    append_chars, blank, lemma_first_from_is, same_chars, slice_of, to_chars, to_text, trimmed,
    trimmed_start,
};
use vstd::prelude::*;

verus! {

/// What is being read for an open section.
#[derive(Debug, PartialEq)]
pub enum Reading {
    Section,
    Header { key: String, kind: Option<String> },
    Caption,
    Body,
    Subsection,
}

impl View for Reading {
    type V = ReadingModel;

    open spec fn view(&self) -> ReadingModel {
        match self {
            Reading::Section => ReadingModel::Section,
            Reading::Header { key, kind } => ReadingModel::Header {
                key: key@,
                kind: opt_text(*kind),
            },
            Reading::Caption => ReadingModel::Caption,
            Reading::Body => ReadingModel::Body,
            Reading::Subsection => ReadingModel::Subsection,
        }
    }
}

/// The values of a list of readings.
pub open spec fn reading_views(s: Seq<Reading>) -> Seq<ReadingModel> {
    Seq::new(s.len(), |i: int| s[i]@)
}

/// An open section and what is being read for it, innermost reading last.
#[derive(Debug, PartialEq)]
pub struct Frame {
    pub section: Section,
    pub readings: Vec<Reading>,
}

impl View for Frame {
    type V = FrameModel;

    open spec fn view(&self) -> FrameModel {
        FrameModel { section: self.section@, readings: reading_views(self.readings@) }
    }
}

/// The values of a stack of open sections.
pub open spec fn frame_views(s: Seq<Frame>) -> Seq<FrameModel> {
    Seq::new(s.len(), |i: int| s[i]@)
}

/// The state of the parser: the lines of the document, the cursor, the
/// count of lines read, the stack of open sections and the finished
/// sections.
#[derive(Debug, PartialEq)]
pub struct State {
    pub lines: Vec<Line>,
    pub total: usize,
    pub pos: usize,
    pub line_number: usize,
    pub doc_id: String,
    pub state: Vec<Frame>,
    pub sections: Vec<Section>,
}

impl View for State {
    type V = StateModel;

    open spec fn view(&self) -> StateModel {
        StateModel {
            lines: line_views(self.lines@),
            total: self.total as nat,
            pos: self.pos as nat,
            line_number: self.line_number as nat,
            doc_id: self.doc_id@,
            state: frame_views(self.state@),
            sections: section_views(self.sections@),
        }
    }
}

/// A copy of an optional text.
pub fn opt_to_text(o: &Option<Vec<char>>) -> (r: Option<String>)
    ensures
        opt_text(r) == opt_chars(*o),
{
    match o {
        Some(v) => Some(to_text(v)),
        None => None,
    }
}

/// Moves the sections of `source` to the end of `target`, last one first.
pub fn append_reversed(target: &mut Vec<Section>, source: Vec<Section>)
    ensures
        section_views(final(target)@) == section_views(old(target)@) + section_views(
            source@,
        ).reverse(),
{
    let mut source = source;
    let ghost all = section_views(source@);
    let ghost start = section_views(target@);
    while source.len() > 0
        invariant
            section_views(target@) + section_views(source@).reverse() == start + all.reverse(),
        decreases source.len(),
    {
        let ghost t0 = section_views(target@);
        let ghost s0 = section_views(source@);
        let last = source.pop().unwrap();
        target.push(last);
        assert(section_views(target@) == t0.push(s0.last()));
        assert(section_views(source@) == s0.drop_last());
        assert(t0.push(s0.last()) + s0.drop_last().reverse() == t0 + s0.reverse());
    }
    assert(section_views(source@).reverse() == Seq::<SectionModel>::empty());
}

/// Moves the headers of `source` to the end of `target`, in order.
pub fn append_headers(target: &mut Vec<Header>, source: Vec<Header>)
    ensures
        header_views(final(target)@) == header_views(old(target)@) + header_views(source@),
{
    let mut source = source;
    target.append(&mut source);
}

impl State {
    /// The state before the first line of `content` is read.
    pub fn new(content: &str, doc_id: &str) -> (s: State)
        ensures
            s@ == StateModel::start(content@, doc_id@),
            s@.wf(),
    {
        let (lines, total) = significant(content);
        let s = State {
            lines,
            total,
            pos: 0,
            line_number: 0,
            doc_id: doc_id.to_owned(),
            state: Vec::new(),
            sections: Vec::new(),
        };
        assert(s@.state == Seq::<FrameModel>::empty());
        assert(s@.sections == Seq::<SectionModel>::empty());
        s
    }

    /// The index of the first line at or after the cursor that is not blank.
    pub fn clean_content(&self) -> (f: usize)
        requires
            self@.wf(),
        ensures
            f == self@.clean_content(),
            self.pos <= f <= self.lines.len(),
            self.pos < self.lines.len() ==> f < self.lines.len(),
    {
        let mut i: usize = self.pos;
        while i < self.lines.len() && blank(&self.lines[i].text)
            invariant
                self.pos <= i <= self.lines.len(),
                forall|j: int| self.pos <= j < i ==> !inked_line()(#[trigger] self@.lines[j]),
            decreases self.lines.len() - i,
        {
            i += 1;
        }
        proof {
            lemma_first_from_is(self@.lines, self.pos as int, i as int, inked_line());
        }
        i
    }

    /// The count of lines read once every line before line `q` is read.
    fn count_before(&self, q: usize) -> (n: usize)
        requires
            self@.wf(),
        ensures
            n == self@.count_before(q as int),
    {
        if q < self.lines.len() {
            assert(self@.lines[q as int].number >= 1);
            self.lines[q].number - 1
        } else {
            self.total
        }
    }

    /// Looks at the block at the cursor: the lines up to the next line that
    /// begins with a mark that opens a section. Returns its text and the
    /// index of the line at which it ends. `what` names the block in the
    /// error for one that does not begin with a blank line.
    fn scan_block(&self, what: &str) -> (r: Result<(Vec<char>, usize), Error>)
        requires
            self@.wf(),
        ensures
            match r {
                Ok((value, end)) => {
                    &&& !self@.block_refused()
                    &&& value@ == self@.block_value()
                    &&& end == self@.block_end()
                    &&& self.pos <= end <= self.lines.len()
                },
                Err(e) => self@.block_refused() && e@ == self@.block_error(what@),
            },
    {
        let from = self.pos;
        let mut text: Vec<char> = Vec::new();
        let mut i: usize = from;
        while i < self.lines.len() && !is_introducer(&self.lines[i].text)
            invariant
                from <= i <= self.lines.len(),
                forall|j: int| from <= j < i ==> !intro_line()(#[trigger] self@.lines[j]),
                text@ == joined(self@.lines, from as int, i as int),
            decreases self.lines.len() - i,
        {
            if i > from {
                text.push('\n');
            }
            let cleaned = clean_line(&self.lines[i].text);
            append_chars(&mut text, &cleaned);
            i += 1;
        }
        proof {
            lemma_first_from_is(self@.lines, from as int, i as int, intro_line());
        }
        if from < i && !blank(&self.lines[from].text) {
            return Err(self.block_failure(what));
        }
        Ok((trimmed(&text), i))
    }

    /// Whether the scope `target` is open: see `has_open_scope`.
    fn has_open(&self, target: &Vec<char>) -> (found: bool)
        ensures
            found == has_open_scope(self@.state, target@),
    {
        let mut i: usize = 0;
        while i < self.state.len()
            invariant
                i <= self.state.len(),
                forall|k: int| 0 <= k < i ==> !opens_scope(#[trigger] self@.state[k], target@),
            decreases self.state.len() - i,
        {
            let frame = &self.state[i];
            proof {
                lemma_section_view(frame.section);
            }
            let name = to_chars(frame.section.name.as_str());
            let mut j: usize = 0;
            while j < frame.readings.len()
                invariant
                    j <= frame.readings.len(),
                    i < self.state.len(),
                    *frame == self.state[i as int],
                    name@ == frame@.section.name,
                    forall|k: int|
                        0 <= k < j ==> !names_scope(
                            frame@.section.name,
                            #[trigger] frame@.readings[k],
                            target@,
                        ),
                decreases frame.readings.len() - j,
            {
                let matched = match &frame.readings[j] {
                    Reading::Section => same_chars(target, &name),
                    Reading::Header { key, .. } => {
                        let mut full = to_chars(frame.section.name.as_str());
                        full.push('.');
                        append_chars(&mut full, &to_chars(key.as_str()));
                        assert(full@ == frame@.section.name + seq!['.'] + key@);
                        same_chars(target, &full)
                    },
                    _ => false,
                };
                assert(matched == names_scope(
                    frame@.section.name,
                    frame@.readings[j as int],
                    target@,
                ));
                if matched {
                    assert(opens_scope(self@.state[i as int], target@));
                    return true;
                }
                j += 1;
            }
            i += 1;
        }
        false
    }

    /// The error for a block of `what` that does not begin with a blank line.
    fn block_failure(&self, what: &str) -> (e: Error)
        requires
            self.pos < self.lines.len(),
        ensures
            e@ == self@.block_error(what@),
    {
        let mut message = "start section ".to_owned();
        crate::text::push_chars(&mut message, &to_chars(what));
        crate::text::push_chars(&mut message, &to_chars(" '"));
        crate::text::push_chars(&mut message, &self.lines[self.pos].text);
        crate::text::push_chars(&mut message, &to_chars("' after a newline!!"));
        Error::ParseError {
            message,
            doc_id: self.doc_id.clone(),
            line_number: self.lines[self.pos].number,
        }
    }

    /// Closes the scope named `target`: see `close_scope`. Returns whether a
    /// scope of that name was open.
    fn close(&mut self, target: &Vec<char>) -> (found: bool)
        ensures
            match close_scope(
                old(self)@.state,
                target@,
                old(self)@.line_number,
                Seq::empty(),
            ) {
                Some(state) => found && final(self)@ == (StateModel { state, ..old(self)@ }),
                None => !found,
            },
            final(self)@ == (StateModel { state: final(self)@.state, ..old(self)@ }),
    {
        let ghost goal = close_scope(self@.state, target@, self@.line_number, Seq::empty());
        let ghost start = self@;
        let mut collected: Vec<Section> = Vec::new();
        assert(section_views(collected@) == Seq::<SectionModel>::empty());
        loop
            invariant
                close_scope(self@.state, target@, self@.line_number, section_views(collected@))
                    == goal,
                self@ == (StateModel { state: self@.state, ..start }),
                start == old(self)@,
                goal == close_scope(
                    old(self)@.state,
                    target@,
                    old(self)@.line_number,
                    Seq::empty(),
                ),
            decreases
                    self.state.len(),
                    (if self.state.len() > 0 {
                        self.state@.last().readings.len()
                    } else {
                        0
                    }),
        {
            let ghost before = self@.state;
            let ghost gathered = section_views(collected@);
            match self.state.pop() {
                None => {
                    return false;
                },
                Some(frame) => {
                    let mut frame = frame;
                    assert(frame@ == before.last());
                    assert(self@.state == before.drop_last());
                    let ghost top = frame@;
                    let ghost old_section = frame.section;
                    proof {
                        lemma_section_view(old_section);
                    }
                    match frame.readings.pop() {
                        None => {
                            collected.push(frame.section);
                            assert(section_views(collected@) == gathered.push(top.section));
                        },
                        Some(reading) => {
                            assert(reading@ == top.readings.last());
                            assert(reading_views(frame.readings@) == top.readings.drop_last());
                            match reading {
                                Reading::Section => {
                                    let name = to_chars(frame.section.name.as_str());
                                    if same_chars(target, &name) {
                                        append_reversed(&mut frame.section.sub_sections, collected);
                                        proof {
                                            lemma_section_view(frame.section);
                                        }
                                        self.state.push(frame);
                                        assert(self@.state == before.drop_last().push(frame@));
                                        return true;
                                    }
                                },
                                Reading::Header { key, kind } => {
                                    let mut full = to_chars(frame.section.name.as_str());
                                    full.push('.');
                                    append_chars(&mut full, &to_chars(key.as_str()));
                                    assert(full@ == top.section.name + seq!['.'] + key@);
                                    if same_chars(target, &full) {
                                        let mut section: Vec<Section> = Vec::new();
                                        append_reversed(&mut section, collected);
                                        let header = Header::Section {
                                            line_number: self.line_number,
                                            key,
                                            kind,
                                            section,
                                        };
                                        proof {
                                            lemma_header_view(header);
                                        }
                                        let ghost h0 = header_views(frame.section.headers@);
                                        frame.section.headers.push(header);
                                        assert(header_views(frame.section.headers@) == h0.push(
                                            header@,
                                        ));
                                        proof {
                                            lemma_section_view(frame.section);
                                        }
                                        self.state.push(frame);
                                        assert(self@.state == before.drop_last().push(frame@));
                                        return true;
                                    }
                                },
                                _ => {},
                            }
                            self.state.push(frame);
                            assert(self@.state == before.drop_last().push(frame@));
                        },
                    }
                },
            }
        }
    }

    /// Reads one end marker, if the next line with text is one. Returns
    /// whether it was.
    fn end_step(&mut self) -> (r: Result<bool, Error>)
        requires
            old(self)@.wf(),
        ensures
            match r {
                Ok(true) => old(self)@.end_step() == Ok::<Option<StateModel>, ErrorModel>(
                    Some(final(self)@),
                ) && final(self)@.wf(),
                Ok(false) => old(self)@.end_step() == Ok::<Option<StateModel>, ErrorModel>(None)
                    && final(self)@ == old(self)@,
                Err(e) => old(self)@.end_step() == Err::<Option<StateModel>, ErrorModel>(e@)
                    && final(self)@ == old(self)@,
            },
    {
        proof {
            lemma_end_step(self@);
        }
        let f = self.clean_content();
        if f >= self.lines.len() {
            return Ok(false);
        }
        let start = trimmed_start(&self.lines[f].text);
        if !is_active(&start) {
            return Ok(false);
        }
        let line = slice_of(&start, 2, start.len());
        assert(line@ == start@.skip(2));
        assert(self@.lines[self.pos as int].number <= self@.lines[f as int].number);
        let (name, caption) = match colon_separated_values(
            self.line_number + 1,
            &line,
            self.doc_id.as_str(),
        ) {
            Ok(parts) => parts,
            Err(e) => {
                return Err(e);
            },
        };
        if !is_end(&name) {
            return Ok(false);
        }
        let target = match caption {
            Some(target) => target,
            None => {
                return Err(
                    Error::plain(
                        "section name not provided for `end`",
                        self.doc_id.as_str(),
                        self.line_number,
                    ),
                );
            },
        };
        proof {
            lemma_close_scope_needs_open(self@.state, target@, self@.line_number, Seq::empty());
        }
        if !self.has_open(&target) {
            return Err(
                Error::detailed(
                    "No section found to end: ",
                    &target,
                    self.doc_id.as_str(),
                    self.line_number,
                ),
            );
        }
        let found = self.close(&target);
        assert(found);
        self.line_number = self.lines[f].number;
        self.pos = f + 1;
        Ok(true)
    }

    /// Reads the end markers that follow one another at the cursor. Each
    /// closes the scope that it names. When one cannot be read, the state is
    /// as the markers before it left it; the finished sections are never
    /// touched.
    pub fn end(&mut self) -> (r: Result<(), Error>)
        requires
            old(self)@.wf(),
        ensures
            match r {
                Ok(()) => old(self)@.end() == Ok::<StateModel, ErrorModel>(final(self)@)
                    && final(self)@.wf(),
                Err(e) => old(self)@.end() == Err::<StateModel, ErrorModel>(e@),
            },
            final(self)@.wf(),
            same_document(old(self)@, final(self)@),
            final(self)@.sections == old(self)@.sections,
    {
        loop
            invariant
                self@.wf(),
                self@.end() == old(self)@.end(),
                same_document(old(self)@, self@),
                self@.sections == old(self)@.sections,
            decreases self.lines.len() - self.pos,
        {
            proof {
                lemma_end_step(self@);
            }
            match self.end_step() {
                Err(e) => {
                    return Err(e);
                },
                Ok(false) => {
                    return Ok(());
                },
                Ok(true) => {},
            }
        }
    }

    /// The header on line `i`, unless the headers stop there.
    fn header_at(&self, i: usize, base: usize) -> (r: Option<Header>)
        requires
            i < self.lines.len(),
            base < self.lines[i as int].number,
        ensures
            match r {
                None => stops_headers()(self@.lines[i as int]),
                Some(h) => !stops_headers()(self@.lines[i as int]) && h@ == inline_header(
                    self@.lines[i as int],
                    base as nat,
                ),
            },
    {
        let line = &self.lines[i];
        if blank(&line.text) || is_introducer(&line.text) {
            return None;
        }
        let cleaned = clean_line(&line.text);
        match colon_separated_values(self.line_number, &cleaned, self.doc_id.as_str()) {
            Err(_) => None,
            Ok((name_with_kind, value)) => {
                let (key, kind) = get_name_and_kind(&name_with_kind);
                Some(
                    Header::KV {
                        line_number: line.number - 1 - base,
                        key: to_text(&key),
                        kind: opt_to_text(&kind),
                        value: opt_to_text(&value),
                    },
                )
            },
        }
    }

    /// Reads the headers that stand one per line at the cursor, up to the
    /// first blank line, line that opens a section, or line without a colon,
    /// and gives them to the section on top of the stack.
    pub fn reading_inline_headers(&mut self) -> (r: Result<(), Error>)
        requires
            old(self)@.wf(),
        ensures
            match r {
                Ok(()) => old(self)@.reading_inline_headers() == Ok::<StateModel, ErrorModel>(
                    final(self)@,
                ) && final(self)@.wf(),
                Err(e) => old(self)@.reading_inline_headers() == Err::<StateModel, ErrorModel>(e@)
                    && final(self)@ == old(self)@,
            },
    {
        proof {
            lemma_reading_inline_headers(self@);
        }
        let base = self.line_number;
        let from = self.pos;
        let mut headers: Vec<Header> = Vec::new();
        let mut i: usize = from;
        let mut going = true;
        assert(header_views(headers@) == Seq::<HeaderModel>::empty());
        while going && i < self.lines.len()
            invariant
                self@.wf(),
                self@ == old(self)@,
                base == self.line_number,
                from == self.pos,
                from <= i <= self.lines.len(),
                forall|j: int| from <= j < i ==> !stops_headers()(#[trigger] self@.lines[j]),
                header_views(headers@) == inline_headers(
                    self@.lines,
                    from as int,
                    i as int,
                    base as nat,
                ),
                !going ==> i < self.lines.len() && stops_headers()(self@.lines[i as int]),
            decreases
                    self.lines.len() - i,
                    (if going {
                        1nat
                    } else {
                        0nat
                    }),
        {
            assert(self@.lines[from as int].number <= self@.lines[i as int].number);
            match self.header_at(i, base) {
                None => {
                    going = false;
                },
                Some(h) => {
                    let ghost before = header_views(headers@);
                    headers.push(h);
                    assert(header_views(headers@) == before.push(h@));
                    i += 1;
                },
            }
        }
        proof {
            lemma_first_from_is(self@.lines, from as int, i as int, stops_headers());
        }
        let line_number = self.count_before(i);
        if !self.reads() {
            return Err(Error::SectionNotFound { doc_id: self.doc_id.clone(), line_number });
        }
        let mut frame = self.state.pop().unwrap();
        proof {
            lemma_section_view(frame.section);
        }
        append_headers(&mut frame.section.headers, headers);
        proof {
            lemma_section_view(frame.section);
        }
        self.state.push(frame);
        self.pos = i;
        self.line_number = line_number;
        assert(self@.state == old(self)@.state.drop_last().push(frame@));
        Ok(())
    }

    /// Opens the section that the next line with text introduces, and reads
    /// the headers that stand on the lines below it. The line is trimmed; it
    /// has to begin with a mark that opens a section, to hold a colon, and to
    /// name the section before the colon.
    pub fn reading_section(&mut self) -> (r: Result<(), Error>)
        requires
            old(self)@.wf(),
            old(self).line_number < usize::MAX,
        ensures
            match r {
                Ok(()) => old(self)@.reading_section() == Ok::<StateModel, ErrorModel>(
                    final(self)@,
                ) && final(self)@.wf(),
                Err(e) => old(self)@.reading_section() == Err::<StateModel, ErrorModel>(e@)
                    && final(self)@ == old(self)@,
            },
    {
        let f = self.clean_content();
        if f >= self.lines.len() {
            return Err(
                Error::SectionNotFound {
                    doc_id: self.doc_id.clone(),
                    line_number: self.line_number + 1,
                },
            );
        }
        assert(self@.lines[self.pos as int].number <= self@.lines[f as int].number);
        let start = trimmed(&self.lines[f].text);
        if !is_introducer(&start) {
            return Err(
                Error::SectionNotFound {
                    doc_id: self.doc_id.clone(),
                    line_number: self.line_number + 1,
                },
            );
        }
        let commented = is_commented(&start);
        let line = if commented {
            slice_of(&start, 3, start.len())
        } else {
            slice_of(&start, 2, start.len())
        };
        assert(line@ == if commented {
            start@.skip(3)
        } else {
            start@.skip(2)
        });
        let number = self.lines[f].number;
        let (name_with_kind, caption) = match colon_separated_values(
            number,
            &line,
            self.doc_id.as_str(),
        ) {
            Ok(parts) => parts,
            Err(e) => {
                return Err(e);
            },
        };
        let (name, kind) = get_name_and_kind(&name_with_kind);
        if name.len() == 0 {
            return Err(
                Error::detailed(
                    "section name is missing in: ",
                    &line,
                    self.doc_id.as_str(),
                    number,
                ),
            );
        }
        let section = Section {
            name: to_text(&name),
            kind: opt_to_text(&kind),
            caption: match caption {
                Some(v) => Some(Header::from_caption(&v, number)),
                None => None,
            },
            headers: Vec::new(),
            body: None,
            sub_sections: Vec::new(),
            is_commented: commented,
            line_number: number,
            block_body: false,
        };
        let mut readings: Vec<Reading> = Vec::new();
        readings.push(Reading::Section);
        let frame = Frame { section, readings };
        proof {
            lemma_section_view(frame.section);
            assert(frame@.section.headers == Seq::<HeaderModel>::empty());
            assert(frame@.section.sub_sections == Seq::<SectionModel>::empty());
            assert(frame@.readings == seq![ReadingModel::Section]);
        }
        let ghost before = self@.state;
        self.state.push(frame);
        assert(self@.state == before.push(frame@));
        self.pos = f + 1;
        self.line_number = number;
        proof {
            lemma_reading_section(old(self)@);
        }
        let ghost opened = self@;
        let r = self.reading_inline_headers();
        proof {
            // A section was opened just now, so there is one to give the headers to.
            assert(opened.latest() is Some) by {
                assert(opened.state.last().readings.len() == 1);
            }
        }
        r
    }

    /// Adds `reading` to the readings of the section on top of the stack.
    fn push_reading(&mut self, reading: Reading)
        requires
            old(self).state.len() > 0,
        ensures
            final(self)@ == old(self)@.reading(reading@),
    {
        let ghost before = self@.state;
        let mut frame = self.state.pop().unwrap();
        let ghost readings = reading_views(frame.readings@);
        frame.readings.push(reading);
        assert(reading_views(frame.readings@) == readings.push(reading@));
        self.state.push(frame);
        assert(self@.state == before.drop_last().push(frame@));
    }

    /// Reads the next header that stands in a block of its own below the
    /// section on top of the stack: a line that opens a section whose name is
    /// the section's name, a dot and the key. With a value on that line the
    /// header is complete; without one, its value, the caption or the body is
    /// read next. A second caption and a second body are refused, whatever
    /// the kind. Any other line leaves the headers: the body is read next, or
    /// the sections below once a block has been read. On an error the state
    /// is as it was.
    pub fn reading_block_headers(&mut self) -> (r: Result<(), Error>)
        requires
            old(self)@.wf(),
        ensures
            match r {
                Ok(()) => old(self)@.reading_block_headers() == Ok::<StateModel, ErrorModel>(
                    final(self)@,
                ) && final(self)@.wf(),
                Err(e) => old(self)@.reading_block_headers() == Err::<StateModel, ErrorModel>(e@)
                    && final(self)@ == old(self)@,
            },
    {
        let f = self.clean_content();
        if self.state.len() == 0 {
            return Err(
                Error::SectionNotFound {
                    doc_id: self.doc_id.clone(),
                    line_number: self.line_number,
                },
            );
        }
        let top = &self.state[self.state.len() - 1];
        proof {
            lemma_section_view(top.section);
        }
        let block_body = top.section.block_body;
        let start = if f < self.lines.len() {
            trimmed(&self.lines[f].text)
        } else {
            Vec::new()
        };
        proof {
            if f < self.lines.len() {
                assert(self@.lines[self.pos as int].number <= self@.lines[f as int].number);
            } else {
                assert(start@ == Seq::<char>::empty());
            }
        }
        if !is_introducer(&start) {
            self.push_reading(
                if !block_body {
                    Reading::Body
                } else {
                    Reading::Subsection
                },
            );
            return Ok(());
        }
        let commented = is_commented(&start);
        let line = if commented {
            slice_of(&start, 3, start.len())
        } else {
            slice_of(&start, 2, start.len())
        };
        assert(line@ == if commented {
            start@.skip(3)
        } else {
            start@.skip(2)
        });
        let (name_with_kind, value) = match colon_separated_values(
            self.line_number,
            &line,
            self.doc_id.as_str(),
        ) {
            Ok(parts) => parts,
            Err(e) => {
                return Err(e);
            },
        };
        let (name, kind) = get_name_and_kind(&name_with_kind);
        let mut prefix = to_chars(top.section.name.as_str());
        prefix.push('.');
        assert(prefix@ == self@.state.last().section.name + seq!['.']);
        let key = match stripped(&name, &prefix) {
            Some(key) => key,
            None => {
                self.push_reading(
                    if !block_body {
                        Reading::Body
                    } else {
                        Reading::Subsection
                    },
                );
                return Ok(());
            },
        };
        let number = self.lines[f].number;
        if is_caption(&key) && top.section.caption.is_some() {
            return Err(
                Error::MoreThanOneCaption {
                    doc_id: self.doc_id.clone(),
                    line_number: top.section.line_number,
                },
            );
        }
        if is_body(&key) && top.section.body.is_some() {
            return Err(
                Error::plain("more than one body", self.doc_id.as_str(), top.section.line_number),
            );
        }
        let ghost before = self@.state;
        let mut frame = self.state.pop().unwrap();
        frame.section.block_body = true;
        match value {
            Some(v) => {
                let header = Header::KV {
                    line_number: number,
                    key: to_text(&key),
                    kind: opt_to_text(&kind),
                    value: Some(to_text(&v)),
                };
                let ghost headers = header_views(frame.section.headers@);
                frame.section.headers.push(header);
                assert(header_views(frame.section.headers@) == headers.push(header@));
            },
            None => {
                let reading = if is_caption(&key) {
                    Reading::Caption
                } else if is_body(&key) {
                    Reading::Body
                } else {
                    Reading::Header { key: to_text(&key), kind: opt_to_text(&kind) }
                };
                let ghost readings = reading_views(frame.readings@);
                frame.readings.push(reading);
                assert(reading_views(frame.readings@) == readings.push(reading@));
            },
        }
        proof {
            lemma_section_view(frame.section);
        }
        self.state.push(frame);
        assert(self@.state == before.drop_last().push(frame@));
        self.pos = f + 1;
        self.line_number = number;
        Ok(())
    }

    /// Whether a reading is held for the section on top of the stack.
    fn reads(&self) -> (b: bool)
        ensures
            b == (self@.latest() is Some),
    {
        self.state.len() > 0 && self.state[self.state.len() - 1].readings.len() > 0
    }

    /// Takes the top frame off the stack, without its latest reading.
    fn take_frame(&mut self) -> (frame: Frame)
        requires
            old(self)@.latest() is Some,
        ensures
            final(self)@ == (StateModel { state: old(self)@.state.drop_last(), ..old(self)@ }),
            old(self)@.without_latest() == Some(frame@),
    {
        let mut frame = self.state.pop().unwrap();
        assert(self@.state == old(self)@.state.drop_last());
        let _ = frame.readings.pop();
        assert(reading_views(frame.readings@) == old(self)@.state.last().readings.drop_last());
        frame
    }

    /// Looks at the block at the cursor for a reading of `what`. Returns
    /// the text of the block, the index of the line at which it ends and the
    /// count of lines read once it is read. Fails when the block does not
    /// begin with a blank line and when no reading is held for the section on
    /// top of the stack.
    fn open_block(&self, what: &str) -> (r: Result<(Vec<char>, usize, usize), Error>)
        requires
            self@.wf(),
        ensures
            match r {
                Ok((value, end, count)) => {
                    &&& !self@.block_refused()
                    &&& self@.latest() is Some
                    &&& value@ == self@.block_value()
                    &&& end == self@.after_block().pos
                    &&& count == self@.after_block().line_number
                    &&& self@.after_block().wf()
                },
                Err(e) => if self@.block_refused() {
                    e@ == self@.block_error(what@)
                } else {
                    self@.latest() is None && e@ == (ErrorModel::SectionNotFound {
                        doc_id: self@.doc_id,
                        line_number: self@.after_block().line_number,
                    })
                },
            },
    {
        let (text, end) = match self.scan_block(what) {
            Ok(found) => found,
            Err(e) => {
                return Err(e);
            },
        };
        proof {
            lemma_after_block(self@);
        }
        let count = self.count_before(end);
        if !self.reads() {
            return Err(Error::SectionNotFound { doc_id: self.doc_id.clone(), line_number: count });
        }
        Ok((text, end, count))
    }

    /// Reads the value of the header `header_key` that was opened without
    /// one. Where the next line with text opens a section, that section is
    /// read instead and the header stays open until its end marker. Otherwise
    /// the block at the cursor is the value, and an empty block is no value.
    /// On an error the state is as it was.
    pub fn reading_header_value(&mut self, header_key: &str, header_kind: Option<String>) -> (r:
        Result<(), Error>)
        requires
            old(self)@.wf(),
        ensures
            match r {
                Ok(()) => old(self)@.reading_header_value(header_key@, opt_text(header_kind))
                    == Ok::<StateModel, ErrorModel>(final(self)@) && final(self)@.wf(),
                Err(e) => old(self)@.reading_header_value(header_key@, opt_text(header_kind))
                    == Err::<StateModel, ErrorModel>(e@) && final(self)@ == old(self)@,
            },
    {
        let f = self.clean_content();
        if f < self.lines.len() && is_introducer(&trimmed(&self.lines[f].text)) {
            return self.reading_section();
        }
        let (text, end, count) = match self.open_block("header") {
            Ok(found) => found,
            Err(e) => {
                return Err(e);
            },
        };
        self.line_number = count;
        self.pos = end;
        let mut frame = self.take_frame();
        let header = Header::KV {
            line_number: self.line_number,
            key: header_key.to_owned(),
            kind: header_kind,
            value: if text.len() == 0 {
                None
            } else {
                Some(to_text(&text))
            },
        };
        proof {
            lemma_section_view(frame.section);
        }
        let ghost headers = header_views(frame.section.headers@);
        frame.section.headers.push(header);
        assert(header_views(frame.section.headers@) == headers.push(header@));
        proof {
            lemma_section_view(frame.section);
        }
        let ghost below = self@.state;
        self.state.push(frame);
        assert(self@.state == below.push(frame@));
        Ok(())
    }

    /// Reads the block at the cursor as the caption of the section on top of
    /// the stack. A section that has a caption keeps it: the block is refused
    /// with `MoreThanOneCaption`. On an error the state is as it was.
    pub fn reading_caption_value(&mut self) -> (r: Result<(), Error>)
        requires
            old(self)@.wf(),
        ensures
            match r {
                Ok(()) => old(self)@.reading_caption_value() == Ok::<StateModel, ErrorModel>(
                    final(self)@,
                ) && final(self)@.wf(),
                Err(e) => old(self)@.reading_caption_value() == Err::<StateModel, ErrorModel>(e@)
                    && final(self)@ == old(self)@,
            },
    {
        let (text, end, count) = match self.open_block("caption") {
            Ok(found) => found,
            Err(e) => {
                return Err(e);
            },
        };
        let top = &self.state[self.state.len() - 1];
        proof {
            lemma_section_view(top.section);
        }
        if top.section.caption.is_some() {
            return Err(
                Error::MoreThanOneCaption {
                    doc_id: self.doc_id.clone(),
                    line_number: top.section.line_number,
                },
            );
        }
        self.line_number = count;
        self.pos = end;
        let mut frame = self.take_frame();
        proof {
            lemma_section_view(frame.section);
        }
        frame.section.caption = Some(Header::from_caption(&text, self.line_number));
        proof {
            lemma_section_view(frame.section);
        }
        let ghost below = self@.state;
        self.state.push(frame);
        assert(self@.state == below.push(frame@));
        Ok(())
    }

    /// Reads the block at the cursor as the body of the section on top of the
    /// stack; an empty block leaves the section as it is. A section that has
    /// a body keeps it: a block with text is refused. Unless a block header
    /// has been read for the section, the sections below it are read next. On
    /// an error the state is as it was.
    pub fn reading_body_value(&mut self) -> (r: Result<(), Error>)
        requires
            old(self)@.wf(),
        ensures
            match r {
                Ok(()) => old(self)@.reading_body_value() == Ok::<StateModel, ErrorModel>(
                    final(self)@,
                ) && final(self)@.wf(),
                Err(e) => old(self)@.reading_body_value() == Err::<StateModel, ErrorModel>(e@)
                    && final(self)@ == old(self)@,
            },
    {
        let (text, end, count) = match self.open_block("body") {
            Ok(found) => found,
            Err(e) => {
                return Err(e);
            },
        };
        let top = &self.state[self.state.len() - 1];
        proof {
            lemma_section_view(top.section);
        }
        if text.len() > 0 && top.section.body.is_some() {
            return Err(
                Error::plain("more than one body", self.doc_id.as_str(), top.section.line_number),
            );
        }
        self.line_number = count;
        self.pos = end;
        let mut frame = self.take_frame();
        proof {
            lemma_section_view(frame.section);
        }
        if text.len() > 0 {
            frame.section.body = Some(Body { line_number: self.line_number, value: to_text(&text) });
        }
        proof {
            lemma_section_view(frame.section);
        }
        if !frame.section.block_body {
            let ghost readings = reading_views(frame.readings@);
            frame.readings.push(Reading::Subsection);
            assert(reading_views(frame.readings@) == readings.push(ReadingModel::Subsection));
        }
        let ghost below = self@.state;
        self.state.push(frame);
        assert(self@.state == below.push(frame@));
        Ok(())
    }

    /// A copy of the reading on top of the stack.
    fn latest(&self) -> (r: Option<Reading>)
        ensures
            match r {
                Some(reading) => self@.latest() == Some(reading@),
                None => self@.latest() is None,
            },
    {
        if self.state.len() == 0 {
            return None;
        }
        let top = &self.state[self.state.len() - 1];
        if top.readings.len() == 0 {
            return None;
        }
        Some(
            match &top.readings[top.readings.len() - 1] {
                Reading::Section => Reading::Section,
                Reading::Header { key, kind } => Reading::Header {
                    key: key.clone(),
                    kind: copy_opt(kind),
                },
                Reading::Caption => Reading::Caption,
                Reading::Body => Reading::Body,
                Reading::Subsection => Reading::Subsection,
            },
        )
    }

    /// Moves every open section to the finished sections, outermost first.
    fn drain(&mut self)
        ensures
            final(self)@ == old(self)@.drained(),
    {
        let ghost all = frame_sections(self@.state);
        let mut reversed: Vec<Section> = Vec::new();
        assert(section_views(reversed@).reverse() == Seq::<SectionModel>::empty());
        while self.state.len() > 0
            invariant
                self@ == (StateModel { state: self@.state, ..old(self)@ }),
                frame_sections(self@.state) + section_views(reversed@).reverse() == all,
            decreases self.state.len(),
        {
            let ghost open = self@.state;
            let ghost done = section_views(reversed@);
            let frame = self.state.pop().unwrap();
            assert(self@.state == open.drop_last());
            reversed.push(frame.section);
            assert(section_views(reversed@) == done.push(open.last().section));
            assert(frame_sections(open.drop_last()) + done.push(open.last().section).reverse()
                == frame_sections(open) + done.reverse());
        }
        assert(frame_sections(self@.state) == Seq::<SectionModel>::empty());
        assert(self@.state == Seq::<FrameModel>::empty());
        append_reversed(&mut self.sections, reversed);
    }

    /// One step of the parser: the end markers at the cursor, then either the
    /// end of the document, where the open sections are finished, or one
    /// reading, chosen by the reading on top of the stack. Returns whether the
    /// document is finished. When a step fails, the state is as the end markers
    /// read before it left it, and nothing has been added to the finished
    /// sections.
    pub fn next(&mut self) -> (r: Result<bool, Error>)
        requires
            old(self)@.wf(),
        ensures
            match r {
                Ok(done) => old(self)@.next() == Ok::<(StateModel, bool), ErrorModel>(
                    (final(self)@, done),
                ) && final(self)@.wf(),
                Err(e) => old(self)@.next() == Err::<(StateModel, bool), ErrorModel>(e@)
                    && final(self)@.wf() && final(self)@.sections == old(self)@.sections,
            },
            same_document(old(self)@, final(self)@),
    {
        match self.end() {
            Err(e) => {
                return Err(e);
            },
            Ok(()) => {},
        }
        if self.pos >= self.lines.len() {
            self.drain();
            return Ok(true);
        }
        let step = match self.latest() {
            None => self.reading_section(),
            Some(Reading::Subsection) => self.reading_section(),
            Some(Reading::Section) => self.reading_block_headers(),
            Some(Reading::Header { key, kind }) => self.reading_header_value(key.as_str(), kind),
            Some(Reading::Caption) => self.reading_caption_value(),
            Some(Reading::Body) => self.reading_body_value(),
        };
        match step {
            Err(e) => Err(e),
            Ok(()) => Ok(false),
        }
    }
}

/// Parses the document `content`. Returns its sections in the order in
/// which they were opened, or the first error; `doc_id` names the document
/// in the error.
pub fn parse(content: &str, doc_id: &str) -> (r: Result<Vec<Section>, Error>)
    ensures
        match r {
            Ok(sections) => parsed(content@, doc_id@) == Ok::<Seq<SectionModel>, ErrorModel>(
                section_views(sections@),
            ),
            Err(e) => parsed(content@, doc_id@) == Err::<Seq<SectionModel>, ErrorModel>(e@),
        },
{
    let mut state = State::new(content, doc_id);
    loop
        invariant
            state@.wf(),
            state@.run() == parsed(content@, doc_id@),
        decreases state.lines.len() - state.pos, state@.rank(),
    {
        proof {
            lemma_next(state@);
        }
        match state.next() {
            Err(e) => {
                return Err(e);
            },
            Ok(true) => {
                return Ok(state.sections);
            },
            Ok(false) => {},
        }
    }
}

} // verus!
