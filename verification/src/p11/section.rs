//! The data model of a parsed document: sections, their headers and bodies,
//! and the mathematical values that the contracts speak of.

use vstd::prelude::*;

verus! {

/// The text of a section's body and the line on which reading it ended.
#[derive(Debug, Clone, PartialEq)]
pub struct Body {
    pub line_number: usize,
    pub value: String,
}

/// A header of a section: a key with a text value, or a key with the list of
/// sections that were written between its opening line and its end marker.
#[derive(Debug, PartialEq)]
pub enum Header {
    KV { line_number: usize, key: String, kind: Option<String>, value: Option<String> },
    Section { line_number: usize, key: String, kind: Option<String>, section: Vec<Section> },
}

/// One section of a document.
#[derive(Debug, PartialEq)]
pub struct Section {
    pub name: String,
    pub kind: Option<String>,
    pub caption: Option<Header>,
    pub headers: Vec<Header>,
    pub body: Option<Body>,
    pub sub_sections: Vec<Section>,
    pub is_commented: bool,
    pub line_number: usize,
    pub block_body: bool,
}

/// The value of a body.
pub struct BodyModel {
    pub line_number: nat,
    pub value: Seq<char>,
}

/// The value of a header.
pub enum HeaderModel {
    KV { line_number: nat, key: Seq<char>, kind: Option<Seq<char>>, value: Option<Seq<char>> },
    Section { line_number: nat, key: Seq<char>, kind: Option<Seq<char>>, section: Seq<SectionModel> },
}

/// The value of a section.
pub struct SectionModel {
    pub name: Seq<char>,
    pub kind: Option<Seq<char>>,
    pub caption: Option<HeaderModel>,
    pub headers: Seq<HeaderModel>,
    pub body: Option<BodyModel>,
    pub sub_sections: Seq<SectionModel>,
    pub is_commented: bool,
    pub line_number: nat,
    pub block_body: bool,
}

/// The text of an optional string.
pub open spec fn opt_text(o: Option<String>) -> Option<Seq<char>> {
    match o {
        Some(s) => Some(s@),
        None => None,
    }
}

impl View for Body {
    type V = BodyModel;

    open spec fn view(&self) -> BodyModel {
        BodyModel { line_number: self.line_number as nat, value: self.value@ }
    }
}

/// The value of a header.
pub open spec fn header_model(h: Header) -> HeaderModel
    decreases h,
{
    match h {
        Header::KV { line_number, key, kind, value } => HeaderModel::KV {
            line_number: line_number as nat,
            key: key@,
            kind: opt_text(kind),
            value: opt_text(value),
        },
        Header::Section { line_number, key, kind, section } => HeaderModel::Section {
            line_number: line_number as nat,
            key: key@,
            kind: opt_text(kind),
            section: Seq::new(
                section.len() as nat,
                |i: int|
                    if 0 <= i < section.len() {
                        section_model(section[i])
                    } else {
                        arbitrary()
                    },
            ),
        },
    }
}

/// The value of a section.
pub open spec fn section_model(s: Section) -> SectionModel
    decreases s,
{
    SectionModel {
        name: s.name@,
        kind: opt_text(s.kind),
        caption: match s.caption {
            Some(h) => Some(header_model(h)),
            None => None,
        },
        headers: Seq::new(
            s.headers.len() as nat,
            |i: int|
                if 0 <= i < s.headers.len() {
                    header_model(s.headers[i])
                } else {
                    arbitrary()
                },
        ),
        body: match s.body {
            Some(b) => Some(b@),
            None => None,
        },
        sub_sections: Seq::new(
            s.sub_sections.len() as nat,
            |i: int|
                if 0 <= i < s.sub_sections.len() {
                    section_model(s.sub_sections[i])
                } else {
                    arbitrary()
                },
        ),
        is_commented: s.is_commented,
        line_number: s.line_number as nat,
        block_body: s.block_body,
    }
}

impl View for Header {
    type V = HeaderModel;

    open spec fn view(&self) -> HeaderModel {
        header_model(*self)
    }
}

impl View for Section {
    type V = SectionModel;

    open spec fn view(&self) -> SectionModel {
        section_model(*self)
    }
}

/// The values of a list of headers.
pub open spec fn header_views(s: Seq<Header>) -> Seq<HeaderModel> {
    Seq::new(s.len(), |i: int| s[i]@)
}

/// The values of a list of sections.
pub open spec fn section_views(s: Seq<Section>) -> Seq<SectionModel> {
    Seq::new(s.len(), |i: int| s[i]@)
}

/// The value of a section, field by field.
pub proof fn lemma_section_view(s: Section)
    ensures
        s@.headers == header_views(s.headers@),
        s@.sub_sections == section_views(s.sub_sections@),
        s@ == (SectionModel {
            name: s.name@,
            kind: opt_text(s.kind),
            caption: match s.caption {
                Some(h) => Some(h@),
                None => None,
            },
            headers: header_views(s.headers@),
            body: match s.body {
                Some(b) => Some(b@),
                None => None,
            },
            sub_sections: section_views(s.sub_sections@),
            is_commented: s.is_commented,
            line_number: s.line_number as nat,
            block_body: s.block_body,
        }),
{
    assert(s@.headers =~= header_views(s.headers@));
    assert(s@.sub_sections =~= section_views(s.sub_sections@));
}

/// The value of a header of sections holds the values of its sections.
pub proof fn lemma_header_view(h: Header)
    ensures
        h matches Header::Section { section, .. } ==> h@ matches HeaderModel::Section {
            section: m,
            ..
        } && m == section_views(section@),
{
    match h {
        Header::Section { section, .. } => {
            assert(h@->Section_section =~= section_views(section@));
        },
        _ => {},
    }
}

impl Header {
    /// The caption `value`, read on line `line_number`, as a header.
    pub fn from_caption(value: &Vec<char>, line_number: usize) -> (h: Header)
        ensures
            h@ == (HeaderModel::KV {
                line_number: line_number as nat,
                key: "$caption$"@,
                kind: None,
                value: Some(value@),
            }),
    {
        Header::KV {
            line_number,
            key: "$caption$".to_owned(),
            kind: None,
            value: Some(crate::text::to_text(value)),
        }
    }
}

/// The key of a header.
pub open spec fn key_of(h: Header) -> String {
    match h {
        Header::KV { key, .. } => key,
        Header::Section { key, .. } => key,
    }
}

/// The kind of a header.
pub open spec fn kind_of(h: Header) -> Option<String> {
    match h {
        Header::KV { kind, .. } => kind,
        Header::Section { kind, .. } => kind,
    }
}

/// The line number of a header.
pub open spec fn line_of(h: Header) -> usize {
    match h {
        Header::KV { line_number, .. } => line_number,
        Header::Section { line_number, .. } => line_number,
    }
}

impl Header {
    /// The key of the header.
    pub fn get_key(&self) -> (r: &String)
        ensures
            *r == key_of(*self),
    {
        match self {
            Header::KV { key, .. } => key,
            Header::Section { key, .. } => key,
        }
    }

    /// The kind of the header.
    pub fn get_kind(&self) -> (r: &Option<String>)
        ensures
            *r == kind_of(*self),
    {
        match self {
            Header::KV { kind, .. } => kind,
            Header::Section { kind, .. } => kind,
        }
    }

    /// The line number of the header.
    pub fn get_line_number(&self) -> (r: usize)
        ensures
            r == line_of(*self),
    {
        match self {
            Header::KV { line_number, .. } => *line_number,
            Header::Section { line_number, .. } => *line_number,
        }
    }
}

/// A copy of an optional string.
pub fn copy_opt(o: &Option<String>) -> (r: Option<String>)
    ensures
        opt_text(r) == opt_text(*o),
{
    match o {
        Some(s) => Some(s.clone()),
        None => None,
    }
}

/// Copies of the sections of `sections`, in order.
pub fn copy_sections(sections: &Vec<Section>) -> (r: Vec<Section>)
    ensures
        section_views(r@) == section_views(sections@),
    decreases sections, 0nat,
{
    let mut copy: Vec<Section> = Vec::new();
    let mut i: usize = 0;
    while i < sections.len()
        invariant
            i <= sections.len(),
            section_views(copy@) == section_views(sections@).take(i as int),
        decreases sections.len() - i,
    {
        let ghost before = section_views(copy@);
        proof {
            vstd::std_specs::vec::axiom_vec_index_decreases(*sections, i as int);
        }
        let item = sections[i].duplicate();
        copy.push(item);
        assert(section_views(copy@) == before.push(sections@[i as int]@));
        i += 1;
    }
    assert(section_views(sections@).take(sections.len() as int) == section_views(sections@));
    copy
}

/// Copies of the headers of `headers`, in order.
pub fn copy_headers(headers: &Vec<Header>) -> (r: Vec<Header>)
    ensures
        header_views(r@) == header_views(headers@),
    decreases headers, 0nat,
{
    let mut copy: Vec<Header> = Vec::new();
    let mut i: usize = 0;
    while i < headers.len()
        invariant
            i <= headers.len(),
            header_views(copy@) == header_views(headers@).take(i as int),
        decreases headers.len() - i,
    {
        let ghost before = header_views(copy@);
        proof {
            vstd::std_specs::vec::axiom_vec_index_decreases(*headers, i as int);
        }
        let item = headers[i].duplicate();
        copy.push(item);
        assert(header_views(copy@) == before.push(headers@[i as int]@));
        i += 1;
    }
    assert(header_views(headers@).take(headers.len() as int) == header_views(headers@));
    copy
}

impl Header {
    /// A copy of the header.
    pub fn duplicate(&self) -> (r: Header)
        ensures
            r@ == self@,
        decreases self, 1nat,
    {
        proof {
            lemma_header_view(*self);
        }
        let r = match self {
            Header::KV { line_number, key, kind, value } => Header::KV {
                line_number: *line_number,
                key: key.clone(),
                kind: copy_opt(kind),
                value: copy_opt(value),
            },
            Header::Section { line_number, key, kind, section } => Header::Section {
                line_number: *line_number,
                key: key.clone(),
                kind: copy_opt(kind),
                section: copy_sections(section),
            },
        };
        proof {
            lemma_header_view(r);
        }
        r
    }
}

impl Section {
    /// A copy of the section.
    pub fn duplicate(&self) -> (r: Section)
        ensures
            r@ == self@,
        decreases self, 1nat,
    {
        proof {
            lemma_section_view(*self);
        }
        let r = Section {
            name: self.name.clone(),
            kind: copy_opt(&self.kind),
            caption: match &self.caption {
                Some(h) => Some(h.duplicate()),
                None => None,
            },
            headers: copy_headers(&self.headers),
            body: match &self.body {
                Some(b) => Some(Body { line_number: b.line_number, value: b.value.clone() }),
                None => None,
            },
            sub_sections: copy_sections(&self.sub_sections),
            is_commented: self.is_commented,
            line_number: self.line_number,
            block_body: self.block_body,
        };
        proof {
            lemma_section_view(r);
        }
        r
    }
}

impl Clone for Header {
    fn clone(&self) -> (r: Header)
        ensures
            r@ == self@,
    {
        self.duplicate()
    }
}

impl Clone for Section {
    fn clone(&self) -> (r: Section)
        ensures
            r@ == self@,
    {
        self.duplicate()
    }
}

} // verus!
