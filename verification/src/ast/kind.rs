//! Declared kinds and the values that sections and headers stand for.

use crate::error::{Error, ErrorModel};
use crate::p11::section::{key_of, kind_of, line_of, opt_text, Header, Section};
use crate::text::{first_from, lemma_first_from_is};
use crate::text::{split_whitespace, text_is, to_chars, to_text, words};
use vstd::prelude::*;

verus! {

/// The word that marks a kind as optional.
pub const OPTIONAL: &'static str = "optional";

/// The word that marks a kind as a list.
pub const LIST: &'static str = "list";

/// The header value that stands for no value.
pub const NULL: &'static str = "NULL";

/// How a declared kind is decorated.
#[derive(Debug, Clone, Copy, PartialEq, Eq)]
pub enum VariableModifier {
    List,
    Optional,
}

/// A declared kind: the name of a type and, where it has one, its modifier.
#[derive(Debug, PartialEq)]
pub struct VariableKind {
    pub modifier: Option<VariableModifier>,
    pub kind: String,
}

/// The value of a declared kind.
pub struct KindModel {
    pub modifier: Option<VariableModifier>,
    pub kind: Seq<char>,
}

impl View for VariableKind {
    type V = KindModel;

    open spec fn view(&self) -> KindModel {
        KindModel { modifier: self.modifier, kind: self.kind@ }
    }
}

/// The value that a section or a header stands for.
#[derive(Debug, PartialEq)]
pub enum VariableValue {
    Optional(Box<Option<VariableValue>>),
    List(Vec<VariableValue>),
    Record {
        name: String,
        caption: Box<Option<VariableValue>>,
        headers: Vec<HeaderValue>,
        body: Option<BodyValue>,
        line_number: usize,
    },
    String { value: String, line_number: usize },
}

/// The body of a record: its text and the line on which reading it ended.
#[derive(Debug, Clone, PartialEq)]
pub struct BodyValue {
    pub value: String,
    pub line_number: usize,
}

/// A header of a record: its key, the value it stands for, and its line.
#[derive(Debug, PartialEq)]
pub struct HeaderValue {
    pub key: String,
    pub value: VariableValue,
    pub line_number: usize,
}

/// The value of a variable value.
pub enum ValueModel {
    Optional(Option<Box<ValueModel>>),
    List(Seq<ValueModel>),
    Record {
        name: Seq<char>,
        caption: Option<Box<ValueModel>>,
        headers: Seq<HeaderValueModel>,
        body: Option<BodyValueModel>,
        line_number: nat,
    },
    String { value: Seq<char>, line_number: nat },
}

/// The value of a record's body.
pub struct BodyValueModel {
    pub value: Seq<char>,
    pub line_number: nat,
}

/// The value of a record's header.
pub struct HeaderValueModel {
    pub key: Seq<char>,
    pub value: ValueModel,
    pub line_number: nat,
}

impl View for BodyValue {
    type V = BodyValueModel;

    open spec fn view(&self) -> BodyValueModel {
        BodyValueModel { value: self.value@, line_number: self.line_number as nat }
    }
}

/// The value of a variable value.
pub open spec fn value_model(v: VariableValue) -> ValueModel
    decreases v,
{
    match v {
        VariableValue::Optional(inner) => ValueModel::Optional(
            match *inner {
                Some(w) => Some(Box::new(value_model(w))),
                None => None,
            },
        ),
        VariableValue::List(items) => ValueModel::List(
            Seq::new(
                items.len() as nat,
                |i: int|
                    if 0 <= i < items.len() {
                        value_model(items[i])
                    } else {
                        arbitrary()
                    },
            ),
        ),
        VariableValue::Record { name, caption, headers, body, line_number } => ValueModel::Record {
            name: name@,
            caption: match *caption {
                Some(w) => Some(Box::new(value_model(w))),
                None => None,
            },
            headers: Seq::new(
                headers.len() as nat,
                |i: int|
                    if 0 <= i < headers.len() {
                        header_value_model(headers[i])
                    } else {
                        arbitrary()
                    },
            ),
            body: match body {
                Some(b) => Some(b@),
                None => None,
            },
            line_number: line_number as nat,
        },
        VariableValue::String { value, line_number } => ValueModel::String {
            value: value@,
            line_number: line_number as nat,
        },
    }
}

/// The value of a header value.
pub open spec fn header_value_model(h: HeaderValue) -> HeaderValueModel
    decreases h,
{
    HeaderValueModel { key: h.key@, value: value_model(h.value), line_number: h.line_number as nat }
}

impl View for VariableValue {
    type V = ValueModel;

    open spec fn view(&self) -> ValueModel {
        value_model(*self)
    }
}

impl View for HeaderValue {
    type V = HeaderValueModel;

    open spec fn view(&self) -> HeaderValueModel {
        header_value_model(*self)
    }
}

/// The values of a list of variable values.
pub open spec fn value_views(s: Seq<VariableValue>) -> Seq<ValueModel> {
    Seq::new(s.len(), |i: int| s[i]@)
}

/// The values of a list of header values.
pub open spec fn header_value_views(s: Seq<HeaderValue>) -> Seq<HeaderValueModel> {
    Seq::new(s.len(), |i: int| s[i]@)
}

/// The value of an optional variable value.
pub open spec fn opt_value(o: Option<VariableValue>) -> Option<Box<ValueModel>> {
    match o {
        Some(w) => Some(Box::new(w@)),
        None => None,
    }
}

/// The value of a variable value, variant by variant.
pub proof fn lemma_value_view(v: VariableValue)
    ensures
        v matches VariableValue::Optional(inner) ==> v@ == ValueModel::Optional(opt_value(*inner)),
        v matches VariableValue::List(items) ==> v@ == ValueModel::List(value_views(items@)),
        v matches VariableValue::Record { name, caption, headers, body, line_number } ==> v@
            == (ValueModel::Record {
            name: name@,
            caption: opt_value(*caption),
            headers: header_value_views(headers@),
            body: match body {
                Some(b) => Some(b@),
                None => None,
            },
            line_number: line_number as nat,
        }),
        v matches VariableValue::String { value, line_number } ==> v@ == (ValueModel::String {
            value: value@,
            line_number: line_number as nat,
        }),
{
    match v {
        VariableValue::List(items) => {
            assert(v@->List_0 =~= value_views(items@));
        },
        VariableValue::Record { headers, .. } => {
            assert(v@->Record_headers =~= header_value_views(headers@));
        },
        _ => {},
    }
}

/// The modifier that the annotation `expr` declares: it has two words, and
/// either the first is `optional` or, failing that, the second is `list`.
pub open spec fn modifier_of(expr: Seq<char>) -> Option<VariableModifier> {
    let w = words(expr);
    if w.len() == 2 {
        if w[0] == "optional"@ {
            Some(VariableModifier::Optional)
        } else if w[1] == "list"@ {
            Some(VariableModifier::List)
        } else {
            None
        }
    } else {
        None
    }
}

/// The kind that the annotation declares: one word `T`, or `optional T`, or
/// `T list`. Anything else declares nothing.
pub open spec fn declared(annotation: Seq<char>) -> Option<KindModel> {
    let w = words(annotation);
    if w.len() == 1 {
        Some(KindModel { modifier: None, kind: w[0] })
    } else if w.len() == 2 {
        match modifier_of(annotation) {
            Some(VariableModifier::Optional) => Some(
                KindModel { modifier: Some(VariableModifier::Optional), kind: w[1] },
            ),
            Some(VariableModifier::List) => Some(
                KindModel { modifier: Some(VariableModifier::List), kind: w[0] },
            ),
            None => None,
        }
    } else {
        None
    }
}

/// The error for an annotation that declares no kind.
pub open spec fn invalid_kind(annotation: Seq<char>, doc_id: Seq<char>, line_number: nat) -> ErrorModel {
    ErrorModel::ParseError {
        message: "Invalid variable kind, found: `"@ + annotation + "`"@,
        doc_id,
        line_number,
    }
}

impl VariableModifier {
    /// Whether `expr` is the word that marks a kind as optional.
    pub fn is_optional_from_expr(expr: &str) -> (b: bool)
        ensures
            b == (expr@ == "optional"@),
    {
        text_is(&to_chars(expr), OPTIONAL)
    }

    /// Whether `expr` is the word that marks a kind as a list.
    pub fn is_list_from_expr(expr: &str) -> (b: bool)
        ensures
            b == (expr@ == "list"@),
    {
        text_is(&to_chars(expr), LIST)
    }

    /// Whether this is the modifier of a list.
    pub fn is_list(&self) -> (b: bool)
        ensures
            b == (*self == VariableModifier::List),
    {
        match self {
            VariableModifier::List => true,
            VariableModifier::Optional => false,
        }
    }

    /// Whether this is the modifier of an optional.
    pub fn is_optional(&self) -> (b: bool)
        ensures
            b == (*self == VariableModifier::Optional),
    {
        match self {
            VariableModifier::Optional => true,
            VariableModifier::List => false,
        }
    }

    /// The modifier that the annotation `expr` declares, if any.
    pub fn get_modifier(expr: &str) -> (r: Option<VariableModifier>)
        ensures
            r == modifier_of(expr@),
    {
        let w = split_whitespace(&to_chars(expr));
        VariableModifier::of_words(&w)
    }

    fn of_words(w: &Vec<Vec<char>>) -> (r: Option<VariableModifier>)
        ensures
            r == (if w.len() == 2 {
                if w[0]@ == "optional"@ {
                    Some(VariableModifier::Optional)
                } else if w[1]@ == "list"@ {
                    Some(VariableModifier::List)
                } else {
                    None
                }
            } else {
                None
            }),
    {
        if w.len() == 2 {
            if text_is(&w[0], OPTIONAL) {
                return Some(VariableModifier::Optional);
            } else if text_is(&w[1], LIST) {
                return Some(VariableModifier::List);
            }
        }
        None
    }
}

impl VariableKind {
    /// The kind `kind` with the modifier `modifier`.
    pub fn new(kind: &str, modifier: Option<VariableModifier>) -> (r: VariableKind)
        ensures
            r@ == (KindModel { modifier, kind: kind@ }),
    {
        VariableKind { modifier, kind: kind.to_owned() }
    }

    /// The kind that the annotation `kind` declares. An annotation of one
    /// word `T` declares the kind `T`; `optional T` and `T list` declare `T`
    /// with a modifier. Any other annotation is refused; `doc_id` and
    /// `line_number` say where it stands.
    pub fn get_kind(kind: &str, doc_id: &str, line_number: usize) -> (r: Result<
        VariableKind,
        Error,
    >)
        ensures
            match r {
                Ok(k) => declared(kind@) == Some(k@),
                Err(e) => declared(kind@) is None && e@ == invalid_kind(
                    kind@,
                    doc_id@,
                    line_number as nat,
                ),
            },
    {
        let chars = to_chars(kind);
        let w = split_whitespace(&chars);
        assert(w.len() == words(kind@).len());
        if w.len() == 1 {
            assert(w[0]@ == words(kind@)[0]);
            return Ok(VariableKind { modifier: None, kind: to_text(&w[0]) });
        }
        if w.len() == 2 {
            assert(w[0]@ == words(kind@)[0]);
            assert(w[1]@ == words(kind@)[1]);
            match VariableModifier::of_words(&w) {
                Some(VariableModifier::Optional) => {
                    return Ok(
                        VariableKind {
                            modifier: Some(VariableModifier::Optional),
                            kind: to_text(&w[1]),
                        },
                    );
                },
                Some(VariableModifier::List) => {
                    return Ok(
                        VariableKind {
                            modifier: Some(VariableModifier::List),
                            kind: to_text(&w[0]),
                        },
                    );
                },
                None => {},
            }
        }
        Err(Error::parse_error("Invalid variable kind, found: `", &chars, "`", doc_id, line_number))
    }
}

/// The text that the standard formatter writes for a value when it is asked
/// for its `Debug` form.
pub uninterp spec fn debug_text(value: ValueModel) -> Seq<char>;

/// `format!` with `{:?}`: the `Debug` form of `value`, which the derived
/// implementation writes. The contract only gives the text its name.
#[verifier::external_body]
fn debug_string(value: &VariableValue) -> (s: String)
    ensures
        s@ == debug_text(value@),
{
    format!("{:?}", value)
}

/// The error for a value that should be a list and is not.
pub open spec fn expected_list(value: ValueModel, doc_id: Seq<char>, line_number: nat) -> ErrorModel {
    ErrorModel::ParseError {
        message: "Expected List found: `"@ + debug_text(value) + "`"@,
        doc_id,
        line_number,
    }
}

impl ValueModel {
    /// The value without one layer of `Optional`, if it has one: nothing for
    /// the absent value.
    pub open spec fn inner(self) -> Option<ValueModel> {
        match self {
            ValueModel::Optional(v) => match v {
                Some(b) => Some(*b),
                None => None,
            },
            t => Some(t),
        }
    }

    /// The absent value.
    pub open spec fn is_null(self) -> bool {
        self == ValueModel::Optional(None)
    }

    /// Whether the value is a list.
    pub open spec fn is_list(self) -> bool {
        self is List
    }

    /// The value in `Optional`, unless it is one already.
    pub open spec fn into_optional(self) -> ValueModel {
        if self is Optional {
            self
        } else {
            ValueModel::Optional(Some(Box::new(self)))
        }
    }

    /// The value as its declaration's modifier asks for it. For a list, the
    /// absent value becomes the empty list, a list stays, and anything else
    /// is refused. For an optional, the value is wrapped unless it is
    /// optional already. Without a modifier it stays as it is.
    pub open spec fn into_modifier(self, modifier: Option<VariableModifier>) -> Option<ValueModel> {
        match modifier {
            Some(VariableModifier::List) => if self.is_null() {
                Some(ValueModel::List(Seq::empty()))
            } else if self.is_list() {
                Some(self)
            } else {
                None
            },
            Some(VariableModifier::Optional) => Some(self.into_optional()),
            None => Some(self),
        }
    }

    /// The value of a header's text: absent without a text and for the text
    /// `NULL`.
    pub open spec fn from_value(value: Option<Seq<char>>, line_number: nat) -> ValueModel {
        match value {
            Some(v) => if v != "NULL"@ {
                ValueModel::String { value: v, line_number }
            } else {
                ValueModel::Optional(None)
            },
            None => ValueModel::Optional(None),
        }
    }
}

impl BodyValue {
    /// The body with the text `value`.
    pub fn new(value: &str, line_number: usize) -> (r: BodyValue)
        ensures
            r@ == (BodyValueModel { value: value@, line_number: line_number as nat }),
    {
        BodyValue { value: value.to_owned(), line_number }
    }
}

impl HeaderValue {
    /// The header `key` with the value `value`.
    pub fn new(key: &str, value: VariableValue, line_number: usize) -> (r: HeaderValue)
        ensures
            r@ == (HeaderValueModel { key: key@, value: value@, line_number: line_number as nat }),
    {
        HeaderValue { key: key.to_owned(), value, line_number }
    }
}

impl VariableValue {
    /// A copy of the value.
    pub fn duplicate(&self) -> (r: VariableValue)
        ensures
            r@ == self@,
        decreases self,
    {
        proof {
            lemma_value_view(*self);
        }
        let r = match self {
            VariableValue::Optional(inner) => VariableValue::Optional(
                Box::new(
                    match &**inner {
                        Some(v) => Some(v.duplicate()),
                        None => None,
                    },
                ),
            ),
            VariableValue::List(items) => {
                let mut copy: Vec<VariableValue> = Vec::new();
                let mut i: usize = 0;
                while i < items.len()
                    invariant
                        i <= items.len(),
                        *self == VariableValue::List(*items),
                        value_views(copy@) == value_views(items@).take(i as int),
                    decreases items.len() - i,
                {
                    let ghost before = value_views(copy@);
                    proof {
                        vstd::std_specs::vec::axiom_vec_index_decreases(*items, i as int);
                        assert(self is List && self->List_0 == *items);
                        assert(decreases_to!(*self => self->List_0));
                    }
                    let item = items[i].duplicate();
                    copy.push(item);
                    assert(value_views(copy@) == before.push(items@[i as int]@));
                    i += 1;
                }
                assert(value_views(items@).take(items.len() as int) == value_views(items@));
                VariableValue::List(copy)
            },
            VariableValue::Record { name, caption, headers, body, line_number } => {
                let mut copy: Vec<HeaderValue> = Vec::new();
                let mut i: usize = 0;
                while i < headers.len()
                    invariant
                        i <= headers.len(),
                        self matches VariableValue::Record { headers: h, .. } && h == headers,
                        header_value_views(copy@) == header_value_views(headers@).take(i as int),
                    decreases headers.len() - i,
                {
                    let ghost before = header_value_views(copy@);
                    let h = &headers[i];
                    let item = HeaderValue {
                        key: h.key.clone(),
                        value: h.value.duplicate(),
                        line_number: h.line_number,
                    };
                    copy.push(item);
                    assert(header_value_views(copy@) == before.push(headers@[i as int]@));
                    i += 1;
                }
                assert(header_value_views(headers@).take(headers.len() as int)
                    == header_value_views(headers@));
                VariableValue::Record {
                    name: name.clone(),
                    caption: Box::new(
                        match &**caption {
                            Some(v) => Some(v.duplicate()),
                            None => None,
                        },
                    ),
                    headers: copy,
                    body: match body {
                        Some(b) => Some(BodyValue { value: b.value.clone(), line_number: b.line_number }),
                        None => None,
                    },
                    line_number: *line_number,
                }
            },
            VariableValue::String { value, line_number } => VariableValue::String {
                value: value.clone(),
                line_number: *line_number,
            },
        };
        proof {
            lemma_value_view(r);
        }
        r
    }

    /// The value without one layer of `Optional`, if it has one.
    pub fn inner(&self) -> (r: Option<VariableValue>)
        ensures
            match r {
                Some(v) => self@.inner() == Some(v@),
                None => self@.inner() is None,
            },
    {
        proof {
            lemma_value_view(*self);
        }
        match self {
            VariableValue::Optional(value) => match &**value {
                Some(v) => Some(v.duplicate()),
                None => None,
            },
            t => Some(t.duplicate()),
        }
    }

    /// Whether this is the absent value.
    pub fn is_null(&self) -> (b: bool)
        ensures
            b == self@.is_null(),
    {
        proof {
            lemma_value_view(*self);
        }
        match self {
            VariableValue::Optional(value) => value.is_none(),
            _ => false,
        }
    }

    /// Whether the value is a list.
    pub fn is_list(&self) -> (b: bool)
        ensures
            b == self@.is_list(),
    {
        proof {
            lemma_value_view(*self);
        }
        match self {
            VariableValue::List(_) => true,
            _ => false,
        }
    }

    /// The value in `Optional`, unless it is one already.
    pub fn into_optional(self) -> (r: VariableValue)
        ensures
            r@ == self@.into_optional(),
    {
        proof {
            lemma_value_view(self);
        }
        match self {
            VariableValue::Optional(v) => VariableValue::Optional(v),
            t => {
                let r = VariableValue::Optional(Box::new(Some(t)));
                proof {
                    lemma_value_view(r);
                }
                r
            },
        }
    }

    /// The value as its declaration's modifier asks for it: see
    /// `ValueModel::into_modifier`. A value that is refused gives a
    /// `ParseError` that shows the value and names `doc_id` and
    /// `line_number`.
    pub fn into_modifier(
        self,
        doc_id: &str,
        line_number: usize,
        modifier: &Option<VariableModifier>,
    ) -> (r: Result<VariableValue, Error>)
        ensures
            match r {
                Ok(v) => self@.into_modifier(*modifier) == Some(v@),
                Err(e) => self@.into_modifier(*modifier) is None && e@ == expected_list(
                    self@,
                    doc_id@,
                    line_number as nat,
                ),
            },
    {
        match modifier {
            Some(VariableModifier::List) => {
                if self.is_null() {
                    let r = VariableValue::List(Vec::new());
                    proof {
                        lemma_value_view(r);
                        assert(r@->List_0 == Seq::<ValueModel>::empty());
                    }
                    Ok(r)
                } else if self.is_list() {
                    Ok(self)
                } else {
                    let shown = debug_string(&self);
                    Err(
                        Error::parse_error(
                            "Expected List found: `",
                            &to_chars(shown.as_str()),
                            "`",
                            doc_id,
                            line_number,
                        ),
                    )
                }
            },
            Some(VariableModifier::Optional) => Ok(self.into_optional()),
            None => Ok(self),
        }
    }

    /// The value of a header's text: absent without a text and for the text
    /// `NULL`.
    pub fn from_value(value: &Option<String>, line_number: usize) -> (r: VariableValue)
        ensures
            r@ == ValueModel::from_value(opt_text(*value), line_number as nat),
    {
        let r = match value {
            Some(v) => {
                if !text_is(&to_chars(v.as_str()), NULL) {
                    VariableValue::String { value: v.clone(), line_number }
                } else {
                    VariableValue::Optional(Box::new(None))
                }
            },
            None => VariableValue::Optional(Box::new(None)),
        };
        proof {
            lemma_value_view(r);
        }
        r
    }
}

/// Whether the predicate `f` says of a header with this key and kind that
/// it holds a condition.
pub open spec fn holds<F: Fn(&String, &Option<String>) -> bool>(
    f: F,
    key: String,
    kind: Option<String>,
) -> bool {
    call_ensures(f, (&key, &kind), true)
}

/// The predicate `f` can be asked of every key and kind, and gives one
/// answer for each.
pub open spec fn decides<F: Fn(&String, &Option<String>) -> bool>(f: F) -> bool {
    forall|key: String, kind: Option<String>|
        #![trigger call_requires(f, (&key, &kind))]
        call_requires(f, (&key, &kind)) && !(call_ensures(f, (&key, &kind), true) && call_ensures(
            f,
            (&key, &kind),
            false,
        ))
}

/// Whether the predicate `f` says of a header that it holds a condition.
pub open spec fn is_condition_header<F: Fn(&String, &Option<String>) -> bool>(f: F) -> spec_fn(
    Header,
) -> bool {
    |h: Header| holds(f, key_of(h), kind_of(h))
}

/// The value that the header `h` stands for: the value of its text, or
/// the list of the values of its sections.
pub open spec fn value_of_header<F: Fn(&String, &Option<String>) -> bool>(
    h: Header,
    f: F,
) -> ValueModel
    decreases h, 0nat,
{
    match h {
        Header::KV { value, line_number, .. } => ValueModel::from_value(
            opt_text(value),
            line_number as nat,
        ),
        Header::Section { section, .. } => ValueModel::List(
            Seq::new(
                section.len() as nat,
                |i: int|
                    if 0 <= i < section.len() {
                        value_of_section(section[i], f)
                    } else {
                        arbitrary()
                    },
            ),
        ),
    }
}

/// The values of the first `n` headers of `headers`, without those that
/// hold a condition.
pub open spec fn kept_headers<F: Fn(&String, &Option<String>) -> bool>(
    headers: Vec<Header>,
    n: nat,
    f: F,
) -> Seq<HeaderValueModel>
    decreases headers, n,
{
    if n == 0 || n > headers.len() {
        Seq::<HeaderValueModel>::empty()
    } else {
        let before = kept_headers(headers, (n - 1) as nat, f);
        let h = headers[n - 1];
        if holds(f, key_of(h), kind_of(h)) {
            before
        } else {
            before.push(
                HeaderValueModel {
                    key: key_of(h)@,
                    value: value_of_header(h, f),
                    line_number: line_of(h) as nat,
                },
            )
        }
    }
}

/// The value that the section `s` stands for.
///
/// A section with sub-sections stands for the list of their values, whatever
/// else it holds. Otherwise its caption, without one layer of `Optional`,
/// its headers, without those that hold a condition, and its body are
/// looked at. Without headers, and unless caption and body are both there,
/// the section stands for its caption, else for the text of its body, else
/// for the absent value. In every other case it stands for a record.
pub open spec fn value_of_section<F: Fn(&String, &Option<String>) -> bool>(
    s: Section,
    f: F,
) -> ValueModel
    decreases s, 0nat,
{
    if s.sub_sections.len() > 0 {
        ValueModel::List(
            Seq::new(
                s.sub_sections.len() as nat,
                |i: int|
                    if 0 <= i < s.sub_sections.len() {
                        value_of_section(s.sub_sections[i], f)
                    } else {
                        arbitrary()
                    },
            ),
        )
    } else {
        let caption = match s.caption {
            Some(h) => value_of_header(h, f).inner(),
            None => None,
        };
        let headers = kept_headers(s.headers, s.headers.len() as nat, f);
        let body = match s.body {
            Some(b) => Some(BodyValueModel { value: b.value@, line_number: b.line_number as nat }),
            None => None,
        };
        if headers.len() == 0 && !(caption is Some && body is Some) {
            match caption {
                Some(c) => c,
                None => match body {
                    Some(b) => ValueModel::String { value: b.value, line_number: b.line_number },
                    None => ValueModel::Optional(None),
                },
            }
        } else {
            ValueModel::Record {
                name: s.name@,
                caption: match caption {
                    Some(c) => Some(Box::new(c)),
                    None => None,
                },
                headers,
                body,
                line_number: s.line_number as nat,
            }
        }
    }
}

impl VariableValue {
    /// The value that `section` stands for: see `value_of_section`. The
    /// predicate says which headers hold a condition; they are left out.
    pub fn from_p1<F: Fn(&String, &Option<String>) -> bool>(section: &Section, is_condition: &F) -> (r:
        VariableValue)
        requires
            decides(*is_condition),
        ensures
            r@ == value_of_section(*section, *is_condition),
        decreases section, 1nat,
    {
        if section.sub_sections.len() > 0 {
            let r = VariableValue::List(
                VariableValue::from_sections(&section.sub_sections, is_condition),
            );
            proof {
                lemma_value_view(r);
                assert(r@->List_0 == value_of_section(*section, *is_condition)->List_0);
            }
            return r;
        }
        let caption = match &section.caption {
            Some(h) => VariableValue::from_p1_header(h, is_condition).inner(),
            None => None,
        };
        let mut headers: Vec<HeaderValue> = Vec::new();
        let mut i: usize = 0;
        assert(header_value_views(headers@) == Seq::<HeaderValueModel>::empty());
        while i < section.headers.len()
            invariant
                decides(*is_condition),
                i <= section.headers.len(),
                header_value_views(headers@) == kept_headers(
                    section.headers,
                    i as nat,
                    *is_condition,
                ),
            decreases section.headers.len() - i,
        {
            let h = &section.headers[i];
            let ghost before = header_value_views(headers@);
            let found = is_condition(h.get_key(), h.get_kind());
            assert(call_requires(*is_condition, (&key_of(*h), &kind_of(*h))));
            assert(found == holds(*is_condition, key_of(*h), kind_of(*h)));
            if !found {
                proof {
                    vstd::std_specs::vec::axiom_vec_index_decreases(section.headers, i as int);
                }
                let item = HeaderValue {
                    key: h.get_key().clone(),
                    value: VariableValue::from_p1_header(h, is_condition),
                    line_number: h.get_line_number(),
                };
                assert(item@ == (HeaderValueModel {
                    key: key_of(*h)@,
                    value: value_of_header(*h, *is_condition),
                    line_number: line_of(*h) as nat,
                }));
                headers.push(item);
                assert(header_value_views(headers@) == before.push(item@));
            }
            assert(*h == section.headers[i as int]);
            i += 1;
        }
        let body = match &section.body {
            Some(b) => Some(BodyValue { value: b.value.clone(), line_number: b.line_number }),
            None => None,
        };
        let r = if headers.len() == 0 && !(caption.is_some() && body.is_some()) {
            if let Some(caption) = caption {
                caption
            } else if let Some(body) = body {
                VariableValue::String { value: body.value, line_number: body.line_number }
            } else {
                VariableValue::Optional(Box::new(None))
            }
        } else {
            VariableValue::Record {
                name: section.name.clone(),
                caption: Box::new(caption),
                headers,
                body,
                line_number: section.line_number,
            }
        };
        proof {
            lemma_value_view(r);
        }
        r
    }

    /// The values that the sections of `sections` stand for, in order.
    fn from_sections<F: Fn(&String, &Option<String>) -> bool>(
        sections: &Vec<Section>,
        is_condition: &F,
    ) -> (r: Vec<VariableValue>)
        requires
            decides(*is_condition),
        ensures
            value_views(r@) == Seq::new(
                sections.len() as nat,
                |i: int|
                    if 0 <= i < sections.len() {
                        value_of_section(sections[i], *is_condition)
                    } else {
                        arbitrary()
                    },
            ),
        decreases sections, 0nat,
    {
        let mut values: Vec<VariableValue> = Vec::new();
        let mut i: usize = 0;
        while i < sections.len()
            invariant
                decides(*is_condition),
                i <= sections.len(),
                values.len() == i,
                forall|j: int|
                    0 <= j < i ==> (#[trigger] values@[j])@ == value_of_section(
                        sections[j],
                        *is_condition,
                    ),
            decreases sections.len() - i,
        {
            proof {
                vstd::std_specs::vec::axiom_vec_index_decreases(*sections, i as int);
            }
            let v = VariableValue::from_p1(&sections[i], is_condition);
            values.push(v);
            i += 1;
        }
        values
    }

    /// The value that `header` stands for: see `value_of_header`.
    pub fn from_p1_header<F: Fn(&String, &Option<String>) -> bool>(
        header: &Header,
        is_condition: &F,
    ) -> (r: VariableValue)
        requires
            decides(*is_condition),
        ensures
            r@ == value_of_header(*header, *is_condition),
        decreases header, 1nat,
    {
        match header {
            Header::KV { value, line_number, .. } => VariableValue::from_value(value, *line_number),
            Header::Section { section, .. } => {
                let r = VariableValue::List(VariableValue::from_sections(section, is_condition));
                proof {
                    lemma_value_view(r);
                    assert(r@->List_0 == value_of_header(*header, *is_condition)->List_0);
                }
                r
            },
        }
    }

    /// The value that `section` stands for, as `modifier` asks for it.
    pub fn from_p1_with_modifier<F: Fn(&String, &Option<String>) -> bool>(
        section: &Section,
        doc_id: &str,
        modifier: &Option<VariableModifier>,
        is_condition: &F,
    ) -> (r: Result<VariableValue, Error>)
        requires
            decides(*is_condition),
        ensures
            match r {
                Ok(v) => value_of_section(*section, *is_condition).into_modifier(*modifier) == Some(
                    v@,
                ),
                Err(e) => value_of_section(*section, *is_condition).into_modifier(*modifier) is None
                    && e@ == expected_list(
                    value_of_section(*section, *is_condition),
                    doc_id@,
                    section.line_number as nat,
                ),
            },
    {
        let value = VariableValue::from_p1(section, is_condition);
        value.into_modifier(doc_id, section.line_number, modifier)
    }

    /// The value that `header` stands for, as `modifier` asks for it.
    pub fn from_header_with_modifier<F: Fn(&String, &Option<String>) -> bool>(
        header: &Header,
        doc_id: &str,
        modifier: &Option<VariableModifier>,
        is_condition: &F,
    ) -> (r: Result<VariableValue, Error>)
        requires
            decides(*is_condition),
        ensures
            match r {
                Ok(v) => value_of_header(*header, *is_condition).into_modifier(*modifier) == Some(
                    v@,
                ),
                Err(e) => value_of_header(*header, *is_condition).into_modifier(*modifier) is None
                    && e@ == expected_list(
                    value_of_header(*header, *is_condition),
                    doc_id@,
                    line_of(*header) as nat,
                ),
            },
    {
        let value = VariableValue::from_p1_header(header, is_condition);
        value.into_modifier(doc_id, header.get_line_number(), modifier)
    }
}

/// A condition lifted out of the headers of a section: the text of its
/// expression and the line of its header.
#[derive(Debug, Clone, PartialEq)]
pub struct Condition {
    pub expression: String,
    pub line_number: usize,
}

/// The value of a condition.
pub struct ConditionModel {
    pub expression: Seq<char>,
    pub line_number: nat,
}

impl View for Condition {
    type V = ConditionModel;

    open spec fn view(&self) -> ConditionModel {
        ConditionModel { expression: self.expression@, line_number: self.line_number as nat }
    }
}

/// The condition among `headers`: that of the first header of which the
/// predicate holds. Without such a header there is none. The header has to
/// have a text, which is the expression.
pub open spec fn condition_of<F: Fn(&String, &Option<String>) -> bool>(
    headers: Seq<Header>,
    doc_id: Seq<char>,
    f: F,
) -> Result<Option<ConditionModel>, ErrorModel> {
    let i = first_from(headers, 0, is_condition_header(f));
    if i >= headers.len() {
        Ok(None)
    } else {
        match headers[i] {
            Header::KV { value: Some(v), line_number, .. } => Ok(
                Some(ConditionModel { expression: v@, line_number: line_number as nat }),
            ),
            h => Err(
                ErrorModel::ParseError {
                    message: "`if` condition must contain expression"@,
                    doc_id,
                    line_number: line_of(h) as nat,
                },
            ),
        }
    }
}

impl Condition {
    /// The condition with the expression `expression`.
    pub fn new(expression: &str, line_number: usize) -> (r: Condition)
        ensures
            r@ == (ConditionModel { expression: expression@, line_number: line_number as nat }),
    {
        Condition { expression: expression.to_owned(), line_number }
    }

    /// The condition among `headers`: see `condition_of`.
    pub fn from_headers<F: Fn(&String, &Option<String>) -> bool>(
        headers: &Vec<Header>,
        doc_id: &str,
        is_condition: &F,
    ) -> (r: Result<Option<Condition>, Error>)
        requires
            decides(*is_condition),
        ensures
            match r {
                Ok(Some(c)) => condition_of(headers@, doc_id@, *is_condition) == Ok::<
                    Option<ConditionModel>,
                    ErrorModel,
                >(Some(c@)),
                Ok(None) => condition_of(headers@, doc_id@, *is_condition) == Ok::<
                    Option<ConditionModel>,
                    ErrorModel,
                >(None),
                Err(e) => condition_of(headers@, doc_id@, *is_condition) == Err::<
                    Option<ConditionModel>,
                    ErrorModel,
                >(e@),
            },
    {
        let mut i: usize = 0;
        let mut found = false;
        while !found && i < headers.len()
            invariant
                decides(*is_condition),
                i <= headers.len(),
                forall|j: int|
                    0 <= j < i ==> !is_condition_header(*is_condition)(#[trigger] headers@[j]),
                found ==> i < headers.len() && is_condition_header(*is_condition)(
                    headers@[i as int],
                ),
            decreases
                    headers.len() - i,
                    (if found {
                        0nat
                    } else {
                        1nat
                    }),
        {
            let h = &headers[i];
            let answer = is_condition(h.get_key(), h.get_kind());
            assert(call_requires(*is_condition, (&key_of(*h), &kind_of(*h))));
            assert(answer == holds(*is_condition, key_of(*h), kind_of(*h)));
            if answer {
                found = true;
            } else {
                i += 1;
            }
        }
        proof {
            lemma_first_from_is(headers@, 0, i as int, is_condition_header(*is_condition));
        }
        if i >= headers.len() {
            return Ok(None);
        }
        match &headers[i] {
            Header::KV { value: Some(v), line_number, .. } => Ok(
                Some(Condition::new(v.as_str(), *line_number)),
            ),
            h => Err(
                Error::plain(
                    "`if` condition must contain expression",
                    doc_id,
                    h.get_line_number(),
                ),
            ),
        }
    }
}

impl Clone for VariableValue {
    fn clone(&self) -> (r: VariableValue)
        ensures
            r@ == self@,
    {
        self.duplicate()
    }
}

impl Clone for HeaderValue {
    fn clone(&self) -> (r: HeaderValue)
        ensures
            r@ == self@,
    {
        HeaderValue {
            key: self.key.clone(),
            value: self.value.duplicate(),
            line_number: self.line_number,
        }
    }
}

} // verus!
