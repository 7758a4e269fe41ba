//! The grammar of a single line: the marks that open a section, the split at
//! the first colon, the split of a name from its kind, and the escapes.

use crate::error::{Error, ErrorModel};
use crate::text::{
    find_char, first_from, is_char, last_before, rfind_char, slice_of, starts_with, trim, trimmed,
};
use vstd::prelude::*;

verus! {

/// The mark that opens a section: two dashes and a space.
pub open spec fn active_mark() -> Seq<char> {
    seq!['-', '-', ' ']
}

/// The mark that opens a commented section: a slash, two dashes and a space.
pub open spec fn commented_mark() -> Seq<char> {
    seq!['/', '-', '-', ' ']
}

/// `line` begins with one of the two marks that open a section.
pub open spec fn opens_section(line: Seq<char>) -> bool {
    starts_with(line, active_mark()) || starts_with(line, commented_mark())
}

/// Whether `line` begins with the mark that opens a section.
pub fn is_active(line: &Vec<char>) -> (b: bool)
    ensures
        b == starts_with(line@, active_mark()),
{
    let b = line.len() >= 3 && line[0] == '-' && line[1] == '-' && line[2] == ' ';
    proof {
        if line.len() >= 3 {
            assert(line@.subrange(0, 3) == seq![line@[0], line@[1], line@[2]]);
            let m = active_mark();
            assert(m[0] == '-' && m[1] == '-' && m[2] == ' ');
        }
    }
    b
}

/// Whether `line` begins with the mark that opens a commented section.
pub fn is_commented(line: &Vec<char>) -> (b: bool)
    ensures
        b == starts_with(line@, commented_mark()),
{
    let b = line.len() >= 4 && line[0] == '/' && line[1] == '-' && line[2] == '-' && line[3] == ' ';
    proof {
        if line.len() >= 4 {
            assert(line@.subrange(0, 4) == seq![line@[0], line@[1], line@[2], line@[3]]);
            let m = commented_mark();
            assert(m[0] == '/' && m[1] == '-' && m[2] == '-' && m[3] == ' ');
        }
    }
    b
}

/// Whether `line` begins with one of the two marks that open a section.
pub fn is_introducer(line: &Vec<char>) -> (b: bool)
    ensures
        b == opens_section(line@),
{
    is_active(line) || is_commented(line)
}

/// `line` without the backslash that escapes a leading `;;` or `-- `. Nothing
/// else is unescaped.
pub open spec fn spec_clean_line(line: Seq<char>) -> Seq<char> {
    if starts_with(line, seq!['\\', ';', ';']) || starts_with(line, seq!['\\', '-', '-', ' ']) {
        line.skip(1)
    } else {
        line
    }
}

/// `line` without the backslash of its escape, if it has one.
pub fn clean_line(line: &Vec<char>) -> (r: Vec<char>)
    ensures
        r@ == spec_clean_line(line@),
{
    let n = line.len();
    let comment = n >= 3 && line[0] == '\\' && line[1] == ';' && line[2] == ';';
    let mark = n >= 4 && line[0] == '\\' && line[1] == '-' && line[2] == '-' && line[3] == ' ';
    proof {
        if n >= 3 {
            assert(line@.subrange(0, 3) == seq![line@[0], line@[1], line@[2]]);
            let m = seq!['\\', ';', ';'];
            assert(m[0] == '\\' && m[1] == ';' && m[2] == ';');
        }
        if n >= 4 {
            assert(line@.subrange(0, 4) == seq![line@[0], line@[1], line@[2], line@[3]]);
            let m = seq!['\\', '-', '-', ' '];
            assert(m[0] == '\\' && m[1] == '-' && m[2] == '-' && m[3] == ' ');
        }
    }
    if comment || mark {
        slice_of(line, 1, n)
    } else {
        slice_of(line, 0, n)
    }
}

/// A line counts unless it is a comment.
pub fn valid_line(line: &Vec<char>) -> (b: bool)
    ensures
        b == !crate::p11::line::is_comment(line@),
{
    !crate::p11::line::comment(line)
}

/// Whether `s` is the key of a section's caption.
pub fn is_caption(s: &Vec<char>) -> (b: bool)
    ensures
        b == (s@ == "caption"@),
{
    crate::text::text_is(s, "caption")
}

/// Whether `s` is the key of a section's body.
pub fn is_body(s: &Vec<char>) -> (b: bool)
    ensures
        b == (s@ == "body"@),
{
    crate::text::text_is(s, "body")
}

/// Whether `s` is the name of an end marker.
pub fn is_end(s: &Vec<char>) -> (b: bool)
    ensures
        b == (s@ == "end"@),
{
    crate::text::text_is(s, "end")
}

/// The two sides of the first colon of `line`, each trimmed: the name, and
/// the value if anything but whitespace follows the colon. `None` when the
/// line has no colon.
pub open spec fn colon_parts(line: Seq<char>) -> Option<(Seq<char>, Option<Seq<char>>)> {
    let i = first_from(line, 0, is_char(':'));
    if i >= line.len() {
        None
    } else {
        let name = trim(line.take(i));
        let rest = trim(line.skip(i + 1));
        Some(
            (
                name,
                if rest.len() == 0 {
                    None
                } else {
                    Some(rest)
                },
            ),
        )
    }
}

/// The error for a line that should hold a colon and does not.
pub open spec fn missing_colon(line: Seq<char>, doc_id: Seq<char>, line_number: nat) -> ErrorModel {
    ErrorModel::ParseError { message: ": is missing in: "@ + line, doc_id, line_number }
}

/// The text of an optional character vector.
pub open spec fn opt_chars(o: Option<Vec<char>>) -> Option<Seq<char>> {
    match o {
        Some(v) => Some(v@),
        None => None,
    }
}

/// The two sides of the first colon of `line`, or the error for a line
/// without a colon, which names `doc_id` and `line_number`.
pub fn colon_separated_values(line_number: usize, line: &Vec<char>, doc_id: &str) -> (r: Result<
    (Vec<char>, Option<Vec<char>>),
    Error,
>)
    ensures
        match r {
            Ok((name, value)) => colon_parts(line@) == Some((name@, opt_chars(value))),
            Err(e) => colon_parts(line@) is None && e@ == missing_colon(
                line@,
                doc_id@,
                line_number as nat,
            ),
        },
{
    let i = find_char(line, ':');
    if i >= line.len() {
        return Err(Error::detailed(": is missing in: ", line, doc_id, line_number));
    }
    let head = slice_of(line, 0, i);
    let tail = slice_of(line, i + 1, line.len());
    let name = trimmed(&head);
    let rest = trimmed(&tail);
    let value = if rest.len() == 0 {
        None
    } else {
        Some(rest)
    };
    Ok((name, value))
}

/// The name after the last space of `text` and the kind before it; the whole
/// text and no kind when it holds no space.
pub open spec fn name_and_kind(text: Seq<char>) -> (Seq<char>, Option<Seq<char>>) {
    let i = last_before(text, text.len() as int, is_char(' '));
    if i < 0 {
        (text, None)
    } else {
        (text.skip(i + 1), Some(text.take(i)))
    }
}

/// The name after the last space of `name_with_kind` and the kind before it.
pub fn get_name_and_kind(name_with_kind: &Vec<char>) -> (r: (Vec<char>, Option<Vec<char>>))
    ensures
        (r.0@, opt_chars(r.1)) == name_and_kind(name_with_kind@),
{
    match rfind_char(name_with_kind, ' ') {
        Some(i) => {
            let name = slice_of(name_with_kind, i + 1, name_with_kind.len());
            let kind = slice_of(name_with_kind, 0, i);
            (name, Some(kind))
        },
        None => (slice_of(name_with_kind, 0, name_with_kind.len()), None),
    }
}

/// `text` without `prefix` at its start, when it starts with it.
pub open spec fn strip_prefix(text: Seq<char>, prefix: Seq<char>) -> Option<Seq<char>> {
    if starts_with(text, prefix) {
        Some(text.skip(prefix.len() as int))
    } else {
        None
    }
}

/// `text` without `prefix` at its start, when it starts with it.
pub fn stripped(text: &Vec<char>, prefix: &Vec<char>) -> (r: Option<Vec<char>>)
    ensures
        opt_chars(r) == strip_prefix(text@, prefix@),
{
    if crate::text::begins_with(text, prefix) {
        Some(slice_of(text, prefix.len(), text.len()))
    } else {
        None
    }
}

} // verus!
