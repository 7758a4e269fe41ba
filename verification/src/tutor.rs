//! The rules of the tutor: how workshops and their tutorials are told from
//! the names and the text that the caller has read.

use crate::text::{push_chars, slice_of, to_chars, to_text};
use vstd::prelude::*;

verus! {

/// What the tutor has stored: the ids of the tutorials that are done, and
/// the id of the current one.
#[derive(Debug, Clone, PartialEq, Default)]
pub struct TutorStateFS {
    pub done: Vec<String>,
    pub current: String,
}

/// A tutorial of a workshop.
#[derive(Debug, Clone, PartialEq)]
pub struct Tutorial {
    pub id: String,
    pub title: String,
    pub about: String,
    pub done: bool,
    pub current: bool,
}

/// A workshop and its tutorials.
#[derive(Debug, Clone, PartialEq)]
pub struct Workshop {
    pub title: String,
    pub about: String,
    pub done: bool,
    pub current: bool,
    pub tutorials: Vec<Tutorial>,
}

/// Whether the regular expression `pattern` has a match in `text`; nothing
/// for a pattern that cannot be compiled.
pub uninterp spec fn regex_match(pattern: Seq<char>, text: Seq<char>) -> Option<bool>;

/// `regex::Regex::new` compiles `pattern`, and `Regex::is_match` says
/// whether the compiled expression has a match anywhere in `text`. The
/// contract only gives the answer its name; a pattern that is refused gives
/// nothing.
#[verifier::external_body]
fn regex_is_match(pattern: &str, text: &str) -> (r: Option<bool>)
    ensures
        r == regex_match(pattern@, text@),
{
    match regex::Regex::new(pattern) {
        Ok(expression) => Some(expression.is_match(text)),
        Err(_) => None,
    }
}

/// The names of workshop folders: a letter, a dash, a letter, and whatever
/// follows on the same line.
pub const WORKSHOP_FOLDER: &'static str = "^[a-zA-Z]-[a-zA-Z]+.*$";

/// Whether a folder of this name holds a workshop.
pub fn is_workshop_folder(name: &str) -> (b: bool)
    ensures
        b == (regex_match(WORKSHOP_FOLDER@, name@) == Some(true)),
{
    match regex_is_match(WORKSHOP_FOLDER, name) {
        Some(found) => found,
        None => false,
    }
}

/// Whether one of the arguments of the program asks for tutor mode.
pub open spec fn asks_for_tutor(args: Seq<String>) -> bool {
    exists|i: int| 0 <= i < args.len() && ((#[trigger] args[i])@ == "tutor"@ || args[i]@ == "--tutor"@)
}

/// Whether one of the arguments of the program asks for tutor mode.
pub fn is_tutor(args: &Vec<String>) -> (b: bool)
    ensures
        b == asks_for_tutor(args@),
{
    let mut i: usize = 0;
    while i < args.len()
        invariant
            i <= args.len(),
            forall|j: int|
                0 <= j < i ==> !((#[trigger] args@[j])@ == "tutor"@ || args@[j]@ == "--tutor"@),
        decreases args.len() - i,
    {
        let arg = to_chars(args[i].as_str());
        if crate::text::text_is(&arg, "tutor") || crate::text::text_is(&arg, "--tutor") {
            return true;
        }
        i += 1;
    }
    false
}

/// Whether a blank line begins at index `i` of `s`: two newline characters.
pub open spec fn gap_at(s: Seq<char>, i: int) -> bool {
    0 <= i && i + 1 < s.len() && s[i] == '\n' && s[i + 1] == '\n'
}

/// The index of the first blank line of `s` at or after `i`, or the length
/// of `s`.
pub open spec fn first_gap(s: Seq<char>, i: int) -> int
    decreases s.len() - i,
{
    if i < 0 || i >= s.len() {
        s.len() as int
    } else if gap_at(s, i) {
        i
    } else {
        first_gap(s, i + 1)
    }
}

/// The title and the text of a README: what stands before its first blank
/// line, and what stands after it. A README without a blank line has
/// neither.
pub open spec fn readme_parts(content: Seq<char>) -> Option<(Seq<char>, Seq<char>)> {
    let i = first_gap(content, 0);
    if i >= content.len() {
        None
    } else {
        Some((content.take(i), content.skip(i + 2)))
    }
}

/// The title and the text of the README `content`: see `readme_parts`.
pub fn title_and_about_from_readme(content: &str) -> (r: Option<(String, String)>)
    ensures
        match r {
            Some((title, about)) => readme_parts(content@) == Some((title@, about@)),
            None => readme_parts(content@) is None,
        },
{
    let chars = to_chars(content);
    let mut i: usize = 0;
    while i < chars.len() && !(i + 1 < chars.len() && chars[i] == '\n' && chars[i + 1] == '\n')
        invariant
            i <= chars.len(),
            first_gap(chars@, i as int) == first_gap(chars@, 0),
        decreases chars.len() - i,
    {
        i += 1;
    }
    if i >= chars.len() {
        return None;
    }
    let title = slice_of(&chars, 0, i);
    let about = slice_of(&chars, i + 2, chars.len());
    Some((to_text(&title), to_text(&about)))
}

/// Whether `id` is one of `ids`.
pub open spec fn listed(ids: Seq<String>, id: Seq<char>) -> bool {
    exists|i: int| 0 <= i < ids.len() && (#[trigger] ids[i])@ == id
}

impl Tutorial {
    /// The tutorial in the folder `name` of the workshop `parent`. Its id is
    /// the two names with a slash between them; the stored state says
    /// whether it is done and whether it is the current one.
    pub fn load(parent: &str, name: &str, title: &str, about: &str, state: &TutorStateFS) -> (t:
        Tutorial)
        ensures
            t.id@ == parent@ + seq!['/'] + name@,
            t.title@ == title@,
            t.about@ == about@,
            t.done == listed(state.done@, t.id@),
            t.current == (state.current@ == t.id@),
    {
        let mut id = parent.to_owned();
        id.push('/');
        push_chars(&mut id, &to_chars(name));
        let mut done = false;
        let mut i: usize = 0;
        while i < state.done.len() && !done
            invariant
                i <= state.done.len(),
                !done ==> forall|j: int| 0 <= j < i ==> (#[trigger] state.done@[j])@ != id@,
                done ==> listed(state.done@, id@),
            decreases
                    state.done.len() - i,
                    (if done {
                        0nat
                    } else {
                        1nat
                    }),
        {
            if state.done[i] == id {
                done = true;
            } else {
                i += 1;
            }
        }
        let current = state.current == id;
        Tutorial { id, title: title.to_owned(), about: about.to_owned(), done, current }
    }
}

/// Whether every tutorial is done.
pub open spec fn all_done(tutorials: Seq<Tutorial>) -> bool {
    forall|i: int| 0 <= i < tutorials.len() ==> (#[trigger] tutorials[i]).done
}

/// Whether one of the tutorials is the current one.
pub open spec fn any_current(tutorials: Seq<Tutorial>) -> bool {
    exists|i: int| 0 <= i < tutorials.len() && (#[trigger] tutorials[i]).current
}

impl Workshop {
    /// The workshop with these tutorials. It is done when all of them are,
    /// and current when one of them is.
    pub fn load(title: &str, about: &str, tutorials: Vec<Tutorial>) -> (w: Workshop)
        ensures
            w.title@ == title@,
            w.about@ == about@,
            w.tutorials == tutorials,
            w.done == all_done(tutorials@),
            w.current == any_current(tutorials@),
    {
        let mut done = true;
        let mut current = false;
        let mut i: usize = 0;
        while i < tutorials.len()
            invariant
                i <= tutorials.len(),
                done == forall|j: int| 0 <= j < i ==> (#[trigger] tutorials@[j]).done,
                current == exists|j: int| 0 <= j < i && (#[trigger] tutorials@[j]).current,
            decreases tutorials.len() - i,
        {
            if !tutorials[i].done {
                done = false;
            }
            if tutorials[i].current {
                current = true;
            }
            i += 1;
        }
        Workshop { title: title.to_owned(), about: about.to_owned(), done, current, tutorials }
    }
}

} // verus!
