//! What holds of declared kinds and of values, whatever the input.

use crate::ast::kind::{
    declared, value_of_header, KindModel, ValueModel, VariableModifier,
};
use crate::p11::section::Header;
use crate::text::words;
use vstd::prelude::*;

verus! {

/// A header whose text is `NULL` stands for the absent value, whatever its
/// key, kind and line. It stays the absent value when no modifier or an
/// optional is asked for, and is the empty list when a list is.
pub proof fn lemma_null_header_is_absent<F: Fn(&String, &Option<String>) -> bool>(h: Header, f: F)
    requires
        h matches Header::KV { value: Some(v), .. } && v@ == "NULL"@,
    ensures
        value_of_header(h, f) == ValueModel::Optional(None),
        value_of_header(h, f).is_null(),
        value_of_header(h, f).into_modifier(None) == Some(ValueModel::Optional(None)),
        value_of_header(h, f).into_modifier(Some(VariableModifier::Optional)) == Some(
            ValueModel::Optional(None),
        ),
        value_of_header(h, f).into_modifier(Some(VariableModifier::List)) == Some(
            ValueModel::List(Seq::empty()),
        ),
{
}

/// A header without a text stands for the absent value too.
pub proof fn lemma_empty_header_is_absent<F: Fn(&String, &Option<String>) -> bool>(h: Header, f: F)
    requires
        h matches Header::KV { value: None, .. },
    ensures
        value_of_header(h, f) == ValueModel::Optional(None),
{
}

/// As a list, the absent value is the empty list.
pub proof fn lemma_absent_as_list()
    ensures
        ValueModel::Optional(None).into_modifier(Some(VariableModifier::List)) == Some(
            ValueModel::List(Seq::empty()),
        ),
{
}

/// Asking for a list twice is asking once: what the first time gives, the
/// second time leaves as it is.
pub proof fn lemma_list_modifier_idempotent(v: ValueModel)
    ensures
        v.into_modifier(Some(VariableModifier::List)) matches Some(w) ==> w.into_modifier(
            Some(VariableModifier::List),
        ) == Some(w),
{
}

/// Asking for an optional twice is asking once.
pub proof fn lemma_optional_modifier_idempotent(v: ValueModel)
    ensures
        v.into_modifier(Some(VariableModifier::Optional)) matches Some(w) ==> w.into_modifier(
            Some(VariableModifier::Optional),
        ) == Some(w),
{
}

/// The annotation is a single word `t`.
pub open spec fn is_plain(annotation: Seq<char>) -> bool {
    exists|t: Seq<char>| words(annotation) == seq![t]
}

/// The annotation is the word `optional` and a word `t`.
pub open spec fn is_optional(annotation: Seq<char>) -> bool {
    exists|t: Seq<char>| words(annotation) == seq!["optional"@, t]
}

/// The annotation is a word `t` and the word `list`.
pub open spec fn is_list(annotation: Seq<char>) -> bool {
    exists|t: Seq<char>| words(annotation) == seq![t, "list"@]
}

/// An annotation declares a kind exactly when it has one of the three
/// shapes `T`, `optional T` and `T list`.
pub proof fn lemma_declared_shapes(annotation: Seq<char>)
    ensures
        declared(annotation) is Some <==> is_plain(annotation) || is_optional(annotation)
            || is_list(annotation),
{
    let w = words(annotation);
    if declared(annotation) is Some {
        if w.len() == 1 {
            assert(w == seq![w[0]]);
        } else if w[0] == "optional"@ {
            assert(w == seq!["optional"@, w[1]]);
        } else {
            assert(w == seq![w[0], "list"@]);
        }
    }
    if is_plain(annotation) {
        let t = choose|t: Seq<char>| words(annotation) == seq![t];
        assert(seq![t].len() == 1);
    }
    if is_optional(annotation) {
        let t = choose|t: Seq<char>| words(annotation) == seq!["optional"@, t];
        assert(seq!["optional"@, t].len() == 2);
        assert(seq!["optional"@, t][0] == "optional"@);
    }
    if is_list(annotation) {
        let t = choose|t: Seq<char>| words(annotation) == seq![t, "list"@];
        assert(seq![t, "list"@].len() == 2);
        assert(seq![t, "list"@][1] == "list"@);
    }
}

/// What an annotation of each shape declares. With `optional` first the kind
/// is optional, also where `list` comes second.
pub proof fn lemma_declared_kind(annotation: Seq<char>, t: Seq<char>)
    ensures
        words(annotation) == seq![t] ==> declared(annotation) == Some(
            KindModel { modifier: None, kind: t },
        ),
        words(annotation) == seq!["optional"@, t] ==> declared(annotation) == Some(
            KindModel { modifier: Some(VariableModifier::Optional), kind: t },
        ),
        words(annotation) == seq![t, "list"@] && t != "optional"@ ==> declared(annotation) == Some(
            KindModel { modifier: Some(VariableModifier::List), kind: t },
        ),
{
    assert(seq![t].len() == 1 && seq![t][0] == t);
    assert(seq!["optional"@, t].len() == 2);
    assert(seq!["optional"@, t][0] == "optional"@ && seq!["optional"@, t][1] == t);
    assert(seq![t, "list"@].len() == 2);
    assert(seq![t, "list"@][0] == t && seq![t, "list"@][1] == "list"@);
}

} // verus!
