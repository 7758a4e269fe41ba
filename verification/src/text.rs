//! Character sequences: whitespace, trimming, searching and the conversions
//! between `str`, `String` and `Vec<char>`.
//!
//! Every contract in this crate speaks of text as a `Seq<char>`; the functions
//! here are the executable counterparts of the sequence operations that the
//! parser and the value projector are specified with.

use vstd::prelude::*;

verus! {

/// `String::push` appends one character to the end of the string.
pub assume_specification[ std::string::String::push ](s: &mut std::string::String, c: char)
    ensures
        final(s)@ == old(s)@.push(c),
;

/// The characters with the Unicode property `White_Space`.
pub open spec fn is_whitespace(c: char) -> bool {
    let u = c as u32;
    ||| 0x09 <= u <= 0x0D
    ||| u == 0x20
    ||| u == 0x85
    ||| u == 0xA0
    ||| u == 0x1680
    ||| 0x2000 <= u <= 0x200A
    ||| u == 0x2028
    ||| u == 0x2029
    ||| u == 0x202F
    ||| u == 0x205F
    ||| u == 0x3000
}

/// Whether `c` is whitespace.
pub fn whitespace(c: char) -> (b: bool)
    ensures
        b == is_whitespace(c),
{
    let u: u32 = c as u32;
    (0x09 <= u && u <= 0x0D) || u == 0x20 || u == 0x85 || u == 0xA0 || u == 0x1680 || (0x2000 <= u
        && u <= 0x200A) || u == 0x2028 || u == 0x2029 || u == 0x202F || u == 0x205F || u == 0x3000
}

/// The least index at or after `i` whose element satisfies `p`, or the length
/// of `s` when there is none (`i` itself when `i` is past the end).
pub open spec fn first_from<T>(s: Seq<T>, i: int, p: spec_fn(T) -> bool) -> int
    decreases s.len() - i,
{
    if i < 0 || i >= s.len() {
        i
    } else if p(s[i]) {
        i
    } else {
        first_from(s, i + 1, p)
    }
}

/// What `first_from` finds: nothing before it satisfies `p`, and it does
/// unless it is the end.
pub proof fn lemma_first_from<T>(s: Seq<T>, i: int, p: spec_fn(T) -> bool)
    requires
        0 <= i <= s.len(),
    ensures
        i <= first_from(s, i, p) <= s.len(),
        forall|j: int| i <= j < first_from(s, i, p) ==> !p(#[trigger] s[j]),
        first_from(s, i, p) < s.len() ==> p(s[first_from(s, i, p)]),
    decreases s.len() - i,
{
    if i < s.len() && !p(s[i]) {
        lemma_first_from(s, i + 1, p);
    }
}

/// The place `k` is what `first_from` finds when nothing from `i` up to `k`
/// satisfies `p` and `k` does, or is the end.
pub proof fn lemma_first_from_is<T>(s: Seq<T>, i: int, k: int, p: spec_fn(T) -> bool)
    requires
        0 <= i <= k <= s.len(),
        forall|j: int| i <= j < k ==> !p(#[trigger] s[j]),
        k < s.len() ==> p(s[k]),
    ensures
        first_from(s, i, p) == k,
    decreases k - i,
{
    if i < k {
        lemma_first_from_is(s, i + 1, k, p);
    }
}

/// The greatest index below `n` whose element satisfies `p`, or `-1`.
pub open spec fn last_before<T>(s: Seq<T>, n: int, p: spec_fn(T) -> bool) -> int
    decreases n,
{
    if n <= 0 || n > s.len() {
        -1
    } else if p(s[n - 1]) {
        n - 1
    } else {
        last_before(s, n - 1, p)
    }
}

/// What `last_before` finds: nothing after it satisfies `p`, and it does
/// unless there is none.
pub proof fn lemma_last_before<T>(s: Seq<T>, n: int, p: spec_fn(T) -> bool)
    requires
        0 <= n <= s.len(),
    ensures
        -1 <= last_before(s, n, p) < n,
        forall|j: int| last_before(s, n, p) < j < n ==> !p(#[trigger] s[j]),
        last_before(s, n, p) >= 0 ==> p(s[last_before(s, n, p)]),
    decreases n,
{
    if n > 0 && !p(s[n - 1]) {
        lemma_last_before(s, n - 1, p);
    }
}

/// The place `k` is what `last_before` finds when nothing after `k` and
/// below `n` satisfies `p` and `k` does, or is `-1`.
pub proof fn lemma_last_before_is<T>(s: Seq<T>, n: int, k: int, p: spec_fn(T) -> bool)
    requires
        -1 <= k < n <= s.len(),
        forall|j: int| k < j < n ==> !p(#[trigger] s[j]),
        k >= 0 ==> p(s[k]),
    ensures
        last_before(s, n, p) == k,
    decreases n - k,
{
    if k < n - 1 {
        lemma_last_before_is(s, n - 1, k, p);
    }
}

/// Two sequences on which `p` gives the same answers, place by place, have
/// their first element that satisfies it at the same place.
pub proof fn lemma_first_from_alike<T>(a: Seq<T>, b: Seq<T>, i: int, p: spec_fn(T) -> bool)
    requires
        a.len() == b.len(),
        forall|j: int| 0 <= j < a.len() ==> p(#[trigger] a[j]) == p(b[j]),
    ensures
        first_from(a, i, p) == first_from(b, i, p),
    decreases a.len() - i,
{
    if 0 <= i < a.len() && !p(a[i]) {
        lemma_first_from_alike(a, b, i + 1, p);
    }
}

/// And their last such element too.
pub proof fn lemma_last_before_alike<T>(a: Seq<T>, b: Seq<T>, n: int, p: spec_fn(T) -> bool)
    requires
        a.len() == b.len(),
        forall|j: int| 0 <= j < a.len() ==> p(#[trigger] a[j]) == p(b[j]),
    ensures
        last_before(a, n, p) == last_before(b, n, p),
    decreases n,
{
    if 0 < n <= a.len() && !p(a[n - 1]) {
        lemma_last_before_alike(a, b, n - 1, p);
    }
}

/// The test for a character that is not whitespace.
pub open spec fn not_whitespace() -> spec_fn(char) -> bool {
    |c: char| !is_whitespace(c)
}

/// The test for the character `x`.
pub open spec fn is_char(x: char) -> spec_fn(char) -> bool {
    |c: char| c == x
}

/// Every character of `s` is whitespace.
pub open spec fn is_blank(s: Seq<char>) -> bool {
    first_from(s, 0, not_whitespace()) == s.len()
}

/// `s` without its leading whitespace.
pub open spec fn trim_start(s: Seq<char>) -> Seq<char> {
    s.subrange(first_from(s, 0, not_whitespace()), s.len() as int)
}

/// `s` without its trailing whitespace.
pub open spec fn trim_end(s: Seq<char>) -> Seq<char> {
    s.subrange(0, last_before(s, s.len() as int, not_whitespace()) + 1)
}

/// `s` without its leading and trailing whitespace.
pub open spec fn trim(s: Seq<char>) -> Seq<char> {
    trim_end(trim_start(s))
}

/// `s` begins with `p`.
pub open spec fn starts_with(s: Seq<char>, p: Seq<char>) -> bool {
    p.len() <= s.len() && s.subrange(0, p.len() as int) == p
}

/// Whether `c` occurs in `s`.
pub open spec fn has_char(s: Seq<char>, c: char) -> bool {
    first_from(s, 0, is_char(c)) < s.len()
}

/// A text is blank when all its characters are whitespace, which is when
/// nothing is left of it after trimming.
pub proof fn lemma_is_blank(s: Seq<char>)
    ensures
        is_blank(s) <==> forall|j: int| 0 <= j < s.len() ==> is_whitespace(#[trigger] s[j]),
        is_blank(s) <==> trim(s).len() == 0,
        is_blank(s) <==> trim_start(s).len() == 0,
{
    lemma_first_from(s, 0, not_whitespace());
    let t = trim_start(s);
    lemma_last_before(t, t.len() as int, not_whitespace());
    if !is_blank(s) {
        assert(!is_whitespace(t[0]));
    }
}

/// Trimming cuts a text that is not blank from its first to its last
/// character that is not whitespace.
pub proof fn lemma_trim_bounds(s: Seq<char>)
    requires
        !is_blank(s),
    ensures
        0 <= first_from(s, 0, not_whitespace()) <= last_before(
            s,
            s.len() as int,
            not_whitespace(),
        ) < s.len(),
        trim(s) == s.subrange(
            first_from(s, 0, not_whitespace()),
            last_before(s, s.len() as int, not_whitespace()) + 1,
        ),
{
    let a = first_from(s, 0, not_whitespace());
    let b = last_before(s, s.len() as int, not_whitespace());
    lemma_first_from(s, 0, not_whitespace());
    lemma_last_before(s, s.len() as int, not_whitespace());
    assert(a <= b) by {
        if b < a {
            assert(!not_whitespace()(s[a]));
        }
    }
    let t = trim_start(s);
    assert forall|j: int| b - a < j < t.len() implies !not_whitespace()(#[trigger] t[j]) by {
        assert(t[j] == s[a + j]);
    }
    assert(t[b - a] == s[b]);
    lemma_last_before_is(t, t.len() as int, b - a, not_whitespace());
    assert(t.subrange(0, b - a + 1) == s.subrange(a, b + 1));
}

/// Trimming the end first changes nothing of what trimming gives.
pub proof fn lemma_trim_after_trim_end(s: Seq<char>)
    ensures
        trim(trim_end(s)) == trim(s),
{
    let e = trim_end(s);
    lemma_is_blank(s);
    lemma_is_blank(e);
    lemma_last_before(s, s.len() as int, not_whitespace());
    lemma_first_from(s, 0, not_whitespace());
    let b = last_before(s, s.len() as int, not_whitespace());
    if is_blank(s) {
        if b >= 0 {
            assert(!is_whitespace(s[b]));
        }
        assert(e.len() == 0);
        assert(trim(s).len() == 0);
        assert(trim(e).len() == 0);
        assert(trim(e) == trim(s));
    } else {
        lemma_trim_bounds(s);
        let a = first_from(s, 0, not_whitespace());
        assert(forall|j: int| 0 <= j < e.len() ==> e[j] == s[j]);
        lemma_first_from_is(e, 0, a, not_whitespace());
        lemma_last_before_is(e, e.len() as int, b, not_whitespace());
        assert(!is_blank(e));
        lemma_trim_bounds(e);
        assert(e.subrange(a, b + 1) == s.subrange(a, b + 1));
    }
}

/// The characters of `s`.
pub fn to_chars(s: &str) -> (v: Vec<char>)
    ensures
        v@ == s@,
{
    let mut v: Vec<char> = Vec::new();
    for c in it: s.chars()
        invariant
            v@ == s@.take(it.index() as int),
            it.seq() == s@,
    {
        v.push(c);
    }
    v
}

/// The string of the characters of `v`.
pub fn to_text(v: &Vec<char>) -> (s: String)
    ensures
        s@ == v@,
{
    let mut s = String::new();
    let mut i: usize = 0;
    while i < v.len()
        invariant
            i <= v.len(),
            s@ == v@.take(i as int),
        decreases v.len() - i,
    {
        s.push(v[i]);
        i += 1;
    }
    s
}

/// Appends the characters of `tail` to `s`.
pub fn push_chars(s: &mut String, tail: &Vec<char>)
    ensures
        final(s)@ == old(s)@ + tail@,
{
    let mut i: usize = 0;
    while i < tail.len()
        invariant
            i <= tail.len(),
            s@ == old(s)@ + tail@.take(i as int),
        decreases tail.len() - i,
    {
        s.push(tail[i]);
        i += 1;
    }
}

/// Appends the characters of `tail` to `v`.
pub fn append_chars(v: &mut Vec<char>, tail: &Vec<char>)
    ensures
        final(v)@ == old(v)@ + tail@,
{
    let mut i: usize = 0;
    while i < tail.len()
        invariant
            i <= tail.len(),
            v@ == old(v)@ + tail@.take(i as int),
        decreases tail.len() - i,
    {
        v.push(tail[i]);
        i += 1;
    }
}

/// The characters of `v` from `from` up to `to`.
pub fn slice_of(v: &Vec<char>, from: usize, to: usize) -> (r: Vec<char>)
    requires
        from <= to <= v.len(),
    ensures
        r@ == v@.subrange(from as int, to as int),
{
    let mut r: Vec<char> = Vec::new();
    let mut i: usize = from;
    while i < to
        invariant
            from <= i <= to <= v.len(),
            r@ == v@.subrange(from as int, i as int),
        decreases to - i,
    {
        r.push(v[i]);
        i += 1;
    }
    r
}

/// Whether `a` and `b` hold the same characters.
pub fn same_chars(a: &Vec<char>, b: &Vec<char>) -> (r: bool)
    ensures
        r == (a@ == b@),
{
    if a.len() != b.len() {
        return false;
    }
    let mut i: usize = 0;
    while i < a.len()
        invariant
            i <= a.len(),
            a.len() == b.len(),
            a@.take(i as int) == b@.take(i as int),
        decreases a.len() - i,
    {
        if a[i] != b[i] {
            return false;
        }
        assert(a@.take(i + 1) == a@.take(i as int).push(a@[i as int]));
        assert(b@.take(i + 1) == b@.take(i as int).push(b@[i as int]));
        i += 1;
    }
    assert(a@ == a@.take(a.len() as int));
    assert(b@ == b@.take(b.len() as int));
    true
}

/// Whether `v` holds the characters of `s`.
pub fn text_is(v: &Vec<char>, s: &str) -> (r: bool)
    ensures
        r == (v@ == s@),
{
    let w = to_chars(s);
    same_chars(v, &w)
}

/// Whether `v` begins with `p`.
pub fn begins_with(v: &Vec<char>, p: &Vec<char>) -> (r: bool)
    ensures
        r == starts_with(v@, p@),
{
    if p.len() > v.len() {
        return false;
    }
    let head = slice_of(v, 0, p.len());
    same_chars(&head, p)
}

/// Whether every character of `v` is whitespace.
pub fn blank(v: &Vec<char>) -> (r: bool)
    ensures
        r == is_blank(v@),
{
    let k = first_ink(v);
    k == v.len()
}

/// The index of the first character that is not whitespace, or the length.
pub fn first_ink(v: &Vec<char>) -> (k: usize)
    ensures
        k == first_from(v@, 0, not_whitespace()),
        k <= v.len(),
{
    let mut i: usize = 0;
    while i < v.len() && whitespace(v[i])
        invariant
            i <= v.len(),
            forall|j: int| 0 <= j < i ==> !not_whitespace()(#[trigger] v@[j]),
        decreases v.len() - i,
    {
        i += 1;
    }
    proof {
        lemma_first_from_is(v@, 0, i as int, not_whitespace());
    }
    i
}

/// One past the index of the last character that is not whitespace, or zero.
pub fn ink_end(v: &Vec<char>) -> (k: usize)
    ensures
        k == last_before(v@, v@.len() as int, not_whitespace()) + 1,
        k <= v.len(),
{
    let mut i: usize = v.len();
    while i > 0 && whitespace(v[i - 1])
        invariant
            i <= v.len(),
            forall|j: int| i <= j < v.len() ==> !not_whitespace()(#[trigger] v@[j]),
        decreases i,
    {
        i -= 1;
    }
    proof {
        lemma_last_before_is(v@, v@.len() as int, i as int - 1, not_whitespace());
    }
    i
}

/// `v` without its leading whitespace.
pub fn trimmed_start(v: &Vec<char>) -> (r: Vec<char>)
    ensures
        r@ == trim_start(v@),
{
    let k = first_ink(v);
    slice_of(v, k, v.len())
}

/// `v` without its trailing whitespace.
pub fn trimmed_end(v: &Vec<char>) -> (r: Vec<char>)
    ensures
        r@ == trim_end(v@),
{
    let k = ink_end(v);
    slice_of(v, 0, k)
}

/// `v` without its leading and trailing whitespace.
pub fn trimmed(v: &Vec<char>) -> (r: Vec<char>)
    ensures
        r@ == trim(v@),
{
    let a = trimmed_start(v);
    trimmed_end(&a)
}

/// The index of the first `c` in `v`, or the length of `v`.
pub fn find_char(v: &Vec<char>, c: char) -> (k: usize)
    ensures
        k == first_from(v@, 0, is_char(c)),
        k <= v.len(),
        (k < v.len()) == has_char(v@, c),
{
    let mut i: usize = 0;
    while i < v.len() && v[i] != c
        invariant
            i <= v.len(),
            forall|j: int| 0 <= j < i ==> !is_char(c)(#[trigger] v@[j]),
        decreases v.len() - i,
    {
        i += 1;
    }
    proof {
        lemma_first_from_is(v@, 0, i as int, is_char(c));
    }
    i
}

/// The index of the last `c` in `v`, if there is one.
pub fn rfind_char(v: &Vec<char>, c: char) -> (k: Option<usize>)
    ensures
        match k {
            Some(i) => i == last_before(v@, v@.len() as int, is_char(c)) && i < v.len(),
            None => last_before(v@, v@.len() as int, is_char(c)) == -1,
        },
{
    let mut i: usize = v.len();
    while i > 0 && v[i - 1] != c
        invariant
            i <= v.len(),
            forall|j: int| i <= j < v.len() ==> !is_char(c)(#[trigger] v@[j]),
        decreases i,
    {
        i -= 1;
    }
    proof {
        lemma_last_before_is(v@, v@.len() as int, i as int - 1, is_char(c));
    }
    if i == 0 {
        None
    } else {
        Some(i - 1)
    }
}

/// The words of `s`: its longest runs of characters that are not
/// whitespace, in order.
pub open spec fn words(s: Seq<char>) -> Seq<Seq<char>>
    decreases s.len(),
{
    if s.len() == 0 {
        Seq::<Seq<char>>::empty()
    } else {
        let before = words(s.drop_last());
        let c = s.last();
        if is_whitespace(c) {
            before
        } else if s.len() >= 2 && !is_whitespace(s[s.len() - 2]) && before.len() > 0 {
            before.update(before.len() - 1, before.last().push(c))
        } else {
            before.push(seq![c])
        }
    }
}

/// Every word holds a character, and none of its characters is whitespace.
pub proof fn lemma_words(s: Seq<char>)
    ensures
        forall|i: int| 0 <= i < words(s).len() ==> (#[trigger] words(s)[i]).len() > 0,
        forall|i: int, j: int|
            0 <= i < words(s).len() && 0 <= j < words(s)[i].len() ==> !is_whitespace(
                #[trigger] words(s)[i][j],
            ),
        s.len() > 0 && !is_whitespace(s.last()) ==> words(s).len() > 0,
    decreases s.len(),
{
    if s.len() > 0 {
        lemma_words(s.drop_last());
        let before = words(s.drop_last());
        let all = words(s);
        let c = s.last();
        if !is_whitespace(c) {
            if s.len() >= 2 && !is_whitespace(s[s.len() - 2]) && before.len() > 0 {
                assert forall|i: int, j: int|
                    0 <= i < all.len() && 0 <= j < all[i].len() implies !is_whitespace(
                    #[trigger] all[i][j],
                ) by {
                    if i < all.len() - 1 {
                        assert(all[i] == before[i]);
                    } else if j < before.last().len() {
                        assert(all[i][j] == before[i][j]);
                    }
                }
            } else {
                assert forall|i: int, j: int|
                    0 <= i < all.len() && 0 <= j < all[i].len() implies !is_whitespace(
                    #[trigger] all[i][j],
                ) by {
                    if i < all.len() - 1 {
                        assert(all[i] == before[i]);
                    }
                }
            }
        }
    }
}

/// The texts of a list of character vectors.
pub open spec fn char_lists(s: Seq<Vec<char>>) -> Seq<Seq<char>> {
    Seq::new(s.len(), |i: int| s[i]@)
}

/// Cuts `s` into its words.
pub fn split_whitespace(s: &Vec<char>) -> (r: Vec<Vec<char>>)
    ensures
        char_lists(r@) == words(s@),
{
    let mut done: Vec<Vec<char>> = Vec::new();
    let mut current: Vec<char> = Vec::new();
    let mut in_word = false;
    let mut i: usize = 0;
    assert(char_lists(done@) == Seq::<Seq<char>>::empty());
    while i < s.len()
        invariant
            i <= s.len(),
            in_word <==> (i > 0 && !is_whitespace(s@[i - 1])),
            words(s@.take(i as int)) == if in_word {
                char_lists(done@).push(current@)
            } else {
                char_lists(done@)
            },
        decreases s.len() - i,
    {
        let c = s[i];
        let ghost lists = char_lists(done@);
        proof {
            assert(s@.take(i + 1).drop_last() == s@.take(i as int));
        }
        if whitespace(c) {
            if in_word {
                done.push(current);
                assert(char_lists(done@) == lists.push(current@));
                current = Vec::new();
                in_word = false;
            }
        } else {
            if in_word {
                let ghost word = current@;
                current.push(c);
                assert(lists.push(word).update(lists.len() as int, word.push(c)) == lists.push(
                    current@,
                ));
            } else {
                current = Vec::new();
                current.push(c);
                assert(current@ == seq![c]);
                in_word = true;
            }
        }
        i += 1;
    }
    assert(s@.take(s.len() as int) == s@);
    if in_word {
        let ghost lists = char_lists(done@);
        done.push(current);
        assert(char_lists(done@) == lists.push(current@));
    }
    done
}

} // verus!
