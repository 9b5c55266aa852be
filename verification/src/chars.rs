//! Character classes and the scanning primitives the tokenizer is built on.

use vstd::prelude::*;

verus! {

/// Whether `c` is white space: the characters that separate tokens and that
/// are trimmed from both ends of a line (the Unicode `White_Space` set).
pub open spec fn is_whitespace(c: char) -> bool {
    ||| ('\u{9}' <= c && c <= '\u{D}')
    ||| c == ' '
    ||| c == '\u{85}'
    ||| c == '\u{A0}'
    ||| c == '\u{1680}'
    ||| ('\u{2000}' <= c && c <= '\u{200A}')
    ||| c == '\u{2028}'
    ||| c == '\u{2029}'
    ||| c == '\u{202F}'
    ||| c == '\u{205F}'
    ||| c == '\u{3000}'
}

/// Whether `c` may appear in a tag or attribute name: a lowercase ASCII
/// letter or an ASCII digit.
pub open spec fn is_name_char(c: char) -> bool {
    ('a' <= c && c <= 'z') || ('0' <= c && c <= '9')
}

/// Whether `s` is a name: non-empty, made of name characters, and starting
/// with a letter.
pub open spec fn is_name(s: Seq<char>) -> bool {
    &&& s.len() > 0
    &&& 'a' <= s[0] && s[0] <= 'z'
    &&& forall|i: int| 0 <= i < s.len() ==> is_name_char(#[trigger] s[i])
}

/// The mathematical values of a list of strings.
pub open spec fn strings_view(strings: Seq<String>) -> Seq<Seq<char>> {
    Seq::new(strings.len(), |i: int| strings[i]@)
}

/// A set of characters that a scan stops at.
#[derive(Clone, Copy, Debug)]
pub enum CharClass {
    /// Any white-space character.
    Whitespace,
    /// Any character that is not white space.
    NotWhitespace,
    /// Any character that cannot appear in a name.
    NotName,
    /// Exactly the given character.
    Exactly(char),
    /// Any character but the given one.
    Except(char),
}

impl CharClass {
    /// Whether `c` belongs to the class.
    pub open spec fn has(self, c: char) -> bool {
        match self {
            CharClass::Whitespace => is_whitespace(c),
            CharClass::NotWhitespace => !is_whitespace(c),
            CharClass::NotName => !is_name_char(c),
            CharClass::Exactly(x) => c == x,
            CharClass::Except(x) => c != x,
        }
    }

    /// Tests whether `c` belongs to the class.
    pub fn contains(&self, c: char) -> (b: bool)
        ensures
            b == self.has(c),
    {
        match self {
            CharClass::Whitespace => is_space(c),
            CharClass::NotWhitespace => !is_space(c),
            CharClass::NotName => !is_name_character(c),
            CharClass::Exactly(x) => c == *x,
            CharClass::Except(x) => c != *x,
        }
    }
}

/// The first index in `[from, end)` at which `s` holds a character of
/// `class`, or `end` if there is none (`from` itself when the range is empty).
pub open spec fn first_in(s: Seq<char>, from: int, end: int, class: CharClass) -> int
    decreases end - from,
{
    if from >= end {
        from
    } else if class.has(s[from]) {
        from
    } else {
        first_in(s, from + 1, end, class)
    }
}

/// The length of `s[..end]` once its trailing white space is removed.
pub open spec fn trimmed_end(s: Seq<char>, end: int) -> int
    decreases end,
{
    if end <= 0 {
        0
    } else if !is_whitespace(s[end - 1]) {
        end
    } else {
        trimmed_end(s, end - 1)
    }
}

/// What `first_in` returns: an index between `from` and `end`, before which
/// the range holds no character of the class, and which holds one unless it
/// is `end`.
pub proof fn lemma_first_in(s: Seq<char>, from: int, end: int, class: CharClass)
    requires
        from <= end,
    ensures
        from <= first_in(s, from, end, class) <= end,
        forall|i: int| from <= i < first_in(s, from, end, class) ==> !class.has(#[trigger] s[i]),
        first_in(s, from, end, class) < end ==> class.has(s[first_in(s, from, end, class)]),
    decreases end - from,
{
    if from < end && !class.has(s[from]) {
        lemma_first_in(s, from + 1, end, class);
    }
}

/// The index that `lemma_first_in` describes is the one that `first_in`
/// returns.
pub proof fn lemma_first_in_is(s: Seq<char>, from: int, end: int, class: CharClass, at: int)
    requires
        from <= at <= end,
        forall|i: int| from <= i < at ==> !class.has(#[trigger] s[i]),
        at < end ==> class.has(s[at]),
    ensures
        first_in(s, from, end, class) == at,
    decreases at - from,
{
    if from < at {
        lemma_first_in_is(s, from + 1, end, class, at);
    }
}

/// What `trimmed_end` returns: an index at most `end`, after which `s[..end]`
/// holds only white space, and before which stands a character that is not.
pub proof fn lemma_trimmed_end(s: Seq<char>, end: int)
    requires
        0 <= end,
    ensures
        0 <= trimmed_end(s, end) <= end,
        forall|i: int| trimmed_end(s, end) <= i < end ==> is_whitespace(#[trigger] s[i]),
        trimmed_end(s, end) > 0 ==> !is_whitespace(s[trimmed_end(s, end) - 1]),
    decreases end,
{
    if end > 0 && is_whitespace(s[end - 1]) {
        lemma_trimmed_end(s, end - 1);
    }
}

/// Tests whether `c` is white space.
pub fn is_space(c: char) -> (b: bool)
    ensures
        b == is_whitespace(c),
{
    ('\u{9}' <= c && c <= '\u{D}') || c == ' ' || c == '\u{85}' || c == '\u{A0}' || c == '\u{1680}'
        || ('\u{2000}' <= c && c <= '\u{200A}') || c == '\u{2028}' || c == '\u{2029}' || c
        == '\u{202F}' || c == '\u{205F}' || c == '\u{3000}'
}

/// Tests whether `c` may appear in a name.
pub fn is_name_character(c: char) -> (b: bool)
    ensures
        b == is_name_char(c),
{
    ('a' <= c && c <= 'z') || ('0' <= c && c <= '9')
}

/// Finds the first character of `class` in `s[from..end]`.
pub(crate) fn find_first(s: &Vec<char>, from: usize, end: usize, class: CharClass) -> (at: usize)
    requires
        from <= end <= s.len(),
    ensures
        at == first_in(s@, from as int, end as int, class),
        from <= at <= end,
{
    let mut at: usize = from;
    while at < end && !class.contains(s[at])
        invariant
            from <= at <= end <= s.len(),
            first_in(s@, from as int, end as int, class) == first_in(
                s@,
                at as int,
                end as int,
                class,
            ),
        decreases end - at,
    {
        at = at + 1;
    }
    at
}

/// Finds where `s[..end]` ends once trailing white space is removed.
pub(crate) fn trim_end(s: &Vec<char>, end: usize) -> (at: usize)
    requires
        end <= s.len(),
    ensures
        at == trimmed_end(s@, end as int),
        at <= end,
{
    let mut at: usize = end;
    while at > 0 && is_space(s[at - 1])
        invariant
            at <= end <= s.len(),
            trimmed_end(s@, end as int) == trimmed_end(s@, at as int),
        decreases at,
    {
        at = at - 1;
    }
    at
}

/// Tests whether `s[from..end]` is a name.
pub(crate) fn is_name_range(s: &Vec<char>, from: usize, end: usize) -> (b: bool)
    requires
        from <= end <= s.len(),
    ensures
        b == is_name(s@.subrange(from as int, end as int)),
{
    let ghost name = s@.subrange(from as int, end as int);
    if from == end {
        return false;
    }
    let first = s[from];
    if !('a' <= first && first <= 'z') {
        return false;
    }
    let stop = find_first(s, from, end, CharClass::NotName);
    proof {
        lemma_first_in(s@, from as int, end as int, CharClass::NotName);
        if stop < end {
            assert(name[stop - from] == s@[stop as int]);
        }
    }
    stop == end
}

} // verus!
