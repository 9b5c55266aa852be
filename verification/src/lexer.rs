//! The tokenizer: it finds the next tag or text run of a line, and reads the
//! name and the attributes of a tag.

use vstd::prelude::*;
use vstd::string::StrSliceExecFns;
use crate::chars::find_first;
use crate::chars::first_in;
use crate::chars::is_name;
use crate::chars::is_name_range;
use crate::chars::lemma_first_in;
use crate::chars::lemma_trimmed_end;
use crate::chars::trim_end;
use crate::chars::trimmed_end;
use crate::chars::CharClass;
use crate::element::props_view;
use crate::element::AttrView;
use crate::error::ParseErrorKind;
use crate::tree::well_named;

verus! {

/// What a fragment of a line is.
#[derive(Clone, Copy, Debug, PartialEq, Eq, Structural)]
pub enum FragmentKind {
    /// An open tag: `<`, not followed by `/`, up to the next `>`.
    OpenTag,
    /// A close tag: `</` up to the next `>`.
    CloseTag,
    /// A text run: anything else, up to the next `<` or the end of the line.
    Text,
}

/// What stands at a position of a line, as a mathematical value. Positions
/// count characters from the start of the line.
pub enum ScanView {
    /// Nothing but white space.
    Done,
    /// The fragment `[start, end)`.
    Found { kind: FragmentKind, start: int, end: int },
    /// A tag that starts at `start` and has no `>` before the line ends.
    Unterminated { start: int },
}

/// What stands at a position of a line.
#[derive(Clone, Copy, Debug, PartialEq, Eq)]
pub enum Scan {
    /// Nothing but white space.
    Done,
    /// The fragment `[start, end)`.
    Found { kind: FragmentKind, start: usize, end: usize },
    /// A tag that starts at `start` and has no `>` before the line ends.
    Unterminated { start: usize },
}

impl View for Scan {
    type V = ScanView;

    open spec fn view(&self) -> ScanView {
        match *self {
            Scan::Done => ScanView::Done,
            Scan::Found { kind, start, end } => ScanView::Found {
                kind,
                start: start as int,
                end: end as int,
            },
            Scan::Unterminated { start } => ScanView::Unterminated { start: start as int },
        }
    }
}

/// The length of a line without its trailing white space.
pub open spec fn line_end(s: Seq<char>) -> int {
    trimmed_end(s, s.len() as int)
}

/// The first fragment of `s[pos..end]`. Leading white space is skipped. A
/// fragment that starts with `<` is a tag and ends with the first `>` after
/// it; any other fragment is text and ends before the first `<`.
pub open spec fn fragment_at(s: Seq<char>, pos: int, end: int) -> ScanView {
    let start = first_in(s, pos, end, CharClass::NotWhitespace);
    if start >= end {
        ScanView::Done
    } else if s[start] == '<' {
        let close = first_in(s, start, end, CharClass::Exactly('>'));
        if close >= end {
            ScanView::Unterminated { start }
        } else if s[start + 1] == '/' {
            ScanView::Found { kind: FragmentKind::CloseTag, start, end: close + 1 }
        } else {
            ScanView::Found { kind: FragmentKind::OpenTag, start, end: close + 1 }
        }
    } else {
        ScanView::Found {
            kind: FragmentKind::Text,
            start,
            end: first_in(s, start, end, CharClass::Exactly('<')),
        }
    }
}

/// Whether `[start, stop)` is a fragment of kind `kind` of the line `s`
/// that ends at `end`: the fragment that is found at `start` itself. So a
/// tag starts with `<` at `start` and ends with the first `>` after it, and
/// a range without that `>` is no fragment; a text run starts with a
/// character that is neither white space nor `<`, and ends before the next
/// `<` or with the line.
pub open spec fn is_fragment(
    s: Seq<char>,
    kind: FragmentKind,
    start: int,
    stop: int,
    end: int,
) -> bool {
    fragment_at(s, start, end) == (ScanView::Found { kind, start, end: stop })
}

/// A fragment is not empty, lies between the position it was looked for at
/// and the end of the line, and a tag starts with `<` and ends with the
/// first `>`. It is the fragment found at its own start.
pub proof fn lemma_fragment_at(s: Seq<char>, pos: int, end: int)
    ensures
        match fragment_at(s, pos, end) {
            ScanView::Done => true,
            ScanView::Found { kind, start, end: stop } => {
                &&& pos <= start < stop <= end
                &&& is_fragment(s, kind, start, stop, end)
                &&& kind != FragmentKind::Text ==> {
                    &&& s[start] == '<'
                    &&& start + 2 <= stop
                    &&& stop - 1 == first_in(s, start, end, CharClass::Exactly('>'))
                    &&& s[stop - 1] == '>'
                }
                &&& kind == FragmentKind::CloseTag ==> start + 3 <= stop && s[start + 1] == '/'
            },
            ScanView::Unterminated { start } => pos <= start < end,
        },
{
    let start = first_in(s, pos, end, CharClass::NotWhitespace);
    if pos <= end && start < end {
        lemma_first_in(s, pos, end, CharClass::NotWhitespace);
        lemma_first_in(s, start, end, CharClass::Exactly('>'));
        lemma_first_in(s, start, end, CharClass::Exactly('<'));
    }
}

/// A tag fragment starts with `<` and ends with `>`, and holds no other `>`.
/// A close tag starts with `</`.
pub proof fn lemma_tag_fragment(
    s: Seq<char>,
    kind: FragmentKind,
    start: int,
    stop: int,
    end: int,
)
    requires
        kind != FragmentKind::Text,
        is_fragment(s, kind, start, stop, end),
    ensures
        start + 2 <= stop <= end,
        s[start] == '<',
        s[stop - 1] == '>',
        forall|i: int| start <= i < stop - 1 ==> #[trigger] s[i] != '>',
        (kind == FragmentKind::CloseTag) == (s[start + 1] == '/'),
{
    lemma_fragment_at(s, start, end);
    lemma_first_in(s, start, end, CharClass::Exactly('>'));
}

/// A tag that has no `>` before the line ends is no fragment, wherever it
/// is said to end: the token of such a range is malformed.
pub proof fn lemma_tag_without_end(
    s: Seq<char>,
    kind: FragmentKind,
    start: int,
    stop: int,
    end: int,
)
    requires
        kind != FragmentKind::Text,
        forall|i: int| start <= i < end ==> #[trigger] s[i] != '>',
    ensures
        !is_fragment(s, kind, start, stop, end),
        token_of(s, kind, start, stop, end) == (Token::Malformed {
            kind: ParseErrorKind::MalformedFragment,
        }),
{
    if is_fragment(s, kind, start, stop, end) {
        lemma_tag_fragment(s, kind, start, stop, end);
    }
}

/// Where the name of the open tag `s[start..end]` ends.
pub open spec fn tag_name_end(s: Seq<char>, start: int, end: int) -> int {
    first_in(s, start + 1, end - 1, CharClass::NotName)
}

/// The name of the open tag `s[start..end]`: the name characters that
/// follow its `<`.
pub open spec fn open_tag_name(s: Seq<char>, start: int, end: int) -> Seq<char> {
    s.subrange(start + 1, tag_name_end(s, start, end))
}

/// The name of the close tag `s[start..end]`: what stands between its `</`
/// and its `>`.
pub open spec fn close_tag_name(s: Seq<char>, start: int, end: int) -> Seq<char> {
    s.subrange(start + 2, end - 1)
}

/// The attribute written as `s[from..to]`, if that is one: a name, one `=`,
/// and a value between double quotes. The quotes are not part of the value.
pub open spec fn attr_at(s: Seq<char>, from: int, to: int) -> Option<AttrView> {
    let eq = first_in(s, from, to, CharClass::Exactly('='));
    if eq < to && first_in(s, eq + 1, to, CharClass::Exactly('=')) >= to && is_name(
        s.subrange(from, eq),
    ) && to - eq >= 3 && s[eq + 1] == '"' && s[to - 1] == '"' {
        Some((s.subrange(from, eq), s.subrange(eq + 2, to - 1)))
    } else {
        None
    }
}

/// The attributes written in `s[pos..end]`, in the order in which they are
/// written: one for each run of characters between white space. `None` if
/// one of the runs is not an attribute.
pub open spec fn attrs_in(s: Seq<char>, pos: int, end: int) -> Option<Seq<AttrView>>
    decreases end - pos,
{
    let from = first_in(s, pos, end, CharClass::NotWhitespace);
    if pos > end || from >= end {
        Some(Seq::empty())
    } else {
        let to = first_in(s, from, end, CharClass::Whitespace);
        proof {
            lemma_first_in(s, pos, end, CharClass::NotWhitespace);
            lemma_first_in(s, from, end, CharClass::Whitespace);
        }
        match (attr_at(s, from, to), attrs_in(s, to, end)) {
            (Some(attr), Some(rest)) => Some(seq![attr] + rest),
            _ => None,
        }
    }
}

/// The keys of the attributes that `attrs_in` finds are names.
pub proof fn lemma_attrs_in_named(s: Seq<char>, pos: int, end: int)
    ensures
        match attrs_in(s, pos, end) {
            Some(attrs) => forall|i: int| 0 <= i < attrs.len() ==> is_name((#[trigger] attrs[i]).0),
            None => true,
        },
    decreases end - pos,
{
    let from = first_in(s, pos, end, CharClass::NotWhitespace);
    if pos <= end && from < end {
        let to = first_in(s, from, end, CharClass::Whitespace);
        lemma_first_in(s, pos, end, CharClass::NotWhitespace);
        lemma_first_in(s, from, end, CharClass::Whitespace);
        lemma_attrs_in_named(s, to, end);
    }
}

/// A tag or a text run, as the tree builder sees it.
pub enum Token {
    /// An open tag with its name and its attributes.
    Open { name: Seq<char>, attrs: Seq<AttrView> },
    /// A close tag with its name.
    Close { name: Seq<char> },
    /// A text run.
    Text { run: Seq<char> },
    /// A fragment that is no tag and no text run, with what is wrong with it.
    Malformed { kind: ParseErrorKind },
}

/// The token that the range `[start, end)` stands for, taken as a fragment
/// of kind `kind` of the line `s` that ends at `limit`.
///
/// A range that is no such fragment is malformed: above all a tag that
/// does not end with `>`. An open tag must start with a name, and what
/// follows the name must be attributes.
pub open spec fn token_of(
    s: Seq<char>,
    kind: FragmentKind,
    start: int,
    end: int,
    limit: int,
) -> Token {
    if !is_fragment(s, kind, start, end, limit) {
        Token::Malformed { kind: ParseErrorKind::MalformedFragment }
    } else {
        token_in(s, kind, start, end)
    }
}

/// The token that the fragment `s[start..end]` stands for. An open tag must
/// start with a name, and what follows the name must be attributes.
pub open spec fn token_in(s: Seq<char>, kind: FragmentKind, start: int, end: int) -> Token {
    match kind {
        FragmentKind::OpenTag => {
            if !is_name(open_tag_name(s, start, end)) {
                Token::Malformed { kind: ParseErrorKind::InvalidTagName }
            } else {
                match attrs_in(s, tag_name_end(s, start, end), end - 1) {
                    None => Token::Malformed { kind: ParseErrorKind::MalformedAttribute },
                    Some(attrs) => Token::Open { name: open_tag_name(s, start, end), attrs },
                }
            }
        },
        FragmentKind::CloseTag => Token::Close { name: close_tag_name(s, start, end) },
        FragmentKind::Text => Token::Text { run: s.subrange(start, end) },
    }
}

impl Token {
    /// Whether the token, if it is an open tag, has a name for its tag and
    /// names for the keys of its attributes.
    pub open spec fn well_named(self) -> bool {
        match self {
            Token::Open { name, attrs } => well_named(name, attrs),
            _ => true,
        }
    }
}

/// The tokens of `s[pos..end]`, in the order in which they are written. A
/// tag without a `>` is the last token of its line.
pub open spec fn line_tokens(s: Seq<char>, pos: int, end: int) -> Seq<Token>
    decreases end - pos,
{
    match fragment_at(s, pos, end) {
        ScanView::Done => Seq::empty(),
        ScanView::Unterminated { start } => seq![
            Token::Malformed { kind: ParseErrorKind::MalformedFragment },
        ],
        ScanView::Found { kind, start, end: stop } => {
            proof {
                lemma_fragment_at(s, pos, end);
            }
            seq![token_of(s, kind, start, stop, end)] + line_tokens(s, stop, end)
        },
    }
}

/// The tokens of the lines of a document from line `i` on.
pub open spec fn document_tokens(lines: Seq<Seq<char>>, i: int) -> Seq<Token>
    decreases lines.len() - i,
{
    if i < 0 || i >= lines.len() {
        Seq::empty()
    } else {
        line_tokens(lines[i], 0, line_end(lines[i])) + document_tokens(lines, i + 1)
    }
}

/// The open tags among the tokens of a line are well named.
pub proof fn lemma_line_tokens_named(s: Seq<char>, pos: int, end: int)
    ensures
        forall|i: int|
            0 <= i < line_tokens(s, pos, end).len() ==> (#[trigger] line_tokens(
                s,
                pos,
                end,
            )[i]).well_named(),
    decreases end - pos,
{
    match fragment_at(s, pos, end) {
        ScanView::Found { kind, start, end: stop } => {
            lemma_fragment_at(s, pos, end);
            lemma_attrs_in_named(s, tag_name_end(s, start, stop), stop - 1);
            lemma_line_tokens_named(s, stop, end);
            let token = token_of(s, kind, start, stop, end);
            let rest = line_tokens(s, stop, end);
            assert forall|i: int| 0 <= i < (seq![token] + rest).len() implies (#[trigger] (seq![
                token,
            ] + rest)[i]).well_named() by {
                if i > 0 {
                    assert((seq![token] + rest)[i] == rest[i - 1]);
                }
            }
        },
        _ => {},
    }
}

/// The open tags among the tokens of a document are well named.
pub proof fn lemma_document_tokens_named(lines: Seq<Seq<char>>, i: int)
    ensures
        forall|k: int|
            0 <= k < document_tokens(lines, i).len() ==> (#[trigger] document_tokens(
                lines,
                i,
            )[k]).well_named(),
    decreases lines.len() - i,
{
    if 0 <= i < lines.len() {
        lemma_line_tokens_named(lines[i], 0, line_end(lines[i]));
        lemma_document_tokens_named(lines, i + 1);
        let first = line_tokens(lines[i], 0, line_end(lines[i]));
        let rest = document_tokens(lines, i + 1);
        assert forall|k: int| 0 <= k < (first + rest).len() implies (#[trigger] (first
            + rest)[k]).well_named() by {
            if k < first.len() {
                assert((first + rest)[k] == first[k]);
            } else {
                assert((first + rest)[k] == rest[k - first.len()]);
            }
        }
    }
}

/// A line prepared for the tokenizer.
pub struct LineBuffer<'a> {
    text: &'a str,
    chars: Vec<char>,
    end: usize,
}

impl<'a> View for LineBuffer<'a> {
    type V = Seq<char>;

    closed spec fn view(&self) -> Seq<char> {
        self.text@
    }
}

impl<'a> LineBuffer<'a> {
    #[verifier::type_invariant]
    spec fn inv(&self) -> bool {
        &&& self.chars@ == self.text@
        &&& self.end == line_end(self.text@)
    }

    /// Prepares `text`.
    pub fn new(text: &'a str) -> (buffer: LineBuffer<'a>)
        ensures
            buffer@ == text@,
    {
        let mut chars: Vec<char> = Vec::new();
        for c in it: text.chars()
            invariant
                chars@ == it.seq().take(it.index()),
        {
            chars.push(c);
        }
        assert(chars@ =~= text@);
        let end = trim_end(&chars, chars.len());
        LineBuffer { text, chars, end }
    }

    /// Returns the number of characters of the line.
    pub fn len(&self) -> (len: usize)
        ensures
            len == self@.len(),
    {
        proof {
            use_type_invariant(self);
        }
        self.chars.len()
    }

    /// Returns the character at index `i` of the line.
    pub(crate) fn char_at(&self, i: usize) -> (c: char)
        requires
            i < self@.len(),
        ensures
            c == self@[i as int],
    {
        proof {
            use_type_invariant(self);
        }
        self.chars[i]
    }

    /// Returns the length of the line without its trailing white space.
    pub fn end(&self) -> (end: usize)
        ensures
            end == line_end(self@),
            end <= self@.len(),
    {
        proof {
            use_type_invariant(self);
            lemma_trimmed_end(self@, self@.len() as int);
        }
        self.end
    }

    /// Returns a copy of the characters `[from, to)` of the line.
    pub(crate) fn slice(&self, from: usize, to: usize) -> (part: String)
        requires
            from <= to <= self@.len(),
        ensures
            part@ == self@.subrange(from as int, to as int),
    {
        self.text.substring_char(from, to).to_owned()
    }

    /// Finds the first character of `class` among the characters
    /// `[from, end)` of the line.
    pub(crate) fn find(&self, from: usize, end: usize, class: CharClass) -> (at: usize)
        requires
            from <= end <= self@.len(),
        ensures
            at == first_in(self@, from as int, end as int, class),
            from <= at <= end,
    {
        proof {
            use_type_invariant(self);
        }
        find_first(&self.chars, from, end, class)
    }

    /// Tests whether the characters `[from, to)` of the line are a name.
    pub(crate) fn is_name(&self, from: usize, to: usize) -> (b: bool)
        requires
            from <= to <= self@.len(),
        ensures
            b == is_name(self@.subrange(from as int, to as int)),
    {
        proof {
            use_type_invariant(self);
        }
        is_name_range(&self.chars, from, to)
    }

    /// Tests whether `[start, end)` is a fragment of kind `kind` of the
    /// line.
    pub fn is_fragment(&self, kind: FragmentKind, start: usize, end: usize) -> (b: bool)
        ensures
            b == is_fragment(self@, kind, start as int, end as int, line_end(self@)),
    {
        match self.next_fragment(start) {
            Scan::Found { kind: found, start: from, end: to } => found == kind && from == start
                && to == end,
            _ => false,
        }
    }

    /// Finds the first fragment at or after `pos`.
    pub fn next_fragment(&self, pos: usize) -> (scan: Scan)
        ensures
            scan@ == fragment_at(self@, pos as int, line_end(self@)),
    {
        proof {
            use_type_invariant(self);
            lemma_trimmed_end(self@, self@.len() as int);
        }
        let end = self.end;
        if pos >= end {
            return Scan::Done;
        }
        let start = find_first(&self.chars, pos, end, CharClass::NotWhitespace);
        if start >= end {
            return Scan::Done;
        }
        if self.chars[start] == '<' {
            let close = find_first(&self.chars, start, end, CharClass::Exactly('>'));
            if close >= end {
                Scan::Unterminated { start }
            } else {
                proof {
                    lemma_first_in(self@, start as int, end as int, CharClass::Exactly('>'));
                }
                if self.chars[start + 1] == '/' {
                    Scan::Found { kind: FragmentKind::CloseTag, start, end: close + 1 }
                } else {
                    Scan::Found { kind: FragmentKind::OpenTag, start, end: close + 1 }
                }
            }
        } else {
            let stop = find_first(&self.chars, start, end, CharClass::Exactly('<'));
            Scan::Found { kind: FragmentKind::Text, start, end: stop }
        }
    }

    /// Reads the attribute written as the characters `[from, to)`.
    fn attribute_at(&self, from: usize, to: usize) -> (attr: Option<(String, String)>)
        requires
            from <= to <= self@.len(),
        ensures
            match (attr_at(self@, from as int, to as int), attr) {
                (Some(a), Some(pair)) => a == (pair.0@, pair.1@),
                (None, None) => true,
                _ => false,
            },
    {
        proof {
            use_type_invariant(self);
        }
        let eq = find_first(&self.chars, from, to, CharClass::Exactly('='));
        if eq >= to {
            return None;
        }
        let other = find_first(&self.chars, eq + 1, to, CharClass::Exactly('='));
        if other < to || !is_name_range(&self.chars, from, eq) || to - eq < 3 {
            return None;
        }
        if self.chars[eq + 1] != '"' || self.chars[to - 1] != '"' {
            return None;
        }
        Some((self.slice(from, eq), self.slice(eq + 2, to - 1)))
    }

    /// Reads the attributes written in the characters `[pos, end)`.
    pub(crate) fn attributes_in(&self, pos: usize, end: usize) -> (attrs: Option<
        Vec<(String, String)>,
    >)
        requires
            pos <= end <= self@.len(),
        ensures
            match (attrs_in(self@, pos as int, end as int), attrs) {
                (Some(a), Some(list)) => a == props_view(list@),
                (None, None) => true,
                _ => false,
            },
    {
        proof {
            use_type_invariant(self);
        }
        let mut attrs: Vec<(String, String)> = Vec::new();
        let mut at: usize = pos;
        loop
            invariant
                pos <= at <= end <= self@.len(),
                self.chars@ == self@,
                attrs_in(self@, pos as int, end as int) == match attrs_in(
                    self@,
                    at as int,
                    end as int,
                ) {
                    Some(rest) => Some(props_view(attrs@) + rest),
                    None => None,
                },
            decreases end - at,
        {
            let from = find_first(&self.chars, at, end, CharClass::NotWhitespace);
            if from >= end {
                return Some(attrs);
            }
            let to = find_first(&self.chars, from, end, CharClass::Whitespace);
            proof {
                lemma_first_in(self@, from as int, end as int, CharClass::Whitespace);
                lemma_first_in(self@, at as int, end as int, CharClass::NotWhitespace);
            }
            match self.attribute_at(from, to) {
                None => {
                    return None;
                },
                Some(attr) => {
                    attrs.push(attr);
                    at = to;
                },
            }
        }
    }
}

/// Reads the attributes written in `text`, the part of an open tag between
/// its name and its `>`. Returns them in the order in which they are written,
/// or `None` if something in `text` is not an attribute.
pub fn parse_attributes(text: &str) -> (attrs: Option<Vec<(String, String)>>)
    ensures
        match (attrs_in(text@, 0, text@.len() as int), attrs) {
            (Some(a), Some(list)) => a == props_view(list@),
            (None, None) => true,
            _ => false,
        },
{
    let line = LineBuffer::new(text);
    line.attributes_in(0, line.len())
}

} // verus!
