//! Open tags as they are written, and what the parser reads from them: the
//! name and the attributes that were written, in the order in which they
//! were written.

use vstd::prelude::*;
use crate::chars::is_name;
use crate::chars::is_whitespace;
use crate::chars::lemma_first_in_is;
use crate::chars::trimmed_end;
use crate::chars::CharClass;
use crate::element::AttrView;
use crate::element::ElementView;
use crate::error::ParseErrorKind;
use crate::lexer::attr_at;
use crate::lexer::attrs_in;
use crate::lexer::fragment_at;
use crate::lexer::is_fragment;
use crate::lexer::line_end;
use crate::lexer::open_tag_name;
use crate::lexer::tag_name_end;
use crate::lexer::token_of;
use crate::lexer::FragmentKind;
use crate::lexer::ScanView;
use crate::lexer::Token;
use crate::parser::apply_fragment;
use crate::tree::TreeView;

verus! {

/// Whether an attribute can be written: its key is a name, and its value
/// holds no white space and no `=`.
pub open spec fn writable(attr: AttrView) -> bool {
    &&& is_name(attr.0)
    &&& forall|i: int|
        0 <= i < attr.1.len() ==> !is_whitespace(#[trigger] attr.1[i]) && attr.1[i] != '='
}

/// Whether the value of an attribute holds no `>`, so that the attribute
/// can stand in a tag.
pub open spec fn fits_in_tag(attr: AttrView) -> bool {
    forall|i: int| 0 <= i < attr.1.len() ==> #[trigger] attr.1[i] != '>'
}

/// An attribute as it is written: its key, `=`, and its value between
/// double quotes.
pub open spec fn written_attr(attr: AttrView) -> Seq<char> {
    attr.0 + seq!['=', '"'] + attr.1 + seq!['"']
}

/// Attributes as they are written: each after a space, in their order.
pub open spec fn written_attrs(attrs: Seq<AttrView>) -> Seq<char>
    decreases attrs.len(),
{
    if attrs.len() == 0 {
        Seq::empty()
    } else {
        seq![' '] + written_attr(attrs[0]) + written_attrs(attrs.drop_first())
    }
}

/// An open tag as it is written: `<`, its name, its attributes, and `>`.
pub open spec fn written_open_tag(name: Seq<char>, attrs: Seq<AttrView>) -> Seq<char> {
    seq!['<'] + name + written_attrs(attrs) + seq!['>']
}

/// A written attribute is read back as it was written.
pub proof fn lemma_written_attr_read(s: Seq<char>, from: int, to: int, attr: AttrView)
    requires
        0 <= from <= to <= s.len(),
        s.subrange(from, to) == written_attr(attr),
        writable(attr),
    ensures
        attr_at(s, from, to) == Some(attr),
        forall|i: int| from <= i < to ==> !is_whitespace(#[trigger] s[i]),
        fits_in_tag(attr) ==> forall|i: int| from <= i < to ==> #[trigger] s[i] != '>',
{
    let key = attr.0;
    let value = attr.1;
    let written = written_attr(attr);
    let klen = key.len() as int;
    let vlen = value.len() as int;
    let eq = from + klen;
    assert(written.len() == key.len() + value.len() + 3);
    assert forall|i: int| from <= i < to implies s[i] == #[trigger] written[i - from] by {
        assert(s.subrange(from, to)[i - from] == s[i]);
    }
    assert forall|i: int| 0 <= i < key.len() implies written[i] == #[trigger] key[i] by {}
    assert(written[klen] == '=');
    assert(written[klen + 1] == '"');
    assert forall|i: int| 0 <= i < value.len() implies written[klen + 2 + i]
        == #[trigger] value[i] by {}
    assert(written[klen + vlen + 2] == '"');
    assert forall|i: int| from <= i < eq implies !CharClass::Exactly('=').has(#[trigger] s[i]) by {
        assert(s[i] == written[i - from]);
        assert(written[i - from] == key[i - from]);
    }
    assert(s[eq] == written[eq - from]);
    lemma_first_in_is(s, from, to, CharClass::Exactly('='), eq);
    assert forall|i: int| eq + 1 <= i < to implies !CharClass::Exactly('=').has(
        #[trigger] s[i],
    ) by {
        assert(s[i] == written[i - from]);
        if eq + 2 <= i < to - 1 {
            assert(written[i - from] == value[i - eq - 2]);
        }
    }
    lemma_first_in_is(s, eq + 1, to, CharClass::Exactly('='), to);
    assert(s.subrange(from, eq) =~= key) by {
        assert forall|i: int| 0 <= i < key.len() implies s.subrange(from, eq)[i] == key[i] by {
            assert(s[from + i] == written[i]);
        }
    }
    assert(s[eq + 1] == written[eq + 1 - from]);
    assert(s[to - 1] == written[to - 1 - from]);
    assert(s.subrange(eq + 2, to - 1) =~= value) by {
        assert forall|i: int| 0 <= i < value.len() implies s.subrange(eq + 2, to - 1)[i]
            == value[i] by {
            assert(s[eq + 2 + i] == written[klen + 2 + i]);
        }
    }
    assert forall|i: int| from <= i < to implies !is_whitespace(#[trigger] s[i]) by {
        assert(s[i] == written[i - from]);
        if i < eq {
            assert(written[i - from] == key[i - from]);
        } else if eq + 2 <= i < to - 1 {
            assert(written[i - from] == value[i - eq - 2]);
        }
    }
    if fits_in_tag(attr) {
        assert forall|i: int| from <= i < to implies #[trigger] s[i] != '>' by {
            assert(s[i] == written[i - from]);
            if i < eq {
                assert(written[i - from] == key[i - from]);
            } else if eq + 2 <= i < to - 1 {
                assert(written[i - from] == value[i - eq - 2]);
            }
        }
    }
}

/// Written attributes are read back as they were written: as many as were
/// written, each with its key and its value, in the order in which they
/// were written.
pub proof fn lemma_written_attrs_read(s: Seq<char>, pos: int, end: int, attrs: Seq<AttrView>)
    requires
        0 <= pos <= end <= s.len(),
        s.subrange(pos, end) == written_attrs(attrs),
        forall|i: int| 0 <= i < attrs.len() ==> writable(#[trigger] attrs[i]),
    ensures
        attrs_in(s, pos, end) == Some(attrs),
        forall|i: int|
            pos <= i < end && (forall|k: int| 0 <= k < attrs.len() ==> fits_in_tag(
                #[trigger] attrs[k],
            )) ==> #[trigger] s[i] != '>',
        attrs.len() > 0 ==> pos < end && s[pos] == ' ',
    decreases attrs.len(),
{
    if attrs.len() == 0 {
        assert(s.subrange(pos, end).len() == 0);
    } else {
        let first = written_attr(attrs[0]);
        let rest = attrs.drop_first();
        let written = written_attrs(attrs);
        let from = pos + 1;
        let to = from + first.len();
        assert(written == seq![' '] + first + written_attrs(rest));
        assert(written.len() == 1 + first.len() + written_attrs(rest).len());
        assert(s.subrange(pos, end)[0] == s[pos]);
        assert(written[0] == ' ');
        assert(s.subrange(from, to) =~= first) by {
            assert forall|i: int| 0 <= i < first.len() implies s.subrange(from, to)[i]
                == first[i] by {
                assert(s.subrange(pos, end)[1 + i] == s[pos + 1 + i]);
                assert(written[1 + i] == first[i]);
            }
        }
        assert(s.subrange(to, end) =~= written_attrs(rest)) by {
            assert forall|i: int| 0 <= i < end - to implies s.subrange(to, end)[i]
                == written_attrs(rest)[i] by {
                assert(s.subrange(pos, end)[1 + first.len() + i] == s[to + i]);
                assert(written[1 + first.len() + i] == written_attrs(rest)[i]);
            }
        }
        assert(writable(attrs[0]));
        assert forall|i: int| 0 <= i < rest.len() implies writable(#[trigger] rest[i]) by {
            assert(rest[i] == attrs[i + 1]);
        }
        lemma_written_attr_read(s, from, to, attrs[0]);
        lemma_written_attrs_read(s, to, end, rest);
        assert(first.len() >= 4) by {
            assert(attrs[0].0.len() > 0);
        }
        assert(is_whitespace(' '));
        lemma_first_in_is(s, pos, end, CharClass::NotWhitespace, from);
        lemma_first_in_is(s, from, end, CharClass::Whitespace, to);
        assert(seq![attrs[0]] + rest =~= attrs);
        if forall|k: int| 0 <= k < attrs.len() ==> fits_in_tag(#[trigger] attrs[k]) {
            assert(fits_in_tag(attrs[0]));
            assert forall|k: int| 0 <= k < rest.len() implies fits_in_tag(#[trigger] rest[k]) by {
                assert(rest[k] == attrs[k + 1]);
            }
        }
    }
}

/// A written open tag is read back as it was written: the tag has the name
/// that was written, and the attributes that were written, in their order.
/// In an empty tree it opens the root with that name and those attributes.
pub proof fn lemma_written_open_tag_read(name: Seq<char>, attrs: Seq<AttrView>)
    requires
        is_name(name),
        forall|i: int| 0 <= i < attrs.len() ==> writable(#[trigger] attrs[i]),
        forall|i: int| 0 <= i < attrs.len() ==> fits_in_tag(#[trigger] attrs[i]),
    ensures
        ({
            let s = written_open_tag(name, attrs);
            &&& line_end(s) == s.len()
            &&& fragment_at(s, 0, line_end(s)) == (ScanView::Found {
                kind: FragmentKind::OpenTag,
                start: 0,
                end: s.len() as int,
            })
            &&& token_of(s, FragmentKind::OpenTag, 0, s.len() as int, line_end(s)) == (Token::Open {
                name,
                attrs,
            })
            &&& apply_fragment(
                TreeView::empty(),
                s,
                FragmentKind::OpenTag,
                0,
                s.len() as int,
                line_end(s),
            ) == Ok::<TreeView, ParseErrorKind>(
                TreeView { root: Some(ElementView::leaf(name, attrs)), depth: 1 },
            )
        }),
{
    let s = written_open_tag(name, attrs);
    let written = written_attrs(attrs);
    let len = s.len() as int;
    let name_end = (1 + name.len()) as int;
    assert(len == name.len() + written.len() + 2);
    assert(s[0] == '<');
    assert(s[len - 1] == '>');
    assert forall|i: int| 0 <= i < name.len() implies s[1 + i] == #[trigger] name[i] by {}
    assert(s.subrange(name_end, len - 1) =~= written) by {
        assert forall|i: int| 0 <= i < written.len() implies s.subrange(name_end, len - 1)[i]
            == written[i] by {
            assert(s[name_end + i] == written[i]);
        }
    }
    lemma_written_attrs_read(s, name_end, len - 1, attrs);
    assert(trimmed_end(s, len) == len);
    lemma_first_in_is(s, 0, len, CharClass::NotWhitespace, 0);
    assert forall|i: int| 0 <= i < len - 1 implies !CharClass::Exactly('>').has(
        #[trigger] s[i],
    ) by {
        if 1 <= i < name_end {
            assert(s[i] == name[i - 1]);
        }
    }
    lemma_first_in_is(s, 0, len, CharClass::Exactly('>'), len - 1);
    assert(s[1] == name[0]);
    assert(is_fragment(s, FragmentKind::OpenTag, 0, len, len));
    assert forall|i: int| 1 <= i < name_end implies !CharClass::NotName.has(#[trigger] s[i]) by {
        assert(s[i] == name[i - 1]);
    }
    lemma_first_in_is(s, 1, len - 1, CharClass::NotName, name_end);
    assert(tag_name_end(s, 0, len) == name_end);
    assert(open_tag_name(s, 0, len) =~= name) by {
        assert forall|i: int| 0 <= i < name.len() implies s.subrange(1, name_end)[i]
            == name[i] by {
            assert(s[1 + i] == name[i]);
        }
    }
}

} // verus!
