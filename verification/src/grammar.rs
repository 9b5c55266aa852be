//! Well-formed documents, and the tree that each of them stands for.
//!
//! A well-formed document is one element: an open tag, content, and a close
//! tag of the same name. Content is text runs and elements in any number
//! and order. The element that such tokens stand for has the name and the
//! attributes of the open tag; its children are the elements of its content,
//! in their order, and its text is the text runs of its content, joined in
//! their order.

use vstd::prelude::*;
use crate::element::count_nodes;
use crate::element::lemma_count_nodes_after;
use crate::element::lemma_with_last_at;
use crate::element::lemma_with_last_at_same;
use crate::element::lemma_with_last_at_twice;
use crate::element::ElementView;
use crate::error::ParseErrorKind;
use crate::laws::closed;
use crate::laws::lemma_counts_concat;
use crate::laws::lemma_feed_concat;
use crate::laws::opened;
use crate::laws::lemma_run_lines_feeds;
use crate::lexer::document_tokens;
use crate::lexer::Token;
use crate::parser::feed;
use crate::parser::parse_spec;
use crate::tree::lemma_open_tag;
use crate::tree::lemma_text;
use crate::tree::TreeView;

verus! {

/// Whether `tokens` are one element: an open tag, the content of the
/// element, and a close tag of the same name.
pub open spec fn is_element(tokens: Seq<Token>) -> bool
    decreases tokens.len(), 0nat,
{
    &&& tokens.len() >= 2
    &&& tokens[0] is Open
    &&& tokens.last() is Close
    &&& tokens[0]->Open_name == tokens.last()->Close_name
    &&& is_content(tokens.subrange(1, tokens.len() - 1))
}

/// Whether `tokens` are the content of an element: text runs and elements,
/// in any number and order.
pub open spec fn is_content(tokens: Seq<Token>) -> bool
    decreases tokens.len(), 1nat,
{
    ||| tokens.len() == 0
    ||| tokens[0] is Text && is_content(tokens.drop_first())
    ||| exists|k: int|
        2 <= k <= tokens.len() && is_element(#[trigger] tokens.take(k)) && is_content(
            tokens.skip(k),
        )
}

/// Whether the first `k` of `tokens` are an element, and the others content.
pub open spec fn starts_with_element(tokens: Seq<Token>, k: int) -> bool {
    2 <= k <= tokens.len() && is_element(tokens.take(k)) && is_content(tokens.skip(k))
}

/// Whether a document is well formed: it is empty, or it is one element.
pub open spec fn well_formed(lines: Seq<Seq<char>>) -> bool {
    let tokens = document_tokens(lines, 0);
    tokens.len() == 0 || is_element(tokens)
}

/// Where the element ends with which the content `tokens` starts.
pub open spec fn first_element_end(tokens: Seq<Token>) -> int {
    choose|k: int|
        2 <= k <= tokens.len() && is_element(#[trigger] tokens.take(k)) && is_content(
            tokens.skip(k),
        )
}

/// The element that the tokens of an element stand for.
pub open spec fn element_of(tokens: Seq<Token>) -> ElementView
    recommends
        is_element(tokens),
    decreases tokens.len(), 0nat,
{
    if tokens.len() < 2 {
        ElementView::leaf(Seq::empty(), Seq::empty())
    } else {
        let content = tokens.subrange(1, tokens.len() - 1);
        ElementView {
            tag: tokens[0]->Open_name,
            props: tokens[0]->Open_attrs,
            children: children_of(content),
            text: text_of(content),
        }
    }
}

/// The elements that stand in the content `tokens`, in their order.
pub open spec fn children_of(tokens: Seq<Token>) -> Seq<ElementView>
    recommends
        is_content(tokens),
    decreases tokens.len(), 1nat,
{
    let k = first_element_end(tokens);
    if tokens.len() == 0 {
        Seq::empty()
    } else if tokens[0] is Text {
        children_of(tokens.drop_first())
    } else if 2 <= k <= tokens.len() {
        seq![element_of(tokens.take(k))] + children_of(tokens.skip(k))
    } else {
        Seq::empty()
    }
}

/// The text runs that stand in the content `tokens`, joined in their order.
/// The text inside the elements of the content is not part of it.
pub open spec fn text_of(tokens: Seq<Token>) -> Seq<char>
    recommends
        is_content(tokens),
    decreases tokens.len(),
{
    let k = first_element_end(tokens);
    if tokens.len() == 0 {
        Seq::empty()
    } else if tokens[0] is Text {
        tokens[0]->Text_run + text_of(tokens.drop_first())
    } else if 2 <= k <= tokens.len() {
        text_of(tokens.skip(k))
    } else {
        Seq::empty()
    }
}

/// Content that does not start with a text run starts with an element.
pub proof fn lemma_content_starts(tokens: Seq<Token>)
    requires
        is_content(tokens),
        tokens.len() > 0,
    ensures
        tokens[0] is Text ==> is_content(tokens.drop_first()),
        !(tokens[0] is Text) ==> starts_with_element(tokens, first_element_end(tokens)),
{
    if tokens[0] is Text && !is_content(tokens.drop_first()) {
        let k = first_element_end(tokens);
        assert(tokens.take(k)[0] == tokens[0]);
    }
}

/// Inside an open element, the tokens of an element add the element that
/// they stand for as a child of the innermost open element.
pub proof fn lemma_element_builds(tree: TreeView, tokens: Seq<Token>)
    requires
        tree.wf(),
        tree.depth > 0,
        is_element(tokens),
    ensures
        feed(tree, tokens) == Ok::<TreeView, ParseErrorKind>(
            tree.with_current(tree.current().push_child(element_of(tokens))),
        ),
    decreases tokens.len(), 0nat,
{
    let name = tokens[0]->Open_name;
    let attrs = tokens[0]->Open_attrs;
    let leaf = ElementView::leaf(name, attrs);
    let content = tokens.subrange(1, tokens.len() - 1);
    let close = seq![tokens.last()];
    let root = tree.root->0;
    let level = (tree.depth - 1) as nat;
    let current = tree.current();
    let element = element_of(tokens);
    assert(tokens.drop_first() =~= content + close);

    lemma_open_tag(tree, name, attrs);
    let opened = tree.open_tag(name, attrs)->Ok_0;
    lemma_with_last_at(root, level, current.push_child(leaf), 1);
    assert(leaf.last_at(0) == leaf);

    lemma_content_builds(opened, content);
    lemma_feed_concat(opened, content, close);
    let filled = opened.with_current(element);

    lemma_with_last_at_twice(root, level, current.push_child(leaf), 1, element);
    assert(current.push_child(leaf).with_last_at(1, element) == current.push_child(element)) by {
        let grown = current.push_child(leaf);
        assert(leaf.with_last_at(0, element) == element);
        assert(grown.children.update(grown.children.len() - 1, element)
            =~= current.children.push(element));
    }

    lemma_with_last_at(root, level, current.push_child(element), 1);
    assert(element.last_at(0) == element);
    let done = filled.close_tag(name)->Ok_0;
    assert(feed(done, close.drop_first()) == Ok::<TreeView, ParseErrorKind>(done));
}

/// Inside an open element, the tokens of content add the elements that
/// stand in them as children of the innermost open element, and their text
/// runs to its text.
pub proof fn lemma_content_builds(tree: TreeView, tokens: Seq<Token>)
    requires
        tree.wf(),
        tree.depth > 0,
        is_content(tokens),
    ensures
        feed(tree, tokens) == Ok::<TreeView, ParseErrorKind>(
            tree.with_current(tree.current().grown(children_of(tokens), text_of(tokens))),
        ),
    decreases tokens.len(), 1nat,
{
    let root = tree.root->0;
    let level = (tree.depth - 1) as nat;
    let current = tree.current();
    if tokens.len() == 0 {
        lemma_with_last_at_same(root, level);
    } else {
        lemma_content_starts(tokens);
        if tokens[0] is Text {
            let run = tokens[0]->Text_run;
            let rest = tokens.drop_first();
            lemma_text(tree, run);
            let next = tree.text(run)->Ok_0;
            lemma_with_last_at(root, level, current.push_text(run), 0);
            lemma_content_builds(next, rest);
            let grown = current.push_text(run).grown(children_of(rest), text_of(rest));
            lemma_with_last_at_twice(root, level, current.push_text(run), 0, grown);
            assert(grown == current.grown(children_of(tokens), text_of(tokens))) by {
                assert((current.text + run) + text_of(rest) =~= current.text + (run + text_of(
                    rest,
                )));
            }
        } else {
            let k = first_element_end(tokens);
            let first = tokens.take(k);
            let rest = tokens.skip(k);
            let element = element_of(first);
            assert(tokens =~= first + rest);
            lemma_element_builds(tree, first);
            lemma_feed_concat(tree, first, rest);
            let next = tree.with_current(current.push_child(element));
            lemma_with_last_at(root, level, current.push_child(element), 0);
            lemma_content_builds(next, rest);
            let grown = current.push_child(element).grown(children_of(rest), text_of(rest));
            lemma_with_last_at_twice(root, level, current.push_child(element), 0, grown);
            assert(grown == current.grown(children_of(tokens), text_of(tokens))) by {
                assert(current.children.push(element) + children_of(rest) =~= current.children + (
                seq![element] + children_of(rest)));
            }
        }
    }
}

/// In an empty tree, the tokens of an element build the element that they
/// stand for as the root, and leave no element open.
pub proof fn lemma_root_builds(tokens: Seq<Token>)
    requires
        is_element(tokens),
    ensures
        feed(TreeView::empty(), tokens) == Ok::<TreeView, ParseErrorKind>(
            TreeView { root: Some(element_of(tokens)), depth: 0 },
        ),
{
    let name = tokens[0]->Open_name;
    let attrs = tokens[0]->Open_attrs;
    let leaf = ElementView::leaf(name, attrs);
    let content = tokens.subrange(1, tokens.len() - 1);
    let close = seq![tokens.last()];
    let element = element_of(tokens);
    assert(tokens.drop_first() =~= content + close);
    let opened = TreeView { root: Some(leaf), depth: 1 };
    lemma_content_builds(opened, content);
    lemma_feed_concat(opened, content, close);
    let filled = TreeView { root: Some(element), depth: 1 };
    let done = filled.close_tag(name)->Ok_0;
    assert(feed(done, close.drop_first()) == Ok::<TreeView, ParseErrorKind>(done));
}

/// The tokens of an element hold as many open tags as close tags, and the
/// tree of the element that they stand for holds one element for each open
/// tag.
pub proof fn lemma_element_nodes(tokens: Seq<Token>)
    requires
        is_element(tokens),
    ensures
        element_of(tokens).node_count() == opened(tokens),
        opened(tokens) == closed(tokens),
    decreases tokens.len(), 0nat,
{
    let content = tokens.subrange(1, tokens.len() - 1);
    let close = seq![tokens.last()];
    assert(tokens.drop_first() =~= content + close);
    lemma_content_nodes(content);
    lemma_counts_concat(content, close);
    assert(opened(close.drop_first()) == 0 && closed(close.drop_first()) == 0);
}

/// The tokens of content hold as many open tags as close tags, and the
/// trees of the elements that stand in them hold one element for each open
/// tag.
pub proof fn lemma_content_nodes(tokens: Seq<Token>)
    requires
        is_content(tokens),
    ensures
        count_nodes(children_of(tokens), children_of(tokens).len()) == opened(tokens),
        opened(tokens) == closed(tokens),
    decreases tokens.len(), 1nat,
{
    if tokens.len() > 0 {
        lemma_content_starts(tokens);
        if tokens[0] is Text {
            lemma_content_nodes(tokens.drop_first());
        } else {
            let k = first_element_end(tokens);
            let first = tokens.take(k);
            let rest = tokens.skip(k);
            assert(tokens =~= first + rest);
            lemma_element_nodes(first);
            lemma_content_nodes(rest);
            lemma_counts_concat(first, rest);
            lemma_count_nodes_after(
                element_of(first),
                children_of(rest),
                children_of(rest).len(),
            );
        }
    }
}

/// A well-formed document that is not empty has as many open tags as close
/// tags, and its tree holds one element for each of its open tags: none is
/// lost and none stands twice.
pub proof fn lemma_well_formed_node_count(lines: Seq<Seq<char>>)
    requires
        well_formed(lines),
        document_tokens(lines, 0).len() > 0,
    ensures
        parse_spec(lines) is Ok,
        parse_spec(lines)->Ok_0.root is Some,
        parse_spec(lines)->Ok_0.root->0.node_count() == opened(document_tokens(lines, 0)),
        opened(document_tokens(lines, 0)) == closed(document_tokens(lines, 0)),
{
    lemma_well_formed_tree(lines);
    lemma_element_nodes(document_tokens(lines, 0));
}

/// A well-formed document is accepted, and its tree is the element that its
/// tokens stand for, with no element left open. An empty document has the
/// empty tree.
pub proof fn lemma_well_formed_tree(lines: Seq<Seq<char>>)
    requires
        well_formed(lines),
    ensures
        parse_spec(lines) == Ok::<TreeView, crate::error::ParseErrorView>(
            if document_tokens(lines, 0).len() == 0 {
                TreeView::empty()
            } else {
                TreeView { root: Some(element_of(document_tokens(lines, 0))), depth: 0 }
            },
        ),
{
    let tokens = document_tokens(lines, 0);
    lemma_run_lines_feeds(TreeView::empty(), lines, 0);
    if tokens.len() > 0 {
        lemma_root_builds(tokens);
    }
}

} // verus!
