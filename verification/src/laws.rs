//! What holds of every document and of every query.

use vstd::prelude::*;
use crate::element::ElementView;
use crate::error::ParseErrorKind;
use crate::lexer::document_tokens;
use crate::lexer::fragment_at;
use crate::lexer::lemma_document_tokens_named;
use crate::lexer::lemma_fragment_at;
use crate::lexer::line_end;
use crate::lexer::line_tokens;
use crate::lexer::token_of;
use crate::lexer::ScanView;
use crate::lexer::Token;
use crate::parser::apply_token;
use crate::parser::feed;
use crate::parser::parse_spec;
use crate::parser::run_line;
use crate::parser::run_lines;
use crate::query::is_query_result;
use crate::query::matches_at;
use crate::query::matches_below;
use crate::query::query;
use crate::tree::lemma_close_tag;
use crate::tree::lemma_open_tag;
use crate::tree::lemma_text;
use crate::tree::TreeView;
use crate::grammar::lemma_well_formed_tree;
use crate::grammar::well_formed;

verus! {

/// How many of `tokens` are open tags.
pub open spec fn opened(tokens: Seq<Token>) -> nat
    decreases tokens.len(),
{
    if tokens.len() == 0 {
        0
    } else {
        (if tokens[0] is Open {
            1nat
        } else {
            0nat
        }) + opened(tokens.drop_first())
    }
}

/// How many of `tokens` are close tags.
pub open spec fn closed(tokens: Seq<Token>) -> nat
    decreases tokens.len(),
{
    if tokens.len() == 0 {
        0
    } else {
        (if tokens[0] is Close {
            1nat
        } else {
            0nat
        }) + closed(tokens.drop_first())
    }
}

/// Two lists of tokens joined hold the open tags and the close tags of
/// both.
pub proof fn lemma_counts_concat(first: Seq<Token>, second: Seq<Token>)
    ensures
        opened(first + second) == opened(first) + opened(second),
        closed(first + second) == closed(first) + closed(second),
    decreases first.len(),
{
    if first.len() == 0 {
        assert(first + second =~= second);
    } else {
        assert((first + second).drop_first() =~= first.drop_first() + second);
        lemma_counts_concat(first.drop_first(), second);
    }
}

/// Feeding two lists of tokens one after the other is feeding them joined.
pub proof fn lemma_feed_concat(tree: TreeView, first: Seq<Token>, second: Seq<Token>)
    ensures
        feed(tree, first + second) == match feed(tree, first) {
            Ok(middle) => feed(middle, second),
            Err(kind) => Err(kind),
        },
    decreases first.len(),
{
    if first.len() == 0 {
        assert(first + second =~= second);
    } else {
        assert((first + second).drop_first() =~= first.drop_first() + second);
        match apply_token(tree, first[0]) {
            Ok(next) => {
                lemma_feed_concat(next, first.drop_first(), second);
            },
            Err(kind) => {},
        }
    }
}

/// Running a line is feeding its tokens.
pub proof fn lemma_run_line_feeds(tree: TreeView, s: Seq<char>, pos: int, end: int)
    ensures
        match run_line(tree, s, pos, end) {
            Ok(next) => feed(tree, line_tokens(s, pos, end)) == Ok::<TreeView, ParseErrorKind>(
                next,
            ),
            Err(failure) => feed(tree, line_tokens(s, pos, end)) == Err::<
                TreeView,
                ParseErrorKind,
            >(failure.kind),
        },
    decreases end - pos,
{
    match fragment_at(s, pos, end) {
        ScanView::Done => {},
        ScanView::Unterminated { start } => {},
        ScanView::Found { kind, start, end: stop } => {
            lemma_fragment_at(s, pos, end);
            let token = token_of(s, kind, start, stop, end);
            let rest = line_tokens(s, stop, end);
            assert((seq![token] + rest).drop_first() =~= rest);
            match apply_token(tree, token) {
                Ok(next) => {
                    lemma_run_line_feeds(next, s, stop, end);
                },
                Err(kind) => {},
            }
        },
    }
}

/// Running a document is feeding its tokens.
pub proof fn lemma_run_lines_feeds(tree: TreeView, lines: Seq<Seq<char>>, i: int)
    ensures
        match run_lines(tree, lines, i) {
            Ok(next) => feed(tree, document_tokens(lines, i)) == Ok::<TreeView, ParseErrorKind>(
                next,
            ),
            Err(error) => feed(tree, document_tokens(lines, i)) == Err::<
                TreeView,
                ParseErrorKind,
            >(error.kind),
        },
    decreases lines.len() - i,
{
    if 0 <= i < lines.len() {
        let end = line_end(lines[i]);
        lemma_run_line_feeds(tree, lines[i], 0, end);
        lemma_feed_concat(tree, line_tokens(lines[i], 0, end), document_tokens(lines, i + 1));
        match run_line(tree, lines[i], 0, end) {
            Ok(next) => {
                lemma_run_lines_feeds(next, lines, i + 1);
            },
            Err(failure) => {},
        }
    }
}

/// The path stack is as deep as the nesting: after tokens that are
/// accepted, the number of open elements has grown by the number of open
/// tags and shrunk by the number of close tags.
pub proof fn lemma_depth_is_nesting(tree: TreeView, tokens: Seq<Token>)
    requires
        tree.wf(),
        feed(tree, tokens) is Ok,
    ensures
        feed(tree, tokens)->Ok_0.wf(),
        feed(tree, tokens)->Ok_0.depth + closed(tokens) == tree.depth + opened(tokens),
    decreases tokens.len(),
{
    if tokens.len() > 0 {
        match tokens[0] {
            Token::Open { name, attrs } => lemma_open_tag(tree, name, attrs),
            Token::Close { name } => lemma_close_tag(tree, name),
            Token::Text { run } => lemma_text(tree, run),
            Token::Malformed { kind } => {},
        }
        lemma_depth_is_nesting(apply_token(tree, tokens[0])->Ok_0, tokens.drop_first());
    }
}

/// Tokens that are accepted keep the names of the tree valid, if their open
/// tags are well named.
pub proof fn lemma_names_stay_valid(tree: TreeView, tokens: Seq<Token>)
    requires
        tree.wf(),
        tree.names_valid(),
        forall|i: int| 0 <= i < tokens.len() ==> (#[trigger] tokens[i]).well_named(),
        feed(tree, tokens) is Ok,
    ensures
        feed(tree, tokens)->Ok_0.names_valid(),
    decreases tokens.len(),
{
    if tokens.len() > 0 {
        match tokens[0] {
            Token::Open { name, attrs } => lemma_open_tag(tree, name, attrs),
            Token::Close { name } => lemma_close_tag(tree, name),
            Token::Text { run } => lemma_text(tree, run),
            Token::Malformed { kind } => {},
        }
        lemma_names_stay_valid(apply_token(tree, tokens[0])->Ok_0, tokens.drop_first());
    }
}

/// In the tree of a document that is accepted, the open elements exist, and
/// every tag and every attribute key is a name.
pub proof fn lemma_accepted_tree_valid(lines: Seq<Seq<char>>)
    requires
        parse_spec(lines) is Ok,
    ensures
        parse_spec(lines)->Ok_0.wf(),
        parse_spec(lines)->Ok_0.names_valid(),
{
    lemma_run_lines_feeds(TreeView::empty(), lines, 0);
    lemma_document_tokens_named(lines, 0);
    lemma_depth_is_nesting(TreeView::empty(), document_tokens(lines, 0));
    lemma_names_stay_valid(TreeView::empty(), document_tokens(lines, 0));
}

/// A well-formed document is accepted. It has as many open tags as close
/// tags, and when it ends the path stack is empty.
pub proof fn lemma_well_formed_is_balanced(lines: Seq<Seq<char>>)
    requires
        well_formed(lines),
    ensures
        parse_spec(lines) is Ok,
        parse_spec(lines)->Ok_0.depth == 0,
        opened(document_tokens(lines, 0)) == closed(document_tokens(lines, 0)),
{
    lemma_well_formed_tree(lines);
    lemma_accepted_depth(lines);
}

/// Whatever a document holds, if it is accepted then the depth of the path
/// stack at its end is the number of its open tags less the number of its
/// close tags, and the open elements exist in the tree.
pub proof fn lemma_accepted_depth(lines: Seq<Seq<char>>)
    requires
        parse_spec(lines) is Ok,
    ensures
        parse_spec(lines)->Ok_0.wf(),
        parse_spec(lines)->Ok_0.depth + closed(document_tokens(lines, 0)) == opened(
            document_tokens(lines, 0),
        ),
{
    lemma_run_lines_feeds(TreeView::empty(), lines, 0);
    lemma_depth_is_nesting(TreeView::empty(), document_tokens(lines, 0));
}

/// Tokens of which one is malformed are not accepted.
pub proof fn lemma_malformed_token_is_refused(tree: TreeView, tokens: Seq<Token>, i: int)
    requires
        0 <= i < tokens.len(),
        tokens[i] is Malformed,
    ensures
        feed(tree, tokens) is Err,
    decreases tokens.len(),
{
    if i > 0 {
        match apply_token(tree, tokens[0]) {
            Ok(next) => {
                lemma_malformed_token_is_refused(next, tokens.drop_first(), i - 1);
            },
            Err(kind) => {},
        }
    }
}

/// A document with a malformed fragment is rejected: one with a tag that
/// has no `>` on its line, an open tag that does not start with a name, or
/// an attribute that is not written as `key="value"`.
pub proof fn lemma_malformed_is_rejected(lines: Seq<Seq<char>>, i: int)
    requires
        0 <= i < document_tokens(lines, 0).len(),
        document_tokens(lines, 0)[i] is Malformed,
    ensures
        parse_spec(lines) is Err,
{
    lemma_run_lines_feeds(TreeView::empty(), lines, 0);
    lemma_malformed_token_is_refused(TreeView::empty(), document_tokens(lines, 0), i);
}

/// A query whose first segment is not the tag of the root finds nothing.
pub proof fn lemma_root_mismatch(tree: TreeView, path: Seq<Seq<char>>)
    requires
        tree.root is Some,
        path.len() > 0,
        tree.root->0.tag != path[0],
    ensures
        query(tree, path) == Seq::<ElementView>::empty(),
{
}

/// Every element that a search reports has the tag of the last segment of
/// the path.
pub proof fn lemma_reported_have_last_tag(e: ElementView, path: Seq<Seq<char>>, depth: nat)
    ensures
        forall|i: int|
            0 <= i < matches_at(e, path, depth).len() ==> (#[trigger] matches_at(
                e,
                path,
                depth,
            )[i]).tag == path.last(),
    decreases e, e.children.len() + 1,
{
    if !(path.len() == 0 || (depth < path.len() && e.tag != path[depth as int])) {
        lemma_reported_below_have_last_tag(e, path, depth, e.children.len());
        let below = matches_below(e, path, depth, e.children.len());
        assert forall|i: int| 0 <= i < matches_at(e, path, depth).len() implies (
        #[trigger] matches_at(e, path, depth)[i]).tag == path.last() by {
            if i < below.len() {
                assert(matches_at(e, path, depth)[i] == below[i]);
            }
        }
    }
}

/// Every element that the children of an element report has the tag of the
/// last segment of the path.
pub proof fn lemma_reported_below_have_last_tag(
    e: ElementView,
    path: Seq<Seq<char>>,
    depth: nat,
    n: nat,
)
    ensures
        forall|i: int|
            0 <= i < matches_below(e, path, depth, n).len() ==> (#[trigger] matches_below(
                e,
                path,
                depth,
                n,
            )[i]).tag == path.last(),
    decreases e, n,
{
    if !(n == 0 || n > e.children.len() || depth >= path.len()) {
        lemma_reported_below_have_last_tag(e, path, depth, (n - 1) as nat);
        lemma_reported_have_last_tag(e.children[n - 1], path, depth + 1);
        let before = matches_below(e, path, depth, (n - 1) as nat);
        let more = matches_at(e.children[n - 1], path, depth + 1);
        assert forall|i: int| 0 <= i < (before + more).len() implies (#[trigger] (before
            + more)[i]).tag == path.last() by {
            if i < before.len() {
                assert((before + more)[i] == before[i]);
            } else {
                assert((before + more)[i] == more[i - before.len()]);
            }
        }
    }
}

/// Every element that a query finds has the tag of the last segment of the
/// path.
pub proof fn lemma_found_have_last_tag(tree: TreeView, path: Seq<Seq<char>>)
    ensures
        forall|i: int|
            0 <= i < query(tree, path).len() ==> (#[trigger] query(tree, path)[i]).tag
                == path.last(),
{
    if tree.root is Some {
        lemma_reported_have_last_tag(tree.root->0, path, 0);
    }
}

/// Whether a tree is a list: its root has the tag `first`, every child of
/// the root has the tag `second`, which is another, and no child of a child
/// has the tag `second`.
pub open spec fn is_list_of(root: ElementView, first: Seq<char>, second: Seq<char>) -> bool {
    &&& root.tag == first
    &&& first != second
    &&& forall|i: int| 0 <= i < root.children.len() ==> (#[trigger] root.children[i]).tag == second
    &&& forall|i: int, j: int|
        0 <= i < root.children.len() && 0 <= j < root.children[i].children.len() ==> (
        #[trigger] root.children[i].children[j]).tag != second
}

/// An element whose children do not have the last tag of a path of two
/// segments reports nothing from below when it is searched at depth one.
pub proof fn lemma_nothing_below(e: ElementView, path: Seq<Seq<char>>, n: nat)
    requires
        path.len() == 2,
        n <= e.children.len(),
        forall|j: int| 0 <= j < e.children.len() ==> (#[trigger] e.children[j]).tag != path[1],
    ensures
        matches_below(e, path, 1, n) == Seq::<ElementView>::empty(),
    decreases n,
{
    if n > 0 {
        lemma_nothing_below(e, path, (n - 1) as nat);
        assert(matches_at(e.children[n - 1], path, 2) == Seq::<ElementView>::empty()) by {
            assert(matches_below(
                e.children[n - 1],
                path,
                2,
                e.children[n - 1].children.len(),
            ) == Seq::<ElementView>::empty());
        }
    }
}

/// In a list, the search of the root for the path of its two tags reports
/// the first `n` children of the root from below.
pub proof fn lemma_list_children_reported(
    root: ElementView,
    first: Seq<char>,
    second: Seq<char>,
    n: nat,
)
    requires
        is_list_of(root, first, second),
        n <= root.children.len(),
    ensures
        matches_below(root, seq![first, second], 0, n) == root.children.take(n as int),
    decreases n,
{
    let path = seq![first, second];
    if n > 0 {
        let child = root.children[n - 1];
        lemma_list_children_reported(root, first, second, (n - 1) as nat);
        assert forall|j: int| 0 <= j < child.children.len() implies (
        #[trigger] child.children[j]).tag != path[1] by {
            assert(root.children[n - 1].children[j].tag != second);
        }
        lemma_nothing_below(child, path, child.children.len());
        assert(matches_at(child, path, 1) == seq![child]);
        assert(root.children.take(n - 1) + seq![child] =~= root.children.take(n as int));
    } else {
        assert(root.children.take(0) =~= Seq::<ElementView>::empty());
    }
}

/// In a list, the query for the path of its two tags finds the children of
/// the root, in their order. So where the root has children, a listing of
/// orders by such a path and a listing by the tree list the same orders.
pub proof fn lemma_list_query_finds_children(tree: TreeView, first: Seq<char>, second: Seq<char>)
    requires
        tree.root is Some,
        is_list_of(tree.root->0, first, second),
    ensures
        query(tree, seq![first, second]) == tree.root->0.children,
{
    let root = tree.root->0;
    lemma_list_children_reported(root, first, second, root.children.len());
    assert(root.children.take(root.children.len() as int) =~= root.children);
}

/// A query has one answer: two answers to the same query of the same tree
/// are equal.
pub proof fn lemma_query_has_one_answer(
    tree: TreeView,
    path: Seq<Seq<char>>,
    first: Option<Seq<ElementView>>,
    second: Option<Seq<ElementView>>,
)
    requires
        is_query_result(tree, path, first),
        is_query_result(tree, path, second),
    ensures
        first == second,
{
}

} // verus!
