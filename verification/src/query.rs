//! Path queries: finding the elements of a tree that a path of tag names
//! leads to.

use vstd::prelude::*;
use crate::chars::first_in;
use crate::chars::lemma_first_in;
use crate::chars::strings_view;
use crate::chars::CharClass;
use crate::element::refs_view;
use crate::element::ElementView;
use crate::element::XMLElement;
use crate::lexer::LineBuffer;
use crate::tree::TreeView;
use crate::tree::XMLTree;

verus! {

/// What the search of `e`, an element at depth `depth`, reports for `path`.
/// The root is at depth 0 and `path[depth]` is the segment of that depth.
///
/// An element at a depth that the path has a segment for, and whose tag is
/// not that segment, reports nothing. Any other element reports first what
/// its children report, in document order, if the path has a segment for
/// its depth; and then itself, if its tag is the last segment of the path.
///
/// So an element is reported wherever the search reaches it with the tag of
/// the last segment: at the depth of that segment, above it, or one below.
pub open spec fn matches_at(e: ElementView, path: Seq<Seq<char>>, depth: nat) -> Seq<ElementView>
    decreases e, e.children.len() + 1,
{
    if path.len() == 0 || (depth < path.len() && e.tag != path[depth as int]) {
        Seq::empty()
    } else {
        let below = matches_below(e, path, depth, e.children.len());
        if e.tag == path.last() {
            below.push(e)
        } else {
            below
        }
    }
}

/// What the first `n` children of `e` report, one after the other, when `e`
/// is at depth `depth`: nothing if the path has no segment for that depth.
pub open spec fn matches_below(e: ElementView, path: Seq<Seq<char>>, depth: nat, n: nat) -> Seq<
    ElementView,
>
    decreases e, n,
{
    if n == 0 || n > e.children.len() || depth >= path.len() {
        Seq::empty()
    } else {
        matches_below(e, path, depth, (n - 1) as nat) + matches_at(
            e.children[n - 1],
            path,
            depth + 1,
        )
    }
}

/// What a query of `tree` for `path` finds: what the search of the root
/// reports, and nothing in a tree without a root.
pub open spec fn query(tree: TreeView, path: Seq<Seq<char>>) -> Seq<ElementView> {
    match tree.root {
        Some(root) => matches_at(root, path, 0),
        None => Seq::empty(),
    }
}

/// Whether `found` is the answer to a query of `tree` for `path`: the
/// elements that the query finds, or `None` if it finds none.
pub open spec fn is_query_result(
    tree: TreeView,
    path: Seq<Seq<char>>,
    found: Option<Seq<ElementView>>,
) -> bool {
    match found {
        Some(elements) => elements.len() > 0 && elements == query(tree, path),
        None => query(tree, path).len() == 0,
    }
}

/// The segments of the path written as `s[pos..]`: the runs of characters
/// between slashes, in the order in which they are written. A slash at the
/// start or at the end, or a second slash in a row, adds no segment.
pub open spec fn path_segments(s: Seq<char>, pos: int) -> Seq<Seq<char>>
    decreases s.len() - pos,
{
    let from = first_in(s, pos, s.len() as int, CharClass::Except('/'));
    if pos > s.len() || from >= s.len() {
        Seq::empty()
    } else {
        let to = first_in(s, from, s.len() as int, CharClass::Exactly('/'));
        proof {
            lemma_first_in(s, pos, s.len() as int, CharClass::Except('/'));
            lemma_first_in(s, from, s.len() as int, CharClass::Exactly('/'));
        }
        seq![s.subrange(from, to)] + path_segments(s, to)
    }
}

/// Splits a path written with slashes, such as `root/order/amount`, into its
/// segments.
pub fn split_path(path: &str) -> (segments: Vec<String>)
    ensures
        strings_view(segments@) == path_segments(path@, 0),
{
    let line = LineBuffer::new(path);
    let end = line.len();
    let mut segments: Vec<String> = Vec::new();
    let mut at: usize = 0;
    loop
        invariant
            line@ == path@,
            end == path@.len(),
            at <= end,
            path_segments(path@, 0) == strings_view(segments@) + path_segments(path@, at as int),
        decreases end - at,
    {
        let from = line.find(at, end, CharClass::Except('/'));
        if from >= end {
            return segments;
        }
        let to = line.find(from, end, CharClass::Exactly('/'));
        proof {
            lemma_first_in(path@, from as int, end as int, CharClass::Exactly('/'));
        }
        segments.push(line.slice(from, to));
        at = to;
    }
}

impl XMLTree {
    /// Returns the elements that `path` leads to, or `None` if there are
    /// none. `path` holds one tag name for each depth, the root's first.
    ///
    /// The search starts at the root and goes down only through elements
    /// whose tag is the segment of their depth. Every element that it
    /// reaches with the tag of the last segment is in the answer, at whatever
    /// depth: so a path `a/a` finds a root `a` as well as its children `a`,
    /// and a path `r/o` finds the children `o` of an `o` below `r` too.
    /// Children come before their parent, and otherwise the elements come in
    /// document order. A path whose first segment is not the tag of the root
    /// finds nothing.
    pub fn get_elements_at_path(&self, path: &Vec<String>) -> (found: Option<Vec<&XMLElement>>)
        ensures
            is_query_result(
                self@,
                strings_view(path@),
                match found {
                    Some(elements) => Some(refs_view(elements@)),
                    None => None,
                },
            ),
            self@.root is Some && path@.len() > 0 && self@.root->0.tag != path@[0]@ ==> found
                is None,
    {
        let mut elements: Vec<&XMLElement> = Vec::new();
        match &self.root {
            None => {},
            Some(root) => {
                if path.len() > 0 {
                    get_elements_at_path_helper(root, &mut elements, path, 0);
                }
            },
        }
        if elements.len() == 0 {
            None
        } else {
            Some(elements)
        }
    }
}

/// Searches `node`, an element at depth `tree_depth`, and adds what the
/// search reports to `ret_children`.
fn get_elements_at_path_helper<'a>(
    node: &'a XMLElement,
    ret_children: &mut Vec<&'a XMLElement>,
    path: &Vec<String>,
    tree_depth: usize,
)
    requires
        path.len() > 0,
    ensures
        refs_view(final(ret_children)@) == refs_view(old(ret_children)@) + matches_at(
            node@,
            strings_view(path@),
            tree_depth as nat,
        ),
    decreases node,
{
    let ghost before = refs_view(ret_children@);
    let ghost segments = strings_view(path@);
    if tree_depth < path.len() {
        if node.tag != path[tree_depth] {
            return ;
        }
        let mut i: usize = 0;
        while i < node.children.len()
            invariant
                i <= node.children.len(),
                tree_depth < path.len(),
                segments == strings_view(path@),
                refs_view(ret_children@) == before + matches_below(
                    node@,
                    segments,
                    tree_depth as nat,
                    i as nat,
                ),
            decreases node.children.len() - i,
        {
            get_elements_at_path_helper(&node.children[i], ret_children, path, tree_depth + 1);
            i = i + 1;
        }
    }
    let ghost below = refs_view(ret_children@);
    if node.tag == path[path.len() - 1] {
        ret_children.push(node);
        proof {
            let reported = matches_below(
                node@,
                segments,
                tree_depth as nat,
                node@.children.len(),
            );
            assert(below.push(node@) =~= before + reported.push(node@));
        }
    }
}

} // verus!
