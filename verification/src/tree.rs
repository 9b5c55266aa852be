//! The tree of elements and the state in which it is built.

use vstd::prelude::*;
use crate::chars::is_name;
use crate::element::chain_tags;
use crate::element::lemma_names_valid_at;
use crate::element::lemma_reaches_above;
use crate::element::lemma_with_last_at;
use crate::element::AttrView;
use crate::element::ElementView;
use crate::element::XMLElement;
use crate::error::ParseErrorKind;
use crate::error::TreeError;

verus! {

/// The mathematical value of a tree, finished or under construction.
pub struct TreeView {
    /// The root element; `None` until the first open tag is seen.
    pub root: Option<ElementView>,
    /// The number of elements that are open. They are the root, its last
    /// child, that child's last child, and so on: the path stack.
    pub depth: nat,
}

impl TreeView {
    /// The tree before any tag is seen.
    pub open spec fn empty() -> TreeView {
        TreeView { root: None, depth: 0 }
    }

    /// Whether the open elements exist: a tree without a root has none, and
    /// the chain of last children below a root is at least `depth` long.
    pub open spec fn wf(self) -> bool {
        match self.root {
            None => self.depth == 0,
            Some(root) => self.depth == 0 || root.reaches((self.depth - 1) as nat),
        }
    }

    /// Whether every tag and every attribute key in the tree is a name.
    pub open spec fn names_valid(self) -> bool {
        self.root is Some ==> self.root->0.names_valid()
    }

    /// The tags of the open elements, the root's first: the names on the
    /// path stack.
    pub open spec fn open_tags(self) -> Seq<Seq<char>> {
        match self.root {
            Some(root) => chain_tags(root, self.depth),
            None => Seq::empty(),
        }
    }

    /// The innermost open element: the top of the path stack.
    pub open spec fn current(self) -> ElementView
        recommends
            self.root is Some,
            self.depth > 0,
    {
        self.root->0.last_at((self.depth - 1) as nat)
    }

    /// The tree with the innermost open element replaced by `e`.
    pub open spec fn with_current(self, e: ElementView) -> TreeView
        recommends
            self.root is Some,
            self.depth > 0,
    {
        TreeView { root: Some(self.root->0.with_last_at((self.depth - 1) as nat, e)), ..self }
    }

    /// The effect of an open tag. The first one creates the root. A later
    /// one adds a child to the innermost open element; the child becomes the
    /// innermost open element. Once the root is closed no open tag is
    /// accepted.
    pub open spec fn open_tag(self, name: Seq<char>, attrs: Seq<AttrView>) -> Result<
        TreeView,
        ParseErrorKind,
    > {
        let element = ElementView::leaf(name, attrs);
        if self.root is None {
            Ok(TreeView { root: Some(element), depth: 1 })
        } else if self.depth == 0 {
            Err(ParseErrorKind::MultipleRoots)
        } else {
            Ok(
                TreeView {
                    root: self.with_current(self.current().push_child(element)).root,
                    depth: self.depth + 1,
                },
            )
        }
    }

    /// The effect of a close tag. It must name the innermost open element,
    /// which it closes.
    pub open spec fn close_tag(self, name: Seq<char>) -> Result<TreeView, ParseErrorKind> {
        if self.root is None || self.depth == 0 || self.current().tag != name {
            Err(ParseErrorKind::MismatchedCloseTag)
        } else {
            Ok(TreeView { depth: (self.depth - 1) as nat, ..self })
        }
    }

    /// The effect of a text run. It is added to the text of the innermost
    /// open element.
    pub open spec fn text(self, run: Seq<char>) -> Result<TreeView, ParseErrorKind> {
        if self.root is None || self.depth == 0 {
            Err(ParseErrorKind::UnexpectedText)
        } else {
            Ok(self.with_current(self.current().push_text(run)))
        }
    }
}

/// Whether `name` and the keys of `attrs` are names.
pub open spec fn well_named(name: Seq<char>, attrs: Seq<AttrView>) -> bool {
    is_name(name) && forall|i: int| 0 <= i < attrs.len() ==> is_name((#[trigger] attrs[i]).0)
}

/// An open tag is refused only once the root is closed. Otherwise it adds
/// its name to the path stack, and leaves the names below it as they were.
/// If it is well named, it keeps the names of the tree valid.
pub proof fn lemma_open_tag(tree: TreeView, name: Seq<char>, attrs: Seq<AttrView>)
    requires
        tree.wf(),
    ensures
        match tree.open_tag(name, attrs) {
            Ok(next) => {
                &&& next.wf()
                &&& next.root is Some
                &&& next.depth == tree.depth + 1
                &&& next.open_tags() == tree.open_tags().push(name)
                &&& tree.root is None || tree.depth > 0
                &&& tree.names_valid() && well_named(name, attrs) ==> next.names_valid()
            },
            Err(kind) => {
                &&& kind == ParseErrorKind::MultipleRoots
                &&& tree.root is Some
                &&& tree.depth == 0
            },
        },
{
    match tree.open_tag(name, attrs) {
        Ok(next) => {
            if tree.root is Some {
                let root = tree.root->0;
                let level = (tree.depth - 1) as nat;
                let grown = tree.current().push_child(ElementView::leaf(name, attrs));
                lemma_with_last_at(root, level, grown, 0);
                lemma_with_last_at(root, level, grown, 1);
                assert(grown.children.last().reaches(0));
                assert(grown.last_at(1) == grown.children.last().last_at(0));
                if tree.names_valid() && well_named(name, attrs) {
                    lemma_names_valid_at(root, level, grown);
                    assert forall|i: int| 0 <= i < grown.children.len() implies (
                    #[trigger] grown.children[i]).names_valid() by {
                        if i < tree.current().children.len() {
                            assert(grown.children[i] == tree.current().children[i]);
                        }
                    }
                }
            }
        },
        Err(kind) => {},
    }
}

/// A close tag is accepted only if it names the top of the path stack, which
/// it removes. The tree itself stays as it is.
pub proof fn lemma_close_tag(tree: TreeView, name: Seq<char>)
    requires
        tree.wf(),
    ensures
        match tree.close_tag(name) {
            Ok(next) => {
                &&& next.wf()
                &&& next.root == tree.root
                &&& tree.depth > 0
                &&& next.depth == tree.depth - 1
                &&& tree.open_tags().last() == name
                &&& next.open_tags() == tree.open_tags().drop_last()
            },
            Err(kind) => {
                &&& kind == ParseErrorKind::MismatchedCloseTag
                &&& tree.depth == 0 || tree.open_tags().last() != name
            },
        },
{
    if tree.root is Some && tree.depth > 0 {
        match tree.close_tag(name) {
            Ok(next) => {
                if next.depth > 0 {
                    lemma_reaches_above(
                        tree.root->0,
                        (tree.depth - 1) as nat,
                        (next.depth - 1) as nat,
                    );
                }
            },
            Err(kind) => {},
        }
    }
}

/// A text run is accepted only while an element is open. It leaves the path
/// stack as it was, and keeps the names of the tree valid.
pub proof fn lemma_text(tree: TreeView, run: Seq<char>)
    requires
        tree.wf(),
    ensures
        match tree.text(run) {
            Ok(next) => {
                &&& next.wf()
                &&& tree.depth > 0
                &&& next.depth == tree.depth
                &&& next.open_tags() == tree.open_tags()
                &&& tree.names_valid() ==> next.names_valid()
            },
            Err(kind) => kind == ParseErrorKind::UnexpectedText && tree.depth == 0,
        },
{
    match tree.text(run) {
        Ok(next) => {
            let level = (tree.depth - 1) as nat;
            lemma_with_last_at(tree.root->0, level, tree.current().push_text(run), 0);
            if tree.names_valid() {
                lemma_names_valid_at(tree.root->0, level, tree.current().push_text(run));
            }
        },
        Err(kind) => {},
    }
}

/// A tree of elements. It owns its root, and through it every element.
#[derive(Clone, Debug, PartialEq, Eq)]
pub struct XMLTree {
    pub(crate) root: Option<XMLElement>,
    pub(crate) open_depth: usize,
}

impl View for XMLTree {
    type V = TreeView;

    open(crate) spec fn view(&self) -> TreeView {
        TreeView {
            root: match self.root {
                Some(root) => Some(root@),
                None => None,
            },
            depth: self.open_depth as nat,
        }
    }
}

impl XMLTree {
    /// Returns the root element, or `EmptyTree` if the tree has none.
    pub fn get_root(&self) -> (root: Result<&XMLElement, TreeError>)
        ensures
            match root {
                Ok(element) => self@.root == Some(element@),
                Err(error) => self@.root is None && error == TreeError::EmptyTree,
            },
    {
        match &self.root {
            Some(element) => Ok(element),
            None => Err(TreeError::EmptyTree),
        }
    }

    /// Returns how many elements were still open when the document ended.
    pub fn open_depth(&self) -> (depth: usize)
        ensures
            depth == self@.depth,
    {
        self.open_depth
    }
}

} // verus!
