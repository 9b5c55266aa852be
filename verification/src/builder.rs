//! Building a tree from the tags and text runs of a document.

use vstd::prelude::*;
use crate::element::props_view;
use crate::element::ElementView;
use crate::element::XMLElement;
use crate::error::ParseErrorKind;
use crate::tree::TreeView;
use crate::tree::XMLTree;

verus! {

/// The mathematical values of a list of elements.
pub open spec fn views(elements: Seq<XMLElement>) -> Seq<ElementView> {
    Seq::new(elements.len(), |i: int| elements[i]@)
}

/// The element that `stack[i]` becomes once every later element of the
/// stack is added as the last child of the one before it.
pub open spec fn graft(stack: Seq<ElementView>, i: int) -> ElementView
    decreases stack.len() - i,
{
    if i + 1 >= stack.len() {
        stack[i]
    } else {
        stack[i].push_child(graft(stack, i + 1))
    }
}

/// The last element of a stack is the end of the grafted element's chain
/// of last children.
pub proof fn lemma_graft_chain(stack: Seq<ElementView>, i: int)
    requires
        0 <= i < stack.len(),
    ensures
        graft(stack, i).reaches((stack.len() - 1 - i) as nat),
        graft(stack, i).last_at((stack.len() - 1 - i) as nat) == stack.last(),
    decreases stack.len() - i,
{
    if i + 1 < stack.len() {
        lemma_graft_chain(stack, i + 1);
    }
}

/// Replacing the last element of a stack replaces the end of the grafted
/// element's chain of last children.
pub proof fn lemma_graft_update_top(stack: Seq<ElementView>, i: int, e: ElementView)
    requires
        0 <= i < stack.len(),
    ensures
        graft(stack.update(stack.len() - 1, e), i) == graft(stack, i).with_last_at(
            (stack.len() - 1 - i) as nat,
            e,
        ),
    decreases stack.len() - i,
{
    if i + 1 < stack.len() {
        lemma_graft_update_top(stack, i + 1, e);
        let below = graft(stack, i + 1);
        let children = stack[i].children.push(below);
        assert(children.update(
            children.len() - 1,
            below.with_last_at((stack.len() - 2 - i) as nat, e),
        ) =~= stack[i].children.push(below.with_last_at((stack.len() - 2 - i) as nat, e)));
    }
}

/// Pushing an element on a stack, or adding it as a child to the stack's
/// last element, grafts to the same element.
pub proof fn lemma_graft_fold(stack: Seq<ElementView>, e: ElementView, i: int)
    requires
        0 <= i < stack.len(),
    ensures
        graft(stack.push(e), i) == graft(
            stack.update(stack.len() - 1, stack.last().push_child(e)),
            i,
        ),
    decreases stack.len() - i,
{
    if i + 1 < stack.len() {
        lemma_graft_fold(stack, e, i + 1);
    } else {
        assert(graft(stack.push(e), i + 1) == e);
    }
}

/// A tree under construction: the elements that are open, and the root once
/// it is closed.
#[derive(Debug)]
pub struct TreeBuilder {
    closed: Option<XMLElement>,
    path: Vec<XMLElement>,
}

impl View for TreeBuilder {
    type V = TreeView;

    closed spec fn view(&self) -> TreeView {
        TreeView {
            root: if self.path.len() > 0 {
                Some(graft(views(self.path@), 0))
            } else {
                match self.closed {
                    Some(root) => Some(root@),
                    None => None,
                }
            },
            depth: self.path.len() as nat,
        }
    }
}

impl TreeBuilder {
    /// Creates the builder of an empty tree.
    pub fn new() -> (builder: TreeBuilder)
        ensures
            builder@ == TreeView::empty(),
    {
        TreeBuilder { closed: None, path: Vec::new() }
    }

    /// The open elements of a tree under construction exist in it.
    pub proof fn lemma_wf(self)
        ensures
            self@.wf(),
    {
        if self.path.len() > 0 {
            lemma_graft_chain(views(self.path@), 0);
        }
    }

    /// Returns how many elements are open.
    pub fn depth(&self) -> (depth: usize)
        ensures
            depth == self@.depth,
    {
        self.path.len()
    }

    /// Opens an element with the given tag and attributes.
    pub fn open_element(&mut self, tag: String, attrs: Vec<(String, String)>) -> (done: Result<
        (),
        ParseErrorKind,
    >)
        ensures
            match old(self)@.open_tag(tag@, props_view(attrs@)) {
                Ok(tree) => done is Ok && final(self)@ == tree,
                Err(kind) => done == Err::<(), ParseErrorKind>(kind) && final(self)@ == old(self)@,
            },
    {
        if self.path.len() == 0 && self.closed.is_some() {
            return Err(ParseErrorKind::MultipleRoots);
        }
        let element = XMLElement::new(tag, attrs);
        proof {
            let stack = views(self.path@);
            if stack.len() > 0 {
                let top = stack.last();
                lemma_graft_chain(stack, 0);
                lemma_graft_fold(stack, element@, 0);
                lemma_graft_update_top(stack, 0, top.push_child(element@));
            }
            assert(views(self.path@.push(element)) =~= stack.push(element@));
        }
        self.path.push(element);
        Ok(())
    }

    /// Adds `text` to the innermost open element.
    pub fn append_text(&mut self, text: String) -> (done: Result<(), ParseErrorKind>)
        ensures
            match old(self)@.text(text@) {
                Ok(tree) => done is Ok && final(self)@ == tree,
                Err(kind) => done == Err::<(), ParseErrorKind>(kind) && final(self)@ == old(self)@,
            },
    {
        let n = self.path.len();
        if n == 0 {
            return Err(ParseErrorKind::UnexpectedText);
        }
        let ghost stack = views(self.path@);
        self.path[n - 1].add_text(text);
        proof {
            lemma_graft_chain(stack, 0);
            lemma_graft_update_top(stack, 0, stack.last().push_text(text@));
            assert(views(self.path@) =~= stack.update(n - 1, stack.last().push_text(text@)));
        }
        Ok(())
    }

    /// Closes the innermost open element, which `name` must name.
    pub fn close_element(&mut self, name: &String) -> (done: Result<(), ParseErrorKind>)
        ensures
            match old(self)@.close_tag(name@) {
                Ok(tree) => done is Ok && final(self)@ == tree,
                Err(kind) => done == Err::<(), ParseErrorKind>(kind) && final(self)@ == old(self)@,
            },
    {
        let n = self.path.len();
        let ghost stack = views(self.path@);
        proof {
            if n > 0 {
                lemma_graft_chain(stack, 0);
            }
        }
        if n == 0 || *name != self.path[n - 1].tag {
            return Err(ParseErrorKind::MismatchedCloseTag);
        }
        let element = self.path.pop().unwrap();
        if n == 1 {
            self.closed = Some(element);
        } else {
            self.path[n - 2].add_child(element);
            proof {
                let below = stack.drop_last();
                assert(below.push(stack.last()) =~= stack);
                lemma_graft_fold(below, stack.last(), 0);
                assert(views(self.path@) =~= below.update(
                    n - 2,
                    below.last().push_child(stack.last()),
                ));
            }
        }
        Ok(())
    }

    /// Ends construction. The elements that are still open stay in the tree,
    /// each the last child of the one that was opened before it.
    pub fn finish(self) -> (tree: XMLTree)
        ensures
            tree@ == self@,
            tree@.wf(),
    {
        proof {
            self.lemma_wf();
        }
        let mut path = self.path;
        let open_depth = path.len();
        if open_depth == 0 {
            return XMLTree { root: self.closed, open_depth };
        }
        while path.len() > 1
            invariant
                path.len() >= 1,
                graft(views(path@), 0) == graft(views(self.path@), 0),
            decreases path.len(),
        {
            let ghost stack = views(path@);
            let n = path.len();
            let element = path.pop().unwrap();
            path[n - 2].add_child(element);
            proof {
                let below = stack.drop_last();
                assert(below.push(stack.last()) =~= stack);
                lemma_graft_fold(below, stack.last(), 0);
                assert(views(path@) =~= below.update(
                    n - 2,
                    below.last().push_child(stack.last()),
                ));
            }
        }
        let root = path.pop().unwrap();
        XMLTree { root: Some(root), open_depth }
    }
}

} // verus!
