//! A readable dump of a tree, for diagnostics. It is not a format that the
//! parser reads back.

use vstd::prelude::*;
use crate::element::AttrView;
use crate::element::ElementView;
use crate::element::XMLElement;
use crate::error::TreeError;
use crate::tree::XMLTree;

verus! {

/// The dump of the first `n` attributes of `props`: each as its key, `=`, its
/// value, and `; `.
pub open spec fn render_props(props: Seq<AttrView>, n: nat) -> Seq<char>
    decreases n,
{
    if n == 0 || n > props.len() {
        Seq::empty()
    } else {
        render_props(props, (n - 1) as nat) + props[n - 1].0 + "="@ + props[n - 1].1 + "; "@
    }
}

/// The dump of `e` and of its descendants. Each element takes four lines
/// that start with `indent` (its tag, its attributes, its text and the
/// heading of its children) and an empty line; the dumps of its children
/// follow, indented by five more spaces.
pub open spec fn render(e: ElementView, indent: Seq<char>) -> Seq<char>
    decreases e, e.children.len() + 1,
{
    indent + "tag: "@ + e.tag + "\n"@ + indent + "props: "@ + render_props(e.props, e.props.len())
        + "\n"@ + indent + "innertext: "@ + e.text + "\n"@ + indent + "children: \n\n"@
        + render_children(e, indent + "     "@, e.children.len())
}

/// The dumps of the first `n` children of `e`, one after the other.
pub open spec fn render_children(e: ElementView, indent: Seq<char>, n: nat) -> Seq<char>
    decreases e, n,
{
    if n == 0 || n > e.children.len() {
        Seq::empty()
    } else {
        render_children(e, indent, (n - 1) as nat) + render(e.children[n - 1], indent)
    }
}

impl XMLElement {
    /// Returns the dump of the element and of its descendants.
    pub fn to_string(&self) -> (dump: String)
        ensures
            dump@ == render(self@, Seq::empty()),
    {
        let mut dump = String::new();
        let indent = String::new();
        self.make_string(indent.as_str(), &mut dump);
        dump
    }

    /// Adds to `string` the dump of the element and of its descendants, each
    /// line of the element's own starting with `indent`.
    pub fn make_string(&self, indent: &str, string: &mut String)
        ensures
            final(string)@ == old(string)@ + render(self@, indent@),
        decreases self,
    {
        let ghost e = self@;
        string.append(indent);
        string.append("tag: ");
        string.append(self.tag.as_str());
        string.append("\n");
        string.append(indent);
        string.append("props: ");
        let ghost head = string@;
        let mut i: usize = 0;
        while i < self.props.len()
            invariant
                i <= self.props.len(),
                e == self@,
                string@ == head + render_props(e.props, i as nat),
            decreases self.props.len() - i,
        {
            string.append(self.props[i].0.as_str());
            string.append("=");
            string.append(self.props[i].1.as_str());
            string.append("; ");
            i = i + 1;
        }
        string.append("\n");
        string.append(indent);
        string.append("innertext: ");
        string.append(self.inner_text.as_str());
        string.append("\n");
        string.append(indent);
        string.append("children: \n\n");
        let mut deeper = indent.to_owned();
        deeper.append("     ");
        let ghost own = string@;
        let mut k: usize = 0;
        while k < self.children.len()
            invariant
                k <= self.children.len(),
                e == self@,
                deeper@ == indent@ + "     "@,
                string@ == own + render_children(e, deeper@, k as nat),
            decreases self.children.len() - k,
        {
            let ghost so_far = render_children(e, deeper@, k as nat);
            self.children[k].make_string(deeper.as_str(), string);
            proof {
                let more = render(e.children[k as int], deeper@);
                assert((own + so_far) + more =~= own + (so_far + more));
            }
            k = k + 1;
        }
    }
}

impl XMLTree {
    /// Returns the dump of the tree: that of its root and of the root's
    /// descendants, or `EmptyTree` if the tree has no root.
    pub fn to_string(&self) -> (dump: Result<String, TreeError>)
        ensures
            match (self@.root, dump) {
                (Some(root), Ok(text)) => text@ == render(root, Seq::empty()),
                (None, Err(error)) => error == TreeError::EmptyTree,
                _ => false,
            },
    {
        match &self.root {
            Some(root) => Ok(root.to_string()),
            None => Err(TreeError::EmptyTree),
        }
    }
}

} // verus!
