//! Elements: the nodes of the tree.

use vstd::prelude::*;
use crate::chars::is_name;

verus! {

/// An attribute as a mathematical value: its key and its value.
pub type AttrView = (Seq<char>, Seq<char>);

/// The mathematical value of an element.
pub struct ElementView {
    /// The tag name.
    pub tag: Seq<char>,
    /// The attributes, in the order in which they were written.
    pub props: Seq<AttrView>,
    /// The child elements, in document order.
    pub children: Seq<ElementView>,
    /// The text runs found directly inside the element, concatenated.
    pub text: Seq<char>,
}

impl ElementView {
    /// An element with the given tag and attributes, no children and no text.
    pub open spec fn leaf(tag: Seq<char>, props: Seq<AttrView>) -> ElementView {
        ElementView { tag, props, children: Seq::empty(), text: Seq::empty() }
    }

    /// The element with `child` added after its other children.
    pub open spec fn push_child(self, child: ElementView) -> ElementView {
        ElementView { children: self.children.push(child), ..self }
    }

    /// The element with the attribute `key`, `value` added after its other
    /// attributes.
    pub open spec fn push_prop(self, key: Seq<char>, value: Seq<char>) -> ElementView {
        ElementView { props: self.props.push((key, value)), ..self }
    }

    /// The element with `run` added at the end of its text.
    pub open spec fn push_text(self, run: Seq<char>) -> ElementView {
        ElementView { text: self.text + run, ..self }
    }

    /// The element with `children` added after its other children, and
    /// `text` at the end of its text.
    pub open spec fn grown(self, children: Seq<ElementView>, text: Seq<char>) -> ElementView {
        ElementView { children: self.children + children, text: self.text + text, ..self }
    }

    /// The number of elements in the tree of the element: itself and all
    /// its descendants.
    pub open spec fn node_count(self) -> nat
        decreases self, 0nat,
    {
        1 + count_nodes(self.children, self.children.len())
    }

    /// The first attribute of the element whose key is `key`, if there is
    /// one.
    pub open spec fn prop(self, key: Seq<char>) -> Option<AttrView> {
        let i = key_index(self.props, key, 0);
        if i < self.props.len() {
            Some(self.props[i])
        } else {
            None
        }
    }

    /// Whether the tag of the element, the keys of its attributes, and those
    /// of all its descendants are names.
    pub open spec fn names_valid(self) -> bool
        decreases self,
    {
        &&& is_name(self.tag)
        &&& forall|i: int| 0 <= i < self.props.len() ==> is_name((#[trigger] self.props[i]).0)
        &&& forall|i: int|
            0 <= i < self.children.len() ==> (#[trigger] self.children[i]).names_valid()
    }

    /// Whether the element has a descendant `level` steps down its chain of
    /// last children. Level 0 is the element itself.
    pub open spec fn reaches(self, level: nat) -> bool
        decreases level,
    {
        level == 0 || (self.children.len() > 0 && self.children.last().reaches(
            (level - 1) as nat,
        ))
    }

    /// The descendant `level` steps down the chain of last children.
    pub open spec fn last_at(self, level: nat) -> ElementView
        recommends
            self.reaches(level),
        decreases level,
    {
        if level == 0 {
            self
        } else {
            self.children.last().last_at((level - 1) as nat)
        }
    }

    /// The element with the descendant `level` steps down the chain of last
    /// children replaced by `e`.
    pub open spec fn with_last_at(self, level: nat, e: ElementView) -> ElementView
        recommends
            self.reaches(level),
        decreases level,
    {
        if level == 0 {
            e
        } else {
            ElementView {
                children: self.children.update(
                    self.children.len() - 1,
                    self.children.last().with_last_at((level - 1) as nat, e),
                ),
                ..self
            }
        }
    }
}

/// The number of elements in the trees of the first `n` of `elements`.
pub open spec fn count_nodes(elements: Seq<ElementView>, n: nat) -> nat
    decreases elements, n,
{
    if n == 0 || n > elements.len() {
        0
    } else {
        count_nodes(elements, (n - 1) as nat) + elements[n - 1].node_count()
    }
}

/// The trees of an element and of more elements after it hold the elements
/// of its tree and of theirs.
pub proof fn lemma_count_nodes_after(first: ElementView, rest: Seq<ElementView>, n: nat)
    requires
        n <= rest.len(),
    ensures
        count_nodes(seq![first] + rest, n + 1) == first.node_count() + count_nodes(rest, n),
    decreases n,
{
    let all = seq![first] + rest;
    if n == 0 {
        assert(all[0] == first);
        assert(count_nodes(all, 0) == 0);
    } else {
        lemma_count_nodes_after(first, rest, (n - 1) as nat);
        assert(all[n as int] == rest[n - 1]);
    }
}

/// The index of the first attribute of `props`, at or after index `from`,
/// whose key is `key`; the length of `props` if there is none.
pub open spec fn key_index(props: Seq<AttrView>, key: Seq<char>, from: int) -> int
    decreases props.len() - from,
{
    if from < 0 || from >= props.len() {
        props.len() as int
    } else if props[from].0 == key {
        from
    } else {
        key_index(props, key, from + 1)
    }
}

/// What `key_index` returns: an index before which no attribute has the
/// key, and which holds an attribute that has it unless it is the length.
pub proof fn lemma_key_index(props: Seq<AttrView>, key: Seq<char>, from: int)
    requires
        0 <= from <= props.len(),
    ensures
        from <= key_index(props, key, from) <= props.len(),
        forall|j: int| from <= j < key_index(props, key, from) ==> (#[trigger] props[j]).0 != key,
        key_index(props, key, from) < props.len() ==> props[key_index(props, key, from)].0 == key,
    decreases props.len() - from,
{
    if from < props.len() && props[from].0 != key {
        lemma_key_index(props, key, from + 1);
    }
}

/// The tags of the first `depth` elements of the chain of last children that
/// starts at `e`.
pub open spec fn chain_tags(e: ElementView, depth: nat) -> Seq<Seq<char>> {
    Seq::new(depth, |level: int| e.last_at(level as nat).tag)
}

/// Replacing the end of a chain of last children by `x` keeps the chain above
/// it, and continues it with the chain of `x`.
pub proof fn lemma_with_last_at(e: ElementView, level: nat, x: ElementView, more: nat)
    requires
        e.reaches(level),
    ensures
        e.with_last_at(level, x).reaches(level + more) == x.reaches(more),
        e.with_last_at(level, x).last_at(level + more) == x.last_at(more),
        forall|above: nat|
            above < level ==> (#[trigger] e.with_last_at(level, x).last_at(above)).tag
                == e.last_at(above).tag,
    decreases level,
{
    let replaced = e.with_last_at(level, x);
    if level > 0 {
        let last = e.children.last();
        let below = (level - 1) as nat;
        lemma_with_last_at(last, below, x, more);
        assert forall|above: nat| above < level implies (#[trigger] replaced.last_at(above)).tag
            == e.last_at(above).tag by {
            if above > 0 {
                assert(last.with_last_at(below, x).last_at((above - 1) as nat).tag == last.last_at(
                    (above - 1) as nat,
                ).tag);
            }
        }
    }
}

/// Replacing the end of a chain of last children by itself changes
/// nothing.
pub proof fn lemma_with_last_at_same(e: ElementView, level: nat)
    requires
        e.reaches(level),
    ensures
        e.with_last_at(level, e.last_at(level)) == e,
    decreases level,
{
    if level > 0 {
        let last = e.children.last();
        lemma_with_last_at_same(last, (level - 1) as nat);
        assert(e.children.update(e.children.len() - 1, last) =~= e.children);
    }
}

/// Replacing the end of a chain of last children by `x`, and then an element
/// further down the chain by `y`, is replacing the end of the chain by `x`
/// with `y` in that place.
pub proof fn lemma_with_last_at_twice(
    e: ElementView,
    level: nat,
    x: ElementView,
    more: nat,
    y: ElementView,
)
    requires
        e.reaches(level),
    ensures
        e.with_last_at(level, x).with_last_at(level + more, y) == e.with_last_at(
            level,
            x.with_last_at(more, y),
        ),
    decreases level,
{
    if level > 0 {
        let last = e.children.last();
        let below = (level - 1) as nat;
        lemma_with_last_at_twice(last, below, x, more, y);
        let once = e.with_last_at(level, x);
        assert(once.children.update(
            once.children.len() - 1,
            last.with_last_at(below, x).with_last_at(below + more, y),
        ) =~= e.children.update(
            e.children.len() - 1,
            last.with_last_at(below, x.with_last_at(more, y)),
        ));
    }
}

/// Where all names are valid, they are valid at the end of a chain of last
/// children, and stay valid when that end is replaced by an element of which
/// the same holds.
pub proof fn lemma_names_valid_at(e: ElementView, level: nat, x: ElementView)
    requires
        e.reaches(level),
        e.names_valid(),
    ensures
        e.last_at(level).names_valid(),
        x.names_valid() ==> e.with_last_at(level, x).names_valid(),
    decreases level,
{
    if level > 0 {
        lemma_names_valid_at(e.children.last(), (level - 1) as nat, x);
    }
}

/// A chain of last children that reaches a level reaches every level above.
pub proof fn lemma_reaches_above(e: ElementView, level: nat, above: nat)
    requires
        e.reaches(level),
        above <= level,
    ensures
        e.reaches(above),
    decreases above,
{
    if above > 0 {
        lemma_reaches_above(e.children.last(), (level - 1) as nat, (above - 1) as nat);
    }
}

/// The mathematical value of a list of attributes.
pub open spec fn props_view(props: Seq<(String, String)>) -> Seq<AttrView> {
    Seq::new(props.len(), |i: int| (props[i].0@, props[i].1@))
}

/// The mathematical values of a list of borrowed elements.
pub open spec fn refs_view(elements: Seq<&XMLElement>) -> Seq<ElementView> {
    Seq::new(elements.len(), |i: int| elements[i]@)
}

/// One parsed tag with its attributes, its children and its text.
#[derive(Debug, PartialEq, Eq)]
pub struct XMLElement {
    pub(crate) tag: String,
    pub(crate) props: Vec<(String, String)>,
    pub(crate) children: Vec<XMLElement>,
    pub(crate) inner_text: String,
}

impl Clone for XMLElement {
    fn clone(&self) -> (copy: XMLElement)
        ensures
            copy@ == self@,
    {
        self.duplicate()
    }
}

impl Default for XMLElement {
    fn default() -> (e: XMLElement)
        ensures
            e@ == ElementView::leaf(Seq::empty(), Seq::empty()),
    {
        let e = XMLElement {
            tag: String::new(),
            props: Vec::new(),
            children: Vec::new(),
            inner_text: String::new(),
        };
        assert(e@.children =~= Seq::empty());
        assert(e@.props =~= Seq::empty());
        e
    }
}

impl View for XMLElement {
    type V = ElementView;

    open(crate) spec fn view(&self) -> ElementView {
        self.model()
    }
}

impl XMLElement {
    /// The mathematical value of the element: its own fields and, recursively,
    /// the values of its children.
    pub open(crate) spec fn model(&self) -> ElementView
        decreases self,
    {
        ElementView {
            tag: self.tag@,
            props: props_view(self.props@),
            children: Seq::new(
                self.children.len() as nat,
                |i: int|
                    if 0 <= i < self.children.len() {
                        self.children[i].model()
                    } else {
                        arbitrary()
                    },
            ),
            text: self.inner_text@,
        }
    }

    /// Creates an element with the given tag and attributes, no children and
    /// no text.
    pub fn new(tag: String, props: Vec<(String, String)>) -> (e: XMLElement)
        ensures
            e@ == ElementView::leaf(tag@, props_view(props@)),
    {
        let e = XMLElement { tag, props, children: Vec::new(), inner_text: String::new() };
        assert(e@.children =~= Seq::empty());
        e
    }

    /// Adds `child` after the element's other children.
    pub fn add_child(&mut self, child: XMLElement)
        ensures
            final(self)@ == old(self)@.push_child(child@),
    {
        self.children.push(child);
        assert(self@.children =~= old(self)@.children.push(child@));
    }

    /// Adds the attribute `key`, `value` after the element's other attributes.
    pub fn add_property(&mut self, key: String, value: String)
        ensures
            final(self)@ == old(self)@.push_prop(key@, value@),
    {
        self.props.push((key, value));
        assert(self@.props =~= old(self)@.props.push((key@, value@)));
    }

    /// Adds `text` at the end of the element's text.
    pub fn add_text(&mut self, text: String)
        ensures
            final(self)@ == old(self)@.push_text(text@),
    {
        self.inner_text.append(text.as_str());
    }

    /// Returns a copy of the element and of all its descendants.
    pub fn duplicate(&self) -> (copy: XMLElement)
        ensures
            copy@ == self@,
        decreases self,
    {
        let mut props: Vec<(String, String)> = Vec::new();
        let mut i: usize = 0;
        while i < self.props.len()
            invariant
                i <= self.props.len(),
                props_view(props@) == props_view(self.props@).take(i as int),
            decreases self.props.len() - i,
        {
            let ghost before = props_view(props@);
            props.push((self.props[i].0.clone(), self.props[i].1.clone()));
            let ghost copied = (self.props[i as int].0@, self.props[i as int].1@);
            assert(props_view(self.props@).take(i + 1) =~= before.push(copied));
            i = i + 1;
        }
        assert(props_view(self.props@).take(i as int) =~= props_view(self.props@));
        let mut children: Vec<XMLElement> = Vec::new();
        let mut k: usize = 0;
        while k < self.children.len()
            invariant
                k <= self.children.len(),
                children@.len() == k,
                forall|j: int| 0 <= j < k ==> (#[trigger] children@[j])@ == self@.children[j],
            decreases self.children.len() - k,
        {
            children.push(self.children[k].duplicate());
            k = k + 1;
        }
        let copy = XMLElement {
            tag: self.tag.clone(),
            props,
            children,
            inner_text: self.inner_text.clone(),
        };
        assert(copy@.children =~= self@.children);
        copy
    }

    /// Returns the tag of the element.
    pub fn get_tag(&self) -> (tag: &String)
        ensures
            tag@ == self@.tag,
    {
        &self.tag
    }

    /// Returns the text of the element.
    pub fn get_inner_text(&self) -> (text: &String)
        ensures
            text@ == self@.text,
    {
        &self.inner_text
    }

    /// Returns the attributes of the element, in the order in which they were
    /// added.
    pub fn get_props(&self) -> (props: &Vec<(String, String)>)
        ensures
            props_view(props@) == self@.props,
    {
        &self.props
    }

    /// Returns a copy of the first attribute whose key is `search`, or `None`
    /// if no attribute has that key.
    pub fn get_prop(&self, search: String) -> (found: Option<(String, String)>)
        ensures
            match (self@.prop(search@), found) {
                (Some(first), Some(prop)) => first == (prop.0@, prop.1@) && prop.0@ == search@,
                (None, None) => true,
                _ => false,
            },
            found is None <==> forall|i: int|
                0 <= i < self@.props.len() ==> (#[trigger] self@.props[i]).0 != search@,
    {
        proof {
            lemma_key_index(self@.props, search@, 0);
        }
        let mut i: usize = 0;
        while i < self.props.len()
            invariant
                i <= self.props.len(),
                key_index(self@.props, search@, 0) == key_index(self@.props, search@, i as int),
            decreases self.props.len() - i,
        {
            if search == self.props[i].0 {
                return Some((self.props[i].0.clone(), self.props[i].1.clone()));
            }
            i = i + 1;
        }
        None
    }

    /// Returns the children of the element, in document order.
    pub fn get_children(&self) -> (children: Vec<&XMLElement>)
        ensures
            refs_view(children@) == self@.children,
    {
        let mut children: Vec<&XMLElement> = Vec::new();
        let mut i: usize = 0;
        while i < self.children.len()
            invariant
                i <= self.children.len(),
                refs_view(children@) == self@.children.take(i as int),
            decreases self.children.len() - i,
        {
            let ghost before = refs_view(children@);
            children.push(&self.children[i]);
            assert(self@.children.take(i + 1) =~= before.push(self@.children[i as int]));
            i = i + 1;
        }
        children
    }
}

} // verus!
