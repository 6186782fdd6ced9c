//! The document tree: an arena of nodes addressed by stable handles,
//! together with the two lookup indices (element identifier and class name)
//! and the serializer that renders a subtree back to a bracketed string.
//!
//! Every node lives in the arena owned by its `DOM`; a child is always
//! created after its parent, so every child handle is strictly greater than
//! the handle of the node that owns it.  That ordering is the well-formedness
//! invariant `dom_wf`, and it is what makes the recursive serializer
//! terminate.
use vstd::prelude::*;
use vstd::hash_map::StringHashMap;

verus! {

/// The closed set of recognized element tags.
#[derive(Clone, Copy, Debug, PartialEq, Eq, Structural)]
pub enum TAG {
    HTML,
    HEAD,
    BODY,
    P,
    DIV,
}

/// An element's payload: its tag and its attribute mapping
/// (keys unique, the last assignment to a key wins).
pub struct ElementData {
    tag_name: TAG,
    attributes: StringHashMap<String>,
}

/// What a node holds: a raw text run, or an element.
pub enum NodeType {
    Text(String),
    Element(ElementData),
}

/// One tree node: an ordered list of child handles and a payload.
pub struct Node {
    children: Vec<usize>,
    node_type: NodeType,
}

/// The root slot of a document: a handle, or nothing yet.
pub enum DomElem {
    Node(usize),
    Empty,
}

/// A document: the node arena, the root slot, and the two indices.
pub struct DOM {
    nodes: Vec<Node>,
    root_node: DomElem,
    classes_node: StringHashMap<Vec<usize>>,
    id_node: StringHashMap<usize>,
}

/// Mathematical model of an element payload.
#[verifier::ext_equal]
pub ghost struct ElementView {
    pub tag: TAG,
    pub attrs: Map<Seq<char>, Seq<char>>,
}

/// Mathematical model of a node payload.
#[verifier::ext_equal]
pub ghost enum NodePayload {
    Text(Seq<char>),
    Element(ElementView),
}

/// Mathematical model of one node.
#[verifier::ext_equal]
pub ghost struct NodeView {
    pub children: Seq<usize>,
    pub payload: NodePayload,
}

/// Mathematical model of a whole document.
#[verifier::ext_equal]
pub ghost struct DomView {
    pub nodes: Seq<NodeView>,
    pub root: Option<usize>,
    pub ids: Map<Seq<char>, usize>,
    pub classes: Map<Seq<char>, Seq<usize>>,
}

pub open spec fn attrs_view(m: Map<Seq<char>, String>) -> Map<Seq<char>, Seq<char>> {
    Map::new(|k: Seq<char>| m.contains_key(k), |k: Seq<char>| m[k]@)
}

pub open spec fn classes_view(m: Map<Seq<char>, Vec<usize>>) -> Map<Seq<char>, Seq<usize>> {
    Map::new(|k: Seq<char>| m.contains_key(k), |k: Seq<char>| m[k]@)
}

pub open spec fn nodes_view(s: Seq<Node>) -> Seq<NodeView> {
    Seq::new(s.len(), |i: int| s[i]@)
}

impl View for ElementData {
    type V = ElementView;

    closed spec fn view(&self) -> ElementView {
        ElementView { tag: self.tag_name, attrs: attrs_view(self.attributes@) }
    }
}

impl View for NodeType {
    type V = NodePayload;

    open spec fn view(&self) -> NodePayload {
        match self {
            NodeType::Text(s) => NodePayload::Text(s@),
            NodeType::Element(e) => NodePayload::Element(e@),
        }
    }
}

impl View for Node {
    type V = NodeView;

    closed spec fn view(&self) -> NodeView {
        NodeView { children: self.children@, payload: self.node_type@ }
    }
}

impl View for DomElem {
    type V = Option<usize>;

    open spec fn view(&self) -> Option<usize> {
        match self {
            DomElem::Node(h) => Some(*h),
            DomElem::Empty => None,
        }
    }
}

impl View for DOM {
    type V = DomView;

    closed spec fn view(&self) -> DomView {
        DomView {
            nodes: nodes_view(self.nodes@),
            root: self.root_node@,
            ids: self.id_node@,
            classes: classes_view(self.classes_node@),
        }
    }
}

pub broadcast proof fn lemma_nodes_view_push(s: Seq<Node>, n: Node)
    ensures
        #[trigger] nodes_view(s.push(n)) == nodes_view(s).push(n@),
{
    assert(nodes_view(s.push(n)) =~= nodes_view(s).push(n@));
}

pub broadcast proof fn lemma_nodes_view_update(s: Seq<Node>, i: int, n: Node)
    requires
        0 <= i < s.len(),
    ensures
        #[trigger] nodes_view(s.update(i, n)) == nodes_view(s).update(i, n@),
{
    assert(nodes_view(s.update(i, n)) =~= nodes_view(s).update(i, n@));
}

/// Every child handle of node `i` points past `i` and into the arena.
pub open spec fn children_in_range(nodes: Seq<NodeView>, i: int) -> bool {
    forall|k: int|
        0 <= k < nodes[i].children.len() ==> i < #[trigger] nodes[i].children[k] < nodes.len()
}

/// Well-formedness of a document: children always point forward in the
/// arena (so the tree is acyclic), the root slot and both indices only
/// hold handles of existing nodes.
pub open spec fn dom_wf(d: DomView) -> bool {
    &&& forall|i: int| 0 <= i < d.nodes.len() ==> #[trigger] children_in_range(d.nodes, i)
    &&& match d.root {
        Some(r) => r < d.nodes.len(),
        None => true,
    }
    &&& forall|s: Seq<char>| #[trigger] d.ids.contains_key(s) ==> d.ids[s] < d.nodes.len()
    &&& forall|s: Seq<char>, k: int|
        d.classes.contains_key(s) && 0 <= k < d.classes[s].len() ==> #[trigger] d.classes[s][k]
            < d.nodes.len()
}

impl ElementData {
    /// An element payload with the given tag and attribute mapping.
    pub fn new(tag_name: TAG, attributes: StringHashMap<String>) -> (e: ElementData)
        ensures
            e@ == (ElementView { tag: tag_name, attrs: attrs_view(attributes@) }),
    {
        ElementData { tag_name, attributes }
    }

    /// The tag of this element.
    pub fn get_tag(&self) -> (t: TAG)
        ensures
            t == self@.tag,
    {
        self.tag_name
    }

    /// The value stored under `key`, if any.
    pub fn get_attribute(&self, key: &str) -> (r: Option<&String>)
        ensures
            match r {
                Some(v) => self@.attrs.contains_key(key@) && v@ == self@.attrs[key@],
                None => !self@.attrs.contains_key(key@),
            },
    {
        self.attributes.get(key)
    }
}

impl Node {
    /// The payload of this node.
    pub fn get_type(&self) -> (t: &NodeType)
        ensures
            t@ == self@.payload,
    {
        &self.node_type
    }

    /// The ordered child handles of this node.
    pub fn get_children(&self) -> (c: &Vec<usize>)
        ensures
            c@ == self@.children,
    {
        &self.children
    }

    /// Replaces the payload of the node behind `h`; its children and the
    /// rest of the document are untouched.
    pub fn set_type(dom: &mut DOM, h: usize, node_type: NodeType)
        requires
            h < old(dom)@.nodes.len(),
        ensures
            final(dom)@ == (DomView {
                nodes: old(dom)@.nodes.update(
                    h as int,
                    NodeView {
                        children: old(dom)@.nodes[h as int].children,
                        payload: node_type@,
                    },
                ),
                ..old(dom)@
            }),
    {
        broadcast use lemma_nodes_view_update;

        let ghost d0 = dom@;
        let n = &mut dom.nodes[h];
        n.node_type = node_type;
        assert(dom@ =~~= (DomView {
            nodes: d0.nodes.update(
                h as int,
                NodeView { children: d0.nodes[h as int].children, payload: node_type@ },
            ),
            ..d0
        }));
    }
}

/// A fresh node appended to the arena of `dom`, with `parent`'s child list
/// extended by the new handle (the root slot is left alone: establishing a
/// root goes through `DOM::set_root`).
pub open spec fn spec_new_node(d: DomView, parent: Option<usize>, nt: NodePayload) -> DomView {
    let h = d.nodes.len() as usize;
    let grown = d.nodes.push(NodeView { children: Seq::empty(), payload: nt });
    let nodes2 = match parent {
        Some(p) => if p < h {
            grown.update(
                p as int,
                NodeView { children: grown[p as int].children.push(h), ..grown[p as int] },
            )
        } else {
            grown
        },
        None => grown,
    };
    DomView { nodes: nodes2, ..d }
}

impl Node {
    /// Creates a node in the arena of `dom`.  The node becomes the last
    /// child of `parent` when `parent` names a node; with `DomElem::Empty`
    /// it is created detached (the caller may make it the root).
    pub fn new(parent: &DomElem, node_type: NodeType, dom: &mut DOM) -> (h: usize)
        requires
            match parent {
                DomElem::Node(p) => *p < old(dom)@.nodes.len(),
                DomElem::Empty => true,
            },
        ensures
            h == old(dom)@.nodes.len(),
            final(dom)@ == spec_new_node(old(dom)@, parent@, node_type@),
    {
        broadcast use lemma_nodes_view_push, lemma_nodes_view_update;

        let ghost d0 = dom@;
        let ghost nt = node_type@;
        let h = dom.nodes.len();
        dom.nodes.push(Node { children: Vec::new(), node_type });
        match parent {
            DomElem::Node(p) => {
                let pn = &mut dom.nodes[*p];
                pn.children.push(h);
                assert(dom@.nodes =~= spec_new_node(d0, parent@, nt).nodes);
            },
            DomElem::Empty => {
                assert(dom@.nodes =~= spec_new_node(d0, parent@, nt).nodes);
            },
        }
        assert(dom@ == spec_new_node(d0, parent@, nt));
        h
    }
}

impl DOM {
    /// An empty document whose root slot is `root_node`; the arena and both
    /// indices start empty.
    pub fn new(root_node: DomElem) -> (d: DOM)
        ensures
            d@ == (DomView {
                nodes: Seq::empty(),
                root: root_node@,
                ids: Map::empty(),
                classes: Map::empty(),
            }),
    {
        let d = DOM {
            nodes: Vec::new(),
            root_node,
            classes_node: StringHashMap::new(),
            id_node: StringHashMap::new(),
        };
        proof {
            assert(d@.nodes =~= Seq::<NodeView>::empty());
            assert(d@.classes =~= Map::<Seq<char>, Seq<usize>>::empty());
        }
        d
    }

    /// Replaces the root slot; everything else is untouched.
    pub fn set_root(&mut self, root_node: DomElem)
        ensures
            final(self)@ == (DomView { root: root_node@, ..old(self)@ }),
    {
        self.root_node = root_node;
    }

    /// The root slot of the document.
    pub fn get_root(&self) -> (r: &DomElem)
        ensures
            r@ == self@.root,
    {
        &self.root_node
    }

    /// The node behind a handle.
    pub fn get_node(&self, h: usize) -> (n: &Node)
        requires
            h < self@.nodes.len(),
        ensures
            n@ == self@.nodes[h as int],
    {
        &self.nodes[h]
    }

    /// How many nodes the arena holds.
    pub fn node_count(&self) -> (n: usize)
        ensures
            n == self@.nodes.len(),
    {
        self.nodes.len()
    }

    /// The ordered handles registered under a class name, if any.
    pub fn find_by_class(&self, class: String) -> (r: Option<&Vec<usize>>)
        ensures
            match r {
                Some(v) => self@.classes.contains_key(class@) && v@ == self@.classes[class@],
                None => !self@.classes.contains_key(class@),
            },
    {
        self.classes_node.get(class.as_str())
    }

    /// The handle registered under an identifier, if any.
    pub fn find_by_id(&self, id: String) -> (r: Option<usize>)
        ensures
            match r {
                Some(h) => self@.ids.contains_key(id@) && h == self@.ids[id@],
                None => !self@.ids.contains_key(id@),
            },
    {
        match self.id_node.get(id.as_str()) {
            Some(h) => Some(*h),
            None => None,
        }
    }
}

pub broadcast proof fn lemma_classes_view_insert(m: Map<Seq<char>, Vec<usize>>, k: Seq<char>, v: Vec<usize>)
    ensures
        #[trigger] classes_view(m.insert(k, v)) == classes_view(m).insert(k, v@),
{
    assert(classes_view(m.insert(k, v)) =~= classes_view(m).insert(k, v@));
}

pub broadcast proof fn lemma_attrs_view_insert(m: Map<Seq<char>, String>, k: Seq<char>, v: String)
    ensures
        #[trigger] attrs_view(m.insert(k, v)) == attrs_view(m).insert(k, v@),
{
    assert(attrs_view(m.insert(k, v)) =~= attrs_view(m).insert(k, v@));
}

/// Attribute assignment, as seen by the model.  The pair is always stored
/// in the element's mapping (overwriting any prior value for that key); an
/// `id` key additionally re-points the identifier index at this node
/// (last write wins), and a `class` key appends the node to the ordered
/// list for that class value.  A text node keeps no attributes, so for it
/// only the indices change.
pub open spec fn spec_set_attr(d: DomView, h: usize, key: Seq<char>, value: Seq<char>) -> DomView {
    let d1 = if key == "id"@ {
        DomView { ids: d.ids.insert(value, h), ..d }
    } else if key == "class"@ {
        let cur = if d.classes.contains_key(value) {
            d.classes[value]
        } else {
            Seq::empty()
        };
        DomView { classes: d.classes.insert(value, cur.push(h)), ..d }
    } else {
        d
    };
    if h < d1.nodes.len() {
        match d1.nodes[h as int].payload {
            NodePayload::Element(e) => DomView {
                nodes: d1.nodes.update(
                    h as int,
                    NodeView {
                        children: d1.nodes[h as int].children,
                        payload: NodePayload::Element(
                            ElementView { tag: e.tag, attrs: e.attrs.insert(key, value) },
                        ),
                    },
                ),
                ..d1
            },
            NodePayload::Text(_) => d1,
        }
    } else {
        d1
    }
}

/// A copy of a list of handles.
fn copy_handles(v: &Vec<usize>) -> (r: Vec<usize>)
    ensures
        r@ == v@,
{
    let mut r: Vec<usize> = Vec::new();
    let mut i: usize = 0;
    while i < v.len()
        invariant
            i <= v.len(),
            r@ == v@.subrange(0, i as int),
        decreases v.len() - i,
    {
        r.push(v[i]);
        proof {
            assert(v@.subrange(0, i + 1) =~= v@.subrange(0, i as int).push(v@[i as int]));
        }
        i += 1;
    }
    proof {
        assert(v@.subrange(0, v@.len() as int) =~= v@);
    }
    r
}

impl DOM {
    /// Stores `key = value` on the node behind `h` and keeps the two
    /// indices consistent: an `id` key re-points the identifier index at
    /// `h` (last write wins), a `class` key appends `h` to the document-
    /// order list kept for that class value.
    pub fn set_attr(&mut self, h: usize, key: String, value: String)
        requires
            h < old(self)@.nodes.len(),
        ensures
            final(self)@ == spec_set_attr(old(self)@, h, key@, value@),
    {
        broadcast use lemma_nodes_view_update, lemma_classes_view_insert, lemma_attrs_view_insert;

        let ghost d0 = self@;
        let id_key = String::from_str("id");
        let class_key = String::from_str("class");
        if key == id_key {
            self.id_node.insert(value.clone(), h);
        } else if key == class_key {
            let new_list = match self.classes_node.get(value.as_str()) {
                Some(old_list) => {
                    let mut nv = copy_handles(old_list);
                    nv.push(h);
                    nv
                },
                None => {
                    let mut nv: Vec<usize> = Vec::new();
                    nv.push(h);
                    nv
                },
            };
            self.classes_node.insert(value.clone(), new_list);
        }
        let ghost d1 = self@;
        proof {
            assert(d1 =~~= (if key@ == "id"@ {
                DomView { ids: d0.ids.insert(value@, h), ..d0 }
            } else if key@ == "class"@ {
                let cur = if d0.classes.contains_key(value@) {
                    d0.classes[value@]
                } else {
                    Seq::empty()
                };
                DomView { classes: d0.classes.insert(value@, cur.push(h)), ..d0 }
            } else {
                d0
            }));
        }
        let node = &mut self.nodes[h];
        match &mut node.node_type {
            NodeType::Text(_) => {},
            NodeType::Element(ed) => {
                ed.attributes.insert(key, value);
            },
        }
        assert(self@ =~~= spec_set_attr(d0, h, key@, value@));
    }
}

/// Creating a node preserves well-formedness: the fresh handle is the old
/// arena length, so attaching it as a child keeps every child pointing
/// forward; no payload, no index entry and no root change.
pub proof fn lemma_new_node_wf(d: DomView, parent: Option<usize>, nt: NodePayload)
    requires
        dom_wf(d),
        d.nodes.len() <= usize::MAX,
        match parent {
            Some(p) => p < d.nodes.len(),
            None => true,
        },
    ensures
        ({
            let d2 = spec_new_node(d, parent, nt);
            &&& dom_wf(d2)
            &&& d2.nodes.len() == d.nodes.len() + 1
            &&& forall|i: int|
                0 <= i < d.nodes.len() ==> (#[trigger] d2.nodes[i].payload) == d.nodes[i].payload
            &&& d2.nodes[d.nodes.len() as int].payload == nt
            &&& d2.root == d.root
            &&& d2.ids == d.ids
            &&& d2.classes == d.classes
        }),
{
    let d2 = spec_new_node(d, parent, nt);
    let hu = d.nodes.len() as usize;
    assert(hu as int == d.nodes.len() as int);
    assert forall|i: int| 0 <= i < d2.nodes.len() implies #[trigger] children_in_range(
        d2.nodes,
        i,
    ) by {
        if i < d.nodes.len() {
            assert(children_in_range(d.nodes, i));
            match parent {
                Some(p) => {
                    if i == p as int {
                        assert(d2.nodes[i].children == d.nodes[i].children.push(hu));
                        assert forall|k: int| 0 <= k < d2.nodes[i].children.len() implies i
                            < #[trigger] d2.nodes[i].children[k] < d2.nodes.len() by {
                            if k < d.nodes[i].children.len() {
                                assert(d.nodes[i].children[k] == d2.nodes[i].children[k]);
                            }
                        }
                    } else {
                        assert(d2.nodes[i].children == d.nodes[i].children);
                    }
                },
                None => {
                    assert(d2.nodes[i].children == d.nodes[i].children);
                },
            }
        } else {
            assert(d2.nodes[i].children == Seq::<usize>::empty());
        }
    }
}

/// Assigning an attribute preserves well-formedness: the node keeps its
/// children and its payload kind, the indices only gain handles that are
/// already in range.
pub proof fn lemma_set_attr_wf(d: DomView, h: usize, key: Seq<char>, value: Seq<char>)
    requires
        dom_wf(d),
        h < d.nodes.len(),
    ensures
        ({
            let d2 = spec_set_attr(d, h, key, value);
            &&& dom_wf(d2)
            &&& d2.nodes.len() == d.nodes.len()
            &&& forall|i: int|
                0 <= i < d.nodes.len() ==> ((#[trigger] d2.nodes[i].payload) is Element
                    <==> d.nodes[i].payload is Element)
            &&& forall|i: int|
                0 <= i < d.nodes.len() ==> (#[trigger] d2.nodes[i].children)
                    == d.nodes[i].children
            &&& same_skeleton(d.nodes, d2.nodes)
            &&& d2.root == d.root
        }),
{
    let d2 = spec_set_attr(d, h, key, value);
    assert forall|i: int| 0 <= i < d2.nodes.len() implies #[trigger] children_in_range(
        d2.nodes,
        i,
    ) by {
        assert(children_in_range(d.nodes, i));
        assert(d2.nodes[i].children == d.nodes[i].children);
    }
    assert forall|i: int| 0 <= i < d.nodes.len() implies payload_skeleton_eq(
        #[trigger] d.nodes[i].payload,
        d2.nodes[i].payload,
    ) by {}
}

/// The rendering of the subtree rooted at a handle: a text node renders as
/// its literal content, an element as its bracketed upper-case tag name,
/// the renderings of its children in document order, and the matching
/// closing tag.  Attributes are not rendered.
pub open spec fn subtree_string(nodes: Seq<NodeView>, h: int) -> Seq<char>
    decreases nodes.len() - h, nodes[h].children.len() + 1,
{
    if 0 <= h < nodes.len() {
        match nodes[h].payload {
            NodePayload::Text(t) => t,
            NodePayload::Element(e) => open_tag_seq(e.tag) + children_string(
                nodes,
                h,
                nodes[h].children.len() as int,
            ) + close_tag_seq(e.tag),
        }
    } else {
        Seq::empty()
    }
}

/// The concatenated renderings of the first `k` children of node `h`.
pub open spec fn children_string(nodes: Seq<NodeView>, h: int, k: int) -> Seq<char>
    decreases nodes.len() - h, k,
{
    if 0 <= h < nodes.len() && 0 < k <= nodes[h].children.len() {
        let c = nodes[h].children[k - 1] as int;
        children_string(nodes, h, k - 1) + (if h < c < nodes.len() {
            subtree_string(nodes, c)
        } else {
            Seq::empty()
        })
    } else {
        Seq::empty()
    }
}

pub open spec fn open_tag_seq(t: TAG) -> Seq<char> {
    match t {
        TAG::HTML => "<HTML>"@,
        TAG::HEAD => "<HEAD>"@,
        TAG::BODY => "<BODY>"@,
        TAG::P => "<P>"@,
        TAG::DIV => "<DIV>"@,
    }
}

pub open spec fn close_tag_seq(t: TAG) -> Seq<char> {
    match t {
        TAG::HTML => "</HTML>"@,
        TAG::HEAD => "</HEAD>"@,
        TAG::BODY => "</BODY>"@,
        TAG::P => "</P>"@,
        TAG::DIV => "</DIV>"@,
    }
}

fn tag_open_str(t: TAG) -> (r: &'static str)
    ensures
        r@ == open_tag_seq(t),
{
    match t {
        TAG::HTML => "<HTML>",
        TAG::HEAD => "<HEAD>",
        TAG::BODY => "<BODY>",
        TAG::P => "<P>",
        TAG::DIV => "<DIV>",
    }
}

fn tag_close_str(t: TAG) -> (r: &'static str)
    ensures
        r@ == close_tag_seq(t),
{
    match t {
        TAG::HTML => "</HTML>",
        TAG::HEAD => "</HEAD>",
        TAG::BODY => "</BODY>",
        TAG::P => "</P>",
        TAG::DIV => "</DIV>",
    }
}

impl Node {
    /// Renders the subtree rooted at `h` to its bracketed tag-name string.
    pub fn print_subtree_by_name(dom: &DOM, h: usize) -> (out: String)
        requires
            dom_wf(dom@),
            h < dom@.nodes.len(),
        ensures
            out@ == subtree_string(dom@.nodes, h as int),
        decreases dom@.nodes.len() - h,
    {
        let node = &dom.nodes[h];
        proof {
            assert(node@ == dom@.nodes[h as int]);
        }
        match &node.node_type {
            NodeType::Text(t) => t.clone(),
            NodeType::Element(e) => {
                let ghost nv = dom@.nodes;
                let mut out = String::from_str(tag_open_str(e.tag_name));
                let n_children = node.children.len();
                let mut k: usize = 0;
                while k < n_children
                    invariant
                        dom_wf(dom@),
                        h < dom@.nodes.len(),
                        nv == dom@.nodes,
                        node@ == dom@.nodes[h as int],
                        n_children == node@.children.len(),
                        k <= n_children,
                        node@.payload == NodePayload::Element(e@),
                        out@ == open_tag_seq(e@.tag) + children_string(nv, h as int, k as int),
                    decreases n_children - k,
                {
                    let c = node.children[k];
                    proof {
                        assert(children_in_range(nv, h as int));
                        assert(nv[h as int].children[k as int] == c);
                    }
                    let child_str = Node::print_subtree_by_name(dom, c);
                    out.append(child_str.as_str());
                    proof {
                        assert(out@ =~= open_tag_seq(e@.tag) + children_string(
                            nv,
                            h as int,
                            k + 1,
                        ));
                    }
                    k += 1;
                }
                out.append(tag_close_str(e.tag_name));
                proof {
                    assert(out@ =~= subtree_string(nv, h as int));
                }
                out
            },
        }
    }
}

/// The rendering of a whole document: its root subtree, or the empty
/// string when no root has been built.
pub open spec fn dom_string(d: DomView) -> Seq<char> {
    match d.root {
        Some(r) => subtree_string(d.nodes, r as int),
        None => Seq::empty(),
    }
}

/// Every handle of the subtree rooted at `h` lies below the bound `b`.
pub open spec fn subtree_below(nodes: Seq<NodeView>, h: int, b: int) -> bool
    decreases nodes.len() - h,
{
    &&& 0 <= h < nodes.len()
    &&& h < b <= nodes.len()
    &&& forall|k: int|
        0 <= k < nodes[h].children.len() ==> (if h < (#[trigger] nodes[h].children[k])
            && nodes[h].children[k] < nodes.len() {
            subtree_below(nodes, nodes[h].children[k] as int, b)
        } else {
            false
        })
}

/// A bound on a subtree can always be relaxed.
pub proof fn lemma_subtree_below_weaken(nodes: Seq<NodeView>, h: int, b1: int, b2: int)
    requires
        subtree_below(nodes, h, b1),
        b1 <= b2 <= nodes.len(),
    ensures
        subtree_below(nodes, h, b2),
    decreases nodes.len() - h,
{
    assert forall|k: int| 0 <= k < nodes[h].children.len() implies h < (#[trigger] nodes[h]
        .children[k]) && subtree_below(nodes, nodes[h].children[k] as int, b2) by {
        assert(h < nodes[h].children[k] && subtree_below(nodes, nodes[h].children[k] as int, b1));
        lemma_subtree_below_weaken(nodes, nodes[h].children[k] as int, b1, b2);
    }
}

/// A node whose children are all bounded is itself a bounded subtree.
pub proof fn lemma_subtree_below_compose(nodes: Seq<NodeView>, h: int, b: int)
    requires
        0 <= h < nodes.len(),
        h < b <= nodes.len(),
        forall|k: int|
            0 <= k < nodes[h].children.len() ==> h < (#[trigger] nodes[h].children[k])
                && subtree_below(nodes, nodes[h].children[k] as int, b),
    ensures
        subtree_below(nodes, h, b),
{
}

/// A subtree that lies below `b` renders the same in any arena that
/// agrees with this one on the handles below `b`.
pub proof fn lemma_subtree_string_frame(n1: Seq<NodeView>, n2: Seq<NodeView>, h: int, b: int)
    requires
        subtree_below(n1, h, b),
        b <= n2.len(),
        forall|j: int| h <= j < b ==> n1[j] == (#[trigger] n2[j]),
    ensures
        subtree_below(n2, h, b),
        subtree_string(n2, h) == subtree_string(n1, h),
    decreases n1.len() - h, n1[h].children.len() + 1,
{
    assert(n2[h] == n1[h]);
    assert forall|k: int| 0 <= k < n2[h].children.len() implies h < (#[trigger] n2[h].children[k])
        && subtree_below(n2, n2[h].children[k] as int, b) by {
        assert(h < n1[h].children[k] && subtree_below(n1, n1[h].children[k] as int, b));
        lemma_subtree_string_frame(n1, n2, n1[h].children[k] as int, b);
    }
    lemma_children_prefix_frame(n1, n2, h, b, n1[h].children.len() as int);
}

/// The rendering of the first `k` children of `h` is unchanged in any
/// arena that keeps those children and agrees on all handles behind them.
pub proof fn lemma_children_prefix_frame(
    n1: Seq<NodeView>,
    n2: Seq<NodeView>,
    h: int,
    b: int,
    k: int,
)
    requires
        0 <= h < n1.len(),
        0 <= h < n2.len(),
        h < b <= n1.len(),
        b <= n2.len(),
        0 <= k <= n1[h].children.len(),
        k <= n2[h].children.len(),
        forall|j: int| 0 <= j < k ==> n1[h].children[j] == (#[trigger] n2[h].children[j]),
        forall|j: int|
            0 <= j < k ==> h < (#[trigger] n1[h].children[j]) && subtree_below(
                n1,
                n1[h].children[j] as int,
                b,
            ),
        forall|j: int| h < j < b ==> n1[j] == (#[trigger] n2[j]),
    ensures
        children_string(n2, h, k) == children_string(n1, h, k),
    decreases n1.len() - h, k,
{
    if 0 < k {
        lemma_children_prefix_frame(n1, n2, h, b, k - 1);
        let c = n1[h].children[k - 1] as int;
        assert(h < c && subtree_below(n1, c, b));
        lemma_subtree_string_frame(n1, n2, c, b);
    }
}

/// Subtree bounds read only the children lists, so they carry over to any
/// arena with the same skeleton.
pub proof fn lemma_subtree_below_skeleton(n1: Seq<NodeView>, n2: Seq<NodeView>, h: int, b: int)
    requires
        subtree_below(n1, h, b),
        same_skeleton(n1, n2),
    ensures
        subtree_below(n2, h, b),
    decreases n1.len() - h,
{
    assert(n2[h].children == n1[h].children);
    assert forall|k: int| 0 <= k < n2[h].children.len() implies h < (#[trigger] n2[h].children[k])
        && subtree_below(n2, n2[h].children[k] as int, b) by {
        assert(h < n1[h].children[k] && subtree_below(n1, n1[h].children[k] as int, b));
        lemma_subtree_below_skeleton(n1, n2, n1[h].children[k] as int, b);
    }
}

/// The tag of the element behind a handle.
pub open spec fn node_tag(nodes: Seq<NodeView>, h: int) -> TAG {
    match nodes[h].payload {
        NodePayload::Element(e) => e.tag,
        NodePayload::Text(_) => TAG::HTML,
    }
}

/// The string rendered so far for the open spine `stack[i..]`: each open
/// element has contributed its open tag and its completed children; the
/// last child of every spine node but the innermost is the next spine
/// node, still open, so it is left out.
pub open spec fn spine_string(nodes: Seq<NodeView>, stack: Seq<usize>, i: int) -> Seq<char>
    decreases stack.len() - i,
{
    if 0 <= i < stack.len() {
        let h = stack[i] as int;
        let cs_len: int = if 0 <= h < nodes.len() {
            nodes[h].children.len() as int
        } else {
            0
        };
        let upto: int = if i + 1 < stack.len() {
            cs_len - 1
        } else {
            cs_len
        };
        open_tag_seq(node_tag(nodes, h)) + children_string(nodes, h, upto) + spine_string(
            nodes,
            stack,
            i + 1,
        )
    } else {
        Seq::empty()
    }
}

/// What has been rendered of a document whose open elements are `stack`.
pub open spec fn partial_string(d: DomView, stack: Seq<usize>) -> Seq<char> {
    if stack.len() > 0 {
        spine_string(d.nodes, stack, 0)
    } else {
        dom_string(d)
    }
}

/// `c` is the still-open last child of spine node `p`, and every earlier
/// child of `p` is a completed subtree lying wholly before `c`.
pub open spec fn spine_link(nodes: Seq<NodeView>, p: usize, c: usize) -> bool {
    &&& (p as int) < nodes.len()
    &&& nodes[p as int].children.len() > 0
    &&& nodes[p as int].children.last() == c
    &&& forall|k: int|
        0 <= k < nodes[p as int].children.len() - 1 ==> (p as int) < (#[trigger] nodes[p as int]
            .children[k]) && subtree_below(nodes, nodes[p as int].children[k] as int, c as int)
}

/// Every child of the innermost open element is a completed subtree.
pub open spec fn top_complete(nodes: Seq<NodeView>, t: usize) -> bool {
    &&& (t as int) < nodes.len()
    &&& forall|k: int|
        0 <= k < nodes[t as int].children.len() ==> (t as int) < (#[trigger] nodes[t as int]
            .children[k]) && subtree_below(nodes, nodes[t as int].children[k] as int, nodes.len() as int)
}

/// The shape of a document under construction: the open elements form a
/// spine from the root, each being the still-open last child of the one
/// above it; everything off the spine is complete.
pub open spec fn spine_ok(d: DomView, stack: Seq<usize>) -> bool {
    &&& (stack.len() > 0 ==> d.root == Some(stack[0]))
    &&& forall|i: int| 0 <= i < stack.len() - 1 ==> (#[trigger] stack[i]) < stack[i + 1]
    &&& forall|i: int|
        0 <= i < stack.len() - 1 ==> spine_link(d.nodes, #[trigger] stack[i], stack[i + 1])
    &&& (stack.len() > 0 ==> top_complete(d.nodes, stack.last()))
    &&& (stack.len() == 0 ==> match d.root {
        Some(r) => subtree_below(d.nodes, r as int, d.nodes.len() as int),
        None => true,
    })
}

/// Two spines that agree through level `dlevel` and whose tails differ by
/// a fixed suffix `delta` render with that same difference from any
/// earlier level on.
proof fn lemma_spine_lockstep(
    n1: Seq<NodeView>,
    stack1: Seq<usize>,
    n2: Seq<NodeView>,
    stack2: Seq<usize>,
    i: int,
    dlevel: int,
    delta: Seq<char>,
)
    requires
        0 <= i <= dlevel,
        dlevel < stack1.len(),
        dlevel < stack2.len(),
        forall|j: int| i <= j <= dlevel ==> stack1[j] == (#[trigger] stack2[j]),
        forall|j: int|
            i <= j < dlevel ==> (stack1[j] as int) < n1.len() && (stack1[j] as int) < n2.len()
                && n1[stack1[j] as int] == n2[#[trigger] stack1[j] as int],
        forall|j: int|
            i <= j < dlevel ==> children_string(
                n2,
                stack1[j] as int,
                n1[stack1[j] as int].children.len() - 1,
            ) == children_string(
                n1,
                #[trigger] stack1[j] as int,
                n1[stack1[j] as int].children.len() - 1,
            ),
        spine_string(n2, stack2, dlevel) == spine_string(n1, stack1, dlevel) + delta,
    ensures
        spine_string(n2, stack2, i) == spine_string(n1, stack1, i) + delta,
    decreases dlevel - i,
{
    if i < dlevel {
        lemma_spine_lockstep(n1, stack1, n2, stack2, i + 1, dlevel, delta);
        let h = stack1[i] as int;
        assert(n2[h] == n1[h]);
        assert(spine_string(n2, stack2, i) =~= spine_string(n1, stack1, i) + delta);
    }
}

/// Whether two node payloads agree on everything the serializer reads:
/// text content and element tag, but not attributes.
pub open spec fn payload_skeleton_eq(p1: NodePayload, p2: NodePayload) -> bool {
    match (p1, p2) {
        (NodePayload::Text(t1), NodePayload::Text(t2)) => t1 == t2,
        (NodePayload::Element(e1), NodePayload::Element(e2)) => e1.tag == e2.tag,
        _ => false,
    }
}

/// Whether two arenas carry the same tree skeleton: same children lists,
/// same text, same tags; attribute mappings are free to differ.
pub open spec fn same_skeleton(n1: Seq<NodeView>, n2: Seq<NodeView>) -> bool {
    &&& n1.len() == n2.len()
    &&& forall|i: int| 0 <= i < n1.len() ==> (#[trigger] n1[i].children) == n2[i].children
    &&& forall|i: int|
        0 <= i < n1.len() ==> payload_skeleton_eq(#[trigger] n1[i].payload, n2[i].payload)
}

/// The serializer reads only the tree skeleton: two arenas with the same
/// skeleton render every subtree to the same string, whatever their
/// attribute mappings hold.
pub proof fn lemma_subtree_string_skeleton(n1: Seq<NodeView>, n2: Seq<NodeView>, h: int)
    requires
        same_skeleton(n1, n2),
    ensures
        subtree_string(n1, h) == subtree_string(n2, h),
    decreases n1.len() - h, n1[h].children.len() + 1,
{
    if 0 <= h < n1.len() {
        assert(payload_skeleton_eq(n1[h].payload, n2[h].payload));
        lemma_children_string_skeleton(n1, n2, h, n1[h].children.len() as int);
    }
}

proof fn lemma_children_string_skeleton(n1: Seq<NodeView>, n2: Seq<NodeView>, h: int, k: int)
    requires
        same_skeleton(n1, n2),
    ensures
        children_string(n1, h, k) == children_string(n2, h, k),
    decreases n1.len() - h, k,
{
    if 0 <= h < n1.len() && 0 < k <= n1[h].children.len() {
        lemma_children_string_skeleton(n1, n2, h, k - 1);
        let c = n1[h].children[k - 1] as int;
        if h < c < n1.len() {
            lemma_subtree_string_skeleton(n1, n2, c);
        }
    }
}

/// Serializing reproduces the tag nesting structure alone: a document's
/// rendering is unchanged by any difference confined to attributes or to
/// the indices.
pub proof fn lemma_serialize_ignores_attributes(d1: DomView, d2: DomView)
    requires
        same_skeleton(d1.nodes, d2.nodes),
        d1.root == d2.root,
    ensures
        dom_string(d1) == dom_string(d2),
{
    match d1.root {
        Some(r) => lemma_subtree_string_skeleton(d1.nodes, d2.nodes, r as int),
        None => {},
    }
}

/// Re-assigning the same identifier value on two nodes leaves the
/// identifier index pointing at the second one: the last write wins.
pub proof fn lemma_id_last_write_wins(d: DomView, h1: usize, h2: usize, v: Seq<char>)
    ensures
        ({
            let d2 = spec_set_attr(spec_set_attr(d, h1, "id"@, v), h2, "id"@, v);
            &&& d2.ids.contains_key(v)
            &&& d2.ids[v] == h2
        }),
{
}

/// A class assignment appends the node at the end of the ordered list for
/// that class value and touches no other entry: document order is kept
/// and entries are never removed.
pub proof fn lemma_class_appends(d: DomView, h: usize, v: Seq<char>)
    ensures
        ({
            let d2 = spec_set_attr(d, h, "class"@, v);
            &&& d2.classes.contains_key(v)
            &&& d2.classes[v] == (if d.classes.contains_key(v) {
                d.classes[v]
            } else {
                Seq::empty()
            }).push(h)
            &&& forall|w: Seq<char>|
                w != v ==> ((#[trigger] d2.classes.contains_key(w)) <==> d.classes.contains_key(
                    w,
                )) && (d.classes.contains_key(w) ==> d2.classes[w] == d.classes[w])
        }),
{
    reveal_strlit("id");
    reveal_strlit("class");
    assert("class"@.len() == 5);
    assert("id"@.len() == 2);
    assert("class"@ != "id"@);
}

proof fn lemma_stack_increasing(stack: Seq<usize>, i: int, j: int)
    requires
        forall|x: int| 0 <= x < stack.len() - 1 ==> (#[trigger] stack[x]) < stack[x + 1],
        0 <= i <= j < stack.len(),
    ensures
        stack[i] <= stack[j],
    decreases j - i,
{
    if i < j {
        lemma_stack_increasing(stack, i + 1, j);
    }
}

proof fn lemma_spine_skeleton(n1: Seq<NodeView>, n2: Seq<NodeView>, stack: Seq<usize>, i: int)
    requires
        same_skeleton(n1, n2),
        forall|x: int| 0 <= x < stack.len() ==> (#[trigger] stack[x]) < n1.len(),
    ensures
        spine_string(n2, stack, i) == spine_string(n1, stack, i),
    decreases stack.len() - i,
{
    if 0 <= i < stack.len() {
        lemma_spine_skeleton(n1, n2, stack, i + 1);
        let h = stack[i] as int;
        assert(payload_skeleton_eq(n1[h].payload, n2[h].payload));
        assert(n2[h].children == n1[h].children);
        let cs_len: int = n1[h].children.len() as int;
        let upto: int = if i + 1 < stack.len() {
            cs_len - 1
        } else {
            cs_len
        };
        lemma_children_string_skeleton(n1, n2, h, upto);
    }
}

/// A difference confined to attributes changes nothing of the shape of a
/// document under construction nor of what has been rendered of it.
pub proof fn lemma_partial_skeleton(d1: DomView, d2: DomView, stack: Seq<usize>)
    requires
        same_skeleton(d1.nodes, d2.nodes),
        d1.root == d2.root,
        spine_ok(d1, stack),
        forall|x: int| 0 <= x < stack.len() ==> (#[trigger] stack[x]) < d1.nodes.len(),
    ensures
        spine_ok(d2, stack),
        partial_string(d2, stack) == partial_string(d1, stack),
{
    let n1 = d1.nodes;
    let n2 = d2.nodes;
    assert forall|i: int| 0 <= i < stack.len() - 1 implies spine_link(
        n2,
        #[trigger] stack[i],
        stack[i + 1],
    ) by {
        assert(spine_link(n1, stack[i], stack[i + 1]));
        let p = stack[i] as int;
        assert(n2[p].children == n1[p].children);
        assert forall|k: int| 0 <= k < n2[p].children.len() - 1 implies p < (#[trigger] n2[p]
            .children[k]) && subtree_below(n2, n2[p].children[k] as int, stack[i + 1] as int) by {
            assert(p < n1[p].children[k] && subtree_below(
                n1,
                n1[p].children[k] as int,
                stack[i + 1] as int,
            ));
            lemma_subtree_below_skeleton(n1, n2, n1[p].children[k] as int, stack[i + 1] as int);
        }
    }
    if stack.len() > 0 {
        let t = stack.last() as int;
        assert(n2[t].children == n1[t].children);
        assert forall|k: int| 0 <= k < n2[t].children.len() implies t < (#[trigger] n2[t]
            .children[k]) && subtree_below(n2, n2[t].children[k] as int, n2.len() as int) by {
            assert(t < n1[t].children[k] && subtree_below(
                n1,
                n1[t].children[k] as int,
                n1.len() as int,
            ));
            lemma_subtree_below_skeleton(n1, n2, n1[t].children[k] as int, n1.len() as int);
        }
        lemma_spine_skeleton(n1, n2, stack, 0);
    } else {
        match d1.root {
            Some(r) => {
                lemma_subtree_below_skeleton(n1, n2, r as int, n1.len() as int);
                lemma_subtree_string_skeleton(n1, n2, r as int);
            },
            None => {},
        }
    }
}

/// Appending a text child to the innermost open element keeps the spine
/// shape and extends the rendered string by exactly that text.
pub proof fn lemma_partial_text(d: DomView, stack: Seq<usize>, w: Seq<char>)
    requires
        d.nodes.len() <= usize::MAX,
        stack.len() > 0,
        forall|k: int| 0 <= k < stack.len() ==> (#[trigger] stack[k]) < d.nodes.len(),
        spine_ok(d, stack),
    ensures
        ({
            let d2 = spec_new_node(d, Some(stack.last()), NodePayload::Text(w));
            &&& spine_ok(d2, stack)
            &&& partial_string(d2, stack) == partial_string(d, stack) + w
        }),
{
    let top = stack.last();
    let t = top as int;
    let d2 = spec_new_node(d, Some(top), NodePayload::Text(w));
    let n1 = d.nodes;
    let n2 = d2.nodes;
    let big = n1.len() as int;
    assert(n2.len() == big + 1);
    assert(forall|j: int| 0 <= j < big && j != t ==> n1[j] == (#[trigger] n2[j]));
    assert(n2[t].children == n1[t].children.push(big as usize));
    assert(n2[t].payload == n1[t].payload);
    assert(subtree_below(n2, big, big + 1));
    assert(subtree_string(n2, big) == w);
    let k = stack.len() as int;
    let cs = n1[t].children.len() as int;

    assert forall|x: int| 0 <= x < n2[t].children.len() implies t < (#[trigger] n2[t].children[x])
        && subtree_below(n2, n2[t].children[x] as int, n2.len() as int) by {
        if x < cs {
            let c = n1[t].children[x] as int;
            assert(t < c && subtree_below(n1, c, big));
            lemma_subtree_string_frame(n1, n2, c, big);
            lemma_subtree_below_weaken(n2, c, big, big + 1);
        }
    }
    assert forall|i: int| 0 <= i < k - 1 implies spine_link(n2, #[trigger] stack[i], stack[i + 1])
        by {
        assert(spine_link(n1, stack[i], stack[i + 1]));
        lemma_stack_increasing(stack, i + 1, k - 1);
        let p = stack[i] as int;
        assert(p < t);
        assert(n2[p] == n1[p]);
        assert forall|x: int| 0 <= x < n2[p].children.len() - 1 implies p < (#[trigger] n2[p]
            .children[x]) && subtree_below(n2, n2[p].children[x] as int, stack[i + 1] as int) by {
            let c = n1[p].children[x] as int;
            assert(p < c && subtree_below(n1, c, stack[i + 1] as int));
            lemma_subtree_string_frame(n1, n2, c, stack[i + 1] as int);
        }
    }
    assert(spine_ok(d2, stack));

    assert(children_string(n2, t, cs + 1) == children_string(n2, t, cs) + subtree_string(n2, big));
    lemma_children_prefix_frame(n1, n2, t, big, cs);
    assert(spine_string(n2, stack, k) == Seq::<char>::empty());
    assert(spine_string(n1, stack, k) == Seq::<char>::empty());
    assert(node_tag(n2, t) == node_tag(n1, t));
    assert(spine_string(n2, stack, k - 1) =~= spine_string(n1, stack, k - 1) + w);
    assert forall|j: int| 0 <= j < k - 1 implies children_string(
        n2,
        #[trigger] stack[j] as int,
        n1[stack[j] as int].children.len() - 1,
    ) == children_string(n1, stack[j] as int, n1[stack[j] as int].children.len() - 1) by {
        let p = stack[j] as int;
        lemma_stack_increasing(stack, j + 1, k - 1);
        assert(spine_link(n1, stack[j], stack[j + 1]));
        assert(p < t);
        assert(n2[p] == n1[p]);
        lemma_children_prefix_frame(n1, n2, p, stack[j + 1] as int, n1[p].children.len() - 1);
    }
    assert forall|j: int| 0 <= j < k - 1 implies (stack[j] as int) < n1.len() && (stack[j] as int)
        < n2.len() && n1[#[trigger] stack[j] as int] == n2[stack[j] as int] by {
        lemma_stack_increasing(stack, j + 1, k - 1);
    }
    lemma_spine_lockstep(n1, stack, n2, stack, 0, k - 1, w);
}

/// Opening a fresh element under the innermost open element (or as the
/// root) pushes it onto the spine and extends the rendered string by its
/// open tag.
pub proof fn lemma_partial_open(d: DomView, stack: Seq<usize>, tag: TAG)
    requires
        d.nodes.len() <= usize::MAX,
        forall|k: int| 0 <= k < stack.len() ==> (#[trigger] stack[k]) < d.nodes.len(),
        spine_ok(d, stack),
        stack.len() == 0 ==> d.root is None,
    ensures
        ({
            let big = d.nodes.len() as usize;
            let parent = if stack.len() > 0 {
                Some(stack.last())
            } else {
                None
            };
            let d1 = spec_new_node(
                d,
                parent,
                NodePayload::Element(ElementView { tag, attrs: Map::empty() }),
            );
            let d2 = if stack.len() == 0 {
                DomView { root: Some(big), ..d1 }
            } else {
                d1
            };
            &&& spine_ok(d2, stack.push(big))
            &&& partial_string(d2, stack.push(big)) == partial_string(d, stack) + open_tag_seq(
                tag,
            )
        }),
{
    let big = d.nodes.len() as usize;
    let b = big as int;
    let n1 = d.nodes;
    let k = stack.len() as int;
    let stack2 = stack.push(big);
    if k == 0 {
        let d1 = spec_new_node(
            d,
            None,
            NodePayload::Element(ElementView { tag, attrs: Map::empty() }),
        );
        let d2 = DomView { root: Some(big), ..d1 };
        let n2 = d2.nodes;
        assert(n2[b].children == Seq::<usize>::empty());
        assert(spine_ok(d2, stack2));
        assert(children_string(n2, b, 0) == Seq::<char>::empty());
        assert(spine_string(n2, stack2, 1) == Seq::<char>::empty());
        assert(node_tag(n2, b) == tag);
        assert(partial_string(d2, stack2) =~= partial_string(d, stack) + open_tag_seq(tag));
    } else {
        let top = stack.last();
        let t = top as int;
        let d2 = spec_new_node(
            d,
            Some(top),
            NodePayload::Element(ElementView { tag, attrs: Map::empty() }),
        );
        let n2 = d2.nodes;
        assert(n2.len() == b + 1);
        assert(forall|j: int| 0 <= j < b && j != t ==> n1[j] == (#[trigger] n2[j]));
        assert(n2[t].children == n1[t].children.push(big));
        assert(n2[t].payload == n1[t].payload);
        let cs = n1[t].children.len() as int;

        // the new spine link from the old top to the fresh element
        assert forall|x: int| 0 <= x < n2[t].children.len() - 1 implies t < (#[trigger] n2[t]
            .children[x]) && subtree_below(n2, n2[t].children[x] as int, b) by {
            let c = n1[t].children[x] as int;
            assert(t < c && subtree_below(n1, c, b));
            lemma_subtree_string_frame(n1, n2, c, b);
        }
        assert(spine_link(n2, top, big));
        // the old links, framed
        assert forall|i: int| 0 <= i < k - 1 implies spine_link(
            n2,
            #[trigger] stack2[i],
            stack2[i + 1],
        ) by {
            assert(stack2[i] == stack[i] && stack2[i + 1] == stack[i + 1]);
            assert(spine_link(n1, stack[i], stack[i + 1]));
            lemma_stack_increasing(stack, i + 1, k - 1);
            let p = stack[i] as int;
            assert(p < t);
            assert(n2[p] == n1[p]);
            assert forall|x: int| 0 <= x < n2[p].children.len() - 1 implies p < (#[trigger] n2[p]
                .children[x]) && subtree_below(n2, n2[p].children[x] as int, stack[i + 1] as int)
                by {
                let c = n1[p].children[x] as int;
                assert(p < c && subtree_below(n1, c, stack[i + 1] as int));
                lemma_subtree_string_frame(n1, n2, c, stack[i + 1] as int);
            }
        }
        assert forall|i: int| 0 <= i < stack2.len() - 1 implies (#[trigger] stack2[i]) < stack2[i
            + 1] by {
            if i < k - 1 {
                assert(stack[i] < stack[i + 1]);
            } else {
                lemma_stack_increasing(stack, i, k - 1);
            }
        }
        assert(n2[b].children == Seq::<usize>::empty());
        assert(top_complete(n2, big));
        assert(spine_ok(d2, stack2));

        // the rendered string gains the open tag
        lemma_children_prefix_frame(n1, n2, t, b, cs);
        assert(children_string(n2, b as int, 0) == Seq::<char>::empty());
        assert(spine_string(n2, stack2, k) == open_tag_seq(tag)) by {
            assert(node_tag(n2, b) == tag);
            assert(spine_string(n2, stack2, k + 1) == Seq::<char>::empty());
            assert(spine_string(n2, stack2, k) =~= open_tag_seq(tag));
        }
        assert(spine_string(n1, stack, k) == Seq::<char>::empty());
        assert(node_tag(n2, t) == node_tag(n1, t));
        assert(spine_string(n2, stack2, k - 1) =~= spine_string(n1, stack, k - 1) + open_tag_seq(
            tag,
        ));
        assert forall|j: int| 0 <= j < k - 1 implies children_string(
            n2,
            #[trigger] stack[j] as int,
            n1[stack[j] as int].children.len() - 1,
        ) == children_string(n1, stack[j] as int, n1[stack[j] as int].children.len() - 1) by {
            let p = stack[j] as int;
            lemma_stack_increasing(stack, j + 1, k - 1);
            assert(spine_link(n1, stack[j], stack[j + 1]));
            assert(p < t);
            assert(n2[p] == n1[p]);
            lemma_children_prefix_frame(n1, n2, p, stack[j + 1] as int, n1[p].children.len() - 1);
        }
        assert forall|j: int| 0 <= j < k - 1 implies (stack[j] as int) < n1.len() && (
        stack[j] as int) < n2.len() && n1[#[trigger] stack[j] as int] == n2[stack[j] as int] by {
            lemma_stack_increasing(stack, j + 1, k - 1);
        }
        lemma_spine_lockstep(n1, stack, n2, stack2, 0, k - 1, open_tag_seq(tag));
    }
}

/// Closing the innermost open element pops it off the spine and extends
/// the rendered string by its closing tag.
pub proof fn lemma_partial_close(d: DomView, stack: Seq<usize>)
    requires
        stack.len() > 0,
        forall|k: int| 0 <= k < stack.len() ==> (#[trigger] stack[k]) < d.nodes.len(),
        d.nodes[stack.last() as int].payload is Element,
        spine_ok(d, stack),
    ensures
        spine_ok(d, stack.drop_last()),
        partial_string(d, stack.drop_last()) == partial_string(d, stack) + close_tag_seq(
            node_tag(d.nodes, stack.last() as int),
        ),
{
    let n = d.nodes;
    let top = stack.last();
    let t = top as int;
    let k = stack.len() as int;
    let stack2 = stack.drop_last();
    lemma_subtree_below_compose(n, t, n.len() as int);
    assert(subtree_string(n, t) == open_tag_seq(node_tag(n, t)) + children_string(
        n,
        t,
        n[t].children.len() as int,
    ) + close_tag_seq(node_tag(n, t)));
    assert(spine_string(n, stack, k) == Seq::<char>::empty());
    if k == 1 {
        assert(d.root == Some(top));
        assert(spine_ok(d, stack2));
        assert(partial_string(d, stack2) =~= partial_string(d, stack) + close_tag_seq(
            node_tag(n, t),
        ));
    } else {
        let p = stack[k - 2] as int;
        assert(spine_link(n, stack[k - 2], top));
        let cs_p = n[p].children.len() as int;
        assert(n[p].children[cs_p - 1] == top);
        // the new top is complete: its earlier children were bounded by the
        // popped element, the popped element is now a bounded subtree itself
        assert forall|x: int| 0 <= x < n[p].children.len() implies p < (#[trigger] n[p].children[x])
            && subtree_below(n, n[p].children[x] as int, n.len() as int) by {
            if x < cs_p - 1 {
                assert(p < n[p].children[x] && subtree_below(n, n[p].children[x] as int, t));
                lemma_subtree_below_weaken(n, n[p].children[x] as int, t, n.len() as int);
            } else {
                assert(p < t);
            }
        }
        assert(top_complete(n, stack2.last()));
        assert(spine_ok(d, stack2));

        assert(children_string(n, p, cs_p) == children_string(n, p, cs_p - 1) + subtree_string(
            n,
            t,
        ));
        assert(stack2.len() == k - 1);
        assert(stack2[k - 2] == stack[k - 2]);
        assert(spine_string(n, stack2, k - 1) == Seq::<char>::empty());
        assert(spine_string(n, stack, k - 1) =~= open_tag_seq(node_tag(n, t)) + children_string(
            n,
            t,
            n[t].children.len() as int,
        ));
        assert(spine_string(n, stack2, k - 2) =~= open_tag_seq(node_tag(n, p)) + children_string(
            n,
            p,
            cs_p,
        ));
        assert(spine_string(n, stack, k - 2) =~= open_tag_seq(node_tag(n, p)) + children_string(
            n,
            p,
            cs_p - 1,
        ) + spine_string(n, stack, k - 1));
        assert(spine_string(n, stack2, k - 2) =~= spine_string(n, stack, k - 2) + close_tag_seq(
            node_tag(n, t),
        ));
        assert forall|j: int| 0 <= j <= k - 2 implies stack[j] == (#[trigger] stack2[j]) by {}
        lemma_spine_lockstep(n, stack, n, stack2, 0, k - 2, close_tag_seq(node_tag(n, t)));
    }
}

impl DOM {
    /// Renders the document to its bracketed tag-name string.
    pub fn print_tree(&self) -> (out: String)
        requires
            dom_wf(self@),
        ensures
            out@ == dom_string(self@),
    {
        match &self.root_node {
            DomElem::Node(h) => Node::print_subtree_by_name(self, *h),
            DomElem::Empty => String::new(),
        }
    }
}

} // verus!
