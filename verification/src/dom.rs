use vstd::prelude::*;

use crate::text::string_from;

verus! {

/// The kinds of node of a parsed HTML document.
#[derive(Clone, Copy, PartialEq, Eq, Structural, Debug)]
pub enum NodeKind {
    Document,
    Fragment,
    Doctype,
    Comment,
    Text,
    Element,
    ProcessingInstruction,
}

/// A node of the document. `text` is the element's name, the text of a text
/// node or the data of a comment; `attrs` are an element's attributes.
pub struct DomNode {
    pub(crate) kind: NodeKind,
    pub(crate) text: String,
    pub(crate) attrs: Vec<(String, String)>,
    pub(crate) parent: Option<usize>,
    pub(crate) pos: usize,
    pub(crate) children: Vec<usize>,
}

/// A node seen as plain values: `pos` is its place among its parent's children.
pub struct NodeView {
    pub kind: NodeKind,
    pub text: Seq<char>,
    pub attrs: Seq<(Seq<char>, Seq<char>)>,
    pub parent: Option<usize>,
    pub pos: usize,
    pub children: Seq<usize>,
}

impl View for DomNode {
    type V = NodeView;

    closed spec fn view(&self) -> NodeView {
        NodeView {
            kind: self.kind,
            text: self.text@,
            attrs: self.attrs.deep_view(),
            parent: self.parent,
            pos: self.pos,
            children: self.children@,
        }
    }
}

/// The nodes seen as plain values.
pub open spec fn nodes_view(s: Seq<DomNode>) -> Seq<NodeView> {
    s.map_values(|n: DomNode| n@)
}

/// A document tree, its nodes held in document order; node 0 is the root.
pub struct Document {
    pub(crate) nodes: Vec<DomNode>,
}

impl View for Document {
    type V = Seq<NodeView>;

    closed spec fn view(&self) -> Seq<NodeView> {
        nodes_view(self.nodes@)
    }
}

/// The shape of a tree held as nodes in document order: the root first and
/// without parent, every other node after its parent and found in its
/// parent's children at its own `pos`, every child after its parent.
pub open spec fn tree_wf(v: Seq<NodeView>) -> bool {
    &&& 1 <= v.len() <= usize::MAX
    &&& v[0].parent is None
    &&& v[0].pos == 0
    &&& forall|i: int|
        #![trigger v[i].parent]
        1 <= i < v.len() ==> {
            &&& v[i].parent matches Some(p)
            &&& p < i
            &&& v[i].pos < v[p as int].children.len()
            &&& v[p as int].children[v[i].pos as int] == i
        }
    &&& forall|p: int, k: int|
        #![trigger v[p].children[k]]
        0 <= p < v.len() && 0 <= k < v[p].children.len() ==> {
            let c = v[p].children[k];
            &&& p < c < v.len()
            &&& v[c as int].parent == Some(p as usize)
            &&& v[c as int].pos == k
        }
}

impl Document {
    /// Every document is a well-formed tree.
    #[verifier::type_invariant]
    pub open spec fn inv(self) -> bool {
        tree_wf(self@)
    }

    /// The number of nodes.
    pub fn len(&self) -> (n: usize)
        ensures
            n == self@.len(),
            n >= 1,
    {
        proof { use_type_invariant(self); }
        self.nodes.len()
    }

    /// The kind of node `i`.
    pub fn kind(&self, i: usize) -> (k: NodeKind)
        requires
            i < self@.len(),
        ensures
            k == self@[i as int].kind,
    {
        self.nodes[i].kind
    }

    /// The name, text or comment data of node `i`.
    pub fn text(&self, i: usize) -> (t: &String)
        requires
            i < self@.len(),
        ensures
            t@ == self@[i as int].text,
    {
        &self.nodes[i].text
    }

    /// The attributes of node `i`, in the parser's order.
    pub fn attrs(&self, i: usize) -> (a: &Vec<(String, String)>)
        requires
            i < self@.len(),
        ensures
            a.deep_view() == self@[i as int].attrs,
    {
        &self.nodes[i].attrs
    }

    /// The parent of node `i`.
    pub fn parent(&self, i: usize) -> (p: Option<usize>)
        requires
            i < self@.len(),
        ensures
            p == self@[i as int].parent,
    {
        self.nodes[i].parent
    }

    /// The place of node `i` among its parent's children.
    pub fn pos(&self, i: usize) -> (p: usize)
        requires
            i < self@.len(),
        ensures
            p == self@[i as int].pos,
    {
        self.nodes[i].pos
    }

    /// The children of node `i`, in document order.
    pub fn children(&self, i: usize) -> (c: &Vec<usize>)
        requires
            i < self@.len(),
        ensures
            c@ == self@[i as int].children,
    {
        &self.nodes[i].children
    }
}

/// One step of a depth-first walk of the parser's tree: the opening of a
/// node, given as its kind code, its name, text or data, and its attributes;
/// or `None`, the closing of the node opened last.
pub type HtmlEvent = Option<(u8, String, Vec<(String, String)>)>;

/// The node kind that a parser's kind code stands for: document, fragment,
/// doctype, comment, text, element, processing instruction.
pub open spec fn kind_of_code(code: u8) -> Option<NodeKind> {
    if code == 0 {
        Some(NodeKind::Document)
    } else if code == 1 {
        Some(NodeKind::Fragment)
    } else if code == 2 {
        Some(NodeKind::Doctype)
    } else if code == 3 {
        Some(NodeKind::Comment)
    } else if code == 4 {
        Some(NodeKind::Text)
    } else if code == 5 {
        Some(NodeKind::Element)
    } else if code == 6 {
        Some(NodeKind::ProcessingInstruction)
    } else {
        None
    }
}

/// `nodes` with a new last node of the given contents added as the last
/// child of `parent`.
pub open spec fn add_node(
    nodes: Seq<NodeView>,
    kind: NodeKind,
    text: Seq<char>,
    attrs: Seq<(Seq<char>, Seq<char>)>,
    parent: Option<usize>,
) -> Seq<NodeView> {
    match parent {
        None => nodes.push(
            NodeView { kind, text, attrs, parent: None, pos: 0, children: seq![] },
        ),
        Some(p) => nodes.update(
            p as int,
            NodeView { children: nodes[p as int].children.push(nodes.len() as usize), ..nodes[p as int] },
        ).push(
            NodeView {
                kind,
                text,
                attrs,
                parent: Some(p),
                pos: nodes[p as int].children.len() as usize,
                children: seq![],
            },
        ),
    }
}

/// The tree that a walk describes, read from step `k` on, given the nodes
/// built so far and the path of nodes still open. `None` when the walk is not
/// a walk of one tree: a close with nothing open, a second root, an unknown
/// kind code, or nodes left open at the end.
pub open spec fn build_nodes(
    events: Seq<Option<(u8, Seq<char>, Seq<(Seq<char>, Seq<char>)>)>>,
    k: int,
    nodes: Seq<NodeView>,
    open: Seq<usize>,
) -> Option<Seq<NodeView>>
    decreases events.len() - k,
{
    if k < 0 {
        None
    } else if k >= events.len() {
        if open.len() == 0 && nodes.len() > 0 {
            Some(nodes)
        } else {
            None
        }
    } else {
        match events[k] {
            None => if open.len() == 0 {
                None
            } else {
                build_nodes(events, k + 1, nodes, open.drop_last())
            },
            Some((code, text, attrs)) => match kind_of_code(code) {
                None => None,
                Some(kind) => if open.len() == 0 && nodes.len() > 0 {
                    None
                } else {
                    let parent = if open.len() == 0 {
                        None
                    } else {
                        Some(open.last())
                    };
                    build_nodes(
                        events,
                        k + 1,
                        add_node(nodes, kind, text, attrs, parent),
                        open.push(nodes.len() as usize),
                    )
                },
            },
        }
    }
}

/// The tree that a whole walk describes.
pub open spec fn tree_of_events(
    events: Seq<Option<(u8, Seq<char>, Seq<(Seq<char>, Seq<char>)>)>>,
) -> Option<Seq<NodeView>> {
    build_nodes(events, 0, seq![], seq![])
}

/// A partly built tree: well-formed but for the root's presence, with `open`
/// a path of nodes, each the last child of the one before it.
pub open spec fn partial_wf(v: Seq<NodeView>, open: Seq<usize>) -> bool {
    &&& v.len() <= usize::MAX
    &&& v.len() == 0 ==> open.len() == 0
    &&& v.len() > 0 ==> v[0].parent is None && v[0].pos == 0
    &&& forall|i: int|
        #![trigger v[i].parent]
        1 <= i < v.len() ==> {
            &&& v[i].parent matches Some(p)
            &&& p < i
            &&& v[i].pos < v[p as int].children.len()
            &&& v[p as int].children[v[i].pos as int] == i
        }
    &&& forall|p: int, k: int|
        #![trigger v[p].children[k]]
        0 <= p < v.len() && 0 <= k < v[p].children.len() ==> {
            let c = v[p].children[k];
            &&& p < c < v.len()
            &&& v[c as int].parent == Some(p as usize)
            &&& v[c as int].pos == k
        }
    &&& forall|p: int| 0 <= p < v.len() ==> #[trigger] v[p].children.len() <= v.len()
    &&& forall|j: int| 0 <= j < open.len() ==> #[trigger] open[j] < v.len()
    &&& open.len() > 0 ==> open[0] == 0
}

proof fn lemma_add_node_wf(
    v: Seq<NodeView>,
    open: Seq<usize>,
    kind: NodeKind,
    text: Seq<char>,
    attrs: Seq<(Seq<char>, Seq<char>)>,
)
    requires
        partial_wf(v, open),
        !(open.len() == 0 && v.len() > 0),
        v.len() < usize::MAX,
    ensures
        partial_wf(
            add_node(v, kind, text, attrs, if open.len() == 0 { None } else { Some(open.last()) }),
            open.push(v.len() as usize),
        ),
{
    let parent = if open.len() == 0 { None } else { Some(open.last()) };
    let w = add_node(v, kind, text, attrs, parent);
    let o = open.push(v.len() as usize);
    assert(w.len() == v.len() + 1);
    if open.len() == 0 {
        assert(v.len() == 0);
    } else {
        let p = open.last();
        assert(open[open.len() - 1] < v.len());
        assert forall|i: int| #![trigger w[i].parent] 1 <= i < w.len() implies {
            &&& w[i].parent matches Some(q)
            &&& q < i
            &&& w[i].pos < w[q as int].children.len()
            &&& w[q as int].children[w[i].pos as int] == i
        } by {
            if i < v.len() {
                let q = v[i].parent.unwrap();
                assert(v[i].parent matches Some(q0) && q0 < i);
                assert(w[i].parent == v[i].parent);
                assert(w[i].pos == v[i].pos);
                assert(q < i);
                assert(v[i].pos < v[q as int].children.len());
                if q == p {
                    assert(w[q as int].children[w[i].pos as int] == v[q as int].children[v[i].pos as int]);
                } else {
                    assert(w[q as int] == v[q as int]);
                }
                assert(w[i].pos < w[q as int].children.len());
                assert(w[q as int].children[w[i].pos as int] == i);
            } else {
                assert(w[i].parent == Some(p));
                assert(w[p as int].children == v[p as int].children.push(v.len() as usize));
                assert(p < i);
                assert(w[i].pos < w[p as int].children.len());
                assert(w[p as int].children[w[i].pos as int] == i);
            }
        }
        assert forall|q: int, k: int| #![trigger w[q].children[k]]
            0 <= q < w.len() && 0 <= k < w[q].children.len() implies {
            let c = w[q].children[k];
            &&& q < c < w.len()
            &&& w[c as int].parent == Some(q as usize)
            &&& w[c as int].pos == k
        } by {
            if q == p as int {
                if k < v[q].children.len() {
                    assert(w[q].children[k] == v[q].children[k]);
                }
            } else {
                assert(w[q].children[k] == v[q].children[k]);
            }
        }
    }
    assert forall|q: int| 0 <= q < w.len() implies #[trigger] w[q].children.len() <= w.len() by {
        if q < v.len() {
            assert(v[q].children.len() <= v.len());
        }
    }
    if open.len() > 0 {
        assert(o[0] == open[0]);
    }
    assert forall|j: int| 0 <= j < o.len() implies #[trigger] o[j] < w.len() by {
        if j < open.len() {
            assert(o[j] == open[j]);
        }
    }
}

/// The kind that a parser's kind code stands for.
fn kind_from_code(code: u8) -> (k: Option<NodeKind>)
    ensures
        k == kind_of_code(code),
{
    match code {
        0 => Some(NodeKind::Document),
        1 => Some(NodeKind::Fragment),
        2 => Some(NodeKind::Doctype),
        3 => Some(NodeKind::Comment),
        4 => Some(NodeKind::Text),
        5 => Some(NodeKind::Element),
        6 => Some(NodeKind::ProcessingInstruction),
        _ => None,
    }
}

/// The message for a walk that does not describe one tree.
pub open spec fn malformed_walk() -> Seq<char> {
    seq!['m', 'a', 'l', 'f', 'o', 'r', 'm', 'e', 'd', ' ', 'd', 'o', 'c', 'u', 'm', 'e', 'n', 't', ' ', 't', 'r', 'e', 'e']
}

/// The message for a walk that does not describe one tree.
fn malformed_walk_message() -> (m: String)
    ensures
        m@ == malformed_walk(),
{
    let chars = ['m', 'a', 'l', 'f', 'o', 'r', 'm', 'e', 'd', ' ', 'd', 'o', 'c', 'u', 'm', 'e', 'n', 't', ' ', 't', 'r', 'e', 'e'];
    let m = string_from(&chars);
    assert(chars@ =~= malformed_walk());
    m
}

/// Builds the document tree that a depth-first walk describes; fails when the
/// walk is not the walk of one tree.
pub fn document_from_events(walk: Vec<HtmlEvent>) -> (r: Result<Document, String>)
    ensures
        match tree_of_events(walk.deep_view()) {
            Some(v) => r matches Ok(d) && d@ == v,
            None => r matches Err(m) && m@ == malformed_walk(),
        },
{
    let ghost evs = walk.deep_view();
    let mut events = walk;
    let n = events.len();
    let mut nodes: Vec<DomNode> = Vec::new();
    let mut open: Vec<usize> = Vec::new();
    let mut k: usize = 0;
    assert(nodes_view(nodes@) =~= seq![]);
    while k < n
        invariant
            n == events@.len() == evs.len(),
            evs == walk.deep_view(),
            k <= n,
            forall|j: int| k <= j < n ==> #[trigger] events@[j].deep_view() == evs[j],
            nodes@.len() <= k,
            partial_wf(nodes_view(nodes@), open@),
            tree_of_events(evs) == build_nodes(evs, k as int, nodes_view(nodes@), open@),
        decreases n - k,
    {
        let ghost vs = nodes_view(nodes@);
        let mut ev: HtmlEvent = None;
        std::mem::swap(&mut ev, &mut events[k]);
        assert(ev.deep_view() == evs[k as int]);
        match ev {
            None => {
                assert(evs[k as int] is None);
                if open.len() == 0 {
                    return Err(malformed_walk_message());
                }
                open.pop();
            },
            Some((code, text, attrs)) => {
                assert(evs[k as int] == Some((code, text@, attrs.deep_view())));
                let kind = match kind_from_code(code) {
                    Some(kind) => kind,
                    None => {
                        return Err(malformed_walk_message());
                    },
                };
                if open.len() == 0 && nodes.len() > 0 {
                    return Err(malformed_walk_message());
                }
                let parent = if open.len() == 0 {
                    None
                } else {
                    Some(open[open.len() - 1])
                };
                let idx = nodes.len();
                let pos = match parent {
                    None => 0,
                    Some(p) => {
                        let pos = nodes[p].children.len();
                        nodes[p].children.push(idx);
                        pos
                    },
                };
                let ghost mid = nodes@;
                nodes.push(DomNode { kind, text, attrs, parent, pos, children: Vec::new() });
                open.push(idx);
                proof {
                    lemma_add_node_wf(vs, open@.drop_last(), kind, text@, attrs.deep_view());
                    let w = add_node(vs, kind, text@, attrs.deep_view(), parent);
                    let m = nodes_view(nodes@);
                    assert(m.len() == w.len());
                    assert forall|i: int| 0 <= i < m.len() implies m[i] == w[i] by {
                        if i < vs.len() {
                            match parent {
                                Some(q) => {
                                    if i != q as int {
                                        assert(nodes@[i] == mid[i]);
                                    }
                                },
                                None => {},
                            }
                        }
                    }
                    assert(m =~= w);
                    assert(open@.drop_last().push(idx) == open@);
                }
            },
        }
        k = k + 1;
    }
    if open.len() != 0 || nodes.len() == 0 {
        return Err(malformed_walk_message());
    }
    Ok(Document { nodes })
}

/// The event at `j` of a walk given as openings (kind code and text) and
/// the attributes at each opening.
pub open spec fn merged_at(
    nodes: Seq<Option<(u8, Seq<char>)>>,
    attrs: Seq<Option<Seq<(Seq<char>, Seq<char>)>>>,
    j: int,
) -> Option<(u8, Seq<char>, Seq<(Seq<char>, Seq<char>)>)> {
    match (nodes[j], attrs[j]) {
        (Some((c, t)), Some(a)) => Some((c, t, a)),
        _ => None,
    }
}

/// The walk whose openings are `nodes` with the attributes `attrs`; `None`
/// when the two do not open and close at the same steps.
pub open spec fn merged_walk(
    nodes: Seq<Option<(u8, Seq<char>)>>,
    attrs: Seq<Option<Seq<(Seq<char>, Seq<char>)>>>,
) -> Option<Seq<Option<(u8, Seq<char>, Seq<(Seq<char>, Seq<char>)>)>>> {
    if nodes.len() == attrs.len() && forall|j: int| 0 <= j < nodes.len() ==> (#[trigger] nodes[j] is Some <==> attrs[j] is Some) {
        Some(Seq::new(nodes.len(), |j: int| merged_at(nodes, attrs, j)))
    } else {
        None
    }
}

/// Puts the attributes of each opening of a walk into the walk.
pub fn merge_walk(nodes: Vec<Option<(u8, String)>>, attrs: Vec<Option<Vec<(String, String)>>>) -> (r: Option<Vec<HtmlEvent>>)
    ensures
        match merged_walk(nodes.deep_view(), attrs.deep_view()) {
            Some(m) => r matches Some(x) && x.deep_view() == m,
            None => r is None,
        },
{
    let ghost nv = nodes.deep_view();
    let ghost av = attrs.deep_view();
    if nodes.len() != attrs.len() {
        return None;
    }
    let mut ns = nodes;
    let mut ats = attrs;
    let n = ns.len();
    let mut out: Vec<HtmlEvent> = Vec::new();
    let mut k: usize = 0;
    let mut mismatch = false;
    while k < n
        invariant_except_break
            !mismatch,
            forall|j: int| k <= j < n ==> #[trigger] ns@[j].deep_view() == nv[j],
            forall|j: int| k <= j < n ==> #[trigger] ats@[j].deep_view() == av[j],
        invariant
            n == ns@.len() == ats@.len() == nv.len() == av.len(),
            k <= n,
            out@.len() == k,
            forall|j: int| 0 <= j < k ==> (#[trigger] nv[j] is Some <==> av[j] is Some),
            forall|j: int| 0 <= j < k ==> #[trigger] out@[j].deep_view() == merged_at(nv, av, j),
        ensures
            mismatch ==> k < n && !(nv[k as int] is Some <==> av[k as int] is Some),
            !mismatch ==> k == n,
        decreases n - k,
    {
        let mut a: Option<(u8, String)> = None;
        std::mem::swap(&mut a, &mut ns[k]);
        let mut b: Option<Vec<(String, String)>> = None;
        std::mem::swap(&mut b, &mut ats[k]);
        assert(a.deep_view() == nv[k as int]);
        assert(b.deep_view() == av[k as int]);
        match (a, b) {
            (None, None) => {
                out.push(None);
            },
            (Some((c, t)), Some(at)) => {
                out.push(Some((c, t, at)));
            },
            _ => {
                assert(!(nv[k as int] is Some <==> av[k as int] is Some));
                mismatch = true;
                break;
            },
        }
        k += 1;
    }
    if mismatch {
        assert(!(nv[k as int] is Some <==> av[k as int] is Some));
        return None;
    }
    assert(out.deep_view() =~= Seq::new(nv.len(), |j: int| merged_at(nv, av, j)));
    Some(out)
}

/// How many nodes a walk leaves open after its first `k` steps.
pub open spec fn walk_depth<T>(w: Seq<Option<T>>, k: int) -> int
    decreases k,
{
    if k <= 0 {
        0
    } else {
        walk_depth(w, k - 1) + if w[k - 1] is Some {
            1int
        } else {
            -1int
        }
    }
}

/// Whether a walk is the depth-first walk of one tree: it opens the root
/// first and closes it last, nothing is closed while nothing is open, and
/// every kind code is known.
pub open spec fn balanced_walk(w: Seq<Option<(u8, Seq<char>)>>) -> bool {
    &&& w.len() > 0
    &&& w[0] is Some
    &&& walk_depth(w, w.len() as int) == 0
    &&& forall|k: int| 1 <= k < w.len() ==> #[trigger] walk_depth(w, k) >= 1
    &&& forall|k: int| 0 <= k < w.len() ==> (#[trigger] w[k] matches Some((c, _)) ==> c <= 6)
}

/// Whether two walks open and close at the same steps.
pub open spec fn same_shape<A, B>(a: Seq<Option<A>>, b: Seq<Option<B>>) -> bool {
    a.len() == b.len() && forall|j: int| 0 <= j < a.len() ==> (#[trigger] a[j] is Some <==> b[j] is Some)
}

proof fn lemma_depth_same_shape<A, B>(a: Seq<Option<A>>, b: Seq<Option<B>>, k: int)
    requires
        same_shape(a, b),
        k <= a.len(),
    ensures
        walk_depth(a, k) == walk_depth(b, k),
    decreases k,
{
    if k > 0 {
        lemma_depth_same_shape(a, b, k - 1);
        assert(a[k - 1] is Some <==> b[k - 1] is Some);
    }
}

proof fn lemma_build_nodes_some(
    events: Seq<Option<(u8, Seq<char>, Seq<(Seq<char>, Seq<char>)>)>>,
    k: int,
    nodes: Seq<NodeView>,
    open: Seq<usize>,
)
    requires
        0 <= k <= events.len(),
        events.len() > 0,
        events[0] is Some,
        walk_depth(events, events.len() as int) == 0,
        forall|j: int| 1 <= j < events.len() ==> #[trigger] walk_depth(events, j) >= 1,
        forall|j: int| 0 <= j < events.len() ==> (#[trigger] events[j] matches Some((c, _, _)) ==> c <= 6),
        open.len() == walk_depth(events, k),
        k == 0 ==> nodes.len() == 0,
        k > 0 ==> nodes.len() > 0,
    ensures
        build_nodes(events, k, nodes, open) is Some,
    decreases events.len() - k,
{
    if k < events.len() {
        assert(walk_depth(events, k + 1) == walk_depth(events, k) + if events[k] is Some { 1int } else { -1int });
        if k >= 1 {
            assert(walk_depth(events, k) >= 1);
        }
        match events[k] {
            None => {
                lemma_build_nodes_some(events, k + 1, nodes, open.drop_last());
            },
            Some((code, text, attrs)) => {
                assert(code <= 6);
                let kind = kind_of_code(code).unwrap();
                let parent = if open.len() == 0 {
                    None
                } else {
                    Some(open.last())
                };
                let next = add_node(nodes, kind, text, attrs, parent);
                assert(next.len() > 0);
                lemma_build_nodes_some(events, k + 1, next, open.push(nodes.len() as usize));
            },
        }
    }
}

/// A walk of one tree, with the attributes of a walk of the same shape put
/// into it, describes a tree.
pub proof fn balanced_walk_builds_tree(
    nodes: Seq<Option<(u8, Seq<char>)>>,
    attrs: Seq<Option<Seq<(Seq<char>, Seq<char>)>>>,
)
    requires
        balanced_walk(nodes),
        same_shape(nodes, attrs),
    ensures
        merged_walk(nodes, attrs) matches Some(w) && tree_of_events(w) is Some,
{
    let w = Seq::new(nodes.len(), |j: int| merged_at(nodes, attrs, j));
    assert(merged_walk(nodes, attrs) == Some(w));
    assert(same_shape(nodes, w)) by {
        assert forall|j: int| 0 <= j < nodes.len() implies (#[trigger] nodes[j] is Some <==> w[j] is Some) by {
            assert(nodes[j] is Some <==> attrs[j] is Some);
        }
    }
    assert forall|j: int| 1 <= j < w.len() implies #[trigger] walk_depth(w, j) >= 1 by {
        lemma_depth_same_shape(nodes, w, j);
        assert(walk_depth(nodes, j) >= 1);
    }
    lemma_depth_same_shape(nodes, w, w.len() as int);
    assert forall|j: int| 0 <= j < w.len() implies (#[trigger] w[j] matches Some((c, _, _)) ==> c <= 6) by {
        assert(nodes[j] is Some <==> attrs[j] is Some);
        if let Some((c, _)) = nodes[j] {
            assert(c <= 6);
        }
    }
    assert(nodes[0] is Some <==> attrs[0] is Some);
    lemma_build_nodes_some(w, 0, seq![], seq![]);
}

} // verus!
