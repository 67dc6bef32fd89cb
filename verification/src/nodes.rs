use vstd::prelude::*;

use crate::diff::StepV;
use crate::params;
use vstd::string::StringExecFns;

verus! {

/// The tag of a node kind. The set of kinds is fixed by the external schema:
/// a context-only root, toplevel windows, and the widgets of the `Widget`
/// group, where `Label` holds keyed `Text` fragments.
#[derive(Clone, Copy, Debug, PartialEq, Eq, Structural)]
pub enum NodeKind {
    RootContext,
    Window,
    Button,
    Label,
    Text,
}

/// A sibling key: either a positional index or an explicit caller-supplied
/// identifier. Together with the node kind it forms one step of a path.
#[derive(Debug)]
pub enum Key {
    Index(u64),
    Name(String),
}

/// Mathematical model of a `Key`.
pub enum KeyV {
    Index(u64),
    Name(Seq<char>),
}

impl View for Key {
    type V = KeyV;

    open spec fn view(&self) -> KeyV {
        match self {
            Key::Index(i) => KeyV::Index(*i),
            Key::Name(s) => KeyV::Name(s@),
        }
    }
}

impl Key {
    /// Equality of keys, decided by value.
    pub fn key_eq(&self, other: &Key) -> (r: bool)
        ensures
            r == (self@ == other@),
    {
        match (self, other) {
            (Key::Index(a), Key::Index(b)) => *a == *b,
            (Key::Name(a), Key::Name(b)) => *a == *b,
            _ => false,
        }
    }

    /// An owned copy with the same value.
    pub fn dup(&self) -> (r: Key)
        ensures
            r@ == self@,
    {
        match self {
            Key::Index(i) => Key::Index(*i),
            Key::Name(s) => Key::Name(s.clone()),
        }
    }
}

/// The context-only root node. It produces no resource; its children are the
/// toplevel windows.
pub struct RootContext {
    pub children: Vec<(Key, AllNodes)>,
}

/// A toplevel window: a parameter record and its keyed children.
pub struct Window {
    pub params: params::Window,
    pub children: Vec<(Key, AllNodes)>,
}

/// A push button.
pub struct Button {
    pub children: Vec<(Key, AllNodes)>,
}

/// A text label; its `Text` children are concatenated into the shown string.
pub struct Label {
    pub children: Vec<(Key, AllNodes)>,
}

/// The group of all node kinds: the typed variant tree that is diffed.
pub enum AllNodes {
    RootContext(RootContext),
    Window(Window),
    Button(Button),
    Label(Label),
    Text(String),
}

/// Mathematical model of a node's parameter record.
pub enum ParamsV {
    Empty,
    Window { title: Seq<char> },
    Text { text: Seq<char> },
}

/// Mathematical model of a node: kind tag, parameter record, and the ordered
/// keyed children.
pub struct NodeV {
    pub kind: NodeKind,
    pub params: ParamsV,
    pub children: Seq<(KeyV, NodeV)>,
}

/// Model of an ordered keyed child list.
pub open spec fn kids_view(cs: Seq<(Key, AllNodes)>) -> Seq<(KeyV, NodeV)>
    decreases cs,
{
    if cs.len() == 0 {
        Seq::empty()
    } else {
        seq![(cs[0].0@, node_view(cs[0].1))] + kids_view(cs.drop_first())
    }
}

/// Model of a node.
pub open spec fn node_view(n: AllNodes) -> NodeV
    decreases n,
{
    match n {
        AllNodes::RootContext(r) => NodeV {
            kind: NodeKind::RootContext,
            params: ParamsV::Empty,
            children: kids_view(r.children@),
        },
        AllNodes::Window(w) => NodeV {
            kind: NodeKind::Window,
            params: ParamsV::Window { title: w.params.title@ },
            children: kids_view(w.children@),
        },
        AllNodes::Button(b) => NodeV {
            kind: NodeKind::Button,
            params: ParamsV::Empty,
            children: kids_view(b.children@),
        },
        AllNodes::Label(l) => NodeV {
            kind: NodeKind::Label,
            params: ParamsV::Empty,
            children: kids_view(l.children@),
        },
        AllNodes::Text(t) => NodeV {
            kind: NodeKind::Text,
            params: ParamsV::Text { text: t@ },
            children: Seq::empty(),
        },
    }
}

impl View for AllNodes {
    type V = NodeV;

    open spec fn view(&self) -> NodeV {
        node_view(*self)
    }
}

/// The (kind, key) identity of a modelled child among its siblings.
pub open spec fn step_of(c: (KeyV, NodeV)) -> StepV {
    StepV { kind: c.1.kind, key: c.0 }
}

/// Sibling identity invariant: no two children of one node share a
/// (kind, key) pair.
pub open spec fn wf_children(cs: Seq<(KeyV, NodeV)>) -> bool {
    forall|i: int, j: int|
        0 <= i < j < cs.len() ==> step_of(#[trigger] cs[i]) != step_of(#[trigger] cs[j])
}

/// The identity invariant, holding at every node of the tree.
pub open spec fn wf_node(v: NodeV) -> bool
    decreases v,
{
    &&& wf_children(v.children)
    &&& forall|i: int| 0 <= i < v.children.len() ==> wf_node(#[trigger] v.children[i].1)
}

/// Whether a node of this kind is bound to a live resource by the binding.
/// The context-only root maps to no resource, and text fragments are folded
/// into their label rather than materialized.
pub open spec fn spec_produces_resource(kind: NodeKind) -> bool {
    kind != NodeKind::RootContext && kind != NodeKind::Text
}

/// Executable form of `spec_produces_resource`.
pub fn produces_resource(kind: NodeKind) -> (b: bool)
    ensures
        b == spec_produces_resource(kind),
{
    kind != NodeKind::RootContext && kind != NodeKind::Text
}

/// The named capability sets of the schema.
#[derive(Clone, Copy, Debug, PartialEq, Eq, Structural)]
pub enum Group {
    /// The kinds a window accepts as its content.
    Widget,
}

/// Whether a kind belongs to a named capability set.
pub open spec fn spec_kind_in_group(kind: NodeKind, group: Group) -> bool {
    match group {
        Group::Widget => kind == NodeKind::Button || kind == NodeKind::Label,
    }
}

/// Executable form of `spec_kind_in_group`.
pub fn kind_in_group(kind: NodeKind, group: Group) -> (b: bool)
    ensures
        b == spec_kind_in_group(kind, group),
{
    match group {
        Group::Widget => kind == NodeKind::Button || kind == NodeKind::Label,
    }
}

/// The binding's structural precondition: no nested context root, and every
/// widget-group child sits under a node that holds a resource to attach to.
pub open spec fn bindable(v: NodeV) -> bool
    decreases v,
{
    forall|i: int|
        0 <= i < v.children.len() ==> {
            let c = (#[trigger] v.children[i]).1;
            &&& c.kind != NodeKind::RootContext
            &&& (spec_kind_in_group(c.kind, Group::Widget) ==> spec_produces_resource(v.kind))
            &&& bindable(c)
        }
}

/// The text shown by a label: the concatenation of the contents of its first
/// `i` children that are text fragments.
pub open spec fn label_text_upto(cs: Seq<(KeyV, NodeV)>, i: int) -> Seq<char>
    decreases i,
{
    if i <= 0 {
        Seq::empty()
    } else {
        let c = cs[i - 1].1;
        label_text_upto(cs, i - 1) + if c.kind == NodeKind::Text {
            match c.params {
                ParamsV::Text { text } => text,
                _ => Seq::empty(),
            }
        } else {
            Seq::empty()
        }
    }
}

/// The text shown by a label with the given children.
pub open spec fn label_text(cs: Seq<(KeyV, NodeV)>) -> Seq<char> {
    label_text_upto(cs, cs.len() as int)
}

/// Builds the text shown by a label: the concatenation of the contents of
/// its text-fragment children, in order.
pub fn label_text_exec(children: &Vec<(Key, AllNodes)>) -> (r: String)
    ensures
        r@ == label_text(kids_view(children@)),
{
    proof {
        lemma_kids_view(children@);
    }
    let ghost cs = kids_view(children@);
    let mut r = String::new();
    let mut i: usize = 0;
    while i < children.len()
        invariant
            i <= children@.len(),
            cs == kids_view(children@),
            cs.len() == children@.len(),
            forall|j: int|
                0 <= j < cs.len() ==> #[trigger] cs[j] == (
                    children@[j].0@,
                    node_view(children@[j].1),
                ),
            r@ == label_text_upto(cs, i as int),
        decreases children@.len() - i,
    {
        match &children[i].1 {
            AllNodes::Text(t) => {
                r.append(t.as_str());
            },
            _ => {},
        }
        proof {
            assert(r@ == label_text_upto(cs, i + 1));
        }
        i = i + 1;
    }
    r
}

/// The first index at or after `j` whose child carries the given identity,
/// if any.
pub open spec fn find_step_from(cs: Seq<(KeyV, NodeV)>, step: StepV, j: int) -> Option<int>
    decreases cs.len() - j,
{
    if j < 0 || j >= cs.len() {
        None
    } else if step_of(cs[j]) == step {
        Some(j)
    } else {
        find_step_from(cs, step, j + 1)
    }
}

/// The first index whose child carries the given identity, if any.
pub open spec fn find_step(cs: Seq<(KeyV, NodeV)>, step: StepV) -> Option<int> {
    find_step_from(cs, step, 0)
}

/// Indexing and length of a modelled child list.
pub proof fn lemma_kids_view(cs: Seq<(Key, AllNodes)>)
    ensures
        kids_view(cs).len() == cs.len(),
        forall|i: int|
            0 <= i < cs.len() ==> #[trigger] kids_view(cs)[i] == (cs[i].0@, node_view(cs[i].1)),
    decreases cs,
{
    if cs.len() > 0 {
        lemma_kids_view(cs.drop_first());
    }
}

impl AllNodes {
    /// The kind tag of this node.
    pub fn kind(&self) -> (k: NodeKind)
        ensures
            k == self@.kind,
    {
        match self {
            AllNodes::RootContext(_) => NodeKind::RootContext,
            AllNodes::Window(_) => NodeKind::Window,
            AllNodes::Button(_) => NodeKind::Button,
            AllNodes::Label(_) => NodeKind::Label,
            AllNodes::Text(_) => NodeKind::Text,
        }
    }

    /// The ordered keyed children, or `None` for a leaf text fragment.
    pub fn children(&self) -> (r: Option<&Vec<(Key, AllNodes)>>)
        ensures
            match r {
                Some(v) => kids_view(v@) == self@.children,
                None => self@.children.len() == 0 && self@.kind == NodeKind::Text,
            },
    {
        match self {
            AllNodes::RootContext(n) => Some(&n.children),
            AllNodes::Window(n) => Some(&n.children),
            AllNodes::Button(n) => Some(&n.children),
            AllNodes::Label(n) => Some(&n.children),
            AllNodes::Text(_) => None,
        }
    }

    /// Whether the parameter records of two nodes of equal kind are equal by
    /// value.
    pub fn params_eq(&self, other: &AllNodes) -> (r: bool)
        requires
            self@.kind == other@.kind,
        ensures
            r == (self@.params == other@.params),
    {
        match (self, other) {
            (AllNodes::RootContext(_), AllNodes::RootContext(_)) => true,
            (AllNodes::Window(a), AllNodes::Window(b)) => a.params.title == b.params.title,
            (AllNodes::Button(_), AllNodes::Button(_)) => true,
            (AllNodes::Label(_), AllNodes::Label(_)) => true,
            (AllNodes::Text(a), AllNodes::Text(b)) => *a == *b,
            _ => false,
        }
    }

    /// The pre-diff normalization pass: rewrite a freshly authored snapshot
    /// into its comparable form, consulting the outgoing snapshot for kinds
    /// that carry expanded structure across cycles. No kind of this schema
    /// does, so the pass preserves the tree unchanged; it is the extension
    /// point for continuity-aware rewrites.
    pub fn expand_widgets(curr: &mut AllNodes, _last: Option<&AllNodes>)
        ensures
            final(curr)@ == old(curr)@,
    {
    }

    /// The index of the child of `children` with the given (kind, key)
    /// identity, if any.
    pub fn find_child(children: &Vec<(Key, AllNodes)>, kind: NodeKind, key: &Key) -> (r: Option<
        usize,
    >)
        ensures
            match r {
                Some(i) => 0 <= i < children@.len() && find_step(
                    kids_view(children@),
                    StepV { kind, key: key@ },
                ) == Some(i as int),
                None => find_step(kids_view(children@), StepV { kind, key: key@ }) is None,
            },
    {
        let ghost cs = kids_view(children@);
        let ghost step = StepV { kind, key: key@ };
        proof {
            lemma_kids_view(children@);
        }
        let mut i: usize = 0;
        while i < children.len()
            invariant
                i <= children.len(),
                cs == kids_view(children@),
                step == (StepV { kind, key: key@ }),
                cs.len() == children@.len(),
                forall|j: int|
                    0 <= j < cs.len() ==> #[trigger] cs[j] == (
                        children@[j].0@,
                        node_view(children@[j].1),
                    ),
                find_step(cs, step) == find_step_from(cs, step, i as int),
            decreases children.len() - i,
        {
            let c = &children[i];
            if c.1.kind() == kind && c.0.key_eq(key) {
                proof {
                    assert(step_of(cs[i as int]) == step);
                }
                return Some(i);
            }
            proof {
                assert(step_of(cs[i as int]) != step);
                assert(find_step_from(cs, step, i as int) == find_step_from(cs, step, i + 1));
            }
            i = i + 1;
        }
        None
    }
}

} // verus!
