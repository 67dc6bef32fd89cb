use vstd::prelude::*;

use crate::nodes::{
    find_step, spec_produces_resource, step_of, AllNodes, Key, KeyV, NodeKind, NodeV,
};
use vstd::string::StrSliceExecFns;

verus! {

/// One step of a path: the (kind, key) identity of a child among its siblings.
pub struct PathStep {
    pub kind: NodeKind,
    pub key: Key,
}

/// Mathematical model of a path step.
pub struct StepV {
    pub kind: NodeKind,
    pub key: KeyV,
}

impl View for PathStep {
    type V = StepV;

    open spec fn view(&self) -> StepV {
        StepV { kind: self.kind, key: self.key@ }
    }
}

impl Clone for PathStep {
    fn clone(&self) -> (r: Self)
        ensures
            r@ == self@,
    {
        PathStep { kind: self.kind, key: self.key.dup() }
    }
}

/// Errors of the path model.
#[derive(Clone, Copy, Debug, PartialEq, Eq, Structural)]
pub enum TreeError {
    /// An operation was applied to a value that does not support it, such as
    /// taking the parent of the root path.
    InvalidOperation,
}

/// The identity of a tree position: the (kind, key) steps from the root down
/// to the node. Two nodes of different snapshots are the same logical node
/// exactly when their paths are equal; the root has the empty path.
pub struct Path {
    steps: Vec<PathStep>,
}

impl View for Path {
    type V = Seq<StepV>;

    closed spec fn view(&self) -> Seq<StepV> {
        self.steps@.map_values(|s: PathStep| s@)
    }
}

impl Clone for Path {
    fn clone(&self) -> (r: Self)
        ensures
            r@ == self@,
    {
        let mut steps: Vec<PathStep> = Vec::new();
        let mut i: usize = 0;
        while i < self.steps.len()
            invariant
                i <= self.steps.len(),
                steps@.len() == i as int,
                forall|j: int| 0 <= j < i ==> steps@[j]@ == self.steps@[j]@,
            decreases self.steps.len() - i,
        {
            steps.push(self.steps[i].clone());
            i = i + 1;
        }
        let r = Path { steps };
        proof {
            assert(r@ =~= self@);
        }
        r
    }
}

impl Path {
    /// The empty path: the identity of the tree root.
    pub fn root() -> (r: Path)
        ensures
            r@ == Seq::<StepV>::empty(),
    {
        let r = Path { steps: Vec::new() };
        proof {
            assert(r@ =~= Seq::<StepV>::empty());
        }
        r
    }

    /// The number of steps.
    pub fn len(&self) -> (n: usize)
        ensures
            n == self@.len(),
    {
        self.steps.len()
    }

    /// The path of the child reached from `self` by one (kind, key) step.
    pub fn push_step(&self, kind: NodeKind, key: &Key) -> (r: Path)
        ensures
            r@ == self@.push(StepV { kind, key: key@ }),
    {
        let mut r = self.clone();
        r.steps.push(PathStep { kind, key: key.dup() });
        proof {
            assert(r@ =~= self@.push(StepV { kind, key: key@ }));
        }
        r
    }

    /// The path with the last step removed, or `InvalidOperation` at the root.
    pub fn parent(&self) -> (r: Result<Path, TreeError>)
        ensures
            self@.len() == 0 ==> r == Result::<Path, TreeError>::Err(TreeError::InvalidOperation),
            self@.len() > 0 ==> (r matches Ok(p) && p@ == self@.drop_last()),
    {
        if self.steps.len() == 0 {
            Err(TreeError::InvalidOperation)
        } else {
            let mut p = self.clone();
            let _ = p.steps.pop();
            proof {
                assert(p@ =~= self@.drop_last());
            }
            Ok(p)
        }
    }

    /// Equality of paths, decided by value.
    pub fn path_eq(&self, other: &Path) -> (r: bool)
        ensures
            r == (self@ == other@),
    {
        if self.steps.len() != other.steps.len() {
            proof {
                assert(self@.len() != other@.len());
            }
            return false;
        }
        let mut i: usize = 0;
        while i < self.steps.len()
            invariant
                i <= self.steps.len(),
                self.steps@.len() == other.steps@.len(),
                forall|j: int| 0 <= j < i ==> self@[j] == other@[j],
            decreases self.steps.len() - i,
        {
            let a = &self.steps[i];
            let b = &other.steps[i];
            if a.kind != b.kind || !a.key.key_eq(&b.key) {
                proof {
                    assert(self@[i as int] != other@[i as int]);
                }
                return false;
            }
            i = i + 1;
        }
        proof {
            assert(self@ =~= other@);
        }
        true
    }

    /// Strict lexicographic order on paths, decided by value: the total
    /// order of the path model.
    pub fn path_lt(&self, other: &Path) -> (r: bool)
        ensures
            r == spec_path_lt(self@, other@),
    {
        let mut i: usize = 0;
        while i < self.steps.len() && i < other.steps.len()
            invariant
                i <= self.steps.len(),
                i <= other.steps.len(),
                spec_path_lt(self@, other@) == path_lt_from(self@, other@, i as int),
            decreases self.steps.len() - i,
        {
            let a = &self.steps[i];
            let b = &other.steps[i];
            let ra = kind_rank_exec(a.kind);
            let rb = kind_rank_exec(b.kind);
            if ra != rb {
                proof {
                    assert(self@[i as int].kind != other@[i as int].kind);
                }
                return ra < rb;
            }
            if !a.key.key_eq(&b.key) {
                proof {
                    assert(self@[i as int] != other@[i as int]);
                    assert(self@[i as int].kind == other@[i as int].kind);
                }
                return key_lt(&a.key, &b.key);
            }
            proof {
                assert(self@[i as int] == other@[i as int]);
                assert(path_lt_from(self@, other@, i as int) == path_lt_from(
                    self@,
                    other@,
                    i + 1,
                ));
            }
            i = i + 1;
        }
        self.steps.len() < other.steps.len()
    }
}

/// Executable form of `kind_rank`.
fn kind_rank_exec(k: NodeKind) -> (r: u8)
    ensures
        r as int == kind_rank(k),
{
    match k {
        NodeKind::RootContext => 0,
        NodeKind::Window => 1,
        NodeKind::Button => 2,
        NodeKind::Label => 3,
        NodeKind::Text => 4,
    }
}

/// Strict order on keys, decided by value.
fn key_lt(a: &Key, b: &Key) -> (r: bool)
    ensures
        r == spec_key_lt(a@, b@),
{
    match (a, b) {
        (Key::Index(x), Key::Index(y)) => *x < *y,
        (Key::Index(_), Key::Name(_)) => true,
        (Key::Name(_), Key::Index(_)) => false,
        (Key::Name(x), Key::Name(y)) => str_lt(x.as_str(), y.as_str()),
    }
}

/// Strict lexicographic order on strings by characters.
fn str_lt(x: &str, y: &str) -> (r: bool)
    ensures
        r == chars_lt_from(x@, y@, 0),
{
    let xl = x.unicode_len();
    let yl = y.unicode_len();
    let mut i: usize = 0;
    while i < xl && i < yl
        invariant
            i <= xl,
            i <= yl,
            xl == x@.len(),
            yl == y@.len(),
            chars_lt_from(x@, y@, 0) == chars_lt_from(x@, y@, i as int),
        decreases xl - i,
    {
        let cx = x.get_char(i);
        let cy = y.get_char(i);
        if cx as u32 != cy as u32 {
            return (cx as u32) < (cy as u32);
        }
        proof {
            assert(chars_lt_from(x@, y@, i as int) == chars_lt_from(x@, y@, i + 1));
        }
        i = i + 1;
    }
    xl < yl
}

/// The fixed order of the kind tags, for the total order on steps.
pub open spec fn kind_rank(k: NodeKind) -> int {
    match k {
        NodeKind::RootContext => 0,
        NodeKind::Window => 1,
        NodeKind::Button => 2,
        NodeKind::Label => 3,
        NodeKind::Text => 4,
    }
}

/// Strict lexicographic order on character sequences, deciding from
/// position `i` on: a proper prefix precedes its extensions.
pub open spec fn chars_lt_from(x: Seq<char>, y: Seq<char>, i: int) -> bool
    decreases x.len() - i,
{
    if i >= x.len() {
        i < y.len()
    } else if i >= y.len() {
        false
    } else if x[i] as u32 != y[i] as u32 {
        (x[i] as u32) < (y[i] as u32)
    } else {
        chars_lt_from(x, y, i + 1)
    }
}

/// Strict order on keys: positional indices by value, before all explicit
/// identifiers, which compare lexicographically.
pub open spec fn spec_key_lt(a: KeyV, b: KeyV) -> bool {
    match (a, b) {
        (KeyV::Index(x), KeyV::Index(y)) => x < y,
        (KeyV::Index(_), KeyV::Name(_)) => true,
        (KeyV::Name(_), KeyV::Index(_)) => false,
        (KeyV::Name(x), KeyV::Name(y)) => chars_lt_from(x, y, 0),
    }
}

/// Strict order on steps: by kind tag, then by key.
pub open spec fn spec_step_lt(a: StepV, b: StepV) -> bool {
    kind_rank(a.kind) < kind_rank(b.kind) || (a.kind == b.kind && spec_key_lt(a.key, b.key))
}

/// Strict lexicographic order on paths, deciding from position `i` on.
pub open spec fn path_lt_from(p: Seq<StepV>, q: Seq<StepV>, i: int) -> bool
    decreases p.len() - i,
{
    if i >= p.len() {
        i < q.len()
    } else if i >= q.len() {
        false
    } else if p[i] != q[i] {
        spec_step_lt(p[i], q[i])
    } else {
        path_lt_from(p, q, i + 1)
    }
}

/// Strict lexicographic order on paths by their step sequences: the total
/// order that makes sibling order deterministic and reproducible.
pub open spec fn spec_path_lt(p: Seq<StepV>, q: Seq<StepV>) -> bool {
    path_lt_from(p, q, 0)
}

/// Whether `p` is a prefix of `q` (in particular, every path prefixes
/// itself): the node at `q` lies in the subtree rooted at `p`.
pub open spec fn is_prefix(p: Seq<StepV>, q: Seq<StepV>) -> bool {
    p.len() <= q.len() && q.subrange(0, p.len() as int) == p
}

/// The paths of the nodes of the first `i` subtrees of `cs`, each rooted
/// under `p`.
pub open spec fn node_paths_upto(cs: Seq<(KeyV, NodeV)>, p: Seq<StepV>, i: int) -> Set<
    Seq<StepV>,
>
    decreases cs, i,
{
    if i <= 0 || i > cs.len() {
        Set::empty()
    } else {
        node_paths_upto(cs, p, i - 1) + node_paths(cs[i - 1].1, p.push(step_of(cs[i - 1])))
    }
}

/// The paths of all nodes of the subtree `v` rooted at `p`.
pub open spec fn node_paths(v: NodeV, p: Seq<StepV>) -> Set<Seq<StepV>>
    decreases v, 0int,
{
    set![p] + node_paths_upto(v.children, p, v.children.len() as int)
}

/// The paths of the resource-producing nodes of the first `i` subtrees of
/// `cs`, each rooted under `p`.
pub open spec fn res_paths_upto(cs: Seq<(KeyV, NodeV)>, p: Seq<StepV>, i: int) -> Set<Seq<StepV>>
    decreases cs, i,
{
    if i <= 0 || i > cs.len() {
        Set::empty()
    } else {
        res_paths_upto(cs, p, i - 1) + res_paths(cs[i - 1].1, p.push(step_of(cs[i - 1])))
    }
}

/// The paths of the resource-producing nodes of the subtree `v` rooted at
/// `p`: the key set the registry must hold for this subtree.
pub open spec fn res_paths(v: NodeV, p: Seq<StepV>) -> Set<Seq<StepV>>
    decreases v, 0int,
{
    (if spec_produces_resource(v.kind) {
        set![p]
    } else {
        Set::<Seq<StepV>>::empty()
    }) + res_paths_upto(v.children, p, v.children.len() as int)
}

/// A classified change event, as delivered to the consumer.
pub enum Event {
    /// A node present only in the new snapshot; delivered once per node of an
    /// added subtree, parent before children.
    Added(Path),
    /// A subtree present only in the old snapshot; delivered once, for its
    /// root, before the engine's cleanup of the descendants.
    Removed(Path),
    /// A node present in both snapshots whose parameter records differ.
    ParamsChanged(Path),
    /// A parent both of whose snapshots hold the same children in a different
    /// relative order; carries the (old index, new index) pairs of the
    /// matched children.
    Reordered(Path, Vec<(usize, usize)>),
}

/// Mathematical model of an `Event`.
pub enum EventV {
    Added(Seq<StepV>),
    Removed(Seq<StepV>),
    ParamsChanged(Seq<StepV>),
    Reordered(Seq<StepV>, Seq<(int, int)>),
}

impl View for Event {
    type V = EventV;

    open spec fn view(&self) -> EventV {
        match self {
            Event::Added(p) => EventV::Added(p@),
            Event::Removed(p) => EventV::Removed(p@),
            Event::ParamsChanged(p) => EventV::ParamsChanged(p@),
            Event::Reordered(p, ms) => EventV::Reordered(
                p@,
                ms@.map_values(|m: (usize, usize)| (m.0 as int, m.1 as int)),
            ),
        }
    }
}

/// The added events of the first `i` subtrees of `cs`, each rooted under `p`,
/// in order.
pub open spec fn added_events_upto(cs: Seq<(KeyV, NodeV)>, p: Seq<StepV>, i: int) -> Seq<EventV>
    decreases cs, i,
{
    if i <= 0 || i > cs.len() {
        Seq::empty()
    } else {
        added_events_upto(cs, p, i - 1) + added_events(cs[i - 1].1, p.push(step_of(cs[i - 1])))
    }
}

/// The events of an added subtree: one added event per node, in pre-order.
pub open spec fn added_events(v: NodeV, p: Seq<StepV>) -> Seq<EventV>
    decreases v, 0int,
{
    seq![EventV::Added(p)] + added_events_upto(v.children, p, v.children.len() as int)
}

/// The (old index, new index) pairs of the first `i` new children that are
/// also old children, in new order.
pub open spec fn moves_upto(cs: Seq<(KeyV, NodeV)>, ls: Seq<(KeyV, NodeV)>, i: int) -> Seq<
    (int, int),
>
    decreases i,
{
    if i <= 0 {
        Seq::empty()
    } else {
        moves_upto(cs, ls, i - 1) + match find_step(ls, step_of(cs[i - 1])) {
            Some(j) => seq![(j, i - 1)],
            None => Seq::empty(),
        }
    }
}

/// The (old index, new index) pairs of the matched children, in new order.
pub open spec fn spec_moves(cs: Seq<(KeyV, NodeV)>, ls: Seq<(KeyV, NodeV)>) -> Seq<(int, int)> {
    moves_upto(cs, ls, cs.len() as int)
}

/// Whether the matched children kept their relative order: their old indices
/// rise along the new order.
pub open spec fn moves_sorted(ms: Seq<(int, int)>) -> bool {
    forall|a: int| 0 <= a < ms.len() - 1 ==> (#[trigger] ms[a]).0 < ms[a + 1].0
}

/// The reorder event of a parent, if its matched children changed their
/// relative order.
pub open spec fn reorder_events(cs: Seq<(KeyV, NodeV)>, ls: Seq<(KeyV, NodeV)>, p: Seq<StepV>) -> Seq<
    EventV,
> {
    if moves_sorted(spec_moves(cs, ls)) {
        Seq::empty()
    } else {
        seq![EventV::Reordered(p, spec_moves(cs, ls))]
    }
}

/// The events of the first `i` new children: an added walk for a child absent
/// from the old snapshot, the recursive comparison for a matched child.
pub open spec fn child_events_upto(
    cs: Seq<(KeyV, NodeV)>,
    ls: Seq<(KeyV, NodeV)>,
    p: Seq<StepV>,
    i: int,
) -> Seq<EventV>
    decreases cs, i,
{
    if i <= 0 || i > cs.len() {
        Seq::empty()
    } else {
        let c = cs[i - 1];
        let cp = p.push(step_of(c));
        child_events_upto(cs, ls, p, i - 1) + match find_step(ls, step_of(c)) {
            Some(j) => spec_events(c.1, ls[j].1, cp),
            None => added_events(c.1, cp),
        }
    }
}

/// The removed events of the first `j` old children absent from the new
/// snapshot, in old order.
pub open spec fn removed_events_upto(
    ls: Seq<(KeyV, NodeV)>,
    cs: Seq<(KeyV, NodeV)>,
    p: Seq<StepV>,
    j: int,
) -> Seq<EventV>
    decreases j,
{
    if j <= 0 {
        Seq::empty()
    } else {
        removed_events_upto(ls, cs, p, j - 1) + if find_step(cs, step_of(ls[j - 1])) is None {
            seq![EventV::Removed(p.push(step_of(ls[j - 1])))]
        } else {
            Seq::empty()
        }
    }
}

/// The events of comparing two matched nodes at `p`: the node's own
/// parameter event first, then the new children in order (added walks and
/// recursive comparisons), then the removed old children in order, then the
/// parent's reorder event.
pub open spec fn spec_events(c: NodeV, l: NodeV, p: Seq<StepV>) -> Seq<EventV>
    decreases c, 1int,
{
    (if c.params != l.params {
        seq![EventV::ParamsChanged(p)]
    } else {
        Seq::<EventV>::empty()
    }) + child_events_upto(c.children, l.children, p, c.children.len() as int)
        + removed_events_upto(l.children, c.children, p, l.children.len() as int)
        + reorder_events(c.children, l.children, p)
}

/// A well-keyed snapshot diffed against itself yields no event at all: no
/// added, removed, params-changed or reordered classification fires.
pub proof fn lemma_self_diff_empty(t: NodeV, p: Seq<StepV>)
    requires
        crate::nodes::wf_node(t),
    ensures
        spec_events(t, t, p) == Seq::<EventV>::empty(),
    decreases t, 1int, 0int,
{
    lemma_self_children(t.children, p, t.children.len() as int);
    lemma_self_moves(t.children, t.children.len() as int);
    assert(moves_sorted(spec_moves(t.children, t.children))) by {
        let ms = spec_moves(t.children, t.children);
        assert forall|a: int| 0 <= a < ms.len() - 1 implies (#[trigger] ms[a]).0 < ms[a + 1].0 by {}
    }
    assert(spec_events(t, t, p) =~= Seq::<EventV>::empty());
}

/// In a self-comparison every child matches itself at its own index.
proof fn lemma_self_find(cs: Seq<(KeyV, NodeV)>, i: int)
    requires
        crate::nodes::wf_children(cs),
        0 <= i < cs.len(),
    ensures
        find_step(cs, step_of(cs[i])) == Some(i),
{
    crate::engine::lemma_find_step_from(cs, step_of(cs[i]), 0);
    match find_step(cs, step_of(cs[i])) {
        Some(j) => {
            assert(step_of(cs[j]) == step_of(cs[i]));
            assert(j == i);
        },
        None => {
            assert(step_of(cs[i]) != step_of(cs[i]));
        },
    }
}

/// Child walks of a self-comparison yield no event.
proof fn lemma_self_children(cs: Seq<(KeyV, NodeV)>, p: Seq<StepV>, i: int)
    requires
        crate::nodes::wf_children(cs),
        forall|k: int| 0 <= k < cs.len() ==> crate::nodes::wf_node((#[trigger] cs[k]).1),
        i <= cs.len(),
    ensures
        child_events_upto(cs, cs, p, i) == Seq::<EventV>::empty(),
        removed_events_upto(cs, cs, p, i) == Seq::<EventV>::empty(),
    decreases cs, 0int, i,
{
    if 0 < i <= cs.len() {
        lemma_self_children(cs, p, i - 1);
        lemma_self_find(cs, i - 1);
        lemma_self_diff_empty(cs[i - 1].1, p.push(step_of(cs[i - 1])));
        assert(child_events_upto(cs, cs, p, i) =~= Seq::<EventV>::empty());
        assert(removed_events_upto(cs, cs, p, i) =~= Seq::<EventV>::empty());
    }
}

/// The matched moves of a self-comparison are the identity pairing.
proof fn lemma_self_moves(cs: Seq<(KeyV, NodeV)>, i: int)
    requires
        crate::nodes::wf_children(cs),
        i <= cs.len(),
    ensures
        moves_upto(cs, cs, i).len() == if i < 0 {
            0int
        } else {
            i
        },
        forall|k: int| 0 <= k < i ==> #[trigger] moves_upto(cs, cs, i)[k] == (k, k),
    decreases i,
{
    if 0 < i <= cs.len() {
        lemma_self_moves(cs, i - 1);
        lemma_self_find(cs, i - 1);
        assert forall|k: int| 0 <= k < i implies #[trigger] moves_upto(cs, cs, i)[k] == (k, k) by {
            if k < i - 1 {
                assert(moves_upto(cs, cs, i - 1)[k] == (k, k));
            }
        }
    }
}

/// A parameter-only change on a matched node emits exactly one
/// params-changed event and nothing else: with equal children on both
/// sides, no added, removed or reordered event fires for the node or its
/// subtree.
pub proof fn lemma_params_only_events(c: NodeV, l: NodeV, p: Seq<StepV>)
    requires
        crate::nodes::wf_node(c),
        c.children == l.children,
        c.params != l.params,
    ensures
        spec_events(c, l, p) == seq![EventV::ParamsChanged(p)],
{
    lemma_self_children(c.children, p, c.children.len() as int);
    lemma_self_moves(c.children, c.children.len() as int);
    assert(moves_sorted(spec_moves(c.children, l.children))) by {
        let ms = spec_moves(c.children, c.children);
        assert forall|a: int| 0 <= a < ms.len() - 1 implies (#[trigger] ms[a]).0 < ms[a + 1].0 by {}
    }
    assert(spec_events(c, l, p) =~= seq![EventV::ParamsChanged(p)]);
}

/// Reordering: two matched nodes with equal parameters whose children are
/// the same keyed subtrees, possibly in another order, emit at most the
/// parent's single reordered event and no added, removed or params-changed
/// event; with the order kept, nothing at all.
pub proof fn lemma_reorder_only_events(c: NodeV, l: NodeV, p: Seq<StepV>)
    requires
        crate::nodes::wf_node(c),
        crate::nodes::wf_node(l),
        c.params == l.params,
        c.children.len() == l.children.len(),
        forall|x: (KeyV, NodeV)| c.children.contains(x) <==> l.children.contains(x),
    ensures
        spec_events(c, l, p) == reorder_events(c.children, l.children, p),
        c.children == l.children ==> spec_events(c, l, p) == Seq::<EventV>::empty(),
{
    let cs = c.children;
    let ls = l.children;
    lemma_perm_children(cs, ls, p, cs.len() as int);
    lemma_perm_removed(ls, cs, p, ls.len() as int);
    assert(spec_events(c, l, p) =~= reorder_events(cs, ls, p));
    if cs == ls {
        lemma_self_moves(cs, cs.len() as int);
        assert(moves_sorted(spec_moves(cs, ls))) by {
            let ms = spec_moves(cs, cs);
            assert forall|a: int| 0 <= a < ms.len() - 1 implies (#[trigger] ms[a]).0 < ms[a
                + 1].0 by {}
        }
        assert(spec_events(c, l, p) =~= Seq::<EventV>::empty());
    }
}

/// With every new child present among the old ones as the same keyed
/// subtree, the per-child walks of the comparison emit nothing.
proof fn lemma_perm_children(cs: Seq<(KeyV, NodeV)>, ls: Seq<(KeyV, NodeV)>, p: Seq<StepV>, i: int)
    requires
        crate::nodes::wf_children(cs),
        crate::nodes::wf_children(ls),
        forall|k: int| 0 <= k < cs.len() ==> crate::nodes::wf_node((#[trigger] cs[k]).1),
        forall|x: (KeyV, NodeV)| cs.contains(x) ==> ls.contains(x),
        i <= cs.len(),
    ensures
        child_events_upto(cs, ls, p, i) == Seq::<EventV>::empty(),
    decreases cs, 0int, i,
{
    if 0 < i <= cs.len() {
        lemma_perm_children(cs, ls, p, i - 1);
        let x = cs[i - 1];
        assert(cs.contains(x));
        let j = choose|j: int| 0 <= j < ls.len() && ls[j] == x;
        crate::engine::lemma_find_step_from(ls, step_of(x), 0);
        match find_step(ls, step_of(x)) {
            Some(j0) => {
                assert(step_of(ls[j0]) == step_of(ls[j]));
                assert(j0 == j);
                lemma_self_diff_empty(x.1, p.push(step_of(x)));
                assert(child_events_upto(cs, ls, p, i) =~= Seq::<EventV>::empty());
            },
            None => {
                assert(step_of(ls[j]) != step_of(x));
            },
        }
    }
}

/// With every old child present among the new ones, no removed event fires.
proof fn lemma_perm_removed(ls: Seq<(KeyV, NodeV)>, cs: Seq<(KeyV, NodeV)>, p: Seq<StepV>, j: int)
    requires
        forall|x: (KeyV, NodeV)| ls.contains(x) ==> cs.contains(x),
        j <= ls.len(),
    ensures
        removed_events_upto(ls, cs, p, j) == Seq::<EventV>::empty(),
    decreases j,
{
    if 0 < j <= ls.len() {
        lemma_perm_removed(ls, cs, p, j - 1);
        let x = ls[j - 1];
        assert(ls.contains(x));
        let k = choose|k: int| 0 <= k < cs.len() && cs[k] == x;
        crate::engine::lemma_find_step_from(cs, step_of(x), 0);
        if find_step(cs, step_of(x)) is None {
            assert(step_of(cs[k]) != step_of(x));
        }
        assert(removed_events_upto(ls, cs, p, j) =~= Seq::<EventV>::empty());
    }
}

/// Removal cascade: an old child that no new child matches is classified
/// removed, and the comparison emits the removed event for the subtree's
/// root path.
pub proof fn lemma_removed_event_present(c: NodeV, l: NodeV, p: Seq<StepV>, j: int)
    requires
        0 <= j < l.children.len(),
        find_step(c.children, step_of(l.children[j])) is None,
    ensures
        spec_events(c, l, p).contains(EventV::Removed(p.push(step_of(l.children[j])))),
{
    let ev = EventV::Removed(p.push(step_of(l.children[j])));
    lemma_removed_upto_present(l.children, c.children, p, j, l.children.len() as int);
    let part = removed_events_upto(l.children, c.children, p, l.children.len() as int);
    let i0 = choose|i: int| 0 <= i < part.len() && #[trigger] part[i] == ev;
    let head = (if c.params != l.params {
        seq![EventV::ParamsChanged(p)]
    } else {
        Seq::<EventV>::empty()
    }) + child_events_upto(c.children, l.children, p, c.children.len() as int);
    assert(spec_events(c, l, p)[head.len() as int + i0] == ev);
}

/// The removed walk of the old children reaches every unmatched child.
proof fn lemma_removed_upto_present(
    ls: Seq<(KeyV, NodeV)>,
    cs: Seq<(KeyV, NodeV)>,
    p: Seq<StepV>,
    j: int,
    k: int,
)
    requires
        0 <= j < k <= ls.len(),
        find_step(cs, step_of(ls[j])) is None,
    ensures
        removed_events_upto(ls, cs, p, k).contains(EventV::Removed(p.push(step_of(ls[j])))),
    decreases k,
{
    let ev = EventV::Removed(p.push(step_of(ls[j])));
    if k == j + 1 {
        assert(removed_events_upto(ls, cs, p, k)[removed_events_upto(ls, cs, p, j).len() as int] == ev);
    } else {
        lemma_removed_upto_present(ls, cs, p, j, k - 1);
        let i0 = choose|i: int|
            0 <= i < removed_events_upto(ls, cs, p, k - 1).len() && #[trigger] removed_events_upto(
                ls,
                cs,
                p,
                k - 1,
            )[i] == ev;
        assert(removed_events_upto(ls, cs, p, k)[i0] == ev);
    }
}

/// No resource path of a snapshot lies under a child step the snapshot does
/// not carry: after a subtree's removal, no descendant path can remain
/// registered.
pub proof fn lemma_removed_region_vacated(c: NodeV, s: StepV, p: Seq<StepV>)
    requires
        crate::nodes::find_step(c.children, s) is None,
    ensures
        forall|q: Seq<StepV>|
            is_prefix(p.push(s), q) ==> !#[trigger] res_paths(c, p).contains(q),
{
    crate::engine::lemma_find_step_from(c.children, s, 0);
    crate::engine::lemma_res_upto_decomp(c.children, p, c.children.len() as int);
    crate::engine::lemma_res_paths_prefix(c, p);
    assert forall|q: Seq<StepV>|
        is_prefix(p.push(s), q) implies !#[trigger] res_paths(c, p).contains(q) by {
        crate::engine::lemma_prefix_step(p, s, q);
        if res_paths(c, p).contains(q) {
            assert(q != p);
            assert(res_paths_upto(c.children, p, c.children.len() as int).contains(q)) by {
                assert(res_paths(c, p) == (if crate::nodes::spec_produces_resource(c.kind) {
                    set![p]
                } else {
                    Set::<Seq<StepV>>::empty()
                }) + res_paths_upto(c.children, p, c.children.len() as int));
            }
            let k = choose|k: int|
                0 <= k < c.children.len() && #[trigger] crate::engine::region_of(
                    c.children,
                    p,
                    k,
                ).contains(q);
            crate::engine::lemma_res_paths_prefix(
                c.children[k].1,
                p.push(step_of(c.children[k])),
            );
            crate::engine::lemma_prefix_step(p, step_of(c.children[k]), q);
            assert(step_of(c.children[k]) == s);
        }
    }
}

/// Appending a pair keeps the moves order-sound exactly when it was sound
/// and the new old-index rises above the last one.
proof fn lemma_moves_push(ms: Seq<(int, int)>, m: (int, int))
    ensures
        moves_sorted(ms.push(m)) <==> (moves_sorted(ms) && (ms.len() == 0 || ms.last().0 < m.0)),
{
    let msp = ms.push(m);
    if moves_sorted(ms) && (ms.len() == 0 || ms.last().0 < m.0) {
        assert forall|a: int| 0 <= a < msp.len() - 1 implies (#[trigger] msp[a]).0 < msp[a
            + 1].0 by {
            if a < ms.len() - 1 {
                assert(msp[a] == ms[a]);
                assert(msp[a + 1] == ms[a + 1]);
                assert(ms[a].0 < ms[a + 1].0);
            } else {
                assert(msp[a] == ms.last());
                assert(msp[a + 1] == m);
            }
        }
    }
    if moves_sorted(msp) {
        assert forall|a: int| 0 <= a < ms.len() - 1 implies (#[trigger] ms[a]).0 < ms[a + 1].0 by {
            assert(msp[a].0 < msp[a + 1].0);
            assert(msp[a] == ms[a]);
            assert(msp[a + 1] == ms[a + 1]);
        }
        if ms.len() > 0 {
            assert(msp[ms.len() - 1].0 < msp[ms.len() as int].0);
        }
    }
}

/// The classified change events of comparing two matched snapshots, in
/// delivery order: the engine's pure product, for inspection without a
/// consumer.
pub fn diff_events(curr: &AllNodes, last: &AllNodes) -> (evs: Vec<Event>)
    requires
        curr@.kind == last@.kind,
    ensures
        evs@.map_values(|e: Event| e@) == spec_events(curr@, last@, Seq::<StepV>::empty()),
{
    let root = Path::root();
    let mut out: Vec<Event> = Vec::new();
    proof {
        assert(out@.map_values(|e: Event| e@) =~= Seq::<EventV>::empty());
    }
    diff_events_rec(curr, last, &root, &mut out);
    proof {
        assert(out@.map_values(|e: Event| e@) =~= spec_events(
            curr@,
            last@,
            Seq::<StepV>::empty(),
        ));
    }
    out
}

/// Records the events of one matched pair at `path`.
#[verifier::rlimit(100)]
fn diff_events_rec(curr: &AllNodes, last: &AllNodes, path: &Path, out: &mut Vec<Event>)
    requires
        curr@.kind == last@.kind,
    ensures
        final(out)@.map_values(|e: Event| e@) == old(out)@.map_values(|e: Event| e@)
            + spec_events(curr@, last@, path@),
    decreases *curr, 1int,
{
    if !curr.params_eq(last) {
        out.push(Event::ParamsChanged(path.clone()));
        proof {
            assert(out@.map_values(|e: Event| e@) =~= old(out)@.map_values(|e: Event| e@)
                + seq![EventV::ParamsChanged(path@)]);
        }
    } else {
        proof {
            assert(out@.map_values(|e: Event| e@) =~= old(out)@.map_values(|e: Event| e@)
                + Seq::<EventV>::empty());
        }
    }
    match curr {
        AllNodes::RootContext(n) => events_children(out, path, &n.children, last),
        AllNodes::Window(n) => events_children(out, path, &n.children, last),
        AllNodes::Button(n) => events_children(out, path, &n.children, last),
        AllNodes::Label(n) => events_children(out, path, &n.children, last),
        AllNodes::Text(_) => {
            proof {
                assert(last@.children.len() == 0);
                assert(child_events_upto(curr@.children, last@.children, path@, 0)
                    =~= Seq::<EventV>::empty());
                assert(removed_events_upto(last@.children, curr@.children, path@, 0)
                    =~= Seq::<EventV>::empty());
                assert(moves_sorted(spec_moves(curr@.children, last@.children)));
            }
        },
    }
    proof {
        match curr {
            AllNodes::Text(_) => {
                assert(curr@.children =~= Seq::<(KeyV, NodeV)>::empty());
            },
            AllNodes::RootContext(n) => {
                assert(curr@.children == crate::nodes::kids_view(n.children@));
            },
            AllNodes::Window(n) => {
                assert(curr@.children == crate::nodes::kids_view(n.children@));
            },
            AllNodes::Button(n) => {
                assert(curr@.children == crate::nodes::kids_view(n.children@));
            },
            AllNodes::Label(n) => {
                assert(curr@.children == crate::nodes::kids_view(n.children@));
            },
        }
        assert(out@.map_values(|e: Event| e@) =~= old(out)@.map_values(|e: Event| e@)
            + spec_events(curr@, last@, path@));
    }
}

/// Records the child-level events of one parent: the new children in order,
/// the removed old children in order, then the reorder event if the matched
/// children changed their relative order.
#[verifier::rlimit(100)]
fn events_children(
    out: &mut Vec<Event>,
    path: &Path,
    curr_children: &Vec<(Key, AllNodes)>,
    last: &AllNodes,
)
    ensures
        final(out)@.map_values(|e: Event| e@) == old(out)@.map_values(|e: Event| e@)
            + child_events_upto(
            crate::nodes::kids_view(curr_children@),
            last@.children,
            path@,
            crate::nodes::kids_view(curr_children@).len() as int,
        ) + removed_events_upto(
            last@.children,
            crate::nodes::kids_view(curr_children@),
            path@,
            last@.children.len() as int,
        ) + reorder_events(
            crate::nodes::kids_view(curr_children@),
            last@.children,
            path@,
        ),
    decreases curr_children@, 0int,
{
    proof {
        crate::nodes::lemma_kids_view(curr_children@);
    }
    let ghost cs = crate::nodes::kids_view(curr_children@);
    let ghost ls = last@.children;
    let ghost base = out@.map_values(|e: Event| e@);
    let last_kids = last.children();
    proof {
        match last_kids {
            Some(lk) => {
                crate::nodes::lemma_kids_view(lk@);
            },
            None => {},
        }
    }
    let mut i: usize = 0;
    while i < curr_children.len()
        invariant
            i <= curr_children@.len(),
            cs == crate::nodes::kids_view(curr_children@),
            ls == last@.children,
            cs.len() == curr_children@.len(),
            base == old(out)@.map_values(|e: Event| e@),
            forall|j: int|
                0 <= j < cs.len() ==> #[trigger] cs[j] == (
                    curr_children@[j].0@,
                    crate::nodes::node_view(curr_children@[j].1),
                ),
            match last_kids {
                Some(lk) => kids_view_facts(lk@, ls),
                None => ls.len() == 0,
            },
            out@.map_values(|e: Event| e@) == base + child_events_upto(cs, ls, path@, i as int),
        decreases curr_children@.len() - i,
    {
        let child = &curr_children[i];
        let ckind = child.1.kind();
        let cp = path.push_step(ckind, &child.0);
        let ghost s = step_of(cs[i as int]);
        let ghost pre = out@.map_values(|e: Event| e@);
        proof {
            assert(cp@ == path@.push(s));
            assert(StepV { kind: ckind, key: child.0@ } == s);
        }
        let found = match last_kids {
            Some(lk) => AllNodes::find_child(lk, ckind, &child.0),
            None => None,
        };
        match found {
            Some(j) => {
                let lk = match last_kids {
                    Some(lk) => lk,
                    None => unreached(),
                };
                proof {
                    assert(find_step(ls, s) == Some(j as int));
                    crate::engine::lemma_find_step_from(ls, s, 0);
                    assert(step_of(ls[j as int]) == s);
                    assert(lk@[j as int].1@ == ls[j as int].1);
                    assert(lk@[j as int].1@.kind == child.1@.kind);
                }
                diff_events_rec(&child.1, &lk[j].1, &cp, out);
                proof {
                    assert(out@.map_values(|e: Event| e@) =~= base + child_events_upto(
                        cs,
                        ls,
                        path@,
                        i + 1,
                    ));
                }
            },
            None => {
                proof {
                    if ls.len() == 0 {
                        crate::engine::lemma_find_step_from(ls, s, 0);
                    }
                    assert(find_step(ls, s) is None);
                }
                added_events_rec(out, &cp, &child.1);
                proof {
                    assert(out@.map_values(|e: Event| e@) =~= base + child_events_upto(
                        cs,
                        ls,
                        path@,
                        i + 1,
                    ));
                }
            },
        }
        i = i + 1;
    }
    let ghost amark = base + child_events_upto(cs, ls, path@, cs.len() as int);
    match last_kids {
        Some(lk) => {
            let mut j: usize = 0;
            while j < lk.len()
                invariant
                    j <= lk@.len(),
                    cs == crate::nodes::kids_view(curr_children@),
                    ls == last@.children,
                    cs.len() == curr_children@.len(),
                    ls.len() == lk@.len(),
                    kids_view_facts(lk@, ls),
                    forall|k: int|
                        0 <= k < cs.len() ==> #[trigger] cs[k] == (
                            curr_children@[k].0@,
                            crate::nodes::node_view(curr_children@[k].1),
                        ),
                    out@.map_values(|e: Event| e@) == amark + removed_events_upto(
                        ls,
                        cs,
                        path@,
                        j as int,
                    ),
                decreases lk@.len() - j,
            {
                let lchild = &lk[j];
                let lkind = lchild.1.kind();
                let ghost s = step_of(ls[j as int]);
                proof {
                    assert(StepV { kind: lkind, key: lchild.0@ } == s);
                }
                let found = AllNodes::find_child(curr_children, lkind, &lchild.0);
                if found.is_none() {
                    let lp = path.push_step(lkind, &lchild.0);
                    proof {
                        assert(find_step(cs, s) is None);
                        assert(lp@ == path@.push(s));
                    }
                    let ghost premap = out@.map_values(|e: Event| e@);
                    out.push(Event::Removed(lp));
                    proof {
                        assert(out@.map_values(|e: Event| e@) =~= premap.push(
                            EventV::Removed(path@.push(s)),
                        ));
                        assert(removed_events_upto(ls, cs, path@, j + 1) =~= removed_events_upto(
                            ls,
                            cs,
                            path@,
                            j as int,
                        ) + seq![EventV::Removed(path@.push(s))]);
                        assert(out@.map_values(|e: Event| e@) =~= amark + removed_events_upto(
                            ls,
                            cs,
                            path@,
                            j + 1,
                        ));
                    }
                } else {
                    proof {
                        assert(find_step(cs, s) is Some);
                        assert(removed_events_upto(ls, cs, path@, j + 1) == removed_events_upto(
                            ls,
                            cs,
                            path@,
                            j as int,
                        ));
                        assert(out@.map_values(|e: Event| e@) =~= amark + removed_events_upto(
                            ls,
                            cs,
                            path@,
                            j + 1,
                        ));
                    }
                }
                j = j + 1;
            }
        },
        None => {
            proof {
                assert(removed_events_upto(ls, cs, path@, ls.len() as int)
                    =~= Seq::<EventV>::empty());
                assert(out@.map_values(|e: Event| e@) =~= amark + removed_events_upto(
                    ls,
                    cs,
                    path@,
                    ls.len() as int,
                ));
            }
        },
    }
    // the reorder check: collect the matched (old index, new index) pairs in
    // new order and test whether the old indices rise
    let ghost rmark = amark + removed_events_upto(ls, cs, path@, ls.len() as int);
    let mut moves: Vec<(usize, usize)> = Vec::new();
    let mut ascending = true;
    let mut prev_found: Option<usize> = None;
    let mut r: usize = 0;
    proof {
        assert(moves@.map_values(|m: (usize, usize)| (m.0 as int, m.1 as int))
            =~= moves_upto(cs, ls, 0));
    }
    while r < curr_children.len()
        invariant
            r <= curr_children@.len(),
            cs == crate::nodes::kids_view(curr_children@),
            ls == last@.children,
            cs.len() == curr_children@.len(),
            forall|k: int|
                0 <= k < cs.len() ==> #[trigger] cs[k] == (
                    curr_children@[k].0@,
                    crate::nodes::node_view(curr_children@[k].1),
                ),
            match last_kids {
                Some(lk) => kids_view_facts(lk@, ls),
                None => ls.len() == 0,
            },
            moves@.map_values(|m: (usize, usize)| (m.0 as int, m.1 as int)) == moves_upto(
                cs,
                ls,
                r as int,
            ),
            ascending == moves_sorted(moves_upto(cs, ls, r as int)),
            match prev_found {
                Some(pv) => moves_upto(cs, ls, r as int).len() > 0 && moves_upto(
                    cs,
                    ls,
                    r as int,
                ).last().0 == pv as int,
                None => moves_upto(cs, ls, r as int).len() == 0,
            },
        decreases curr_children@.len() - r,
    {
        let child = &curr_children[r];
        let ghost s = step_of(cs[r as int]);
        proof {
            assert(StepV { kind: crate::nodes::node_view(curr_children@[r as int].1).kind, key: child.0@ }
                == s);
        }
        let found = match last_kids {
            Some(lk) => AllNodes::find_child(lk, child.1.kind(), &child.0),
            None => None,
        };
        proof {
            if ls.len() == 0 {
                crate::engine::lemma_find_step_from(ls, s, 0);
            }
        }
        match found {
            Some(jx) => {
                proof {
                    assert(find_step(ls, s) == Some(jx as int));
                    assert(moves_upto(cs, ls, r + 1) =~= moves_upto(cs, ls, r as int).push(
                        (jx as int, r as int),
                    ));
                    lemma_moves_push(moves_upto(cs, ls, r as int), (jx as int, r as int));
                }
                match prev_found {
                    Some(pv) => {
                        if jx <= pv {
                            ascending = false;
                        }
                    },
                    None => (),
                }
                moves.push((jx, r));
                prev_found = Some(jx);
                proof {
                    assert(moves@.map_values(|m: (usize, usize)| (m.0 as int, m.1 as int))
                        =~= moves_upto(cs, ls, r + 1));
                }
            },
            None => {
                proof {
                    assert(find_step(ls, s) is None);
                    assert(moves_upto(cs, ls, r + 1) == moves_upto(cs, ls, r as int));
                }
            },
        }
        r = r + 1;
    }
    if !ascending {
        out.push(Event::Reordered(path.clone(), moves));
        proof {
            assert(out@.map_values(|e: Event| e@) =~= rmark + reorder_events(cs, ls, path@));
        }
    } else {
        proof {
            assert(out@.map_values(|e: Event| e@) =~= rmark + reorder_events(cs, ls, path@));
        }
    }
    proof {
        assert(final(out)@.map_values(|e: Event| e@) =~= old(out)@.map_values(|e: Event| e@)
            + child_events_upto(cs, ls, path@, cs.len() as int) + removed_events_upto(
            ls,
            cs,
            path@,
            ls.len() as int,
        ) + reorder_events(cs, ls, path@)) by {}
    }
}

/// The indexing relation between an exec child list and its model.
pub open spec fn kids_view_facts(lk: Seq<(Key, AllNodes)>, ls: Seq<(KeyV, NodeV)>) -> bool {
    &&& ls == crate::nodes::kids_view(lk)
    &&& ls.len() == lk.len()
    &&& forall|j: int|
        0 <= j < ls.len() ==> #[trigger] ls[j] == (lk[j].0@, crate::nodes::node_view(lk[j].1))
}

/// Records the added events of one added subtree: one per node, pre-order.
fn added_events_rec(out: &mut Vec<Event>, path: &Path, node: &AllNodes)
    ensures
        final(out)@.map_values(|e: Event| e@) == old(out)@.map_values(|e: Event| e@)
            + added_events(node@, path@),
    decreases *node, 1int,
{
    out.push(Event::Added(path.clone()));
    proof {
        assert(out@.map_values(|e: Event| e@) =~= old(out)@.map_values(|e: Event| e@)
            + seq![EventV::Added(path@)]);
    }
    match node {
        AllNodes::RootContext(n) => added_children_rec(out, path, &n.children),
        AllNodes::Window(n) => added_children_rec(out, path, &n.children),
        AllNodes::Button(n) => added_children_rec(out, path, &n.children),
        AllNodes::Label(n) => added_children_rec(out, path, &n.children),
        AllNodes::Text(_) => {
            proof {
                assert(node@.children.len() == 0);
                assert(added_events_upto(node@.children, path@, 0) =~= Seq::<EventV>::empty());
            }
        },
    }
    proof {
        match node {
            AllNodes::Text(_) => {},
            AllNodes::RootContext(n) => {
                assert(node@.children == crate::nodes::kids_view(n.children@));
            },
            AllNodes::Window(n) => {
                assert(node@.children == crate::nodes::kids_view(n.children@));
            },
            AllNodes::Button(n) => {
                assert(node@.children == crate::nodes::kids_view(n.children@));
            },
            AllNodes::Label(n) => {
                assert(node@.children == crate::nodes::kids_view(n.children@));
            },
        }
        assert(out@.map_values(|e: Event| e@) =~= old(out)@.map_values(|e: Event| e@)
            + added_events(node@, path@));
    }
}

/// Records the added events of the children of an added node, in order.
fn added_children_rec(out: &mut Vec<Event>, path: &Path, children: &Vec<(Key, AllNodes)>)
    ensures
        final(out)@.map_values(|e: Event| e@) == old(out)@.map_values(|e: Event| e@)
            + added_events_upto(
            crate::nodes::kids_view(children@),
            path@,
            crate::nodes::kids_view(children@).len() as int,
        ),
    decreases children@, 0int,
{
    proof {
        crate::nodes::lemma_kids_view(children@);
    }
    let ghost cs = crate::nodes::kids_view(children@);
    let ghost base = out@.map_values(|e: Event| e@);
    let mut i: usize = 0;
    proof {
        assert(out@.map_values(|e: Event| e@) =~= base + added_events_upto(cs, path@, 0));
    }
    while i < children.len()
        invariant
            i <= children@.len(),
            cs == crate::nodes::kids_view(children@),
            cs.len() == children@.len(),
            base == old(out)@.map_values(|e: Event| e@),
            forall|j: int|
                0 <= j < cs.len() ==> #[trigger] cs[j] == (
                    children@[j].0@,
                    crate::nodes::node_view(children@[j].1),
                ),
            out@.map_values(|e: Event| e@) == base + added_events_upto(cs, path@, i as int),
        decreases children@.len() - i,
    {
        let child = &children[i];
        let cp = path.push_step(child.1.kind(), &child.0);
        proof {
            assert(cp@ == path@.push(step_of(cs[i as int])));
        }
        added_events_rec(out, &cp, &child.1);
        proof {
            assert(out@.map_values(|e: Event| e@) =~= base + added_events_upto(
                cs,
                path@,
                i + 1,
            ));
        }
        i = i + 1;
    }
}

/// The consumer protocol: the capability a binding implements to materialize
/// classified change events into side effects on its resources, over its own
/// private state `C`. The added-subtree walk visits each node in pre-order
/// through `diff_added` and fires `diff_added_exit` post-order once the
/// node's descendants have all been visited, realizing the traversal cursor's
/// deferred on-exit hooks.
pub trait Differ<C> {
    /// One node of an added subtree, pre-order.
    fn diff_added(&mut self, ctx: &mut C, path: &Path, curr: &AllNodes);

    /// One node of an added subtree, post-order, after all its descendants.
    fn diff_added_exit(&mut self, ctx: &mut C, path: &Path, curr: &AllNodes);

    /// The root of a removed subtree, before any cleanup of its descendants.
    fn diff_removed(&mut self, ctx: &mut C, path: &Path, last: &AllNodes);

    /// A matched node whose parameter records differ by value.
    fn diff_params_changed(&mut self, ctx: &mut C, path: &Path, curr: &AllNodes, last: &AllNodes);

    /// A parent whose matched children changed their relative order.
    fn diff_reordered(&mut self, ctx: &mut C, path: &Path, moves: &Vec<(usize, usize)>);
}

} // verus!
