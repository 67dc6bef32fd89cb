pub mod diff;
pub mod engine;
pub mod nodes;
pub mod params;
pub mod registry;

use vstd::prelude::*;

use crate::diff::{node_paths, res_paths, Path, StepV};
use crate::nodes::{
    kids_view, label_text, label_text_exec, node_view, spec_kind_in_group,
    spec_produces_resource, AllNodes, Group, Key, NodeKind, NodeV, RootContext,
};
use crate::registry::{ContainerWidget, GtkOp, OpV, WidgetRegistry};

verus! {

/// Saturating successor: the next widget identifier the context will hand
/// out after `id`.
pub open spec fn sat_inc(id: u64) -> u64 {
    if id < u64::MAX {
        (id + 1) as u64
    } else {
        id
    }
}

/// The handle classification the binding keeps for a freshly created widget
/// of the given kind.
pub open spec fn widget_for(kind: NodeKind, id: u64) -> ContainerWidget {
    match kind {
        NodeKind::Label => ContainerWidget::Label(id),
        _ => ContainerWidget::Container(id),
    }
}

/// The attachment actions run when a widget is added under the given parent
/// handle: only a container parent accepts children.
pub open spec fn attach_seq(parent: ContainerWidget, child: u64) -> Seq<OpV> {
    match parent {
        ContainerWidget::Container(p) => seq![OpV::Attach { parent: p, child }],
        _ => Seq::empty(),
    }
}

/// The toolkit actions queued when the node `n` is added at a position whose
/// parent holds the handle `pw`, under the fresh identifier `id`. A window is
/// toplevel and attaches to nothing; the context root and text fragments
/// create nothing.
pub open spec fn added_ops(n: NodeV, pw: Option<ContainerWidget>, id: u64) -> Seq<OpV> {
    match n.kind {
        NodeKind::Window => seq![OpV::CreateWindow { id, title: n.params->title }],
        NodeKind::Button => seq![OpV::CreateButton { id }] + match pw {
            Some(w) => attach_seq(w, id),
            None => Seq::empty(),
        },
        NodeKind::Label => seq![OpV::CreateLabel { id, text: label_text(n.children) }] + match pw {
            Some(w) => attach_seq(w, id),
            None => Seq::empty(),
        },
        _ => Seq::empty(),
    }
}

/// The consumer's private state: the path-keyed resource registry, the next
/// fresh widget identifier, and the toolkit actions decided but not yet
/// performed.
pub struct InnerContext {
    container_widget_by_path: WidgetRegistry,
    next_widget_id: u64,
    pending_ops: Vec<GtkOp>,
}

impl InnerContext {
    /// The resource registry: path of a live node to its widget handle.
    pub closed spec fn registry(&self) -> Map<Seq<StepV>, ContainerWidget> {
        self.container_widget_by_path@
    }

    /// The queued toolkit actions, oldest first.
    pub closed spec fn ops(&self) -> Seq<OpV> {
        self.pending_ops@.map_values(|o: GtkOp| o@)
    }

    /// The next widget identifier to be handed out.
    pub closed spec fn next_id(&self) -> u64 {
        self.next_widget_id
    }

    pub closed spec fn wf(&self) -> bool {
        self.container_widget_by_path.wf()
    }

    /// A fresh consumer state: empty registry, nothing queued.
    pub fn new() -> (r: InnerContext)
        ensures
            r.wf(),
            r.registry() == Map::<Seq<StepV>, ContainerWidget>::empty(),
            r.ops() == Seq::<OpV>::empty(),
            r.next_id() == 0,
    {
        let r = InnerContext {
            container_widget_by_path: WidgetRegistry::new(),
            next_widget_id: 0,
            pending_ops: Vec::new(),
        };
        proof {
            assert(r.ops() =~= Seq::<OpV>::empty());
        }
        r
    }

    /// Hands out the next widget identifier.
    fn alloc_id(&mut self) -> (id: u64)
        requires
            old(self).wf(),
        ensures
            final(self).wf(),
            id == old(self).next_id(),
            final(self).next_id() == sat_inc(id),
            final(self).registry() == old(self).registry(),
            final(self).ops() == old(self).ops(),
    {
        let id = self.next_widget_id;
        if self.next_widget_id < u64::MAX {
            self.next_widget_id = self.next_widget_id + 1;
        }
        id
    }

    /// Queues one toolkit action.
    fn push_op(&mut self, op: GtkOp)
        requires
            old(self).wf(),
        ensures
            final(self).wf(),
            final(self).ops() == old(self).ops().push(op@),
            final(self).registry() == old(self).registry(),
            final(self).next_id() == old(self).next_id(),
    {
        self.pending_ops.push(op);
        proof {
            assert(self.ops() =~= old(self).ops().push(op@));
        }
    }

    /// Hands the queued toolkit actions to the caller and clears the queue.
    pub fn take_ops(&mut self) -> (ops: Vec<GtkOp>)
        requires
            old(self).wf(),
        ensures
            final(self).wf(),
            ops@.map_values(|o: GtkOp| o@) == old(self).ops(),
            final(self).ops() == Seq::<OpV>::empty(),
            final(self).registry() == old(self).registry(),
            final(self).next_id() == old(self).next_id(),
    {
        let mut taken: Vec<GtkOp> = Vec::new();
        core::mem::swap(&mut taken, &mut self.pending_ops);
        proof {
            assert(self.ops() =~= Seq::<OpV>::empty());
        }
        taken
    }

    /// Whether a resource is registered at the given path.
    pub fn has_widget(&self, path: &Path) -> (b: bool)
        requires
            self.wf(),
        ensures
            b == self.registry().dom().contains(path@),
    {
        self.container_widget_by_path.get(path).is_some()
    }

    /// The number of registered resources.
    pub fn widget_count(&self) -> (n: usize)
        requires
            self.wf(),
        ensures
            n == self.registry().dom().len(),
    {
        self.container_widget_by_path.len()
    }

    /// The handle registered at a path that the engine's ordering guarantees
    /// to be live.
    fn get_widget(&self, path: &Path) -> (w: &ContainerWidget)
        requires
            self.wf(),
            self.registry().dom().contains(path@),
        ensures
            *w == self.registry()[path@],
    {
        match self.container_widget_by_path.get(path) {
            Some(w) => w,
            None => unreached(),
        }
    }

    /// The handle registered for the parent of a non-root path.
    fn get_parent_widget(&self, path: &Path) -> (w: &ContainerWidget)
        requires
            self.wf(),
            path@.len() > 0,
            self.registry().dom().contains(path@.drop_last()),
        ensures
            *w == self.registry()[path@.drop_last()],
    {
        let parent = match path.parent() {
            Ok(p) => p,
            Err(_) => unreached(),
        };
        match self.container_widget_by_path.get(&parent) {
            Some(w) => w,
            None => unreached(),
        }
    }

    /// Drops the registry entry at a path, if any.
    fn remove_widget(&mut self, path: &Path)
        requires
            old(self).wf(),
        ensures
            final(self).wf(),
            final(self).registry() == old(self).registry().remove(path@),
            final(self).ops() == old(self).ops(),
            final(self).next_id() == old(self).next_id(),
    {
        self.container_widget_by_path.remove(path);
    }

    /// Registers a freshly created widget at a path: attaches it to the
    /// parent's widget where that widget is a container, then records the
    /// entry. The parent entry must exist and the path must be fresh; the
    /// engine's event ordering guarantees both.
    fn add_widget(&mut self, path: &Path, w: ContainerWidget)
        requires
            old(self).wf(),
            path@.len() > 0,
            old(self).registry().dom().contains(path@.drop_last()),
            !old(self).registry().dom().contains(path@),
        ensures
            final(self).wf(),
            final(self).registry() == old(self).registry().insert(path@, w),
            final(self).ops() == old(self).ops() + attach_seq(
                old(self).registry()[path@.drop_last()],
                w.spec_widget_id(),
            ),
            final(self).next_id() == old(self).next_id(),
    {
        let attach = {
            let parent = self.get_parent_widget(path);
            match parent {
                ContainerWidget::Container(p) => Some(*p),
                _ => None,
            }
        };
        match attach {
            Some(p) => {
                let child = w.into_widget();
                self.push_op(GtkOp::Attach { parent: p, child });
            },
            None => (),
        }
        self.container_widget_by_path.insert(path.clone(), w);
        proof {
            assert(self.ops() =~= old(self).ops() + attach_seq(
                old(self).registry()[path@.drop_last()],
                w.spec_widget_id(),
            ));
        }
    }
}

/// The binding's consumer: materializes classified change events into
/// queued toolkit actions while keeping the path-keyed registry in sync.
#[derive(Debug)]
pub struct Differ;

impl Differ {
    /// One node of an added subtree, pre-order: create its widget, attach it
    /// under its parent's handle, and register it. The context root and text
    /// fragments produce no resource.
    pub fn diff_added(&mut self, ctx: &mut InnerContext, path: &Path, curr: &AllNodes)
        requires
            old(ctx).wf(),
            spec_produces_resource(curr@.kind) ==> !old(ctx).registry().dom().contains(path@),
            spec_kind_in_group(curr@.kind, Group::Widget) ==> path@.len() > 0 && old(
                ctx,
            ).registry().dom().contains(path@.drop_last()),
        ensures
            final(ctx).wf(),
            final(ctx).registry() == if spec_produces_resource(curr@.kind) {
                old(ctx).registry().insert(path@, widget_for(curr@.kind, old(ctx).next_id()))
            } else {
                old(ctx).registry()
            },
            final(ctx).ops() == old(ctx).ops() + added_ops(
                curr@,
                (if path@.len() > 0 && old(ctx).registry().dom().contains(path@.drop_last()) {
                    Some(old(ctx).registry()[path@.drop_last()])
                } else {
                    None
                }),
                old(ctx).next_id(),
            ),
            final(ctx).next_id() == if spec_produces_resource(curr@.kind) {
                sat_inc(old(ctx).next_id())
            } else {
                old(ctx).next_id()
            },
    {
        match curr {
            AllNodes::RootContext(_) => {
                proof {
                    assert(ctx.ops() =~= old(ctx).ops() + Seq::<OpV>::empty());
                }
            },
            AllNodes::Text(_) => {
                proof {
                    assert(ctx.ops() =~= old(ctx).ops() + Seq::<OpV>::empty());
                }
            },
            AllNodes::Window(w) => {
                let id = ctx.alloc_id();
                ctx.push_op(GtkOp::CreateWindow { id, title: w.params.title.clone() });
                ctx.container_widget_by_path.insert(path.clone(), ContainerWidget::Container(id));
                proof {
                    assert(ctx.ops() =~= old(ctx).ops() + seq![
                        OpV::CreateWindow { id, title: curr@.params->title },
                    ]);
                }
            },
            AllNodes::Button(_) => {
                let id = ctx.alloc_id();
                ctx.push_op(GtkOp::CreateButton { id });
                ctx.add_widget(path, ContainerWidget::Container(id));
            },
            AllNodes::Label(l) => {
                let id = ctx.alloc_id();
                let text = label_text_exec(&l.children);
                ctx.push_op(GtkOp::CreateLabel { id, text });
                ctx.add_widget(path, ContainerWidget::Label(id));
            },
        }
    }

    /// One node of an added subtree, post-order: the deferred on-exit hook.
    /// A window is revealed only once its subtree is populated.
    pub fn diff_added_exit(&mut self, ctx: &mut InnerContext, path: &Path, curr: &AllNodes)
        requires
            old(ctx).wf(),
            curr@.kind == NodeKind::Window ==> old(ctx).registry().dom().contains(path@),
        ensures
            final(ctx).wf(),
            final(ctx).registry() == old(ctx).registry(),
            final(ctx).next_id() == old(ctx).next_id(),
            final(ctx).ops() == old(ctx).ops() + if curr@.kind == NodeKind::Window {
                seq![OpV::ShowAll { id: old(ctx).registry()[path@].spec_widget_id() }]
            } else {
                Seq::<OpV>::empty()
            },
    {
        match curr {
            AllNodes::Window(_) => {
                let w = *ctx.get_widget(path);
                ctx.push_op(GtkOp::ShowAll { id: w.into_widget() });
            },
            _ => {
                proof {
                    assert(ctx.ops() =~= old(ctx).ops() + Seq::<OpV>::empty());
                }
            },
        }
    }

    /// The root of a removed subtree: destroy its widget as a unit, then
    /// purge the registry entries of every node of the subtree. A removed
    /// text fragment has no widget and no entries.
    pub fn diff_removed(&mut self, ctx: &mut InnerContext, path: &Path, last: &AllNodes)
        requires
            old(ctx).wf(),
            last@.kind == NodeKind::Text ==> !old(ctx).registry().dom().contains(path@),
            last@.kind != NodeKind::Text ==> old(ctx).registry().dom().contains(path@),
        ensures
            final(ctx).wf(),
            final(ctx).registry() == old(ctx).registry().remove_keys(node_paths(last@, path@)),
            final(ctx).next_id() == old(ctx).next_id(),
            final(ctx).ops() == old(ctx).ops() + if last@.kind == NodeKind::Text {
                Seq::<OpV>::empty()
            } else {
                seq![OpV::Destroy { id: old(ctx).registry()[path@].spec_widget_id() }]
            },
    {
        match last {
            AllNodes::Text(_) => {
                proof {
                    assert(node_paths(last@, path@) =~= set![path@]);
                    assert(ctx.registry() =~= old(ctx).registry().remove_keys(
                        node_paths(last@, path@),
                    ));
                    assert(ctx.ops() =~= old(ctx).ops() + Seq::<OpV>::empty());
                }
            },
            _ => {
                let w = *ctx.get_widget(path);
                ctx.push_op(GtkOp::Destroy { id: w.into_widget() });
                purge_subtree(ctx, path, last);
                proof {
                    assert(ctx.ops() =~= old(ctx).ops() + seq![
                        OpV::Destroy { id: old(ctx).registry()[path@].spec_widget_id() },
                    ]);
                }
            },
        }
    }

    /// A matched node whose parameter records differ. This binding updates
    /// no widget property after creation, so the event has no effect.
    pub fn diff_params_changed(
        &mut self,
        ctx: &mut InnerContext,
        path: &Path,
        curr: &AllNodes,
        last: &AllNodes,
    )
        requires
            old(ctx).wf(),
        ensures
            *final(ctx) == *old(ctx),
    {
    }

    /// A parent whose matched children changed their relative order. This
    /// binding keeps attachment order as created, so the event has no
    /// effect.
    pub fn diff_reordered(
        &mut self,
        ctx: &mut InnerContext,
        path: &Path,
        moves: &Vec<(usize, usize)>,
    )
        requires
            old(ctx).wf(),
        ensures
            *final(ctx) == *old(ctx),
    {
    }
}

/// One live reconciliation session: the consumer's private state together
/// with the most recently retained snapshot.
pub struct Context {
    diff_ctx: InnerContext,
    last: AllNodes,
}

impl Context {
    /// The session's resource registry.
    pub closed spec fn registry(&self) -> Map<Seq<StepV>, registry::ContainerWidget> {
        self.diff_ctx.registry()
    }

    /// The retained snapshot the next update will be compared against.
    pub closed spec fn last_view(&self) -> NodeV {
        self.last@
    }

    /// The queued toolkit actions.
    pub closed spec fn ops(&self) -> Seq<OpV> {
        self.diff_ctx.ops()
    }

    /// The session invariant: the registry holds exactly one entry per
    /// resource-producing node path of the retained snapshot.
    pub closed spec fn inv(&self) -> bool {
        &&& self.diff_ctx.wf()
        &&& crate::nodes::wf_node(self.last@)
        &&& crate::nodes::bindable(self.last@)
        &&& self.last@.kind == NodeKind::RootContext
        &&& forall|q: Seq<StepV>| #[trigger]
            self.diff_ctx.registry().dom().contains(q) <==> node_res_paths_of(
                self.last@,
            ).contains(q)
    }

    /// Creates a session from the initial snapshot: every node of it reports
    /// as added against the empty tree, and the snapshot is retained.
    pub fn new(curr: RootContext) -> (r: Context)
        requires
            crate::nodes::wf_node(node_view(AllNodes::RootContext(curr))),
            crate::nodes::bindable(node_view(AllNodes::RootContext(curr))),
        ensures
            r.inv(),
            r.last_view() == node_view(AllNodes::RootContext(curr)),
            forall|q: Seq<StepV>| #[trigger]
                r.registry().dom().contains(q) <==> node_res_paths_of(r.last_view()).contains(q),
    {
        let mut curr_nodes = AllNodes::RootContext(curr);
        AllNodes::expand_widgets(&mut curr_nodes, None);
        let mut inner = InnerContext::new();
        let mut differ = Differ;
        let root = Path::root();
        proof {
            assert forall|q: Seq<StepV>| crate::diff::is_prefix(root@, q) implies !inner.registry(
            ).dom().contains(q) by {}
        }
        crate::engine::add_subtree(&mut inner, &mut differ, &root, &curr_nodes);
        let r = Context { diff_ctx: inner, last: curr_nodes };
        proof {
            assert forall|q: Seq<StepV>| #[trigger]
                r.registry().dom().contains(q) <==> node_res_paths_of(r.last_view()).contains(
                    q,
                ) by {}
        }
        r
    }

    /// Reconciles a freshly authored snapshot against the retained one,
    /// driving the consumer, and retains the new snapshot. Afterwards the
    /// registry keys are exactly the new snapshot's resource paths, and
    /// every key kept across the update keeps its handle.
    pub fn update(&mut self, curr: RootContext)
        requires
            old(self).inv(),
            crate::nodes::wf_node(node_view(AllNodes::RootContext(curr))),
            crate::nodes::bindable(node_view(AllNodes::RootContext(curr))),
        ensures
            final(self).inv(),
            final(self).last_view() == node_view(AllNodes::RootContext(curr)),
            forall|q: Seq<StepV>| #[trigger]
                final(self).registry().dom().contains(q) <==> node_res_paths_of(
                    final(self).last_view(),
                ).contains(q),
            forall|q: Seq<StepV>|
                old(self).registry().dom().contains(q)
                    && #[trigger] final(self).registry().dom().contains(q)
                    ==> final(self).registry()[q] == old(self).registry()[q],
    {
        let mut curr_nodes = AllNodes::RootContext(curr);
        AllNodes::expand_widgets(&mut curr_nodes, Some(&self.last));
        let mut differ = Differ;
        let root = Path::root();
        proof {
            assert(res_paths(self.last@, root@) == node_res_paths_of(self.last@));
            assert forall|q: Seq<StepV>| #[trigger]
                self.diff_ctx.registry().dom().contains(q) <==> res_paths(
                    self.last@,
                    root@,
                ).contains(q) by {}
        }
        crate::engine::diff(&curr_nodes, &self.last, &root, &mut self.diff_ctx, &mut differ);
        self.last = curr_nodes;
        proof {
            assert forall|q: Seq<StepV>| #[trigger]
                self.registry().dom().contains(q) <==> node_res_paths_of(
                    self.last_view(),
                ).contains(q) by {}
        }
    }

    /// Whether a resource is registered at the given path.
    pub fn has_widget(&self, path: &Path) -> (b: bool)
        requires
            self.inv(),
        ensures
            b == self.registry().dom().contains(path@),
    {
        self.diff_ctx.has_widget(path)
    }

    /// The number of registered resources.
    pub fn widget_count(&self) -> (n: usize)
        requires
            self.inv(),
        ensures
            n == self.registry().dom().len(),
    {
        self.diff_ctx.widget_count()
    }

    /// Hands the queued toolkit actions to the caller and clears the queue.
    pub fn take_ops(&mut self) -> (ops: Vec<GtkOp>)
        requires
            old(self).inv(),
        ensures
            final(self).inv(),
            ops@.map_values(|o: GtkOp| o@) == old(self).ops(),
            final(self).ops() == Seq::<OpV>::empty(),
            final(self).registry() == old(self).registry(),
            final(self).last_view() == old(self).last_view(),
    {
        self.diff_ctx.take_ops()
    }
}

/// The registry key set a snapshot calls for: the resource paths of the
/// whole tree, rooted at the empty path.
pub open spec fn node_res_paths_of(v: NodeV) -> Set<Seq<StepV>> {
    res_paths(v, Seq::empty())
}

/// Idempotent re-convergence: any two sessions that retain the same
/// snapshot hold the same registry key set, whatever their histories. In
/// particular, updating with a tree, away from it and back again leaves the
/// key set a fresh session on that tree would hold, though the handles may
/// differ.
pub proof fn lemma_reconvergence(a: Context, b: Context)
    requires
        a.inv(),
        b.inv(),
        a.last_view() == b.last_view(),
    ensures
        a.registry().dom() == b.registry().dom(),
{
    assert(a.registry().dom() =~= b.registry().dom());
}

/// Drops the registry entries of every node of the subtree `node` rooted at
/// `path`: the engine-guaranteed cleanup that visits each descendant path
/// exactly once after the subtree's widget was destroyed as a unit.
fn purge_subtree(ctx: &mut InnerContext, path: &Path, node: &AllNodes)
    requires
        old(ctx).wf(),
    ensures
        final(ctx).wf(),
        final(ctx).registry() == old(ctx).registry().remove_keys(node_paths(node@, path@)),
        final(ctx).ops() == old(ctx).ops(),
        final(ctx).next_id() == old(ctx).next_id(),
    decreases *node,
{
    ctx.remove_widget(path);
    match node {
        AllNodes::RootContext(n) => {
            purge_children(ctx, path, &n.children);
            proof {
                crate::nodes::lemma_kids_view(n.children@);
                assert(node@.children == kids_view(n.children@));
                assert(node_paths(node@, path@) == set![path@] + diff::node_paths_upto(
                    node@.children,
                    path@,
                    node@.children.len() as int,
                ));
                assert(ctx.registry() =~= old(ctx).registry().remove_keys(
                    node_paths(node@, path@),
                ));
            }
        },
        AllNodes::Window(n) => {
            purge_children(ctx, path, &n.children);
            proof {
                crate::nodes::lemma_kids_view(n.children@);
                assert(node@.children == kids_view(n.children@));
                assert(node_paths(node@, path@) == set![path@] + diff::node_paths_upto(
                    node@.children,
                    path@,
                    node@.children.len() as int,
                ));
                assert(ctx.registry() =~= old(ctx).registry().remove_keys(
                    node_paths(node@, path@),
                ));
            }
        },
        AllNodes::Button(n) => {
            purge_children(ctx, path, &n.children);
            proof {
                crate::nodes::lemma_kids_view(n.children@);
                assert(node@.children == kids_view(n.children@));
                assert(node_paths(node@, path@) == set![path@] + diff::node_paths_upto(
                    node@.children,
                    path@,
                    node@.children.len() as int,
                ));
                assert(ctx.registry() =~= old(ctx).registry().remove_keys(
                    node_paths(node@, path@),
                ));
            }
        },
        AllNodes::Label(n) => {
            purge_children(ctx, path, &n.children);
            proof {
                crate::nodes::lemma_kids_view(n.children@);
                assert(node@.children == kids_view(n.children@));
                assert(node_paths(node@, path@) == set![path@] + diff::node_paths_upto(
                    node@.children,
                    path@,
                    node@.children.len() as int,
                ));
                assert(ctx.registry() =~= old(ctx).registry().remove_keys(
                    node_paths(node@, path@),
                ));
            }
        },
        AllNodes::Text(_) => {
            proof {
                assert(node@.children.len() == 0);
                assert(ctx.registry() =~= old(ctx).registry().remove_keys(
                    node_paths(node@, path@),
                ));
            }
        },
    }
}

/// Cleanup of the child subtrees during a removal cascade: the parent's own
/// entry is already gone.
fn purge_children(ctx: &mut InnerContext, path: &Path, children: &Vec<(Key, AllNodes)>)
    requires
        old(ctx).wf(),
    ensures
        final(ctx).wf(),
        final(ctx).registry() == old(ctx).registry().remove_keys(
            diff::node_paths_upto(kids_view(children@), path@, children@.len() as int),
        ),
        final(ctx).ops() == old(ctx).ops(),
        final(ctx).next_id() == old(ctx).next_id(),
    decreases children@,
{
    proof {
        crate::nodes::lemma_kids_view(children@);
    }
    let ghost cs = kids_view(children@);
    let mut i: usize = 0;
    while i < children.len()
        invariant
            old(ctx).wf(),
            ctx.wf(),
            i <= children@.len(),
            cs == kids_view(children@),
            cs.len() == children@.len(),
            forall|j: int|
                0 <= j < cs.len() ==> #[trigger] cs[j] == (
                    children@[j].0@,
                    crate::nodes::node_view(children@[j].1),
                ),
            ctx.registry() == old(ctx).registry().remove_keys(
                diff::node_paths_upto(cs, path@, i as int),
            ),
            ctx.ops() == old(ctx).ops(),
            ctx.next_id() == old(ctx).next_id(),
        decreases children@.len() - i,
    {
        let child = &children[i];
        let cp = path.push_step(child.1.kind(), &child.0);
        let ghost pre = ctx.registry();
        purge_subtree(ctx, &cp, &child.1);
        proof {
            assert(cp@ == path@.push(crate::nodes::step_of(cs[i as int])));
            assert(diff::node_paths_upto(cs, path@, i + 1) =~= diff::node_paths_upto(
                cs,
                path@,
                i as int,
            ) + node_paths(cs[i as int].1, path@.push(crate::nodes::step_of(cs[i as int]))));
            assert(ctx.registry() =~= old(ctx).registry().remove_keys(
                diff::node_paths_upto(cs, path@, i + 1),
            ));
        }
        i = i + 1;
    }
}

} // verus!
