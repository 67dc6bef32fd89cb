use vstd::prelude::*;

use crate::diff::{is_prefix, node_paths, res_paths, res_paths_upto, Path, StepV};
use crate::nodes::{
    bindable, find_step, kids_view, lemma_kids_view, node_view, spec_kind_in_group,
    spec_produces_resource, step_of, wf_children, wf_node, AllNodes, Group, Key, KeyV, NodeKind,
    NodeV,
};
use crate::{Differ, InnerContext};

verus! {

/// The resource paths of the `k`-th child's subtree of `cs`, rooted under
/// `p`.
pub open spec fn region_of(cs: Seq<(KeyV, NodeV)>, p: Seq<StepV>, k: int) -> Set<Seq<StepV>> {
    res_paths(cs[k].1, p.push(step_of(cs[k])))
}

/// The resource paths of the old subtrees that the first `i` new children
/// replace: the regions of the old children matched by a new child.
pub open spec fn matched_res_upto(
    cs: Seq<(KeyV, NodeV)>,
    ls: Seq<(KeyV, NodeV)>,
    p: Seq<StepV>,
    i: int,
) -> Set<Seq<StepV>>
    decreases i,
{
    if i <= 0 || i > cs.len() {
        Set::empty()
    } else {
        matched_res_upto(cs, ls, p, i - 1) + match find_step(ls, step_of(cs[i - 1])) {
            Some(j) => res_paths(ls[j].1, p.push(step_of(cs[i - 1]))),
            None => Set::empty(),
        }
    }
}

/// The resource paths of the first `j` old children that no new child
/// matches: the regions the removal cascade clears.
pub open spec fn removed_res_upto(
    ls: Seq<(KeyV, NodeV)>,
    cs: Seq<(KeyV, NodeV)>,
    p: Seq<StepV>,
    j: int,
) -> Set<Seq<StepV>>
    decreases j,
{
    if j <= 0 || j > ls.len() {
        Set::empty()
    } else {
        removed_res_upto(ls, cs, p, j - 1) + if find_step(cs, step_of(ls[j - 1])) is None {
            region_of(ls, p, j - 1)
        } else {
            Set::empty()
        }
    }
}

/// A path prefixed by `p.push(s)` lies strictly under `p` and continues it
/// with the step `s`.
pub proof fn lemma_prefix_step(p: Seq<StepV>, s: StepV, q: Seq<StepV>)
    requires
        is_prefix(p.push(s), q),
    ensures
        is_prefix(p, q),
        q.len() > p.len(),
        q[p.len() as int] == s,
{
    assert(q.subrange(0, p.len() as int + 1)[p.len() as int] == s);
    assert(q.subrange(0, p.len() as int) =~= p) by {
        assert forall|x: int| 0 <= x < p.len() implies q.subrange(0, p.len() as int)[x] == p[x] by {
            assert(q.subrange(0, p.len() as int + 1)[x] == p.push(s)[x]);
        }
    }
}

/// Resource paths of a subtree rooted at `p` are prefixed by `p`; the root
/// path itself belongs exactly when the root kind produces a resource.
pub proof fn lemma_res_paths_prefix(v: NodeV, p: Seq<StepV>)
    ensures
        forall|q: Seq<StepV>| #[trigger] res_paths(v, p).contains(q) ==> is_prefix(p, q),
        res_paths(v, p).contains(p) <==> spec_produces_resource(v.kind),
    decreases v, 1int,
{
    lemma_res_upto_strict(v.children, p, v.children.len() as int);
    assert(is_prefix(p, p)) by {
        assert(p.subrange(0, p.len() as int) =~= p);
    }
    assert(!res_paths_upto(v.children, p, v.children.len() as int).contains(p));
}

/// Resource paths of child subtrees lie strictly under the parent path.
pub proof fn lemma_res_upto_strict(cs: Seq<(KeyV, NodeV)>, p: Seq<StepV>, i: int)
    ensures
        forall|q: Seq<StepV>| #[trigger]
            res_paths_upto(cs, p, i).contains(q) ==> is_prefix(p, q) && q.len() > p.len(),
    decreases cs, i,
{
    if 0 < i <= cs.len() {
        lemma_res_upto_strict(cs, p, i - 1);
        lemma_res_paths_prefix(cs[i - 1].1, p.push(step_of(cs[i - 1])));
        assert forall|q: Seq<StepV>| #[trigger]
            res_paths_upto(cs, p, i).contains(q) implies is_prefix(p, q) && q.len() > p.len() by {
            if res_paths(cs[i - 1].1, p.push(step_of(cs[i - 1]))).contains(q) {
                lemma_prefix_step(p, step_of(cs[i - 1]), q);
            } else {
                assert(res_paths_upto(cs, p, i - 1).contains(q));
            }
        }
    }
}

/// Node paths of a subtree rooted at `p` are prefixed by `p`.
pub proof fn lemma_node_paths_prefix(v: NodeV, p: Seq<StepV>)
    ensures
        forall|q: Seq<StepV>| #[trigger] node_paths(v, p).contains(q) ==> is_prefix(p, q),
    decreases v, 1int,
{
    lemma_node_upto_strict(v.children, p, v.children.len() as int);
    assert(is_prefix(p, p)) by {
        assert(p.subrange(0, p.len() as int) =~= p);
    }
    assert forall|q: Seq<StepV>| #[trigger] node_paths(v, p).contains(q) implies is_prefix(
        p,
        q,
    ) by {
        if q != p {
            assert(crate::diff::node_paths_upto(v.children, p, v.children.len() as int).contains(
                q,
            ));
        }
    }
}

/// Node paths of child subtrees lie strictly under the parent path.
pub proof fn lemma_node_upto_strict(cs: Seq<(KeyV, NodeV)>, p: Seq<StepV>, i: int)
    ensures
        forall|q: Seq<StepV>| #[trigger]
            crate::diff::node_paths_upto(cs, p, i).contains(q) ==> is_prefix(p, q) && q.len()
                > p.len(),
    decreases cs, i,
{
    if 0 < i <= cs.len() {
        lemma_node_upto_strict(cs, p, i - 1);
        lemma_node_paths_prefix(cs[i - 1].1, p.push(step_of(cs[i - 1])));
        assert forall|q: Seq<StepV>| #[trigger]
            crate::diff::node_paths_upto(cs, p, i).contains(q) implies is_prefix(p, q) && q.len()
            > p.len() by {
            if node_paths(cs[i - 1].1, p.push(step_of(cs[i - 1]))).contains(q) {
                lemma_prefix_step(p, step_of(cs[i - 1]), q);
            } else {
                assert(crate::diff::node_paths_upto(cs, p, i - 1).contains(q));
            }
        }
    }
}

/// What a successful or failing sibling lookup means.
pub proof fn lemma_find_step_from(cs: Seq<(KeyV, NodeV)>, s: StepV, j: int)
    requires
        0 <= j,
    ensures
        match find_step(cs, s) {
            Some(k) => 0 <= k < cs.len() && step_of(cs[k]) == s,
            None => forall|k: int| 0 <= k < cs.len() ==> step_of(#[trigger] cs[k]) != s,
        },
    decreases cs.len(),
{
    lemma_find_aux(cs, s, 0);
}

/// What the lookup from position `j` onward means.
proof fn lemma_find_aux(cs: Seq<(KeyV, NodeV)>, s: StepV, j: int)
    requires
        0 <= j,
    ensures
        match crate::nodes::find_step_from(cs, s, j) {
            Some(k) => j <= k < cs.len() && step_of(cs[k]) == s,
            None => forall|k: int| j <= k < cs.len() ==> step_of(#[trigger] cs[k]) != s,
        },
    decreases cs.len() - j,
{
    if j < cs.len() {
        if step_of(cs[j]) != s {
            lemma_find_aux(cs, s, j + 1);
        }
    }
}

/// Membership in the union of the first `i` child regions.
pub proof fn lemma_res_upto_decomp(cs: Seq<(KeyV, NodeV)>, p: Seq<StepV>, i: int)
    requires
        0 <= i <= cs.len(),
    ensures
        forall|q: Seq<StepV>| #[trigger]
            res_paths_upto(cs, p, i).contains(q) <==> exists|k: int|
                0 <= k < i && #[trigger] region_of(cs, p, k).contains(q),
    decreases i,
{
    if i > 0 {
        lemma_res_upto_decomp(cs, p, i - 1);
        assert forall|q: Seq<StepV>| #[trigger]
            res_paths_upto(cs, p, i).contains(q) implies exists|k: int|
            0 <= k < i && #[trigger] region_of(cs, p, k).contains(q) by {
            if res_paths_upto(cs, p, i - 1).contains(q) {
                let k = choose|k: int| 0 <= k < i - 1 && #[trigger] region_of(cs, p, k).contains(q);
                assert(region_of(cs, p, k).contains(q));
            } else {
                assert(region_of(cs, p, i - 1).contains(q));
            }
        }
        assert forall|q: Seq<StepV>|
            (exists|k: int| 0 <= k < i && #[trigger] region_of(cs, p, k).contains(q)) implies #[trigger]
            res_paths_upto(cs, p, i).contains(q) by {
            let k = choose|k: int| 0 <= k < i && #[trigger] region_of(cs, p, k).contains(q);
            if k < i - 1 {
                assert(res_paths_upto(cs, p, i - 1).contains(q));
            }
        }
    }
}

/// Whether `q` lies in the old region replaced by the `k`-th new child.
pub open spec fn in_matched_region(
    cs: Seq<(KeyV, NodeV)>,
    ls: Seq<(KeyV, NodeV)>,
    p: Seq<StepV>,
    k: int,
    q: Seq<StepV>,
) -> bool {
    &&& 0 <= k < cs.len()
    &&& match find_step(ls, step_of(cs[k])) {
        Some(j) => res_paths(ls[j].1, p.push(step_of(cs[k]))).contains(q),
        None => false,
    }
}

/// Whether `q` lies in the region of the `k`-th old child, which no new
/// child matches.
pub open spec fn in_removed_region(
    ls: Seq<(KeyV, NodeV)>,
    cs: Seq<(KeyV, NodeV)>,
    p: Seq<StepV>,
    k: int,
    q: Seq<StepV>,
) -> bool {
    &&& 0 <= k < ls.len()
    &&& find_step(cs, step_of(ls[k])) is None
    &&& region_of(ls, p, k).contains(q)
}

/// Membership in the union of the replaced old regions.
pub proof fn lemma_matched_decomp(
    cs: Seq<(KeyV, NodeV)>,
    ls: Seq<(KeyV, NodeV)>,
    p: Seq<StepV>,
    i: int,
)
    requires
        0 <= i <= cs.len(),
    ensures
        forall|q: Seq<StepV>| #[trigger]
            matched_res_upto(cs, ls, p, i).contains(q) <==> exists|k: int|
                k < i && #[trigger] in_matched_region(cs, ls, p, k, q),
    decreases i,
{
    if i > 0 {
        lemma_matched_decomp(cs, ls, p, i - 1);
        assert forall|q: Seq<StepV>| #[trigger]
            matched_res_upto(cs, ls, p, i).contains(q) implies exists|k: int|
            k < i && #[trigger] in_matched_region(cs, ls, p, k, q) by {
            if matched_res_upto(cs, ls, p, i - 1).contains(q) {
                let k = choose|k: int| k < i - 1 && #[trigger] in_matched_region(cs, ls, p, k, q);
                assert(in_matched_region(cs, ls, p, k, q));
            } else {
                assert(in_matched_region(cs, ls, p, i - 1, q));
            }
        }
        assert forall|q: Seq<StepV>|
            (exists|k: int| k < i && #[trigger] in_matched_region(cs, ls, p, k, q)) implies #[trigger]
            matched_res_upto(cs, ls, p, i).contains(q) by {
            let k = choose|k: int| k < i && #[trigger] in_matched_region(cs, ls, p, k, q);
            if k < i - 1 {
                assert(matched_res_upto(cs, ls, p, i - 1).contains(q));
            }
        }
    }
}

/// Membership in the union of the removed old regions.
pub proof fn lemma_removed_decomp(
    ls: Seq<(KeyV, NodeV)>,
    cs: Seq<(KeyV, NodeV)>,
    p: Seq<StepV>,
    j: int,
)
    requires
        0 <= j <= ls.len(),
    ensures
        forall|q: Seq<StepV>| #[trigger]
            removed_res_upto(ls, cs, p, j).contains(q) <==> exists|k: int|
                k < j && #[trigger] in_removed_region(ls, cs, p, k, q),
    decreases j,
{
    if j > 0 {
        lemma_removed_decomp(ls, cs, p, j - 1);
        assert forall|q: Seq<StepV>| #[trigger]
            removed_res_upto(ls, cs, p, j).contains(q) implies exists|k: int|
            k < j && #[trigger] in_removed_region(ls, cs, p, k, q) by {
            if removed_res_upto(ls, cs, p, j - 1).contains(q) {
                let k = choose|k: int| k < j - 1 && #[trigger] in_removed_region(ls, cs, p, k, q);
                assert(in_removed_region(ls, cs, p, k, q));
            } else {
                assert(in_removed_region(ls, cs, p, j - 1, q));
            }
        }
        assert forall|q: Seq<StepV>|
            (exists|k: int| k < j && #[trigger] in_removed_region(ls, cs, p, k, q)) implies #[trigger]
            removed_res_upto(ls, cs, p, j).contains(q) by {
            let k = choose|k: int| k < j && #[trigger] in_removed_region(ls, cs, p, k, q);
            if k < j - 1 {
                assert(removed_res_upto(ls, cs, p, j - 1).contains(q));
            }
        }
    }
}

/// Every old resource path is either replaced by a matched new child or
/// cleared by the removal cascade.
pub proof fn lemma_old_regions_covered(
    cs: Seq<(KeyV, NodeV)>,
    ls: Seq<(KeyV, NodeV)>,
    p: Seq<StepV>,
)
    requires
        wf_children(ls),
    ensures
        forall|q: Seq<StepV>| #[trigger]
            res_paths_upto(ls, p, ls.len() as int).contains(q) ==> matched_res_upto(
                cs,
                ls,
                p,
                cs.len() as int,
            ).contains(q) || removed_res_upto(ls, cs, p, ls.len() as int).contains(q),
{
    lemma_res_upto_decomp(ls, p, ls.len() as int);
    lemma_matched_decomp(cs, ls, p, cs.len() as int);
    lemma_removed_decomp(ls, cs, p, ls.len() as int);
    assert forall|q: Seq<StepV>| #[trigger]
        res_paths_upto(ls, p, ls.len() as int).contains(q) implies matched_res_upto(
        cs,
        ls,
        p,
        cs.len() as int,
    ).contains(q) || removed_res_upto(ls, cs, p, ls.len() as int).contains(q) by {
        let k = choose|k: int| 0 <= k < ls.len() && #[trigger] region_of(ls, p, k).contains(q);
        let s = step_of(ls[k]);
        lemma_find_step_from(cs, s, 0);
        match find_step(cs, s) {
            Some(i0) => {
                lemma_find_step_from(ls, s, 0);
                let j0 = find_step(ls, s)->0;
                assert(step_of(ls[j0]) == s);
                assert(j0 == k);
                assert(in_matched_region(cs, ls, p, i0, q));
            },
            None => {
                assert(in_removed_region(ls, cs, p, k, q));
            },
        }
    }
}

/// Compares two matched snapshots of one logical node and drives the
/// consumer: the node's own parameter event first, then its new children in
/// order (added walks for new subtrees, recursive comparison for matched
/// ones), then the removed old children in order, then the parent's reorder
/// event. The registry afterwards holds exactly the resource paths of the
/// new subtree where it held those of the old one, and every entry kept
/// keeps its handle.
pub fn diff(curr: &AllNodes, last: &AllNodes, path: &Path, ctx: &mut InnerContext, differ: &mut Differ)
    requires
        old(ctx).wf(),
        wf_node(curr@),
        wf_node(last@),
        bindable(curr@),
        bindable(last@),
        curr@.kind == last@.kind,
        forall|q: Seq<StepV>|
            is_prefix(path@, q) ==> (old(ctx).registry().dom().contains(q) <==> res_paths(
                last@,
                path@,
            ).contains(q)),
    ensures
        final(ctx).wf(),
        forall|q: Seq<StepV>| #[trigger]
            final(ctx).registry().dom().contains(q) <==> ((old(ctx).registry().dom().contains(q)
                && !res_paths(last@, path@).contains(q)) || res_paths(curr@, path@).contains(q)),
        forall|q: Seq<StepV>|
            old(ctx).registry().dom().contains(q) && #[trigger] final(ctx).registry().dom().contains(q)
                ==> final(ctx).registry()[q] == old(ctx).registry()[q],
    decreases *curr, 1int,
{
    if !curr.params_eq(last) {
        differ.diff_params_changed(ctx, path, curr, last);
    }
    proof {
        assert(is_prefix(path@, path@)) by {
            assert(path@.subrange(0, path@.len() as int) =~= path@);
        }
        lemma_res_paths_prefix(curr@, path@);
        lemma_res_paths_prefix(last@, path@);
        lemma_res_upto_strict(curr@.children, path@, curr@.children.len() as int);
        lemma_res_upto_strict(last@.children, path@, last@.children.len() as int);
    }
    match curr {
        AllNodes::RootContext(n) => diff_children(ctx, differ, path, &n.children, last),
        AllNodes::Window(n) => diff_children(ctx, differ, path, &n.children, last),
        AllNodes::Button(n) => diff_children(ctx, differ, path, &n.children, last),
        AllNodes::Label(n) => diff_children(ctx, differ, path, &n.children, last),
        AllNodes::Text(_) => {
            proof {
                assert(curr@.children.len() == 0);
                assert(last@.children.len() == 0);
                assert forall|q: Seq<StepV>| #[trigger]
                    ctx.registry().dom().contains(q) <==> ((old(
                    ctx,
                ).registry().dom().contains(q) && !res_paths(last@, path@).contains(q))
                    || res_paths(curr@, path@).contains(q)) by {
                    if is_prefix(path@, q) {
                        assert(!ctx.registry().dom().contains(q) || res_paths(
                            last@,
                            path@,
                        ).contains(q));
                    }
                }
            }
        },
    }
    proof {
        match curr {
            AllNodes::Text(_) => {},
            AllNodes::RootContext(n) => {
                lemma_kids_view(n.children@);
                assert(curr@.children == kids_view(n.children@));
            },
            AllNodes::Window(n) => {
                lemma_kids_view(n.children@);
                assert(curr@.children == kids_view(n.children@));
            },
            AllNodes::Button(n) => {
                lemma_kids_view(n.children@);
                assert(curr@.children == kids_view(n.children@));
            },
            AllNodes::Label(n) => {
                lemma_kids_view(n.children@);
                assert(curr@.children == kids_view(n.children@));
            },
        }
        assert forall|q: Seq<StepV>| #[trigger]
            ctx.registry().dom().contains(q) <==> ((old(ctx).registry().dom().contains(q)
                && !res_paths(last@, path@).contains(q)) || res_paths(curr@, path@).contains(
                q,
            )) by {
            assert(res_paths(curr@, path@) == (if spec_produces_resource(curr@.kind) {
                set![path@]
            } else {
                Set::<Seq<StepV>>::empty()
            }) + res_paths_upto(curr@.children, path@, curr@.children.len() as int));
            assert(res_paths(last@, path@) == (if spec_produces_resource(last@.kind) {
                set![path@]
            } else {
                Set::<Seq<StepV>>::empty()
            }) + res_paths_upto(last@.children, path@, last@.children.len() as int));
        }
    }
}

/// The per-parent comparison of the keyed child lists: classification of
/// every new child (added or matched), then of every old child (removed),
/// then the reorder check.
fn diff_children(
    ctx: &mut InnerContext,
    differ: &mut Differ,
    path: &Path,
    curr_children: &Vec<(Key, AllNodes)>,
    last: &AllNodes,
)
    requires
        old(ctx).wf(),
        last@.kind != NodeKind::Text,
        wf_children(kids_view(curr_children@)),
        wf_children(last@.children),
        wf_node(last@),
        forall|k: int|
            0 <= k < kids_view(curr_children@).len() ==> {
                let c = (#[trigger] kids_view(curr_children@)[k]).1;
                &&& wf_node(c)
                &&& bindable(c)
                &&& (spec_kind_in_group(c.kind, Group::Widget) ==> old(
                    ctx,
                ).registry().dom().contains(path@))
            },
        forall|k: int|
            0 <= k < last@.children.len() ==> {
                let c = (#[trigger] last@.children[k]).1;
                &&& wf_node(c)
                &&& bindable(c)
                &&& c.kind != NodeKind::RootContext
            },
        forall|q: Seq<StepV>|
            is_prefix(path@, q) && q.len() > path@.len() ==> (old(
                ctx,
            ).registry().dom().contains(q) <==> res_paths_upto(
                last@.children,
                path@,
                last@.children.len() as int,
            ).contains(q)),
    ensures
        final(ctx).wf(),
        forall|q: Seq<StepV>| #[trigger]
            final(ctx).registry().dom().contains(q) <==> ((old(ctx).registry().dom().contains(q)
                && !res_paths_upto(
                last@.children,
                path@,
                last@.children.len() as int,
            ).contains(q)) || res_paths_upto(
                kids_view(curr_children@),
                path@,
                kids_view(curr_children@).len() as int,
            ).contains(q)),
        forall|q: Seq<StepV>|
            old(ctx).registry().dom().contains(q) && #[trigger] final(ctx).registry().dom().contains(q)
                ==> final(ctx).registry()[q] == old(ctx).registry()[q],
    decreases curr_children@, 0int,
{
    proof {
        lemma_kids_view(curr_children@);
    }
    let ghost cs = kids_view(curr_children@);
    let ghost ls = last@.children;
    let ghost reg0 = ctx.registry();
    let last_kids = match last.children() {
        Some(v) => v,
        None => unreached(),
    };
    proof {
        lemma_kids_view(last_kids@);
    }
    let mut i: usize = 0;
    while i < curr_children.len()
        invariant
            ctx.wf(),
            i <= curr_children@.len(),
            cs == kids_view(curr_children@),
            ls == last@.children,
            cs.len() == curr_children@.len(),
            ls.len() == last_kids@.len(),
            kids_view(last_kids@) == ls,
            reg0 == old(ctx).registry(),
            forall|j: int|
                0 <= j < cs.len() ==> #[trigger] cs[j] == (
                    curr_children@[j].0@,
                    node_view(curr_children@[j].1),
                ),
            forall|j: int|
                0 <= j < ls.len() ==> #[trigger] ls[j] == (
                    last_kids@[j].0@,
                    node_view(last_kids@[j].1),
                ),
            wf_children(cs),
            wf_children(ls),
            forall|k: int|
                0 <= k < cs.len() ==> {
                    let c = (#[trigger] cs[k]).1;
                    &&& wf_node(c)
                    &&& bindable(c)
                    &&& (spec_kind_in_group(c.kind, Group::Widget) ==> reg0.dom().contains(path@))
                },
            forall|k: int|
                0 <= k < ls.len() ==> {
                    let c = (#[trigger] ls[k]).1;
                    &&& wf_node(c)
                    &&& bindable(c)
                    &&& c.kind != NodeKind::RootContext
                },
            forall|q: Seq<StepV>|
                is_prefix(path@, q) && q.len() > path@.len() ==> (reg0.dom().contains(q)
                    <==> res_paths_upto(ls, path@, ls.len() as int).contains(q)),
            forall|q: Seq<StepV>| #[trigger]
                ctx.registry().dom().contains(q) <==> ((reg0.dom().contains(q)
                    && !matched_res_upto(cs, ls, path@, i as int).contains(q)) || res_paths_upto(
                    cs,
                    path@,
                    i as int,
                ).contains(q)),
            forall|q: Seq<StepV>|
                reg0.dom().contains(q) && #[trigger] ctx.registry().dom().contains(q)
                    ==> ctx.registry()[q] == reg0[q],
        decreases curr_children@.len() - i,
    {
        let child = &curr_children[i];
        let ckind = child.1.kind();
        let cp = path.push_step(ckind, &child.0);
        let ghost s = step_of(cs[i as int]);
        proof {
            assert(cp@ == path@.push(s));
            assert(cp@.drop_last() =~= path@);
            lemma_res_upto_decomp(cs, path@, i as int);
            lemma_matched_decomp(cs, ls, path@, i as int);
            lemma_res_upto_decomp(ls, path@, ls.len() as int);
        }
        let found = AllNodes::find_child(last_kids, ckind, &child.0);
        match found {
            Some(j) => {
                let lchild = &last_kids[j];
                proof {
                    assert(StepV { kind: ckind, key: child.0@ } == s);
                    lemma_find_step_from(ls, s, 0);
                    assert(find_step(ls, s) == Some(j as int));
                    assert(step_of(ls[j as int]) == s);
                    assert(lchild.1@ == ls[j as int].1);
                    // below cp the registry still shows the matched old
                    // subtree's resources
                    assert forall|q: Seq<StepV>| is_prefix(cp@, q) implies (
                    ctx.registry().dom().contains(q) <==> res_paths(ls[j as int].1, cp@).contains(
                        q,
                    )) by {
                        lemma_prefix_step(path@, s, q);
                        if res_paths_upto(cs, path@, i as int).contains(q) {
                            let k = choose|k: int|
                                0 <= k < i && #[trigger] region_of(cs, path@, k).contains(q);
                            lemma_res_paths_prefix(cs[k].1, path@.push(step_of(cs[k])));
                            lemma_prefix_step(path@, step_of(cs[k]), q);
                            assert(step_of(cs[k]) == s);
                        }
                        if matched_res_upto(cs, ls, path@, i as int).contains(q) {
                            let k = choose|k: int|
                                k < i && #[trigger] in_matched_region(cs, ls, path@, k, q);
                            lemma_find_step_from(ls, step_of(cs[k]), 0);
                            let jk = find_step(ls, step_of(cs[k]))->0;
                            lemma_res_paths_prefix(ls[jk].1, path@.push(step_of(cs[k])));
                            lemma_prefix_step(path@, step_of(cs[k]), q);
                            assert(step_of(cs[k]) == s);
                        }
                        if res_paths(ls[j as int].1, cp@).contains(q) {
                            lemma_res_paths_prefix(ls[j as int].1, cp@);
                            assert(region_of(ls, path@, j as int).contains(q));
                            assert(res_paths_upto(ls, path@, ls.len() as int).contains(q));
                            assert(reg0.dom().contains(q));
                        }
                        if reg0.dom().contains(q) {
                            let m = choose|m: int|
                                0 <= m < ls.len() && #[trigger] region_of(ls, path@, m).contains(
                                    q,
                                );
                            lemma_res_paths_prefix(ls[m].1, path@.push(step_of(ls[m])));
                            lemma_prefix_step(path@, step_of(ls[m]), q);
                            assert(step_of(ls[m]) == s);
                            assert(m == j as int);
                        }
                    }
                }
                let ghost pre = ctx.registry();
                diff(&child.1, &lchild.1, &cp, ctx, differ);
                proof {
                    lemma_res_upto_decomp(cs, path@, i + 1);
                    lemma_matched_decomp(cs, ls, path@, i + 1);
                    lemma_res_paths_prefix(cs[i as int].1, cp@);
                    lemma_res_paths_prefix(ls[j as int].1, cp@);
                    assert forall|q: Seq<StepV>| #[trigger]
                        ctx.registry().dom().contains(q) <==> ((reg0.dom().contains(q)
                            && !matched_res_upto(cs, ls, path@, i + 1).contains(q))
                            || res_paths_upto(cs, path@, i + 1).contains(q)) by {
                        if pre.dom().contains(q) || ctx.registry().dom().contains(q)
                            || reg0.dom().contains(q) || res_paths(cs[i as int].1, cp@).contains(q)
                            || res_paths(ls[j as int].1, cp@).contains(q) {
                            if res_paths(cs[i as int].1, cp@).contains(q) || res_paths(
                                ls[j as int].1,
                                cp@,
                            ).contains(q) {
                                lemma_prefix_step(path@, s, q);
                            }
                            if matched_res_upto(cs, ls, path@, i as int).contains(q) {
                                let k = choose|k: int|
                                    k < i && #[trigger] in_matched_region(cs, ls, path@, k, q);
                                lemma_find_step_from(ls, step_of(cs[k]), 0);
                                let jk = find_step(ls, step_of(cs[k]))->0;
                                lemma_res_paths_prefix(ls[jk].1, path@.push(step_of(cs[k])));
                                lemma_prefix_step(path@, step_of(cs[k]), q);
                            }
                            if res_paths_upto(cs, path@, i as int).contains(q) {
                                let k = choose|k: int|
                                    0 <= k < i && #[trigger] region_of(cs, path@, k).contains(q);
                                lemma_res_paths_prefix(cs[k].1, path@.push(step_of(cs[k])));
                                lemma_prefix_step(path@, step_of(cs[k]), q);
                            }
                            assert(in_matched_region(cs, ls, path@, i as int, q) <==> res_paths(
                                ls[j as int].1,
                                cp@,
                            ).contains(q));
                        }
                    }
                    assert forall|q: Seq<StepV>|
                        reg0.dom().contains(q) && #[trigger] ctx.registry().dom().contains(q)
                            implies ctx.registry()[q] == reg0[q] by {
                        if !pre.dom().contains(q) {
                            assert(matched_res_upto(cs, ls, path@, i as int).contains(q));
                            assert(res_paths(cs[i as int].1, cp@).contains(q));
                            lemma_res_paths_prefix(cs[i as int].1, cp@);
                            lemma_prefix_step(path@, s, q);
                            let k = choose|k: int|
                                k < i && #[trigger] in_matched_region(cs, ls, path@, k, q);
                            lemma_find_step_from(ls, step_of(cs[k]), 0);
                            let jk = find_step(ls, step_of(cs[k]))->0;
                            lemma_res_paths_prefix(ls[jk].1, path@.push(step_of(cs[k])));
                            lemma_prefix_step(path@, step_of(cs[k]), q);
                            assert(step_of(cs[k]) == s);
                            assert(false);
                        }
                    }
                }
            },
            None => {
                proof {
                    lemma_find_step_from(ls, s, 0);
                    // the added child's region is untouched and was never
                    // occupied
                    assert forall|q: Seq<StepV>| is_prefix(cp@, q) implies !ctx.registry(
                    ).dom().contains(q) by {
                        lemma_prefix_step(path@, s, q);
                        if res_paths_upto(cs, path@, i as int).contains(q) {
                            let k = choose|k: int|
                                0 <= k < i && #[trigger] region_of(cs, path@, k).contains(q);
                            lemma_res_paths_prefix(cs[k].1, path@.push(step_of(cs[k])));
                            lemma_prefix_step(path@, step_of(cs[k]), q);
                            assert(step_of(cs[k]) == s);
                        }
                        if reg0.dom().contains(q) {
                            let m = choose|m: int|
                                0 <= m < ls.len() && #[trigger] region_of(ls, path@, m).contains(
                                    q,
                                );
                            lemma_res_paths_prefix(ls[m].1, path@.push(step_of(ls[m])));
                            lemma_prefix_step(path@, step_of(ls[m]), q);
                            assert(step_of(ls[m]) == s);
                        }
                    }
                }
                proof {
                    assert(StepV { kind: ckind, key: child.0@ } == s);
                    assert(find_step(ls, s) is None);
                    assert(matched_res_upto(cs, ls, path@, i + 1) == matched_res_upto(
                        cs,
                        ls,
                        path@,
                        i as int,
                    ));
                    assert(reg0.dom().contains(path@) ==> ctx.registry().dom().contains(
                        path@,
                    )) by {
                        if matched_res_upto(cs, ls, path@, i as int).contains(path@) {
                            let k = choose|k: int|
                                k < i && #[trigger] in_matched_region(cs, ls, path@, k, path@);
                            lemma_find_step_from(ls, step_of(cs[k]), 0);
                            let jk = find_step(ls, step_of(cs[k]))->0;
                            lemma_res_paths_prefix(ls[jk].1, path@.push(step_of(cs[k])));
                            lemma_prefix_step(path@, step_of(cs[k]), path@);
                        }
                        if res_paths_upto(cs, path@, i as int).contains(path@) {
                            let k = choose|k: int|
                                0 <= k < i && #[trigger] region_of(cs, path@, k).contains(path@);
                            lemma_res_paths_prefix(cs[k].1, path@.push(step_of(cs[k])));
                            lemma_prefix_step(path@, step_of(cs[k]), path@);
                        }
                    }
                }
                let ghost pre = ctx.registry();
                add_subtree(ctx, differ, &cp, &child.1);
                proof {
                    lemma_res_upto_decomp(cs, path@, i + 1);
                    lemma_matched_decomp(cs, ls, path@, i + 1);
                    assert forall|q: Seq<StepV>| #[trigger]
                        ctx.registry().dom().contains(q) <==> ((reg0.dom().contains(q)
                            && !matched_res_upto(cs, ls, path@, i + 1).contains(q))
                            || res_paths_upto(cs, path@, i + 1).contains(q)) by {
                        if res_paths(cs[i as int].1, cp@).contains(q) {
                            lemma_res_paths_prefix(cs[i as int].1, cp@);
                            lemma_prefix_step(path@, s, q);
                        }
                        if matched_res_upto(cs, ls, path@, i as int).contains(q) {
                            let k = choose|k: int|
                                k < i && #[trigger] in_matched_region(cs, ls, path@, k, q);
                            assert(in_matched_region(cs, ls, path@, k, q));
                        }
                    }
                    lemma_res_upto_decomp(ls, path@, ls.len() as int);
                    assert forall|q: Seq<StepV>|
                        reg0.dom().contains(q) && #[trigger] ctx.registry().dom().contains(q)
                            implies ctx.registry()[q] == reg0[q] by {
                        if !pre.dom().contains(q) {
                            assert(res_paths(cs[i as int].1, cp@).contains(q));
                            lemma_res_paths_prefix(cs[i as int].1, cp@);
                            lemma_prefix_step(path@, s, q);
                            let m = choose|m: int|
                                0 <= m < ls.len() && #[trigger] region_of(ls, path@, m).contains(
                                    q,
                                );
                            lemma_res_paths_prefix(ls[m].1, path@.push(step_of(ls[m])));
                            lemma_prefix_step(path@, step_of(ls[m]), q);
                            assert(step_of(ls[m]) == s);
                            assert(false);
                        }
                    }
                }
            },
        }
        i = i + 1;
    }
    // removals: every old child no new child matches, in old order
    let ghost matched_full = matched_res_upto(cs, ls, path@, cs.len() as int);
    let mut j: usize = 0;
    while j < last_kids.len()
        invariant
            ctx.wf(),
            j <= last_kids@.len(),
            cs == kids_view(curr_children@),
            ls == last@.children,
            cs.len() == curr_children@.len(),
            ls.len() == last_kids@.len(),
            kids_view(last_kids@) == ls,
            reg0 == old(ctx).registry(),
            matched_full == matched_res_upto(cs, ls, path@, cs.len() as int),
            forall|k: int|
                0 <= k < cs.len() ==> #[trigger] cs[k] == (
                    curr_children@[k].0@,
                    node_view(curr_children@[k].1),
                ),
            forall|k: int|
                0 <= k < ls.len() ==> #[trigger] ls[k] == (
                    last_kids@[k].0@,
                    node_view(last_kids@[k].1),
                ),
            wf_children(cs),
            wf_children(ls),
            forall|k: int|
                0 <= k < ls.len() ==> {
                    let c = (#[trigger] ls[k]).1;
                    &&& wf_node(c)
                    &&& bindable(c)
                    &&& c.kind != NodeKind::RootContext
                },
            forall|q: Seq<StepV>|
                is_prefix(path@, q) && q.len() > path@.len() ==> (reg0.dom().contains(q)
                    <==> res_paths_upto(ls, path@, ls.len() as int).contains(q)),
            forall|q: Seq<StepV>| #[trigger]
                ctx.registry().dom().contains(q) <==> ((reg0.dom().contains(q)
                    && !matched_full.contains(q) && !removed_res_upto(
                    ls,
                    cs,
                    path@,
                    j as int,
                ).contains(q)) || res_paths_upto(cs, path@, cs.len() as int).contains(q)),
            forall|q: Seq<StepV>|
                reg0.dom().contains(q) && #[trigger] ctx.registry().dom().contains(q)
                    ==> ctx.registry()[q] == reg0[q],
        decreases last_kids@.len() - j,
    {
        let lchild = &last_kids[j];
        let lkind = lchild.1.kind();
        let ghost s = step_of(ls[j as int]);
        let found = AllNodes::find_child(curr_children, lkind, &lchild.0);
        proof {
            lemma_find_step_from(cs, s, 0);
        }
        match found {
            Some(_) => {
                proof {
                    assert(removed_res_upto(ls, cs, path@, j + 1) == removed_res_upto(
                        ls,
                        cs,
                        path@,
                        j as int,
                    ));
                }
            },
            None => {
                let lp = path.push_step(lkind, &lchild.0);
                proof {
                    assert(StepV { kind: lkind, key: lchild.0@ } == s);
                    assert(find_step(cs, s) is None);
                    assert(lp@ == path@.push(s));
                    assert(is_prefix(path@, lp@) && lp@.len() > path@.len()) by {
                        assert(lp@.subrange(0, path@.len() as int) =~= path@);
                    }
                    lemma_res_upto_decomp(cs, path@, cs.len() as int);
                    lemma_matched_decomp(cs, ls, path@, cs.len() as int);
                    lemma_removed_decomp(ls, cs, path@, j as int);
                    lemma_res_upto_decomp(ls, path@, ls.len() as int);
                    lemma_res_paths_prefix(ls[j as int].1, lp@);
                    lemma_node_paths_prefix(ls[j as int].1, lp@);
                    // the top of the removed subtree holds its entry exactly
                    // when its kind produces a resource
                    assert(region_of(ls, path@, j as int).contains(lp@) <==> spec_produces_resource(
                        ls[j as int].1.kind,
                    ));
                    assert(res_paths_upto(ls, path@, ls.len() as int).contains(lp@)
                        <==> spec_produces_resource(ls[j as int].1.kind)) by {
                        if spec_produces_resource(ls[j as int].1.kind) {
                            assert(region_of(ls, path@, j as int).contains(lp@));
                        }
                        if res_paths_upto(ls, path@, ls.len() as int).contains(lp@) {
                            let m = choose|m: int|
                                0 <= m < ls.len() && #[trigger] region_of(ls, path@, m).contains(
                                    lp@,
                                );
                            lemma_res_paths_prefix(ls[m].1, path@.push(step_of(ls[m])));
                            lemma_prefix_step(path@, step_of(ls[m]), lp@);
                            assert(step_of(ls[m]) == s);
                            assert(m == j as int);
                        }
                    }
                    assert(!matched_full.contains(lp@) && !removed_res_upto(
                        ls,
                        cs,
                        path@,
                        j as int,
                    ).contains(lp@) && !res_paths_upto(cs, path@, cs.len() as int).contains(lp@))
                        by {
                        if matched_full.contains(lp@) {
                            let k = choose|k: int|
                                k < cs.len() && #[trigger] in_matched_region(cs, ls, path@, k, lp@);
                            lemma_find_step_from(ls, step_of(cs[k]), 0);
                            let jk = find_step(ls, step_of(cs[k]))->0;
                            lemma_res_paths_prefix(ls[jk].1, path@.push(step_of(cs[k])));
                            lemma_prefix_step(path@, step_of(cs[k]), lp@);
                            assert(step_of(cs[k]) == s);
                        }
                        if removed_res_upto(ls, cs, path@, j as int).contains(lp@) {
                            let k = choose|k: int|
                                k < j && #[trigger] in_removed_region(ls, cs, path@, k, lp@);
                            lemma_res_paths_prefix(ls[k].1, path@.push(step_of(ls[k])));
                            lemma_prefix_step(path@, step_of(ls[k]), lp@);
                            assert(step_of(ls[k]) == s);
                            assert(k == j as int);
                        }
                        if res_paths_upto(cs, path@, cs.len() as int).contains(lp@) {
                            let k = choose|k: int|
                                0 <= k < cs.len() && #[trigger] region_of(cs, path@, k).contains(
                                    lp@,
                                );
                            lemma_res_paths_prefix(cs[k].1, path@.push(step_of(cs[k])));
                            lemma_prefix_step(path@, step_of(cs[k]), lp@);
                            assert(step_of(cs[k]) == s);
                        }
                    }
                    assert(lchild.1@ == ls[j as int].1);
                    assert(ls[j as int].1.kind != NodeKind::Text ==> ctx.registry().dom().contains(
                        lp@,
                    ));
                    assert(ls[j as int].1.kind == NodeKind::Text ==> !ctx.registry(
                    ).dom().contains(lp@)) by {
                        if ctx.registry().dom().contains(lp@) {
                            assert(region_of(ls, path@, j as int).contains(lp@));
                        }
                    }
                }
                let ghost pre = ctx.registry();
                differ.diff_removed(ctx, &lp, &lchild.1);
                proof {
                    lemma_removed_decomp(ls, cs, path@, j + 1);
                    lemma_removed_decomp(ls, cs, path@, j as int);
                    lemma_res_upto_decomp(ls, path@, ls.len() as int);
                    assert forall|q: Seq<StepV>| #[trigger]
                        ctx.registry().dom().contains(q) <==> ((reg0.dom().contains(q)
                            && !matched_full.contains(q) && !removed_res_upto(
                            ls,
                            cs,
                            path@,
                            j + 1,
                        ).contains(q)) || res_paths_upto(cs, path@, cs.len() as int).contains(
                            q,
                        )) by {
                        if node_paths(ls[j as int].1, lp@).contains(q) {
                            lemma_node_paths_prefix(ls[j as int].1, lp@);
                            lemma_prefix_step(path@, s, q);
                            if res_paths_upto(cs, path@, cs.len() as int).contains(q) {
                                let k = choose|k: int|
                                    0 <= k < cs.len() && #[trigger] region_of(
                                        cs,
                                        path@,
                                        k,
                                    ).contains(q);
                                lemma_res_paths_prefix(cs[k].1, path@.push(step_of(cs[k])));
                                lemma_prefix_step(path@, step_of(cs[k]), q);
                                assert(step_of(cs[k]) == s);
                            }
                            if reg0.dom().contains(q) {
                                let m = choose|m: int|
                                    0 <= m < ls.len() && #[trigger] region_of(
                                        ls,
                                        path@,
                                        m,
                                    ).contains(q);
                                lemma_res_paths_prefix(ls[m].1, path@.push(step_of(ls[m])));
                                lemma_prefix_step(path@, step_of(ls[m]), q);
                                assert(step_of(ls[m]) == s);
                                assert(m == j as int);
                                assert(in_removed_region(ls, cs, path@, j as int, q));
                            }
                        }
                        if in_removed_region(ls, cs, path@, j as int, q) {
                            lemma_res_paths_prefix(ls[j as int].1, lp@);
                            assert(node_paths(ls[j as int].1, lp@).contains(q)) by {
                                lemma_res_in_node_paths(ls[j as int].1, lp@);
                            }
                        }
                    }
                }
            },
        }
        j = j + 1;
    }
    // reorder: the (old index, new index) pairs of the matched children, in
    // new order; one event if their relative order changed
    let mut moves: Vec<(usize, usize)> = Vec::new();
    let mut ascending = true;
    let mut prev_found: Option<usize> = None;
    let mut r: usize = 0;
    while r < curr_children.len()
        invariant
            r <= curr_children@.len(),
        decreases curr_children@.len() - r,
    {
        let child = &curr_children[r];
        match AllNodes::find_child(last_kids, child.1.kind(), &child.0) {
            Some(jx) => {
                match prev_found {
                    Some(pv) => {
                        if jx <= pv {
                            ascending = false;
                        }
                    },
                    None => (),
                }
                moves.push((jx, r));
                prev_found = Some(jx);
            },
            None => (),
        }
        r = r + 1;
    }
    if !ascending {
        differ.diff_reordered(ctx, path, &moves);
    }
    proof {
        lemma_old_regions_covered(cs, ls, path@);
        lemma_matched_decomp(cs, ls, path@, cs.len() as int);
        lemma_removed_decomp(ls, cs, path@, ls.len() as int);
        lemma_res_upto_decomp(ls, path@, ls.len() as int);
        assert forall|q: Seq<StepV>| #[trigger]
            ctx.registry().dom().contains(q) <==> ((reg0.dom().contains(q) && !res_paths_upto(
                ls,
                path@,
                ls.len() as int,
            ).contains(q)) || res_paths_upto(cs, path@, cs.len() as int).contains(q)) by {
            if matched_full.contains(q) {
                let k = choose|k: int|
                    k < cs.len() && #[trigger] in_matched_region(cs, ls, path@, k, q);
                let jk = find_step(ls, step_of(cs[k]))->0;
                lemma_find_step_from(ls, step_of(cs[k]), 0);
                assert(region_of(ls, path@, jk).contains(q));
            }
            if removed_res_upto(ls, cs, path@, ls.len() as int).contains(q) {
                let k = choose|k: int|
                    k < ls.len() && #[trigger] in_removed_region(ls, cs, path@, k, q);
                assert(region_of(ls, path@, k).contains(q));
            }
        }
    }
}

/// A subtree's resource paths are node paths.
pub proof fn lemma_res_in_node_paths(v: NodeV, p: Seq<StepV>)
    ensures
        forall|q: Seq<StepV>| #[trigger] res_paths(v, p).contains(q) ==> node_paths(v, p).contains(
            q,
        ),
    decreases v, 1int,
{
    lemma_res_node_upto(v.children, p, v.children.len() as int);
    assert forall|q: Seq<StepV>| #[trigger] res_paths(v, p).contains(q) implies node_paths(
        v,
        p,
    ).contains(q) by {
        if q != p {
            assert(res_paths_upto(v.children, p, v.children.len() as int).contains(q));
            assert(crate::diff::node_paths_upto(v.children, p, v.children.len() as int).contains(
                q,
            ));
        }
    }
}

/// Child resource paths are child node paths.
proof fn lemma_res_node_upto(cs: Seq<(KeyV, NodeV)>, p: Seq<StepV>, i: int)
    ensures
        forall|q: Seq<StepV>| #[trigger]
            res_paths_upto(cs, p, i).contains(q) ==> crate::diff::node_paths_upto(
                cs,
                p,
                i,
            ).contains(q),
    decreases cs, i,
{
    if 0 < i <= cs.len() {
        lemma_res_node_upto(cs, p, i - 1);
        lemma_res_in_node_paths(cs[i - 1].1, p.push(step_of(cs[i - 1])));
        assert forall|q: Seq<StepV>| #[trigger]
            res_paths_upto(cs, p, i).contains(q) implies crate::diff::node_paths_upto(
            cs,
            p,
            i,
        ).contains(q) by {
            if !res_paths_upto(cs, p, i - 1).contains(q) {
                assert(res_paths(cs[i - 1].1, p.push(step_of(cs[i - 1]))).contains(q));
            }
        }
    }
}

/// Pre-order walk of an added subtree: the consumer sees every node through
/// `diff_added`, parent before children, and through `diff_added_exit` once
/// all of the node's descendants have been visited (children's hooks before
/// the node's own).
pub fn add_subtree(ctx: &mut InnerContext, differ: &mut Differ, path: &Path, node: &AllNodes)
    requires
        old(ctx).wf(),
        wf_node(node@),
        bindable(node@),
        spec_kind_in_group(node@.kind, Group::Widget) ==> path@.len() > 0 && old(
            ctx,
        ).registry().dom().contains(path@.drop_last()),
        forall|q: Seq<StepV>| is_prefix(path@, q) ==> !old(ctx).registry().dom().contains(q),
    ensures
        final(ctx).wf(),
        forall|q: Seq<StepV>| #[trigger]
            final(ctx).registry().dom().contains(q) <==> (old(ctx).registry().dom().contains(q)
                || res_paths(node@, path@).contains(q)),
        forall|q: Seq<StepV>| #[trigger]
            old(ctx).registry().dom().contains(q) ==> final(ctx).registry()[q] == old(
                ctx,
            ).registry()[q],
    decreases *node, 1int,
{
    proof {
        assert(is_prefix(path@, path@)) by {
            assert(path@.subrange(0, path@.len() as int) =~= path@);
        }
    }
    differ.diff_added(ctx, path, node);
    let ghost reg1 = ctx.registry();
    match node {
        AllNodes::RootContext(n) => add_children(ctx, differ, path, &n.children),
        AllNodes::Window(n) => add_children(ctx, differ, path, &n.children),
        AllNodes::Button(n) => add_children(ctx, differ, path, &n.children),
        AllNodes::Label(n) => add_children(ctx, differ, path, &n.children),
        AllNodes::Text(_) => (),
    }
    differ.diff_added_exit(ctx, path, node);
    proof {
        lemma_res_upto_strict(node@.children, path@, node@.children.len() as int);
        match node {
            AllNodes::Text(_) => {
                assert(node@.children.len() == 0);
            },
            AllNodes::RootContext(n) => {
                lemma_kids_view(n.children@);
                assert(node@.children == kids_view(n.children@));
            },
            AllNodes::Window(n) => {
                lemma_kids_view(n.children@);
                assert(node@.children == kids_view(n.children@));
            },
            AllNodes::Button(n) => {
                lemma_kids_view(n.children@);
                assert(node@.children == kids_view(n.children@));
            },
            AllNodes::Label(n) => {
                lemma_kids_view(n.children@);
                assert(node@.children == kids_view(n.children@));
            },
        }
        assert forall|q: Seq<StepV>| #[trigger]
            ctx.registry().dom().contains(q) <==> (old(ctx).registry().dom().contains(q)
                || res_paths(node@, path@).contains(q)) by {
            assert(res_paths(node@, path@) == (if spec_produces_resource(node@.kind) {
                set![path@]
            } else {
                Set::<Seq<StepV>>::empty()
            }) + res_paths_upto(node@.children, path@, node@.children.len() as int));
        }
        assert forall|q: Seq<StepV>| #[trigger]
            old(ctx).registry().dom().contains(q) implies ctx.registry()[q] == old(
            ctx,
        ).registry()[q] by {
            assert(q != path@);
            assert(reg1.dom().contains(q));
            assert(reg1[q] == old(ctx).registry()[q]);
        }
    }
}

/// Pre-order walk of the children of an added node, left to right.
fn add_children(ctx: &mut InnerContext, differ: &mut Differ, path: &Path, children: &Vec<
    (Key, AllNodes),
>)
    requires
        old(ctx).wf(),
        wf_children(kids_view(children@)),
        forall|k: int|
            0 <= k < kids_view(children@).len() ==> {
                let c = (#[trigger] kids_view(children@)[k]).1;
                &&& wf_node(c)
                &&& bindable(c)
                &&& (spec_kind_in_group(c.kind, Group::Widget) ==> old(
                    ctx,
                ).registry().dom().contains(path@))
            },
        forall|q: Seq<StepV>|
            is_prefix(path@, q) && q.len() > path@.len() ==> !old(
                ctx,
            ).registry().dom().contains(q),
    ensures
        final(ctx).wf(),
        forall|q: Seq<StepV>| #[trigger]
            final(ctx).registry().dom().contains(q) <==> (old(ctx).registry().dom().contains(q)
                || res_paths_upto(
                kids_view(children@),
                path@,
                kids_view(children@).len() as int,
            ).contains(q)),
        forall|q: Seq<StepV>| #[trigger]
            old(ctx).registry().dom().contains(q) ==> final(ctx).registry()[q] == old(
                ctx,
            ).registry()[q],
    decreases children@, 0int,
{
    proof {
        lemma_kids_view(children@);
    }
    let ghost cs = kids_view(children@);
    let ghost reg0 = ctx.registry();
    let mut i: usize = 0;
    while i < children.len()
        invariant
            ctx.wf(),
            i <= children@.len(),
            cs == kids_view(children@),
            cs.len() == children@.len(),
            reg0 == old(ctx).registry(),
            forall|j: int|
                0 <= j < cs.len() ==> #[trigger] cs[j] == (
                    children@[j].0@,
                    node_view(children@[j].1),
                ),
            wf_children(cs),
            forall|k: int|
                0 <= k < cs.len() ==> {
                    let c = (#[trigger] cs[k]).1;
                    &&& wf_node(c)
                    &&& bindable(c)
                    &&& (spec_kind_in_group(c.kind, Group::Widget) ==> reg0.dom().contains(path@))
                },
            forall|q: Seq<StepV>|
                is_prefix(path@, q) && q.len() > path@.len() ==> !reg0.dom().contains(q),
            forall|q: Seq<StepV>| #[trigger]
                ctx.registry().dom().contains(q) <==> (reg0.dom().contains(q) || res_paths_upto(
                    cs,
                    path@,
                    i as int,
                ).contains(q)),
            forall|q: Seq<StepV>| #[trigger]
                reg0.dom().contains(q) ==> ctx.registry()[q] == reg0[q],
        decreases children@.len() - i,
    {
        let child = &children[i];
        let ckind = child.1.kind();
        let cp = path.push_step(ckind, &child.0);
        proof {
            assert(cp@ == path@.push(step_of(cs[i as int])));
            lemma_res_upto_decomp(cs, path@, i as int);
            assert(cp@.drop_last() =~= path@);
            // the new child's region is untouched so far
            assert forall|q: Seq<StepV>| is_prefix(cp@, q) implies !ctx.registry().dom().contains(
                q,
            ) by {
                lemma_prefix_step(path@, step_of(cs[i as int]), q);
                if ctx.registry().dom().contains(q) {
                    if res_paths_upto(cs, path@, i as int).contains(q) {
                        let k = choose|k: int|
                            0 <= k < i && #[trigger] region_of(cs, path@, k).contains(q);
                        lemma_res_paths_prefix(cs[k].1, path@.push(step_of(cs[k])));
                        lemma_prefix_step(path@, step_of(cs[k]), q);
                        assert(step_of(cs[k]) == step_of(cs[i as int]));
                    }
                }
            }
        }
        let ghost pre = ctx.registry();
        add_subtree(ctx, differ, &cp, &child.1);
        proof {
            lemma_res_upto_decomp(cs, path@, i + 1);
            lemma_res_upto_decomp(cs, path@, i as int);
            assert(res_paths_upto(cs, path@, i + 1) == res_paths_upto(cs, path@, i as int)
                + res_paths(cs[i as int].1, cp@));
            assert forall|q: Seq<StepV>| #[trigger]
                ctx.registry().dom().contains(q) <==> (reg0.dom().contains(q) || res_paths_upto(
                    cs,
                    path@,
                    i + 1,
                ).contains(q)) by {}
            assert forall|q: Seq<StepV>| #[trigger]
                reg0.dom().contains(q) implies ctx.registry()[q] == reg0[q] by {
                assert(pre.dom().contains(q));
            }
        }
        i = i + 1;
    }
}

} // verus!
