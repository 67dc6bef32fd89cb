use vtree_gtk::diff::{diff_events, Event, Path, TreeError};
use vtree_gtk::nodes::{
    kind_in_group, produces_resource, AllNodes, Button, Group, Key, Label, NodeKind, RootContext,
    Window,
};
use vtree_gtk::params;
use vtree_gtk::registry::GtkOp;
use vtree_gtk::Context;

fn window(title: &str, children: Vec<(Key, AllNodes)>) -> AllNodes {
    AllNodes::Window(Window { params: params::Window { title: String::from(title) }, children })
}

fn button() -> AllNodes {
    AllNodes::Button(Button { children: Vec::new() })
}

fn label(children: Vec<(Key, AllNodes)>) -> AllNodes {
    AllNodes::Label(Label { children })
}

fn name(s: &str) -> Key {
    Key::Name(String::from(s))
}

fn root(children: Vec<(Key, AllNodes)>) -> RootContext {
    RootContext { children }
}

fn root_node(children: Vec<(Key, AllNodes)>) -> AllNodes {
    AllNodes::RootContext(RootContext { children })
}

fn window_path(key: &str) -> Path {
    Path::root().push_step(NodeKind::Window, &name(key))
}

fn sample_tree() -> AllNodes {
    root_node(vec![
        (
            name("w1"),
            window(
                "A",
                vec![(Key::Index(0), label(vec![(Key::Index(0), AllNodes::Text(String::from("hi")))]))],
            ),
        ),
        (name("w2"), window("B", vec![(Key::Index(0), button())])),
    ])
}

#[test]
fn self_diff_yields_no_events() {
    let t = sample_tree();
    let evs = diff_events(&t, &t);
    assert_eq!(evs.len(), 0);
}

#[test]
fn create_registers_one_entry_per_resource_path() {
    // the context root produces no resource; window and button do
    let ctx = Context::new(root(vec![(name("w1"), window("A", vec![(Key::Index(0), button())]))]));
    let wp = window_path("w1");
    let bp = wp.push_step(NodeKind::Button, &Key::Index(0));
    assert!(ctx.has_widget(&wp));
    assert!(ctx.has_widget(&bp));
    assert!(!ctx.has_widget(&Path::root()));
    assert_eq!(ctx.widget_count(), 2);
}

#[test]
fn create_queues_toolkit_actions_in_dependency_order() {
    let mut ctx = Context::new(root(vec![(
        name("w1"),
        window("A", vec![(Key::Index(0), button())]),
    )]));
    let ops = ctx.take_ops();
    assert_eq!(ops.len(), 4);
    match &ops[0] {
        GtkOp::CreateWindow { title, .. } => assert_eq!(title.as_str(), "A"),
        other => panic!("expected a window creation, got {:?}", other),
    }
    assert!(matches!(ops[1], GtkOp::CreateButton { .. }));
    let (window_id, button_id) = match (&ops[0], &ops[1]) {
        (GtkOp::CreateWindow { id: w, .. }, GtkOp::CreateButton { id: b }) => (*w, *b),
        _ => unreachable!(),
    };
    assert!(matches!(ops[2], GtkOp::Attach { parent, child } if parent == window_id && child == button_id));
    // the window is revealed only after its subtree is populated
    assert!(matches!(ops[3], GtkOp::ShowAll { id } if id == window_id));
}

#[test]
fn label_text_concatenates_fragments() {
    let mut ctx = Context::new(root(vec![(
        name("w1"),
        window(
            "A",
            vec![(
                Key::Index(0),
                label(vec![
                    (Key::Index(0), AllNodes::Text(String::from("he"))),
                    (Key::Index(1), AllNodes::Text(String::from("llo"))),
                ]),
            )],
        ),
    )]));
    let ops = ctx.take_ops();
    let mut found = false;
    for op in &ops {
        if let GtkOp::CreateLabel { text, .. } = op {
            assert_eq!(text.as_str(), "hello");
            found = true;
        }
    }
    assert!(found);
}

#[test]
fn params_only_change_emits_exactly_one_event() {
    let t1 = root_node(vec![(name("w1"), window("A", vec![(Key::Index(0), button())]))]);
    let t2 = root_node(vec![(name("w1"), window("B", vec![(Key::Index(0), button())]))]);
    let evs = diff_events(&t2, &t1);
    assert_eq!(evs.len(), 1);
    let wp = window_path("w1");
    match &evs[0] {
        Event::ParamsChanged(p) => assert!(p.path_eq(&wp)),
        other => panic!("expected a params change, got {:?}", event_name(other)),
    }
}

#[test]
fn params_only_change_keeps_registry_and_queues_nothing() {
    let mut ctx = Context::new(root(vec![(
        name("w1"),
        window("A", vec![(Key::Index(0), button())]),
    )]));
    let _ = ctx.take_ops();
    ctx.update(root(vec![(name("w1"), window("B", vec![(Key::Index(0), button())]))]));
    assert_eq!(ctx.widget_count(), 2);
    assert!(ctx.has_widget(&window_path("w1")));
    // this binding updates no widget property after creation
    assert_eq!(ctx.take_ops().len(), 0);
}

#[test]
fn reorder_emits_one_reordered_event_and_nothing_else() {
    let t1 = root_node(vec![
        (name("w1"), window("A", vec![])),
        (name("w2"), window("B", vec![])),
    ]);
    let t2 = root_node(vec![
        (name("w2"), window("B", vec![])),
        (name("w1"), window("A", vec![])),
    ]);
    let evs = diff_events(&t2, &t1);
    assert_eq!(evs.len(), 1);
    match &evs[0] {
        Event::Reordered(p, moves) => {
            assert!(p.path_eq(&Path::root()));
            // (old index, new index) pairs of the matched children, new order
            assert_eq!(moves.as_slice(), &[(1, 0), (0, 1)]);
        },
        other => panic!("expected a reorder, got {:?}", event_name(other)),
    }
}

#[test]
fn removal_emits_one_removed_event_for_the_subtree_root() {
    let t1 = root_node(vec![(name("w1"), window("A", vec![(Key::Index(0), button())]))]);
    let t2 = root_node(vec![]);
    let evs = diff_events(&t2, &t1);
    assert_eq!(evs.len(), 1);
    match &evs[0] {
        Event::Removed(p) => assert!(p.path_eq(&window_path("w1"))),
        other => panic!("expected a removal, got {:?}", event_name(other)),
    }
}

#[test]
fn removal_cascade_clears_descendant_entries() {
    let mut ctx = Context::new(root(vec![(
        name("w1"),
        window("A", vec![(Key::Index(0), button())]),
    )]));
    let _ = ctx.take_ops();
    ctx.update(root(vec![]));
    assert_eq!(ctx.widget_count(), 0);
    assert!(!ctx.has_widget(&window_path("w1")));
    assert!(!ctx.has_widget(&window_path("w1").push_step(NodeKind::Button, &Key::Index(0))));
    let ops = ctx.take_ops();
    // the subtree is destroyed as a unit: one destroy for its root widget
    assert_eq!(ops.len(), 1);
    assert!(matches!(ops[0], GtkOp::Destroy { .. }));
}

#[test]
fn update_round_trip_reconverges_to_the_same_key_set() {
    let t1 = || root(vec![(name("w1"), window("A", vec![(Key::Index(0), button())]))]);
    let t2 = || root(vec![(name("w2"), window("B", vec![]))]);
    let fresh = Context::new(t1());
    let mut ctx = Context::new(t1());
    ctx.update(t2());
    ctx.update(t1());
    assert_eq!(ctx.widget_count(), fresh.widget_count());
    let wp = window_path("w1");
    let bp = wp.push_step(NodeKind::Button, &Key::Index(0));
    assert!(ctx.has_widget(&wp) && fresh.has_widget(&wp));
    assert!(ctx.has_widget(&bp) && fresh.has_widget(&bp));
    assert!(!ctx.has_widget(&window_path("w2")));
}

#[test]
fn scenario_empty_root_then_window_then_retitle_then_clear() {
    // an empty root produces no resource at all
    let mut ctx = Context::new(root(vec![]));
    assert_eq!(ctx.widget_count(), 0);

    // adding a window with a button reports the subtree as added, parent
    // before child; the context root is matched between the retained and
    // the new snapshot (its own added event fired at session creation)
    let t0 = root_node(vec![]);
    let t1 = root_node(vec![(name("w1"), window("A", vec![(Key::Index(0), button())]))]);
    let evs = diff_events(&t1, &t0);
    assert_eq!(evs.len(), 2);
    assert!(matches!(&evs[0], Event::Added(p) if p.path_eq(&window_path("w1"))));
    let bp = window_path("w1").push_step(NodeKind::Button, &Key::Index(0));
    assert!(matches!(&evs[1], Event::Added(p) if p.path_eq(&bp)));
    ctx.update(root(vec![(name("w1"), window("A", vec![(Key::Index(0), button())]))]));
    assert_eq!(ctx.widget_count(), 2);

    // a retitle is one params change; keys unchanged
    let t2 = root_node(vec![(name("w1"), window("B", vec![(Key::Index(0), button())]))]);
    let evs = diff_events(&t2, &t1);
    assert_eq!(evs.len(), 1);
    assert!(matches!(&evs[0], Event::ParamsChanged(p) if p.path_eq(&window_path("w1"))));
    ctx.update(root(vec![(name("w1"), window("B", vec![(Key::Index(0), button())]))]));
    assert_eq!(ctx.widget_count(), 2);
    assert!(ctx.has_widget(&window_path("w1")));
    assert!(ctx.has_widget(&bp));

    // clearing the root removes the window subtree and empties the registry
    let evs = diff_events(&t0, &t2);
    assert_eq!(evs.len(), 1);
    assert!(matches!(&evs[0], Event::Removed(p) if p.path_eq(&window_path("w1"))));
    ctx.update(root(vec![]));
    assert_eq!(ctx.widget_count(), 0);
}

#[test]
fn root_path_has_no_parent() {
    assert!(matches!(Path::root().parent(), Err(TreeError::InvalidOperation)));
    let wp = window_path("w1");
    let parent = wp.parent().unwrap();
    assert!(parent.path_eq(&Path::root()));
    assert_eq!(wp.len(), 1);
}

#[test]
fn paths_compare_by_value() {
    let a = window_path("w1");
    let b = window_path("w1");
    let c = window_path("w2");
    let d = Path::root().push_step(NodeKind::Button, &name("w1"));
    assert!(a.path_eq(&b));
    assert!(!a.path_eq(&c));
    assert!(!a.path_eq(&d));
    assert!(!a.path_eq(&Path::root()));
}

#[test]
fn paths_order_lexicographically() {
    let root = Path::root();
    let w1 = window_path("w1");
    let w2 = window_path("w2");
    let idx = Path::root().push_step(NodeKind::Window, &Key::Index(7));
    let deep = w1.push_step(NodeKind::Button, &Key::Index(0));
    // a proper prefix precedes its extensions
    assert!(root.path_lt(&w1));
    assert!(w1.path_lt(&deep));
    assert!(!deep.path_lt(&w1));
    // siblings order by key: indices by value and before names
    assert!(w1.path_lt(&w2));
    assert!(!w2.path_lt(&w1));
    assert!(idx.path_lt(&w1));
    // irreflexive
    assert!(!w1.path_lt(&w1));
}

#[test]
fn keys_compare_by_value() {
    assert!(name("x").key_eq(&name("x")));
    assert!(!name("x").key_eq(&name("y")));
    assert!(Key::Index(3).key_eq(&Key::Index(3)));
    assert!(!Key::Index(3).key_eq(&Key::Index(4)));
    assert!(!Key::Index(3).key_eq(&name("3")));
}

#[test]
fn widget_group_membership() {
    assert!(kind_in_group(NodeKind::Button, Group::Widget));
    assert!(kind_in_group(NodeKind::Label, Group::Widget));
    assert!(!kind_in_group(NodeKind::Window, Group::Widget));
    assert!(!kind_in_group(NodeKind::RootContext, Group::Widget));
    assert!(!kind_in_group(NodeKind::Text, Group::Widget));
}

#[test]
fn resource_producing_kinds() {
    assert!(!produces_resource(NodeKind::RootContext));
    assert!(!produces_resource(NodeKind::Text));
    assert!(produces_resource(NodeKind::Window));
    assert!(produces_resource(NodeKind::Button));
    assert!(produces_resource(NodeKind::Label));
}

fn event_name(e: &Event) -> &'static str {
    match e {
        Event::Added(_) => "added",
        Event::Removed(_) => "removed",
        Event::ParamsChanged(_) => "params_changed",
        Event::Reordered(_, _) => "reordered",
    }
}
