use vstd::prelude::*;

use crate::diff::{Path, StepV};

verus! {

/// The handle a binding keeps for one live widget, classified by how the
/// widget can take part in further attachment. The payload is the identifier
/// under which the toolkit runner knows the real resource.
#[derive(Clone, Copy, Debug, PartialEq, Eq, Structural)]
pub enum ContainerWidget {
    Label(u64),
    Box(u64),
    Grid(u64),
    Container(u64),
    Widget(u64),
}

impl ContainerWidget {
    /// The identifier of the underlying widget.
    pub open spec fn spec_widget_id(self) -> u64 {
        match self {
            ContainerWidget::Label(id) => id,
            ContainerWidget::Box(id) => id,
            ContainerWidget::Grid(id) => id,
            ContainerWidget::Container(id) => id,
            ContainerWidget::Widget(id) => id,
        }
    }

    /// Forgets the classification and returns the plain widget identifier.
    pub fn into_widget(self) -> (id: u64)
        ensures
            id == self.spec_widget_id(),
    {
        match self {
            ContainerWidget::Label(id) => id,
            ContainerWidget::Box(id) => id,
            ContainerWidget::Grid(id) => id,
            ContainerWidget::Container(id) => id,
            ContainerWidget::Widget(id) => id,
        }
    }
}

/// One queued toolkit action. The consumer decides; the unverified runner
/// around the library performs them in order against the real toolkit.
#[derive(Debug)]
pub enum GtkOp {
    /// Construct a toplevel window with the given title.
    CreateWindow { id: u64, title: String },
    /// Construct a push button.
    CreateButton { id: u64 },
    /// Construct a text label showing `text`.
    CreateLabel { id: u64, text: String },
    /// Attach widget `child` to the container widget `parent`.
    Attach { parent: u64, child: u64 },
    /// Reveal a window and its attached subtree.
    ShowAll { id: u64 },
    /// Destroy a widget and, by toolkit semantics, everything attached to it.
    Destroy { id: u64 },
}

/// Mathematical model of a queued toolkit action.
pub enum OpV {
    CreateWindow { id: u64, title: Seq<char> },
    CreateButton { id: u64 },
    CreateLabel { id: u64, text: Seq<char> },
    Attach { parent: u64, child: u64 },
    ShowAll { id: u64 },
    Destroy { id: u64 },
}

impl View for GtkOp {
    type V = OpV;

    open spec fn view(&self) -> OpV {
        match self {
            GtkOp::CreateWindow { id, title } => OpV::CreateWindow { id: *id, title: title@ },
            GtkOp::CreateButton { id } => OpV::CreateButton { id: *id },
            GtkOp::CreateLabel { id, text } => OpV::CreateLabel { id: *id, text: text@ },
            GtkOp::Attach { parent, child } => OpV::Attach { parent: *parent, child: *child },
            GtkOp::ShowAll { id } => OpV::ShowAll { id: *id },
            GtkOp::Destroy { id } => OpV::Destroy { id: *id },
        }
    }
}

/// The path-keyed side table of live resources: the registry a binding
/// maintains in response to the classified change events. Modelled as the
/// map from the path of each registered node to its widget handle.
pub struct WidgetRegistry {
    entries: Vec<(Path, ContainerWidget)>,
}

/// The map held by an entry list: later entries shadow earlier ones, and the
/// registry keeps its keys distinct.
pub open spec fn entries_map(s: Seq<(Path, ContainerWidget)>) -> Map<Seq<StepV>, ContainerWidget>
    decreases s.len(),
{
    if s.len() == 0 {
        Map::empty()
    } else {
        entries_map(s.drop_last()).insert(s.last().0@, s.last().1)
    }
}

impl View for WidgetRegistry {
    type V = Map<Seq<StepV>, ContainerWidget>;

    closed spec fn view(&self) -> Map<Seq<StepV>, ContainerWidget> {
        entries_map(self.entries@)
    }
}

/// Whether some entry of the list is keyed by the given path.
pub open spec fn has_key(s: Seq<(Path, ContainerWidget)>, k: Seq<StepV>) -> bool {
    exists|i: int| 0 <= i < s.len() && (#[trigger] s[i]).0@ == k
}

/// Membership in the map held by an entry list.
pub proof fn lemma_entries_map_dom(s: Seq<(Path, ContainerWidget)>)
    ensures
        forall|k: Seq<StepV>| #[trigger] entries_map(s).dom().contains(k) <==> has_key(s, k),
    decreases s.len(),
{
    if s.len() > 0 {
        lemma_entries_map_dom(s.drop_last());
        assert forall|k: Seq<StepV>| #[trigger]
            entries_map(s).dom().contains(k) implies has_key(s, k) by {
            if k == s.last().0@ {
                assert(s[s.len() - 1].0@ == k);
            } else {
                assert(entries_map(s.drop_last()).dom().contains(k));
                let i = choose|i: int|
                    0 <= i < s.drop_last().len() && (#[trigger] s.drop_last()[i]).0@ == k;
                assert(s.drop_last()[i] == s[i]);
                assert(s[i].0@ == k);
            }
        }
        assert forall|k: Seq<StepV>| has_key(s, k) implies #[trigger] entries_map(
            s,
        ).dom().contains(k) by {
            let i = choose|i: int| 0 <= i < s.len() && (#[trigger] s[i]).0@ == k;
            if i < s.len() - 1 {
                assert(s.drop_last()[i] == s[i]);
                assert(has_key(s.drop_last(), k));
                assert(entries_map(s.drop_last()).dom().contains(k));
            } else {
                assert(s[i] == s.last());
                assert(k == s.last().0@);
            }
        }
    }
}

/// The value held for the key of any entry of a list with distinct keys.
pub proof fn lemma_entries_map_at(s: Seq<(Path, ContainerWidget)>, i: int)
    requires
        forall|a: int, b: int| 0 <= a < b < s.len() ==> (#[trigger] s[a]).0@ != (#[trigger] s[b]).0@,
        0 <= i < s.len(),
    ensures
        entries_map(s)[s[i].0@] == s[i].1,
    decreases s.len(),
{
    if i < s.len() - 1 {
        assert(s.drop_last()[i] == s[i]);
        lemma_entries_map_at(s.drop_last(), i);
    }
}

impl WidgetRegistry {
    /// Key distinctness: no path is registered twice.
    pub closed spec fn wf(&self) -> bool {
        forall|a: int, b: int|
            0 <= a < b < self.entries@.len() ==> (#[trigger] self.entries@[a]).0@ != (
            #[trigger] self.entries@[b]).0@
    }

    /// An empty registry.
    pub fn new() -> (r: WidgetRegistry)
        ensures
            r@ == Map::<Seq<StepV>, ContainerWidget>::empty(),
            r.wf(),
    {
        WidgetRegistry { entries: Vec::new() }
    }

    /// The number of registered paths.
    pub fn len(&self) -> (n: usize)
        requires
            self.wf(),
        ensures
            n == self@.dom().len(),
    {
        proof {
            Self::lemma_count(self.entries@);
        }
        self.entries.len()
    }

    /// A registry with distinct keys holds as many entries as its map has
    /// keys.
    proof fn lemma_count(s: Seq<(Path, ContainerWidget)>)
        requires
            forall|a: int, b: int|
                0 <= a < b < s.len() ==> (#[trigger] s[a]).0@ != (#[trigger] s[b]).0@,
        ensures
            entries_map(s).dom().len() == s.len(),
            entries_map(s).dom().finite(),
        decreases s.len(),
    {
        if s.len() == 0 {
            assert(entries_map(s).dom() =~= Set::<Seq<StepV>>::empty());
        } else {
            Self::lemma_count(s.drop_last());
            lemma_entries_map_dom(s.drop_last());
            assert(!entries_map(s.drop_last()).dom().contains(s.last().0@));
            assert(entries_map(s).dom() =~= entries_map(s.drop_last()).dom().insert(s.last().0@));
        }
    }

    /// The handle registered at a path, if any.
    pub fn get(&self, path: &Path) -> (r: Option<&ContainerWidget>)
        requires
            self.wf(),
        ensures
            match r {
                Some(w) => self@.dom().contains(path@) && *w == self@[path@],
                None => !self@.dom().contains(path@),
            },
    {
        proof {
            lemma_entries_map_dom(self.entries@);
        }
        let mut i: usize = 0;
        while i < self.entries.len()
            invariant
                self.wf(),
                i <= self.entries@.len(),
                forall|j: int| 0 <= j < i ==> (#[trigger] self.entries@[j]).0@ != path@,
            decreases self.entries@.len() - i,
        {
            if self.entries[i].0.path_eq(path) {
                proof {
                    lemma_entries_map_at(self.entries@, i as int);
                    lemma_entries_map_dom(self.entries@);
                }
                return Some(&self.entries[i].1);
            }
            i = i + 1;
        }
        proof {
            lemma_entries_map_dom(self.entries@);
        }
        None
    }

    /// Registers a handle at a fresh path.
    pub fn insert(&mut self, path: Path, w: ContainerWidget)
        requires
            old(self).wf(),
            !old(self)@.dom().contains(path@),
        ensures
            final(self)@ == old(self)@.insert(path@, w),
            final(self).wf(),
    {
        proof {
            lemma_entries_map_dom(self.entries@);
        }
        self.entries.push((path, w));
        proof {
            assert(self.entries@.drop_last() =~= old(self).entries@);
        }
    }

    /// Deletes the entry at a path; a path without an entry is left as is.
    pub fn remove(&mut self, path: &Path)
        requires
            old(self).wf(),
        ensures
            final(self)@ == old(self)@.remove(path@),
            final(self).wf(),
    {
        proof {
            lemma_entries_map_dom(self.entries@);
        }
        let mut i: usize = 0;
        while i < self.entries.len()
            invariant
                self.wf(),
                self.entries@ == old(self).entries@,
                i <= self.entries@.len(),
                forall|j: int| 0 <= j < i ==> (#[trigger] self.entries@[j]).0@ != path@,
            decreases self.entries@.len() - i,
        {
            if self.entries[i].0.path_eq(path) {
                let ghost pre = self.entries@;
                self.entries.remove(i);
                proof {
                    Self::lemma_remove_entry(pre, i as int);
                    lemma_entries_map_at(pre, i as int);
                }
                return ;
            }
            i = i + 1;
        }
        proof {
            assert(!self@.dom().contains(path@));
            assert(self@ =~= self@.remove(path@));
        }
    }

    /// Removing one entry of a distinct-keyed list removes exactly its key
    /// from the held map.
    proof fn lemma_remove_entry(s: Seq<(Path, ContainerWidget)>, i: int)
        requires
            forall|a: int, b: int|
                0 <= a < b < s.len() ==> (#[trigger] s[a]).0@ != (#[trigger] s[b]).0@,
            0 <= i < s.len(),
        ensures
            entries_map(s.remove(i)) == entries_map(s).remove(s[i].0@),
        decreases s.len(),
    {
        lemma_entries_map_dom(s.drop_last());
        if i == s.len() - 1 {
            assert(s.remove(i) =~= s.drop_last());
            assert(!entries_map(s.drop_last()).dom().contains(s.last().0@));
            assert(entries_map(s.drop_last()).insert(s.last().0@, s.last().1).remove(s.last().0@)
                =~= entries_map(s.drop_last()));
        } else {
            Self::lemma_remove_entry(s.drop_last(), i);
            assert(s.remove(i).drop_last() =~= s.drop_last().remove(i));
            assert(s.remove(i).last() == s.last());
            assert(entries_map(s.remove(i)) == entries_map(s.drop_last().remove(i)).insert(
                s.last().0@,
                s.last().1,
            ));
            assert(entries_map(s).remove(s[i].0@) =~= entries_map(s.drop_last()).remove(
                s[i].0@,
            ).insert(s.last().0@, s.last().1));
        }
    }
}

} // verus!
