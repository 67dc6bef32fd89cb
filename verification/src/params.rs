use vstd::prelude::*;

verus! {

/// Kind-level events that the parameter layer may declare. No kind in this
/// schema wires any signal, so the only variant is a placeholder that the
/// library never produces.
#[derive(Debug)]
pub enum AllEvent {
    Unhandled,
}

/// Parameter record of the `Window` kind.
#[derive(Default, Debug, Clone, PartialEq)]
pub struct Window {
    pub title: String,
}

} // verus!
