use vstd::prelude::*;

use crate::event_emitter::Event;

verus! {

/// The identity keys of the selection menu's events.
#[derive(Copy, Clone, Debug, PartialEq, Eq, Hash, Structural)]
pub enum SelectionWindowEventId {
    SelectId,
}

/// An event published by the selection menu: the user confirmed the named
/// option.
pub enum SelectionWindowEvent {
    Select(String),
}

impl Event for SelectionWindowEvent {
    type EventId = SelectionWindowEventId;

    open spec fn id_spec(&self) -> SelectionWindowEventId {
        SelectionWindowEventId::SelectId
    }

    fn id(&self) -> (r: SelectionWindowEventId) {
        SelectionWindowEventId::SelectId
    }

    fn id_eq(a: &SelectionWindowEventId, b: &SelectionWindowEventId) -> (r: bool) {
        match (a, b) {
            (SelectionWindowEventId::SelectId, SelectionWindowEventId::SelectId) => true,
        }
    }
}

} // verus!
