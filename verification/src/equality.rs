use vstd::prelude::*;
use vstd::std_specs::cmp::PartialEqSpecImpl;

use crate::element_manager::ElementManager;
use crate::text_document::TextDocument;

verus! {

impl PartialEq for ElementManager {
    fn eq(&self, other: &Self) -> (r: bool) {
        self.same_content(other)
    }
}

impl PartialEqSpecImpl for ElementManager {
    open spec fn obeys_eq_spec() -> bool {
        true
    }

    /// Two managers are equal where they hold the same elements, sort orders,
    /// parents and counter, and the same changes waiting to be reported.
    open spec fn eq_spec(&self, other: &ElementManager) -> bool {
        &&& self@ == other@
        &&& self.pending_cursor_changes() == other.pending_cursor_changes()
        &&& self.pending_element_changes() == other.pending_element_changes()
    }
}

impl PartialEq for TextDocument {
    fn eq(&self, other: &Self) -> (r: bool) {
        self.same_document(other)
    }
}

impl PartialEqSpecImpl for TextDocument {
    open spec fn obeys_eq_spec() -> bool {
        true
    }

    /// Two documents are equal where they have the same id, hold the same
    /// elements and have the same cursor changes waiting to be reported.
    open spec fn eq_spec(&self, other: &TextDocument) -> bool {
        &&& self@ == other@
        &&& self.uuid_value() == other.uuid_value()
        &&& self.pending_cursor_changes() == other.pending_cursor_changes()
    }
}

} // verus!
