//! App-modal dialogs. Exactly one modal exists at a time (an enum, not a
//! stack), so guards can never pile up.

use vstd::prelude::*;
use std::path::PathBuf;

verus! {

/// The dialog being shown.
pub enum Modal {
    /// Close a single dirty tab (Save / Discard / Cancel).
    CloseDirty { idx: usize },
    /// Quit with dirty buffers (Save All / Discard All / Cancel).
    QuitDirty { idxs: Vec<usize> },
    /// The file changed on disk while the buffer has unsaved edits.
    ExternalChanged { idx: usize },
    /// Insert a link (label and URL).
    InsertLink { idx: usize },
    /// Insert an image reference.
    InsertImage { idx: usize, path: PathBuf },
    /// Table size picker.
    TablePicker { idx: usize },
    /// Crash-recovery choices from the last session.
    Recovery { items: Vec<(String, Option<PathBuf>, String)> },
    /// Jump to a line number.
    GoTo { idx: usize },
    About,
}

impl Modal {
    /// The dialog guards a destructive action.
    pub open spec fn is_guard_spec(&self) -> bool {
        self is CloseDirty || self is QuitDirty || self is ExternalChanged
    }

    /// Is this modal one of the destructive-action guards?
    pub fn is_guard(&self) -> (r: bool)
        ensures
            r == self.is_guard_spec(),
    {
        match self {
            Modal::CloseDirty { .. } | Modal::QuitDirty { .. } | Modal::ExternalChanged { .. } => true,
            _ => false,
        }
    }
}

/// Size chosen in the table picker before confirming.
pub struct TableDraft {
    pub rows: usize,
    pub cols: usize,
}

} // verus!
