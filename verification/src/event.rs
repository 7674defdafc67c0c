//! Which events of the file system watcher call for a new look at the files.

use vstd::prelude::*;

verus! {

/// What was created.
#[derive(Clone, Copy, Debug, PartialEq, Eq, Structural)]
pub enum CreateKind {
    Any,
    File,
    Folder,
    Other,
}

/// What was changed.
#[derive(Clone, Copy, Debug, PartialEq, Eq, Structural)]
pub enum ModifyKind {
    Any,
    Data,
    Metadata,
    Name,
    Other,
}

/// What was removed.
#[derive(Clone, Copy, Debug, PartialEq, Eq, Structural)]
pub enum RemoveKind {
    Any,
    File,
    Folder,
    Other,
}

/// What the watcher has seen.
#[derive(Clone, Copy, Debug, PartialEq, Eq, Structural)]
pub enum EventKind {
    Any,
    Access,
    Create(CreateKind),
    Modify(ModifyKind),
    Remove(RemoveKind),
    Other,
}

/// Whether an event can change what is to be written. An access cannot, nor can a change of metadata,
/// which touches neither what a file holds nor its path; a directory that comes or goes matters only
/// where files below it are followed.
pub open spec fn matters(kind: EventKind, recursive: bool) -> bool {
    &&& kind != EventKind::Access
    &&& kind != EventKind::Modify(ModifyKind::Metadata)
    &&& kind == EventKind::Create(CreateKind::Folder) || kind == EventKind::Remove(
        RemoveKind::Folder,
    ) ==> recursive
}

/// Whether an event calls for a new look at the files.
pub fn event_requires_reconciliation(kind: EventKind, recursive: bool) -> (required: bool)
    ensures
        required == matters(kind, recursive),
{
    match kind {
        // A pass opens every file, so that reacting to an access would set off the next one.
        EventKind::Access => false,
        EventKind::Modify(ModifyKind::Metadata) => false,
        EventKind::Create(CreateKind::Folder) => recursive,
        EventKind::Remove(RemoveKind::Folder) => recursive,
        _ => true,
    }
}

/// What matters where only one directory is watched also matters where those below it are.
pub proof fn law_recursion_only_adds_events(kind: EventKind)
    ensures
        matters(kind, false) ==> matters(kind, true),
        matters(kind, true) && !matters(kind, false) ==> kind == EventKind::Create(
            CreateKind::Folder,
        ) || kind == EventKind::Remove(RemoveKind::Folder),
{
}

} // verus!
