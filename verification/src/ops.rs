use crate::error::IoFailure;
use crate::error::StoreError;
use crate::path::base_name;
use crate::path::child_id;
use crate::path::child_of;
use crate::path::is_valid_folder_ref;
use crate::path::is_valid_id;
use crate::path::is_valid_name;
use crate::path::is_within;
use crate::path::lemma_child_valid;
use crate::path::lemma_parent_and_name;
use crate::path::name_of;
use crate::path::parent_id;
use crate::path::parent_of;
use crate::path::resolve;
use crate::path::resolve_folder;
use crate::path::resolved;
use crate::path::resolved_folder;
use crate::path::valid_folder_ref;
use crate::path::valid_id;
use crate::path::valid_segment;
use crate::path::within;
use vstd::prelude::*;
use vstd::slice::slice_to_vec;

verus! {

/// What the host found at a place on disk.
#[derive(Clone, Copy, Debug, PartialEq, Eq, Structural)]
pub enum EntryKind {
    /// Nothing is there.
    Missing,
    /// A regular file: a note.
    Note,
    /// A directory: a folder.
    Folder,
    /// A link or a special file, which the store does not handle.
    Unsupported,
}

/// The single step on the filesystem that an operation comes down to. Every
/// place in it was made by the resolver.
#[derive(Clone, Debug, PartialEq, Eq)]
pub enum Action {
    /// Enumerate the directory at `path`.
    ListDir { path: Vec<u8> },
    /// Read the file at `path` whole, with its modification time.
    ReadFile { path: Vec<u8> },
    /// Write the content to `temp`, then give it the name `target` in a way
    /// that fails if `target` is taken, and remove `temp` either way.
    WriteNew { temp: Vec<u8>, target: Vec<u8> },
    /// Write the content to `temp`, then rename `temp` over `target`.
    Replace { temp: Vec<u8>, target: Vec<u8> },
    /// Remove the file at `path`.
    RemoveFile { path: Vec<u8> },
    /// Create the directory at `path`, failing if the name is taken.
    MakeDir { path: Vec<u8> },
    /// Rename `from` to `to` in one step.
    Rename { from: Vec<u8>, to: Vec<u8> },
    /// Remove the directory at `path`, which fails if it has entries.
    RemoveEmptyDir { path: Vec<u8> },
    /// Rename the directory `path` to `staging`, so that all of it leaves
    /// the tree at once, then remove `staging` with everything below it.
    RemoveTree { path: Vec<u8>, staging: Vec<u8> },
}

/// An [`Action`] with its places as byte sequences.
pub enum ActionView {
    ListDir { path: Seq<u8> },
    ReadFile { path: Seq<u8> },
    WriteNew { temp: Seq<u8>, target: Seq<u8> },
    Replace { temp: Seq<u8>, target: Seq<u8> },
    RemoveFile { path: Seq<u8> },
    MakeDir { path: Seq<u8> },
    Rename { from: Seq<u8>, to: Seq<u8> },
    RemoveEmptyDir { path: Seq<u8> },
    RemoveTree { path: Seq<u8>, staging: Seq<u8> },
}

impl View for Action {
    type V = ActionView;

    open spec fn view(&self) -> ActionView {
        match *self {
            Action::ListDir { path } => ActionView::ListDir { path: path@ },
            Action::ReadFile { path } => ActionView::ReadFile { path: path@ },
            Action::WriteNew { temp, target } => ActionView::WriteNew {
                temp: temp@,
                target: target@,
            },
            Action::Replace { temp, target } => ActionView::Replace {
                temp: temp@,
                target: target@,
            },
            Action::RemoveFile { path } => ActionView::RemoveFile { path: path@ },
            Action::MakeDir { path } => ActionView::MakeDir { path: path@ },
            Action::Rename { from, to } => ActionView::Rename { from: from@, to: to@ },
            Action::RemoveEmptyDir { path } => ActionView::RemoveEmptyDir { path: path@ },
            Action::RemoveTree { path, staging } => ActionView::RemoveTree {
                path: path@,
                staging: staging@,
            },
        }
    }
}

/// What an operation decided: the identifier that the entry has once the
/// step is done, and the step.
#[derive(Clone, Debug, PartialEq, Eq)]
pub struct Plan {
    pub id: Vec<u8>,
    pub action: Action,
}

/// A [`Plan`] with its identifier and places as byte sequences.
pub struct PlanView {
    pub id: Seq<u8>,
    pub action: ActionView,
}

impl View for Plan {
    type V = PlanView;

    open spec fn view(&self) -> PlanView {
        PlanView { id: self.id@, action: self.action@ }
    }
}

/// The outcome of a decision with the plan taken by its view.
pub open spec fn outcome_of(res: Result<Plan, StoreError>) -> Result<PlanView, StoreError> {
    match res {
        Ok(p) => Ok(p@),
        Err(e) => Err(e),
    }
}

/// What is appended to a place to name the temporary entry beside it:
/// the bytes of `.tmp~`.
pub open spec fn temp_suffix() -> Seq<u8> {
    seq![46u8, 116u8, 109u8, 112u8, 126u8]
}

/// The temporary place beside `target`, in the same directory.
pub open spec fn temp_path(target: Seq<u8>) -> Seq<u8> {
    target + temp_suffix()
}

/// Builds the temporary place beside `target`.
pub fn temp_for(target: &Vec<u8>) -> (temp: Vec<u8>)
    ensures
        temp@ == temp_path(target@),
{
    let mut temp: Vec<u8> = target.clone();
    temp.push(46u8);
    temp.push(116u8);
    temp.push(109u8);
    temp.push(112u8);
    temp.push(126u8);
    assert(temp@ =~= temp_path(target@));
    temp
}

/// Listing a folder: the folder reference must be admissible and a
/// directory must stand there.
pub open spec fn list_outcome(root: Seq<u8>, folder: Seq<u8>, kind: EntryKind) -> Result<
    PlanView,
    StoreError,
> {
    if !valid_folder_ref(folder) {
        Err(StoreError::InvalidId)
    } else {
        match kind {
            EntryKind::Missing => Err(StoreError::NotFound),
            EntryKind::Folder => Ok(
                PlanView {
                    id: folder,
                    action: ActionView::ListDir { path: resolved_folder(root, folder) },
                },
            ),
            _ => Err(StoreError::NotADirectory),
        }
    }
}

/// Decides how to list `folder` (empty for the root), where `kind` is what
/// stands at its place.
pub fn plan_list(root: &[u8], folder: &[u8], kind: EntryKind) -> (res: Result<Plan, StoreError>)
    ensures
        outcome_of(res) == list_outcome(root@, folder@, kind),
{
    let path = match resolve_folder(root, folder) {
        Ok(p) => p,
        Err(e) => {
            return Err(e);
        },
    };
    match kind {
        EntryKind::Missing => Err(StoreError::NotFound),
        EntryKind::Folder => Ok(
            Plan { id: slice_to_vec(folder), action: Action::ListDir { path } },
        ),
        _ => Err(StoreError::NotADirectory),
    }
}

/// The three operations on an existing note.
#[derive(Clone, Copy, Debug, PartialEq, Eq, Structural)]
pub enum NoteOp {
    Read,
    Update,
    Delete,
}

/// The step that an operation on the note at `path` takes.
pub open spec fn note_action(op: NoteOp, path: Seq<u8>) -> ActionView {
    match op {
        NoteOp::Read => ActionView::ReadFile { path },
        NoteOp::Update => ActionView::Replace { temp: temp_path(path), target: path },
        NoteOp::Delete => ActionView::RemoveFile { path },
    }
}

/// Reading, updating or deleting a note: the identifier must be admissible
/// and a regular file must stand there.
pub open spec fn note_outcome(root: Seq<u8>, id: Seq<u8>, kind: EntryKind, op: NoteOp) -> Result<
    PlanView,
    StoreError,
> {
    if !valid_id(id) {
        Err(StoreError::InvalidId)
    } else {
        match kind {
            EntryKind::Missing => Err(StoreError::NotFound),
            EntryKind::Note => Ok(PlanView { id, action: note_action(op, resolved(root, id)) }),
            _ => Err(StoreError::NotAFile),
        }
    }
}

/// Decides an operation on the note `id`, where `kind` is what stands at its
/// place.
pub fn plan_note(root: &[u8], id: &[u8], kind: EntryKind, op: NoteOp) -> (res: Result<
    Plan,
    StoreError,
>)
    ensures
        outcome_of(res) == note_outcome(root@, id@, kind, op),
{
    let path = match resolve(root, id) {
        Ok(p) => p,
        Err(e) => {
            return Err(e);
        },
    };
    match kind {
        EntryKind::Missing => Err(StoreError::NotFound),
        EntryKind::Note => {
            let action = match op {
                NoteOp::Read => Action::ReadFile { path },
                NoteOp::Update => {
                    let temp = temp_for(&path);
                    Action::Replace { temp, target: path }
                },
                NoteOp::Delete => Action::RemoveFile { path },
            };
            Ok(Plan { id: slice_to_vec(id), action })
        },
        _ => Err(StoreError::NotAFile),
    }
}

/// Decides how to read the note `id`.
pub fn plan_read(root: &[u8], id: &[u8], kind: EntryKind) -> (res: Result<Plan, StoreError>)
    ensures
        outcome_of(res) == note_outcome(root@, id@, kind, NoteOp::Read),
{
    plan_note(root, id, kind, NoteOp::Read)
}

/// Decides how to replace the content of the note `id`: through a temporary
/// file beside it, so that the note is never seen half written.
pub fn plan_update(root: &[u8], id: &[u8], kind: EntryKind) -> (res: Result<Plan, StoreError>)
    ensures
        outcome_of(res) == note_outcome(root@, id@, kind, NoteOp::Update),
{
    plan_note(root, id, kind, NoteOp::Update)
}

/// Decides how to delete the note `id`. A folder is not deleted this way.
pub fn plan_delete_note(root: &[u8], id: &[u8], kind: EntryKind) -> (res: Result<
    Plan,
    StoreError,
>)
    ensures
        outcome_of(res) == note_outcome(root@, id@, kind, NoteOp::Delete),
{
    plan_note(root, id, kind, NoteOp::Delete)
}

/// The step that creates a note, or a folder, at `path`.
pub open spec fn create_action(folder_wanted: bool, path: Seq<u8>) -> ActionView {
    if folder_wanted {
        ActionView::MakeDir { path }
    } else {
        ActionView::WriteNew { temp: temp_path(path), target: path }
    }
}

/// Creating an entry called `name` in `parent`: both must be admissible,
/// the parent must be a directory, and the name must be free.
pub open spec fn create_outcome(
    root: Seq<u8>,
    parent: Seq<u8>,
    name: Seq<u8>,
    parent_kind: EntryKind,
    target_kind: EntryKind,
    folder_wanted: bool,
) -> Result<PlanView, StoreError> {
    if !valid_folder_ref(parent) || !valid_segment(name) {
        Err(StoreError::InvalidId)
    } else if parent_kind != EntryKind::Folder {
        Err(StoreError::ParentNotFound)
    } else if target_kind != EntryKind::Missing {
        Err(StoreError::AlreadyExists)
    } else {
        Ok(
            PlanView {
                id: child_id(parent, name),
                action: create_action(folder_wanted, resolved(root, child_id(parent, name))),
            },
        )
    }
}

/// Decides the creation of an entry called `name` in `parent` (empty for the
/// root), where `parent_kind` is what stands at the parent's place and
/// `target_kind` what stands at the new entry's.
pub fn plan_create(
    root: &[u8],
    parent: &[u8],
    name: &[u8],
    parent_kind: EntryKind,
    target_kind: EntryKind,
    folder_wanted: bool,
) -> (res: Result<Plan, StoreError>)
    ensures
        outcome_of(res) == create_outcome(
            root@,
            parent@,
            name@,
            parent_kind,
            target_kind,
            folder_wanted,
        ),
{
    if !is_valid_folder_ref(parent) || !is_valid_name(name) {
        return Err(StoreError::InvalidId);
    }
    match parent_kind {
        EntryKind::Folder => {},
        _ => {
            return Err(StoreError::ParentNotFound);
        },
    }
    match target_kind {
        EntryKind::Missing => {},
        _ => {
            return Err(StoreError::AlreadyExists);
        },
    }
    let id = child_of(parent, name);
    proof {
        lemma_child_valid(parent@, name@);
    }
    let path = match resolve(root, id.as_slice()) {
        Ok(p) => p,
        Err(e) => {
            return Err(e);
        },
    };
    let action = if folder_wanted {
        Action::MakeDir { path }
    } else {
        let temp = temp_for(&path);
        Action::WriteNew { temp, target: path }
    };
    Ok(Plan { id, action })
}

/// Decides the creation of a note: exclusive, and through a temporary file
/// in the same folder.
pub fn plan_create_note(
    root: &[u8],
    folder: &[u8],
    name: &[u8],
    parent_kind: EntryKind,
    target_kind: EntryKind,
) -> (res: Result<Plan, StoreError>)
    ensures
        outcome_of(res) == create_outcome(root@, folder@, name@, parent_kind, target_kind, false),
{
    plan_create(root, folder, name, parent_kind, target_kind, false)
}

/// Decides the creation of a folder: exclusive, like that of a note.
pub fn plan_create_folder(
    root: &[u8],
    parent: &[u8],
    name: &[u8],
    parent_kind: EntryKind,
    target_kind: EntryKind,
) -> (res: Result<Plan, StoreError>)
    ensures
        outcome_of(res) == create_outcome(root@, parent@, name@, parent_kind, target_kind, true),
{
    plan_create(root, parent, name, parent_kind, target_kind, true)
}

/// Renaming a folder changes its last segment and nothing else: identifier
/// and new name must be admissible, a directory must stand there, and the
/// new name must be free among its siblings.
pub open spec fn rename_outcome(
    root: Seq<u8>,
    folder: Seq<u8>,
    new_name: Seq<u8>,
    kind: EntryKind,
    target_kind: EntryKind,
) -> Result<PlanView, StoreError> {
    if !valid_id(folder) || !valid_segment(new_name) {
        Err(StoreError::InvalidId)
    } else if kind != EntryKind::Folder {
        Err(StoreError::NotFound)
    } else if target_kind != EntryKind::Missing {
        Err(StoreError::AlreadyExists)
    } else {
        Ok(
            PlanView {
                id: child_id(parent_id(folder), new_name),
                action: ActionView::Rename {
                    from: resolved(root, folder),
                    to: resolved(root, child_id(parent_id(folder), new_name)),
                },
            },
        )
    }
}

/// Decides the renaming of `folder` to `new_name`, where `kind` is what
/// stands at the folder's place and `target_kind` what stands at the place
/// of its parent's child called `new_name`.
pub fn plan_rename_folder(
    root: &[u8],
    folder: &[u8],
    new_name: &[u8],
    kind: EntryKind,
    target_kind: EntryKind,
) -> (res: Result<Plan, StoreError>)
    ensures
        outcome_of(res) == rename_outcome(root@, folder@, new_name@, kind, target_kind),
{
    if !is_valid_id(folder) || !is_valid_name(new_name) {
        return Err(StoreError::InvalidId);
    }
    match kind {
        EntryKind::Folder => {},
        _ => {
            return Err(StoreError::NotFound);
        },
    }
    match target_kind {
        EntryKind::Missing => {},
        _ => {
            return Err(StoreError::AlreadyExists);
        },
    }
    let parent = parent_of(folder);
    let id = child_of(parent.as_slice(), new_name);
    proof {
        lemma_parent_and_name(folder@);
        lemma_child_valid(parent@, new_name@);
    }
    let from = match resolve(root, folder) {
        Ok(p) => p,
        Err(e) => {
            return Err(e);
        },
    };
    let to = match resolve(root, id.as_slice()) {
        Ok(p) => p,
        Err(e) => {
            return Err(e);
        },
    };
    Ok(Plan { id, action: Action::Rename { from, to } })
}

/// Deleting a folder: the identifier must be admissible and a directory
/// must stand there; a folder with children goes only if `recursive`, and
/// then as a whole.
pub open spec fn delete_folder_outcome(
    root: Seq<u8>,
    folder: Seq<u8>,
    recursive: bool,
    kind: EntryKind,
    has_children: bool,
) -> Result<PlanView, StoreError> {
    if !valid_id(folder) {
        Err(StoreError::InvalidId)
    } else if kind != EntryKind::Folder {
        Err(StoreError::NotFound)
    } else if recursive {
        Ok(
            PlanView {
                id: folder,
                action: ActionView::RemoveTree {
                    path: resolved(root, folder),
                    staging: temp_path(resolved(root, folder)),
                },
            },
        )
    } else if has_children {
        Err(StoreError::NotEmpty)
    } else {
        Ok(
            PlanView {
                id: folder,
                action: ActionView::RemoveEmptyDir { path: resolved(root, folder) },
            },
        )
    }
}

/// Decides the deletion of `folder`, where `kind` is what stands at its
/// place and `has_children` whether the directory has any entry. Without
/// `recursive` a folder with children yields no step at all.
pub fn plan_delete_folder(
    root: &[u8],
    folder: &[u8],
    recursive: bool,
    kind: EntryKind,
    has_children: bool,
) -> (res: Result<Plan, StoreError>)
    ensures
        outcome_of(res) == delete_folder_outcome(root@, folder@, recursive, kind, has_children),
{
    let path = match resolve(root, folder) {
        Ok(p) => p,
        Err(e) => {
            return Err(e);
        },
    };
    match kind {
        EntryKind::Folder => {},
        _ => {
            return Err(StoreError::NotFound);
        },
    }
    if recursive {
        let staging = temp_for(&path);
        Ok(Plan { id: slice_to_vec(folder), action: Action::RemoveTree { path, staging } })
    } else if has_children {
        Err(StoreError::NotEmpty)
    } else {
        Ok(Plan { id: slice_to_vec(folder), action: Action::RemoveEmptyDir { path } })
    }
}

/// The name that a moved entry gets: the one given, else the one it has.
pub open spec fn move_name(source: Seq<u8>, new_name: Option<Seq<u8>>) -> Seq<u8> {
    match new_name {
        Some(n) => n,
        None => base_name(source),
    }
}

/// Moving a note or a folder into `dest`: the identifiers and the name must
/// be admissible, `dest` must not be the source or lie below it, the source
/// must exist, `dest` must be a directory, and the name must be free there.
pub open spec fn move_outcome(
    root: Seq<u8>,
    source: Seq<u8>,
    dest: Seq<u8>,
    new_name: Option<Seq<u8>>,
    source_kind: EntryKind,
    dest_kind: EntryKind,
    target_kind: EntryKind,
) -> Result<PlanView, StoreError> {
    let name = move_name(source, new_name);
    if !valid_id(source) || !valid_folder_ref(dest) || !valid_segment(name) {
        Err(StoreError::InvalidId)
    } else if within(source, dest) {
        Err(StoreError::InvalidId)
    } else if source_kind != EntryKind::Note && source_kind != EntryKind::Folder {
        Err(StoreError::NotFound)
    } else if dest_kind != EntryKind::Folder {
        Err(StoreError::NotFound)
    } else if target_kind != EntryKind::Missing {
        Err(StoreError::AlreadyExists)
    } else {
        Ok(
            PlanView {
                id: child_id(dest, name),
                action: ActionView::Rename {
                    from: resolved(root, source),
                    to: resolved(root, child_id(dest, name)),
                },
            },
        )
    }
}

/// The view of an optional name.
pub open spec fn name_view(new_name: Option<&[u8]>) -> Option<Seq<u8>> {
    match new_name {
        Some(n) => Some(n@),
        None => None,
    }
}

/// Decides the move of `source` into the folder `dest` (empty for the
/// root), under `new_name` or else under its own name. `source_kind` and
/// `dest_kind` are what stands at their places, `target_kind` what stands at
/// the place of `dest`'s child of that name.
pub fn plan_move(
    root: &[u8],
    source: &[u8],
    dest: &[u8],
    new_name: Option<&[u8]>,
    source_kind: EntryKind,
    dest_kind: EntryKind,
    target_kind: EntryKind,
) -> (res: Result<Plan, StoreError>)
    ensures
        outcome_of(res) == move_outcome(
            root@,
            source@,
            dest@,
            name_view(new_name),
            source_kind,
            dest_kind,
            target_kind,
        ),
{
    if !is_valid_id(source) || !is_valid_folder_ref(dest) {
        return Err(StoreError::InvalidId);
    }
    let name: Vec<u8> = match new_name {
        Some(n) => slice_to_vec(n),
        None => name_of(source),
    };
    if !is_valid_name(name.as_slice()) {
        return Err(StoreError::InvalidId);
    }
    if is_within(source, dest) {
        return Err(StoreError::InvalidId);
    }
    match source_kind {
        EntryKind::Note => {},
        EntryKind::Folder => {},
        _ => {
            return Err(StoreError::NotFound);
        },
    }
    match dest_kind {
        EntryKind::Folder => {},
        _ => {
            return Err(StoreError::NotFound);
        },
    }
    match target_kind {
        EntryKind::Missing => {},
        _ => {
            return Err(StoreError::AlreadyExists);
        },
    }
    let id = child_of(dest, name.as_slice());
    proof {
        lemma_child_valid(dest@, name@);
    }
    let from = match resolve(root, source) {
        Ok(p) => p,
        Err(e) => {
            return Err(e);
        },
    };
    let to = match resolve(root, id.as_slice()) {
        Ok(p) => p,
        Err(e) => {
            return Err(e);
        },
    };
    Ok(Plan { id, action: Action::Rename { from, to } })
}

/// How far a move had come when the filesystem reported a failure.
#[derive(Clone, Copy, Debug, PartialEq, Eq, Structural)]
pub enum MoveStage {
    /// The single rename was tried.
    Renaming,
    /// The source was being copied to the destination.
    Copying,
    /// The copy was complete and the source was being removed.
    RemovingSource,
}

/// What to do after a failure during a move.
#[derive(Clone, Copy, Debug, PartialEq, Eq, Structural)]
pub enum MoveNext {
    /// The rename cannot cross volumes: copy the source to the destination,
    /// then remove the source. This is not atomic.
    CopyThenRemove,
    /// Give up with this error.
    Fail(StoreError),
}

/// A rename that cannot cross volumes falls back to copying; any other
/// failure of the rename is reported as it is; a failure once copying has
/// begun leaves source and destination both, which is reported as a partial
/// move.
pub open spec fn move_failure_outcome(stage: MoveStage, failure: IoFailure) -> MoveNext {
    match stage {
        MoveStage::Renaming => match failure {
            IoFailure::CrossesVolumes => MoveNext::CopyThenRemove,
            _ => MoveNext::Fail(crate::error::failure_kind(failure)),
        },
        _ => MoveNext::Fail(StoreError::PartialMove),
    }
}

/// Decides how a move goes on after the filesystem reported `failure` at
/// `stage`.
pub fn after_move_failure(stage: MoveStage, failure: IoFailure) -> (next: MoveNext)
    ensures
        next == move_failure_outcome(stage, failure),
{
    match stage {
        MoveStage::Renaming => match failure {
            IoFailure::CrossesVolumes => MoveNext::CopyThenRemove,
            _ => MoveNext::Fail(StoreError::from_failure(failure)),
        },
        _ => MoveNext::Fail(StoreError::PartialMove),
    }
}

} // verus!
