use crate::disk::content_on;
use crate::disk::has_entries_on;
use crate::disk::kind_on;
use crate::disk::stepped;
use crate::disk::well_formed;
use crate::disk::Disk;
use crate::disk::StoredView;
use crate::error::failure_kind;
use crate::error::StoreError;
use crate::ops::create_outcome;
use crate::ops::list_outcome;
use crate::ops::plan_list;
use crate::ops::delete_folder_outcome;
use crate::ops::move_name;
use crate::ops::move_outcome;
use crate::ops::name_view;
use crate::ops::note_outcome;
use crate::ops::outcome_of;
use crate::ops::plan_create;
use crate::ops::plan_delete_folder;
use crate::ops::plan_move;
use crate::ops::plan_note;
use crate::ops::plan_rename_folder;
use crate::ops::rename_outcome;
use crate::ops::EntryKind;
use crate::ops::NoteOp;
use crate::ops::Plan;
use crate::ops::PlanView;
use crate::path::base_name;
use crate::path::child_id;
use crate::path::last_sep;
use crate::path::name_start;
use crate::path::child_of;
use crate::path::is_valid_folder_ref;
use crate::path::is_valid_id;
use crate::path::is_valid_name;
use crate::path::lemma_child_valid;
use crate::path::lemma_parent_and_name;
use crate::path::name_of;
use crate::path::parent_id;
use crate::path::parent_of;
use crate::path::resolve;
use crate::path::resolve_folder;
use crate::path::resolved;
use crate::path::resolved_folder;
use crate::disk::same_bytes;
use crate::tree::entry_views;
use crate::tree::listed;
use crate::tree::order_entries;
use crate::tree::sorted_by_name;
use crate::tree::Entry;
use crate::tree::EntryView;
use vstd::prelude::*;
use vstd::slice::slice_to_vec;

verus! {

/// The store on a tree held in memory: every operation looks at the tree,
/// decides as the store decides, and takes the step on the tree.
#[derive(Debug, PartialEq, Eq)]
pub struct MemStore {
    pub root: Vec<u8>,
    pub disk: Disk,
}

/// What an operation answers and what it leaves, given what was decided: a
/// refusal and a failed step leave the tree as it was; a step that succeeds
/// gives the identifier decided on.
pub open spec fn carried_out(
    d: Seq<StoredView>,
    planned: Result<PlanView, StoreError>,
    content: Seq<u8>,
) -> (Result<Seq<u8>, StoreError>, Seq<StoredView>) {
    match planned {
        Err(e) => (Err(e), d),
        Ok(p) => match stepped(d, p.action, content) {
            Ok(next) => (Ok(p.id), next),
            Err(f) => (Err(failure_kind(f)), d),
        },
    }
}

/// An operation's answer with the identifier as a byte sequence.
pub open spec fn answer_of(res: Result<Vec<u8>, StoreError>) -> Result<Seq<u8>, StoreError> {
    match res {
        Ok(id) => Ok(id@),
        Err(e) => Err(e),
    }
}

/// Whether an entry stands directly in the folder at `dir`.
pub open spec fn is_child(e: StoredView, dir: Seq<u8>) -> bool {
    last_sep(e.path) >= 0 && parent_id(e.path) == dir
}

/// An entry of the tree as a listing names it: by the last segment of its
/// place.
pub open spec fn entry_of(e: StoredView) -> EntryView {
    EntryView { name: base_name(e.path), kind: e.kind }
}

/// The entries that stand directly in the folder at `dir`, in the order in
/// which the tree holds them.
pub open spec fn children_on(d: Seq<StoredView>, dir: Seq<u8>) -> Seq<EntryView> {
    d.filter(|e: StoredView| is_child(e, dir)).map_values(|e: StoredView| entry_of(e))
}

/// Where something stands, it has a text.
pub proof fn lemma_present_has_content(d: Seq<StoredView>, p: Seq<u8>)
    ensures
        (kind_on(d, p) == EntryKind::Missing) || content_on(d, p) is Some,
    decreases d.len(),
{
    if d.len() > 0 && d.last().path != p {
        lemma_present_has_content(d.drop_last(), p);
    }
}

impl MemStore {
    /// A store whose tree holds the root folder and nothing else.
    pub fn new(root: &[u8]) -> (s: MemStore)
        ensures
            s.root@ == root@,
            s.disk@ == seq![
                StoredView { path: root@, kind: EntryKind::Folder, content: Seq::<u8>::empty() },
            ],
            well_formed(s.disk@),
    {
        MemStore { root: slice_to_vec(root), disk: Disk::new(root) }
    }

    /// Tells what stands under the identifier `id`; `Missing` also where
    /// the identifier is not accepted.
    pub fn kind_of(&self, id: &[u8]) -> (k: EntryKind)
        ensures
            k == (if crate::path::valid_id(id@) {
                kind_on(self.disk@, resolved(self.root@, id@))
            } else {
                EntryKind::Missing
            }),
    {
        match resolve(self.root.as_slice(), id) {
            Ok(p) => self.disk.kind_at(p.as_slice()),
            Err(_) => EntryKind::Missing,
        }
    }

    /// Takes the step decided on, if one was decided on.
    fn carry_out(&mut self, planned: Result<Plan, StoreError>, content: &[u8]) -> (res: Result<
        Vec<u8>,
        StoreError,
    >)
        ensures
            final(self).root@ == old(self).root@,
            well_formed(old(self).disk@) ==> well_formed(final(self).disk@),
            (answer_of(res), final(self).disk@) == carried_out(
                old(self).disk@,
                outcome_of(planned),
                content@,
            ),
    {
        match planned {
            Err(e) => Err(e),
            Ok(plan) => match self.disk.perform(&plan.action, content) {
                Ok(()) => Ok(plan.id),
                Err(f) => Err(StoreError::from_failure(f)),
            },
        }
    }

    /// Lists the folder `folder` (empty for the root): the notes and
    /// folders that stand directly in it, in the order of their names.
    pub fn list_notes(&self, folder: &[u8]) -> (res: Result<Vec<Entry>, StoreError>)
        ensures
            match list_outcome(
                self.root@,
                folder@,
                kind_on(self.disk@, resolved_folder(self.root@, folder@)),
            ) {
                Ok(_) => res is Ok && sorted_by_name(entry_views(res->Ok_0@)) && entry_views(
                    res->Ok_0@,
                ).to_multiset() == children_on(
                    self.disk@,
                    resolved_folder(self.root@, folder@),
                ).filter(|e: EntryView| listed(e)).to_multiset(),
                Err(e) => res == Err::<Vec<Entry>, StoreError>(e),
            },
    {
        let dir = match resolve_folder(self.root.as_slice(), folder) {
            Ok(p) => p,
            Err(e) => {
                return Err(e);
            },
        };
        let kind = self.disk.kind_at(dir.as_slice());
        match plan_list(self.root.as_slice(), folder, kind) {
            Err(e) => {
                return Err(e);
            },
            Ok(_) => {},
        }
        let ghost d = self.disk@;
        let ghost child = |e: StoredView| is_child(e, dir@);
        let ghost named = |e: StoredView| entry_of(e);
        let mut found: Vec<Entry> = Vec::new();
        let mut i: usize = 0;
        assert(entry_views(found@) =~= d.subrange(0, 0).filter(child).map_values(named)) by {
            assert(d.subrange(0, 0) =~= Seq::<StoredView>::empty());
            Seq::<StoredView>::empty().lemma_filter_len(child);
        }
        while i < self.disk.entries.len()
            invariant
                0 <= i <= self.disk.entries@.len(),
                d == self.disk@,
                child == (|e: StoredView| is_child(e, dir@)),
                named == (|e: StoredView| entry_of(e)),
                entry_views(found@) == d.subrange(0, i as int).filter(child).map_values(named),
            decreases self.disk.entries@.len() - i,
        {
            let e = &self.disk.entries[i];
            let ghost head = d.subrange(0, i as int);
            proof {
                assert(d.subrange(0, i + 1) =~= head.push(e@));
                head.lemma_filter_push(e@, child);
            }
            let start: usize = name_start(e.path.as_slice());
            if start > 0 {
                let parent = parent_of(e.path.as_slice());
                if same_bytes(parent.as_slice(), dir.as_slice()) {
                    let ghost prev = entry_views(found@);
                    found.push(Entry { name: name_of(e.path.as_slice()), kind: e.kind });
                    assert(entry_views(found@) =~= prev.push(entry_of(e@)));
                    assert(head.filter(child).push(e@).map_values(named) =~= head.filter(
                        child,
                    ).map_values(named).push(entry_of(e@)));
                }
            }
            i += 1;
        }
        assert(d.subrange(0, i as int) =~= d);
        Ok(order_entries(found.as_slice()))
    }

    /// Reads the text of the note `id`.
    pub fn read_note(&self, id: &[u8]) -> (res: Result<Vec<u8>, StoreError>)
        ensures
            match note_outcome(
                self.root@,
                id@,
                kind_on(self.disk@, resolved(self.root@, id@)),
                NoteOp::Read,
            ) {
                Ok(_) => res is Ok && content_on(self.disk@, resolved(self.root@, id@)) == Some(
                    res->Ok_0@,
                ),
                Err(e) => res == Err::<Vec<u8>, StoreError>(e),
            },
    {
        let path = match resolve(self.root.as_slice(), id) {
            Ok(p) => p,
            Err(e) => {
                return Err(e);
            },
        };
        let kind = self.disk.kind_at(path.as_slice());
        match plan_note(self.root.as_slice(), id, kind, NoteOp::Read) {
            Err(e) => Err(e),
            Ok(_) => {
                proof {
                    lemma_present_has_content(self.disk@, path@);
                }
                match self.disk.content_at(path.as_slice()) {
                    Some(c) => Ok(c),
                    None => Err(StoreError::NotFound),
                }
            },
        }
    }

    /// Creates a note or a folder called `name` in `parent` (empty for the
    /// root).
    fn create(&mut self, parent: &[u8], name: &[u8], content: &[u8], folder_wanted: bool) -> (res:
        Result<Vec<u8>, StoreError>)
        ensures
            final(self).root@ == old(self).root@,
            well_formed(old(self).disk@) ==> well_formed(final(self).disk@),
            (answer_of(res), final(self).disk@) == carried_out(
                old(self).disk@,
                create_outcome(
                    old(self).root@,
                    parent@,
                    name@,
                    kind_on(old(self).disk@, resolved_folder(old(self).root@, parent@)),
                    kind_on(
                        old(self).disk@,
                        resolved(old(self).root@, child_id(parent@, name@)),
                    ),
                    folder_wanted,
                ),
                content@,
            ),
    {
        if !is_valid_folder_ref(parent) || !is_valid_name(name) {
            return Err(StoreError::InvalidId);
        }
        let id = child_of(parent, name);
        proof {
            lemma_child_valid(parent@, name@);
        }
        let parent_path = match resolve_folder(self.root.as_slice(), parent) {
            Ok(p) => p,
            Err(e) => {
                return Err(e);
            },
        };
        let target_path = match resolve(self.root.as_slice(), id.as_slice()) {
            Ok(p) => p,
            Err(e) => {
                return Err(e);
            },
        };
        let parent_kind = self.disk.kind_at(parent_path.as_slice());
        let target_kind = self.disk.kind_at(target_path.as_slice());
        let planned = plan_create(
            self.root.as_slice(),
            parent,
            name,
            parent_kind,
            target_kind,
            folder_wanted,
        );
        self.carry_out(planned, content)
    }

    /// Creates the note `name` in `folder` with the text `content` and
    /// gives its identifier. Nothing that stands under that name is
    /// replaced.
    pub fn create_note(&mut self, folder: &[u8], name: &[u8], content: &[u8]) -> (res: Result<
        Vec<u8>,
        StoreError,
    >)
        ensures
            final(self).root@ == old(self).root@,
            well_formed(old(self).disk@) ==> well_formed(final(self).disk@),
            (answer_of(res), final(self).disk@) == carried_out(
                old(self).disk@,
                create_outcome(
                    old(self).root@,
                    folder@,
                    name@,
                    kind_on(old(self).disk@, resolved_folder(old(self).root@, folder@)),
                    kind_on(
                        old(self).disk@,
                        resolved(old(self).root@, child_id(folder@, name@)),
                    ),
                    false,
                ),
                content@,
            ),
    {
        self.create(folder, name, content, false)
    }

    /// Creates the folder `name` in `parent` and gives its identifier.
    pub fn create_folder(&mut self, parent: &[u8], name: &[u8]) -> (res: Result<
        Vec<u8>,
        StoreError,
    >)
        ensures
            final(self).root@ == old(self).root@,
            well_formed(old(self).disk@) ==> well_formed(final(self).disk@),
            (answer_of(res), final(self).disk@) == carried_out(
                old(self).disk@,
                create_outcome(
                    old(self).root@,
                    parent@,
                    name@,
                    kind_on(old(self).disk@, resolved_folder(old(self).root@, parent@)),
                    kind_on(
                        old(self).disk@,
                        resolved(old(self).root@, child_id(parent@, name@)),
                    ),
                    true,
                ),
                Seq::<u8>::empty(),
            ),
    {
        let nothing: Vec<u8> = Vec::new();
        assert(nothing@ =~= Seq::<u8>::empty());
        self.create(parent, name, nothing.as_slice(), true)
    }

    /// Updates or deletes the note `id`.
    fn change_note(&mut self, id: &[u8], content: &[u8], op: NoteOp) -> (res: Result<
        Vec<u8>,
        StoreError,
    >)
        ensures
            final(self).root@ == old(self).root@,
            well_formed(old(self).disk@) ==> well_formed(final(self).disk@),
            (answer_of(res), final(self).disk@) == carried_out(
                old(self).disk@,
                note_outcome(
                    old(self).root@,
                    id@,
                    kind_on(old(self).disk@, resolved(old(self).root@, id@)),
                    op,
                ),
                content@,
            ),
    {
        let path = match resolve(self.root.as_slice(), id) {
            Ok(p) => p,
            Err(e) => {
                return Err(e);
            },
        };
        let kind = self.disk.kind_at(path.as_slice());
        let planned = plan_note(self.root.as_slice(), id, kind, op);
        self.carry_out(planned, content)
    }

    /// Replaces the text of the note `id` by `content`.
    pub fn update_note(&mut self, id: &[u8], content: &[u8]) -> (res: Result<(), StoreError>)
        ensures
            final(self).root@ == old(self).root@,
            well_formed(old(self).disk@) ==> well_formed(final(self).disk@),
            ({
                let want = carried_out(
                    old(self).disk@,
                    note_outcome(
                        old(self).root@,
                        id@,
                        kind_on(old(self).disk@, resolved(old(self).root@, id@)),
                        NoteOp::Update,
                    ),
                    content@,
                );
                &&& final(self).disk@ == want.1
                &&& match want.0 {
                    Ok(_) => res is Ok,
                    Err(e) => res == Err::<(), StoreError>(e),
                }
            }),
    {
        match self.change_note(id, content, NoteOp::Update) {
            Ok(_) => Ok(()),
            Err(e) => Err(e),
        }
    }

    /// Deletes the note `id`. A folder is not deleted this way.
    pub fn delete_note(&mut self, id: &[u8]) -> (res: Result<(), StoreError>)
        ensures
            final(self).root@ == old(self).root@,
            well_formed(old(self).disk@) ==> well_formed(final(self).disk@),
            ({
                let want = carried_out(
                    old(self).disk@,
                    note_outcome(
                        old(self).root@,
                        id@,
                        kind_on(old(self).disk@, resolved(old(self).root@, id@)),
                        NoteOp::Delete,
                    ),
                    Seq::<u8>::empty(),
                );
                &&& final(self).disk@ == want.1
                &&& match want.0 {
                    Ok(_) => res is Ok,
                    Err(e) => res == Err::<(), StoreError>(e),
                }
            }),
    {
        let nothing: Vec<u8> = Vec::new();
        assert(nothing@ =~= Seq::<u8>::empty());
        match self.change_note(id, nothing.as_slice(), NoteOp::Delete) {
            Ok(_) => Ok(()),
            Err(e) => Err(e),
        }
    }

    /// Renames the folder `folder` to `new_name` within its parent and
    /// gives its new identifier. All that lies within it goes with it.
    pub fn rename_folder(&mut self, folder: &[u8], new_name: &[u8]) -> (res: Result<
        Vec<u8>,
        StoreError,
    >)
        ensures
            final(self).root@ == old(self).root@,
            well_formed(old(self).disk@) ==> well_formed(final(self).disk@),
            (answer_of(res), final(self).disk@) == carried_out(
                old(self).disk@,
                rename_outcome(
                    old(self).root@,
                    folder@,
                    new_name@,
                    kind_on(old(self).disk@, resolved(old(self).root@, folder@)),
                    kind_on(
                        old(self).disk@,
                        resolved(old(self).root@, child_id(parent_id(folder@), new_name@)),
                    ),
                ),
                Seq::<u8>::empty(),
            ),
    {
        if !is_valid_id(folder) || !is_valid_name(new_name) {
            return Err(StoreError::InvalidId);
        }
        let parent = parent_of(folder);
        let target = child_of(parent.as_slice(), new_name);
        proof {
            lemma_parent_and_name(folder@);
            lemma_child_valid(parent@, new_name@);
        }
        let from = match resolve(self.root.as_slice(), folder) {
            Ok(p) => p,
            Err(e) => {
                return Err(e);
            },
        };
        let to = match resolve(self.root.as_slice(), target.as_slice()) {
            Ok(p) => p,
            Err(e) => {
                return Err(e);
            },
        };
        let kind = self.disk.kind_at(from.as_slice());
        let target_kind = self.disk.kind_at(to.as_slice());
        let planned = plan_rename_folder(self.root.as_slice(), folder, new_name, kind, target_kind);
        let nothing: Vec<u8> = Vec::new();
        assert(nothing@ =~= Seq::<u8>::empty());
        self.carry_out(planned, nothing.as_slice())
    }

    /// Deletes the folder `folder`: with all that lies within it where
    /// `recursive`, else only if nothing lies within it.
    pub fn delete_folder(&mut self, folder: &[u8], recursive: bool) -> (res: Result<
        (),
        StoreError,
    >)
        ensures
            final(self).root@ == old(self).root@,
            well_formed(old(self).disk@) ==> well_formed(final(self).disk@),
            ({
                let want = carried_out(
                    old(self).disk@,
                    delete_folder_outcome(
                        old(self).root@,
                        folder@,
                        recursive,
                        kind_on(old(self).disk@, resolved(old(self).root@, folder@)),
                        has_entries_on(old(self).disk@, resolved(old(self).root@, folder@)),
                    ),
                    Seq::<u8>::empty(),
                );
                &&& final(self).disk@ == want.1
                &&& match want.0 {
                    Ok(_) => res is Ok,
                    Err(e) => res == Err::<(), StoreError>(e),
                }
            }),
    {
        let path = match resolve(self.root.as_slice(), folder) {
            Ok(p) => p,
            Err(e) => {
                return Err(e);
            },
        };
        let kind = self.disk.kind_at(path.as_slice());
        let has_children = self.disk.has_entries(path.as_slice());
        let planned = plan_delete_folder(
            self.root.as_slice(),
            folder,
            recursive,
            kind,
            has_children,
        );
        let nothing: Vec<u8> = Vec::new();
        assert(nothing@ =~= Seq::<u8>::empty());
        match self.carry_out(planned, nothing.as_slice()) {
            Ok(_) => Ok(()),
            Err(e) => Err(e),
        }
    }

    /// Moves the note or folder `source` into the folder `dest` (empty for
    /// the root), under `new_name` or else under its own name, and gives its
    /// new identifier.
    pub fn move_note(&mut self, source: &[u8], dest: &[u8], new_name: Option<&[u8]>) -> (res:
        Result<Vec<u8>, StoreError>)
        ensures
            final(self).root@ == old(self).root@,
            well_formed(old(self).disk@) ==> well_formed(final(self).disk@),
            (answer_of(res), final(self).disk@) == carried_out(
                old(self).disk@,
                move_outcome(
                    old(self).root@,
                    source@,
                    dest@,
                    name_view(new_name),
                    kind_on(old(self).disk@, resolved(old(self).root@, source@)),
                    kind_on(old(self).disk@, resolved_folder(old(self).root@, dest@)),
                    kind_on(
                        old(self).disk@,
                        resolved(
                            old(self).root@,
                            child_id(dest@, move_name(source@, name_view(new_name))),
                        ),
                    ),
                ),
                Seq::<u8>::empty(),
            ),
    {
        if !is_valid_id(source) || !is_valid_folder_ref(dest) {
            return Err(StoreError::InvalidId);
        }
        let name: Vec<u8> = match new_name {
            Some(n) => slice_to_vec(n),
            None => name_of(source),
        };
        if !is_valid_name(name.as_slice()) {
            return Err(StoreError::InvalidId);
        }
        let target = child_of(dest, name.as_slice());
        proof {
            lemma_child_valid(dest@, name@);
        }
        let from = match resolve(self.root.as_slice(), source) {
            Ok(p) => p,
            Err(e) => {
                return Err(e);
            },
        };
        let into = match resolve_folder(self.root.as_slice(), dest) {
            Ok(p) => p,
            Err(e) => {
                return Err(e);
            },
        };
        let to = match resolve(self.root.as_slice(), target.as_slice()) {
            Ok(p) => p,
            Err(e) => {
                return Err(e);
            },
        };
        let source_kind = self.disk.kind_at(from.as_slice());
        let dest_kind = self.disk.kind_at(into.as_slice());
        let target_kind = self.disk.kind_at(to.as_slice());
        let planned = plan_move(
            self.root.as_slice(),
            source,
            dest,
            new_name,
            source_kind,
            dest_kind,
            target_kind,
        );
        let nothing: Vec<u8> = Vec::new();
        assert(nothing@ =~= Seq::<u8>::empty());
        self.carry_out(planned, nothing.as_slice())
    }
}

} // verus!
