use crate::error::IoFailure;
use crate::ops::Action;
use crate::ops::ActionView;
use crate::ops::EntryKind;
use crate::path::is_within;
use crate::path::lemma_rebased_injective;
use crate::path::lemma_rebased_within;
use crate::path::rebase;
use crate::path::rebased;
use crate::path::within;
use vstd::prelude::*;
use vstd::slice::slice_to_vec;

verus! {

/// One entry of the tree on disk: its place, whether it is a note or a
/// folder, and the text of a note.
#[derive(Debug, PartialEq, Eq)]
pub struct Stored {
    pub path: Vec<u8>,
    pub kind: EntryKind,
    pub content: Vec<u8>,
}

/// A [`Stored`] entry with its place and text as byte sequences.
pub struct StoredView {
    pub path: Seq<u8>,
    pub kind: EntryKind,
    pub content: Seq<u8>,
}

impl View for Stored {
    type V = StoredView;

    open spec fn view(&self) -> StoredView {
        StoredView { path: self.path@, kind: self.kind, content: self.content@ }
    }
}

/// The tree on disk held in memory: what the steps of the store are taken
/// to do to the entries below the root. A host can rehearse a plan on it
/// before it touches the disk; the laws of the store that speak of the tree
/// are stated over it.
#[derive(Debug, PartialEq, Eq)]
pub struct Disk {
    pub entries: Vec<Stored>,
}

impl View for Disk {
    type V = Seq<StoredView>;

    open spec fn view(&self) -> Seq<StoredView> {
        stored_views(self.entries@)
    }
}

/// The views of the entries of `s`, in order.
pub open spec fn stored_views(s: Seq<Stored>) -> Seq<StoredView> {
    Seq::new(s.len(), |i: int| s[i]@)
}

/// What stands at `path`: the kind of the entry last put there, or
/// `Missing`.
pub open spec fn kind_on(d: Seq<StoredView>, path: Seq<u8>) -> EntryKind
    decreases d.len(),
{
    if d.len() == 0 {
        EntryKind::Missing
    } else if d.last().path == path {
        d.last().kind
    } else {
        kind_on(d.drop_last(), path)
    }
}

/// The text of the entry last put at `path`, if there is one.
pub open spec fn content_on(d: Seq<StoredView>, path: Seq<u8>) -> Option<Seq<u8>>
    decreases d.len(),
{
    if d.len() == 0 {
        None
    } else if d.last().path == path {
        Some(d.last().content)
    } else {
        content_on(d.drop_last(), path)
    }
}

/// Whether anything lies below `dir`.
pub open spec fn has_entries_on(d: Seq<StoredView>, dir: Seq<u8>) -> bool {
    exists|i: int| 0 <= i < d.len() && within(dir, #[trigger] d[i].path) && d[i].path != dir
}

/// Whether an entry stays when `dir` is removed: with all below it where
/// `deep`, else alone.
pub open spec fn stays(e: StoredView, dir: Seq<u8>, deep: bool) -> bool {
    if deep {
        !within(dir, e.path)
    } else {
        e.path != dir
    }
}

/// The tree without the entry at `dir`, and without all below it where
/// `deep`.
pub open spec fn removed(d: Seq<StoredView>, dir: Seq<u8>, deep: bool) -> Seq<StoredView> {
    d.filter(|e: StoredView| stays(e, dir, deep))
}

/// An entry after `from` has become `to`: rebased if it lies within `from`,
/// else as it was.
pub open spec fn moved_entry(e: StoredView, from: Seq<u8>, to: Seq<u8>) -> StoredView {
    if within(from, e.path) {
        StoredView { path: rebased(e.path, from, to), kind: e.kind, content: e.content }
    } else {
        e
    }
}

/// The tree after `from` has become `to`.
pub open spec fn renamed(d: Seq<StoredView>, from: Seq<u8>, to: Seq<u8>) -> Seq<StoredView> {
    Seq::new(d.len(), |i: int| moved_entry(d[i], from, to))
}

/// What a step does to the tree, or the failure that it meets. A failed
/// step changes nothing.
pub open spec fn stepped(d: Seq<StoredView>, action: ActionView, content: Seq<u8>) -> Result<
    Seq<StoredView>,
    IoFailure,
> {
    match action {
        ActionView::ListDir { path } => match kind_on(d, path) {
            EntryKind::Folder => Ok(d),
            EntryKind::Missing => Err(IoFailure::Missing),
            _ => Err(IoFailure::NotDirectory),
        },
        ActionView::ReadFile { path } => match kind_on(d, path) {
            EntryKind::Note => Ok(d),
            EntryKind::Missing => Err(IoFailure::Missing),
            _ => Err(IoFailure::IsDirectory),
        },
        ActionView::WriteNew { temp, target } => match kind_on(d, target) {
            EntryKind::Missing => Ok(
                d.push(StoredView { path: target, kind: EntryKind::Note, content }),
            ),
            _ => Err(IoFailure::Exists),
        },
        ActionView::Replace { temp, target } => match kind_on(d, target) {
            EntryKind::Folder => Err(IoFailure::IsDirectory),
            _ => Ok(
                removed(d, target, false).push(
                    StoredView { path: target, kind: EntryKind::Note, content },
                ),
            ),
        },
        ActionView::RemoveFile { path } => match kind_on(d, path) {
            EntryKind::Missing => Err(IoFailure::Missing),
            EntryKind::Folder => Err(IoFailure::IsDirectory),
            _ => Ok(removed(d, path, false)),
        },
        ActionView::MakeDir { path } => match kind_on(d, path) {
            EntryKind::Missing => Ok(
                d.push(StoredView { path, kind: EntryKind::Folder, content: Seq::empty() }),
            ),
            _ => Err(IoFailure::Exists),
        },
        ActionView::Rename { from, to } => if kind_on(d, from) == EntryKind::Missing {
            Err(IoFailure::Missing)
        } else if within(from, to) {
            Err(IoFailure::IntoItself)
        } else if kind_on(d, to) != EntryKind::Missing || has_entries_on(d, to) {
            Err(IoFailure::Exists)
        } else {
            Ok(renamed(d, from, to))
        },
        ActionView::RemoveEmptyDir { path } => match kind_on(d, path) {
            EntryKind::Missing => Err(IoFailure::Missing),
            EntryKind::Folder => if has_entries_on(d, path) {
                Err(IoFailure::DirectoryNotEmpty)
            } else {
                Ok(removed(d, path, false))
            },
            _ => Err(IoFailure::NotDirectory),
        },
        ActionView::RemoveTree { path, staging } => match kind_on(d, path) {
            EntryKind::Missing => Err(IoFailure::Missing),
            EntryKind::Folder => Ok(removed(d, path, true)),
            _ => Err(IoFailure::NotDirectory),
        },
    }
}

/// The tree as a step leaves it when the process dies in the middle of
/// the step. A step that writes has then written its temporary file and
/// not yet given it its name; the recursive removal has moved the folder
/// aside and not yet removed anything; every other step is a single change
/// of the tree, which has not happened.
pub open spec fn interrupted(d: Seq<StoredView>, action: ActionView, content: Seq<u8>) -> Seq<
    StoredView,
> {
    match action {
        ActionView::WriteNew { temp, target } => d.push(
            StoredView { path: temp, kind: EntryKind::Note, content },
        ),
        ActionView::Replace { temp, target } => d.push(
            StoredView { path: temp, kind: EntryKind::Note, content },
        ),
        ActionView::RemoveTree { path, staging } => renamed(d, path, staging),
        _ => d,
    }
}

/// A tree as the filesystem keeps it: every entry is a note or a folder,
/// and no two entries have the same place. So no two children of a folder
/// share a name, and nothing is a note and a folder at once.
pub open spec fn well_formed(d: Seq<StoredView>) -> bool {
    &&& forall|i: int|
        0 <= i < d.len() ==> (#[trigger] d[i]).kind == EntryKind::Note || d[i].kind
            == EntryKind::Folder
    &&& forall|i: int, j: int|
        0 <= i < j < d.len() ==> (#[trigger] d[i]).path != (#[trigger] d[j]).path
}

/// On a well-formed tree, where nothing stands no entry has its place.
pub proof fn lemma_missing_is_absent(d: Seq<StoredView>, p: Seq<u8>)
    requires
        well_formed(d),
        kind_on(d, p) == EntryKind::Missing,
    ensures
        forall|i: int| 0 <= i < d.len() ==> (#[trigger] d[i]).path != p,
    decreases d.len(),
{
    if d.len() > 0 {
        let d1 = d.drop_last();
        assert(d.last() == d[d.len() - 1]);
        assert(well_formed(d1)) by {
            assert forall|i: int| 0 <= i < d1.len() implies d1[i] == d[i] by {}
        }
        lemma_missing_is_absent(d1, p);
        assert forall|i: int| 0 <= i < d.len() implies (#[trigger] d[i]).path != p by {
            if i < d1.len() {
                assert(d1[i] == d[i]);
            }
        }
    }
}

/// On a well-formed tree, where nothing stands at `to` and nothing lies
/// below it, no entry lies within `to`.
pub proof fn lemma_free_place(d: Seq<StoredView>, to: Seq<u8>)
    requires
        well_formed(d),
        kind_on(d, to) == EntryKind::Missing,
        !has_entries_on(d, to),
    ensures
        forall|i: int| 0 <= i < d.len() ==> !within(to, (#[trigger] d[i]).path),
{
    lemma_missing_is_absent(d, to);
}

/// Removing entries keeps the tree well-formed, and what is left was there
/// before.
pub proof fn lemma_removed_well_formed(d: Seq<StoredView>, dir: Seq<u8>, deep: bool)
    requires
        well_formed(d),
    ensures
        well_formed(removed(d, dir, deep)),
        forall|k: int|
            0 <= k < removed(d, dir, deep).len() ==> d.contains(
                #[trigger] removed(d, dir, deep)[k],
            ) && stays(removed(d, dir, deep)[k], dir, deep),
    decreases d.len(),
{
    let pred = |e: StoredView| stays(e, dir, deep);
    if d.len() > 0 {
        let d1 = d.drop_last();
        let e = d.last();
        assert(d1.push(e) =~= d);
        assert(well_formed(d1)) by {
            assert forall|i: int| 0 <= i < d1.len() implies d1[i] == d[i] by {}
        }
        d1.lemma_filter_push(e, pred);
        lemma_removed_well_formed(d1, dir, deep);
        let r1 = removed(d1, dir, deep);
        let r = removed(d, dir, deep);
        assert forall|k: int| 0 <= k < r1.len() implies d.contains(#[trigger] r1[k]) && r1[k].path
            != e.path by {
            let i = choose|i: int| 0 <= i < d1.len() && d1[i] == r1[k];
            assert(d[i] == r1[k]);
            assert(d[d.len() - 1] == e);
        }
        if stays(e, dir, deep) {
            assert(r == r1.push(e));
            assert(d[d.len() - 1] == e);
            assert forall|k: int| 0 <= k < r.len() implies d.contains(#[trigger] r[k]) && stays(
                r[k],
                dir,
                deep,
            ) by {
                if k < r1.len() {
                    assert(r[k] == r1[k]);
                }
            }
            assert forall|i: int, j: int| 0 <= i < j < r.len() implies (#[trigger] r[i]).path != (
            #[trigger] r[j]).path by {
                assert(r[i] == r1[i]);
                if j < r1.len() {
                    assert(r[j] == r1[j]);
                }
            }
        }
    } else {
        d.lemma_filter_len(pred);
    }
}

/// Giving every entry within `from` its place within `to` keeps the tree
/// well-formed, where `to` does not lie within `from` and nothing lay
/// within `to`.
pub proof fn lemma_renamed_well_formed(d: Seq<StoredView>, from: Seq<u8>, to: Seq<u8>)
    requires
        well_formed(d),
        !within(from, to),
        forall|i: int| 0 <= i < d.len() ==> !within(to, (#[trigger] d[i]).path),
    ensures
        well_formed(renamed(d, from, to)),
{
    let n = renamed(d, from, to);
    assert(from.len() > 0);
    assert forall|i: int, j: int| 0 <= i < j < n.len() implies (#[trigger] n[i]).path != (
    #[trigger] n[j]).path by {
        let a = d[i];
        let b = d[j];
        assert(n[i] == moved_entry(a, from, to));
        assert(n[j] == moved_entry(b, from, to));
        if to.len() > 0 {
            if within(from, a.path) {
                lemma_rebased_within(a.path, from, to);
            }
            if within(from, b.path) {
                lemma_rebased_within(b.path, from, to);
            }
        }
        if within(from, a.path) && within(from, b.path) && n[i].path == n[j].path {
            lemma_rebased_injective(a.path, b.path, from, to);
        }
    }
    assert forall|i: int| 0 <= i < n.len() implies (#[trigger] n[i]).kind == EntryKind::Note
        || n[i].kind == EntryKind::Folder by {
        assert(n[i] == moved_entry(d[i], from, to));
    }
}

/// Every step keeps a well-formed tree well-formed.
pub proof fn lemma_step_keeps_well_formed(
    d: Seq<StoredView>,
    action: ActionView,
    content: Seq<u8>,
)
    requires
        well_formed(d),
    ensures
        match stepped(d, action, content) {
            Ok(next) => well_formed(next),
            Err(_) => true,
        },
{
    match action {
        ActionView::WriteNew { temp, target } => {
            if kind_on(d, target) == EntryKind::Missing {
                lemma_missing_is_absent(d, target);
            }
        },
        ActionView::MakeDir { path } => {
            if kind_on(d, path) == EntryKind::Missing {
                lemma_missing_is_absent(d, path);
            }
        },
        ActionView::Replace { temp, target } => {
            lemma_removed_well_formed(d, target, false);
        },
        ActionView::RemoveFile { path } => {
            lemma_removed_well_formed(d, path, false);
        },
        ActionView::RemoveEmptyDir { path } => {
            lemma_removed_well_formed(d, path, false);
        },
        ActionView::RemoveTree { path, staging } => {
            lemma_removed_well_formed(d, path, true);
        },
        ActionView::Rename { from, to } => {
            if stepped(d, action, content) is Ok {
                lemma_free_place(d, to);
                lemma_renamed_well_formed(d, from, to);
            }
        },
        _ => {},
    }
}

/// Tells whether two byte strings are the same.
pub fn same_bytes(a: &[u8], b: &[u8]) -> (r: bool)
    ensures
        r == (a@ == b@),
{
    if a.len() != b.len() {
        return false;
    }
    let mut i: usize = 0;
    while i < a.len()
        invariant
            a@.len() == b@.len(),
            0 <= i <= a@.len(),
            forall|j: int| 0 <= j < i ==> a@[j] == b@[j],
        decreases a@.len() - i,
    {
        if a[i] != b[i] {
            return false;
        }
        i += 1;
    }
    assert(a@ =~= b@);
    true
}

impl Disk {
    /// A tree that holds the root folder and nothing else.
    pub fn new(root: &[u8]) -> (d: Disk)
        ensures
            d@ == seq![
                StoredView { path: root@, kind: EntryKind::Folder, content: Seq::<u8>::empty() },
            ],
            well_formed(d@),
    {
        let mut entries: Vec<Stored> = Vec::new();
        entries.push(
            Stored { path: slice_to_vec(root), kind: EntryKind::Folder, content: Vec::new() },
        );
        let d = Disk { entries };
        assert(d@ =~= seq![
            StoredView { path: root@, kind: EntryKind::Folder, content: Seq::<u8>::empty() },
        ]);
        d
    }

    /// Tells what stands at `path`.
    pub fn kind_at(&self, path: &[u8]) -> (k: EntryKind)
        ensures
            k == kind_on(self@, path@),
    {
        let mut k: EntryKind = EntryKind::Missing;
        let mut i: usize = 0;
        assert(self@.subrange(0, 0) =~= Seq::<StoredView>::empty());
        while i < self.entries.len()
            invariant
                0 <= i <= self.entries@.len(),
                k == kind_on(self@.subrange(0, i as int), path@),
            decreases self.entries@.len() - i,
        {
            assert(self@.subrange(0, i + 1).drop_last() =~= self@.subrange(0, i as int));
            assert(self@.subrange(0, i + 1).last() == self.entries@[i as int]@);
            if same_bytes(self.entries[i].path.as_slice(), path) {
                k = self.entries[i].kind;
            }
            i += 1;
        }
        assert(self@.subrange(0, i as int) =~= self@);
        k
    }

    /// Gives the text of the note at `path`, if an entry stands there.
    pub fn content_at(&self, path: &[u8]) -> (c: Option<Vec<u8>>)
        ensures
            match c {
                Some(v) => content_on(self@, path@) == Some(v@),
                None => content_on(self@, path@) is None,
            },
    {
        let mut c: Option<Vec<u8>> = None;
        let mut i: usize = 0;
        assert(self@.subrange(0, 0) =~= Seq::<StoredView>::empty());
        while i < self.entries.len()
            invariant
                0 <= i <= self.entries@.len(),
                match c {
                    Some(v) => content_on(self@.subrange(0, i as int), path@) == Some(v@),
                    None => content_on(self@.subrange(0, i as int), path@) is None,
                },
            decreases self.entries@.len() - i,
        {
            assert(self@.subrange(0, i + 1).drop_last() =~= self@.subrange(0, i as int));
            assert(self@.subrange(0, i + 1).last() == self.entries@[i as int]@);
            if same_bytes(self.entries[i].path.as_slice(), path) {
                c = Some(slice_to_vec(self.entries[i].content.as_slice()));
            }
            i += 1;
        }
        assert(self@.subrange(0, i as int) =~= self@);
        c
    }

    /// Tells whether anything lies below `dir`.
    pub fn has_entries(&self, dir: &[u8]) -> (b: bool)
        ensures
            b == has_entries_on(self@, dir@),
    {
        let mut i: usize = 0;
        while i < self.entries.len()
            invariant
                0 <= i <= self.entries@.len(),
                forall|j: int|
                    0 <= j < i ==> !(within(dir@, #[trigger] self@[j].path) && self@[j].path
                        != dir@),
            decreases self.entries@.len() - i,
        {
            let p = self.entries[i].path.as_slice();
            if is_within(dir, p) && !same_bytes(p, dir) {
                assert(within(dir@, self@[i as int].path) && self@[i as int].path != dir@);
                return true;
            }
            i += 1;
        }
        false
    }

    /// Removes the entry at `dir`, with all below it where `deep`.
    fn remove(&mut self, dir: &[u8], deep: bool)
        ensures
            final(self)@ == removed(old(self)@, dir@, deep),
    {
        let ghost pred = |e: StoredView| stays(e, dir@, deep);
        let ghost before = self@;
        let mut out: Vec<Stored> = Vec::new();
        let mut i: usize = 0;
        assert(stored_views(out@) =~= before.subrange(0, 0).filter(pred)) by {
            assert(before.subrange(0, 0) =~= Seq::<StoredView>::empty());
            Seq::<StoredView>::empty().lemma_filter_len(pred);
        }
        while i < self.entries.len()
            invariant
                0 <= i <= self.entries@.len(),
                self@ == before,
                pred == (|e: StoredView| stays(e, dir@, deep)),
                stored_views(out@) == before.subrange(0, i as int).filter(pred),
            decreases self.entries@.len() - i,
        {
            let e = &self.entries[i];
            proof {
                let head = before.subrange(0, i as int);
                assert(before.subrange(0, i + 1) =~= head.push(e@));
                head.lemma_filter_push(e@, pred);
            }
            let gone: bool = if deep {
                is_within(dir, e.path.as_slice())
            } else {
                same_bytes(e.path.as_slice(), dir)
            };
            if !gone {
                let ghost prev = stored_views(out@);
                out.push(
                    Stored {
                        path: slice_to_vec(e.path.as_slice()),
                        kind: e.kind,
                        content: slice_to_vec(e.content.as_slice()),
                    },
                );
                assert(stored_views(out@) =~= prev.push(e@));
            }
            i += 1;
        }
        assert(before.subrange(0, i as int) =~= before);
        self.entries = out;
    }

    /// Gives every entry within `from` its place within `to`.
    fn rename(&mut self, from: &[u8], to: &[u8])
        ensures
            final(self)@ == renamed(old(self)@, from@, to@),
    {
        let ghost before = self@;
        let mut out: Vec<Stored> = Vec::new();
        let mut i: usize = 0;
        while i < self.entries.len()
            invariant
                0 <= i <= self.entries@.len(),
                self@ == before,
                out@.len() == i,
                forall|j: int|
                    0 <= j < i ==> (#[trigger] out@[j])@ == moved_entry(before[j], from@, to@),
            decreases self.entries@.len() - i,
        {
            let e = &self.entries[i];
            assert(e@ == before[i as int]);
            let path: Vec<u8> = match rebase(e.path.as_slice(), from, to) {
                Some(p) => p,
                None => slice_to_vec(e.path.as_slice()),
            };
            out.push(Stored { path, kind: e.kind, content: slice_to_vec(e.content.as_slice()) });
            i += 1;
        }
        self.entries = out;
        assert(self@ =~= renamed(before, from@, to@));
    }

    /// Puts a new entry behind the others.
    fn put(&mut self, path: &[u8], kind: EntryKind, content: &[u8])
        ensures
            final(self)@ == old(self)@.push(
                StoredView { path: path@, kind, content: content@ },
            ),
    {
        let ghost before = self@;
        self.entries.push(
            Stored { path: slice_to_vec(path), kind, content: slice_to_vec(content) },
        );
        assert(self@ =~= before.push(StoredView { path: path@, kind, content: content@ }));
    }

    /// Begins a step on the tree and stops in the middle of it, as when
    /// the process dies there.
    pub fn perform_interrupted(&mut self, action: &Action, content: &[u8])
        ensures
            final(self)@ == interrupted(old(self)@, action@, content@),
    {
        match action {
            Action::WriteNew { temp, target } => {
                self.put(temp.as_slice(), EntryKind::Note, content);
            },
            Action::Replace { temp, target } => {
                self.put(temp.as_slice(), EntryKind::Note, content);
            },
            Action::RemoveTree { path, staging } => {
                self.rename(path.as_slice(), staging.as_slice());
            },
            _ => {},
        }
    }

    /// Takes a step on the tree: changes it as the step demands, or leaves
    /// it as it is and reports the failure.
    pub fn perform(&mut self, action: &Action, content: &[u8]) -> (res: Result<(), IoFailure>)
        ensures
            match stepped(old(self)@, action@, content@) {
                Ok(next) => res is Ok && final(self)@ == next,
                Err(f) => res == Err::<(), IoFailure>(f) && final(self)@ == old(self)@,
            },
            well_formed(old(self)@) ==> well_formed(final(self)@),
    {
        proof {
            if well_formed(self@) {
                lemma_step_keeps_well_formed(self@, action@, content@);
            }
        }
        match action {
            Action::ListDir { path } => match self.kind_at(path.as_slice()) {
                EntryKind::Folder => Ok(()),
                EntryKind::Missing => Err(IoFailure::Missing),
                _ => Err(IoFailure::NotDirectory),
            },
            Action::ReadFile { path } => match self.kind_at(path.as_slice()) {
                EntryKind::Note => Ok(()),
                EntryKind::Missing => Err(IoFailure::Missing),
                _ => Err(IoFailure::IsDirectory),
            },
            Action::WriteNew { temp, target } => match self.kind_at(target.as_slice()) {
                EntryKind::Missing => {
                    self.put(target.as_slice(), EntryKind::Note, content);
                    Ok(())
                },
                _ => Err(IoFailure::Exists),
            },
            Action::Replace { temp, target } => match self.kind_at(target.as_slice()) {
                EntryKind::Folder => Err(IoFailure::IsDirectory),
                _ => {
                    self.remove(target.as_slice(), false);
                    self.put(target.as_slice(), EntryKind::Note, content);
                    Ok(())
                },
            },
            Action::RemoveFile { path } => match self.kind_at(path.as_slice()) {
                EntryKind::Missing => Err(IoFailure::Missing),
                EntryKind::Folder => Err(IoFailure::IsDirectory),
                _ => {
                    self.remove(path.as_slice(), false);
                    Ok(())
                },
            },
            Action::MakeDir { path } => match self.kind_at(path.as_slice()) {
                EntryKind::Missing => {
                    let empty: Vec<u8> = Vec::new();
                    self.put(path.as_slice(), EntryKind::Folder, empty.as_slice());
                    assert(empty@ =~= Seq::<u8>::empty());
                    Ok(())
                },
                _ => Err(IoFailure::Exists),
            },
            Action::Rename { from, to } => {
                match self.kind_at(from.as_slice()) {
                    EntryKind::Missing => {
                        return Err(IoFailure::Missing);
                    },
                    _ => {},
                }
                if is_within(from.as_slice(), to.as_slice()) {
                    return Err(IoFailure::IntoItself);
                }
                match self.kind_at(to.as_slice()) {
                    EntryKind::Missing => {},
                    _ => {
                        return Err(IoFailure::Exists);
                    },
                }
                if self.has_entries(to.as_slice()) {
                    return Err(IoFailure::Exists);
                }
                self.rename(from.as_slice(), to.as_slice());
                Ok(())
            },
            Action::RemoveEmptyDir { path } => match self.kind_at(path.as_slice()) {
                EntryKind::Missing => Err(IoFailure::Missing),
                EntryKind::Folder => {
                    if self.has_entries(path.as_slice()) {
                        Err(IoFailure::DirectoryNotEmpty)
                    } else {
                        self.remove(path.as_slice(), false);
                        Ok(())
                    }
                },
                _ => Err(IoFailure::NotDirectory),
            },
            Action::RemoveTree { path, staging } => match self.kind_at(path.as_slice()) {
                EntryKind::Missing => Err(IoFailure::Missing),
                EntryKind::Folder => {
                    self.remove(path.as_slice(), true);
                    Ok(())
                },
                _ => Err(IoFailure::NotDirectory),
            },
        }
    }
}

} // verus!
