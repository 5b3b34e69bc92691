use notes_store::disk::{same_bytes, Disk, Stored};
use notes_store::error::{IoFailure, StoreError};
use notes_store::ops::{plan_delete_folder, plan_update, Action, EntryKind};
use notes_store::store::MemStore;
use notes_store::tree::Entry;

fn bytes(s: &str) -> Vec<u8> {
    s.as_bytes().to_vec()
}

fn store() -> MemStore {
    MemStore::new(b"/srv/notes")
}

fn note(name: &str) -> Entry {
    Entry { name: bytes(name), kind: EntryKind::Note }
}

fn folder(name: &str) -> Entry {
    Entry { name: bytes(name), kind: EntryKind::Folder }
}

#[test]
fn new_store_holds_only_the_root() {
    let s = store();
    assert_eq!(s.root, bytes("/srv/notes"));
    assert_eq!(
        s.disk.entries,
        vec![Stored { path: bytes("/srv/notes"), kind: EntryKind::Folder, content: vec![] }]
    );
    assert_eq!(s.list_notes(b""), Ok(vec![]));
    assert_eq!(s.kind_of(b"anything"), EntryKind::Missing);
}

#[test]
fn scenario_inbox_todo() {
    let mut s = store();
    assert_eq!(s.create_folder(b"", b"inbox"), Ok(bytes("inbox")));
    assert_eq!(s.create_note(b"inbox", b"todo", b"buy milk"), Ok(bytes("inbox/todo")));
    assert_eq!(s.list_notes(b""), Ok(vec![folder("inbox")]));
    assert_eq!(s.list_notes(b"inbox"), Ok(vec![note("todo")]));
    assert_eq!(s.read_note(b"inbox/todo"), Ok(bytes("buy milk")));
    let before = s.disk.entries.len();
    assert_eq!(s.delete_folder(b"inbox", false), Err(StoreError::NotEmpty));
    assert_eq!(s.disk.entries.len(), before);
    assert_eq!(s.read_note(b"inbox/todo"), Ok(bytes("buy milk")));
    assert_eq!(s.delete_folder(b"inbox", true), Ok(()));
    assert_eq!(s.list_notes(b""), Ok(vec![]));
    assert_eq!(s.read_note(b"inbox/todo"), Err(StoreError::NotFound));
    assert_eq!(s.list_notes(b"inbox"), Err(StoreError::NotFound));
}

#[test]
fn second_create_of_the_same_name_fails() {
    let mut s = store();
    assert_eq!(s.create_folder(b"", b"folder"), Ok(bytes("folder")));
    let first = s.create_note(b"folder", b"note-a", b"one");
    let second = s.create_note(b"folder", b"note-a", b"two");
    assert_eq!(first, Ok(bytes("folder/note-a")));
    assert_eq!(second, Err(StoreError::AlreadyExists));
    assert_eq!(s.read_note(b"folder/note-a"), Ok(bytes("one")));
    assert_eq!(s.create_folder(b"folder", b"note-a"), Err(StoreError::AlreadyExists));
    assert_eq!(s.create_folder(b"", b"folder"), Err(StoreError::AlreadyExists));
    assert_eq!(s.create_note(b"", b"folder", b"x"), Err(StoreError::AlreadyExists));
}

#[test]
fn create_needs_an_existing_parent_folder() {
    let mut s = store();
    assert_eq!(s.create_note(b"nowhere", b"n", b""), Err(StoreError::ParentNotFound));
    assert_eq!(s.create_folder(b"nowhere", b"n"), Err(StoreError::ParentNotFound));
    assert_eq!(s.create_note(b"", b"n", b"text"), Ok(bytes("n")));
    assert_eq!(s.create_note(b"n", b"below", b""), Err(StoreError::ParentNotFound));
    assert_eq!(s.create_note(b"", b"a/b", b""), Err(StoreError::InvalidId));
    assert_eq!(s.create_note(b"..", b"a", b""), Err(StoreError::InvalidId));
}

#[test]
fn update_replaces_the_whole_text() {
    let mut s = store();
    s.create_note(b"", b"n", b"old text").unwrap();
    s.create_note(b"", b"m", b"other").unwrap();
    assert_eq!(s.update_note(b"n", b"new"), Ok(()));
    assert_eq!(s.read_note(b"n"), Ok(bytes("new")));
    assert_eq!(s.read_note(b"m"), Ok(bytes("other")));
    assert_eq!(s.update_note(b"gone", b"x"), Err(StoreError::NotFound));
    s.create_folder(b"", b"dir").unwrap();
    assert_eq!(s.update_note(b"dir", b"x"), Err(StoreError::NotAFile));
    assert_eq!(s.update_note(b"../n", b"x"), Err(StoreError::InvalidId));
    assert_eq!(s.list_notes(b""), Ok(vec![folder("dir"), note("m"), note("n")]));
}

#[test]
fn read_and_delete_note_check_the_kind() {
    let mut s = store();
    s.create_folder(b"", b"dir").unwrap();
    s.create_note(b"dir", b"n", b"t").unwrap();
    assert_eq!(s.read_note(b"dir"), Err(StoreError::NotAFile));
    assert_eq!(s.read_note(b"dir/x"), Err(StoreError::NotFound));
    assert_eq!(s.read_note(b""), Err(StoreError::InvalidId));
    assert_eq!(s.delete_note(b"dir"), Err(StoreError::NotAFile));
    assert_eq!(s.kind_of(b"dir"), EntryKind::Folder);
    assert_eq!(s.delete_note(b"dir/x"), Err(StoreError::NotFound));
    assert_eq!(s.delete_note(b"dir/n"), Ok(()));
    assert_eq!(s.kind_of(b"dir/n"), EntryKind::Missing);
    assert_eq!(s.delete_note(b"dir/n"), Err(StoreError::NotFound));
    assert_eq!(s.list_notes(b"dir"), Ok(vec![]));
}

#[test]
fn rename_moves_the_whole_subtree() {
    let mut s = store();
    s.create_folder(b"", b"A").unwrap();
    s.create_note(b"A", b"x", b"text of x").unwrap();
    s.create_note(b"A", b"y", b"text of y").unwrap();
    s.create_folder(b"A", b"z").unwrap();
    s.create_note(b"A/z", b"w", b"text of w").unwrap();
    s.create_note(b"", b"AA", b"beside").unwrap();

    assert_eq!(s.rename_folder(b"A", b"B"), Ok(bytes("B")));

    assert_eq!(s.read_note(b"B/x"), Ok(bytes("text of x")));
    assert_eq!(s.read_note(b"B/y"), Ok(bytes("text of y")));
    assert_eq!(s.read_note(b"B/z/w"), Ok(bytes("text of w")));
    assert_eq!(s.list_notes(b"B"), Ok(vec![note("x"), note("y"), folder("z")]));
    assert_eq!(s.list_notes(b"B/z"), Ok(vec![note("w")]));
    assert_eq!(s.list_notes(b""), Ok(vec![note("AA"), folder("B")]));
    assert_eq!(s.read_note(b"AA"), Ok(bytes("beside")));
    for old in ["A", "A/x", "A/y", "A/z", "A/z/w"] {
        assert_eq!(s.kind_of(old.as_bytes()), EntryKind::Missing);
    }
    assert_eq!(s.read_note(b"A/x"), Err(StoreError::NotFound));
    assert_eq!(s.list_notes(b"A"), Err(StoreError::NotFound));
}

#[test]
fn rename_refuses_taken_names_and_paths() {
    let mut s = store();
    s.create_folder(b"", b"A").unwrap();
    s.create_folder(b"", b"B").unwrap();
    s.create_note(b"", b"n", b"").unwrap();
    let before = s.disk.entries.len();
    assert_eq!(s.rename_folder(b"A", b"B"), Err(StoreError::AlreadyExists));
    assert_eq!(s.rename_folder(b"A", b"n"), Err(StoreError::AlreadyExists));
    assert_eq!(s.rename_folder(b"A", b"A"), Err(StoreError::AlreadyExists));
    assert_eq!(s.rename_folder(b"A", b"x/y"), Err(StoreError::InvalidId));
    assert_eq!(s.rename_folder(b"C", b"D"), Err(StoreError::NotFound));
    assert_eq!(s.rename_folder(b"n", b"m"), Err(StoreError::NotFound));
    assert_eq!(s.disk.entries.len(), before);
    assert_eq!(s.list_notes(b""), Ok(vec![folder("A"), folder("B"), note("n")]));
}

#[test]
fn recursive_delete_removes_every_note() {
    let mut s = store();
    s.create_folder(b"", b"big").unwrap();
    s.create_note(b"", b"bigger", b"stays").unwrap();
    for i in 0..100 {
        let name = format!("note-{}", i);
        assert!(s.create_note(b"big", name.as_bytes(), b"x").is_ok());
    }
    assert_eq!(s.list_notes(b"big").unwrap().len(), 100);
    assert_eq!(s.delete_folder(b"big", false), Err(StoreError::NotEmpty));
    assert_eq!(s.list_notes(b"big").unwrap().len(), 100);
    assert_eq!(s.delete_folder(b"big", true), Ok(()));
    for i in 0..100 {
        let id = format!("big/note-{}", i);
        assert_eq!(s.kind_of(id.as_bytes()), EntryKind::Missing);
    }
    assert_eq!(s.kind_of(b"big"), EntryKind::Missing);
    assert_eq!(s.read_note(b"bigger"), Ok(bytes("stays")));
    assert_eq!(s.disk.entries.len(), 2);
}

#[test]
fn delete_folder_errors_on_the_tree() {
    let mut s = store();
    s.create_folder(b"", b"empty").unwrap();
    s.create_note(b"", b"n", b"").unwrap();
    assert_eq!(s.delete_folder(b"gone", true), Err(StoreError::NotFound));
    assert_eq!(s.delete_folder(b"n", true), Err(StoreError::NotFound));
    assert_eq!(s.delete_folder(b"", true), Err(StoreError::InvalidId));
    assert_eq!(s.delete_folder(b"a/../..", true), Err(StoreError::InvalidId));
    assert_eq!(s.delete_folder(b"empty", false), Ok(()));
    assert_eq!(s.list_notes(b""), Ok(vec![note("n")]));
}

#[test]
fn move_into_own_subfolder_fails_and_changes_nothing() {
    let mut s = store();
    s.create_folder(b"", b"folderA").unwrap();
    s.create_folder(b"folderA", b"subfolder").unwrap();
    s.create_note(b"folderA", b"n", b"t").unwrap();
    let before: Vec<Vec<u8>> = s.disk.entries.iter().map(|e| e.path.clone()).collect();
    assert_eq!(s.move_note(b"folderA", b"folderA/subfolder", None), Err(StoreError::InvalidId));
    assert_eq!(s.move_note(b"folderA", b"folderA", None), Err(StoreError::InvalidId));
    let after: Vec<Vec<u8>> = s.disk.entries.iter().map(|e| e.path.clone()).collect();
    assert_eq!(before, after);
    assert_eq!(s.list_notes(b"folderA"), Ok(vec![note("n"), folder("subfolder")]));
}

#[test]
fn move_note_and_folder() {
    let mut s = store();
    s.create_folder(b"", b"inbox").unwrap();
    s.create_folder(b"", b"archive").unwrap();
    s.create_note(b"inbox", b"todo", b"buy milk").unwrap();
    assert_eq!(s.move_note(b"inbox/todo", b"archive", None), Ok(bytes("archive/todo")));
    assert_eq!(s.read_note(b"archive/todo"), Ok(bytes("buy milk")));
    assert_eq!(s.read_note(b"inbox/todo"), Err(StoreError::NotFound));
    assert_eq!(
        s.move_note(b"archive/todo", b"", Some(&b"done"[..])),
        Ok(bytes("done"))
    );
    assert_eq!(s.read_note(b"done"), Ok(bytes("buy milk")));
    assert_eq!(s.move_note(b"archive", b"inbox", None), Ok(bytes("inbox/archive")));
    assert_eq!(s.list_notes(b"inbox"), Ok(vec![folder("archive")]));
    assert_eq!(s.list_notes(b""), Ok(vec![note("done"), folder("inbox")]));
}

#[test]
fn move_errors_on_the_tree() {
    let mut s = store();
    s.create_folder(b"", b"a").unwrap();
    s.create_folder(b"", b"b").unwrap();
    s.create_note(b"a", b"n", b"1").unwrap();
    s.create_note(b"b", b"n", b"2").unwrap();
    assert_eq!(s.move_note(b"a/n", b"b", None), Err(StoreError::AlreadyExists));
    assert_eq!(s.move_note(b"a/x", b"b", None), Err(StoreError::NotFound));
    assert_eq!(s.move_note(b"a/n", b"c", None), Err(StoreError::NotFound));
    assert_eq!(s.move_note(b"a/n", b"b/n", None), Err(StoreError::NotFound));
    assert_eq!(s.move_note(b"a/n", b"../b", None), Err(StoreError::InvalidId));
    assert_eq!(s.move_note(b"a/n", b"b", Some(&b".."[..])), Err(StoreError::InvalidId));
    assert_eq!(s.read_note(b"a/n"), Ok(bytes("1")));
    assert_eq!(s.read_note(b"b/n"), Ok(bytes("2")));
}

#[test]
fn listing_errors_on_the_tree() {
    let mut s = store();
    s.create_note(b"", b"n", b"").unwrap();
    assert_eq!(s.list_notes(b"n"), Err(StoreError::NotADirectory));
    assert_eq!(s.list_notes(b"gone"), Err(StoreError::NotFound));
    assert_eq!(s.list_notes(b"/"), Err(StoreError::InvalidId));
}

#[test]
fn listing_shows_only_direct_children_in_order() {
    let mut s = store();
    s.create_folder(b"", b"b").unwrap();
    s.create_note(b"", b"c", b"").unwrap();
    s.create_note(b"", b"a", b"").unwrap();
    s.create_note(b"b", b"deep", b"").unwrap();
    s.create_folder(b"b", b"B").unwrap();
    assert_eq!(s.list_notes(b""), Ok(vec![note("a"), folder("b"), note("c")]));
    assert_eq!(s.list_notes(b"b"), Ok(vec![folder("B"), note("deep")]));
}

#[test]
fn steps_on_the_tree_fail_like_the_filesystem() {
    let mut d = Disk::new(b"/r");
    let mkdir = Action::MakeDir { path: bytes("/r/d") };
    assert_eq!(d.perform(&mkdir, b""), Ok(()));
    assert_eq!(d.perform(&mkdir, b""), Err(IoFailure::Exists));
    let write = Action::WriteNew { temp: bytes("/r/d/n.tmp~"), target: bytes("/r/d/n") };
    assert_eq!(d.perform(&write, b"text"), Ok(()));
    assert_eq!(d.perform(&write, b"again"), Err(IoFailure::Exists));
    assert_eq!(d.content_at(b"/r/d/n"), Some(bytes("text")));
    assert_eq!(d.content_at(b"/r/d/m"), None);
    assert_eq!(d.kind_at(b"/r/d/n"), EntryKind::Note);
    assert_eq!(d.kind_at(b"/r/d"), EntryKind::Folder);
    assert!(d.has_entries(b"/r/d"));
    assert!(!d.has_entries(b"/r/d/n"));
    assert_eq!(
        d.perform(&Action::RemoveEmptyDir { path: bytes("/r/d") }, b""),
        Err(IoFailure::DirectoryNotEmpty)
    );
    assert_eq!(
        d.perform(&Action::RemoveEmptyDir { path: bytes("/r/d/n") }, b""),
        Err(IoFailure::NotDirectory)
    );
    assert_eq!(
        d.perform(&Action::RemoveFile { path: bytes("/r/d") }, b""),
        Err(IoFailure::IsDirectory)
    );
    assert_eq!(
        d.perform(&Action::RemoveFile { path: bytes("/r/x") }, b""),
        Err(IoFailure::Missing)
    );
    assert_eq!(
        d.perform(&Action::ReadFile { path: bytes("/r/d") }, b""),
        Err(IoFailure::IsDirectory)
    );
    assert_eq!(d.perform(&Action::ReadFile { path: bytes("/r/d/n") }, b""), Ok(()));
    assert_eq!(
        d.perform(&Action::ListDir { path: bytes("/r/d/n") }, b""),
        Err(IoFailure::NotDirectory)
    );
    assert_eq!(d.perform(&Action::ListDir { path: bytes("/r/q") }, b""), Err(IoFailure::Missing));
    assert_eq!(
        d.perform(&Action::Rename { from: bytes("/r/q"), to: bytes("/r/p") }, b""),
        Err(IoFailure::Missing)
    );
    assert_eq!(
        d.perform(&Action::Rename { from: bytes("/r/d/n"), to: bytes("/r/d") }, b""),
        Err(IoFailure::Exists)
    );
    assert_eq!(
        d.perform(&Action::Replace { temp: bytes("/r/d.tmp~"), target: bytes("/r/d") }, b"x"),
        Err(IoFailure::IsDirectory)
    );
    assert_eq!(
        d.perform(&Action::RemoveTree { path: bytes("/r/d/n"), staging: bytes("/r/s") }, b""),
        Err(IoFailure::NotDirectory)
    );
    assert_eq!(
        d.perform(&Action::RemoveTree { path: bytes("/r/d"), staging: bytes("/r/d.tmp~") }, b""),
        Ok(())
    );
    assert_eq!(d.kind_at(b"/r/d/n"), EntryKind::Missing);
    assert_eq!(d.kind_at(b"/r/d"), EntryKind::Missing);
    assert_eq!(d.kind_at(b"/r"), EntryKind::Folder);
}

#[test]
fn rename_on_the_tree_refuses_nesting_and_taken_places() {
    let mut d = Disk::new(b"/r");
    assert_eq!(d.perform(&Action::MakeDir { path: bytes("/r/a") }, b""), Ok(()));
    assert_eq!(d.perform(&Action::MakeDir { path: bytes("/r/a/b") }, b""), Ok(()));
    assert_eq!(d.perform(&Action::MakeDir { path: bytes("/r/c") }, b""), Ok(()));
    assert_eq!(
        d.perform(&Action::Rename { from: bytes("/r/a"), to: bytes("/r/a/b/c") }, b""),
        Err(IoFailure::IntoItself)
    );
    assert_eq!(
        d.perform(&Action::Rename { from: bytes("/r/a"), to: bytes("/r/a") }, b""),
        Err(IoFailure::IntoItself)
    );
    assert_eq!(
        d.perform(&Action::Rename { from: bytes("/r/a/b"), to: bytes("/r/c") }, b""),
        Err(IoFailure::Exists)
    );
    assert_eq!(
        d.perform(&Action::Rename { from: bytes("/r/c"), to: bytes("/r/a/b") }, b""),
        Err(IoFailure::Exists)
    );
    assert_eq!(d.entries.len(), 4);
    assert_eq!(
        d.perform(&Action::Rename { from: bytes("/r/a"), to: bytes("/r/c/a") }, b""),
        Ok(())
    );
    assert_eq!(d.kind_at(b"/r/c/a/b"), EntryKind::Folder);
    assert_eq!(d.kind_at(b"/r/a/b"), EntryKind::Missing);
    assert_eq!(d.kind_at(b"/r/a"), EntryKind::Missing);
}

#[test]
fn interrupted_update_leaves_the_old_text() {
    let mut s = store();
    s.create_folder(b"", b"inbox").unwrap();
    s.create_note(b"inbox", b"todo", b"buy milk").unwrap();
    let plan = plan_update(&s.root, b"inbox/todo", s.kind_of(b"inbox/todo")).unwrap();
    s.disk.perform_interrupted(&plan.action, b"buy milk and br");
    assert_eq!(s.read_note(b"inbox/todo"), Ok(bytes("buy milk")));
    assert_eq!(s.kind_of(b"inbox/todo"), EntryKind::Note);
    assert_eq!(s.update_note(b"inbox/todo", b"buy milk and bread"), Ok(()));
    assert_eq!(s.read_note(b"inbox/todo"), Ok(bytes("buy milk and bread")));
}

#[test]
fn interrupted_recursive_delete_leaves_no_part() {
    let mut s = store();
    s.create_folder(b"", b"big").unwrap();
    for i in 0..100 {
        let name = format!("note-{}", i);
        s.create_note(b"big", name.as_bytes(), b"x").unwrap();
    }
    let plan = plan_delete_folder(&s.root, b"big", true, s.kind_of(b"big"), true).unwrap();
    s.disk.perform_interrupted(&plan.action, b"");
    let mut left = 0;
    for i in 0..100 {
        let id = format!("big/note-{}", i);
        if s.kind_of(id.as_bytes()) != EntryKind::Missing {
            left += 1;
        }
    }
    assert_eq!(left, 0);
    assert_eq!(s.kind_of(b"big"), EntryKind::Missing);
    assert_eq!(s.list_notes(b"big"), Err(StoreError::NotFound));
}

#[test]
fn steps_that_are_one_change_are_not_begun_when_interrupted() {
    let mut d = Disk::new(b"/r");
    d.perform(&Action::MakeDir { path: bytes("/r/a") }, b"").unwrap();
    d.perform_interrupted(&Action::Rename { from: bytes("/r/a"), to: bytes("/r/b") }, b"");
    d.perform_interrupted(&Action::MakeDir { path: bytes("/r/c") }, b"");
    d.perform_interrupted(&Action::RemoveEmptyDir { path: bytes("/r/a") }, b"");
    assert_eq!(d.kind_at(b"/r/a"), EntryKind::Folder);
    assert_eq!(d.kind_at(b"/r/b"), EntryKind::Missing);
    assert_eq!(d.kind_at(b"/r/c"), EntryKind::Missing);
    assert_eq!(d.entries.len(), 2);
}

#[test]
fn same_bytes_compares_whole_strings() {
    assert!(same_bytes(b"", b""));
    assert!(same_bytes(b"abc", b"abc"));
    assert!(!same_bytes(b"abc", b"abd"));
    assert!(!same_bytes(b"abc", b"ab"));
    assert!(!same_bytes(b"", b"a"));
}
