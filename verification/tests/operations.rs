use notes_store::error::{IoFailure, StoreError};
use notes_store::ops::{
    after_move_failure, plan_create, plan_create_folder, plan_create_note, plan_delete_folder,
    plan_delete_note, plan_list, plan_move, plan_note, plan_read, plan_rename_folder, plan_update, temp_for,
    Action, EntryKind, MoveNext, MoveStage, NoteOp, Plan,
};
use notes_store::path::{is_within, rebase, resolve};
use notes_store::tree::{order_entries, Entry};

fn root() -> Vec<u8> {
    b"/srv/notes".to_vec()
}

fn bytes(s: &str) -> Vec<u8> {
    s.as_bytes().to_vec()
}

#[test]
fn temp_place_is_beside_the_target() {
    assert_eq!(temp_for(&bytes("/srv/notes/a/b")), bytes("/srv/notes/a/b.tmp~"));
}

#[test]
fn list_root_and_folder() {
    assert_eq!(
        plan_list(&root(), b"", EntryKind::Folder),
        Ok(Plan { id: bytes(""), action: Action::ListDir { path: bytes("/srv/notes") } })
    );
    assert_eq!(
        plan_list(&root(), b"inbox", EntryKind::Folder),
        Ok(Plan { id: bytes("inbox"), action: Action::ListDir { path: bytes("/srv/notes/inbox") } })
    );
}

#[test]
fn list_errors() {
    assert_eq!(plan_list(&root(), b"inbox", EntryKind::Missing), Err(StoreError::NotFound));
    assert_eq!(plan_list(&root(), b"inbox", EntryKind::Note), Err(StoreError::NotADirectory));
    assert_eq!(plan_list(&root(), b"inbox", EntryKind::Unsupported), Err(StoreError::NotADirectory));
    assert_eq!(plan_list(&root(), b"../x", EntryKind::Folder), Err(StoreError::InvalidId));
    assert_eq!(plan_list(&root(), b"", EntryKind::Missing), Err(StoreError::NotFound));
}

#[test]
fn read_note_plan() {
    assert_eq!(
        plan_read(&root(), b"inbox/todo", EntryKind::Note),
        Ok(Plan {
            id: bytes("inbox/todo"),
            action: Action::ReadFile { path: bytes("/srv/notes/inbox/todo") }
        })
    );
    assert_eq!(plan_read(&root(), b"inbox/todo", EntryKind::Missing), Err(StoreError::NotFound));
    assert_eq!(plan_read(&root(), b"inbox", EntryKind::Folder), Err(StoreError::NotAFile));
    assert_eq!(plan_read(&root(), b"inbox", EntryKind::Unsupported), Err(StoreError::NotAFile));
    assert_eq!(plan_read(&root(), b"", EntryKind::Note), Err(StoreError::InvalidId));
}

#[test]
fn update_goes_through_a_temporary_file() {
    assert_eq!(
        plan_update(&root(), b"inbox/todo", EntryKind::Note),
        Ok(Plan {
            id: bytes("inbox/todo"),
            action: Action::Replace {
                temp: bytes("/srv/notes/inbox/todo.tmp~"),
                target: bytes("/srv/notes/inbox/todo"),
            }
        })
    );
    assert_eq!(plan_update(&root(), b"inbox/todo", EntryKind::Missing), Err(StoreError::NotFound));
    assert_eq!(plan_update(&root(), b"inbox", EntryKind::Folder), Err(StoreError::NotAFile));
}

#[test]
fn delete_note_refuses_a_folder() {
    assert_eq!(
        plan_delete_note(&root(), b"todo", EntryKind::Note),
        Ok(Plan { id: bytes("todo"), action: Action::RemoveFile { path: bytes("/srv/notes/todo") } })
    );
    assert_eq!(plan_delete_note(&root(), b"inbox", EntryKind::Folder), Err(StoreError::NotAFile));
    assert_eq!(plan_delete_note(&root(), b"todo", EntryKind::Missing), Err(StoreError::NotFound));
}

#[test]
fn create_note_plan() {
    assert_eq!(
        plan_create_note(&root(), b"inbox", b"todo", EntryKind::Folder, EntryKind::Missing),
        Ok(Plan {
            id: bytes("inbox/todo"),
            action: Action::WriteNew {
                temp: bytes("/srv/notes/inbox/todo.tmp~"),
                target: bytes("/srv/notes/inbox/todo"),
            }
        })
    );
    assert_eq!(
        plan_create_note(&root(), b"", b"todo", EntryKind::Folder, EntryKind::Missing),
        Ok(Plan {
            id: bytes("todo"),
            action: Action::WriteNew {
                temp: bytes("/srv/notes/todo.tmp~"),
                target: bytes("/srv/notes/todo"),
            }
        })
    );
}

#[test]
fn create_note_errors() {
    let r = root();
    assert_eq!(
        plan_create_note(&r, b"inbox", b"a/b", EntryKind::Folder, EntryKind::Missing),
        Err(StoreError::InvalidId)
    );
    assert_eq!(
        plan_create_note(&r, b"inbox", b"..", EntryKind::Folder, EntryKind::Missing),
        Err(StoreError::InvalidId)
    );
    assert_eq!(
        plan_create_note(&r, b"../inbox", b"todo", EntryKind::Folder, EntryKind::Missing),
        Err(StoreError::InvalidId)
    );
    assert_eq!(
        plan_create_note(&r, b"inbox", b"todo", EntryKind::Missing, EntryKind::Missing),
        Err(StoreError::ParentNotFound)
    );
    assert_eq!(
        plan_create_note(&r, b"inbox", b"todo", EntryKind::Note, EntryKind::Missing),
        Err(StoreError::ParentNotFound)
    );
    assert_eq!(
        plan_create_note(&r, b"inbox", b"todo", EntryKind::Folder, EntryKind::Note),
        Err(StoreError::AlreadyExists)
    );
    assert_eq!(
        plan_create_note(&r, b"inbox", b"todo", EntryKind::Folder, EntryKind::Folder),
        Err(StoreError::AlreadyExists)
    );
}

#[test]
fn create_is_exclusive() {
    let r = root();
    let first = plan_create_note(&r, b"folder", b"note-a", EntryKind::Folder, EntryKind::Missing);
    assert!(first.is_ok());
    let second = plan_create_note(&r, b"folder", b"note-a", EntryKind::Folder, EntryKind::Note);
    assert_eq!(second, Err(StoreError::AlreadyExists));
    assert_eq!(StoreError::from_failure(IoFailure::Exists), StoreError::AlreadyExists);
}

#[test]
fn create_folder_plan() {
    let r = root();
    assert_eq!(
        plan_create_folder(&r, b"", b"inbox", EntryKind::Folder, EntryKind::Missing),
        Ok(Plan { id: bytes("inbox"), action: Action::MakeDir { path: bytes("/srv/notes/inbox") } })
    );
    assert_eq!(
        plan_create_folder(&r, b"a", b"b", EntryKind::Folder, EntryKind::Folder),
        Err(StoreError::AlreadyExists)
    );
    assert_eq!(
        plan_create_folder(&r, b"a", b"b", EntryKind::Folder, EntryKind::Note),
        Err(StoreError::AlreadyExists)
    );
    assert_eq!(
        plan_create_folder(&r, b"a", b"b", EntryKind::Missing, EntryKind::Missing),
        Err(StoreError::ParentNotFound)
    );
    assert_eq!(
        plan_create_folder(&r, b"a", b"", EntryKind::Folder, EntryKind::Missing),
        Err(StoreError::InvalidId)
    );
}

#[test]
fn rename_changes_the_last_segment() {
    let r = root();
    assert_eq!(
        plan_rename_folder(&r, b"work/A", b"B", EntryKind::Folder, EntryKind::Missing),
        Ok(Plan {
            id: bytes("work/B"),
            action: Action::Rename {
                from: bytes("/srv/notes/work/A"),
                to: bytes("/srv/notes/work/B"),
            }
        })
    );
    assert_eq!(
        plan_rename_folder(&r, b"A", b"B", EntryKind::Folder, EntryKind::Missing),
        Ok(Plan {
            id: bytes("B"),
            action: Action::Rename { from: bytes("/srv/notes/A"), to: bytes("/srv/notes/B") }
        })
    );
}

#[test]
fn rename_errors() {
    let r = root();
    assert_eq!(
        plan_rename_folder(&r, b"A", b"x/B", EntryKind::Folder, EntryKind::Missing),
        Err(StoreError::InvalidId)
    );
    assert_eq!(
        plan_rename_folder(&r, b"", b"B", EntryKind::Folder, EntryKind::Missing),
        Err(StoreError::InvalidId)
    );
    assert_eq!(
        plan_rename_folder(&r, b"A", b"B", EntryKind::Missing, EntryKind::Missing),
        Err(StoreError::NotFound)
    );
    assert_eq!(
        plan_rename_folder(&r, b"A", b"B", EntryKind::Note, EntryKind::Missing),
        Err(StoreError::NotFound)
    );
    assert_eq!(
        plan_rename_folder(&r, b"A", b"B", EntryKind::Folder, EntryKind::Folder),
        Err(StoreError::AlreadyExists)
    );
    assert_eq!(
        plan_rename_folder(&r, b"A", b"B", EntryKind::Folder, EntryKind::Note),
        Err(StoreError::AlreadyExists)
    );
}

#[test]
fn rename_preserves_subtree() {
    let r = root();
    let plan = plan_rename_folder(&r, b"A", b"B", EntryKind::Folder, EntryKind::Missing).unwrap();
    assert_eq!(plan.id, bytes("B"));
    let before = ["A/x", "A/y", "A/z/w"];
    let after = ["B/x", "B/y", "B/z/w"];
    for i in 0..before.len() {
        let moved = rebase(before[i].as_bytes(), b"A", &plan.id).unwrap();
        assert_eq!(moved, bytes(after[i]));
        assert!(is_within(&plan.id, &moved));
        assert!(!is_within(b"A", &moved));
        assert!(resolve(&r, &moved).is_ok());
    }
}

#[test]
fn delete_folder_plans() {
    let r = root();
    assert_eq!(
        plan_delete_folder(&r, b"inbox", false, EntryKind::Folder, false),
        Ok(Plan {
            id: bytes("inbox"),
            action: Action::RemoveEmptyDir { path: bytes("/srv/notes/inbox") }
        })
    );
    assert_eq!(
        plan_delete_folder(&r, b"inbox", true, EntryKind::Folder, true),
        Ok(Plan {
            id: bytes("inbox"),
            action: Action::RemoveTree {
                path: bytes("/srv/notes/inbox"),
                staging: bytes("/srv/notes/inbox.tmp~"),
            }
        })
    );
    assert_eq!(
        plan_delete_folder(&r, b"inbox", true, EntryKind::Folder, false),
        Ok(Plan {
            id: bytes("inbox"),
            action: Action::RemoveTree {
                path: bytes("/srv/notes/inbox"),
                staging: bytes("/srv/notes/inbox.tmp~"),
            }
        })
    );
}

#[test]
fn delete_folder_errors() {
    let r = root();
    assert_eq!(
        plan_delete_folder(&r, b"inbox", false, EntryKind::Folder, true),
        Err(StoreError::NotEmpty)
    );
    assert_eq!(
        plan_delete_folder(&r, b"inbox", false, EntryKind::Missing, false),
        Err(StoreError::NotFound)
    );
    assert_eq!(
        plan_delete_folder(&r, b"inbox", true, EntryKind::Note, false),
        Err(StoreError::NotFound)
    );
    assert_eq!(
        plan_delete_folder(&r, b"", true, EntryKind::Folder, true),
        Err(StoreError::InvalidId)
    );
    assert_eq!(
        plan_delete_folder(&r, b"a/../..", true, EntryKind::Folder, true),
        Err(StoreError::InvalidId)
    );
}

#[test]
fn move_keeps_or_changes_the_name() {
    let r = root();
    assert_eq!(
        plan_move(
            &r,
            b"inbox/todo",
            b"archive/2024",
            None,
            EntryKind::Note,
            EntryKind::Folder,
            EntryKind::Missing
        ),
        Ok(Plan {
            id: bytes("archive/2024/todo"),
            action: Action::Rename {
                from: bytes("/srv/notes/inbox/todo"),
                to: bytes("/srv/notes/archive/2024/todo"),
            }
        })
    );
    assert_eq!(
        plan_move(
            &r,
            b"inbox/sub",
            b"",
            Some(&b"top"[..]),
            EntryKind::Folder,
            EntryKind::Folder,
            EntryKind::Missing
        ),
        Ok(Plan {
            id: bytes("top"),
            action: Action::Rename {
                from: bytes("/srv/notes/inbox/sub"),
                to: bytes("/srv/notes/top"),
            }
        })
    );
}

#[test]
fn move_errors() {
    let r = root();
    let f = EntryKind::Folder;
    let n = EntryKind::Note;
    let m = EntryKind::Missing;
    assert_eq!(plan_move(&r, b"../a", b"b", None, n, f, m), Err(StoreError::InvalidId));
    assert_eq!(plan_move(&r, b"a", b"/b", None, n, f, m), Err(StoreError::InvalidId));
    assert_eq!(plan_move(&r, b"a", b"b", Some(&b"x/y"[..]), n, f, m), Err(StoreError::InvalidId));
    assert_eq!(plan_move(&r, b"", b"b", None, n, f, m), Err(StoreError::InvalidId));
    assert_eq!(plan_move(&r, b"a", b"b", None, m, f, m), Err(StoreError::NotFound));
    assert_eq!(
        plan_move(&r, b"a", b"b", None, EntryKind::Unsupported, f, m),
        Err(StoreError::NotFound)
    );
    assert_eq!(plan_move(&r, b"a", b"b", None, n, m, m), Err(StoreError::NotFound));
    assert_eq!(plan_move(&r, b"a", b"b", None, n, n, m), Err(StoreError::NotFound));
    assert_eq!(plan_move(&r, b"a", b"b", None, n, f, n), Err(StoreError::AlreadyExists));
    assert_eq!(plan_move(&r, b"a", b"b", None, n, f, f), Err(StoreError::AlreadyExists));
}

#[test]
fn move_into_own_subtree_is_refused() {
    let r = root();
    let f = EntryKind::Folder;
    let m = EntryKind::Missing;
    assert_eq!(
        plan_move(&r, b"folderA", b"folderA/subfolder", None, f, f, m),
        Err(StoreError::InvalidId)
    );
    assert_eq!(plan_move(&r, b"folderA", b"folderA", None, f, f, m), Err(StoreError::InvalidId));
    assert_eq!(
        plan_move(&r, b"x/folderA", b"x/folderA/s/t", Some(&b"n"[..]), f, f, m),
        Err(StoreError::InvalidId)
    );
    assert!(plan_move(&r, b"folderA", b"folderAB", None, f, f, m).is_ok());
}

#[test]
fn move_across_volumes_falls_back_to_copying() {
    assert_eq!(
        after_move_failure(MoveStage::Renaming, IoFailure::CrossesVolumes),
        MoveNext::CopyThenRemove
    );
    assert_eq!(
        after_move_failure(MoveStage::Renaming, IoFailure::Exists),
        MoveNext::Fail(StoreError::AlreadyExists)
    );
    assert_eq!(
        after_move_failure(MoveStage::Renaming, IoFailure::Missing),
        MoveNext::Fail(StoreError::NotFound)
    );
    assert_eq!(
        after_move_failure(MoveStage::Renaming, IoFailure::IntoItself),
        MoveNext::Fail(StoreError::InvalidId)
    );
    assert_eq!(
        after_move_failure(MoveStage::Renaming, IoFailure::Other(5)),
        MoveNext::Fail(StoreError::IoError(5))
    );
    assert_eq!(
        after_move_failure(MoveStage::Copying, IoFailure::Other(28)),
        MoveNext::Fail(StoreError::PartialMove)
    );
    assert_eq!(
        after_move_failure(MoveStage::Copying, IoFailure::CrossesVolumes),
        MoveNext::Fail(StoreError::PartialMove)
    );
    assert_eq!(
        after_move_failure(MoveStage::RemovingSource, IoFailure::Missing),
        MoveNext::Fail(StoreError::PartialMove)
    );
}

#[test]
fn failures_map_to_store_errors() {
    assert_eq!(StoreError::from_failure(IoFailure::Missing), StoreError::NotFound);
    assert_eq!(StoreError::from_failure(IoFailure::Exists), StoreError::AlreadyExists);
    assert_eq!(StoreError::from_failure(IoFailure::IsDirectory), StoreError::NotAFile);
    assert_eq!(StoreError::from_failure(IoFailure::NotDirectory), StoreError::NotADirectory);
    assert_eq!(StoreError::from_failure(IoFailure::DirectoryNotEmpty), StoreError::NotEmpty);
    assert_eq!(
        StoreError::from_failure(IoFailure::CrossesVolumes),
        StoreError::CrossRootNotAllowed
    );
    assert_eq!(StoreError::from_failure(IoFailure::IntoItself), StoreError::InvalidId);
    assert_eq!(StoreError::from_failure(IoFailure::Other(13)), StoreError::IoError(13));
}

#[test]
fn every_error_has_its_own_message() {
    let all = [
        StoreError::InvalidId,
        StoreError::NotFound,
        StoreError::ParentNotFound,
        StoreError::NotAFile,
        StoreError::NotADirectory,
        StoreError::AlreadyExists,
        StoreError::NotEmpty,
        StoreError::CrossRootNotAllowed,
        StoreError::PartialMove,
        StoreError::IoError(5),
    ];
    for i in 0..all.len() {
        assert!(!all[i].message().is_empty());
        for j in 0..i {
            assert_ne!(all[i].message(), all[j].message());
        }
    }
    assert_eq!(StoreError::AlreadyExists.message(), "an entry with that name already exists");
    assert_eq!(StoreError::IoError(2).message(), "disk error");
}

#[test]
fn traversal_is_refused_by_every_operation() {
    let r = root();
    let f = EntryKind::Folder;
    let n = EntryKind::Note;
    let m = EntryKind::Missing;
    let bad: [&[u8]; 6] = [b"..", b"../x", b"a/../../x", b"/etc", b"a\\..\\b", b"a//b"];
    for id in bad {
        assert_eq!(resolve(&r, id), Err(StoreError::InvalidId));
        assert_eq!(plan_list(&r, id, f), Err(StoreError::InvalidId));
        assert_eq!(plan_read(&r, id, n), Err(StoreError::InvalidId));
        assert_eq!(plan_update(&r, id, n), Err(StoreError::InvalidId));
        assert_eq!(plan_delete_note(&r, id, n), Err(StoreError::InvalidId));
        assert_eq!(plan_create_note(&r, id, b"x", f, m), Err(StoreError::InvalidId));
        assert_eq!(plan_create_note(&r, b"ok", id, f, m), Err(StoreError::InvalidId));
        assert_eq!(plan_create_folder(&r, id, b"x", f, m), Err(StoreError::InvalidId));
        assert_eq!(plan_create_folder(&r, b"ok", id, f, m), Err(StoreError::InvalidId));
        assert_eq!(plan_rename_folder(&r, id, b"x", f, m), Err(StoreError::InvalidId));
        assert_eq!(plan_rename_folder(&r, b"ok", id, f, m), Err(StoreError::InvalidId));
        assert_eq!(plan_delete_folder(&r, id, true, f, true), Err(StoreError::InvalidId));
        assert_eq!(plan_move(&r, id, b"ok", None, n, f, m), Err(StoreError::InvalidId));
        assert_eq!(plan_move(&r, b"ok", id, None, n, f, m), Err(StoreError::InvalidId));
        assert_eq!(plan_move(&r, b"ok", b"dst", Some(id), n, f, m), Err(StoreError::InvalidId));
    }
}

#[test]
fn inbox_scenario() {
    let r = root();
    let f = EntryKind::Folder;
    let m = EntryKind::Missing;

    let inbox = plan_create_folder(&r, b"", b"inbox", f, m).unwrap();
    assert_eq!(inbox.id, bytes("inbox"));
    assert_eq!(inbox.action, Action::MakeDir { path: bytes("/srv/notes/inbox") });

    let todo = plan_create_note(&r, &inbox.id, b"todo", f, m).unwrap();
    assert_eq!(todo.id, bytes("inbox/todo"));

    let list_root = plan_list(&r, b"", f).unwrap();
    assert_eq!(list_root.action, Action::ListDir { path: bytes("/srv/notes") });
    let top = order_entries(&[Entry { name: bytes("inbox"), kind: f }]);
    assert_eq!(top, vec![Entry { name: bytes("inbox"), kind: f }]);
    let list_inbox = plan_list(&r, &top[0].name, top[0].kind).unwrap();
    assert_eq!(list_inbox.action, Action::ListDir { path: bytes("/srv/notes/inbox") });
    let below = order_entries(&[Entry { name: bytes("todo"), kind: EntryKind::Note }]);
    assert_eq!(below, vec![Entry { name: bytes("todo"), kind: EntryKind::Note }]);

    let read = plan_read(&r, &todo.id, EntryKind::Note).unwrap();
    assert_eq!(read.action, Action::ReadFile { path: bytes("/srv/notes/inbox/todo") });

    assert_eq!(
        plan_delete_folder(&r, &inbox.id, false, f, !below.is_empty()),
        Err(StoreError::NotEmpty)
    );
    let gone = plan_delete_folder(&r, &inbox.id, true, f, !below.is_empty()).unwrap();
    assert_eq!(
        gone.action,
        Action::RemoveTree {
            path: bytes("/srv/notes/inbox"),
            staging: bytes("/srv/notes/inbox.tmp~"),
        }
    );
    assert_eq!(order_entries(&[]), Vec::<Entry>::new());
    assert_eq!(plan_read(&r, &todo.id, m), Err(StoreError::NotFound));
}

#[test]
fn the_three_note_operations_share_their_checks() {
    let r = root();
    for op in [NoteOp::Read, NoteOp::Update, NoteOp::Delete] {
        assert_eq!(plan_note(&r, b"a/b", EntryKind::Missing, op), Err(StoreError::NotFound));
        assert_eq!(plan_note(&r, b"a/b", EntryKind::Folder, op), Err(StoreError::NotAFile));
        assert_eq!(plan_note(&r, b"a/..", EntryKind::Note, op), Err(StoreError::InvalidId));
        assert_eq!(plan_note(&r, b"a/b", EntryKind::Note, op).unwrap().id, bytes("a/b"));
    }
    assert_eq!(
        plan_note(&r, b"n", EntryKind::Note, NoteOp::Delete),
        plan_delete_note(&r, b"n", EntryKind::Note)
    );
    assert_eq!(
        plan_create(&r, b"a", b"b", EntryKind::Folder, EntryKind::Missing, true),
        plan_create_folder(&r, b"a", b"b", EntryKind::Folder, EntryKind::Missing)
    );
    assert_eq!(
        plan_create(&r, b"a", b"b", EntryKind::Folder, EntryKind::Missing, false),
        plan_create_note(&r, b"a", b"b", EntryKind::Folder, EntryKind::Missing)
    );
}
