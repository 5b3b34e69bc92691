use notes_store::ops::EntryKind;
use notes_store::tree::{insert_entry, is_listed, is_name_before, order_entries, Entry};

fn entry(name: &str, kind: EntryKind) -> Entry {
    Entry { name: name.as_bytes().to_vec(), kind }
}

#[test]
fn names_are_ordered_byte_by_byte() {
    assert!(is_name_before(b"a", b"b"));
    assert!(is_name_before(b"a", b"ab"));
    assert!(is_name_before(b"", b"a"));
    assert!(is_name_before(b"Z", b"a"));
    assert!(is_name_before(b"ab", b"b"));
    assert!(!is_name_before(b"b", b"a"));
    assert!(!is_name_before(b"ab", b"a"));
    assert!(!is_name_before(b"a", b"a"));
    assert!(!is_name_before(b"", b""));
}

#[test]
fn listing_is_sorted_by_name() {
    let found = vec![
        entry("todo", EntryKind::Note),
        entry("archive", EntryKind::Folder),
        entry("inbox", EntryKind::Folder),
        entry("ideas", EntryKind::Note),
    ];
    let want = vec![
        entry("archive", EntryKind::Folder),
        entry("ideas", EntryKind::Note),
        entry("inbox", EntryKind::Folder),
        entry("todo", EntryKind::Note),
    ];
    assert_eq!(order_entries(&found), want);
}

#[test]
fn listing_does_not_depend_on_the_order_found() {
    let one = vec![
        entry("b", EntryKind::Note),
        entry("a", EntryKind::Note),
        entry("c", EntryKind::Folder),
    ];
    let other = vec![
        entry("c", EntryKind::Folder),
        entry("b", EntryKind::Note),
        entry("a", EntryKind::Note),
    ];
    assert_eq!(order_entries(&one), order_entries(&other));
    assert_eq!(order_entries(&one), order_entries(&order_entries(&one)));
}

#[test]
fn listing_passes_over_unsupported_entries() {
    let found = vec![
        entry("link", EntryKind::Unsupported),
        entry("note", EntryKind::Note),
        entry("gone", EntryKind::Missing),
        entry("bad\\name", EntryKind::Note),
        entry("sub", EntryKind::Folder),
    ];
    let want = vec![entry("note", EntryKind::Note), entry("sub", EntryKind::Folder)];
    assert_eq!(order_entries(&found), want);
    assert!(!is_listed(&entry("link", EntryKind::Unsupported)));
    assert!(!is_listed(&entry("..", EntryKind::Folder)));
    assert!(is_listed(&entry("note", EntryKind::Note)));
}

#[test]
fn listing_of_nothing_is_empty() {
    assert_eq!(order_entries(&[]), Vec::<Entry>::new());
}

#[test]
fn insert_keeps_the_order() {
    let mut listing = vec![entry("a", EntryKind::Note), entry("c", EntryKind::Note)];
    insert_entry(&mut listing, entry("b", EntryKind::Folder));
    insert_entry(&mut listing, entry("d", EntryKind::Note));
    insert_entry(&mut listing, entry("0", EntryKind::Note));
    let want = vec![
        entry("0", EntryKind::Note),
        entry("a", EntryKind::Note),
        entry("b", EntryKind::Folder),
        entry("c", EntryKind::Note),
        entry("d", EntryKind::Note),
    ];
    assert_eq!(listing, want);
}

#[test]
fn insert_into_an_unordered_listing_still_adds_the_entry() {
    let mut listing = vec![entry("c", EntryKind::Note), entry("a", EntryKind::Note)];
    insert_entry(&mut listing, entry("b", EntryKind::Note));
    assert_eq!(
        listing,
        vec![entry("b", EntryKind::Note), entry("c", EntryKind::Note), entry("a", EntryKind::Note)]
    );
}

#[test]
fn insert_puts_an_equal_name_behind() {
    let mut listing = vec![entry("a", EntryKind::Note)];
    insert_entry(&mut listing, entry("a", EntryKind::Folder));
    assert_eq!(listing, vec![entry("a", EntryKind::Note), entry("a", EntryKind::Folder)]);
}
