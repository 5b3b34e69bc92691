use crate::ops::EntryKind;
use crate::path::is_valid_name;
use crate::path::valid_segment;
use vstd::prelude::*;
use vstd::seq_lib::to_multiset_build;
use vstd::seq_lib::to_multiset_insert;
use vstd::slice::slice_to_vec;

verus! {

/// One entry of a directory as the host found it: its name and what it is.
#[derive(Debug, PartialEq, Eq)]
pub struct Entry {
    pub name: Vec<u8>,
    pub kind: EntryKind,
}

/// An [`Entry`] with its name as a byte sequence.
pub struct EntryView {
    pub name: Seq<u8>,
    pub kind: EntryKind,
}

impl View for Entry {
    type V = EntryView;

    open spec fn view(&self) -> EntryView {
        EntryView { name: self.name@, kind: self.kind }
    }
}

/// The views of the entries of `s`, in order.
pub open spec fn entry_views(s: Seq<Entry>) -> Seq<EntryView> {
    Seq::new(s.len(), |i: int| s[i]@)
}

/// `a` and `b` agree on their first `k` bytes.
pub open spec fn common_prefix(a: Seq<u8>, b: Seq<u8>, k: int) -> bool {
    &&& 0 <= k <= a.len()
    &&& k <= b.len()
    &&& forall|i: int| 0 <= i < k ==> a[i] == b[i]
}

/// The order of names: byte by byte, a name before each of its proper
/// continuations.
pub open spec fn name_before(a: Seq<u8>, b: Seq<u8>) -> bool {
    exists|k: int| #[trigger] common_prefix(a, b, k) && k < b.len() && (k == a.len() || a[k] < b[k])
}

/// No entry of `v` stands behind one whose name comes after its own.
pub open spec fn sorted_by_name(v: Seq<EntryView>) -> bool {
    forall|i: int, j: int|
        #![trigger v[i], v[j]]
        0 <= i < j < v.len() ==> !name_before(v[j].name, v[i].name)
}

/// An entry that a listing reports: a note or a folder whose name can
/// stand in an identifier. Links, special files and entries with other
/// names are passed over.
pub open spec fn listed(e: EntryView) -> bool {
    (e.kind == EntryKind::Note || e.kind == EntryKind::Folder) && valid_segment(e.name)
}

/// The order of names is transitive.
pub proof fn lemma_name_before_transitive(a: Seq<u8>, b: Seq<u8>, c: Seq<u8>)
    requires
        name_before(a, b),
        name_before(b, c),
    ensures
        name_before(a, c),
{
    let k1 = choose|k: int| #[trigger]
        common_prefix(a, b, k) && k < b.len() && (k == a.len() || a[k] < b[k]);
    let k2 = choose|k: int| #[trigger]
        common_prefix(b, c, k) && k < c.len() && (k == b.len() || b[k] < c[k]);
    let k = if k1 <= k2 {
        k1
    } else {
        k2
    };
    assert(common_prefix(a, c, k));
}

/// No name comes before itself.
pub proof fn lemma_name_before_irreflexive(a: Seq<u8>)
    ensures
        !name_before(a, a),
{
}

/// Tells whether the name `a` comes before the name `b`.
pub fn is_name_before(a: &[u8], b: &[u8]) -> (r: bool)
    ensures
        r == name_before(a@, b@),
{
    let mut i: usize = 0;
    while i < a.len() && i < b.len()
        invariant
            common_prefix(a@, b@, i as int),
        decreases a@.len() - i,
    {
        if a[i] != b[i] {
            let r: bool = a[i] < b[i];
            proof {
                if !r && name_before(a@, b@) {
                    let k = choose|k: int| #[trigger]
                        common_prefix(a@, b@, k) && k < b@.len() && (k == a@.len() || a@[k]
                            < b@[k]);
                    if k < i {
                        assert(a@[k] == b@[k]);
                    } else if k > i {
                        assert(a@[i as int] == b@[i as int]);
                    }
                }
            }
            return r;
        }
        i += 1;
    }
    let r: bool = i < b.len();
    proof {
        if !r && name_before(a@, b@) {
            let k = choose|k: int| #[trigger]
                common_prefix(a@, b@, k) && k < b@.len() && (k == a@.len() || a@[k] < b@[k]);
            assert(k < i);
            assert(a@[k] == b@[k]);
        }
    }
    r
}

/// Puts `e` into a listing before the first entry whose name comes after
/// its own, or at the end. A listing that is in the order of names stays in
/// that order.
pub fn insert_entry(listing: &mut Vec<Entry>, e: Entry)
    ensures
        sorted_by_name(entry_views(old(listing)@)) ==> sorted_by_name(
            entry_views(final(listing)@),
        ),
        exists|pos: int|
            0 <= pos <= old(listing)@.len() && #[trigger] entry_views(old(listing)@).insert(pos, e@)
                == entry_views(final(listing)@),
        entry_views(final(listing)@).to_multiset() == entry_views(
            old(listing)@,
        ).to_multiset().insert(e@),
{
    let ghost before = entry_views(listing@);
    let ghost ev = e@;
    let mut pos: usize = 0;
    let mut found: bool = false;
    while pos < listing.len() && !found
        invariant
            pos <= listing@.len(),
            entry_views(listing@) == before,
            ev == e@,
            forall|j: int| 0 <= j < pos ==> !name_before(ev.name, #[trigger] before[j].name),
            found ==> pos < listing@.len() && name_before(ev.name, before[pos as int].name),
        decreases listing@.len() - pos, (if found { 0int } else { 1int }),
    {
        if is_name_before(e.name.as_slice(), listing[pos].name.as_slice()) {
            found = true;
        } else {
            pos += 1;
        }
    }
    listing.insert(pos, e);
    proof {
        let after = entry_views(listing@);
        assert(after =~= before.insert(pos as int, ev));
        assert forall|i: int, j: int|
            sorted_by_name(before) && 0 <= i < j < after.len() implies !name_before(
            #[trigger] after[j].name,
            #[trigger] after[i].name,
        ) by {
            if j < pos {
                assert(after[i] == before[i] && after[j] == before[j]);
            } else if j == pos {
                assert(after[i] == before[i]);
            } else if i == pos {
                assert(after[j] == before[j - 1]);
                if j - 1 > pos {
                    assert(!name_before(before[j - 1].name, before[pos as int].name));
                }
                if name_before(before[j - 1].name, ev.name) {
                    lemma_name_before_transitive(
                        before[j - 1].name,
                        ev.name,
                        before[pos as int].name,
                    );
                    lemma_name_before_irreflexive(before[pos as int].name);
                }
            } else if i < pos {
                assert(after[i] == before[i] && after[j] == before[j - 1]);
            } else {
                assert(after[i] == before[i - 1] && after[j] == before[j - 1]);
            }
        }
        to_multiset_insert(before, pos as int, ev);
    }
}

/// Tells whether a listing reports the entry.
pub fn is_listed(e: &Entry) -> (r: bool)
    ensures
        r == listed(e@),
{
    match e.kind {
        EntryKind::Note => is_valid_name(e.name.as_slice()),
        EntryKind::Folder => is_valid_name(e.name.as_slice()),
        _ => false,
    }
}

/// Puts the entries of one directory into the form in which a listing
/// reports them: the notes and folders among them, each once for each time
/// it was found, in the order of their names. The order in which the host
/// found them plays no part in which entries are reported.
pub fn order_entries(entries: &[Entry]) -> (out: Vec<Entry>)
    ensures
        sorted_by_name(entry_views(out@)),
        entry_views(out@).to_multiset() == entry_views(entries@).filter(
            |e: EntryView| listed(e),
        ).to_multiset(),
{
    let ghost pred = |e: EntryView| listed(e);
    let mut out: Vec<Entry> = Vec::new();
    let mut i: usize = 0;
    assert(entry_views(entries@.subrange(0, 0)).filter(pred) =~= Seq::<EntryView>::empty()) by {
        assert(entry_views(entries@.subrange(0, 0)) =~= Seq::<EntryView>::empty());
        Seq::<EntryView>::empty().lemma_filter_len(pred);
    }
    assert(entry_views(out@) =~= Seq::<EntryView>::empty());
    while i < entries.len()
        invariant
            i <= entries@.len(),
            pred == (|e: EntryView| listed(e)),
            sorted_by_name(entry_views(out@)),
            entry_views(out@).to_multiset() == entry_views(entries@.subrange(0, i as int)).filter(
                pred,
            ).to_multiset(),
        decreases entries@.len() - i,
    {
        let e: &Entry = &entries[i];
        proof {
            let head = entry_views(entries@.subrange(0, i as int));
            assert(entry_views(entries@.subrange(0, i + 1)) =~= head.push(e@));
            head.lemma_filter_push(e@, pred);
            to_multiset_build(head.filter(pred), e@);
        }
        if is_listed(e) {
            let copy = Entry { name: slice_to_vec(e.name.as_slice()), kind: e.kind };
            assert(copy@ == e@);
            insert_entry(&mut out, copy);
        }
        i += 1;
    }
    assert(entries@.subrange(0, entries@.len() as int) =~= entries@);
    out
}

} // verus!
