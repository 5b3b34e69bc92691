use crate::disk::content_on;
use crate::disk::interrupted;
use crate::disk::has_entries_on;
use crate::disk::kind_on;
use crate::disk::well_formed;
use crate::disk::moved_entry;
use crate::disk::removed;
use crate::disk::renamed;
use crate::disk::stays;
use crate::disk::stepped;
use crate::disk::StoredView;
use crate::error::IoFailure;
use crate::error::StoreError;
use crate::ops::ActionView;
use crate::ops::create_outcome;
use crate::ops::temp_path;
use crate::ops::delete_folder_outcome;
use crate::ops::list_outcome;
use crate::ops::move_outcome;
use crate::ops::note_outcome;
use crate::ops::rename_outcome;
use crate::ops::EntryKind;
use crate::ops::NoteOp;
use crate::path::base_name;
use crate::path::child_id;
use crate::store::carried_out;
use crate::tree::common_prefix;
use crate::tree::sorted_by_name;
use crate::tree::EntryView;
use crate::tree::name_before;
use crate::path::lemma_last_sep_bounds;
use crate::path::lemma_rebased_injective;
use crate::path::lemma_rebased_within;
use crate::path::lemma_last_sep_is;
use crate::path::lemma_parent_and_name;
use crate::path::lemma_child_valid;
use crate::path::parent_id;
use crate::path::last_sep;
use crate::path::rebased;
use crate::path::resolved;
use crate::path::segments;
use crate::path::strictly_inside;
use crate::path::valid_folder_ref;
use crate::path::valid_id;
use crate::path::valid_segment;
use crate::path::within;
use crate::path::BACKSLASH;
use crate::path::DOT;
use crate::path::NUL;
use crate::path::SLASH;
use vstd::prelude::*;
use vstd::seq_lib::to_multiset_contains;
use vstd::seq_lib::to_multiset_len;
use vstd::seq_lib::to_multiset_remove;

verus! {

/// The bytes of `s` from `a` up to `b` form a whole run between separators:
/// a separator or an end of `s` stands on either side, and none inside.
pub open spec fn is_run(s: Seq<u8>, a: int, b: int) -> bool {
    &&& 0 <= a <= b <= s.len()
    &&& (a == 0 || s[a - 1] == SLASH)
    &&& (b == s.len() || s[b] == SLASH)
    &&& forall|j: int| a <= j < b ==> s[j] != SLASH
}

/// Every identifier has at least one segment.
pub proof fn lemma_segments_nonempty(s: Seq<u8>)
    ensures
        segments(s).len() >= 1,
    decreases s.len(),
{
    lemma_last_sep_bounds(s);
    let k = last_sep(s);
    if 0 <= k {
        lemma_segments_nonempty(s.subrange(0, k));
    }
}

/// Every whole run between separators is one of the segments.
pub proof fn lemma_run_is_segment(s: Seq<u8>, a: int, b: int) -> (i: int)
    requires
        is_run(s, a, b),
    ensures
        0 <= i < segments(s).len(),
        segments(s)[i] == s.subrange(a, b),
    decreases s.len(),
{
    lemma_last_sep_bounds(s);
    let k = last_sep(s);
    if b == s.len() {
        lemma_last_sep_is(s, a - 1);
        if a == 0 {
            assert(s.subrange(0, s.len() as int) =~= s);
            0
        } else {
            segments(s).len() - 1
        }
    } else {
        let t = s.subrange(0, k);
        assert(k >= b);
        assert(is_run(t, a, b));
        let i = lemma_run_is_segment(t, a, b);
        assert(t.subrange(a, b) =~= s.subrange(a, b));
        i
    }
}

/// An identifier with a whole run that is no valid segment is not accepted.
pub proof fn lemma_invalid_run_rejected(s: Seq<u8>, a: int, b: int)
    requires
        is_run(s, a, b),
        !valid_segment(s.subrange(a, b)),
    ensures
        !valid_id(s),
{
    let i = lemma_run_is_segment(s, a, b);
    assert(!valid_segment(segments(s)[i]));
}

/// `id` has a step to the parent directory: a whole run that is `..`.
pub open spec fn has_parent_step(id: Seq<u8>) -> bool {
    exists|a: int| #[trigger] is_run(id, a, a + 2) && id[a] == DOT && id[a + 1] == DOT
}

/// `id` has a step that stays in place: a whole run that is `.`.
pub open spec fn has_self_step(id: Seq<u8>) -> bool {
    exists|a: int| #[trigger] is_run(id, a, a + 1) && id[a] == DOT
}

/// `id` begins like an absolute path: with a separator of either kind.
pub open spec fn has_absolute_prefix(id: Seq<u8>) -> bool {
    id.len() > 0 && (id[0] == SLASH || id[0] == BACKSLASH)
}

/// `id` holds a backslash or a zero byte somewhere.
pub open spec fn has_forbidden_byte(id: Seq<u8>) -> bool {
    exists|i: int| 0 <= i < id.len() && (#[trigger] id[i] == BACKSLASH || id[i] == NUL)
}

/// `id` has an empty run: it is empty, begins or ends with a separator, or
/// holds two separators in a row.
pub open spec fn has_empty_step(id: Seq<u8>) -> bool {
    exists|a: int| #[trigger] is_run(id, a, a)
}

/// An identifier that holds a backslash or a zero byte at `i` is not
/// accepted.
pub proof fn lemma_forbidden_byte_rejected(s: Seq<u8>, i: int)
    requires
        0 <= i < s.len(),
        s[i] == BACKSLASH || s[i] == NUL,
    ensures
        !valid_id(s),
    decreases s.len(),
{
    lemma_last_sep_bounds(s);
    let k = last_sep(s);
    if k < 0 {
        assert(segments(s)[0] == s);
        assert(!valid_segment(segments(s)[0]));
    } else if i > k {
        let last = s.subrange(k + 1, s.len() as int);
        assert(last[i - k - 1] == s[i]);
        lemma_segments_nonempty(s.subrange(0, k));
        assert(segments(s)[segments(s).len() - 1] == last);
        assert(!valid_segment(segments(s)[segments(s).len() - 1]));
    } else {
        let t = s.subrange(0, k);
        assert(t[i] == s[i]);
        lemma_forbidden_byte_rejected(t, i);
        let j = choose|j: int| 0 <= j < segments(t).len() && !valid_segment(segments(t)[j]);
        assert(segments(s)[j] == segments(t)[j]);
    }
}

/// Traversal safety: no identifier is accepted that has a `..` or `.` step,
/// begins like an absolute path, has an empty step, or holds a backslash or
/// a zero byte. The resolver, and with it every operation, answers such an
/// identifier with `InvalidId`.
pub proof fn law_traversal_rejected(id: Seq<u8>)
    requires
        has_parent_step(id) || has_self_step(id) || has_absolute_prefix(id) || has_empty_step(id)
            || has_forbidden_byte(id),
    ensures
        !valid_id(id),
{
    if has_parent_step(id) {
        let a = choose|a: int| #[trigger] is_run(id, a, a + 2) && id[a] == DOT && id[a + 1] == DOT;
        let seg = id.subrange(a, a + 2);
        assert(seg[0] == DOT && seg[1] == DOT);
        lemma_invalid_run_rejected(id, a, a + 2);
    } else if has_self_step(id) {
        let a = choose|a: int| #[trigger] is_run(id, a, a + 1) && id[a] == DOT;
        let seg = id.subrange(a, a + 1);
        assert(seg[0] == DOT);
        lemma_invalid_run_rejected(id, a, a + 1);
    } else if has_empty_step(id) {
        let a = choose|a: int| #[trigger] is_run(id, a, a);
        lemma_invalid_run_rejected(id, a, a);
    } else if has_forbidden_byte(id) {
        let i = choose|i: int| 0 <= i < id.len() && (#[trigger] id[i] == BACKSLASH || id[i] == NUL);
        lemma_forbidden_byte_rejected(id, i);
    } else {
        if id[0] == SLASH {
            assert(is_run(id, 0, 0));
            lemma_invalid_run_rejected(id, 0, 0);
        } else {
            lemma_forbidden_byte_rejected(id, 0);
        }
    }
}

/// Every segment is a whole run between separators.
pub proof fn lemma_segment_is_run(s: Seq<u8>, i: int) -> (r: (int, int))
    requires
        0 <= i < segments(s).len(),
    ensures
        is_run(s, r.0, r.1),
        segments(s)[i] == s.subrange(r.0, r.1),
    decreases s.len(),
{
    lemma_last_sep_bounds(s);
    let k = last_sep(s);
    if k < 0 {
        assert(s.subrange(0, s.len() as int) =~= s);
        (0, s.len() as int)
    } else {
        let t = s.subrange(0, k);
        if i == segments(t).len() {
            (k + 1, s.len() as int)
        } else {
            let r = lemma_segment_is_run(t, i);
            assert(t.subrange(r.0, r.1) =~= s.subrange(r.0, r.1));
            assert(r.0 == 0 || t[r.0 - 1] == s[r.0 - 1]);
            assert(r.1 == k || t[r.1] == s[r.1]);
            assert forall|j: int| r.0 <= j < r.1 implies s[j] != SLASH by {
                assert(t[j] == s[j]);
            }
            assert(is_run(s, r.0, r.1));
            r
        }
    }
}

/// The resolver refuses nothing else: an identifier without a `..` or `.`
/// step, without an empty step and without a backslash or a zero byte is
/// accepted.
pub proof fn law_accepted_otherwise(id: Seq<u8>)
    requires
        !has_parent_step(id),
        !has_self_step(id),
        !has_empty_step(id),
        !has_forbidden_byte(id),
    ensures
        valid_id(id),
{
    assert forall|i: int| 0 <= i < segments(id).len() implies valid_segment(
        #[trigger] segments(id)[i],
    ) by {
        let r = lemma_segment_is_run(id, i);
        let seg = id.subrange(r.0, r.1);
        assert(is_run(id, r.0, r.1));
        if seg.len() == 0 {
            assert(is_run(id, r.0, r.0));
        }
        if seg.len() == 1 && seg[0] == DOT {
            assert(is_run(id, r.0, r.0 + 1) && id[r.0] == DOT);
        }
        if seg.len() == 2 && seg[0] == DOT && seg[1] == DOT {
            assert(is_run(id, r.0, r.0 + 2) && id[r.0] == DOT && id[r.0 + 1] == DOT);
        }
        assert forall|j: int| 0 <= j < seg.len() implies seg[j] != SLASH && seg[j] != BACKSLASH
            && seg[j] != NUL by {
            assert(seg[j] == id[r.0 + j]);
        }
    }
}

/// Every operation answers an identifier that is not accepted with
/// `InvalidId`, whatever stands on disk.
pub proof fn law_invalid_id_rejected_by_all(
    root: Seq<u8>,
    id: Seq<u8>,
    other: Seq<u8>,
    name: Option<Seq<u8>>,
    op: NoteOp,
    recursive: bool,
    has_children: bool,
    k1: EntryKind,
    k2: EntryKind,
    k3: EntryKind,
)
    requires
        !valid_id(id),
    ensures
        note_outcome(root, id, k1, op) == Err::<crate::ops::PlanView, StoreError>(
            StoreError::InvalidId,
        ),
        id.len() > 0 ==> list_outcome(root, id, k1) == Err::<crate::ops::PlanView, StoreError>(
            StoreError::InvalidId,
        ),
        id.len() > 0 ==> create_outcome(root, id, other, k1, k2, recursive) == Err::<
            crate::ops::PlanView,
            StoreError,
        >(StoreError::InvalidId),
        rename_outcome(root, id, other, k1, k2) == Err::<crate::ops::PlanView, StoreError>(
            StoreError::InvalidId,
        ),
        delete_folder_outcome(root, id, recursive, k1, has_children) == Err::<
            crate::ops::PlanView,
            StoreError,
        >(StoreError::InvalidId),
        move_outcome(root, id, other, name, k1, k2, k3) == Err::<crate::ops::PlanView, StoreError>(
            StoreError::InvalidId,
        ),
        id.len() > 0 ==> move_outcome(root, other, id, name, k1, k2, k3) == Err::<
            crate::ops::PlanView,
            StoreError,
        >(StoreError::InvalidId),
{
}

/// Every place that the resolver makes lies strictly below the root.
pub proof fn law_resolved_inside_root(root: Seq<u8>, id: Seq<u8>)
    requires
        valid_id(id),
    ensures
        strictly_inside(root, resolved(root, id)),
{
    crate::path::lemma_resolved_inside(root, id);
}

/// The segments of two identifiers joined by a separator are the segments
/// of the first and then those of the second.
pub proof fn lemma_segments_join(a: Seq<u8>, b: Seq<u8>)
    ensures
        segments(a.push(SLASH) + b) == segments(a) + segments(b),
    decreases b.len(),
{
    let whole = a.push(SLASH) + b;
    let n = a.len() as int;
    lemma_last_sep_bounds(b);
    let k = last_sep(b);
    if k < 0 {
        lemma_last_sep_is(whole, n);
        assert(whole.subrange(0, n) =~= a);
        assert(whole.subrange(n + 1, whole.len() as int) =~= b);
        assert(segments(b) == seq![b]);
        assert(segments(a).push(b) =~= segments(a) + seq![b]);
    } else {
        let b1 = b.subrange(0, k);
        let b2 = b.subrange(k + 1, b.len() as int);
        assert(whole[n + 1 + k] == b[k]);
        assert forall|j: int| n + 1 + k < j < whole.len() implies whole[j] != SLASH by {
            assert(whole[j] == b[j - n - 1]);
        }
        lemma_last_sep_is(whole, n + 1 + k);
        assert(whole.subrange(0, n + 1 + k) =~= a.push(SLASH) + b1);
        assert(whole.subrange(n + 2 + k, whole.len() as int) =~= b2);
        lemma_segments_join(a, b1);
        assert((segments(a) + segments(b1)).push(b2) =~= segments(a) + segments(b1).push(b2));
    }
}

/// Identifiers are equal exactly if their segments are: no two
/// identifiers have the same segments.
pub proof fn law_equal_segments_equal_ids(a: Seq<u8>, b: Seq<u8>)
    requires
        segments(a) == segments(b),
    ensures
        a == b,
    decreases a.len(),
{
    lemma_last_sep_bounds(a);
    lemma_last_sep_bounds(b);
    let ka = last_sep(a);
    let kb = last_sep(b);
    if ka >= 0 {
        lemma_segments_nonempty(a.subrange(0, ka));
    }
    if kb >= 0 {
        lemma_segments_nonempty(b.subrange(0, kb));
    }
    if ka < 0 {
        assert(segments(a).len() == 1);
        assert(segments(a)[0] == a);
        assert(segments(b)[0] == b);
    } else {
        let a1 = a.subrange(0, ka);
        let a2 = a.subrange(ka + 1, a.len() as int);
        let b1 = b.subrange(0, kb);
        let b2 = b.subrange(kb + 1, b.len() as int);
        let sa = segments(a1).push(a2);
        let sb = segments(b1).push(b2);
        assert(sa == sb);
        assert(sa[sa.len() - 1] == a2);
        assert(sb[sb.len() - 1] == b2);
        assert(sa.drop_last() =~= segments(a1));
        assert(sb.drop_last() =~= segments(b1));
        law_equal_segments_equal_ids(a1, b1);
        assert(a =~= a1.push(SLASH) + a2);
        assert(b =~= b1.push(SLASH) + b2);
    }
}

/// An identifier within a folder has the folder's segments first.
pub proof fn law_within_is_prefix(folder: Seq<u8>, id: Seq<u8>)
    requires
        folder.len() > 0,
        within(folder, id),
    ensures
        segments(folder).len() <= segments(id).len(),
        segments(id).subrange(0, segments(folder).len() as int) == segments(folder),
{
    if id == folder {
        assert(segments(id).subrange(0, segments(id).len() as int) =~= segments(id));
    } else {
        let n = folder.len() as int;
        let rest = id.subrange(n + 1, id.len() as int);
        assert(id =~= folder.push(SLASH) + rest);
        lemma_segments_join(folder, rest);
        assert((segments(folder) + segments(rest)).subrange(0, segments(folder).len() as int)
            =~= segments(folder));
    }
}

/// When a folder is renamed or moved, every identifier within it keeps its
/// structure below the folder: its new segments are those of the folder's
/// new identifier and then its own segments below the folder, unchanged. It
/// is accepted again and lies within the folder's new identifier, and
/// turning the change back gives the identifier that it had.
pub proof fn law_rebase_preserves_subtree(id: Seq<u8>, from: Seq<u8>, to: Seq<u8>)
    requires
        valid_id(from),
        valid_id(to),
        valid_id(id),
        within(from, id),
    ensures
        segments(rebased(id, from, to)) == segments(to) + segments(id).subrange(
            segments(from).len() as int,
            segments(id).len() as int,
        ),
        valid_id(rebased(id, from, to)),
        within(to, rebased(id, from, to)),
        rebased(rebased(id, from, to), to, from) == id,
{
    lemma_segments_nonempty(from);
    lemma_segments_nonempty(to);
    assert(from.len() > 0) by {
        if from.len() == 0 {
            assert(segments(from)[0] == from);
        }
    }
    assert(to.len() > 0) by {
        if to.len() == 0 {
            assert(segments(to)[0] == to);
        }
    }
    let r = rebased(id, from, to);
    let n = from.len() as int;
    let m = to.len() as int;
    let sf = segments(from);
    let si = segments(id);
    if id == from {
        assert(r =~= to);
        assert(segments(to) + si.subrange(sf.len() as int, si.len() as int) =~= segments(to));
        assert(rebased(r, to, from) =~= id);
    } else {
        let rest = id.subrange(n + 1, id.len() as int);
        assert(id =~= from.push(SLASH) + rest);
        assert(r =~= to.push(SLASH) + rest);
        lemma_segments_join(from, rest);
        lemma_segments_join(to, rest);
        let sr = segments(rest);
        assert((sf + sr).subrange(sf.len() as int, (sf + sr).len() as int) =~= sr);
        assert forall|i: int| 0 <= i < segments(r).len() implies valid_segment(
            #[trigger] segments(r)[i],
        ) by {
            if i >= segments(to).len() {
                let j = i - segments(to).len();
                assert(segments(r)[i] == sr[j]);
                assert(si[sf.len() + j] == sr[j]);
            }
        }
        assert(r.subrange(0, m) =~= to);
        assert(rebased(r, to, from) =~= id);
    }
}

/// Renaming a folder gives every identifier within it an accepted
/// identifier within the renamed folder, with the same segments below it.
pub proof fn law_rename_preserves_subtree(folder: Seq<u8>, new_name: Seq<u8>, id: Seq<u8>)
    requires
        valid_id(folder),
        valid_segment(new_name),
        valid_id(id),
        within(folder, id),
    ensures
        valid_id(child_id(parent_id(folder), new_name)),
        valid_id(rebased(id, folder, child_id(parent_id(folder), new_name))),
        within(
            child_id(parent_id(folder), new_name),
            rebased(id, folder, child_id(parent_id(folder), new_name)),
        ),
        segments(rebased(id, folder, child_id(parent_id(folder), new_name))) == segments(
            child_id(parent_id(folder), new_name),
        ) + segments(id).subrange(segments(folder).len() as int, segments(id).len() as int),
{
    lemma_parent_and_name(folder);
    lemma_child_valid(parent_id(folder), new_name);
    law_rebase_preserves_subtree(id, folder, child_id(parent_id(folder), new_name));
}

/// A folder cannot be moved into itself or into anything below it: the
/// move is refused, whatever stands on disk, and no step is taken.
pub proof fn law_move_into_self_rejected(
    root: Seq<u8>,
    source: Seq<u8>,
    dest: Seq<u8>,
    new_name: Option<Seq<u8>>,
    source_kind: EntryKind,
    dest_kind: EntryKind,
    target_kind: EntryKind,
)
    requires
        within(source, dest),
    ensures
        move_outcome(root, source, dest, new_name, source_kind, dest_kind, target_kind) == Err::<
            crate::ops::PlanView,
            StoreError,
        >(StoreError::InvalidId),
        forall|d: Seq<StoredView>, content: Seq<u8>|
            (#[trigger] carried_out(
                d,
                move_outcome(root, source, dest, new_name, source_kind, dest_kind, target_kind),
                content,
            )).1 == d,
{
}

/// A folder with children is not deleted without `recursive`: the answer is
/// `NotEmpty` and no step is taken.
pub proof fn law_delete_keeps_populated_folder(root: Seq<u8>, folder: Seq<u8>)
    requires
        valid_id(folder),
    ensures
        delete_folder_outcome(root, folder, false, EntryKind::Folder, true) == Err::<
            crate::ops::PlanView,
            StoreError,
        >(StoreError::NotEmpty),
        forall|d: Seq<StoredView>, content: Seq<u8>|
            (#[trigger] carried_out(
                d,
                delete_folder_outcome(root, folder, false, EntryKind::Folder, true),
                content,
            )).1 == d,
{
}

/// Creation is exclusive: where anything stands under the name, the answer
/// is `AlreadyExists`, for a note and for a folder.
pub proof fn law_create_is_exclusive(
    root: Seq<u8>,
    parent: Seq<u8>,
    name: Seq<u8>,
    target_kind: EntryKind,
    folder_wanted: bool,
)
    requires
        valid_folder_ref(parent),
        valid_segment(name),
        target_kind != EntryKind::Missing,
    ensures
        create_outcome(root, parent, name, EntryKind::Folder, target_kind, folder_wanted) == Err::<
            crate::ops::PlanView,
            StoreError,
        >(StoreError::AlreadyExists),
{
}

/// Two folders that both hold `p` lie one within the other.
pub proof fn lemma_holders_are_nested(a: Seq<u8>, b: Seq<u8>, p: Seq<u8>)
    requires
        a.len() > 0,
        b.len() > 0,
        within(a, p),
        within(b, p),
    ensures
        within(a, b) || within(b, a),
{
    let n = a.len() as int;
    let m = b.len() as int;
    assert(p.subrange(0, n) == a);
    assert(p.subrange(0, m) == b);
    if n == m {
        assert(a =~= b);
    } else if n < m {
        assert(b.subrange(0, n) =~= a);
        assert(b[n] == p[n]);
    } else {
        assert(a.subrange(0, m) =~= b);
        assert(a[m] == p[m]);
    }
}

/// Nothing stands where no entry of the tree has its place.
pub proof fn lemma_absent(d: Seq<StoredView>, p: Seq<u8>)
    requires
        forall|i: int| 0 <= i < d.len() ==> (#[trigger] d[i]).path != p,
    ensures
        kind_on(d, p) == EntryKind::Missing,
        content_on(d, p) is None,
    decreases d.len(),
{
    if d.len() > 0 {
        let d1 = d.drop_last();
        assert(d.last() == d[d.len() - 1]);
        assert forall|i: int| 0 <= i < d1.len() implies (#[trigger] d1[i]).path != p by {
            assert(d1[i] == d[i]);
        }
        lemma_absent(d1, p);
    }
}

/// After a folder has been renamed or moved, what stood at a place within
/// it stands at the rebased place, as the same kind and with the same text.
pub proof fn law_renamed_keeps_entries(d: Seq<StoredView>, from: Seq<u8>, to: Seq<u8>, p: Seq<u8>)
    requires
        from.len() > 0,
        to.len() > 0,
        within(from, p),
        forall|i: int| 0 <= i < d.len() ==> !within(to, (#[trigger] d[i]).path),
    ensures
        kind_on(renamed(d, from, to), rebased(p, from, to)) == kind_on(d, p),
        content_on(renamed(d, from, to), rebased(p, from, to)) == content_on(d, p),
    decreases d.len(),
{
    let n = renamed(d, from, to);
    if d.len() > 0 {
        let e = d.last();
        let d1 = d.drop_last();
        assert(e == d[d.len() - 1]);
        assert(n.drop_last() =~= renamed(d1, from, to));
        assert(n.last() == moved_entry(e, from, to));
        assert forall|i: int| 0 <= i < d1.len() implies !within(to, (#[trigger] d1[i]).path) by {
            assert(d1[i] == d[i]);
        }
        law_renamed_keeps_entries(d1, from, to, p);
        if within(from, e.path) {
            if rebased(e.path, from, to) == rebased(p, from, to) {
                lemma_rebased_injective(e.path, p, from, to);
            }
        } else {
            lemma_rebased_within(p, from, to);
        }
    } else {
        assert(n =~= Seq::<StoredView>::empty());
    }
}

/// After a folder has been renamed or moved to a place that lies neither
/// within it nor around it, nothing stands any more at a place within the
/// folder's old place.
pub proof fn law_renamed_leaves_nothing(d: Seq<StoredView>, from: Seq<u8>, to: Seq<u8>, p: Seq<u8>)
    requires
        from.len() > 0,
        to.len() > 0,
        !within(from, to),
        !within(to, from),
        within(from, p),
    ensures
        kind_on(renamed(d, from, to), p) == EntryKind::Missing,
{
    let n = renamed(d, from, to);
    assert forall|i: int| 0 <= i < n.len() implies (#[trigger] n[i]).path != p by {
        assert(n[i] == moved_entry(d[i], from, to));
        if within(from, d[i].path) {
            lemma_rebased_within(d[i].path, from, to);
            if n[i].path == p {
                lemma_holders_are_nested(from, to, p);
            }
        }
    }
    lemma_absent(n, p);
}

/// After a removal nothing stands at the places removed, and every other
/// place holds what it held: with `deep` all within `dir` goes, never a
/// part of it.
pub proof fn law_removed_all_or_nothing(d: Seq<StoredView>, dir: Seq<u8>, deep: bool, p: Seq<u8>)
    ensures
        (if deep {
            within(dir, p)
        } else {
            p == dir
        }) ==> kind_on(removed(d, dir, deep), p) == EntryKind::Missing,
        !(if deep {
            within(dir, p)
        } else {
            p == dir
        }) ==> kind_on(removed(d, dir, deep), p) == kind_on(d, p) && content_on(
            removed(d, dir, deep),
            p,
        ) == content_on(d, p),
    decreases d.len(),
{
    let pred = |e: StoredView| stays(e, dir, deep);
    if d.len() > 0 {
        let d1 = d.drop_last();
        let e = d.last();
        assert(d1.push(e) =~= d);
        d1.lemma_filter_push(e, pred);
        law_removed_all_or_nothing(d1, dir, deep, p);
        if stays(e, dir, deep) {
            assert(removed(d, dir, deep).drop_last() =~= removed(d1, dir, deep));
            assert(removed(d, dir, deep).last() == e);
        }
    } else {
        d.lemma_filter_len(pred);
        assert(removed(d, dir, deep) =~= Seq::<StoredView>::empty());
    }
}

/// A step that fails leaves the tree as it was; the recursive removal of a
/// folder, where it succeeds, leaves nothing within the folder.
pub proof fn law_remove_tree_is_whole(
    d: Seq<StoredView>,
    path: Seq<u8>,
    staging: Seq<u8>,
    p: Seq<u8>,
)
    requires
        within(path, p),
    ensures
        match stepped(d, ActionView::RemoveTree { path, staging }, Seq::<u8>::empty()) {
            Ok(next) => kind_on(next, p) == EntryKind::Missing,
            Err(_) => true,
        },
{
    law_removed_all_or_nothing(d, path, true, p);
}

/// Creation is exclusive on the tree: once a note or a folder has been
/// created at a place, it stands there, and a second creation at that place
/// fails with `Exists`, which the store reports as `AlreadyExists`.
pub proof fn law_second_create_fails(
    d: Seq<StoredView>,
    temp: Seq<u8>,
    target: Seq<u8>,
    first: Seq<u8>,
    second: Seq<u8>,
)
    requires
        kind_on(d, target) == EntryKind::Missing,
    ensures
        stepped(d, ActionView::WriteNew { temp, target }, first) is Ok,
        stepped(d, ActionView::MakeDir { path: target }, first) is Ok,
        ({
            let next = stepped(d, ActionView::WriteNew { temp, target }, first)->Ok_0;
            &&& kind_on(next, target) == EntryKind::Note
            &&& content_on(next, target) == Some(first)
            &&& stepped(next, ActionView::WriteNew { temp, target }, second) == Err::<
                Seq<StoredView>,
                IoFailure,
            >(IoFailure::Exists)
            &&& stepped(next, ActionView::MakeDir { path: target }, second) == Err::<
                Seq<StoredView>,
                IoFailure,
            >(IoFailure::Exists)
        }),
        ({
            let next = stepped(d, ActionView::MakeDir { path: target }, first)->Ok_0;
            &&& kind_on(next, target) == EntryKind::Folder
            &&& stepped(next, ActionView::WriteNew { temp, target }, second) == Err::<
                Seq<StoredView>,
                IoFailure,
            >(IoFailure::Exists)
        }),
        crate::error::failure_kind(IoFailure::Exists) == StoreError::AlreadyExists,
{
    let note = StoredView { path: target, kind: EntryKind::Note, content: first };
    assert(d.push(note).last() == note);
    let dir = StoredView { path: target, kind: EntryKind::Folder, content: Seq::<u8>::empty() };
    assert(d.push(dir).last() == dir);
}

/// After an update the note holds the new text, and every other place
/// holds what it held.
pub proof fn law_update_replaces_text(
    d: Seq<StoredView>,
    temp: Seq<u8>,
    target: Seq<u8>,
    text: Seq<u8>,
    p: Seq<u8>,
)
    requires
        kind_on(d, target) == EntryKind::Note,
    ensures
        stepped(d, ActionView::Replace { temp, target }, text) is Ok,
        ({
            let next = stepped(d, ActionView::Replace { temp, target }, text)->Ok_0;
            &&& kind_on(next, target) == EntryKind::Note
            &&& content_on(next, target) == Some(text)
            &&& p != target ==> kind_on(next, p) == kind_on(d, p) && content_on(next, p)
                == content_on(d, p)
        }),
{
    let note = StoredView { path: target, kind: EntryKind::Note, content: text };
    let rest = removed(d, target, false);
    assert(rest.push(note).last() == note);
    assert(rest.push(note).drop_last() =~= rest);
    law_removed_all_or_nothing(d, target, false, p);
}

/// Of two names that agree on their first `k` bytes one comes before the
/// other, or they are the same.
pub proof fn lemma_names_compare_from(a: Seq<u8>, b: Seq<u8>, k: int)
    requires
        common_prefix(a, b, k),
    ensures
        name_before(a, b) || a == b || name_before(b, a),
    decreases a.len() - k,
{
    if k == a.len() {
        if k == b.len() {
            assert(a =~= b);
        } else {
            assert(common_prefix(a, b, k) && k < b.len());
        }
    } else if k == b.len() {
        assert(common_prefix(b, a, k) && k < a.len());
    } else if a[k] < b[k] {
        assert(common_prefix(a, b, k) && k < b.len() && a[k] < b[k]);
    } else if b[k] < a[k] {
        assert(common_prefix(b, a, k) && k < a.len() && b[k] < a[k]);
    } else {
        lemma_names_compare_from(a, b, k + 1);
    }
}

/// The order of names is a strict total order: of two different names
/// exactly one comes before the other, and the order is transitive. So a
/// folder's children have one order only.
pub proof fn law_name_order_is_total(a: Seq<u8>, b: Seq<u8>, c: Seq<u8>)
    ensures
        name_before(a, b) || a == b || name_before(b, a),
        !(name_before(a, b) && name_before(b, a)),
        !name_before(a, a),
        name_before(a, b) && name_before(b, c) ==> name_before(a, c),
{
    lemma_names_compare_from(a, b, 0);
    if name_before(a, b) && name_before(b, a) {
        crate::tree::lemma_name_before_transitive(a, b, a);
    }
    if name_before(a, b) && name_before(b, c) {
        crate::tree::lemma_name_before_transitive(a, b, c);
    }
}

/// An identifier lies within a folder exactly if its place lies within the
/// folder's place.
pub proof fn lemma_within_resolved(root: Seq<u8>, folder: Seq<u8>, id: Seq<u8>)
    requires
        folder.len() > 0,
    ensures
        within(resolved(root, folder), resolved(root, id)) == within(folder, id),
{
    let from = resolved(root, folder);
    let p = resolved(root, id);
    let r = root.len() as int;
    let n = folder.len() as int;
    assert forall|j: int| 0 <= j < id.len() implies p[r + 1 + j] == id[j] by {}
    assert forall|j: int| 0 <= j < n implies from[r + 1 + j] == folder[j] by {}
    if within(folder, id) {
        if id == folder {
            assert(p =~= from);
        } else {
            assert(id.subrange(0, n) == folder);
            assert forall|j: int| 0 <= j < from.len() implies p[j] == from[j] by {
                if j > r {
                    assert(id.subrange(0, n)[j - r - 1] == id[j - r - 1]);
                }
            }
            assert(p.subrange(0, from.len() as int) =~= from);
            assert(p[from.len() as int] == id[n]);
        }
    }
    if within(from, p) {
        if p == from {
            assert forall|j: int| 0 <= j < n implies id[j] == folder[j] by {
                assert(p[r + 1 + j] == from[r + 1 + j]);
            }
            assert(id =~= folder);
        } else {
            assert(p.subrange(0, from.len() as int) == from);
            assert forall|j: int| 0 <= j < n implies id[j] == folder[j] by {
                assert(p.subrange(0, from.len() as int)[r + 1 + j] == p[r + 1 + j]);
            }
            assert(id.subrange(0, n) =~= folder);
            assert(id[n] == p[from.len() as int]);
        }
    }
}

/// Where something stands, an entry of the tree has that place.
pub proof fn lemma_present(d: Seq<StoredView>, p: Seq<u8>) -> (i: int)
    requires
        kind_on(d, p) != EntryKind::Missing,
    ensures
        0 <= i < d.len(),
        d[i].path == p,
{
    if forall|j: int| 0 <= j < d.len() ==> (#[trigger] d[j]).path != p {
        lemma_absent(d, p);
    }
    choose|j: int| 0 <= j < d.len() && (#[trigger] d[j]).path == p
}

/// Renaming a folder on the tree, where the new name is free and nothing
/// lies below it: the answer is the folder's new identifier; every entry
/// within the folder stands under its rebased identifier, as the same kind
/// and with the same text; and nothing stands under its old identifier any
/// more.
pub proof fn law_rename_on_tree(
    d: Seq<StoredView>,
    root: Seq<u8>,
    folder: Seq<u8>,
    new_name: Seq<u8>,
    id: Seq<u8>,
)
    requires
        valid_id(folder),
        valid_segment(new_name),
        within(folder, id),
        kind_on(d, resolved(root, folder)) == EntryKind::Folder,
        kind_on(d, resolved(root, child_id(parent_id(folder), new_name))) == EntryKind::Missing,
        forall|i: int|
            0 <= i < d.len() ==> !within(
                resolved(root, child_id(parent_id(folder), new_name)),
                (#[trigger] d[i]).path,
            ),
    ensures
        ({
            let renamed_id = child_id(parent_id(folder), new_name);
            let done = carried_out(
                d,
                rename_outcome(root, folder, new_name, EntryKind::Folder, EntryKind::Missing),
                Seq::<u8>::empty(),
            );
            let moved = resolved(root, rebased(id, folder, renamed_id));
            &&& done.0 == Ok::<Seq<u8>, StoreError>(renamed_id)
            &&& kind_on(done.1, moved) == kind_on(d, resolved(root, id))
            &&& content_on(done.1, moved) == content_on(d, resolved(root, id))
            &&& kind_on(done.1, resolved(root, id)) == EntryKind::Missing
        }),
{
    let pa = parent_id(folder);
    let b = base_name(folder);
    let renamed_id = child_id(pa, new_name);
    let from = resolved(root, folder);
    let to = resolved(root, renamed_id);
    let p = resolved(root, id);
    lemma_parent_and_name(folder);
    lemma_child_valid(pa, new_name);
    assert(folder.len() > 0) by {
        if folder.len() == 0 {
            assert(segments(folder)[0] == folder);
        }
    }
    lemma_within_resolved(root, folder, id);
    assert(rebased(p, from, to) =~= resolved(root, rebased(id, folder, renamed_id)));
    law_renamed_keeps_entries(d, from, to, p);
    let at = lemma_present(d, from);
    assert(!within(to, d[at].path));
    assert(!within(from, to)) by {
        let pre = if pa.len() == 0 {
            root.push(SLASH)
        } else {
            root.push(SLASH) + pa.push(SLASH)
        };
        assert(from =~= pre + b);
        assert(to =~= pre + new_name);
        if within(from, to) {
            assert(to[from.len() as int] == new_name[b.len() as int]);
        }
    }
    law_renamed_leaves_nothing(d, from, to, p);
}

/// Deleting a folder with all below it on the tree: nothing stands any
/// more under an identifier within the folder, and every identifier
/// outside it holds what it held.
pub proof fn law_delete_on_tree(d: Seq<StoredView>, root: Seq<u8>, folder: Seq<u8>, id: Seq<u8>)
    requires
        valid_id(folder),
        kind_on(d, resolved(root, folder)) == EntryKind::Folder,
    ensures
        ({
            let done = carried_out(
                d,
                delete_folder_outcome(
                    root,
                    folder,
                    true,
                    EntryKind::Folder,
                    has_entries_on(d, resolved(root, folder)),
                ),
                Seq::<u8>::empty(),
            );
            &&& done.0 == Ok::<Seq<u8>, StoreError>(folder)
            &&& within(folder, id) ==> kind_on(done.1, resolved(root, id)) == EntryKind::Missing
            &&& !within(folder, id) ==> kind_on(done.1, resolved(root, id)) == kind_on(
                d,
                resolved(root, id),
            ) && content_on(done.1, resolved(root, id)) == content_on(d, resolved(root, id))
        }),
{
    assert(folder.len() > 0) by {
        if folder.len() == 0 {
            assert(segments(folder)[0] == folder);
        }
    }
    lemma_within_resolved(root, folder, id);
    law_removed_all_or_nothing(d, resolved(root, folder), true, resolved(root, id));
}

/// The temporary place beside a place lies neither within it nor around
/// it, and is another place.
pub proof fn lemma_temp_is_beside(p: Seq<u8>)
    requires
        p.len() > 0,
    ensures
        temp_path(p) != p,
        !within(p, temp_path(p)),
        !within(temp_path(p), p),
{
    let t = temp_path(p);
    assert(t.len() == p.len() + 5);
    assert(t[p.len() as int] == 46u8);
}

/// An update that is interrupted after the temporary file is written and
/// before it is renamed leaves the note as it was, with its whole text; so
/// does an interrupted creation leave whatever stood under the name.
pub proof fn law_interrupted_write_keeps_note(
    d: Seq<StoredView>,
    root: Seq<u8>,
    id: Seq<u8>,
    text: Seq<u8>,
)
    ensures
        ({
            let place = resolved(root, id);
            let update = ActionView::Replace { temp: temp_path(place), target: place };
            let create = ActionView::WriteNew { temp: temp_path(place), target: place };
            &&& kind_on(interrupted(d, update, text), place) == kind_on(d, place)
            &&& content_on(interrupted(d, update, text), place) == content_on(d, place)
            &&& kind_on(interrupted(d, create, text), place) == kind_on(d, place)
            &&& content_on(interrupted(d, create, text), place) == content_on(d, place)
        }),
{
    let place = resolved(root, id);
    lemma_temp_is_beside(place);
    let written = StoredView { path: temp_path(place), kind: EntryKind::Note, content: text };
    assert(d.push(written).last() == written);
    assert(d.push(written).drop_last() =~= d);
}

/// A recursive deletion removes all or nothing: where its step fails at
/// the start the tree is as it was, and once the folder is moved aside,
/// even if the process dies before anything is removed, nothing stands any
/// more under an identifier within the folder.
pub proof fn law_interrupted_delete_is_whole(
    d: Seq<StoredView>,
    root: Seq<u8>,
    folder: Seq<u8>,
    id: Seq<u8>,
)
    requires
        valid_id(folder),
        within(folder, id),
    ensures
        ({
            let path = resolved(root, folder);
            let step = ActionView::RemoveTree { path, staging: temp_path(path) };
            &&& delete_folder_outcome(root, folder, true, EntryKind::Folder, true)
                == Ok::<crate::ops::PlanView, StoreError>(
                crate::ops::PlanView { id: folder, action: step },
            )
            &&& kind_on(interrupted(d, step, Seq::<u8>::empty()), resolved(root, id))
                == EntryKind::Missing
            &&& match stepped(d, step, Seq::<u8>::empty()) {
                Ok(next) => kind_on(next, resolved(root, id)) == EntryKind::Missing,
                Err(_) => true,
            }
        }),
{
    let path = resolved(root, folder);
    assert(folder.len() > 0) by {
        if folder.len() == 0 {
            assert(segments(folder)[0] == folder);
        }
    }
    lemma_temp_is_beside(path);
    lemma_within_resolved(root, folder, id);
    law_renamed_leaves_nothing(d, path, temp_path(path), resolved(root, id));
    law_removed_all_or_nothing(d, path, true, resolved(root, id));
}

/// On a well-formed tree the entry at a place is what stands there.
pub proof fn lemma_lookup_finds_entry(d: Seq<StoredView>, i: int)
    requires
        well_formed(d),
        0 <= i < d.len(),
    ensures
        kind_on(d, d[i].path) == d[i].kind,
        content_on(d, d[i].path) == Some(d[i].content),
    decreases d.len(),
{
    let last = d.len() - 1;
    assert(d.last() == d[last]);
    if i < last {
        let d1 = d.drop_last();
        assert(well_formed(d1)) by {
            assert forall|k: int| 0 <= k < d1.len() implies d1[k] == d[k] by {}
        }
        assert(d1[i] == d[i]);
        lemma_lookup_finds_entry(d1, i);
    }
}

/// On a well-formed tree a place holds one entry at most, so no two
/// children of a folder share a name and nothing is a note and a folder at
/// once; what stands at the place is that entry; and every step of the
/// store leaves the tree well-formed.
pub proof fn law_one_entry_per_place(
    d: Seq<StoredView>,
    i: int,
    j: int,
    action: ActionView,
    content: Seq<u8>,
)
    requires
        well_formed(d),
        0 <= i < d.len(),
        0 <= j < d.len(),
        d[i].path == d[j].path,
    ensures
        i == j,
        kind_on(d, d[i].path) == d[i].kind,
        content_on(d, d[i].path) == Some(d[i].content),
        match stepped(d, action, content) {
            Ok(next) => well_formed(next),
            Err(_) => true,
        },
{
    lemma_lookup_finds_entry(d, i);
    crate::disk::lemma_step_keeps_well_formed(d, action, content);
}

/// No two entries of `v` have the same name.
pub open spec fn distinct_names(v: Seq<EntryView>) -> bool {
    forall|i: int, j: int|
        0 <= i < j < v.len() ==> (#[trigger] v[i]).name != (#[trigger] v[j]).name
}

/// Two listings of the same entries, both in the order of names, are the
/// same listing where no two entries share a name: what a listing reports
/// does not depend on the order in which the entries were found.
pub proof fn law_listing_is_determined(a: Seq<EntryView>, b: Seq<EntryView>)
    requires
        sorted_by_name(a),
        sorted_by_name(b),
        a.to_multiset() == b.to_multiset(),
        distinct_names(a),
    ensures
        a == b,
    decreases a.len(),
{
    to_multiset_len(a);
    to_multiset_len(b);
    if a.len() == 0 {
        assert(a =~= b);
    } else {
        let n = a.len() - 1;
        let x = a[n];
        let y = b[n];
        assert(b.contains(y));
        to_multiset_contains(b, y);
        to_multiset_contains(a, y);
        let m = choose|m: int| 0 <= m < a.len() && a[m] == y;
        assert(a.contains(x));
        to_multiset_contains(a, x);
        to_multiset_contains(b, x);
        let k = choose|k: int| 0 <= k < b.len() && b[k] == x;
        if m < n {
            assert(!name_before(a[n].name, a[m].name));
            if k < n {
                assert(!name_before(b[n].name, b[k].name));
                lemma_names_compare_from(x.name, y.name, 0);
            }
            assert(a[m].name != a[n].name);
            assert(false);
        }
        let a1 = a.drop_last();
        let b1 = b.drop_last();
        to_multiset_remove(a, n);
        to_multiset_remove(b, n);
        assert(a.remove(n) =~= a1);
        assert(b.remove(n) =~= b1);
        assert(sorted_by_name(a1)) by {
            assert forall|i: int, j: int| 0 <= i < j < a1.len() implies !name_before(
                (#[trigger] a1[j]).name,
                (#[trigger] a1[i]).name,
            ) by {
                assert(a1[i] == a[i] && a1[j] == a[j]);
            }
        }
        assert(sorted_by_name(b1)) by {
            assert forall|i: int, j: int| 0 <= i < j < b1.len() implies !name_before(
                (#[trigger] b1[j]).name,
                (#[trigger] b1[i]).name,
            ) by {
                assert(b1[i] == b[i] && b1[j] == b[j]);
            }
        }
        assert(distinct_names(a1)) by {
            assert forall|i: int, j: int| 0 <= i < j < a1.len() implies (#[trigger] a1[i]).name
                != (#[trigger] a1[j]).name by {
                assert(a1[i] == a[i] && a1[j] == a[j]);
            }
        }
        law_listing_is_determined(a1, b1);
        assert(a =~= a1.push(x));
        assert(b =~= b1.push(y));
    }
}

} // verus!
