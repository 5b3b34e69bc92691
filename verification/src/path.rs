use crate::error::StoreError;
use vstd::prelude::*;

verus! {

/// The byte that separates the segments of an identifier.
pub const SLASH: u8 = 47;

/// The other separator that some systems accept; no segment may hold it.
pub const BACKSLASH: u8 = 92;

/// The byte of which the names `.` and `..` are made.
pub const DOT: u8 = 46;

/// The zero byte, which no filesystem takes in a name.
pub const NUL: u8 = 0;

/// The position of the last separator in `s`, or -1 where it has none.
pub open spec fn last_sep(s: Seq<u8>) -> int
    decreases s.len(),
{
    if s.len() == 0 {
        -1
    } else if s.last() == SLASH {
        s.len() - 1
    } else {
        last_sep(s.drop_last())
    }
}

/// The segments of an identifier: the runs of bytes between its separators,
/// in order. An identifier with n separators has n + 1 segments, some of
/// which may be empty.
pub open spec fn segments(s: Seq<u8>) -> Seq<Seq<u8>>
    decreases s.len(),
{
    let k = last_sep(s);
    if 0 <= k < s.len() {
        segments(s.subrange(0, k)).push(s.subrange(k + 1, s.len() as int))
    } else {
        seq![s]
    }
}

/// A segment that may name an entry: not empty, neither `.` nor `..`, and
/// free of separators and of the zero byte.
pub open spec fn valid_segment(seg: Seq<u8>) -> bool {
    &&& seg.len() > 0
    &&& !(seg.len() == 1 && seg[0] == DOT)
    &&& !(seg.len() == 2 && seg[0] == DOT && seg[1] == DOT)
    &&& forall|i: int|
        0 <= i < seg.len() ==> seg[i] != SLASH && seg[i] != BACKSLASH && seg[i] != NUL
}

/// An identifier that the store accepts: each of its segments is valid. The
/// empty identifier has one empty segment and is therefore not accepted.
pub open spec fn valid_id(s: Seq<u8>) -> bool {
    forall|i: int| 0 <= i < segments(s).len() ==> valid_segment(#[trigger] segments(s)[i])
}

/// A reference to a folder: a valid identifier, or the empty one, which
/// stands for the root itself.
pub open spec fn valid_folder_ref(s: Seq<u8>) -> bool {
    s.len() == 0 || valid_id(s)
}

/// Where an identifier lies on disk: the root, a separator, the identifier.
pub open spec fn resolved(root: Seq<u8>, id: Seq<u8>) -> Seq<u8> {
    root.push(SLASH) + id
}

/// Where a folder reference lies on disk: the root itself for the empty
/// reference.
pub open spec fn resolved_folder(root: Seq<u8>, id: Seq<u8>) -> Seq<u8> {
    if id.len() == 0 {
        root
    } else {
        resolved(root, id)
    }
}

/// `p` lies strictly below `root`: it continues the root by a separator and
/// a valid identifier, so no step of it leads up or out again.
pub open spec fn strictly_inside(root: Seq<u8>, p: Seq<u8>) -> bool {
    &&& p.len() > root.len() + 1
    &&& p.subrange(0, root.len() as int) == root
    &&& p[root.len() as int] == SLASH
    &&& valid_id(p.subrange(root.len() as int + 1, p.len() as int))
}

/// The identifier of the entry called `name` in `folder`.
pub open spec fn child_id(folder: Seq<u8>, name: Seq<u8>) -> Seq<u8> {
    if folder.len() == 0 {
        name
    } else {
        folder.push(SLASH) + name
    }
}

/// The folder that holds `id`: empty (the root) for a single segment.
pub open spec fn parent_id(id: Seq<u8>) -> Seq<u8> {
    let k = last_sep(id);
    if 0 <= k < id.len() {
        id.subrange(0, k)
    } else {
        Seq::empty()
    }
}

/// The last segment of `id`.
pub open spec fn base_name(id: Seq<u8>) -> Seq<u8> {
    let k = last_sep(id);
    if 0 <= k < id.len() {
        id.subrange(k + 1, id.len() as int)
    } else {
        id
    }
}

/// `id` is `folder` itself or lies somewhere below it. Everything lies
/// within the root, the empty reference.
pub open spec fn within(folder: Seq<u8>, id: Seq<u8>) -> bool {
    ||| folder.len() == 0
    ||| id == folder
    ||| (id.len() > folder.len() && id.subrange(0, folder.len() as int) == folder
        && id[folder.len() as int] == SLASH)
}

/// The identifier that `id`, which lies within `from`, has once `from` has
/// become `to`: the part below `from` is kept as it is.
pub open spec fn rebased(id: Seq<u8>, from: Seq<u8>, to: Seq<u8>) -> Seq<u8> {
    to + id.subrange(from.len() as int, id.len() as int)
}

pub proof fn lemma_last_sep_bounds(s: Seq<u8>)
    ensures
        -1 <= last_sep(s) < s.len(),
        last_sep(s) >= 0 ==> s[last_sep(s)] == SLASH,
        forall|j: int| last_sep(s) < j < s.len() ==> s[j] != SLASH,
    decreases s.len(),
{
    if s.len() > 0 && s.last() != SLASH {
        let t = s.drop_last();
        lemma_last_sep_bounds(t);
        assert forall|j: int| last_sep(s) < j < s.len() implies s[j] != SLASH by {
            if j < t.len() {
                assert(t[j] == s[j]);
            }
        }
    }
}

/// The last separator is where a separator stands with none behind it.
pub proof fn lemma_last_sep_is(s: Seq<u8>, k: int)
    requires
        -1 <= k < s.len(),
        k >= 0 ==> s[k] == SLASH,
        forall|j: int| k < j < s.len() ==> s[j] != SLASH,
    ensures
        last_sep(s) == k,
    decreases s.len(),
{
    if s.len() > 0 && s.last() != SLASH {
        lemma_last_sep_is(s.drop_last(), k);
    }
}

/// A sequence without a separator is its own single segment.
pub proof fn lemma_single_segment(s: Seq<u8>)
    requires
        forall|j: int| 0 <= j < s.len() ==> s[j] != SLASH,
    ensures
        segments(s) == seq![s],
{
    lemma_last_sep_is(s, -1);
}

/// What follows the last separator is the last segment, and what precedes
/// it gives the segments before.
pub proof fn lemma_segments_at(s: Seq<u8>, start: int)
    requires
        0 < start <= s.len(),
        s[start - 1] == SLASH,
        forall|j: int| start <= j < s.len() ==> s[j] != SLASH,
    ensures
        segments(s) == segments(s.subrange(0, start - 1)).push(
            s.subrange(start, s.len() as int),
        ),
{
    lemma_last_sep_is(s, start - 1);
}

/// A valid segment is a valid identifier of one segment.
pub proof fn lemma_segment_is_id(name: Seq<u8>)
    requires
        valid_segment(name),
    ensures
        valid_id(name),
        segments(name) == seq![name],
{
    lemma_single_segment(name);
}

/// The child of a folder has the folder's segments and then its own name.
pub proof fn lemma_child_segments(folder: Seq<u8>, name: Seq<u8>)
    requires
        folder.len() > 0,
        forall|j: int| 0 <= j < name.len() ==> name[j] != SLASH,
    ensures
        segments(child_id(folder, name)) == segments(folder).push(name),
        parent_id(child_id(folder, name)) == folder,
        base_name(child_id(folder, name)) == name,
{
    let c = child_id(folder, name);
    let n = folder.len() as int;
    lemma_last_sep_is(c, n);
    assert(c.subrange(0, n) =~= folder);
    assert(c.subrange(n + 1, c.len() as int) =~= name);
}

/// The child of a folder reference by a valid name is a valid identifier.
pub proof fn lemma_child_valid(folder: Seq<u8>, name: Seq<u8>)
    requires
        valid_folder_ref(folder),
        valid_segment(name),
    ensures
        valid_id(child_id(folder, name)),
        parent_id(child_id(folder, name)) == folder,
        base_name(child_id(folder, name)) == name,
{
    if folder.len() == 0 {
        lemma_segment_is_id(name);
        lemma_last_sep_is(name, -1);
    } else {
        lemma_child_segments(folder, name);
    }
}

/// A valid identifier is the child of its parent by its last segment; the
/// parent is a folder reference and the last segment a valid name.
pub proof fn lemma_parent_and_name(id: Seq<u8>)
    requires
        valid_id(id),
    ensures
        valid_folder_ref(parent_id(id)),
        valid_segment(base_name(id)),
        child_id(parent_id(id), base_name(id)) == id,
{
    lemma_last_sep_bounds(id);
    let k = last_sep(id);
    let segs = segments(id);
    if 0 <= k {
        let p = id.subrange(0, k);
        let b = id.subrange(k + 1, id.len() as int);
        assert(segs == segments(p).push(b));
        assert(segs[segs.len() - 1] == b);
        assert(valid_segment(segs[segs.len() - 1]));
        assert forall|i: int| 0 <= i < segments(p).len() implies valid_segment(
            #[trigger] segments(p)[i],
        ) by {
            assert(segs[i] == segments(p)[i]);
        }
        assert(p.len() > 0) by {
            if p.len() == 0 {
                assert(segments(p) == seq![p]);
                assert(segments(p)[0] == p);
            }
        }
        assert(child_id(p, b) =~= id);
    } else {
        assert(segs[0] == id);
    }
}

/// Whether no byte of `id` from `start` up to `end` is a separator.
pub open spec fn no_sep_between(id: Seq<u8>, start: int, end: int) -> bool {
    forall|j: int| start <= j < end ==> id[j] != SLASH
}

/// Tells whether the bytes of `id` from `start` up to `end` form a valid
/// segment.
pub fn check_segment(id: &[u8], start: usize, end: usize) -> (ok: bool)
    requires
        start <= end <= id@.len(),
    ensures
        ok == valid_segment(id@.subrange(start as int, end as int)),
{
    let ghost seg = id@.subrange(start as int, end as int);
    let len: usize = end - start;
    if len == 0 {
        return false;
    }
    if len == 1 && id[start] == DOT {
        assert(seg[0] == DOT);
        return false;
    }
    if len == 2 && id[start] == DOT && id[start + 1] == DOT {
        assert(seg[0] == DOT && seg[1] == DOT);
        return false;
    }
    let mut i: usize = start;
    while i < end
        invariant
            start <= i <= end <= id@.len(),
            seg == id@.subrange(start as int, end as int),
            forall|j: int|
                0 <= j < i - start ==> seg[j] != SLASH && seg[j] != BACKSLASH && seg[j] != NUL,
        decreases end - i,
    {
        let b: u8 = id[i];
        if b == SLASH || b == BACKSLASH || b == NUL {
            assert(seg[i - start] == b);
            return false;
        }
        i += 1;
    }
    assert(seg[0] == id@[start as int]);
    assert(len == 2 ==> seg[1] == id@[start + 1]);
    true
}

/// Tells whether `name` can name an entry.
pub fn is_valid_name(name: &[u8]) -> (ok: bool)
    ensures
        ok == valid_segment(name@),
{
    assert(name@.subrange(0, name@.len() as int) =~= name@);
    check_segment(name, 0, name.len())
}

/// Tells whether the store accepts `id`.
pub fn is_valid_id(id: &[u8]) -> (ok: bool)
    ensures
        ok == valid_id(id@),
{
    let n: usize = id.len();
    let mut ok: bool = true;
    let mut start: usize = 0;
    let mut i: usize = 0;
    while i < n
        invariant
            0 <= start <= i <= n == id@.len(),
            no_sep_between(id@, start as int, i as int),
            start > 0 ==> id@[start - 1] == SLASH,
            start > 0 ==> ok == valid_id(id@.subrange(0, start - 1)),
            start == 0 ==> ok,
        decreases n - i,
    {
        if id[i] == SLASH {
            let seg_ok: bool = check_segment(id, start, i);
            proof {
                let t = id@.subrange(0, i as int);
                let seg = id@.subrange(start as int, i as int);
                assert(t.subrange(start as int, t.len() as int) =~= seg);
                if start > 0 {
                    assert(t.subrange(0, start - 1) =~= id@.subrange(0, start - 1));
                    lemma_segments_at(t, start as int);
                    lemma_valid_push(id@.subrange(0, start - 1), seg, t);
                } else {
                    assert(t =~= seg);
                    lemma_single_segment(t);
                    assert(segments(t)[0] == t);
                }
            }
            ok = ok && seg_ok;
            start = i + 1;
        }
        i += 1;
    }
    let last_ok: bool = check_segment(id, start, n);
    proof {
        let t = id@;
        let seg = id@.subrange(start as int, n as int);
        if start > 0 {
            lemma_segments_at(t, start as int);
            lemma_valid_push(id@.subrange(0, start - 1), seg, t);
        } else {
            assert(t =~= seg);
            lemma_single_segment(t);
            assert(segments(t)[0] == t);
        }
    }
    ok && last_ok
}

/// An identifier whose segments are those of `head` and then `seg` is valid
/// exactly if `head` is valid and `seg` is a valid segment.
pub proof fn lemma_valid_push(head: Seq<u8>, seg: Seq<u8>, whole: Seq<u8>)
    requires
        segments(whole) == segments(head).push(seg),
    ensures
        valid_id(whole) == (valid_id(head) && valid_segment(seg)),
{
    let hs = segments(head);
    let ws = segments(whole);
    if valid_id(whole) {
        assert(ws[ws.len() - 1] == seg);
        assert forall|i: int| 0 <= i < hs.len() implies valid_segment(#[trigger] hs[i]) by {
            assert(ws[i] == hs[i]);
        }
    }
    if valid_id(head) && valid_segment(seg) {
        assert forall|i: int| 0 <= i < ws.len() implies valid_segment(#[trigger] ws[i]) by {
            if i < hs.len() {
                assert(ws[i] == hs[i]);
            }
        }
    }
}

/// Tells whether `id` refers to a folder: a valid identifier or the empty
/// reference to the root.
pub fn is_valid_folder_ref(id: &[u8]) -> (ok: bool)
    ensures
        ok == valid_folder_ref(id@),
{
    id.len() == 0 || is_valid_id(id)
}

/// Appends the bytes of `src` to `dst`.
fn append_bytes(dst: &mut Vec<u8>, src: &[u8])
    ensures
        final(dst)@ == old(dst)@ + src@,
{
    let ghost before = dst@;
    let mut i: usize = 0;
    while i < src.len()
        invariant
            0 <= i <= src@.len(),
            dst@ == before + src@.subrange(0, i as int),
        decreases src@.len() - i,
    {
        dst.push(src[i]);
        assert(dst@ =~= before + src@.subrange(0, i + 1));
        i += 1;
    }
    assert(src@.subrange(0, src@.len() as int) =~= src@);
}

/// Maps an identifier to its place below `root`, or rejects it. This is the
/// one place where locations on disk are made: the result continues `root`
/// by a separator and the identifier, each segment of which names an entry,
/// so it lies strictly below the root.
pub fn resolve(root: &[u8], id: &[u8]) -> (res: Result<Vec<u8>, StoreError>)
    ensures
        match res {
            Ok(p) => valid_id(id@) && p@ == resolved(root@, id@) && strictly_inside(root@, p@),
            Err(e) => !valid_id(id@) && e == StoreError::InvalidId,
        },
{
    if !is_valid_id(id) {
        return Err(StoreError::InvalidId);
    }
    let mut p: Vec<u8> = Vec::new();
    append_bytes(&mut p, root);
    p.push(SLASH);
    append_bytes(&mut p, id);
    proof {
        lemma_resolved_inside(root@, id@);
        assert(p@ =~= resolved(root@, id@));
    }
    Ok(p)
}

/// Maps a folder reference to its place: the root itself for the empty
/// reference, else as [`resolve`] does.
pub fn resolve_folder(root: &[u8], id: &[u8]) -> (res: Result<Vec<u8>, StoreError>)
    ensures
        match res {
            Ok(p) => valid_folder_ref(id@) && p@ == resolved_folder(root@, id@),
            Err(e) => !valid_folder_ref(id@) && e == StoreError::InvalidId,
        },
{
    if id.len() == 0 {
        let mut p: Vec<u8> = Vec::new();
        append_bytes(&mut p, root);
        assert(p@ =~= root@);
        Ok(p)
    } else {
        resolve(root, id)
    }
}

/// The place of a valid identifier lies strictly below the root.
pub proof fn lemma_resolved_inside(root: Seq<u8>, id: Seq<u8>)
    requires
        valid_id(id),
    ensures
        strictly_inside(root, resolved(root, id)),
{
    let p = resolved(root, id);
    assert(id.len() > 0) by {
        if id.len() == 0 {
            assert(segments(id) == seq![id]);
            assert(segments(id)[0] == id);
        }
    }
    assert(p.subrange(0, root.len() as int) =~= root);
    assert(p.subrange(root.len() as int + 1, p.len() as int) =~= id);
}

/// Builds the identifier of the entry called `name` in `folder`.
pub fn child_of(folder: &[u8], name: &[u8]) -> (id: Vec<u8>)
    ensures
        id@ == child_id(folder@, name@),
{
    let mut id: Vec<u8> = Vec::new();
    if folder.len() > 0 {
        append_bytes(&mut id, folder);
        id.push(SLASH);
    }
    append_bytes(&mut id, name);
    assert(id@ =~= child_id(folder@, name@));
    id
}

/// Finds the last separator of `id`: the index behind it, or 0 where there
/// is none.
pub(crate) fn name_start(id: &[u8]) -> (start: usize)
    ensures
        start == last_sep(id@) + 1,
{
    let mut i: usize = id.len();
    while i > 0
        invariant
            0 <= i <= id@.len(),
            forall|j: int| i <= j < id@.len() ==> id@[j] != SLASH,
        decreases i,
    {
        if id[i - 1] == SLASH {
            proof {
                lemma_last_sep_is(id@, i - 1);
            }
            return i;
        }
        i -= 1;
    }
    proof {
        lemma_last_sep_is(id@, -1);
    }
    0
}

/// Copies the bytes of `src` from `from` up to `to`.
fn copy_range(src: &[u8], from: usize, to: usize) -> (out: Vec<u8>)
    requires
        from <= to <= src@.len(),
    ensures
        out@ == src@.subrange(from as int, to as int),
{
    let mut out: Vec<u8> = Vec::new();
    let mut i: usize = from;
    while i < to
        invariant
            from <= i <= to <= src@.len(),
            out@ == src@.subrange(from as int, i as int),
        decreases to - i,
    {
        out.push(src[i]);
        assert(out@ =~= src@.subrange(from as int, i + 1));
        i += 1;
    }
    out
}

/// The folder that holds `id`; the empty reference where `id` has a single
/// segment.
pub fn parent_of(id: &[u8]) -> (p: Vec<u8>)
    ensures
        p@ == parent_id(id@),
{
    let start: usize = name_start(id);
    proof {
        lemma_last_sep_bounds(id@);
    }
    if start == 0 {
        let p: Vec<u8> = Vec::new();
        assert(p@ =~= parent_id(id@));
        p
    } else {
        copy_range(id, 0, start - 1)
    }
}

/// The last segment of `id`.
pub fn name_of(id: &[u8]) -> (name: Vec<u8>)
    ensures
        name@ == base_name(id@),
{
    let start: usize = name_start(id);
    proof {
        lemma_last_sep_bounds(id@);
    }
    let name = copy_range(id, start, id.len());
    assert(id@.subrange(0, id@.len() as int) =~= id@);
    name
}

/// Tells whether `id` is `folder` itself or lies below it.
pub fn is_within(folder: &[u8], id: &[u8]) -> (b: bool)
    ensures
        b == within(folder@, id@),
{
    let n: usize = folder.len();
    if n == 0 {
        return true;
    }
    if id.len() < n {
        assert(id@ != folder@);
        return false;
    }
    let mut i: usize = 0;
    while i < n
        invariant
            0 <= i <= n == folder@.len() <= id@.len(),
            forall|j: int| 0 <= j < i ==> id@[j] == folder@[j],
        decreases n - i,
    {
        if id[i] != folder[i] {
            assert(id@.subrange(0, n as int)[i as int] != folder@[i as int]);
            return false;
        }
        i += 1;
    }
    assert(id@.subrange(0, n as int) =~= folder@);
    if id.len() == n {
        assert(id@ =~= folder@);
        true
    } else {
        id[n] == SLASH
    }
}

/// Gives the identifier that `id` has once the folder `from` has become
/// `to`, if `id` lies within `from`; nothing if it does not.
pub fn rebase(id: &[u8], from: &[u8], to: &[u8]) -> (res: Option<Vec<u8>>)
    ensures
        match res {
            Some(out) => within(from@, id@) && out@ == rebased(id@, from@, to@),
            None => !within(from@, id@),
        },
{
    if !is_within(from, id) {
        return None;
    }
    let mut out: Vec<u8> = Vec::new();
    append_bytes(&mut out, to);
    let mut i: usize = from.len();
    assert(out@ =~= to@ + id@.subrange(from@.len() as int, i as int));
    while i < id.len()
        invariant
            from@.len() <= i <= id@.len(),
            out@ == to@ + id@.subrange(from@.len() as int, i as int),
        decreases id@.len() - i,
    {
        out.push(id[i]);
        assert(out@ =~= to@ + id@.subrange(from@.len() as int, i + 1));
        i += 1;
    }
    Some(out)
}

/// What lies within `from` lies within `to` once it is rebased.
pub proof fn lemma_rebased_within(x: Seq<u8>, from: Seq<u8>, to: Seq<u8>)
    requires
        from.len() > 0,
        to.len() > 0,
        within(from, x),
    ensures
        within(to, rebased(x, from, to)),
{
    let r = rebased(x, from, to);
    if x == from {
        assert(r =~= to);
    } else {
        assert(r.subrange(0, to.len() as int) =~= to);
        assert(r[to.len() as int] == x[from.len() as int]);
    }
}

/// Rebasing gives different places to different places.
pub proof fn lemma_rebased_injective(x: Seq<u8>, y: Seq<u8>, from: Seq<u8>, to: Seq<u8>)
    requires
        within(from, x),
        within(from, y),
        x.len() >= from.len(),
        y.len() >= from.len(),
        rebased(x, from, to) == rebased(y, from, to),
    ensures
        x == y,
{
    let n = from.len() as int;
    let sx = x.subrange(n, x.len() as int);
    let sy = y.subrange(n, y.len() as int);
    assert(sx.len() == sy.len()) by {
        assert((to + sx).len() == (to + sy).len());
    }
    assert forall|j: int| 0 <= j < sx.len() implies sx[j] == sy[j] by {
        assert((to + sx)[to.len() + j] == sx[j]);
        assert((to + sy)[to.len() + j] == sy[j]);
    }
    assert(sx =~= sy);
    assert(x.subrange(0, n) =~= from);
    assert(y.subrange(0, n) =~= from);
    assert(x =~= x.subrange(0, n) + sx);
    assert(y =~= y.subrange(0, n) + sy);
}

} // verus!
