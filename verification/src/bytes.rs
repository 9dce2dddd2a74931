//! Small helpers on byte strings.

use vstd::prelude::*;

verus! {

/// Whether two byte strings are the same.
pub fn bytes_equal(a: &[u8], b: &[u8]) -> (r: bool)
    ensures
        r == (a@ == b@),
{
    if a.len() != b.len() {
        return false;
    }
    let mut i: usize = 0;
    while i < a.len()
        invariant
            i <= a.len(),
            a.len() == b.len(),
            forall|k: int| 0 <= k < i ==> a@[k] == b@[k],
        decreases a.len() - i,
    {
        if a[i] != b[i] {
            return false;
        }
        i += 1;
    }
    assert(a@ =~= b@);
    true
}

/// A copy of a byte string.
pub fn bytes_copy(a: &[u8]) -> (r: Vec<u8>)
    ensures
        r@ == a@,
{
    let mut out: Vec<u8> = Vec::with_capacity(a.len());
    let mut i: usize = 0;
    while i < a.len()
        invariant
            i <= a.len(),
            out@ == a@.subrange(0, i as int),
        decreases a.len() - i,
    {
        out.push(a[i]);
        i += 1;
        assert(out@ =~= a@.subrange(0, i as int));
    }
    assert(a@.subrange(0, a.len() as int) =~= a@);
    out
}

/// Copies the bytes of `s` from `from` up to `to`.
pub fn copy_range(s: &[u8], from: usize, to: usize) -> (r: Vec<u8>)
    requires
        from <= to <= s.len(),
    ensures
        r@ == s@.subrange(from as int, to as int),
{
    let mut out: Vec<u8> = Vec::with_capacity(to - from);
    let mut i: usize = from;
    while i < to
        invariant
            from <= i <= to,
            to <= s.len(),
            out@ == s@.subrange(from as int, i as int),
        decreases to - i,
    {
        out.push(s[i]);
        i += 1;
        assert(out@ =~= s@.subrange(from as int, i as int));
    }
    out
}

/// Appends a byte string to `out`.
pub fn bytes_append(out: &mut Vec<u8>, a: &[u8])
    ensures
        final(out)@ == old(out)@ + a@,
{
    let mut i: usize = 0;
    while i < a.len()
        invariant
            i <= a.len(),
            out@ == old(out)@ + a@.subrange(0, i as int),
        decreases a.len() - i,
    {
        out.push(a[i]);
        i += 1;
        assert(out@ =~= old(out)@ + a@.subrange(0, i as int));
    }
    assert(a@.subrange(0, a.len() as int) =~= a@);
}

/// The byte that separates the segments of a path.
pub const DOT: u8 = 0x2e;

/// The segments of a path after the one that starts at `start`, which has
/// been read up to `pos`, behind those in `acc`.
pub open spec fn split_from(path: Seq<u8>, start: int, pos: int, acc: Seq<Seq<u8>>) -> Seq<Seq<u8>>
    decreases path.len() - pos,
{
    if pos < 0 || pos >= path.len() {
        acc.push(path.subrange(start, path.len() as int))
    } else if path[pos] == DOT {
        split_from(path, pos + 1, pos + 1, acc.push(path.subrange(start, pos)))
    } else {
        split_from(path, start, pos + 1, acc)
    }
}

/// The segments of a dot-separated path. The empty path has no segment.
pub open spec fn split_path(path: Seq<u8>) -> Seq<Seq<u8>> {
    if path.len() == 0 {
        Seq::empty()
    } else {
        split_from(path, 0, 0, Seq::empty())
    }
}

/// The byte strings that a vector of byte strings holds.
pub open spec fn segments_view(segments: Seq<Vec<u8>>) -> Seq<Seq<u8>> {
    Seq::new(segments.len(), |i: int| segments[i]@)
}

/// Splits a dot-separated path into its segments.
pub fn split_dots(path: &[u8]) -> (r: Vec<Vec<u8>>)
    ensures
        segments_view(r@) == split_path(path@),
{
    let mut out: Vec<Vec<u8>> = Vec::new();
    if path.len() == 0 {
        assert(segments_view(out@) =~= split_path(path@));
        return out;
    }
    let mut current: Vec<u8> = Vec::new();
    let mut start: usize = 0;
    let mut pos: usize = 0;
    assert(segments_view(out@) =~= Seq::<Seq<u8>>::empty());
    while pos < path.len()
        invariant
            start <= pos <= path.len(),
            current@ == path@.subrange(start as int, pos as int),
            split_from(path@, start as int, pos as int, segments_view(out@)) == split_path(path@),
        decreases path.len() - pos,
    {
        let ghost before = segments_view(out@);
        if path[pos] == DOT {
            out.push(current);
            assert(segments_view(out@) =~= before.push(path@.subrange(start as int, pos as int)));
            current = Vec::new();
            start = pos + 1;
            pos += 1;
            assert(current@ =~= path@.subrange(start as int, pos as int));
        } else {
            current.push(path[pos]);
            pos += 1;
            assert(current@ =~= path@.subrange(start as int, pos as int));
        }
    }
    let ghost before = segments_view(out@);
    out.push(current);
    assert(segments_view(out@) =~= before.push(path@.subrange(start as int, path@.len() as int)));
    out
}


/// The segments with a dot between each two of them.
pub open spec fn join_dots(segments: Seq<Seq<u8>>) -> Seq<u8>
    decreases segments.len(),
{
    if segments.len() == 0 {
        Seq::empty()
    } else if segments.len() == 1 {
        segments[0]
    } else {
        join_dots(segments.drop_last()) + seq![DOT] + segments.last()
    }
}

/// Whether no segment holds a dot.
pub open spec fn dotless(segments: Seq<Seq<u8>>) -> bool {
    forall|j: int, x: int|
        0 <= j < segments.len() && 0 <= x < segments[j].len() ==> (#[trigger] segments[j][x])
            != DOT
}

/// What `split_from` gives is the segments read so far, with the rest of
/// the path cut at its dots behind them.
pub proof fn lemma_split_from(path: Seq<u8>, start: int, pos: int, acc: Seq<Seq<u8>>)
    requires
        0 <= start <= pos <= path.len(),
        dotless(acc),
        forall|x: int| start <= x < pos ==> path[x] != DOT,
    ensures
        dotless(split_from(path, start, pos, acc)),
        split_from(path, start, pos, acc).len() > acc.len(),
        join_dots(split_from(path, start, pos, acc)) == if acc.len() == 0 {
            path.subrange(start, path.len() as int)
        } else {
            join_dots(acc) + seq![DOT] + path.subrange(start, path.len() as int)
        },
    decreases path.len() - pos,
{
    let size = path.len() as int;
    if pos >= path.len() {
        let all = acc.push(path.subrange(start, size));
        assert(all.drop_last() =~= acc);
        assert forall|j: int, x: int|
            0 <= j < all.len() && 0 <= x < all[j].len() implies (#[trigger] all[j][x]) != DOT by {
            if j < acc.len() {
                assert(acc[j][x] != DOT);
            }
        }
    } else if path[pos] == DOT {
        let segment = path.subrange(start, pos);
        let more = acc.push(segment);
        assert(more.drop_last() =~= acc);
        assert forall|j: int, x: int|
            0 <= j < more.len() && 0 <= x < more[j].len() implies (#[trigger] more[j][x])
            != DOT by {
            if j < acc.len() {
                assert(acc[j][x] != DOT);
            }
        }
        lemma_split_from(path, pos + 1, pos + 1, more);
        assert(path.subrange(start, size) =~= segment + seq![DOT] + path.subrange(pos + 1, size));
        if acc.len() == 0 {
            assert(join_dots(more) == segment);
        } else {
            assert(join_dots(more) == join_dots(acc) + seq![DOT] + segment);
            assert(join_dots(acc) + seq![DOT] + segment + seq![DOT] + path.subrange(pos + 1, size)
                =~= join_dots(acc) + seq![DOT] + path.subrange(start, size));
        }
    } else {
        lemma_split_from(path, start, pos + 1, acc);
    }
}

/// What splitting means: the segments of a path hold no dot, and with a
/// dot between each two of them they are the path again.
pub proof fn law_split_joins(path: Seq<u8>)
    ensures
        dotless(split_path(path)),
        join_dots(split_path(path)) == path,
        path.len() == 0 <==> split_path(path).len() == 0,
{
    if path.len() > 0 {
        lemma_split_from(path, 0, 0, Seq::empty());
        assert(path.subrange(0, path.len() as int) =~= path);
    }
}

} // verus!
