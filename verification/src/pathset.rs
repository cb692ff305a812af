use vstd::prelude::*;

use crate::error::NFDErrorType;

verus! {

/// A multi-selection dialog result in the native library's layout, held as
/// plain values: `buf` is one contiguous buffer of `indices.len()`
/// null-terminated path strings packed back-to-back, and each entry of
/// `indices` is the byte offset in `buf` where one path starts.
pub struct PathSet {
    pub buf: Vec<u8>,
    pub indices: Vec<usize>,
}

/// The position of the first null byte of `buf` at or after `start`, or
/// `buf.len()` when no null byte follows `start`.
pub open spec fn first_null_from(buf: Seq<u8>, start: int) -> int
    decreases buf.len() - start,
{
    if start < 0 || start >= buf.len() {
        buf.len() as int
    } else if buf[start] == 0 {
        start
    } else {
        first_null_from(buf, start + 1)
    }
}

/// Span `i` of a pathset is readable. For every path but the last, the next
/// index must lie within the buffer and strictly past this one, with a null
/// terminator as the span's final byte; for the last path, a null terminator
/// must be reachable from its start inside the buffer.
pub open spec fn span_ok(buf: Seq<u8>, indices: Seq<usize>, i: int) -> bool
    recommends
        0 <= i < indices.len(),
{
    if i + 1 < indices.len() {
        &&& indices[i] < indices[i + 1]
        &&& indices[i + 1] <= buf.len()
        &&& buf[indices[i + 1] as int - 1] == 0
    } else {
        &&& indices[i] <= buf.len()
        &&& first_null_from(buf, indices[i] as int) < buf.len()
    }
}

/// A pathset is decodable exactly when every one of its spans is readable.
pub open spec fn pathset_decodable(buf: Seq<u8>, indices: Seq<usize>) -> bool {
    forall|i: int| 0 <= i < indices.len() ==> span_ok(buf, indices, i)
}

/// The bytes of path `i`: from its start offset up to, and not including,
/// its null terminator.
pub open spec fn path_span(buf: Seq<u8>, indices: Seq<usize>, i: int) -> Seq<u8>
    recommends
        0 <= i < indices.len(),
        span_ok(buf, indices, i),
{
    if i + 1 < indices.len() {
        buf.subrange(indices[i] as int, indices[i + 1] as int - 1)
    } else {
        buf.subrange(indices[i] as int, first_null_from(buf, indices[i] as int))
    }
}

/// All paths of a decodable pathset, in index order.
pub open spec fn decoded_paths(buf: Seq<u8>, indices: Seq<usize>) -> Seq<Seq<u8>> {
    Seq::new(indices.len(), |i: int| path_span(buf, indices, i))
}

/// The views of a sequence of owned byte paths.
pub open spec fn paths_view(paths: Seq<Vec<u8>>) -> Seq<Seq<u8>> {
    paths.map_values(|p: Vec<u8>| p@)
}

/// The packed buffer that encodes `paths`: each path's bytes followed by
/// one null terminator, concatenated in order.
pub open spec fn encoded_buf(paths: Seq<Seq<u8>>) -> Seq<u8>
    decreases paths.len(),
{
    if paths.len() == 0 {
        Seq::empty()
    } else {
        encoded_buf(paths.drop_last()) + paths.last() + seq![0u8]
    }
}

/// The index table that encodes `paths`: the start offset of each path
/// within `encoded_buf(paths)`.
pub open spec fn encoded_indices(paths: Seq<Seq<u8>>) -> Seq<usize>
    decreases paths.len(),
{
    if paths.len() == 0 {
        Seq::<usize>::empty()
    } else {
        encoded_indices(paths.drop_last()).push(encoded_buf(paths.drop_last()).len() as usize)
    }
}

/// No path holds a null byte, so each can be stored null-terminated.
pub open spec fn null_free(paths: Seq<Seq<u8>>) -> bool {
    forall|i: int, j: int|
        0 <= i < paths.len() && 0 <= j < paths[i].len() ==> paths[i][j] != 0
}

/// If no byte of `buf[start..j]` is null and position `j` either holds a
/// null byte or is the buffer's end, then `j` is the first null position.
proof fn lemma_first_null(buf: Seq<u8>, start: int, j: int)
    requires
        0 <= start <= j <= buf.len(),
        forall|k: int| start <= k < j ==> buf[k] != 0,
        j == buf.len() || buf[j] == 0,
    ensures
        first_null_from(buf, start) == j,
    decreases j - start,
{
    if start < j {
        lemma_first_null(buf, start + 1, j);
    }
}

impl PathSet {
    /// How many paths the pathset claims to hold.
    pub open spec fn count(self) -> nat {
        self.indices@.len()
    }

    /// The pathset satisfies the native layout's invariants.
    pub open spec fn decodable(self) -> bool {
        pathset_decodable(self.buf@, self.indices@)
    }

    /// The paths the pathset holds, in index order.
    pub open spec fn paths(self) -> Seq<Seq<u8>> {
        decoded_paths(self.buf@, self.indices@)
    }

    /// Decode the pathset into owned byte paths, one per index, in index
    /// order, each holding exactly the bytes of its span minus the trailing
    /// null terminator. Every lookup is bounds-checked: a malformed pathset
    /// is reported as an error, never read out of bounds.
    pub fn decode(&self) -> (r: Result<Vec<Vec<u8>>, NFDErrorType>)
        ensures
            r is Ok <==> self.decodable(),
            r is Ok ==> paths_view(r->Ok_0@) == self.paths(),
            r is Err ==> r->Err_0 == NFDErrorType::MalformedPathset,
    {
        let n = self.indices.len();
        let mut paths: Vec<Vec<u8>> = Vec::new();
        if n == 0 {
            assert(paths_view(paths@) =~= self.paths());
            return Ok(paths);
        }
        let mut i: usize = 0;
        while i + 1 < n
            invariant
                n == self.indices@.len(),
                1 <= n,
                i < n,
                paths@.len() == i,
                forall|k: int| 0 <= k < i ==> span_ok(self.buf@, self.indices@, k),
                forall|k: int| 0 <= k < i ==> paths@[k]@ == path_span(self.buf@, self.indices@, k),
            decreases n - i,
        {
            let start = self.indices[i];
            let end = self.indices[i + 1];
            if !(start < end && end <= self.buf.len()) {
                assert(!span_ok(self.buf@, self.indices@, i as int));
                return Err(NFDErrorType::MalformedPathset);
            }
            if *vstd::slice::slice_index_get(self.buf.as_slice(), end - 1) != 0 {
                assert(!span_ok(self.buf@, self.indices@, i as int));
                return Err(NFDErrorType::MalformedPathset);
            }
            let p = vstd::slice::slice_to_vec(vstd::slice::slice_subrange(
                self.buf.as_slice(),
                start,
                end - 1,
            ));
            assert(span_ok(self.buf@, self.indices@, i as int));
            assert(p@ == path_span(self.buf@, self.indices@, i as int));
            paths.push(p);
            i = i + 1;
        }
        let start = self.indices[n - 1];
        if start > self.buf.len() {
            assert(!span_ok(self.buf@, self.indices@, n - 1));
            return Err(NFDErrorType::MalformedPathset);
        }
        let mut j: usize = start;
        while j < self.buf.len() && *vstd::slice::slice_index_get(self.buf.as_slice(), j) != 0
            invariant
                start <= j <= self.buf@.len(),
                forall|k: int| start <= k < j ==> self.buf@[k] != 0,
            decreases self.buf@.len() - j,
        {
            j = j + 1;
        }
        if j == self.buf.len() {
            proof {
                lemma_first_null(self.buf@, start as int, j as int);
                assert(!span_ok(self.buf@, self.indices@, n - 1));
            }
            return Err(NFDErrorType::MalformedPathset);
        }
        proof {
            lemma_first_null(self.buf@, start as int, j as int);
            assert(span_ok(self.buf@, self.indices@, n - 1));
        }
        let p = vstd::slice::slice_to_vec(vstd::slice::slice_subrange(
            self.buf.as_slice(),
            start,
            j,
        ));
        assert(p@ == path_span(self.buf@, self.indices@, n - 1));
        paths.push(p);
        assert(self.decodable());
        assert(paths_view(paths@) =~= self.paths());
        Ok(paths)
    }
}

proof fn lemma_encoded_indices_len(paths: Seq<Seq<u8>>)
    ensures
        encoded_indices(paths).len() == paths.len(),
    decreases paths.len(),
{
    if paths.len() > 0 {
        lemma_encoded_indices_len(paths.drop_last());
    }
}

/// A non-empty encoding ends with a null terminator.
proof fn lemma_encoded_buf_ends_null(paths: Seq<Seq<u8>>)
    requires
        paths.len() > 0,
    ensures
        encoded_buf(paths).len() > 0,
        encoded_buf(paths)[encoded_buf(paths).len() - 1] == 0,
{
    let b = encoded_buf(paths);
    assert(b == encoded_buf(paths.drop_last()) + paths.last() + seq![0u8]);
    assert(b[b.len() - 1] == seq![0u8][0]);
}

/// When one more path is appended to an encoding, every earlier span keeps
/// its place and its bytes.
proof fn lemma_extended_span(paths: Seq<Seq<u8>>, i: int)
    requires
        paths.len() > 1,
        encoded_buf(paths).len() <= usize::MAX,
        0 <= i < paths.len() - 1,
        encoded_indices(paths.drop_last()).len() == paths.len() - 1,
        pathset_decodable(encoded_buf(paths.drop_last()), encoded_indices(paths.drop_last())),
        decoded_paths(encoded_buf(paths.drop_last()), encoded_indices(paths.drop_last()))
            == paths.drop_last(),
    ensures
        span_ok(encoded_buf(paths), encoded_indices(paths), i),
        path_span(encoded_buf(paths), encoded_indices(paths), i) == paths[i],
{
    let n = paths.len() as int;
    let pre = paths.drop_last();
    let last = paths.last();
    let buf = encoded_buf(paths);
    let idx = encoded_indices(paths);
    let bufp = encoded_buf(pre);
    let idxp = encoded_indices(pre);
    assert(buf == bufp + last + seq![0u8]);
    assert(idx == idxp.push(bufp.len() as usize));
    assert(idx[i] == idxp[i]);
    assert(span_ok(bufp, idxp, i));
    assert(decoded_paths(bufp, idxp)[i] == pre[i]);
    assert(path_span(bufp, idxp, i) == pre[i]);
    assert(pre[i] == paths[i]);
    if i + 1 < n - 1 {
        // An interior span of the shorter encoding: its bounds and bytes
        // lie within the shorter buffer, which is a prefix of the longer.
        assert(idx[i + 1] == idxp[i + 1]);
        assert(idxp[i + 1] <= bufp.len());
        assert(buf[idxp[i + 1] as int - 1] == bufp[idxp[i + 1] as int - 1]);
        assert(span_ok(buf, idx, i));
        assert(buf.subrange(idxp[i] as int, idxp[i + 1] as int - 1)
            =~= bufp.subrange(idxp[i] as int, idxp[i + 1] as int - 1));
        assert(path_span(buf, idx, i) == path_span(bufp, idxp, i));
    } else {
        // The shorter encoding's final span: its terminator is the shorter
        // buffer's last byte, and the appended path's index points just
        // past it.
        assert(i == n - 2);
        assert(idx[i + 1] == bufp.len());
        lemma_encoded_buf_ends_null(pre);
        assert(buf[bufp.len() - 1] == bufp[bufp.len() - 1]);
        // The span's bytes are the shorter encoding's tail, which stores
        // exactly this path before its terminator.
        let pre2 = pre.drop_last();
        assert(bufp == encoded_buf(pre2) + pre.last() + seq![0u8]);
        assert(idxp[i] == encoded_buf(pre2).len());
        assert(pre.last() == pre[i]);
        assert(bufp.len() == idxp[i] + pre[i].len() + 1);
        assert(idxp[i] < bufp.len());
        assert(span_ok(buf, idx, i));
        assert(buf.subrange(idxp[i] as int, bufp.len() - 1) =~= pre[i]);
        assert(path_span(buf, idx, i) == pre[i]);
    }
}

/// Law: a pathset encoded from any sequence of null-free paths is decodable
/// and decodes back to exactly that sequence, in order.
pub proof fn lemma_encode_decode_round_trip(paths: Seq<Seq<u8>>)
    requires
        null_free(paths),
        encoded_buf(paths).len() <= usize::MAX,
    ensures
        encoded_indices(paths).len() == paths.len(),
        pathset_decodable(encoded_buf(paths), encoded_indices(paths)),
        decoded_paths(encoded_buf(paths), encoded_indices(paths)) == paths,
    decreases paths.len(),
{
    lemma_encoded_indices_len(paths);
    let buf = encoded_buf(paths);
    let idx = encoded_indices(paths);
    if paths.len() == 0 {
        assert(decoded_paths(buf, idx) =~= paths);
    } else {
        let n = paths.len() as int;
        let pre = paths.drop_last();
        let last = paths.last();
        let bufp = encoded_buf(pre);
        let idxp = encoded_indices(pre);
        lemma_encoded_indices_len(pre);
        assert(buf == bufp + last + seq![0u8]);
        assert(idx == idxp.push(bufp.len() as usize));
        assert(buf.len() == bufp.len() + last.len() + 1);
        assert(null_free(pre)) by {
            assert forall|i: int, j: int|
                0 <= i < pre.len() && 0 <= j < pre[i].len() implies pre[i][j] != 0 by {
                assert(pre[i] == paths[i]);
            }
        }
        lemma_encode_decode_round_trip(pre);

        // The appended path becomes the new final span.
        let start = bufp.len() as int;
        let term = start + last.len();
        assert(idx[n - 1] == start);
        assert forall|k: int| start <= k < term implies buf[k] != 0 by {
            assert(buf[k] == last[k - start]);
            assert(last == paths[n - 1]);
        }
        assert(buf[term] == seq![0u8][0]);
        lemma_first_null(buf, start, term);
        assert(span_ok(buf, idx, n - 1));
        assert(path_span(buf, idx, n - 1) =~= last);

        // Every span of the shorter encoding keeps its place and content.
        assert forall|i: int| 0 <= i < idx.len() implies span_ok(buf, idx, i) by {
            if i < n - 1 {
                lemma_extended_span(paths, i);
            }
        }
        assert(pathset_decodable(buf, idx));
        assert forall|i: int| 0 <= i < n implies decoded_paths(buf, idx)[i] == paths[i] by {
            if i < n - 1 {
                lemma_extended_span(paths, i);
            } else {
                assert(path_span(buf, idx, n - 1) =~= last);
            }
        }
        assert(decoded_paths(buf, idx) =~= paths);
    }
}

/// Build a synthetic pathset that stores the given paths in the native
/// layout: each path's bytes followed by one null terminator, packed
/// back-to-back, with each path's start offset recorded in the index table.
/// The result is decodable and decodes back to exactly the given paths.
#[verifier::loop_isolation(false)]
pub fn encode_pathset(paths: &Vec<Vec<u8>>) -> (r: PathSet)
    requires
        null_free(paths_view(paths@)),
    ensures
        r.buf@ == encoded_buf(paths_view(paths@)),
        r.indices@ == encoded_indices(paths_view(paths@)),
        r.count() == paths@.len(),
        r.decodable(),
        r.paths() == paths_view(paths@),
{
    let ghost pv = paths_view(paths@);
    let mut buf: Vec<u8> = Vec::new();
    let mut indices: Vec<usize> = Vec::new();
    let mut i: usize = 0;
    assert(pv.take(0) =~= Seq::<Seq<u8>>::empty());
    while i < paths.len()
        invariant
            i <= paths@.len(),
            buf@ == encoded_buf(pv.take(i as int)),
            indices@ == encoded_indices(pv.take(i as int)),
        decreases paths@.len() - i,
    {
        indices.push(buf.len());
        let p: &Vec<u8> = &paths[i];
        let mut j: usize = 0;
        while j < p.len()
            invariant
                j <= p@.len(),
                buf@ == encoded_buf(pv.take(i as int)) + p@.subrange(0, j as int),
            decreases p@.len() - j,
        {
            let b = p[j];
            buf.push(b);
            assert(buf@ =~= encoded_buf(pv.take(i as int)) + p@.subrange(0, j as int + 1));
            j = j + 1;
        }
        buf.push(0u8);
        proof {
            assert(pv.take(i as int + 1).drop_last() =~= pv.take(i as int));
            assert(pv.take(i as int + 1).last() == p@);
            assert(p@.subrange(0, p@.len() as int) =~= p@);
            assert(buf@ =~= encoded_buf(pv.take(i as int + 1)));
        }
        i = i + 1;
    }
    let total: usize = buf.len();
    proof {
        assert(pv.take(paths@.len() as int) =~= pv);
        assert(buf@.len() == total);
        lemma_encode_decode_round_trip(pv);
    }
    PathSet { buf, indices }
}

} // verus!
