//! Splitting a byte stream at content-defined boundaries.
//!
//! The stream is scanned once. A rolling gear hash is kept over the bytes
//! since the last cut, and a cut is made as soon as the window has reached the
//! minimum size and either the low bits of the hash are all zero or the window
//! has reached the maximum size. What is left after the last cut is the final
//! chunk, whatever its size.

use crate::backup::chunk_index::{by_digest, group, group_chunks, is_hex_digest, ChunkIndex};
use crate::backup::gear::{gear_hash, is_gear_table, make_gear_table, roll_byte};
use crate::config::{spec_boundary_mask, ChunkSettings};
use vstd::prelude::*;
use vstd::slice::*;

verus! {

/// A cut falls right after `window`, the bytes since the last cut: the window
/// has reached the minimum size, and either the low bits of its hash are all
/// zero or it has reached the maximum size.
pub open spec fn is_cut(policy: ChunkSettings, window: Seq<u8>) -> bool {
    &&& window.len() >= policy.min
    &&& (gear_hash(window) & spec_boundary_mask(policy.avg as nat) == 0 || window.len()
        >= policy.max)
}

/// The length of the shortest prefix of `data`, of `n` bytes or more, after
/// which a cut falls; the length of `data` where there is none.
pub open spec fn cut_from(policy: ChunkSettings, data: Seq<u8>, n: nat) -> nat
    decreases data.len() - n,
{
    if n >= data.len() {
        data.len()
    } else if is_cut(policy, data.take(n as int)) {
        n
    } else {
        cut_from(policy, data, n + 1)
    }
}

/// The length of the first chunk of `data`.
pub open spec fn first_cut(policy: ChunkSettings, data: Seq<u8>) -> nat {
    cut_from(policy, data, 1)
}

/// The chunks of `data`: its first chunk, then the chunks of what follows.
pub open spec fn split(policy: ChunkSettings, data: Seq<u8>) -> Seq<Seq<u8>>
    decreases data.len(),
    via split_decreases
{
    if data.len() == 0 {
        Seq::empty()
    } else {
        let n = first_cut(policy, data) as int;
        seq![data.take(n)] + split(policy, data.skip(n))
    }
}

#[via_fn]
proof fn split_decreases(policy: ChunkSettings, data: Seq<u8>) {
    if data.len() != 0 {
        lemma_cut_from_least(policy, data, 1);
    }
}

/// `head` is empty or its last chunk ends with a cut, so that a scan which
/// goes on after `head` starts a new chunk there.
pub open spec fn ends_at_cut(policy: ChunkSettings, head: Seq<u8>) -> bool {
    head.len() == 0 || is_cut(policy, split(policy, head).last())
}

/// The number of bytes in the first `k` chunks of `data`.
pub open spec fn prefix_len(policy: ChunkSettings, data: Seq<u8>, k: int) -> nat {
    split(policy, data).take(k).flatten().len()
}

/// The byte strings held by `chunks`, in order.
pub open spec fn bytes_of(chunks: Seq<Vec<u8>>) -> Seq<Seq<u8>> {
    Seq::new(chunks.len(), |i: int| chunks[i]@)
}

/// `cut_from(policy, data, n)` is the least length from `n` on after which a
/// cut falls, and the whole length where no cut falls before the end.
pub proof fn lemma_cut_from_least(policy: ChunkSettings, data: Seq<u8>, n: nat)
    requires
        n <= data.len(),
    ensures
        n <= cut_from(policy, data, n) <= data.len(),
        cut_from(policy, data, n) < data.len() ==> is_cut(
            policy,
            data.take(cut_from(policy, data, n) as int),
        ),
        forall|m: int|
            n <= m < cut_from(policy, data, n) ==> !is_cut(policy, #[trigger] data.take(m)),
    decreases data.len() - n,
{
    if n < data.len() && !is_cut(policy, data.take(n as int)) {
        lemma_cut_from_least(policy, data, n + 1);
    }
}

/// The first chunk of a stream that is not empty has at least one byte and,
/// under a valid policy, at most `policy.max`. It ends with a cut unless it
/// runs to the end of the stream, and no cut falls inside it.
pub proof fn lemma_first_cut(policy: ChunkSettings, data: Seq<u8>)
    requires
        data.len() > 0,
    ensures
        1 <= first_cut(policy, data) <= data.len(),
        policy.valid() ==> first_cut(policy, data) <= policy.max,
        first_cut(policy, data) < data.len() ==> is_cut(
            policy,
            data.take(first_cut(policy, data) as int),
        ),
        forall|m: int|
            1 <= m < first_cut(policy, data) ==> !is_cut(policy, #[trigger] data.take(m)),
{
    lemma_cut_from_least(policy, data, 1);
    if policy.valid() && first_cut(policy, data) > policy.max {
        assert(is_cut(policy, data.take(policy.max as int)));
    }
}

/// Where `a` is a prefix of `b`, a scan of `a` and a scan of `b` find the same
/// cut as long as it falls inside `a`; and where `a` itself ends with a cut,
/// or is all of `b`, the scans agree at the end of `a` too.
pub proof fn lemma_cut_from_prefix(policy: ChunkSettings, a: Seq<u8>, b: Seq<u8>, n: nat)
    requires
        a.len() <= b.len(),
        b.take(a.len() as int) == a,
        n <= a.len(),
    ensures
        cut_from(policy, b, n) < a.len() ==> cut_from(policy, a, n) == cut_from(policy, b, n),
        cut_from(policy, b, n) >= a.len() ==> cut_from(policy, a, n) == a.len(),
        cut_from(policy, a, n) < a.len() ==> cut_from(policy, b, n) == cut_from(policy, a, n),
        cut_from(policy, a, n) == a.len() && (is_cut(policy, a) || a.len() == b.len())
            ==> cut_from(policy, b, n) == a.len(),
    decreases a.len() - n,
{
    lemma_cut_from_least(policy, b, n);
    if n < a.len() {
        assert(a.take(n as int) =~= b.take(n as int));
        if !is_cut(policy, a.take(n as int)) {
            lemma_cut_from_prefix(policy, a, b, n + 1);
        }
    } else {
        assert(a.len() == b.len() ==> a =~= b);
    }
}

/// Concatenating the chunks of `data` in order gives `data` back.
pub proof fn lemma_split_flatten(policy: ChunkSettings, data: Seq<u8>)
    ensures
        split(policy, data).flatten() == data,
    decreases data.len(),
{
    if data.len() == 0 {
        assert(split(policy, data).flatten() =~= data);
    } else {
        lemma_first_cut(policy, data);
        let n = first_cut(policy, data) as int;
        let rest = split(policy, data.skip(n));
        lemma_split_flatten(policy, data.skip(n));
        assert(split(policy, data).first() == data.take(n));
        assert(split(policy, data).drop_first() =~= rest);
        assert(data.take(n) + data.skip(n) =~= data);
    }
}

/// A stream has no chunk exactly when it is empty.
pub proof fn lemma_split_empty(policy: ChunkSettings, data: Seq<u8>)
    ensures
        split(policy, data).len() == 0 <==> data.len() == 0,
{
}

/// Every chunk has at least one byte and, under a valid policy, at most
/// `policy.max`. Every chunk but the last ends with a cut, so has at least
/// `policy.min` bytes, and no cut falls inside any chunk.
pub proof fn lemma_split_chunk(policy: ChunkSettings, data: Seq<u8>, i: int)
    requires
        0 <= i < split(policy, data).len(),
    ensures
        1 <= split(policy, data)[i].len(),
        policy.valid() ==> split(policy, data)[i].len() <= policy.max,
        i + 1 < split(policy, data).len() ==> is_cut(policy, split(policy, data)[i]),
        i + 1 < split(policy, data).len() ==> split(policy, data)[i].len() >= policy.min,
        forall|m: int|
            1 <= m < split(policy, data)[i].len() ==> !is_cut(
                policy,
                #[trigger] split(policy, data)[i].take(m),
            ),
    decreases i,
{
    lemma_first_cut(policy, data);
    let n = first_cut(policy, data) as int;
    if i == 0 {
        assert forall|m: int| 1 <= m < n implies !is_cut(
            policy,
            #[trigger] data.take(n).take(m),
        ) by {
            assert(data.take(n).take(m) =~= data.take(m));
        }
    } else {
        lemma_split_chunk(policy, data.skip(n), i - 1);
    }
}

/// After a cut the scan starts afresh: where `head` ends with a cut, the
/// chunks of `head + tail` are those of `head` followed by those of `tail`.
pub proof fn lemma_split_append(policy: ChunkSettings, head: Seq<u8>, tail: Seq<u8>)
    requires
        ends_at_cut(policy, head),
    ensures
        split(policy, head + tail) == split(policy, head) + split(policy, tail),
    decreases head.len(),
{
    let whole = head + tail;
    if head.len() == 0 {
        assert(whole =~= tail);
        assert(split(policy, head) + split(policy, tail) =~= split(policy, tail));
    } else {
        lemma_first_cut(policy, head);
        let n = first_cut(policy, head) as int;
        let after = head.skip(n);
        assert(whole.take(head.len() as int) =~= head);
        if n == head.len() {
            assert(head.take(n) =~= head);
            assert(split(policy, after) =~= Seq::<Seq<u8>>::empty());
            assert(split(policy, head) =~= seq![head]);
        }
        lemma_cut_from_prefix(policy, head, whole, 1);
        assert(first_cut(policy, whole) == n);
        assert(whole.take(n) =~= head.take(n));
        assert(whole.skip(n) =~= after + tail);
        if after.len() > 0 {
            assert(split(policy, head).last() == split(policy, after).last());
        }
        lemma_split_append(policy, after, tail);
        assert(split(policy, whole) =~= split(policy, head) + split(policy, tail));
    }
}

/// The first `k` chunks of `data`, where more chunks follow them, are the
/// chunks of the bytes they hold, and end with a cut; the chunks after them
/// are the chunks of the bytes that follow.
pub proof fn lemma_split_prefix(policy: ChunkSettings, data: Seq<u8>, k: int)
    requires
        0 <= k < split(policy, data).len(),
    ensures
        prefix_len(policy, data, k) <= data.len(),
        split(policy, data.take(prefix_len(policy, data, k) as int)) == split(policy, data).take(
            k,
        ),
        ends_at_cut(policy, data.take(prefix_len(policy, data, k) as int)),
        split(policy, data.skip(prefix_len(policy, data, k) as int)) == split(policy, data).skip(
            k,
        ),
    decreases k,
{
    let chunks = split(policy, data);
    if k == 0 {
        assert(chunks.take(0) =~= Seq::<Seq<u8>>::empty());
        assert(data.take(0) =~= Seq::<u8>::empty());
        assert(data.skip(0) =~= data);
        assert(chunks.skip(0) =~= chunks);
    } else {
        lemma_first_cut(policy, data);
        let n = first_cut(policy, data) as int;
        let first = data.take(n);
        let after = data.skip(n);
        let rest = split(policy, after);
        lemma_split_prefix(policy, after, k - 1);
        let q = prefix_len(policy, after, k - 1) as int;
        assert(chunks.take(k).first() == first);
        assert(chunks.take(k).drop_first() =~= rest.take(k - 1));
        let p = prefix_len(policy, data, k) as int;
        assert(p == n + q);
        assert(data.take(p) =~= first + after.take(q));
        assert(data.skip(p) =~= after.skip(q));
        assert(chunks.skip(k) =~= rest.skip(k - 1));

        assert(data.take(first.len() as int) == first);
        lemma_cut_from_prefix(policy, first, data, 1);
        assert(first.take(n) =~= first);
        assert(split(policy, first.skip(n)) =~= Seq::<Seq<u8>>::empty());
        assert(split(policy, first) =~= seq![first]);
        lemma_split_append(policy, first, after.take(q));
        assert(split(policy, data.take(p)) =~= chunks.take(k));
        if after.take(q).len() > 0 {
            assert(split(policy, data.take(p)).last() == split(policy, after.take(q)).last());
        }
    }
}

/// Chunks before an edit stay as they are: where `b` holds the same bytes as
/// `a` up to the end of the first `k` chunks of `a`, and `a` has a chunk after
/// them, these are the first `k` chunks of `b` too, and the chunks of `b` after
/// them are the chunks of the bytes that follow in `b`.
pub proof fn lemma_chunks_before_edit(policy: ChunkSettings, a: Seq<u8>, b: Seq<u8>, k: int)
    requires
        0 <= k < split(policy, a).len(),
        prefix_len(policy, a, k) <= b.len(),
        b.take(prefix_len(policy, a, k) as int) == a.take(prefix_len(policy, a, k) as int),
    ensures
        k <= split(policy, b).len(),
        split(policy, b).take(k) == split(policy, a).take(k),
        split(policy, b).skip(k) == split(policy, b.skip(prefix_len(policy, a, k) as int)),
{
    let p = prefix_len(policy, a, k) as int;
    lemma_split_prefix(policy, a, k);
    lemma_split_append(policy, a.take(p), b.skip(p));
    assert(b =~= a.take(p) + b.skip(p));
    assert(split(policy, b).take(k) =~= split(policy, a).take(k));
    assert(split(policy, b).skip(k) =~= split(policy, b.skip(p)));
}

/// Chunks after an edit are the same again from the first cut that both
/// scans make before a common tail: where `head_a` and `head_b` both end with a
/// cut, the chunks of `head_a + tail` and of `head_b + tail` both end with the
/// chunks of `tail`.
pub proof fn lemma_chunks_after_resync(
    policy: ChunkSettings,
    head_a: Seq<u8>,
    head_b: Seq<u8>,
    tail: Seq<u8>,
)
    requires
        ends_at_cut(policy, head_a),
        ends_at_cut(policy, head_b),
    ensures
        split(policy, head_a + tail) == split(policy, head_a) + split(policy, tail),
        split(policy, head_b + tail) == split(policy, head_b) + split(policy, tail),
{
    lemma_split_append(policy, head_a, tail);
    lemma_split_append(policy, head_b, tail);
}

/// The chunks are in order, hold all of `data` between them, and keep to
/// the sizes of `policy`: none is empty or longer than `policy.max`, and none
/// but the last is shorter than `policy.min`.
pub open spec fn covers(policy: ChunkSettings, data: Seq<u8>, chunks: Seq<Seq<u8>>) -> bool {
    &&& chunks.flatten() == data
    &&& forall|i: int| 0 <= i < chunks.len() ==> 1 <= (#[trigger] chunks[i]).len() <= policy.max
    &&& forall|i: int| 0 <= i < chunks.len() - 1 ==> policy.min <= (#[trigger] chunks[i]).len()
}

/// Under a valid policy the chunks of `data` hold all of `data` and keep to
/// the sizes of the policy.
pub proof fn lemma_split_covers(policy: ChunkSettings, data: Seq<u8>)
    requires
        policy.valid(),
    ensures
        covers(policy, data, split(policy, data)),
{
    lemma_split_flatten(policy, data);
    let chunks = split(policy, data);
    assert forall|i: int| 0 <= i < chunks.len() implies 1 <= (#[trigger] chunks[i]).len()
        <= policy.max && (i < chunks.len() - 1 ==> policy.min <= chunks[i].len()) by {
        lemma_split_chunk(policy, data, i);
    }
}

/// Cuts `data` into chunks under `policy`.
pub fn split_chunks(data: &[u8], policy: &ChunkSettings) -> (chunks: Vec<Vec<u8>>)
    requires
        policy.valid(),
    ensures
        bytes_of(chunks@) == split(*policy, data@),
        covers(*policy, data@, bytes_of(chunks@)),
{
    proof {
        lemma_split_covers(*policy, data@);
    }
    let mask = policy.boundary_mask();
    let table = make_gear_table();
    let mut chunks: Vec<Vec<u8>> = Vec::new();
    let mut chunk_start: usize = 0;
    let mut rolling_hash: u32 = 0;
    let mut i: usize = 0;
    assert(data@.skip(0) =~= data@);
    assert(bytes_of(chunks@) + split(*policy, data@) =~= split(*policy, data@));
    while i < data.len()
        invariant
            policy.valid(),
            is_gear_table(table@),
            mask == spec_boundary_mask(policy.avg as nat),
            chunk_start <= i <= data.len(),
            rolling_hash == gear_hash(data@.subrange(chunk_start as int, i as int)),
            first_cut(*policy, data@.skip(chunk_start as int)) == cut_from(
                *policy,
                data@.skip(chunk_start as int),
                (i - chunk_start + 1) as nat,
            ),
            bytes_of(chunks@) + split(*policy, data@.skip(chunk_start as int)) == split(
                *policy,
                data@,
            ),
        decreases data.len() - i,
    {
        let ghost rest = data@.skip(chunk_start as int);
        let ghost window = data@.subrange(chunk_start as int, i + 1);
        rolling_hash = roll_byte(&table, rolling_hash, data[i]);
        let current_len = i + 1 - chunk_start;
        proof {
            assert(window.drop_last() =~= data@.subrange(chunk_start as int, i as int));
            assert(rest.take(current_len as int) =~= window);
        }
        if current_len >= policy.min && ((rolling_hash & mask) == 0 || current_len >= policy.max) {
            let chunk = slice_to_vec(slice_subrange(data, chunk_start, i + 1));
            let ghost before = bytes_of(chunks@);
            chunks.push(chunk);
            proof {
                assert(first_cut(*policy, rest) == current_len);
                assert(rest.skip(current_len as int) =~= data@.skip(i + 1));
                assert(bytes_of(chunks@) =~= before.push(window));
                assert(bytes_of(chunks@) + split(*policy, data@.skip(i + 1)) =~= before + split(
                    *policy,
                    rest,
                ));
                assert(data@.subrange(i + 1, i + 1) =~= Seq::<u8>::empty());
            }
            chunk_start = i + 1;
            rolling_hash = 0;
        }
        i += 1;
    }
    if chunk_start < data.len() {
        let chunk = slice_to_vec(slice_subrange(data, chunk_start, data.len()));
        let ghost before = bytes_of(chunks@);
        let ghost rest = data@.skip(chunk_start as int);
        chunks.push(chunk);
        proof {
            assert(rest =~= data@.subrange(chunk_start as int, data@.len() as int));
            assert(rest.take(rest.len() as int) =~= rest);
            assert(split(*policy, rest.skip(rest.len() as int)) =~= Seq::<Seq<u8>>::empty());
            assert(split(*policy, rest) =~= seq![rest]);
            assert(bytes_of(chunks@) =~= before.push(rest));
            assert(bytes_of(chunks@) =~= before + split(*policy, rest));
        }
    } else {
        assert(bytes_of(chunks@) + split(*policy, data@.skip(chunk_start as int)) =~= bytes_of(
            chunks@,
        ));
    }
    chunks
}

/// The policy made of the three sizes.
pub open spec fn policy_of(min: usize, avg: usize, max: usize) -> ChunkSettings {
    ChunkSettings { min, avg, max }
}

/// Cuts `data` into chunks and groups the chunks by id.
///
/// Returns the chunks in the order of `data`, and the index that holds each
/// of them in the bucket of its id.
pub fn chunk_bytes_cdc(
    data: &[u8],
    min_chunk_size: usize,
    target_avg_chunk_size: usize,
    max_chunk_size: usize,
) -> (result: (Vec<Vec<u8>>, ChunkIndex))
    requires
        0 < min_chunk_size <= target_avg_chunk_size <= max_chunk_size,
    ensures
        bytes_of(result.0@) == split(
            policy_of(min_chunk_size, target_avg_chunk_size, max_chunk_size),
            data@,
        ),
        covers(
            policy_of(min_chunk_size, target_avg_chunk_size, max_chunk_size),
            data@,
            bytes_of(result.0@),
        ),
        result.1.wf(),
        result.1.entries() == by_digest(bytes_of(result.0@)),
        result.1@ == group(by_digest(bytes_of(result.0@))),
        forall|id: Seq<char>| result.1@.contains_key(id) ==> is_hex_digest(id),
{
    let policy = ChunkSettings {
        min: min_chunk_size,
        avg: target_avg_chunk_size,
        max: max_chunk_size,
    };
    let chunks = split_chunks(data, &policy);
    let index = group_chunks(&chunks);
    (chunks, index)
}

/// Chunking and grouping are functions of the bytes and the policy: any two
/// results for the same bytes under the same policy hold the same chunks, the
/// same buckets and the same order of buckets.
pub proof fn lemma_results_agree(
    policy: ChunkSettings,
    data: Seq<u8>,
    chunks_a: Seq<Seq<u8>>,
    index_a: ChunkIndex,
    chunks_b: Seq<Seq<u8>>,
    index_b: ChunkIndex,
)
    requires
        chunks_a == split(policy, data),
        index_a.entries() == by_digest(chunks_a),
        chunks_b == split(policy, data),
        index_b.entries() == by_digest(chunks_b),
    ensures
        chunks_a == chunks_b,
        index_a@ == index_b@,
        index_a.order() == index_b.order(),
{
}

} // verus!
