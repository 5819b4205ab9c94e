//! Grouping chunks by content digest, to show which of them repeat.
//!
//! An index is filled with entries, each a chunk filed under an id. It keeps
//! the chunks of one id together in a bucket, in the order in which they came,
//! and the buckets in the order in which their ids first came. Filing a chunk
//! under its digest makes chunks with the same bytes meet in one bucket.

use crate::backup::cdc_chunker::bytes_of;
use vstd::hash_map::StringHashMap;
use vstd::prelude::*;
use vstd::seq_lib::seq_to_set_is_finite;
use vstd::slice::slice_to_vec;

verus! {

/// The id of a chunk that holds `bytes`: its BLAKE3 digest of 32 bytes,
/// written as 64 lowercase hexadecimal digits.
pub uninterp spec fn chunk_id(bytes: Seq<u8>) -> Seq<char>;

/// `c` is one of `0`..`9`, `a`..`f`.
pub open spec fn is_hex_digit(c: char) -> bool {
    ('0' <= c && c <= '9') || ('a' <= c && c <= 'f')
}

/// `id` has the form of a digest: 64 lowercase hexadecimal digits.
pub open spec fn is_hex_digest(id: Seq<char>) -> bool {
    &&& id.len() == 64
    &&& forall|i: int| 0 <= i < id.len() ==> is_hex_digit(#[trigger] id[i])
}

/// Computes the id of a chunk.
///
/// Calls `blake3::hash` on the bytes and `Hash::to_hex` on the digest. The
/// digest depends on the bytes alone, and `to_hex` writes each of its 32
/// bytes as two digits out of `0123456789abcdef`; neither is proved here.
#[verifier::external_body]
pub(crate) fn chunk_id_hash(chunk: &[u8]) -> (id: String)
    ensures
        id@ == chunk_id(chunk@),
        is_hex_digest(id@),
{
    blake3::hash(chunk).to_hex().to_string()
}

/// The test that an entry is filed under `id`.
pub open spec fn filed_under(id: Seq<char>) -> spec_fn((Seq<char>, Seq<u8>)) -> bool {
    |entry: (Seq<char>, Seq<u8>)| entry.0 == id
}

/// The chunk of an entry.
pub open spec fn chunk_of() -> spec_fn((Seq<char>, Seq<u8>)) -> Seq<u8> {
    |entry: (Seq<char>, Seq<u8>)| entry.1
}

/// The chunks that `entries` file under `id`, in the order of `entries`.
pub open spec fn bucket(entries: Seq<(Seq<char>, Seq<u8>)>, id: Seq<char>) -> Seq<Seq<u8>> {
    entries.filter(filed_under(id)).map_values(chunk_of())
}

/// Some entry is filed under `id`.
pub open spec fn has_id(entries: Seq<(Seq<char>, Seq<u8>)>, id: Seq<char>) -> bool {
    exists|i: int| 0 <= i < entries.len() && (#[trigger] entries[i]).0 == id
}

/// The grouping of `entries`: each id that occurs among them, with the chunks
/// filed under it.
pub open spec fn group(entries: Seq<(Seq<char>, Seq<u8>)>) -> Map<Seq<char>, Seq<Seq<u8>>> {
    Map::new(|id: Seq<char>| has_id(entries, id), |id: Seq<char>| bucket(entries, id))
}

/// The ids that occur among `entries`, each once, in the order in which they
/// first occur.
pub open spec fn first_seen(entries: Seq<(Seq<char>, Seq<u8>)>) -> Seq<Seq<char>>
    decreases entries.len(),
{
    if entries.len() == 0 {
        Seq::empty()
    } else {
        let before = first_seen(entries.drop_last());
        let id = entries.last().0;
        if before.contains(id) {
            before
        } else {
            before.push(id)
        }
    }
}

/// Each of `chunks` filed under its own id.
pub open spec fn by_digest(chunks: Seq<Seq<u8>>) -> Seq<(Seq<char>, Seq<u8>)> {
    Seq::new(chunks.len(), |i: int| (chunk_id(chunks[i]), chunks[i]))
}

/// No two chunks among `chunks` that differ have the same id.
pub open spec fn collision_free(chunks: Seq<Seq<u8>>) -> bool {
    forall|i: int, j: int|
        0 <= i < chunks.len() && 0 <= j < chunks.len() && chunk_id(#[trigger] chunks[i])
            == chunk_id(#[trigger] chunks[j]) ==> chunks[i] == chunks[j]
}

/// The chunks at `i` and at `j` lie in one bucket when each is filed under
/// its own id.
pub open spec fn same_bucket(chunks: Seq<Seq<u8>>, i: int, j: int) -> bool {
    exists|id: Seq<char>|
        group(by_digest(chunks)).contains_key(id) && (#[trigger] group(
            by_digest(chunks),
        )[id]).contains(chunks[i]) && group(by_digest(chunks))[id].contains(chunks[j])
}

/// Adding an entry adds its chunk to the end of the bucket of its id and
/// changes no other bucket.
pub proof fn lemma_bucket_push(
    entries: Seq<(Seq<char>, Seq<u8>)>,
    entry: (Seq<char>, Seq<u8>),
    id: Seq<char>,
)
    ensures
        bucket(entries.push(entry), id) == if entry.0 == id {
            bucket(entries, id).push(entry.1)
        } else {
            bucket(entries, id)
        },
{
    entries.lemma_filter_push(entry, filed_under(id));
    entries.filter(filed_under(id)).lemma_push_map_commute(chunk_of(), entry);
}

/// A chunk lies in the bucket of `id` exactly when some entry files it under
/// `id`, and a bucket is empty exactly when no entry is filed under its id.
pub proof fn lemma_bucket_members(
    entries: Seq<(Seq<char>, Seq<u8>)>,
    id: Seq<char>,
    chunk: Seq<u8>,
)
    ensures
        bucket(entries, id).contains(chunk) <==> entries.contains((id, chunk)),
        bucket(entries, id).len() > 0 <==> has_id(entries, id),
    decreases entries.len(),
{
    if entries.len() > 0 {
        let front = entries.drop_last();
        let last = entries.last();
        assert(front.push(last) =~= entries);
        lemma_bucket_members(front, id, chunk);
        lemma_bucket_push(front, last, id);
        if bucket(entries, id).contains(chunk) && !bucket(front, id).contains(chunk) {
            let k = choose|k: int|
                0 <= k < bucket(entries, id).len() && bucket(entries, id)[k] == chunk;
            assert(k == bucket(front, id).len());
            assert(entries[entries.len() - 1] == (id, chunk));
        }
        if front.contains((id, chunk)) {
            let k = choose|k: int| 0 <= k < bucket(front, id).len() && bucket(front, id)[k] == chunk;
            assert(bucket(entries, id)[k] == chunk);
            let i = choose|i: int| 0 <= i < front.len() && front[i] == (id, chunk);
            assert(entries[i] == (id, chunk));
        }
        if last == (id, chunk) {
            assert(bucket(entries, id)[bucket(front, id).len() as int] == chunk);
        }
        if entries.contains((id, chunk)) && last != (id, chunk) {
            let i = choose|i: int| 0 <= i < entries.len() && entries[i] == (id, chunk);
            assert(front[i] == (id, chunk));
        }
        if has_id(front, id) {
            let i = choose|i: int| 0 <= i < front.len() && (#[trigger] front[i]).0 == id;
            assert(entries[i].0 == id);
        }
        if has_id(entries, id) && last.0 != id {
            let i = choose|i: int| 0 <= i < entries.len() && (#[trigger] entries[i]).0 == id;
            assert(front[i].0 == id);
        }
        if last.0 == id {
            assert(entries[entries.len() - 1].0 == id);
        }
    } else {
        reveal(Seq::filter);
    }
}

/// Adding an entry adds its chunk to the end of the bucket of its id, which
/// is a new bucket where that id has not occurred, and changes no other bucket.
pub proof fn lemma_group_push(entries: Seq<(Seq<char>, Seq<u8>)>, entry: (Seq<char>, Seq<u8>))
    ensures
        group(entries.push(entry)) == group(entries).insert(
            entry.0,
            if group(entries).contains_key(entry.0) {
                group(entries)[entry.0].push(entry.1)
            } else {
                seq![entry.1]
            },
        ),
{
    let id = entry.0;
    let more = entries.push(entry);
    assert forall|k: Seq<char>| has_id(more, k) <==> has_id(entries, k) || k == id by {
        if has_id(more, k) {
            let i = choose|i: int| 0 <= i < more.len() && (#[trigger] more[i]).0 == k;
            if i < entries.len() {
                assert(entries[i].0 == k);
            }
        }
        if has_id(entries, k) {
            let i = choose|i: int| 0 <= i < entries.len() && (#[trigger] entries[i]).0 == k;
            assert(more[i].0 == k);
        }
        if k == id {
            assert(more[entries.len() as int].0 == k);
        }
    }
    assert forall|k: Seq<char>| #[trigger]
        bucket(more, k) == if k == id {
            bucket(entries, k).push(entry.1)
        } else {
            bucket(entries, k)
        } by {
        lemma_bucket_push(entries, entry, k);
    }
    lemma_bucket_members(entries, id, entry.1);
    if !has_id(entries, id) {
        assert(bucket(entries, id).push(entry.1) =~= seq![entry.1]);
    }
    assert(group(more) =~= group(entries).insert(
        id,
        if group(entries).contains_key(id) {
            group(entries)[id].push(entry.1)
        } else {
            seq![entry.1]
        },
    ));
}

/// `first_seen` lists each id that occurs, and lists none twice.
pub proof fn lemma_first_seen(entries: Seq<(Seq<char>, Seq<u8>)>)
    ensures
        first_seen(entries).no_duplicates(),
        forall|id: Seq<char>| first_seen(entries).contains(id) <==> has_id(entries, id),
    decreases entries.len(),
{
    if entries.len() > 0 {
        let front = entries.drop_last();
        let last = entries.last();
        let before = first_seen(front);
        lemma_first_seen(front);
        assert(front.push(last) =~= entries);
        lemma_group_push(front, last);
        assert forall|id: Seq<char>| first_seen(entries).contains(id) <==> has_id(
            entries,
            id,
        ) by {
            assert(group(entries).contains_key(id) <==> group(front).contains_key(id) || id
                == last.0);
            if before.contains(id) {
                let i = choose|i: int| 0 <= i < before.len() && before[i] == id;
                assert(first_seen(entries)[i] == id);
            }
            if !before.contains(last.0) {
                assert(first_seen(entries)[before.len() as int] == last.0);
            }
        }
    }
}

/// Adding an entry adds its id to the end of `first_seen` where the id has
/// not occurred, and changes nothing there where it has.
pub proof fn lemma_first_seen_push(
    entries: Seq<(Seq<char>, Seq<u8>)>,
    entry: (Seq<char>, Seq<u8>),
)
    ensures
        first_seen(entries.push(entry)) == if group(entries).contains_key(entry.0) {
            first_seen(entries)
        } else {
            first_seen(entries).push(entry.0)
        },
{
    lemma_first_seen(entries);
    assert(entries.push(entry).drop_last() =~= entries);
}

/// The keys of the grouping are the ids of `first_seen`: there are as many
/// buckets as there are different ids.
pub proof fn lemma_group_keys(entries: Seq<(Seq<char>, Seq<u8>)>)
    ensures
        group(entries).dom() == first_seen(entries).to_set(),
        group(entries).dom().finite(),
        group(entries).dom().len() == first_seen(entries).len(),
{
    lemma_first_seen(entries);
    assert(group(entries).dom() =~= first_seen(entries).to_set());
    seq_to_set_is_finite(first_seen(entries));
    first_seen(entries).unique_seq_to_set();
}

/// Filed under its own id, a chunk lies in the bucket of that id and in no
/// other: chunks that hold the same bytes lie in one bucket, and two chunks
/// lie in one bucket exactly when they have the same id.
pub proof fn lemma_same_bucket(chunks: Seq<Seq<u8>>, i: int, j: int)
    requires
        0 <= i < chunks.len(),
        0 <= j < chunks.len(),
    ensures
        same_bucket(chunks, i, j) <==> chunk_id(chunks[i]) == chunk_id(chunks[j]),
        chunks[i] == chunks[j] ==> same_bucket(chunks, i, j),
{
    let entries = by_digest(chunks);
    let id = chunk_id(chunks[i]);
    lemma_bucket_members(entries, id, chunks[i]);
    lemma_bucket_members(entries, id, chunks[j]);
    assert(entries[i] == (id, chunks[i]));
    if chunk_id(chunks[j]) == id {
        assert(entries[j] == (id, chunks[j]));
        assert(group(entries).contains_key(id) && group(entries)[id].contains(chunks[i])
            && group(entries)[id].contains(chunks[j]));
    }
    if same_bucket(chunks, i, j) {
        let k = choose|k: Seq<char>|
            group(entries).contains_key(k) && (#[trigger] group(entries)[k]).contains(chunks[i])
                && group(entries)[k].contains(chunks[j]);
        lemma_bucket_members(entries, k, chunks[i]);
        lemma_bucket_members(entries, k, chunks[j]);
        let a = choose|a: int| 0 <= a < entries.len() && entries[a] == (k, chunks[i]);
        let b = choose|b: int| 0 <= b < entries.len() && entries[b] == (k, chunks[j]);
        assert(k == chunk_id(chunks[a]) && chunks[a] == chunks[i]);
        assert(k == chunk_id(chunks[b]) && chunks[b] == chunks[j]);
    }
}

/// Where no two different chunks share an id, two chunks lie in one bucket
/// exactly when they hold the same bytes.
pub proof fn lemma_dedup(chunks: Seq<Seq<u8>>, i: int, j: int)
    requires
        0 <= i < chunks.len(),
        0 <= j < chunks.len(),
        collision_free(chunks),
    ensures
        chunks[i] == chunks[j] <==> same_bucket(chunks, i, j),
{
    lemma_same_bucket(chunks, i, j);
}

/// An index of chunks by id. It keeps every entry it is given, the chunks of
/// one id together in the order in which they came, and the ids in the order
/// in which they first came.
pub struct ChunkIndex {
    ids: Vec<String>,
    buckets: Vec<Vec<Vec<u8>>>,
    slots: StringHashMap<usize>,
    seen: Ghost<Seq<(Seq<char>, Seq<u8>)>>,
}

impl View for ChunkIndex {
    type V = Map<Seq<char>, Seq<Seq<u8>>>;

    /// The grouping of the entries inserted so far.
    open spec fn view(&self) -> Map<Seq<char>, Seq<Seq<u8>>> {
        group(self.entries())
    }
}

impl ChunkIndex {
    /// The entries inserted so far, each an id and a chunk, in the order of
    /// insertion.
    pub closed spec fn entries(&self) -> Seq<(Seq<char>, Seq<u8>)> {
        self.seen@
    }

    /// The ids of the buckets, in the order of the buckets.
    pub open spec fn order(&self) -> Seq<Seq<char>> {
        first_seen(self.entries())
    }

    /// The stored buckets are the grouping of `entries()`, in the order of
    /// `order()`, and the lookup table finds each bucket by its id.
    pub closed spec fn wf(&self) -> bool {
        &&& self.ids.len() == self.buckets.len()
        &&& self.ids.len() == self.order().len()
        &&& forall|i: int|
            0 <= i < self.ids.len() ==> {
                &&& (#[trigger] self.ids[i])@ == self.order()[i]
                &&& self.slots@.contains_key(self.ids[i]@)
                &&& self.slots@[self.ids[i]@] == i
            }
        &&& forall|i: int|
            0 <= i < self.ids.len() ==> bytes_of((#[trigger] self.buckets[i])@) == bucket(
                self.entries(),
                self.order()[i],
            )
        &&& forall|id: Seq<char>| #[trigger]
            self.slots@.contains_key(id) <==> has_id(self.entries(), id)
    }

    /// An index that holds no entry.
    pub fn new() -> (index: ChunkIndex)
        ensures
            index.wf(),
            index.entries() == Seq::<(Seq<char>, Seq<u8>)>::empty(),
            index@ == Map::<Seq<char>, Seq<Seq<u8>>>::empty(),
            index.order() == Seq::<Seq<char>>::empty(),
    {
        assert(group(Seq::<(Seq<char>, Seq<u8>)>::empty()) =~= Map::<
            Seq<char>,
            Seq<Seq<u8>>,
        >::empty());
        ChunkIndex {
            ids: Vec::new(),
            buckets: Vec::new(),
            slots: StringHashMap::new(),
            seen: Ghost(Seq::empty()),
        }
    }

    /// Files `chunk` under `id`: at the end of the bucket of `id`, which is
    /// a new last bucket where `id` has none yet.
    pub fn insert_with_id(&mut self, id: String, chunk: Vec<u8>)
        requires
            old(self).wf(),
        ensures
            final(self).wf(),
            final(self).entries() == old(self).entries().push((id@, chunk@)),
            final(self)@ == old(self)@.insert(
                id@,
                if old(self)@.contains_key(id@) {
                    old(self)@[id@].push(chunk@)
                } else {
                    seq![chunk@]
                },
            ),
            final(self).order() == if old(self)@.contains_key(id@) {
                old(self).order()
            } else {
                old(self).order().push(id@)
            },
    {
        let ghost before = self.seen@;
        let ghost entry = (id@, chunk@);
        let ghost after = before.push(entry);
        proof {
            lemma_first_seen(before);
            lemma_group_push(before, entry);
            lemma_first_seen_push(before, entry);
            lemma_bucket_members(before, id@, chunk@);
            assert forall|k: Seq<char>| #[trigger]
                bucket(after, k) == if k == id@ {
                    bucket(before, k).push(chunk@)
                } else {
                    bucket(before, k)
                } by {
                lemma_bucket_push(before, entry, k);
            }
            assert forall|k: Seq<char>| has_id(after, k) <==> has_id(before, k) || k == id@ by {
                assert(group(after).contains_key(k) <==> group(before).contains_key(k) || k
                    == id@);
            }
        }
        let found = match self.slots.get(id.as_str()) {
            Some(slot) => Some(*slot),
            None => None,
        };
        match found {
            Some(slot) => {
                proof {
                    let i = choose|i: int|
                        0 <= i < first_seen(before).len() && first_seen(before)[i] == id@;
                    assert(self.ids[i]@ == id@);
                }
                let ghost old_bucket = self.buckets[slot as int]@;
                self.buckets[slot].push(chunk);
                self.seen = Ghost(after);
                proof {
                    assert(bytes_of(self.buckets[slot as int]@) =~= bytes_of(old_bucket).push(
                        entry.1,
                    ));
                }
            },
            None => {
                let slot = self.ids.len();
                let mut bucket: Vec<Vec<u8>> = Vec::new();
                bucket.push(chunk);
                self.slots.insert(id.clone(), slot);
                self.ids.push(id);
                self.buckets.push(bucket);
                self.seen = Ghost(after);
                proof {
                    assert(bytes_of(bucket@) =~= Seq::<Seq<u8>>::empty().push(entry.1));
                    assert(Seq::<Seq<u8>>::empty() =~= crate::backup::chunk_index::bucket(
                        before,
                        entry.0,
                    ));
                }
            },
        }
    }

    /// Files `chunk` under its digest.
    pub fn insert(&mut self, chunk: Vec<u8>)
        requires
            old(self).wf(),
        ensures
            final(self).wf(),
            final(self).entries() == old(self).entries().push((chunk_id(chunk@), chunk@)),
            is_hex_digest(chunk_id(chunk@)),
    {
        let id = chunk_id_hash(chunk.as_slice());
        self.insert_with_id(id, chunk);
    }

    /// The number of buckets, that is of different ids.
    pub fn len(&self) -> (n: usize)
        requires
            self.wf(),
        ensures
            n == self.order().len(),
            n == self@.dom().len(),
    {
        proof {
            lemma_group_keys(self.entries());
        }
        self.ids.len()
    }

    /// The id of the bucket at position `i`.
    pub fn id_at(&self, i: usize) -> (id: &String)
        requires
            self.wf(),
            i < self.order().len(),
        ensures
            id@ == self.order()[i as int],
            self@.contains_key(id@),
    {
        proof {
            lemma_first_seen(self.entries());
            assert(self.order().contains(self.order()[i as int]));
        }
        &self.ids[i]
    }

    /// The chunks of the bucket at position `i`, in the order of insertion.
    pub fn bucket_at(&self, i: usize) -> (chunks: &Vec<Vec<u8>>)
        requires
            self.wf(),
            i < self.order().len(),
        ensures
            self@.contains_key(self.order()[i as int]),
            bytes_of(chunks@) == self@[self.order()[i as int]],
    {
        proof {
            lemma_first_seen(self.entries());
            assert(self.order().contains(self.order()[i as int]));
        }
        &self.buckets[i]
    }

    /// The chunks filed under `id`, in the order of insertion, if there are
    /// any.
    pub fn get(&self, id: &str) -> (found: Option<&Vec<Vec<u8>>>)
        requires
            self.wf(),
        ensures
            found.is_some() == self@.contains_key(id@),
            found.is_some() ==> bytes_of(found.unwrap()@) == self@[id@],
    {
        match self.slots.get(id) {
            Some(slot) => {
                proof {
                    lemma_first_seen(self.entries());
                    let i = choose|i: int|
                        0 <= i < self.order().len() && self.order()[i] == id@;
                    assert(self.ids[i]@ == id@);
                }
                Some(&self.buckets[*slot])
            },
            None => None,
        }
    }
}

/// Groups `chunks` by digest: files each of them, in order, under its own id.
pub fn group_chunks(chunks: &Vec<Vec<u8>>) -> (index: ChunkIndex)
    ensures
        index.wf(),
        index.entries() == by_digest(bytes_of(chunks@)),
        forall|id: Seq<char>| index@.contains_key(id) ==> is_hex_digest(id),
{
    let mut index = ChunkIndex::new();
    let mut i: usize = 0;
    while i < chunks.len()
        invariant
            i <= chunks.len(),
            index.wf(),
            index.entries() == by_digest(bytes_of(chunks@)).take(i as int),
            forall|j: int| 0 <= j < i ==> is_hex_digest(chunk_id(#[trigger] chunks@[j]@)),
        decreases chunks.len() - i,
    {
        let chunk = slice_to_vec(chunks[i].as_slice());
        index.insert(chunk);
        assert(by_digest(bytes_of(chunks@)).take(i + 1) =~= by_digest(bytes_of(chunks@)).take(
            i as int,
        ).push((chunk_id(chunks[i as int]@), chunks[i as int]@)));
        i += 1;
    }
    proof {
        let entries = by_digest(bytes_of(chunks@));
        assert(entries.take(i as int) =~= entries);
        assert forall|id: Seq<char>| index@.contains_key(id) implies is_hex_digest(id) by {
            let j = choose|j: int| 0 <= j < entries.len() && (#[trigger] entries[j]).0 == id;
            assert(id == chunk_id(chunks@[j]@));
        }
    }
    index
}

} // verus!
