//! The embedding store: every chunk of every document, each with at most one
//! stored vector, with cascade deletion, coverage queries and brute-force
//! similarity search.
use crate::chunker::{Chunk, ChunkModel, chunk_models};
use crate::vector_store::{
    SearchResult, is_ranked, is_top_k, ranks_before, score_key, score_keys, score_rank_key, top_k,
};
use vstd::prelude::*;
use vstd::slice::slice_to_vec;
use crate::text::str_eq;

verus! {

/// A chunk as held by the store, with the vector stored for it, if any.
pub struct StoredChunk {
    pub chunk: Chunk,
    pub vector: Option<Vec<u32>>,
}

/// The mathematical value of a [`StoredChunk`].
pub struct StoredModel {
    pub chunk: ChunkModel,
    pub vector: Option<Seq<u32>>,
}

impl View for StoredChunk {
    type V = StoredModel;

    open spec fn view(&self) -> StoredModel {
        StoredModel {
            chunk: self.chunk@,
            vector: match self.vector {
                Some(v) => Some(v@),
                None => None,
            },
        }
    }
}

/// All chunks of all documents, in the order they were saved, each with its
/// vector if one was stored.
pub struct RagStore {
    entries: Vec<StoredChunk>,
}

impl View for RagStore {
    type V = Seq<StoredModel>;

    closed spec fn view(&self) -> Seq<StoredModel> {
        self.entries@.map_values(|e: StoredChunk| e@)
    }
}

/// The entries of `m` whose chunk id is not `id`.
pub open spec fn without_chunk(m: Seq<StoredModel>, id: Seq<char>) -> Seq<StoredModel>
    decreases m.len(),
{
    if m.len() == 0 {
        m
    } else if m.last().chunk.id == id {
        without_chunk(m.drop_last(), id)
    } else {
        without_chunk(m.drop_last(), id).push(m.last())
    }
}

/// The entries of `m` that do not belong to document `doc`.
pub open spec fn without_document(m: Seq<StoredModel>, doc: Seq<char>) -> Seq<StoredModel>
    decreases m.len(),
{
    if m.len() == 0 {
        m
    } else if m.last().chunk.document_id == doc {
        without_document(m.drop_last(), doc)
    } else {
        without_document(m.drop_last(), doc).push(m.last())
    }
}

/// `m` with the vectors of document `doc`'s chunks removed.
pub open spec fn without_vectors_of(m: Seq<StoredModel>, doc: Seq<char>) -> Seq<StoredModel> {
    m.map_values(
        |e: StoredModel|
            if e.chunk.document_id == doc {
                StoredModel { chunk: e.chunk, vector: None }
            } else {
                e
            },
    )
}

/// `m` after saving chunk `c`: an earlier chunk with the same id is replaced,
/// together with its vector, and `c` comes last, without a vector.
pub open spec fn with_chunk(m: Seq<StoredModel>, c: ChunkModel) -> Seq<StoredModel> {
    without_chunk(m, c.id).push(StoredModel { chunk: c, vector: None })
}

/// `m` after saving each of `cs` in turn.
pub open spec fn with_chunks(m: Seq<StoredModel>, cs: Seq<ChunkModel>) -> Seq<StoredModel>
    decreases cs.len(),
{
    if cs.len() == 0 {
        m
    } else {
        with_chunk(with_chunks(m, cs.drop_last()), cs.last())
    }
}

/// Chunk ids are unique in `m`.
pub open spec fn unique_ids(m: Seq<StoredModel>) -> bool {
    forall|i: int, j: int|
        0 <= i < j < m.len() ==> (#[trigger] m[i]).chunk.id != (#[trigger] m[j]).chunk.id
}

/// Some entry of `m` has chunk id `id`.
pub open spec fn holds_chunk(m: Seq<StoredModel>, id: Seq<char>) -> bool {
    exists|i: int| 0 <= i < m.len() && (#[trigger] m[i]).chunk.id == id
}

/// The vector stored for chunk `id`, if any.
pub open spec fn vector_of(m: Seq<StoredModel>, id: Seq<char>) -> Option<Seq<u32>> {
    if holds_chunk(m, id) {
        m[choose|i: int| 0 <= i < m.len() && (#[trigger] m[i]).chunk.id == id].vector
    } else {
        None
    }
}

/// `m` after storing vector `v` for the chunk at position `p`.
pub open spec fn with_vector_at(m: Seq<StoredModel>, p: int, v: Seq<u32>) -> Seq<StoredModel> {
    m.update(p, StoredModel { chunk: m[p].chunk, vector: Some(v) })
}

proof fn lemma_without_chunk_shape(m: Seq<StoredModel>, id: Seq<char>)
    ensures
        without_chunk(m, id).len() <= m.len(),
        forall|i: int|
            0 <= i < without_chunk(m, id).len() ==> (#[trigger] without_chunk(m, id)[i]).chunk.id
                != id,
        forall|i: int|
            0 <= i < without_chunk(m, id).len() ==> exists|j: int|
                0 <= j < m.len() && m[j] == #[trigger] without_chunk(m, id)[i],
        forall|j: int|
            0 <= j < m.len() && (#[trigger] m[j]).chunk.id != id ==> exists|i: int|
                0 <= i < without_chunk(m, id).len() && without_chunk(m, id)[i] == m[j],
        unique_ids(m) ==> unique_ids(without_chunk(m, id)),
    decreases m.len(),
{
    if m.len() > 0 {
        let d = m.drop_last();
        lemma_without_chunk_shape(d, id);
        let w = without_chunk(m, id);
        let wd = without_chunk(d, id);
        assert forall|i: int| 0 <= i < w.len() implies exists|j: int|
            0 <= j < m.len() && m[j] == #[trigger] w[i] by {
            if i < wd.len() {
                let j = choose|j: int| 0 <= j < d.len() && d[j] == wd[i];
                assert(m[j] == w[i]);
            } else {
                assert(m[m.len() - 1] == w[i]);
            }
        }
        assert forall|j: int| 0 <= j < m.len() && (#[trigger] m[j]).chunk.id != id implies exists|
            i: int,
        | 0 <= i < w.len() && w[i] == m[j] by {
            if j < d.len() {
                assert(d[j] == m[j]);
                let i = choose|i: int| 0 <= i < wd.len() && wd[i] == d[j];
                assert(w[i] == m[j]);
            } else {
                assert(w[w.len() - 1] == m[j]);
            }
        }
        if unique_ids(m) {
            assert(unique_ids(d)) by {
                assert forall|i: int, j: int| 0 <= i < j < d.len() implies (#[trigger] d[i]).chunk.id
                    != (#[trigger] d[j]).chunk.id by {
                    assert(d[i] == m[i] && d[j] == m[j]);
                }
            }
            assert forall|i: int, j: int| 0 <= i < j < w.len() implies (#[trigger] w[i]).chunk.id
                != (#[trigger] w[j]).chunk.id by {
                if j == wd.len() && m.last().chunk.id != id {
                    let a = choose|a: int| 0 <= a < d.len() && d[a] == wd[i];
                    assert(m[a] == d[a]);
                    assert(m[a].chunk.id != m[m.len() - 1].chunk.id);
                } else {
                    assert(w[i] == wd[i] && w[j] == wd[j]);
                }
            }
        }
    }
}

impl RagStore {
    /// The store's invariant: chunk ids are unique.
    pub open spec fn wf(&self) -> bool {
        unique_ids(self@)
    }

    /// An empty store.
    pub fn new() -> (r: RagStore)
        ensures
            r.wf(),
            r@ == Seq::<StoredModel>::empty(),
    {
        let r = RagStore { entries: Vec::new() };
        assert(r@ =~= Seq::<StoredModel>::empty());
        r
    }

    /// Remove every entry whose chunk id is `id`.
    fn remove_chunk_id(&mut self, id: &String)
        ensures
            final(self)@ == without_chunk(old(self)@, id@),
    {
        let ghost m = self@;
        let ghost n = m.len() as int;
        let mut i: usize = 0;
        let ghost mut c: int = 0;
        assert(m.subrange(0, 0) =~= Seq::<StoredModel>::empty());
        assert(self@ =~= without_chunk(m.subrange(0, 0), id@) + m.subrange(0, n));
        while i < self.entries.len()
            invariant
                0 <= c <= n,
                n == m.len(),
                self@ == without_chunk(m.subrange(0, c), id@) + m.subrange(c, n),
                i == without_chunk(m.subrange(0, c), id@).len(),
            decreases n - c,
        {
            let ghost w = without_chunk(m.subrange(0, c), id@);
            assert(self@[i as int] == m[c]);
            assert(m.subrange(0, c + 1).drop_last() =~= m.subrange(0, c));
            let ghost before = self@;
            if self.entries[i].chunk.id == *id {
                self.entries.remove(i);
                assert(self@ =~= before.remove(i as int));
                assert(self@ =~= w + m.subrange(c + 1, n));
            } else {
                assert(without_chunk(m.subrange(0, c + 1), id@) == w.push(m[c]));
                assert(self@ =~= w.push(m[c]) + m.subrange(c + 1, n));
                i = i + 1;
            }
            proof {
                c = c + 1;
            }
        }
        assert(m.subrange(0, n) =~= m);
        assert(self@ =~= without_chunk(m, id@));
    }

    /// Save `chunk`, replacing an earlier chunk with the same id (its stored
    /// vector goes with it).
    #[verifier::rlimit(40)]
    pub fn save_chunk(&mut self, chunk: Chunk)
        requires
            old(self).wf(),
        ensures
            final(self).wf(),
            final(self)@ == with_chunk(old(self)@, chunk@),
    {
        self.remove_chunk_id(&chunk.id);
        proof {
            lemma_without_chunk_shape(old(self)@, chunk.id@);
        }
        let ghost before = self@;
        self.entries.push(StoredChunk { chunk, vector: None });
        assert(self@ =~= with_chunk(old(self)@, chunk@));
        assert(unique_ids(self@)) by {
            assert forall|i: int, j: int| 0 <= i < j < self@.len() implies (#[trigger] self@[i]).chunk.id
                != (#[trigger] self@[j]).chunk.id by {
                if j == before.len() {
                    assert(self@[i] == before[i]);
                } else {
                    assert(self@[i] == before[i] && self@[j] == before[j]);
                }
            }
        }
    }

    /// Save each of `chunks` in turn (insert or replace by id).
    pub fn save_chunks(&mut self, chunks: &[Chunk])
        requires
            old(self).wf(),
        ensures
            final(self).wf(),
            final(self)@ == with_chunks(old(self)@, chunk_models(chunks@)),
    {
        let mut i: usize = 0;
        while i < chunks.len()
            invariant
                i <= chunks@.len(),
                self.wf(),
                self@ == with_chunks(old(self)@, chunk_models(chunks@.subrange(0, i as int))),
            decreases chunks@.len() - i,
        {
            let c = copy_chunk(&chunks[i]);
            self.save_chunk(c);
            assert(chunk_models(chunks@.subrange(0, i + 1)).drop_last() =~= chunk_models(
                chunks@.subrange(0, i as int),
            ));
            i = i + 1;
        }
        assert(chunks@.subrange(0, chunks@.len() as int) =~= chunks@);
    }
}

impl RagStore {
    /// Position of the chunk with id `id`.
    fn position_of(&self, id: &str) -> (r: Option<usize>)
        requires
            self.wf(),
        ensures
            match r {
                Some(p) => p < self@.len() && self@[p as int].chunk.id == id@ && vector_of(self@, id@)
                    == self@[p as int].vector,
                None => !holds_chunk(self@, id@),
            },
    {
        let mut i: usize = 0;
        while i < self.entries.len()
            invariant
                i <= self@.len(),
                self.wf(),
                forall|j: int| 0 <= j < i ==> (#[trigger] self@[j]).chunk.id != id@,
            decreases self@.len() - i,
        {
            if str_eq(self.entries[i].chunk.id.as_str(), id) {
                assert(self@[i as int].chunk.id == id@);
                let ghost q = choose|q: int| 0 <= q < self@.len() && (#[trigger] self@[q]).chunk.id == id@;
                proof {
                if q < i as int {
                    assert(self@[q].chunk.id != id@);
                } else if q > i as int {
                    assert(self@[i as int].chunk.id != self@[q].chunk.id);
                }
                }
                return Some(i);
            }
            i = i + 1;
        }
        None
    }

    /// Remove every chunk of document `document_id`, with their vectors.
    pub fn delete_document_chunks(&mut self, document_id: &str)
        requires
            old(self).wf(),
        ensures
            final(self).wf(),
            final(self)@ == without_document(old(self)@, document_id@),
    {
        let ghost m = self@;
        let ghost n = m.len() as int;
        let ghost doc = document_id@;
        let mut i: usize = 0;
        let ghost mut c: int = 0;
        assert(m.subrange(0, 0) =~= Seq::<StoredModel>::empty());
        assert(self@ =~= without_document(m.subrange(0, 0), doc) + m.subrange(0, n));
        while i < self.entries.len()
            invariant
                0 <= c <= n,
                n == m.len(),
                doc == document_id@,
                self@ == without_document(m.subrange(0, c), doc) + m.subrange(c, n),
                i == without_document(m.subrange(0, c), doc).len(),
            decreases n - c,
        {
            let ghost w = without_document(m.subrange(0, c), doc);
            assert(self@[i as int] == m[c]);
            assert(m.subrange(0, c + 1).drop_last() =~= m.subrange(0, c));
            let ghost before = self@;
            if str_eq(self.entries[i].chunk.document_id.as_str(), document_id) {
                self.entries.remove(i);
                assert(self@ =~= before.remove(i as int));
                assert(self@ =~= w + m.subrange(c + 1, n));
            } else {
                assert(without_document(m.subrange(0, c + 1), doc) == w.push(m[c]));
                assert(self@ =~= w.push(m[c]) + m.subrange(c + 1, n));
                i = i + 1;
            }
            proof {
                c = c + 1;
            }
        }
        assert(m.subrange(0, n) =~= m);
        assert(self@ =~= without_document(m, doc));
        proof {
            lemma_without_document_shape(m, doc);
        }
    }

    /// Remove the vectors of document `document_id`'s chunks; the chunks stay.
    pub fn delete_document_embeddings(&mut self, document_id: &str)
        requires
            old(self).wf(),
        ensures
            final(self).wf(),
            final(self)@ == without_vectors_of(old(self)@, document_id@),
    {
        let ghost m = self@;
        let mut i: usize = 0;
        while i < self.entries.len()
            invariant
                i <= self@.len(),
                self@.len() == m.len(),
                forall|j: int|
                    0 <= j < i ==> #[trigger] self@[j] == without_vectors_of(m, document_id@)[j],
                forall|j: int| i <= j < m.len() ==> #[trigger] self@[j] == m[j],
            decreases self@.len() - i,
        {
            assert(self@[i as int] == m[i as int]);
            if str_eq(self.entries[i].chunk.document_id.as_str(), document_id) {
                let ghost before = self@;
                let mut e = self.entries.remove(i);
                e.vector = None;
                self.entries.insert(i, e);
                assert(self@ =~= before.update(i as int, e@));
            }
            assert(self@[i as int] == without_vectors_of(m, document_id@)[i as int]);
            i = i + 1;
        }
        assert(self@ =~= without_vectors_of(m, document_id@));
        assert(unique_ids(self@)) by {
            assert forall|a: int, b: int| 0 <= a < b < self@.len() implies (#[trigger] self@[a]).chunk.id
                != (#[trigger] self@[b]).chunk.id by {
                assert(self@[a].chunk == m[a].chunk && self@[b].chunk == m[b].chunk);
            }
        }
    }

    /// Store `vector` for chunk `chunk_id` of document `document_id`,
    /// replacing any vector stored for it before.
    pub fn save_embedding(&mut self, chunk_id: &str, document_id: &str, vector: Vec<u32>) -> (r:
        Result<(), IndexError>)
        requires
            old(self).wf(),
        ensures
            final(self).wf(),
            match r {
                Ok(()) => exists|p: int|
                    0 <= p < old(self)@.len() && (#[trigger] old(self)@[p]).chunk.id == chunk_id@
                        && old(self)@[p].chunk.document_id == document_id@ && final(self)@
                        == with_vector_at(old(self)@, p, vector@),
                Err(e) => e == IndexError::ChunkNotFound && final(self)@ == old(self)@ && !exists|
                    p: int,
                |
                    0 <= p < old(self)@.len() && (#[trigger] old(self)@[p]).chunk.id == chunk_id@
                        && old(self)@[p].chunk.document_id == document_id@,
            },
    {
        match self.position_of(chunk_id) {
            Some(p) => {
                if str_eq(self.entries[p].chunk.document_id.as_str(), document_id) {
                    self.set_vector(p, vector);
                    Ok(())
                } else {
                    proof {
                        assert forall|q: int|
                            0 <= q < self@.len() && (#[trigger] self@[q]).chunk.id == chunk_id@ implies self@[q].chunk.document_id
                            != document_id@ by {
                            assert(q == p as int);
                        }
                    }
                    Err(IndexError::ChunkNotFound)
                }
            },
            None => Err(IndexError::ChunkNotFound),
        }
    }

    pub(crate) fn set_vector(&mut self, p: usize, vector: Vec<u32>)
        requires
            old(self).wf(),
            p < old(self)@.len(),
        ensures
            final(self).wf(),
            final(self)@ == with_vector_at(old(self)@, p as int, vector@),
    {
        let ghost before = self@;
        let mut e = self.entries.remove(p);
        e.vector = Some(vector);
        self.entries.insert(p, e);
        assert(self@ =~= with_vector_at(before, p as int, vector@));
        assert(unique_ids(self@)) by {
            assert forall|a: int, b: int| 0 <= a < b < self@.len() implies (#[trigger] self@[a]).chunk.id
                != (#[trigger] self@[b]).chunk.id by {
                assert(self@[a].chunk == before[a].chunk && self@[b].chunk == before[b].chunk);
            }
        }
    }

    /// The vector stored for chunk `chunk_id`, if any.
    pub fn get_embedding(&self, chunk_id: &str) -> (r: Option<Vec<u32>>)
        requires
            self.wf(),
        ensures
            match r {
                Some(v) => vector_of(self@, chunk_id@) == Some(v@),
                None => vector_of(self@, chunk_id@) is None,
            },
    {
        match self.position_of(chunk_id) {
            Some(p) => match &self.entries[p].vector {
                Some(v) => Some(copy_vector(v.as_slice())),
                None => None,
            },
            None => None,
        }
    }

    /// Whether a vector is stored for chunk `chunk_id`.
    pub fn has_embedding(&self, chunk_id: &str) -> (r: bool)
        requires
            self.wf(),
        ensures
            r == vector_of(self@, chunk_id@) is Some,
    {
        match self.position_of(chunk_id) {
            Some(p) => self.entries[p].vector.is_some(),
            None => false,
        }
    }
}

/// Failures of the store and of indexing.
#[derive(Debug, Clone, Copy, PartialEq, Eq, Structural)]
pub enum IndexError {
    /// The embedding collaborator is not initialised.
    NotReady,
    /// No chunk with the given id belongs to the given document.
    ChunkNotFound,
    /// The number of vectors differs from the number of chunks to embed.
    BatchSizeMismatch,
    /// No vectors were handed over for a document that needs them.
    MissingBatch,
}

proof fn lemma_without_document_shape(m: Seq<StoredModel>, doc: Seq<char>)
    ensures
        without_document(m, doc).len() <= m.len(),
        forall|i: int|
            0 <= i < without_document(m, doc).len() ==> (#[trigger] without_document(
                m,
                doc,
            )[i]).chunk.document_id != doc,
        forall|i: int|
            0 <= i < without_document(m, doc).len() ==> exists|j: int|
                0 <= j < m.len() && m[j] == #[trigger] without_document(m, doc)[i],
        unique_ids(m) ==> unique_ids(without_document(m, doc)),
    decreases m.len(),
{
    if m.len() > 0 {
        let d = m.drop_last();
        lemma_without_document_shape(d, doc);
        let w = without_document(m, doc);
        let wd = without_document(d, doc);
        assert forall|i: int| 0 <= i < w.len() implies exists|j: int|
            0 <= j < m.len() && m[j] == #[trigger] w[i] by {
            if i < wd.len() {
                let j = choose|j: int| 0 <= j < d.len() && d[j] == wd[i];
                assert(m[j] == w[i]);
            } else {
                assert(m[m.len() - 1] == w[i]);
            }
        }
        if unique_ids(m) {
            assert(unique_ids(d)) by {
                assert forall|i: int, j: int| 0 <= i < j < d.len() implies (#[trigger] d[i]).chunk.id
                    != (#[trigger] d[j]).chunk.id by {
                    assert(d[i] == m[i] && d[j] == m[j]);
                }
            }
            assert forall|i: int, j: int| 0 <= i < j < w.len() implies (#[trigger] w[i]).chunk.id
                != (#[trigger] w[j]).chunk.id by {
                if j == wd.len() && m.last().chunk.document_id != doc {
                    let a = choose|a: int| 0 <= a < d.len() && d[a] == wd[i];
                    assert(m[a] == d[a]);
                    assert(m[a].chunk.id != m[m.len() - 1].chunk.id);
                } else {
                    assert(w[i] == wd[i] && w[j] == wd[j]);
                }
            }
        }
    }
}

/// The chunk at `p` comes before the chunk at `q` in document order: a lower
/// chunk index, or the same index and saved earlier.
pub open spec fn chunk_before(m: Seq<StoredModel>, p: int, q: int) -> bool {
    m[p].chunk.chunk_index < m[q].chunk.chunk_index || (m[p].chunk.chunk_index
        == m[q].chunk.chunk_index && p < q)
}

/// `r` lists the positions of all chunks of document `doc`, in document order.
pub open spec fn is_doc_order(m: Seq<StoredModel>, doc: Seq<char>, r: Seq<usize>) -> bool {
    &&& forall|a: int|
        0 <= a < r.len() ==> #[trigger] r[a] < m.len() && m[r[a] as int].chunk.document_id == doc
    &&& forall|p: int|
        0 <= p < m.len() && (#[trigger] m[p]).chunk.document_id == doc ==> is_ranked(r, p)
    &&& forall|a: int, b: int|
        0 <= a < b < r.len() ==> chunk_before(m, #[trigger] r[a] as int, #[trigger] r[b] as int)
}

impl RagStore {
    /// Positions of document `document_id`'s chunks, in document order.
    pub(crate) fn document_positions(&self, document_id: &str) -> (r: Vec<usize>)
        ensures
            is_doc_order(self@, document_id@, r@),
    {
        let ghost m = self@;
        let ghost doc = document_id@;
        let mut cand: Vec<usize> = Vec::new();
        let mut keys: Vec<u64> = Vec::new();
        let mut i: usize = 0;
        while i < self.entries.len()
            invariant
                m == self@,
                doc == document_id@,
                i <= m.len(),
                cand@.len() == keys@.len(),
                forall|x: int|
                    0 <= x < cand@.len() ==> #[trigger] cand@[x] < i && m[cand@[x] as int].chunk.document_id
                        == doc && keys@[x] == u64::MAX - m[cand@[x] as int].chunk.chunk_index,
                forall|x: int, y: int| 0 <= x < y < cand@.len() ==> #[trigger] cand@[x] < #[trigger] cand@[y],
                forall|p: int|
                    0 <= p < i && (#[trigger] m[p]).chunk.document_id == doc ==> is_ranked(cand@, p),
            decreases m.len() - i,
        {
            if str_eq(self.entries[i].chunk.document_id.as_str(), document_id) {
                let ghost old_cand = cand@;
                cand.push(i);
                keys.push(u64::MAX - self.entries[i].chunk.chunk_index as u64);
                assert forall|p: int|
                    0 <= p < i + 1 && (#[trigger] m[p]).chunk.document_id == doc implies is_ranked(
                    cand@,
                    p,
                ) by {
                    if p < i {
                        let a = choose|a: int| 0 <= a < old_cand.len() && old_cand[a] == p;
                        assert(cand@[a] == p);
                    } else {
                        assert(cand@[old_cand.len() as int] == p);
                    }
                }
            }
            i = i + 1;
        }
        let order = top_k(keys.as_slice(), keys.len());
        let mut r: Vec<usize> = Vec::new();
        let mut a: usize = 0;
        while a < order.len()
            invariant
                is_top_k(keys@, keys@.len() as int, keys@.len() as int, order@),
                forall|x: int| 0 <= x < keys@.len() ==> is_ranked(order@, x),
                cand@.len() == keys@.len(),
                a <= order@.len(),
                r@.len() == a,
                forall|b: int| 0 <= b < a ==> #[trigger] r@[b] == cand@[order@[b] as int],
            decreases order@.len() - a,
        {
            r.push(cand[order[a]]);
            a = a + 1;
        }
        assert forall|x: int, y: int|
            0 <= x < cand@.len() && 0 <= y < cand@.len() implies #[trigger] ranks_before(keys@, x, y)
            == chunk_before(m, #[trigger] cand@[x] as int, cand@[y] as int) by {
            if x < y {
                assert(cand@[x] < cand@[y]);
            } else if y < x {
                assert(cand@[y] < cand@[x]);
            }
        }
        assert forall|b1: int, b2: int| 0 <= b1 < b2 < r@.len() implies chunk_before(
            m,
            #[trigger] r@[b1] as int,
            #[trigger] r@[b2] as int,
        ) by {
            assert(ranks_before(keys@, order@[b1] as int, order@[b2] as int));
        }
        assert forall|p: int| 0 <= p < m.len() && (#[trigger] m[p]).chunk.document_id == doc implies is_ranked(
            r@,
            p,
        ) by {
            let x = choose|x: int| 0 <= x < cand@.len() && cand@[x] == p;
            assert(is_ranked(order@, x));
            let b = choose|b: int| 0 <= b < order@.len() && order@[b] == x;
            assert(r@[b] == p);
        }
        r
    }

    /// The chunks of document `document_id`, in document order (by chunk
    /// index, then by when they were saved).
    pub fn get_document_chunks(&self, document_id: &str) -> (out: Vec<Chunk>)
        ensures
            exists|r: Seq<usize>|
                is_doc_order(self@, document_id@, r) && out@.len() == r.len() && forall|a: int|
                    0 <= a < r.len() ==> (#[trigger] out@[a])@ == self@[r[a] as int].chunk,
    {
        let pos = self.document_positions(document_id);
        let mut out: Vec<Chunk> = Vec::new();
        let mut a: usize = 0;
        while a < pos.len()
            invariant
                is_doc_order(self@, document_id@, pos@),
                a <= pos@.len(),
                out@.len() == a,
                forall|b: int| 0 <= b < a ==> (#[trigger] out@[b])@ == self@[pos@[b] as int].chunk,
            decreases pos@.len() - a,
        {
            let c = copy_chunk(&self.entries[pos[a]].chunk);
            out.push(c);
            a = a + 1;
        }
        out
    }

    /// The contents of document `document_id`'s chunks, in document order:
    /// what is handed to the embedding collaborator.
    pub fn document_texts(&self, document_id: &str) -> (out: Vec<String>)
        ensures
            exists|r: Seq<usize>|
                is_doc_order(self@, document_id@, r) && out@.len() == r.len() && forall|a: int|
                    0 <= a < r.len() ==> (#[trigger] out@[a])@ == self@[r[a] as int].chunk.content,
    {
        let pos = self.document_positions(document_id);
        let mut out: Vec<String> = Vec::new();
        let mut a: usize = 0;
        while a < pos.len()
            invariant
                is_doc_order(self@, document_id@, pos@),
                a <= pos@.len(),
                out@.len() == a,
                forall|b: int|
                    0 <= b < a ==> (#[trigger] out@[b])@ == self@[pos@[b] as int].chunk.content,
            decreases pos@.len() - a,
        {
            out.push(self.entries[pos[a]].chunk.content.clone());
            a = a + 1;
        }
        out
    }
}

/// `e` lists, in store order, the positions of all chunks that have a vector.
pub open spec fn is_embedded_order(m: Seq<StoredModel>, e: Seq<usize>) -> bool {
    &&& forall|a: int| 0 <= a < e.len() ==> #[trigger] e[a] < m.len() && m[e[a] as int].vector is Some
    &&& forall|p: int| 0 <= p < m.len() && (#[trigger] m[p]).vector is Some ==> is_ranked(e, p)
    &&& forall|a: int, b: int| 0 <= a < b < e.len() ==> #[trigger] e[a] < #[trigger] e[b]
}

/// `r` reports the stored chunk `s` with score `score`.
pub open spec fn reports(r: SearchResult, s: StoredModel, score: u32) -> bool {
    &&& r.chunk_id@ == s.chunk.id
    &&& r.document_id@ == s.chunk.document_id
    &&& r.content@ == s.chunk.content
    &&& r.score_bits == score
}

/// `r` reports a stored chunk that has a vector.
pub open spec fn reports_stored(m: Seq<StoredModel>, r: SearchResult) -> bool {
    exists|p: int| 0 <= p < m.len() && m[p].vector is Some && #[trigger] reports(r, m[p], r.score_bits)
}

/// `r` is the answer to a search with `scores` for the best `k`: `e` lists
/// the stored vectors, the first `n` of which have a score, and `order` ranks
/// those `n` by score.
pub open spec fn is_search_answer(
    m: Seq<StoredModel>,
    scores: Seq<u32>,
    k: int,
    e: Seq<usize>,
    order: Seq<usize>,
    r: Seq<SearchResult>,
) -> bool {
    let n = if e.len() < scores.len() {
        e.len() as int
    } else {
        scores.len() as int
    };
    &&& is_embedded_order(m, e)
    &&& is_top_k(score_keys(scores, n), n, k, order)
    &&& r.len() == order.len()
    &&& forall|a: int|
        0 <= a < order.len() ==> reports(#[trigger] r[a], m[e[order[a] as int] as int], scores[order[a] as int])
}

impl RagStore {
    fn embedded_positions(&self) -> (r: Vec<usize>)
        ensures
            is_embedded_order(self@, r@),
    {
        let mut r: Vec<usize> = Vec::new();
        let mut i: usize = 0;
        while i < self.entries.len()
            invariant
                i <= self@.len(),
                forall|a: int|
                    0 <= a < r@.len() ==> #[trigger] r@[a] < i && self@[r@[a] as int].vector is Some,
                forall|p: int| 0 <= p < i && (#[trigger] self@[p]).vector is Some ==> is_ranked(r@, p),
                forall|a: int, b: int| 0 <= a < b < r@.len() ==> #[trigger] r@[a] < #[trigger] r@[b],
            decreases self@.len() - i,
        {
            if self.entries[i].vector.is_some() {
                let ghost old_r = r@;
                r.push(i);
                assert forall|p: int| 0 <= p < i + 1 && (#[trigger] self@[p]).vector is Some implies is_ranked(
                    r@,
                    p,
                ) by {
                    if p < i {
                        let a = choose|a: int| 0 <= a < old_r.len() && old_r[a] == p;
                        assert(r@[a] == p);
                    } else {
                        assert(r@[old_r.len() as int] == p);
                    }
                }
            }
            i = i + 1;
        }
        r
    }

    /// The stored vectors, in store order; `search_similar` takes their scores in
    /// the same order.
    pub fn embedded_vectors(&self) -> (out: Vec<Vec<u32>>)
        ensures
            exists|e: Seq<usize>|
                is_embedded_order(self@, e) && out@.len() == e.len() && forall|a: int|
                    0 <= a < e.len() ==> self@[#[trigger] e[a] as int].vector == Some(out@[a]@),
    {
        let e = self.embedded_positions();
        let mut out: Vec<Vec<u32>> = Vec::new();
        let mut a: usize = 0;
        while a < e.len()
            invariant
                is_embedded_order(self@, e@),
                a <= e@.len(),
                out@.len() == a,
                forall|b: int|
                    0 <= b < a ==> self@[#[trigger] e@[b] as int].vector == Some(out@[b]@),
            decreases e@.len() - a,
        {
            match &self.entries[e[a]].vector {
                Some(v) => out.push(copy_vector(v.as_slice())),
                None => {
                    assert(false);
                },
            }
            a = a + 1;
        }
        out
    }

    /// The `k` best-scoring stored chunks, best first; equal scores keep
    /// store order. `scores[j]` is the score (the bits of an `f32`) of the
    /// `j`-th stored vector in the order of `embedded_vectors`; vectors past
    /// the end of `scores` are not ranked.
    pub fn search_similar(&self, scores: &[u32], k: usize) -> (r: Vec<SearchResult>)
        ensures
            r@.len() <= k,
            forall|a: int, b: int|
                0 <= a < b < r@.len() ==> score_key((#[trigger] r@[a]).score_bits) >= score_key(
                    (#[trigger] r@[b]).score_bits,
                ),
            forall|a: int| 0 <= a < r@.len() ==> reports_stored(self@, #[trigger] r@[a]),
            exists|e: Seq<usize>, order: Seq<usize>| #[trigger]
                is_search_answer(self@, scores@, k as int, e, order, r@),
    {
        let e = self.embedded_positions();
        let n = if e.len() < scores.len() {
            e.len()
        } else {
            scores.len()
        };
        let mut keys: Vec<u64> = Vec::new();
        let mut j: usize = 0;
        while j < n
            invariant
                j <= n,
                n <= scores@.len(),
                keys@ == score_keys(scores@, j as int),
            decreases n - j,
        {
            keys.push(score_rank_key(scores[j]) as u64);
            j = j + 1;
            assert(keys@ =~= score_keys(scores@, j as int));
        }
        let order = top_k(keys.as_slice(), k);
        let mut r: Vec<SearchResult> = Vec::new();
        let mut a: usize = 0;
        while a < order.len()
            invariant
                is_embedded_order(self@, e@),
                n <= e@.len(),
                n <= scores@.len(),
                keys@ == score_keys(scores@, n as int),
                is_top_k(keys@, n as int, k as int, order@),
                a <= order@.len(),
                r@.len() == a,
                forall|b: int|
                    0 <= b < a ==> reports(
                        #[trigger] r@[b],
                        self@[e@[order@[b] as int] as int],
                        scores@[order@[b] as int],
                    ),
            decreases order@.len() - a,
        {
            let j = order[a];
            let entry = &self.entries[e[j]];
            r.push(
                SearchResult {
                    chunk_id: entry.chunk.id.clone(),
                    document_id: entry.chunk.document_id.clone(),
                    content: entry.chunk.content.clone(),
                    score_bits: scores[j],
                },
            );
            a = a + 1;
        }
        assert forall|b1: int, b2: int| 0 <= b1 < b2 < r@.len() implies score_key(
            (#[trigger] r@[b1]).score_bits,
        ) >= score_key((#[trigger] r@[b2]).score_bits) by {
            assert(ranks_before(keys@, order@[b1] as int, order@[b2] as int));
        }
        assert forall|b: int| 0 <= b < r@.len() implies reports_stored(self@, #[trigger] r@[b]) by {
            assert(order@[b] < n);
            let p = e@[order@[b] as int] as int;
            assert(reports(r@[b], self@[p], r@[b].score_bits));
        }
        assert(is_search_answer(self@, scores@, k as int, e@, order@, r@));
        r
    }
}

/// After document `doc` is deleted, no search can report it: every hit of a
/// search names a chunk the store still holds, and none of them belongs to
/// `doc` or carries the id of one of `doc`'s former chunks.
pub proof fn lemma_deleted_document_unreachable(m: Seq<StoredModel>, doc: Seq<char>, r: SearchResult)
    requires
        unique_ids(m),
        reports_stored(without_document(m, doc), r),
    ensures
        r.document_id@ != doc,
        forall|p: int|
            0 <= p < m.len() && (#[trigger] m[p]).chunk.document_id == doc ==> r.chunk_id@
                != m[p].chunk.id,
{
    let w = without_document(m, doc);
    lemma_without_document_shape(m, doc);
    let q = choose|q: int|
        0 <= q < w.len() && w[q].vector is Some && #[trigger] reports(r, w[q], r.score_bits);
    let j = choose|j: int| 0 <= j < m.len() && m[j] == w[q];
    assert forall|p: int| 0 <= p < m.len() && (#[trigger] m[p]).chunk.document_id == doc implies r.chunk_id@
        != m[p].chunk.id by {
        assert(p != j);
        if p < j {
            assert(m[p].chunk.id != m[j].chunk.id);
        } else {
            assert(m[j].chunk.id != m[p].chunk.id);
        }
    }
}

/// The number of distinct values in `s`.
pub open spec fn distinct_count(s: Seq<Seq<char>>) -> nat
    decreases s.len(),
{
    if s.len() == 0 {
        0
    } else {
        distinct_count(s.drop_last()) + if s.drop_last().contains(s.last()) {
            0nat
        } else {
            1nat
        }
    }
}

/// The document ids of the stored chunks, in store order.
pub open spec fn document_ids(m: Seq<StoredModel>) -> Seq<Seq<char>> {
    m.map_values(|e: StoredModel| e.chunk.document_id)
}

/// The document ids of the stored chunks that have a vector, in store order.
pub open spec fn embedded_document_ids(m: Seq<StoredModel>) -> Seq<Seq<char>>
    decreases m.len(),
{
    if m.len() == 0 {
        seq![]
    } else if m.last().vector is Some {
        embedded_document_ids(m.drop_last()).push(m.last().chunk.document_id)
    } else {
        embedded_document_ids(m.drop_last())
    }
}

/// The views of a sequence of strings.
pub open spec fn string_views(s: Seq<String>) -> Seq<Seq<char>> {
    s.map_values(|x: String| x@)
}

/// The number of distinct strings in `ids`.
pub fn count_distinct(ids: &[String]) -> (r: usize)
    ensures
        r == distinct_count(string_views(ids@)),
{
    let ghost v = string_views(ids@);
    let mut count: usize = 0;
    let mut i: usize = 0;
    while i < ids.len()
        invariant
            v == string_views(ids@),
            i <= ids@.len(),
            count <= i,
            count == distinct_count(v.subrange(0, i as int)),
        decreases ids@.len() - i,
    {
        let mut j: usize = 0;
        let mut seen = false;
        while j < i
            invariant
                v == string_views(ids@),
                j <= i < ids@.len(),
                seen == exists|x: int| 0 <= x < j && v[x] == v[i as int],
            decreases i - j,
        {
            assert(v[j as int] == ids@[j as int]@ && v[i as int] == ids@[i as int]@);
            if ids[j] == ids[i] {
                seen = true;
            }
            j = j + 1;
        }
        let ghost pre = v.subrange(0, i as int);
        assert(v.subrange(0, i + 1).drop_last() =~= pre);
        assert(v.subrange(0, i + 1).last() == v[i as int]);
        assert(seen == pre.contains(v[i as int])) by {
            if seen {
                let x = choose|x: int| 0 <= x < i && v[x] == v[i as int];
                assert(pre[x] == v[i as int]);
            }
        }
        if !seen {
            count = count + 1;
        }
        i = i + 1;
    }
    assert(v.subrange(0, ids@.len() as int) =~= v);
    count
}

impl RagStore {
    /// `(number of chunks, number of distinct documents among them)`.
    pub fn get_chunk_stats(&self) -> (r: (usize, usize))
        ensures
            r.0 == self@.len(),
            r.1 == distinct_count(document_ids(self@)),
    {
        let mut ids: Vec<String> = Vec::new();
        let mut i: usize = 0;
        while i < self.entries.len()
            invariant
                i <= self@.len(),
                ids@.len() == i,
                string_views(ids@) == document_ids(self@.subrange(0, i as int)),
            decreases self@.len() - i,
        {
            let ghost before = ids@;
            ids.push(self.entries[i].chunk.document_id.clone());
            assert(ids@ == before.push(ids@[i as int]));
            assert(ids@[i as int]@ == self@[i as int].chunk.document_id);
            assert(string_views(ids@) =~= string_views(before).push(self@[i as int].chunk.document_id));
            i = i + 1;
            assert(string_views(ids@) =~= document_ids(self@.subrange(0, i as int)));
        }
        assert(self@.subrange(0, i as int) =~= self@);
        (self.entries.len(), count_distinct(ids.as_slice()))
    }

    /// `(number of stored vectors, number of distinct documents they belong
    /// to)`.
    pub fn get_embedding_stats(&self) -> (r: (usize, usize))
        ensures
            r.0 == embedded_document_ids(self@).len(),
            r.1 == distinct_count(embedded_document_ids(self@)),
    {
        let mut ids: Vec<String> = Vec::new();
        let mut i: usize = 0;
        while i < self.entries.len()
            invariant
                i <= self@.len(),
                string_views(ids@) == embedded_document_ids(self@.subrange(0, i as int)),
            decreases self@.len() - i,
        {
            assert(self@.subrange(0, i + 1).drop_last() =~= self@.subrange(0, i as int));
            let ghost before = ids@;
            if self.entries[i].vector.is_some() {
                ids.push(self.entries[i].chunk.document_id.clone());
                assert(ids@[before.len() as int]@ == self@[i as int].chunk.document_id);
                assert(string_views(ids@) =~= string_views(before).push(
                    self@[i as int].chunk.document_id,
                ));
            }
            i = i + 1;
            assert(string_views(ids@) =~= embedded_document_ids(self@.subrange(0, i as int)));
        }
        assert(self@.subrange(0, i as int) =~= self@);
        (ids.len(), count_distinct(ids.as_slice()))
    }
}

impl RagStore {
    /// Number of stored chunks.
    pub fn len(&self) -> (r: usize)
        ensures
            r == self@.len(),
    {
        self.entries.len()
    }

    /// The chunk at position `p`.
    pub fn chunk_at(&self, p: usize) -> (r: &Chunk)
        requires
            p < self@.len(),
        ensures
            r@ == self@[p as int].chunk,
    {
        &self.entries[p].chunk
    }

    /// Whether the chunk at position `p` has a vector.
    pub fn has_vector_at(&self, p: usize) -> (r: bool)
        requires
            p < self@.len(),
        ensures
            r == self@[p as int].vector is Some,
    {
        self.entries[p].vector.is_some()
    }
}

/// A copy of `c`.
pub fn copy_chunk(c: &Chunk) -> (r: Chunk)
    ensures
        r@ == c@,
{
    Chunk {
        id: c.id.clone(),
        document_id: c.document_id.clone(),
        chunk_index: c.chunk_index,
        content: c.content.clone(),
        start_offset: c.start_offset,
        end_offset: c.end_offset,
    }
}

/// A copy of vector `v`.
pub fn copy_vector(v: &[u32]) -> (r: Vec<u32>)
    ensures
        r@ == v@,
{
    slice_to_vec(v)
}

} // verus!
