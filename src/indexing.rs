//! Indexing decisions: which documents still need vectors, and writing a
//! document's vectors all at once.
//!
//! The embedding collaborator runs outside the store: the caller asks the
//! store for the texts to embed, has them embedded, and hands the vectors
//! back. Nothing is written until a whole document's vectors are at hand.
use crate::store::{IndexError, RagStore, StoredModel, chunk_before, is_doc_order};
use crate::text::str_eq;
use crate::vector_store::is_ranked;
use vstd::prelude::*;

verus! {

/// Whether the embedding collaborator can be used.
#[derive(Debug, Clone, Copy, PartialEq, Eq, Structural)]
pub enum EmbedderState {
    Uninitialized,
    Ready,
}

/// The chunk at `p` is the first chunk of document `doc`.
pub open spec fn is_first_chunk(m: Seq<StoredModel>, doc: Seq<char>, p: int) -> bool {
    &&& 0 <= p < m.len()
    &&& m[p].chunk.document_id == doc
    &&& forall|q: int|
        0 <= q < m.len() && (#[trigger] m[q]).chunk.document_id == doc && q != p ==> chunk_before(
            m,
            p,
            q,
        )
}

/// Document `doc` has chunks and its first chunk has no vector: the
/// coverage heuristic counts it as not yet indexed.
pub open spec fn is_pending(m: Seq<StoredModel>, doc: Seq<char>) -> bool {
    exists|p: int| #[trigger] is_first_chunk(m, doc, p) && m[p].vector is None
}

/// `l` names each document that is pending in `m`, once.
pub open spec fn lists_pending(m: Seq<StoredModel>, l: Seq<String>) -> bool {
    &&& forall|a: int| 0 <= a < l.len() ==> is_pending(m, (#[trigger] l[a])@)
    &&& forall|doc: Seq<char>|
        #[trigger] is_pending(m, doc) ==> exists|a: int| 0 <= a < l.len() && (#[trigger] l[a])@ == doc
    &&& forall|a: int, b: int| 0 <= a < b < l.len() ==> (#[trigger] l[a])@ != (#[trigger] l[b])@
}

/// Document `d` is named in `l`.
pub open spec fn names(l: Seq<String>, d: Seq<char>) -> bool {
    exists|a: int| 0 <= a < l.len() && (#[trigger] l[a])@ == d
}

/// The number of chunks of `m` whose document is named in `l`.
pub open spec fn count_named(m: Seq<StoredModel>, l: Seq<String>) -> nat
    decreases m.len(),
{
    if m.len() == 0 {
        0
    } else {
        count_named(m.drop_last(), l) + if names(l, m.last().chunk.document_id) {
            1nat
        } else {
            0nat
        }
    }
}

/// In `cur`, the chunks of `d`, taken in the document order `pos` of `m`,
/// hold the vectors `vs` in order.
pub open spec fn holds_batch(
    m: Seq<StoredModel>,
    cur: Seq<StoredModel>,
    d: Seq<char>,
    pos: Seq<usize>,
    vs: Seq<Vec<u32>>,
) -> bool {
    &&& is_doc_order(m, d, pos)
    &&& pos.len() == vs.len()
    &&& forall|b: int| 0 <= b < pos.len() ==> cur[#[trigger] pos[b] as int].vector == Some(vs[b]@)
}

/// In `cur`, the chunks of `d` hold the vectors of `d`'s first batch in `bs`.
pub open spec fn batch_held(
    m: Seq<StoredModel>,
    cur: Seq<StoredModel>,
    bs: Seq<DocumentVectors>,
    d: Seq<char>,
) -> bool {
    exists|pos: Seq<usize>| #[trigger] holds_batch(m, cur, d, pos, bs[batch_for(bs, d)].vectors@)
}

/// `m2` is `m1` after indexing the pending documents `l` from batches `bs`,
/// and `counts` is `(documents indexed, vectors written)`.
pub open spec fn indexed_all(
    m1: Seq<StoredModel>,
    m2: Seq<StoredModel>,
    bs: Seq<DocumentVectors>,
    l: Seq<String>,
    counts: (usize, usize),
) -> bool {
    &&& lists_pending(m1, l)
    &&& counts.0 == l.len()
    &&& counts.1 == count_named(m1, l)
    &&& forall|a: int| 0 <= a < l.len() ==> batch_held(m1, m2, bs, (#[trigger] l[a])@)
    &&& forall|p: int|
        0 <= p < m1.len() && !names(l, m1[p].chunk.document_id) ==> #[trigger] m2[p] == m1[p]
}

proof fn lemma_count_named_same_chunks(m1: Seq<StoredModel>, m2: Seq<StoredModel>, l: Seq<String>)
    requires
        m1.len() == m2.len(),
        forall|q: int| 0 <= q < m1.len() ==> (#[trigger] m2[q]).chunk == m1[q].chunk,
    ensures
        count_named(m1, l) == count_named(m2, l),
    decreases m1.len(),
{
    if m1.len() > 0 {
        let d1 = m1.drop_last();
        let d2 = m2.drop_last();
        assert forall|q: int| 0 <= q < d1.len() implies (#[trigger] d2[q]).chunk == d1[q].chunk by {
            assert(d2[q] == m2[q] && d1[q] == m1[q]);
        }
        lemma_count_named_same_chunks(d1, d2, l);
        assert(m2[m2.len() - 1].chunk == m1[m1.len() - 1].chunk);
    }
}

proof fn lemma_count_named_none(m: Seq<StoredModel>, l: Seq<String>)
    requires
        l.len() == 0,
    ensures
        count_named(m, l) == 0,
    decreases m.len(),
{
    if m.len() > 0 {
        lemma_count_named_none(m.drop_last(), l);
    }
}

/// The views of a batch of vectors.
pub open spec fn vector_views(vs: Seq<Vec<u32>>) -> Seq<Seq<u32>> {
    vs.map_values(|v: Vec<u32>| v@)
}

/// `m2` is `m1` after storing `vs[a]` for the `a`-th chunk of `doc` in
/// document order `r`.
pub open spec fn indexed_as(
    m1: Seq<StoredModel>,
    m2: Seq<StoredModel>,
    doc: Seq<char>,
    r: Seq<usize>,
    vs: Seq<Seq<u32>>,
) -> bool {
    &&& is_doc_order(m1, doc, r)
    &&& r.len() == vs.len()
    &&& m2.len() == m1.len()
    &&& forall|p: int| 0 <= p < m1.len() ==> (#[trigger] m2[p]).chunk == m1[p].chunk
    &&& forall|p: int|
        0 <= p < m1.len() && m1[p].chunk.document_id != doc ==> #[trigger] m2[p] == m1[p]
    &&& forall|a: int| 0 <= a < r.len() ==> m2[#[trigger] r[a] as int].vector == Some(vs[a])
}

proof fn lemma_first_chunk_unique(m: Seq<StoredModel>, doc: Seq<char>, p: int, q: int)
    requires
        is_first_chunk(m, doc, p),
        is_first_chunk(m, doc, q),
    ensures
        p == q,
{
    if p != q {
        assert(chunk_before(m, p, q) && chunk_before(m, q, p));
    }
}

proof fn lemma_first_chunk_same_chunks(m1: Seq<StoredModel>, m2: Seq<StoredModel>, doc: Seq<char>, p: int)
    requires
        m1.len() == m2.len(),
        forall|q: int| 0 <= q < m1.len() ==> (#[trigger] m2[q]).chunk == m1[q].chunk,
        is_first_chunk(m2, doc, p),
    ensures
        is_first_chunk(m1, doc, p),
{
    assert forall|q: int|
        0 <= q < m1.len() && (#[trigger] m1[q]).chunk.document_id == doc && q != p implies chunk_before(
        m1,
        p,
        q,
    ) by {
        assert(m2[q].chunk == m1[q].chunk);
        assert(m2[p].chunk == m1[p].chunk);
        assert(chunk_before(m2, p, q));
    }
}

/// In document order, the first position is the document's first chunk.
proof fn lemma_doc_order_first(m: Seq<StoredModel>, doc: Seq<char>, r: Seq<usize>)
    requires
        is_doc_order(m, doc, r),
        r.len() > 0,
    ensures
        is_first_chunk(m, doc, r[0] as int),
{
    assert forall|q: int|
        0 <= q < m.len() && (#[trigger] m[q]).chunk.document_id == doc && q != r[0] as int implies chunk_before(
        m,
        r[0] as int,
        q,
    ) by {
        assert(is_ranked(r, q));
        let b = choose|b: int| 0 <= b < r.len() && r[b] == q;
        assert(b != 0);
        assert(chunk_before(m, r[0] as int, r[b] as int));
    }
}

impl RagStore {
    /// The texts to embed for document `document_id`, in document order;
    /// fails with `NotReady`, before reading anything, when the embedding
    /// collaborator is not initialised.
    pub fn begin_indexing(&self, embedder: EmbedderState, document_id: &str) -> (r: Result<
        Vec<String>,
        IndexError,
    >)
        ensures
            embedder == EmbedderState::Uninitialized ==> r == Err::<Vec<String>, IndexError>(
                IndexError::NotReady,
            ),
            embedder == EmbedderState::Ready ==> r is Ok && exists|pos: Seq<usize>|
                is_doc_order(self@, document_id@, pos) && r->Ok_0@.len() == pos.len() && forall|
                    a: int,
                | 0 <= a < pos.len() ==> (#[trigger] r->Ok_0@[a])@ == self@[pos[a] as int].chunk.content,
    {
        match embedder {
            EmbedderState::Uninitialized => Err(IndexError::NotReady),
            EmbedderState::Ready => Ok(self.document_texts(document_id)),
        }
    }

    /// Store `vectors[a]` for the `a`-th chunk of document `document_id`, in
    /// document order, and return how many were stored. Either every chunk of
    /// the document gets its vector or, when the counts differ, nothing is
    /// written.
    pub fn finish_indexing(&mut self, document_id: &str, vectors: Vec<Vec<u32>>) -> (r: Result<
        usize,
        IndexError,
    >)
        requires
            old(self).wf(),
        ensures
            final(self).wf(),
            match r {
                Ok(n) => n == vectors@.len() && exists|pos: Seq<usize>| #[trigger]
                    indexed_as(old(self)@, final(self)@, document_id@, pos, vector_views(vectors@)),
                Err(e) => e == IndexError::BatchSizeMismatch && final(self)@ == old(self)@ && exists|
                    pos: Seq<usize>,
                | #[trigger] is_doc_order(old(self)@, document_id@, pos) && pos.len()
                    != vectors@.len(),
            },
    {
        let pos = self.document_positions(document_id);
        if pos.len() != vectors.len() {
            return Err(IndexError::BatchSizeMismatch);
        }
        let ghost m = self@;
        let ghost vs = vector_views(vectors@);
        let ghost doc = document_id@;
        let n = vectors.len();
        let mut vectors = vectors;
        let mut a = n;
        while a > 0
            invariant
                is_doc_order(m, doc, pos@),
                pos@.len() == n,
                vs.len() == n,
                a <= n,
                vectors@.len() == a,
                forall|b: int| 0 <= b < a ==> vectors@[b]@ == #[trigger] vs[b],
                self.wf(),
                self@.len() == m.len(),
                forall|p: int| 0 <= p < m.len() ==> (#[trigger] self@[p]).chunk == m[p].chunk,
                forall|p: int| 0 <= p < m.len() && !is_ranked(pos@.subrange(a as int, n as int), p)
                    ==> #[trigger] self@[p] == m[p],
                forall|b: int| a <= b < n ==> self@[#[trigger] pos@[b] as int].vector == Some(vs[b]),
            decreases a,
        {
            let ghost before = self@;
            let v = match vectors.pop() {
                Some(v) => v,
                None => {
                    assert(false);
                    return Err(IndexError::BatchSizeMismatch);
                },
            };
            a = a - 1;
            let p = pos[a];
            assert(v@ == vs[a as int]);
            self.set_vector(p, v);
            assert forall|b: int| a <= b < n implies self@[#[trigger] pos@[b] as int].vector == Some(
                vs[b],
            ) by {
                if b > a {
                    assert(pos@[b] != pos@[a as int]) by {
                        assert(chunk_before(m, pos@[a as int] as int, pos@[b] as int));
                    }
                }
            }
            assert forall|q: int|
                0 <= q < m.len() && !is_ranked(pos@.subrange(a as int, n as int), q) implies #[trigger] self@[q]
                == m[q] by {
                assert(q != p as int) by {
                    assert(pos@.subrange(a as int, n as int)[0] == p);
                }
                let s1 = pos@.subrange(a + 1, n as int);
                if is_ranked(s1, q) {
                    let c = choose|c: int| 0 <= c < s1.len() && s1[c] == q;
                    assert(pos@.subrange(a as int, n as int)[c + 1] == q);
                }
            }
        }
        assert forall|q: int| 0 <= q < m.len() && m[q].chunk.document_id != doc implies #[trigger] self@[q]
            == m[q] by {
            let s0 = pos@.subrange(0, n as int);
            if is_ranked(s0, q) {
                let c = choose|c: int| 0 <= c < s0.len() && s0[c] == q;
                assert(pos@[c] == q);
            }
        }
        assert(indexed_as(m, self@, doc, pos@, vs));
        Ok(n)
    }
}

impl RagStore {
    /// The documents that the coverage heuristic counts as not yet indexed:
    /// each document whose first chunk has no vector, once. Documents without
    /// chunks are not listed.
    pub fn pending_documents(&self) -> (r: Vec<String>)
        ensures
            lists_pending(self@, r@),
    {
        let ghost m = self@;
        let mut out: Vec<String> = Vec::new();
        let mut i: usize = 0;
        while i < self.len()
            invariant
                m == self@,
                i <= m.len(),
                forall|a: int| 0 <= a < out@.len() ==> is_pending(m, (#[trigger] out@[a])@),
                forall|a: int|
                    0 <= a < out@.len() ==> exists|j: int|
                        0 <= j < i && (#[trigger] out@[a])@ == m[j].chunk.document_id,
                forall|j: int|
                    0 <= j < i && is_pending(m, (#[trigger] m[j]).chunk.document_id) ==> exists|
                        a: int,
                    | 0 <= a < out@.len() && (#[trigger] out@[a])@ == m[j].chunk.document_id,
                forall|a: int, b: int|
                    0 <= a < b < out@.len() ==> (#[trigger] out@[a])@ != (#[trigger] out@[b])@,
            decreases m.len() - i,
        {
            let doc = &self.chunk_at(i).document_id;
            let mut j: usize = 0;
            let mut seen = false;
            while j < i
                invariant
                    m == self@,
                    j <= i < m.len(),
                    doc@ == m[i as int].chunk.document_id,
                    seen == exists|x: int| 0 <= x < j && (#[trigger] m[x]).chunk.document_id == doc@,
                decreases i - j,
            {
                if str_eq(self.chunk_at(j).document_id.as_str(), doc.as_str()) {
                    seen = true;
                }
                j = j + 1;
            }
            let ghost d = doc@;
            if seen {
                let ghost x = choose|x: int| 0 <= x < i && (#[trigger] m[x]).chunk.document_id == d;
                assert(m[x].chunk.document_id == d);
            } else {
                let pos = self.document_positions(doc.as_str());
                assert(is_ranked(pos@, i as int));
                proof {
                    lemma_doc_order_first(m, d, pos@);
                }
                let first = pos[0];
                if !self.has_vector_at(first) {
                    let ghost before = out@;
                    out.push(doc.clone());
                    assert(is_pending(m, d));
                    assert forall|a: int, b: int| 0 <= a < b < out@.len() implies (#[trigger] out@[a])@
                        != (#[trigger] out@[b])@ by {
                        if b == before.len() {
                            let y = choose|y: int| 0 <= y < i && (#[trigger] before[a])@ == m[y].chunk.document_id;
                            assert(out@[a] == before[a]);
                            assert(m[y].chunk.document_id != d);
                        } else {
                            assert(out@[a] == before[a] && out@[b] == before[b]);
                        }
                    }
                    assert forall|a: int| 0 <= a < out@.len() implies exists|j: int|
                        0 <= j < i + 1 && (#[trigger] out@[a])@ == m[j].chunk.document_id by {
                        if a < before.len() {
                            assert(out@[a] == before[a]);
                            let y = choose|y: int| 0 <= y < i && (#[trigger] before[a])@ == m[y].chunk.document_id;
                            assert(out@[a]@ == m[y].chunk.document_id);
                        } else {
                            assert(out@[a]@ == m[i as int].chunk.document_id);
                        }
                    }
                    assert forall|j: int|
                        0 <= j < i + 1 && is_pending(m, (#[trigger] m[j]).chunk.document_id) implies exists|
                        a: int,
                    | 0 <= a < out@.len() && (#[trigger] out@[a])@ == m[j].chunk.document_id by {
                        if j < i {
                            let a = choose|a: int|
                                0 <= a < before.len() && (#[trigger] before[a])@ == m[j].chunk.document_id;
                            assert(out@[a] == before[a]);
                        } else {
                            assert(out@[before.len() as int]@ == d);
                        }
                    }
                } else {
                    assert(!is_pending(m, d)) by {
                        if is_pending(m, d) {
                            let p = choose|p: int| #[trigger] is_first_chunk(m, d, p) && m[p].vector is None;
                            lemma_first_chunk_unique(m, d, p, first as int);
                        }
                    }
                }
            }
            i = i + 1;
        }
        assert forall|doc: Seq<char>| #[trigger] is_pending(m, doc) implies exists|a: int|
            0 <= a < out@.len() && (#[trigger] out@[a])@ == doc by {
            let p = choose|p: int| #[trigger] is_first_chunk(m, doc, p) && m[p].vector is None;
            assert(is_pending(m, m[p].chunk.document_id));
        }
        assert(lists_pending(m, out@));
        out
    }
}

/// One document's vectors, in the document order of its chunks, as the
/// embedding collaborator produced them.
pub struct DocumentVectors {
    pub document_id: String,
    pub vectors: Vec<Vec<u32>>,
}

/// Position in `bs` of the first batch for document `d`; -1 if there is
/// none.
pub open spec fn batch_for(bs: Seq<DocumentVectors>, d: Seq<char>) -> int
    decreases bs.len(),
{
    if bs.len() == 0 {
        -1
    } else if bs[0].document_id@ == d {
        0
    } else {
        let r = batch_for(bs.drop_first(), d);
        if r < 0 {
            -1
        } else {
            r + 1
        }
    }
}

/// Every pending document of `m` has a batch in `bs`, and the first one
/// holds exactly one vector per chunk of the document.
pub open spec fn batches_fit(m: Seq<StoredModel>, bs: Seq<DocumentVectors>) -> bool {
    forall|d: Seq<char>|
        #[trigger] is_pending(m, d) ==> batch_for(bs, d) >= 0 && forall|pos: Seq<usize>|
            #[trigger] is_doc_order(m, d, pos) ==> pos.len() == bs[batch_for(bs, d)].vectors@.len()
}

proof fn lemma_batch_for_bounds(bs: Seq<DocumentVectors>, d: Seq<char>)
    ensures
        -1 <= batch_for(bs, d) < bs.len(),
        batch_for(bs, d) >= 0 ==> bs[batch_for(bs, d)].document_id@ == d,
        forall|y: int|
            0 <= y < bs.len() && (batch_for(bs, d) < 0 || y < batch_for(bs, d)) ==> (#[trigger] bs[
                y
            ]).document_id@ != d,
    decreases bs.len(),
{
    if bs.len() > 0 && bs[0].document_id@ != d {
        lemma_batch_for_bounds(bs.drop_first(), d);
        assert forall|y: int|
            0 <= y < bs.len() && (batch_for(bs, d) < 0 || y < batch_for(bs, d)) implies (
            #[trigger] bs[y]).document_id@ != d by {
            if y > 0 {
                assert(bs[y] == bs.drop_first()[y - 1]);
            }
        }
    }
}

proof fn lemma_batch_for_first(bs: Seq<DocumentVectors>, d: Seq<char>, x: int)
    requires
        0 <= x < bs.len(),
        bs[x].document_id@ == d,
        forall|y: int| 0 <= y < x ==> (#[trigger] bs[y]).document_id@ != d,
    ensures
        batch_for(bs, d) == x,
{
    lemma_batch_for_bounds(bs, d);
}

proof fn lemma_batch_for_remove(bs: Seq<DocumentVectors>, x: int, d: Seq<char>)
    requires
        0 <= x < bs.len(),
        bs[x].document_id@ != d,
    ensures
        (batch_for(bs.remove(x), d) < 0) == (batch_for(bs, d) < 0),
        batch_for(bs, d) >= 0 ==> bs.remove(x)[batch_for(bs.remove(x), d)] == bs[batch_for(bs, d)],
{
    let c = bs.remove(x);
    let b = batch_for(bs, d);
    lemma_batch_for_bounds(bs, d);
    lemma_batch_for_bounds(c, d);
    if b < 0 {
        if batch_for(c, d) >= 0 {
            let y = batch_for(c, d);
            if y < x {
                assert(c[y] == bs[y]);
            } else {
                assert(c[y] == bs[y + 1]);
            }
        }
    } else if b < x {
        assert(c[b] == bs[b]);
        assert forall|y: int| 0 <= y < b implies (#[trigger] c[y]).document_id@ != d by {
            assert(c[y] == bs[y]);
        }
        lemma_batch_for_first(c, d, b);
    } else {
        assert(b != x);
        assert(c[b - 1] == bs[b]);
        assert forall|y: int| 0 <= y < b - 1 implies (#[trigger] c[y]).document_id@ != d by {
            if y < x {
                assert(c[y] == bs[y]);
            } else {
                assert(c[y] == bs[y + 1]);
            }
        }
        lemma_batch_for_first(c, d, b - 1);
    }
}

proof fn lemma_doc_order_same_chunks(
    m1: Seq<StoredModel>,
    m2: Seq<StoredModel>,
    doc: Seq<char>,
    pos: Seq<usize>,
)
    requires
        m1.len() == m2.len(),
        forall|q: int| 0 <= q < m1.len() ==> (#[trigger] m2[q]).chunk == m1[q].chunk,
        is_doc_order(m2, doc, pos),
    ensures
        is_doc_order(m1, doc, pos),
{
    assert forall|a: int| 0 <= a < pos.len() implies #[trigger] pos[a] < m1.len()
        && m1[pos[a] as int].chunk.document_id == doc by {
        assert(m2[pos[a] as int].chunk == m1[pos[a] as int].chunk);
    }
    assert forall|p: int|
        0 <= p < m1.len() && (#[trigger] m1[p]).chunk.document_id == doc implies is_ranked(pos, p) by {
        assert(m2[p].chunk == m1[p].chunk);
    }
    assert forall|a: int, b: int| 0 <= a < b < pos.len() implies chunk_before(
        m1,
        #[trigger] pos[a] as int,
        #[trigger] pos[b] as int,
    ) by {
        assert(m2[pos[a] as int].chunk == m1[pos[a] as int].chunk);
        assert(m2[pos[b] as int].chunk == m1[pos[b] as int].chunk);
        assert(chunk_before(m2, pos[a] as int, pos[b] as int));
    }
}

impl RagStore {
    /// Store the vectors of every document that `pending_documents` lists,
    /// taking each from `batches`, and return `(documents indexed, vectors
    /// stored)`.
    ///
    /// Each document is written whole or not at all. After a successful run
    /// no document is pending any more, so a second run finds nothing to do:
    /// it returns `(0, 0)` and leaves the store as it is. Chunks are never
    /// changed, and no vector is removed.
    ///
    /// The run succeeds when `batches_fit`; `MissingBatch` means a pending
    /// document has no batch, `BatchSizeMismatch` that a pending document's
    /// first batch has the wrong number of vectors.
    pub fn index_all_pending(&mut self, batches: Vec<DocumentVectors>) -> (r: Result<
        (usize, usize),
        IndexError,
    >)
        requires
            old(self).wf(),
        ensures
            final(self).wf(),
            final(self)@.len() == old(self)@.len(),
            forall|p: int|
                0 <= p < old(self)@.len() ==> (#[trigger] final(self)@[p]).chunk == old(
                    self,
                )@[p].chunk,
            forall|p: int|
                0 <= p < old(self)@.len() && old(self)@[p].vector is Some ==> (
                #[trigger] final(self)@[p]).vector is Some,
            r is Ok ==> forall|doc: Seq<char>| !#[trigger] is_pending(final(self)@, doc),
            (forall|doc: Seq<char>| !#[trigger] is_pending(old(self)@, doc)) ==> r == Ok::<
                (usize, usize),
                IndexError,
            >((0, 0)) && final(self)@ == old(self)@,
            batches_fit(old(self)@, batches@) ==> r is Ok,
            r is Ok ==> exists|l: Seq<String>| #[trigger]
                indexed_all(old(self)@, final(self)@, batches@, l, r->Ok_0),
            r is Ok || r == Err::<(usize, usize), IndexError>(IndexError::MissingBatch) || r == Err::<
                (usize, usize),
                IndexError,
            >(IndexError::BatchSizeMismatch),
            r == Err::<(usize, usize), IndexError>(IndexError::MissingBatch) ==> exists|
                doc: Seq<char>,
            | #[trigger] is_pending(old(self)@, doc) && batch_for(batches@, doc) < 0,
            r == Err::<(usize, usize), IndexError>(IndexError::BatchSizeMismatch) ==> exists|
                doc: Seq<char>,
            | #[trigger] is_pending(old(self)@, doc) && batch_for(batches@, doc) >= 0 && exists|
                pos: Seq<usize>,
            | #[trigger] is_doc_order(old(self)@, doc, pos) && pos.len() != batches@[batch_for(
                batches@,
                doc,
            )].vectors@.len(),
    {
        let ghost m = self@;
        let ghost orig = batches@;
        let pending = self.pending_documents();
        let mut remaining = batches;
        let mut documents: usize = 0;
        let mut t: usize = 0;
        while t < pending.len()
            invariant
                self.wf(),
                m == old(self)@,
                t == 0 ==> self@ == m,
                forall|p: int|
                    0 <= p < m.len() && !names(pending@.subrange(0, t as int), m[p].chunk.document_id)
                        ==> #[trigger] self@[p] == m[p],
                forall|a: int| 0 <= a < t ==> batch_held(m, self@, orig, (#[trigger] pending@[a])@),
                t <= pending@.len(),
                documents == t,
                self@.len() == m.len(),
                forall|p: int| 0 <= p < m.len() ==> (#[trigger] self@[p]).chunk == m[p].chunk,
                forall|p: int|
                    0 <= p < m.len() && m[p].vector is Some ==> (#[trigger] self@[p]).vector is Some,
                forall|a: int, p: int|
                    0 <= a < t && 0 <= p < m.len() && (#[trigger] self@[p]).chunk.document_id
                        == (#[trigger] pending@[a])@ ==> self@[p].vector is Some,
                forall|doc: Seq<char>|
                    #[trigger] is_pending(m, doc) ==> exists|a: int|
                        0 <= a < pending@.len() && (#[trigger] pending@[a])@ == doc,
                forall|a: int| 0 <= a < pending@.len() ==> is_pending(m, (#[trigger] pending@[a])@),
                forall|a: int, b: int|
                    0 <= a < b < pending@.len() ==> (#[trigger] pending@[a])@ != (
                    #[trigger] pending@[b])@,
                orig == batches@,
                forall|a: int|
                    t <= a < pending@.len() ==> ((batch_for(remaining@, (#[trigger] pending@[a])@) < 0)
                        == (batch_for(orig, pending@[a]@) < 0)) && (batch_for(orig, pending@[a]@)
                        >= 0 ==> remaining@[batch_for(remaining@, pending@[a]@)] == orig[batch_for(
                        orig,
                        pending@[a]@,
                    )]),
            decreases pending@.len() - t,
        {
            let doc = &pending[t];
            let ghost d = doc@;
            let mut x: usize = 0;
            while x < remaining.len() && !str_eq(remaining[x].document_id.as_str(), doc.as_str())
                invariant
                    x <= remaining@.len(),
                    d == doc@,
                    forall|y: int| 0 <= y < x ==> (#[trigger] remaining@[y]).document_id@ != d,
                decreases remaining@.len() - x,
            {
                x = x + 1;
            }
            proof {
                lemma_batch_for_bounds(remaining@, d);
                assert(is_pending(m, pending@[t as int]@));
            }
            if x == remaining.len() {
                assert(batch_for(orig, d) < 0);
                return Err(IndexError::MissingBatch);
            }
            proof {
                lemma_batch_for_first(remaining@, d, x as int);
            }
            let ghost cur = remaining@;
            let batch = remaining.remove(x);
            proof {
                assert forall|a: int| t + 1 <= a < pending@.len() implies ((batch_for(
                    remaining@,
                    (#[trigger] pending@[a])@,
                ) < 0) == (batch_for(orig, pending@[a]@) < 0)) && (batch_for(orig, pending@[a]@)
                    >= 0 ==> remaining@[batch_for(remaining@, pending@[a]@)] == orig[batch_for(
                    orig,
                    pending@[a]@,
                )]) by {
                    assert(pending@[a]@ != d);
                    lemma_batch_for_remove(cur, x as int, pending@[a]@);
                }
            }
            let ghost before = self@;
            let ghost bv = batch.vectors@;
            assert(batch == orig[batch_for(orig, d)]);
            match self.finish_indexing(doc.as_str(), batch.vectors) {
                Ok(n) => {
                    let ghost after = self@;
                    let ghost pos = choose|pos: Seq<usize>| #[trigger]
                        indexed_as(before, after, doc@, pos, vector_views(batch.vectors@));
                    assert forall|p: int|
                        0 <= p < m.len() && after[p].chunk.document_id == doc@ implies (
                        #[trigger] after[p]).vector is Some by {
                        assert(before[p].chunk == after[p].chunk);
                        assert(is_ranked(pos, p));
                        let b = choose|b: int| 0 <= b < pos.len() && pos[b] == p;
                        assert(after[pos[b] as int].vector == Some(vector_views(batch.vectors@)[b]));
                    }
                    assert forall|a: int, p: int|
                        0 <= a < t + 1 && 0 <= p < m.len() && (#[trigger] after[p]).chunk.document_id
                            == (#[trigger] pending@[a])@ implies after[p].vector is Some by {
                        if a < t && pending@[a]@ != doc@ {
                            assert(before[p].chunk == after[p].chunk);
                            if before[p].chunk.document_id != doc@ {
                                assert(after[p] == before[p]);
                            }
                        }
                    }
                    assert forall|p: int|
                        0 <= p < m.len() && m[p].vector is Some implies (#[trigger] after[p]).vector is Some by {
                        assert(before[p].vector is Some);
                        if before[p].chunk.document_id != doc@ {
                            assert(after[p] == before[p]);
                        }
                    }
                    let ghost bs = orig[batch_for(orig, d)].vectors@;
                    assert(holds_batch(m, after, d, pos, bs)) by {
                        lemma_doc_order_same_chunks(m, before, d, pos);
                        assert forall|b: int| 0 <= b < pos.len() implies after[#[trigger] pos[b] as int].vector
                            == Some(bs[b]@) by {
                            assert(vector_views(bv)[b] == bv[b]@);
                        }
                    }
                    assert forall|a: int| 0 <= a < t + 1 implies batch_held(
                        m,
                        after,
                        orig,
                        (#[trigger] pending@[a])@,
                    ) by {
                        if a < t {
                            let da = pending@[a]@;
                            assert(da != d);
                            assert(batch_held(m, before, orig, da));
                            let pa = choose|pa: Seq<usize>| #[trigger]
                                holds_batch(m, before, da, pa, orig[batch_for(orig, da)].vectors@);
                            assert forall|b: int| 0 <= b < pa.len() implies after[#[trigger] pa[b] as int].vector
                                == Some(orig[batch_for(orig, da)].vectors@[b]@) by {
                                let q = pa[b] as int;
                                assert(m[q].chunk.document_id == da);
                                assert(before[q].chunk == m[q].chunk);
                                assert(after[q] == before[q]);
                            }
                            assert(holds_batch(m, after, da, pa, orig[batch_for(orig, da)].vectors@));
                        } else {
                            assert(pending@[a]@ == d);
                            assert(holds_batch(m, after, d, pos, bs));
                        }
                    }
                    assert forall|q: int|
                        0 <= q < m.len() && !names(pending@.subrange(0, t + 1), m[q].chunk.document_id)
                            implies #[trigger] after[q] == m[q] by {
                        let dq = m[q].chunk.document_id;
                        assert(pending@.subrange(0, t + 1)[t as int] == pending@[t as int]);
                        assert(dq != d);
                        assert(!names(pending@.subrange(0, t as int), dq)) by {
                            if names(pending@.subrange(0, t as int), dq) {
                                let a = choose|a: int|
                                    0 <= a < t && (#[trigger] pending@.subrange(0, t as int)[a])@ == dq;
                                assert(pending@.subrange(0, t + 1)[a] == pending@.subrange(0, t as int)[a]);
                            }
                        }
                        assert(before[q] == m[q]);
                        assert(before[q].chunk.document_id != d);
                    }
                    documents = documents + 1;
                },
                Err(e) => {
                    proof {
                        let pos = choose|pos: Seq<usize>| #[trigger]
                            is_doc_order(before, d, pos) && pos.len() != bv.len();
                        lemma_doc_order_same_chunks(m, before, d, pos);
                        assert(is_doc_order(m, d, pos) && pos.len() != orig[batch_for(
                            orig,
                            d,
                        )].vectors@.len());
                    }
                    return Err(e);
                },
            }
            t = t + 1;
        }
        assert forall|doc: Seq<char>| !#[trigger] is_pending(self@, doc) by {
            if is_pending(self@, doc) {
                let p = choose|p: int| #[trigger] is_first_chunk(self@, doc, p) && self@[p].vector is None;
                lemma_first_chunk_same_chunks(m, self@, doc, p);
                if is_pending(m, doc) {
                    let a = choose|a: int| 0 <= a < pending@.len() && (#[trigger] pending@[a])@ == doc;
                    assert(self@[p].chunk.document_id == pending@[a]@);
                } else {
                    assert(!(is_first_chunk(m, doc, p) && m[p].vector is None));
                }
            }
        }
        assert(lists_pending(m, pending@));
        assert(pending@.subrange(0, t as int) =~= pending@);
        let total = self.count_chunks_named(&pending);
        proof {
            if forall|doc: Seq<char>| !#[trigger] is_pending(m, doc) {
                if pending@.len() > 0 {
                    assert(is_pending(m, pending@[0]@));
                }
                lemma_count_named_none(m, pending@);
            }
        }
        assert(documents == pending@.len());
        proof {
            lemma_count_named_same_chunks(m, self@, pending@);
        }
        assert(total == count_named(m, pending@));
        assert(forall|a: int| 0 <= a < pending@.len() ==> batch_held(m, self@, orig, (#[trigger] pending@[a])@));
        assert(forall|q: int|
            0 <= q < m.len() && !names(pending@, m[q].chunk.document_id) ==> #[trigger] self@[q] == m[q]);
        let counts = (documents, total);
        assert(indexed_all(old(self)@, self@, batches@, pending@, counts));
        let r: Result<(usize, usize), IndexError> = Ok(counts);
        assert(r->Ok_0 == counts);
        assert(exists|l: Seq<String>| #[trigger] indexed_all(old(self)@, self@, batches@, l, r->Ok_0));
        r
    }

    /// The number of stored chunks whose document is named in `l`.
    fn count_chunks_named(&self, l: &Vec<String>) -> (r: usize)
        ensures
            r == count_named(self@, l@),
    {
        let mut total: usize = 0;
        let mut i: usize = 0;
        while i < self.len()
            invariant
                i <= self@.len(),
                total <= i,
                total == count_named(self@.subrange(0, i as int), l@),
            decreases self@.len() - i,
        {
            let d = &self.chunk_at(i).document_id;
            let mut a: usize = 0;
            let mut found = false;
            while a < l.len()
                invariant
                    a <= l@.len(),
                    d@ == self@[i as int].chunk.document_id,
                    found == exists|b: int| 0 <= b < a && (#[trigger] l@[b])@ == d@,
                decreases l@.len() - a,
            {
                if str_eq(l[a].as_str(), d.as_str()) {
                    found = true;
                }
                a = a + 1;
            }
            assert(self@.subrange(0, i + 1).drop_last() =~= self@.subrange(0, i as int));
            assert(self@.subrange(0, i + 1).last() == self@[i as int]);
            assert(found == names(l@, d@));
            if found {
                total = total + 1;
            }
            i = i + 1;
        }
        assert(self@.subrange(0, i as int) =~= self@);
        total
    }
}

} // verus!
