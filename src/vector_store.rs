//! Binary encoding of embedding vectors, and ranking of stored vectors by
//! score.
//!
//! A vector is handled as the bit patterns of its IEEE-754 single-precision
//! components (what `f32::to_bits` gives), so encoding and decoding are exact
//! by construction.
use vstd::prelude::*;

verus! {

/// The four little-endian bytes of `x`.
pub open spec fn le_bytes(x: u32) -> Seq<u8> {
    seq![x as u8, (x >> 8u32) as u8, (x >> 16u32) as u8, (x >> 24u32) as u8]
}

/// The `u32` whose little-endian bytes are `b0, b1, b2, b3`.
pub open spec fn from_le(b0: u8, b1: u8, b2: u8, b3: u8) -> u32 {
    (b0 as u32) | ((b1 as u32) << 8u32) | ((b2 as u32) << 16u32) | ((b3 as u32) << 24u32)
}

/// A vector's bytes: each component as four little-endian bytes, in order,
/// with no header.
pub open spec fn encoded(v: Seq<u32>) -> Seq<u8>
    decreases v.len(),
{
    if v.len() == 0 {
        seq![]
    } else {
        le_bytes(v[0]) + encoded(v.drop_first())
    }
}

/// The vector read from `b`, four bytes per component; a trailing group of
/// fewer than four bytes is ignored.
pub open spec fn decoded(b: Seq<u8>) -> Seq<u32>
    decreases b.len(),
{
    if b.len() < 4 {
        seq![]
    } else {
        seq![from_le(b[0], b[1], b[2], b[3])] + decoded(b.subrange(4, b.len() as int))
    }
}

proof fn lemma_from_le_of_le_bytes(x: u32)
    ensures
        from_le(x as u8, (x >> 8u32) as u8, (x >> 16u32) as u8, (x >> 24u32) as u8) == x,
{
    assert(((x as u8) as u32) | (((x >> 8u32) as u8) as u32) << 8u32 | (((x >> 16u32) as u8) as u32)
        << 16u32 | (((x >> 24u32) as u8) as u32) << 24u32 == x) by (bit_vector);
}

proof fn lemma_le_bytes_of_from_le(b0: u8, b1: u8, b2: u8, b3: u8)
    ensures
        le_bytes(from_le(b0, b1, b2, b3)) == seq![b0, b1, b2, b3],
{
    let x = from_le(b0, b1, b2, b3);
    assert(x == (b0 as u32) | ((b1 as u32) << 8u32) | ((b2 as u32) << 16u32) | ((b3 as u32)
        << 24u32));
    assert(x as u8 == b0 && (x >> 8u32) as u8 == b1 && (x >> 16u32) as u8 == b2 && (x >> 24u32) as u8
        == b3) by (bit_vector)
        requires
            x == (b0 as u32) | ((b1 as u32) << 8u32) | ((b2 as u32) << 16u32) | ((b3 as u32)
                << 24u32),
    ;
    assert(le_bytes(x) =~= seq![b0, b1, b2, b3]);
}

/// Encoding takes exactly four bytes per component.
pub proof fn lemma_encoded_len(v: Seq<u32>)
    ensures
        encoded(v).len() == 4 * v.len(),
    decreases v.len(),
{
    if v.len() > 0 {
        lemma_encoded_len(v.drop_first());
    }
}

/// Decoding the encoding of any vector gives back the same components, bit
/// for bit.
pub proof fn lemma_vector_round_trip(v: Seq<u32>)
    ensures
        decoded(encoded(v)) == v,
    decreases v.len(),
{
    if v.len() > 0 {
        let b = encoded(v);
        let rest = encoded(v.drop_first());
        lemma_vector_round_trip(v.drop_first());
        lemma_encoded_len(v.drop_first());
        lemma_from_le_of_le_bytes(v[0]);
        assert(b.subrange(4, b.len() as int) =~= rest);
        assert(decoded(b) =~= v);
    }
}

/// Encoding what was decoded from a whole number of four-byte groups gives
/// back the same bytes.
pub proof fn lemma_bytes_round_trip(b: Seq<u8>)
    requires
        b.len() % 4 == 0,
    ensures
        encoded(decoded(b)) == b,
    decreases b.len(),
{
    if b.len() >= 4 {
        let rest = b.subrange(4, b.len() as int);
        lemma_bytes_round_trip(rest);
        lemma_le_bytes_of_from_le(b[0], b[1], b[2], b[3]);
        let d = decoded(b);
        assert(d.drop_first() =~= decoded(rest));
        assert(encoded(d) =~= b);
    } else {
        assert(b =~= seq![]);
    }
}

/// The bytes stored for a vector: four little-endian bytes per component.
pub fn embedding_to_bytes(embedding: &[u32]) -> (r: Vec<u8>)
    ensures
        r@ == encoded(embedding@),
        r@.len() == 4 * embedding@.len(),
{
    let mut out: Vec<u8> = Vec::new();
    let mut i: usize = 0;
    assert(embedding@.subrange(0, embedding@.len() as int) =~= embedding@);
    assert(out@ + encoded(embedding@) =~= encoded(embedding@));
    while i < embedding.len()
        invariant
            i <= embedding@.len(),
            out@ + encoded(embedding@.subrange(i as int, embedding@.len() as int)) == encoded(
                embedding@,
            ),
        decreases embedding@.len() - i,
    {
        let x = embedding[i];
        let ghost before = out@;
        let ghost tail = embedding@.subrange(i as int, embedding@.len() as int);
        out.push(x as u8);
        out.push((x >> 8u32) as u8);
        out.push((x >> 16u32) as u8);
        out.push((x >> 24u32) as u8);
        assert(tail.drop_first() =~= embedding@.subrange(i + 1, embedding@.len() as int));
        assert(out@ =~= before + le_bytes(x));
        assert(out@ + encoded(tail.drop_first()) =~= before + encoded(tail));
        i = i + 1;
    }
    assert(embedding@.subrange(i as int, embedding@.len() as int) =~= seq![]);
    assert(out@ =~= encoded(embedding@));
    proof {
        lemma_encoded_len(embedding@);
    }
    out
}

/// The vector stored as `bytes`, four little-endian bytes per component.
pub fn bytes_to_embedding(bytes: &[u8]) -> (r: Vec<u32>)
    ensures
        r@ == decoded(bytes@),
{
    let mut out: Vec<u32> = Vec::new();
    let mut i: usize = 0;
    assert(bytes@.subrange(0, bytes@.len() as int) =~= bytes@);
    assert(out@ + decoded(bytes@) =~= decoded(bytes@));
    while bytes.len() - i >= 4
        invariant
            i <= bytes@.len(),
            out@ + decoded(bytes@.subrange(i as int, bytes@.len() as int)) == decoded(bytes@),
        decreases bytes@.len() - i,
    {
        let ghost before = out@;
        let ghost tail = bytes@.subrange(i as int, bytes@.len() as int);
        let x = (bytes[i] as u32) | ((bytes[i + 1] as u32) << 8u32) | ((bytes[i + 2] as u32)
            << 16u32) | ((bytes[i + 3] as u32) << 24u32);
        out.push(x);
        assert(tail.subrange(4, tail.len() as int) =~= bytes@.subrange(
            i + 4,
            bytes@.len() as int,
        ));
        assert(out@ + decoded(tail.subrange(4, tail.len() as int)) =~= before + decoded(tail));
        i = i + 4;
    }
    assert(decoded(bytes@.subrange(i as int, bytes@.len() as int)) =~= seq![]);
    assert(out@ =~= decoded(bytes@));
    out
}

/// Ranking order on positions: a higher key first, and among equal keys the
/// earlier position first.
pub open spec fn ranks_before(keys: Seq<u64>, i: int, j: int) -> bool {
    keys[i] > keys[j] || (keys[i] == keys[j] && i < j)
}

/// Position `i` is among the ranked positions `r`.
pub open spec fn is_ranked(r: Seq<usize>, i: int) -> bool {
    exists|a: int| 0 <= a < r.len() && r[a] == i
}

/// `r` lists the first `min(k, n)` of the positions `0..n` in ranking order:
/// they are in that order, and each position left out comes after all of
/// them.
pub open spec fn is_top_k(keys: Seq<u64>, n: int, k: int, r: Seq<usize>) -> bool {
    &&& r.len() == if k < n {
        k
    } else {
        n
    }
    &&& forall|a: int| 0 <= a < r.len() ==> #[trigger] r[a] < n
    &&& forall|a: int, b: int|
        0 <= a < b < r.len() ==> ranks_before(keys, #[trigger] r[a] as int, #[trigger] r[b] as int)
    &&& forall|i: int, a: int|
        #![trigger is_ranked(r, i), r[a]]
        0 <= i < n && !is_ranked(r, i) && 0 <= a < r.len() ==> ranks_before(keys, r[a] as int, i)
}

/// A position whose key is not below any other's comes first: when at least
/// one result is asked for, the first result has that key, and it is the
/// position itself unless an earlier position has the same key. It is
/// returned unless every returned position ties with it and comes before
/// it.
pub proof fn lemma_top_key_first(keys: Seq<u64>, n: int, k: int, r: Seq<usize>, i: int)
    requires
        is_top_k(keys, n, k, r),
        n <= keys.len(),
        0 <= i < n,
        1 <= k,
        forall|j: int| 0 <= j < n ==> keys[j] <= keys[i],
    ensures
        r.len() > 0,
        keys[r[0] as int] == keys[i],
        (forall|j: int| 0 <= j < i ==> keys[j] < keys[i]) ==> r[0] == i,
        !is_ranked(r, i) ==> forall|a: int|
            0 <= a < r.len() ==> keys[#[trigger] r[a] as int] == keys[i] && r[a] < i,
{
    if !is_ranked(r, i) {
        assert forall|a: int| 0 <= a < r.len() implies keys[#[trigger] r[a] as int] == keys[i]
            && r[a] < i by {
            assert(ranks_before(keys, r[a] as int, i));
        }
    }
    assert(r.len() > 0);
    assert(r[0] < n);
    if is_ranked(r, i) {
        let a = choose|a: int| 0 <= a < r.len() && r[a] == i;
        if a > 0 {
            assert(ranks_before(keys, r[0] as int, r[a] as int));
        }
    } else {
        assert(ranks_before(keys, r[0] as int, i));
    }
}

/// The positions of the `k` highest keys, highest first; equal keys keep
/// their order.
pub fn top_k(keys: &[u64], k: usize) -> (r: Vec<usize>)
    ensures
        is_top_k(keys@, keys@.len() as int, k as int, r@),
        keys@.len() <= k ==> forall|i: int| 0 <= i < keys@.len() ==> is_ranked(r@, i),
{
    let mut order: Vec<usize> = Vec::new();
    let mut i: usize = 0;
    while i < keys.len()
        invariant
            i <= keys@.len(),
            is_top_k(keys@, i as int, k as int, order@),
            i <= k ==> forall|j: int| 0 <= j < i ==> is_ranked(order@, j),
        decreases keys@.len() - i,
    {
        let key = keys[i];
        let mut p: usize = 0;
        while p < order.len() && keys[order[p]] >= key
            invariant
                p <= order@.len(),
                is_top_k(keys@, i as int, k as int, order@),
                i <= k ==> forall|j: int| 0 <= j < i ==> is_ranked(order@, j),
                i < keys@.len(),
                key == keys@[i as int],
                forall|a: int| 0 <= a < p ==> keys@[#[trigger] order@[a] as int] >= key,
            decreases order@.len() - p,
        {
            p = p + 1;
        }
        let ghost old_order = order@;
        if p < k {
            order.insert(p, i);
            proof {
                assert forall|a: int| 0 <= a < order@.len() implies (#[trigger] order@[a]) < i + 1 by {
                    if a < p {
                        assert(order@[a] == old_order[a]);
                    } else if a > p {
                        assert(order@[a] == old_order[a - 1]);
                    }
                }
                assert forall|a: int, b: int| 0 <= a < b < order@.len() implies ranks_before(
                    keys@,
                    #[trigger] order@[a] as int,
                    #[trigger] order@[b] as int,
                ) by {
                    if a < p && b < p {
                        assert(order@[a] == old_order[a] && order@[b] == old_order[b]);
                    } else if a < p && b == p {
                        assert(order@[a] == old_order[a]);
                    } else if a < p {
                        assert(order@[a] == old_order[a] && order@[b] == old_order[b - 1]);
                    } else if a == p {
                        assert(order@[b] == old_order[b - 1]);
                        assert(keys@[old_order[p as int] as int] < key);
                    } else {
                        assert(order@[a] == old_order[a - 1] && order@[b] == old_order[b - 1]);
                    }
                }
                assert forall|j: int, a: int|
                    #![trigger is_ranked(order@, j), order@[a]]
                    0 <= j < i + 1 && !is_ranked(order@, j) && 0 <= a < order@.len() implies ranks_before(
                    keys@,
                    order@[a] as int,
                    j,
                ) by {
                    if j < i {
                        assert(!is_ranked(old_order, j)) by {
                            if is_ranked(old_order, j) {
                                let b = choose|b: int| 0 <= b < old_order.len() && old_order[b] == j;
                                if b < p {
                                    assert(order@[b] == j);
                                } else {
                                    assert(order@[b + 1] == j);
                                }
                            }
                        }
                        if a < p {
                            assert(order@[a] == old_order[a]);
                        } else if a > p {
                            assert(order@[a] == old_order[a - 1]);
                        } else {
                            assert(is_ranked(old_order, j) ==> is_ranked(order@, j)) by {
                                if is_ranked(old_order, j) {
                                    let b = choose|b: int|
                                        0 <= b < old_order.len() && old_order[b] == j;
                                    if b < p {
                                        assert(order@[b] == j);
                                    } else {
                                        assert(order@[b + 1] == j);
                                    }
                                }
                            }
                            assert(ranks_before(keys@, old_order[p as int] as int, j));
                        }
                    } else {
                        assert(order@[p as int] == i);
                    }
                }
            }
            assert(i + 1 <= k ==> forall|j: int| 0 <= j < i + 1 ==> is_ranked(order@, j)) by {
                if i + 1 <= k {
                    assert forall|j: int| 0 <= j < i + 1 implies is_ranked(order@, j) by {
                        if j < i {
                            assert(is_ranked(old_order, j));
                            let b = choose|b: int| 0 <= b < old_order.len() && old_order[b] == j;
                            if b < p {
                                assert(order@[b] == j);
                            } else {
                                assert(order@[b + 1] == j);
                            }
                        } else {
                            assert(order@[p as int] == i);
                        }
                    }
                }
            }
            if order.len() > k {
                let ghost full = order@;
                order.pop();
                proof {
                    assert forall|j: int, a: int|
                        #![trigger is_ranked(order@, j), order@[a]]
                        0 <= j < i + 1 && !is_ranked(order@, j) && 0 <= a < order@.len() implies ranks_before(
                        keys@,
                        order@[a] as int,
                        j,
                    ) by {
                        assert(order@[a] == full[a]);
                        if j == full[k as int] {
                            assert(ranks_before(keys@, full[a] as int, full[k as int] as int));
                        } else {
                            assert(!is_ranked(full, j)) by {
                                if is_ranked(full, j) {
                                    let b = choose|b: int| 0 <= b < full.len() && full[b] == j;
                                    assert(order@[b] == j);
                                }
                            }
                        }
                    }
                }
            }
        } else {
            proof {
                assert forall|j: int, a: int|
                    #![trigger is_ranked(order@, j), order@[a]]
                    0 <= j < i + 1 && !is_ranked(order@, j) && 0 <= a < order@.len() implies ranks_before(
                    keys@,
                    order@[a] as int,
                    j,
                ) by {
                    if j == i {
                        assert(keys@[order@[a] as int] >= key);
                    }
                }
            }
        }
        i = i + 1;
    }
    order
}

/// Where an `f32` score, given by its bits, falls in a total order that
/// agrees with the order of the real values it stands for (with `-0.0` just
/// below `+0.0`): non-negative scores keep their bits and go above all
/// negative ones, whose bits are reversed.
pub open spec fn score_key(bits: u32) -> u32 {
    if bits >= 0x8000_0000 {
        (0xFFFF_FFFF - bits) as u32
    } else {
        (bits + 0x8000_0000) as u32
    }
}

/// The ranking key of score `bits`.
pub fn score_rank_key(bits: u32) -> (r: u32)
    ensures
        r == score_key(bits),
{
    if bits >= 0x8000_0000 {
        0xFFFF_FFFF - bits
    } else {
        bits + 0x8000_0000
    }
}

/// The ranking keys of the first `n` scores.
pub open spec fn score_keys(scores: Seq<u32>, n: int) -> Seq<u64> {
    Seq::new(n as nat, |j: int| score_key(scores[j]) as u64)
}

/// One search hit: a chunk, its document, its text and its score (the bits
/// of an `f32`).
#[derive(Debug, Clone)]
pub struct SearchResult {
    pub chunk_id: String,
    pub document_id: String,
    pub content: String,
    pub score_bits: u32,
}

} // verus!
