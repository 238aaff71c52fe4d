use local_rag::chunker::{chunk_text, Chunk, ChunkConfig};
use local_rag::embeddings::EMBEDDING_DIM;
use local_rag::indexing::{DocumentVectors, EmbedderState};
use local_rag::store::{IndexError, RagStore};

fn chunk(id: &str, doc: &str, index: usize, content: &str, start: usize, end: usize) -> Chunk {
    Chunk {
        id: id.to_string(),
        document_id: doc.to_string(),
        chunk_index: index,
        content: content.to_string(),
        start_offset: start,
        end_offset: end,
    }
}

fn bits(v: &[f32]) -> Vec<u32> {
    v.iter().map(|f| f.to_bits()).collect()
}

fn dot(a: &[f32], b: &[u32]) -> f32 {
    a.iter().zip(b.iter()).map(|(x, y)| x * f32::from_bits(*y)).sum()
}

fn scores_for(store: &RagStore, query: &[f32]) -> Vec<u32> {
    store
        .embedded_vectors()
        .iter()
        .map(|v| dot(query, v).to_bits())
        .collect()
}

/// A fake embedder: a one-hot vector per text, chosen by its length.
fn embed(texts: &[String]) -> Vec<Vec<u32>> {
    texts
        .iter()
        .map(|t| {
            let mut v = vec![0.0f32; 4];
            v[t.len() % 4] = 1.0;
            bits(&v)
        })
        .collect()
}

fn index_pending(store: &mut RagStore) -> Result<(usize, usize), IndexError> {
    let pending = store.pending_documents();
    let batches = pending
        .iter()
        .map(|d| DocumentVectors {
            document_id: d.clone(),
            vectors: embed(&store.document_texts(d)),
        })
        .collect();
    store.index_all_pending(batches)
}

#[test]
fn chunker_test_database_operations() {
    let mut store = RagStore::new();
    let chunks = vec![
        chunk("doc-1-0", "doc-1", 0, "First chunk", 0, 11),
        chunk("doc-1-1", "doc-1", 1, "Second chunk", 9, 21),
    ];

    store.save_chunks(&chunks);

    let loaded = store.get_document_chunks("doc-1");
    assert_eq!(loaded.len(), 2);
    assert_eq!(loaded[0].content, "First chunk");
    assert_eq!(loaded[1].content, "Second chunk");

    let (total, docs) = store.get_chunk_stats();
    assert_eq!(total, 2);
    assert_eq!(docs, 1);
}

#[test]
fn vector_store_test_database_operations() {
    let mut store = RagStore::new();
    let c = chunk("doc-1-0", "doc-1", 0, "Test content", 0, 12);
    store.save_chunks(&[c]);

    let embedding: Vec<f32> = (0..EMBEDDING_DIM)
        .map(|i| i as f32 / EMBEDDING_DIM as f32)
        .collect();
    store.save_embedding("doc-1-0", "doc-1", bits(&embedding)).unwrap();

    let retrieved = store.get_embedding("doc-1-0").unwrap();
    assert_eq!(retrieved.len(), EMBEDDING_DIM);

    let (total, docs) = store.get_embedding_stats();
    assert_eq!(total, 1);
    assert_eq!(docs, 1);

    let results = store.search_similar(&scores_for(&store, &embedding), 10);
    assert_eq!(results.len(), 1);
    assert!(f32::from_bits(results[0].score_bits) > 0.99);
}

#[test]
fn document_chunks_come_in_index_order() {
    let mut store = RagStore::new();
    store.save_chunks(&[
        chunk("a-2", "a", 2, "third", 0, 5),
        chunk("b-0", "b", 0, "other", 0, 5),
        chunk("a-0", "a", 0, "first", 0, 5),
        chunk("a-1", "a", 1, "second", 0, 6),
    ]);
    let ids: Vec<String> = store.get_document_chunks("a").iter().map(|c| c.id.clone()).collect();
    assert_eq!(ids, vec!["a-0", "a-1", "a-2"]);
    assert_eq!(store.document_texts("a"), vec!["first", "second", "third"]);
    assert!(store.get_document_chunks("missing").is_empty());
    assert_eq!(store.get_chunk_stats(), (4, 2));
}

#[test]
fn saving_a_chunk_again_replaces_it_and_its_vector() {
    let mut store = RagStore::new();
    store.save_chunks(&[chunk("x-0", "x", 0, "old", 0, 3)]);
    store.save_embedding("x-0", "x", vec![1, 2]).unwrap();
    assert!(store.has_embedding("x-0"));
    store.save_chunks(&[chunk("x-0", "x", 0, "new", 0, 3)]);
    assert_eq!(store.len(), 1);
    assert_eq!(store.get_document_chunks("x")[0].content, "new");
    assert!(!store.has_embedding("x-0"));
}

#[test]
fn save_embedding_is_insert_or_replace() {
    let mut store = RagStore::new();
    store.save_chunks(&[chunk("x-0", "x", 0, "t", 0, 1)]);
    store.save_embedding("x-0", "x", vec![1, 2, 3]).unwrap();
    store.save_embedding("x-0", "x", vec![7]).unwrap();
    assert_eq!(store.get_embedding("x-0"), Some(vec![7]));
    assert_eq!(store.get_embedding_stats(), (1, 1));
}

#[test]
fn save_embedding_for_unknown_chunk_fails() {
    let mut store = RagStore::new();
    store.save_chunks(&[chunk("x-0", "x", 0, "t", 0, 1)]);
    assert_eq!(store.save_embedding("y-0", "x", vec![1]), Err(IndexError::ChunkNotFound));
    assert_eq!(store.save_embedding("x-0", "y", vec![1]), Err(IndexError::ChunkNotFound));
    assert_eq!(store.get_embedding("x-0"), None);
    assert!(!store.has_embedding("y-0"));
}

#[test]
fn search_returns_at_most_k_sorted_by_score() {
    let mut store = RagStore::new();
    let chunks = chunk_text(
        "d",
        "Alpha one. Beta two. Gamma three. Delta four. Epsilon five.",
        &ChunkConfig {
            chunk_size: 12,
            overlap: 0,
        },
    );
    store.save_chunks(&chunks);
    let vectors: Vec<Vec<f32>> = vec![
        vec![0.1, 0.0],
        vec![0.9, 0.1],
        vec![0.5, 0.5],
        vec![-0.3, 0.2],
        vec![0.7, 0.0],
    ];
    for (c, v) in chunks.iter().zip(vectors.iter()) {
        store.save_embedding(&c.id, "d", bits(v)).unwrap();
    }
    let query = vec![1.0f32, 0.0];
    let results = store.search_similar(&scores_for(&store, &query), 3);
    assert_eq!(results.len(), 3);
    let got: Vec<f32> = results.iter().map(|r| f32::from_bits(r.score_bits)).collect();
    assert_eq!(got, vec![0.9, 0.7, 0.5]);
    assert_eq!(results[0].chunk_id, chunks[1].id);
    assert_eq!(results[0].content, chunks[1].content);
    assert_eq!(store.search_similar(&scores_for(&store, &query), 0).len(), 0);
    assert_eq!(store.search_similar(&scores_for(&store, &query), 99).len(), 5);
}

#[test]
fn search_with_own_vector_ranks_it_first() {
    let mut store = RagStore::new();
    store.save_chunks(&[
        chunk("a-0", "a", 0, "x", 0, 1),
        chunk("a-1", "a", 1, "y", 0, 1),
        chunk("b-0", "b", 0, "z", 0, 1),
    ]);
    let s = 0.5f32.sqrt();
    store.save_embedding("a-0", "a", bits(&[1.0, 0.0])).unwrap();
    store.save_embedding("a-1", "a", bits(&[s, s])).unwrap();
    store.save_embedding("b-0", "b", bits(&[0.0, 1.0])).unwrap();
    let results = store.search_similar(&scores_for(&store, &[s, s]), 3);
    assert_eq!(results[0].chunk_id, "a-1");
}

#[test]
fn equal_scores_keep_store_order() {
    let mut store = RagStore::new();
    store.save_chunks(&[
        chunk("a-0", "a", 0, "x", 0, 1),
        chunk("a-1", "a", 1, "y", 0, 1),
    ]);
    store.save_embedding("a-0", "a", bits(&[1.0])).unwrap();
    store.save_embedding("a-1", "a", bits(&[1.0])).unwrap();
    let results = store.search_similar(&scores_for(&store, &[1.0]), 2);
    assert_eq!(results[0].chunk_id, "a-0");
    assert_eq!(results[1].chunk_id, "a-1");
}

#[test]
fn deleting_a_document_cascades() {
    let mut store = RagStore::new();
    store.save_chunks(&[
        chunk("a-0", "a", 0, "x", 0, 1),
        chunk("b-0", "b", 0, "y", 0, 1),
        chunk("a-1", "a", 1, "z", 0, 1),
    ]);
    for id in ["a-0", "b-0", "a-1"] {
        let doc = &id[0..1];
        store.save_embedding(id, doc, bits(&[1.0])).unwrap();
    }
    store.delete_document_chunks("a");
    assert_eq!(store.get_chunk_stats(), (1, 1));
    assert_eq!(store.get_embedding_stats(), (1, 1));
    assert!(store.get_document_chunks("a").is_empty());
    assert!(!store.has_embedding("a-0"));
    let results = store.search_similar(&scores_for(&store, &[1.0]), 10);
    assert_eq!(results.len(), 1);
    assert!(results.iter().all(|r| r.document_id != "a"));
}

#[test]
fn deleting_document_embeddings_keeps_chunks() {
    let mut store = RagStore::new();
    store.save_chunks(&[chunk("a-0", "a", 0, "x", 0, 1), chunk("b-0", "b", 0, "y", 0, 1)]);
    store.save_embedding("a-0", "a", vec![1]).unwrap();
    store.save_embedding("b-0", "b", vec![2]).unwrap();
    store.delete_document_embeddings("a");
    assert_eq!(store.get_chunk_stats(), (2, 2));
    assert_eq!(store.get_embedding_stats(), (1, 1));
    assert_eq!(store.pending_documents(), vec!["a"]);
}

#[test]
fn index_all_pending_twice_embeds_nothing_the_second_time() {
    let mut store = RagStore::new();
    let config = ChunkConfig {
        chunk_size: 20,
        overlap: 5,
    };
    store.save_chunks(&chunk_text("one", "First document. It has a few sentences in it.", &config));
    store.save_chunks(&chunk_text("two", "Short.", &config));
    let n_chunks = store.get_chunk_stats().0;
    assert_eq!(index_pending(&mut store), Ok((2, n_chunks)));
    assert_eq!(store.get_embedding_stats(), (n_chunks, 2));
    assert!(store.pending_documents().is_empty());
    assert_eq!(index_pending(&mut store), Ok((0, 0)));
    assert_eq!(store.get_embedding_stats(), (n_chunks, 2));
}

#[test]
fn coverage_heuristic_checks_only_the_first_chunk() {
    let mut store = RagStore::new();
    store.save_chunks(&[chunk("a-0", "a", 0, "x", 0, 1), chunk("a-1", "a", 1, "y", 0, 1)]);
    store.save_embedding("a-0", "a", vec![1]).unwrap();
    assert!(store.pending_documents().is_empty());
    assert_eq!(index_pending(&mut store), Ok((0, 0)));
    assert!(!store.has_embedding("a-1"));
}

#[test]
fn missing_batch_is_reported() {
    let mut store = RagStore::new();
    store.save_chunks(&[chunk("a-0", "a", 0, "x", 0, 1)]);
    assert_eq!(store.index_all_pending(Vec::new()), Err(IndexError::MissingBatch));
    assert!(!store.has_embedding("a-0"));
}

#[test]
fn begin_indexing_needs_a_ready_embedder() {
    let mut store = RagStore::new();
    store.save_chunks(&[chunk("a-1", "a", 1, "later", 0, 5), chunk("a-0", "a", 0, "first", 0, 5)]);
    assert_eq!(
        store.begin_indexing(EmbedderState::Uninitialized, "a"),
        Err(IndexError::NotReady)
    );
    assert_eq!(
        store.begin_indexing(EmbedderState::Ready, "a"),
        Ok(vec!["first".to_string(), "later".to_string()])
    );
    assert_eq!(store.begin_indexing(EmbedderState::Ready, "none"), Ok(Vec::new()));
}

#[test]
fn finish_indexing_is_all_or_nothing() {
    let mut store = RagStore::new();
    store.save_chunks(&[chunk("a-1", "a", 1, "later", 0, 5), chunk("a-0", "a", 0, "first", 0, 5)]);
    assert_eq!(
        store.finish_indexing("a", vec![vec![1]]),
        Err(IndexError::BatchSizeMismatch)
    );
    assert_eq!(store.get_embedding_stats(), (0, 0));
    assert_eq!(store.finish_indexing("a", vec![vec![10], vec![11]]), Ok(2));
    assert_eq!(store.get_embedding("a-0"), Some(vec![10]));
    assert_eq!(store.get_embedding("a-1"), Some(vec![11]));
    assert_eq!(store.finish_indexing("empty", Vec::new()), Ok(0));
}

#[test]
fn index_all_pending_rejects_a_batch_of_the_wrong_size() {
    let mut store = RagStore::new();
    store.save_chunks(&[chunk("a-0", "a", 0, "x", 0, 1), chunk("a-1", "a", 1, "y", 0, 1)]);
    let batches = vec![DocumentVectors {
        document_id: "a".to_string(),
        vectors: vec![vec![1]],
    }];
    assert_eq!(store.index_all_pending(batches), Err(IndexError::BatchSizeMismatch));
    assert_eq!(store.get_embedding_stats(), (0, 0));
    let batches = vec![
        DocumentVectors {
            document_id: "other".to_string(),
            vectors: vec![],
        },
        DocumentVectors {
            document_id: "a".to_string(),
            vectors: vec![vec![1], vec![2]],
        },
    ];
    assert_eq!(store.index_all_pending(batches), Ok((1, 2)));
    assert_eq!(store.get_embedding("a-1"), Some(vec![2]));
}
