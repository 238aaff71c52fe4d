use local_rag::chunker::{chunk_text, Chunk, ChunkConfig};

fn chars(s: &str) -> Vec<char> {
    s.chars().collect()
}

#[test]
fn test_small_text_single_chunk() {
    let config = ChunkConfig {
        chunk_size: 100,
        overlap: 20,
    };
    let chunks = chunk_text("doc-1", "Small text.", &config);
    assert_eq!(chunks.len(), 1);
    assert_eq!(chunks[0].content, "Small text.");
}

#[test]
fn test_chunking_with_overlap() {
    let config = ChunkConfig {
        chunk_size: 50,
        overlap: 10,
    };
    let text = "This is the first sentence. This is the second sentence. This is the third sentence.";
    let chunks = chunk_text("doc-1", text, &config);

    assert!(chunks.len() > 1);

    for (i, chunk) in chunks.iter().enumerate() {
        assert_eq!(chunk.chunk_index, i);
        assert_eq!(chunk.document_id, "doc-1");
    }
}

#[test]
fn test_chunk_break_at_sentence() {
    let config = ChunkConfig {
        chunk_size: 40,
        overlap: 5,
    };
    let text = "Hello world. This is a test. Another sentence here.";
    let chunks = chunk_text("doc-1", text, &config);

    assert!(chunks.len() >= 1);

    for chunk in &chunks {
        assert!(!chunk.content.is_empty());
    }
}

#[test]
fn test_empty_text() {
    let config = ChunkConfig::default();
    let chunks = chunk_text("doc-1", "", &config);
    assert!(chunks.is_empty());
}

#[test]
fn test_whitespace_only() {
    let config = ChunkConfig::default();
    let chunks = chunk_text("doc-1", "   \n\n   ", &config);
    assert!(chunks.is_empty());
}

#[test]
fn test_utf8_multibyte_chars() {
    let config = ChunkConfig {
        chunk_size: 20,
        overlap: 5,
    };
    let text = "Hello \u{201C}world\u{201D} with émojis 🎉 and más text here.";
    let chunks = chunk_text("doc-1", text, &config);

    assert!(!chunks.is_empty());

    for chunk in &chunks {
        assert!(!chunk.content.is_empty());
        let _ = chunk.content.chars().count();
    }
}

#[test]
fn default_config_values() {
    let config = ChunkConfig::default();
    assert_eq!(config.chunk_size, 1000);
    assert_eq!(config.overlap, 200);
}

#[test]
fn small_text_offsets_and_id() {
    let config = ChunkConfig {
        chunk_size: 100,
        overlap: 20,
    };
    let chunks = chunk_text("doc-1", "Small text.", &config);
    assert_eq!(chunks.len(), 1);
    assert_eq!(chunks[0].start_offset, 0);
    assert_eq!(chunks[0].end_offset, 11);
    assert_eq!(chunks[0].chunk_index, 0);
    assert_eq!(chunks[0].id, "doc-1-0");
}

#[test]
fn text_is_trimmed_before_offsets() {
    let config = ChunkConfig {
        chunk_size: 100,
        overlap: 20,
    };
    let chunks = chunk_text("d", "  \t Small text.\n\n ", &config);
    assert_eq!(chunks.len(), 1);
    assert_eq!(chunks[0].content, "Small text.");
    assert_eq!(chunks[0].end_offset, 11);
}

#[test]
fn text_exactly_chunk_size_is_one_chunk() {
    let config = ChunkConfig {
        chunk_size: 11,
        overlap: 0,
    };
    let chunks = chunk_text("d", "Small text.", &config);
    assert_eq!(chunks.len(), 1);
    assert_eq!(chunks[0].end_offset, 11);
}

#[test]
fn sentence_break_exact_ranges() {
    // Tentative end 40; the last ". " before it ends "This is a test.".
    // The next window starts at 35, inside "Another".
    let config = ChunkConfig {
        chunk_size: 40,
        overlap: 5,
    };
    let text = "Hello world. This is a test. Another sentence here.";
    let chunks = chunk_text("doc-1", text, &config);
    assert_eq!(chunks[0].start_offset, 0);
    assert_eq!(chunks[0].end_offset, 28);
    assert_eq!(chunks[0].content, "Hello world. This is a test.");
    assert_eq!(chunks[1].start_offset, 35);
    assert_eq!(chunks[1].end_offset, 51);
    assert_eq!(chunks[1].content, "r sentence here.");
    assert_eq!(chunks.len(), 2);
}

#[test]
fn paragraph_break_preferred() {
    let config = ChunkConfig {
        chunk_size: 20,
        overlap: 0,
    };
    // A sentence end at 5 and a paragraph break at 12..14; the paragraph wins.
    let text = "Ab. cd efgh.\n\nxyz uvw rst opq";
    let chunks = chunk_text("p", text, &config);
    assert_eq!(chunks[0].end_offset, 14);
    assert_eq!(chunks[0].content, "Ab. cd efgh.");
}

#[test]
fn word_break_when_no_sentence() {
    let config = ChunkConfig {
        chunk_size: 10,
        overlap: 0,
    };
    let text = "alpha beta gamma delta";
    let chunks = chunk_text("w", text, &config);
    assert_eq!(chunks[0].end_offset, 6);
    assert_eq!(chunks[0].content, "alpha");
}

#[test]
fn hard_cut_without_break_point() {
    let config = ChunkConfig {
        chunk_size: 4,
        overlap: 0,
    };
    let chunks = chunk_text("h", "abcdefghij", &config);
    let contents: Vec<&str> = chunks.iter().map(|c| c.content.as_str()).collect();
    assert_eq!(contents, vec!["abcd", "efgh", "ij"]);
    assert_eq!(chunks[2].start_offset, 8);
    assert_eq!(chunks[2].end_offset, 10);
    assert_eq!(chunks[2].id, "h-2");
}

#[test]
fn overlap_at_least_chunk_size_still_advances() {
    let config = ChunkConfig {
        chunk_size: 4,
        overlap: 10,
    };
    let chunks = chunk_text("o", "abcdefgh", &config);
    let starts: Vec<usize> = chunks.iter().map(|c| c.start_offset).collect();
    assert_eq!(starts, vec![0, 2, 4, 6]);
}

#[test]
fn zero_chunk_size_gives_no_chunks() {
    let config = ChunkConfig {
        chunk_size: 0,
        overlap: 0,
    };
    let chunks = chunk_text("z", "abc", &config);
    assert!(chunks.is_empty());
}

#[test]
fn multibyte_offsets_are_character_indices() {
    let config = ChunkConfig {
        chunk_size: 20,
        overlap: 5,
    };
    let text = "Hello \u{201C}world\u{201D} with émojis 🎉 and más text here.";
    let total = chars(text).len();
    let chunks = chunk_text("doc-1", text, &config);
    let all = chars(text);
    for (i, c) in chunks.iter().enumerate() {
        assert_eq!(c.chunk_index, i);
        assert!(c.start_offset < c.end_offset);
        assert!(c.end_offset <= total);
        let slice: String = all[c.start_offset..c.end_offset].iter().collect();
        assert_eq!(slice.trim(), c.content);
    }
    assert_eq!(chunks[0].start_offset, 0);
    assert_eq!(chunks.last().unwrap().end_offset, total);
}

#[test]
fn cjk_and_emoji_text() {
    let config = ChunkConfig {
        chunk_size: 5,
        overlap: 1,
    };
    let text = "日本語のテキスト🎉🎉 です。";
    let chunks = chunk_text("c", text, &config);
    assert!(!chunks.is_empty());
    let total = chars(text).len();
    for c in &chunks {
        assert!(c.start_offset < c.end_offset && c.end_offset <= total);
        assert!(!c.content.is_empty());
    }
}

#[test]
fn starts_advance_by_step() {
    let config = ChunkConfig {
        chunk_size: 50,
        overlap: 10,
    };
    let text = "This is the first sentence. This is the second sentence. This is the third sentence.";
    let chunks: Vec<Chunk> = chunk_text("doc-1", text, &config);
    for w in chunks.windows(2) {
        assert!(w[1].start_offset >= w[0].start_offset + 40);
        assert!(w[0].end_offset <= w[0].start_offset + 50);
    }
    assert_eq!(chunks.last().unwrap().end_offset, text.len());
}

#[test]
fn chunking_is_deterministic() {
    let config = ChunkConfig {
        chunk_size: 30,
        overlap: 7,
    };
    let text = "One two three. Four five six!\n\nSeven eight nine? Ten eleven twelve.";
    let a = chunk_text("d", text, &config);
    let b = chunk_text("d", text, &config);
    assert_eq!(a.len(), b.len());
    for (x, y) in a.iter().zip(b.iter()) {
        assert_eq!(x.content, y.content);
        assert_eq!(x.start_offset, y.start_offset);
        assert_eq!(x.end_offset, y.end_offset);
        assert_eq!(x.id, y.id);
    }
}

#[test]
fn overlap_example_chunks_are_nonempty_and_share_the_document() {
    let config = ChunkConfig {
        chunk_size: 50,
        overlap: 10,
    };
    let text = "This is the first sentence. This is the second sentence. This is the third sentence.";
    let chunks = chunk_text("doc-1", text, &config);
    assert!(chunks.len() > 1);
    for (i, c) in chunks.iter().enumerate() {
        assert_eq!(c.chunk_index, i);
        assert_eq!(c.document_id, "doc-1");
        assert!(!c.content.trim().is_empty());
        assert_eq!(c.id, format!("doc-1-{}", i));
    }
}

#[test]
fn default_config_leaves_out_only_white_space() {
    let mut text = String::new();
    for i in 0..300 {
        text.push_str(&format!("Sentence number {} talks about item{}. ", i, i * 7));
        if i % 13 == 0 {
            text.push_str("\n\n");
        }
    }
    let config = ChunkConfig::default();
    let chunks = chunk_text("big", &text, &config);
    let all: Vec<char> = text.trim().chars().collect();
    assert!(chunks.len() > 3);
    assert_eq!(chunks[0].start_offset, 0);
    assert_eq!(chunks.last().unwrap().end_offset, all.len());
    for w in chunks.windows(2) {
        for x in w[0].end_offset..w[1].start_offset.max(w[0].end_offset) {
            assert!(all[x].is_whitespace());
        }
        assert!(w[1].start_offset >= w[0].start_offset + 800);
    }
}

#[test]
fn paragraph_break_with_space_between_newlines_cuts_after_second_newline() {
    let config = ChunkConfig {
        chunk_size: 5,
        overlap: 0,
    };
    let chunks = chunk_text("d", "a\n \nbc", &config);
    assert_eq!(chunks[0].start_offset, 0);
    assert_eq!(chunks[0].end_offset, 4);
    assert_eq!(chunks[0].content, "a");
}
