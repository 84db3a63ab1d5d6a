use mini_rag::chunk::chunk_text;

#[test]
fn empty_text_produces_no_chunks() {
    let chunks = chunk_text("", 500, 50);
    assert!(chunks.is_empty());
}

#[test]
fn short_text_produces_single_chunk() {
    let chunks = chunk_text("hello world", 500, 50);
    assert_eq!(chunks.len(), 1);
    assert_eq!(chunks[0].content, "hello world");
    assert_eq!(chunks[0].index, 0);
}

#[test]
fn text_is_split_with_overlap() {
    let text = "a".repeat(1000);
    let chunks = chunk_text(&text, 500, 50);
    assert_eq!(chunks.len(), 3);
    assert_eq!(chunks[0].content.len(), 500);
    assert_eq!(chunks[1].content.len(), 500);
    // Last chunk: 1000 - 900 = 100 chars
    assert_eq!(chunks[2].content.len(), 100);
}

#[test]
fn chunks_have_sequential_indices() {
    let text = "x".repeat(2000);
    let chunks = chunk_text(&text, 500, 50);
    for (i, chunk) in chunks.iter().enumerate() {
        assert_eq!(chunk.index, i);
    }
}

#[test]
fn overlap_clamped_to_half_chunk_size() {
    let text = "a".repeat(1000);
    // overlap 999 > chunk_size/2 (250), gets clamped to 250, step = 250
    let chunks = chunk_text(&text, 500, 999);
    let expected = chunk_text(&text, 500, 250);
    assert_eq!(chunks.len(), expected.len());
    for (a, b) in chunks.iter().zip(expected.iter()) {
        assert_eq!(a.content, b.content);
    }
}

#[test]
fn emoji_not_split_across_chunks() {
    // 🦀 is a single char (4 bytes), place it at the chunk boundary
    let text = format!("{}🦀{}", "a".repeat(4), "b".repeat(5));
    // 10 chars total, chunk_size=5, overlap=1, step=4
    let chunks = chunk_text(&text, 5, 1);
    assert_eq!(chunks.len(), 3);
    assert_eq!(chunks[0].content, "aaaa🦀");
    assert_eq!(chunks[1].content, "🦀bbbb");
    assert_eq!(chunks[2].content, "bb");
}

#[test]
fn whitespace_only_chunks_are_skipped() {
    let text = format!("{}{}content", "a".repeat(500), " ".repeat(500));
    let chunks = chunk_text(&text, 500, 0);
    // First chunk: 500 'a's, second chunk: 500 spaces (skipped), third chunk: "content"
    assert_eq!(chunks.len(), 2);
    assert_eq!(chunks[1].content, "content");
}
