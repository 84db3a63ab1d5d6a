use mini_rag::chunk::chunk_text;
use mini_rag::rag::{strip_think_tags, truncate_to_excerpt};
use mini_rag::sync::{plan_ingest, IngestPlan};

/// Marks the characters of `text` that some chunk, found in order, spans.
fn covered(text: &str, chunk_size: usize, overlap: usize) -> Vec<bool> {
    let chars: Vec<char> = text.chars().collect();
    let mut marks = vec![false; chars.len()];
    for chunk in chunk_text(text, chunk_size, overlap) {
        let piece: Vec<char> = chunk.content.chars().collect();
        assert!(!piece.is_empty());
        let mut found = false;
        for start in 0..=chars.len() - piece.len() {
            if chars[start..start + piece.len()] == piece[..] {
                for m in &mut marks[start..start + piece.len()] {
                    *m = true;
                }
                found = true;
            }
        }
        assert!(found, "chunk is a run of the text");
    }
    marks
}

#[test]
fn every_visible_char_lies_in_a_chunk() {
    let texts = [
        format!("{}{}content", "a".repeat(500), " ".repeat(500)),
        format!("{} {}\n{}  tail", "x".repeat(13), "y".repeat(7), " ".repeat(9)),
        "  one two three four five six seven  ".to_string(),
    ];
    for text in &texts {
        for (size, overlap) in [(5, 1), (7, 3), (10, 0), (500, 50)] {
            let marks = covered(text, size, overlap);
            for (c, m) in text.chars().zip(marks) {
                assert!(c.is_whitespace() || m);
            }
        }
    }
}

#[test]
fn every_chunk_fits() {
    let text = format!("{}{}{}c", "a".repeat(5), " ".repeat(5), "b".repeat(5));
    let chunks = chunk_text(&text, 5, 0);
    let contents: Vec<&str> = chunks.iter().map(|c| c.content.as_str()).collect();
    assert_eq!(contents, vec!["aaaaa", "bbbbb", "c"]);
    for (size, overlap) in [(5, 1), (7, 3), (10, 0), (3, 9)] {
        for c in chunk_text(&text, size, overlap) {
            assert!(c.content.chars().count() <= size);
        }
    }
}

#[test]
fn think_block_is_removed_between_text() {
    assert_eq!(
        strip_think_tags("Before <think>why</think> after<think>more</think>!"),
        "Before  after!"
    );
    assert_eq!(strip_think_tags("x<think>y"), "x");
    let once = strip_think_tags("  <think>a</think>  b  ");
    assert_eq!(once, "b");
    assert_eq!(once.trim(), once);
}

#[test]
fn excerpt_of_blank_text_is_empty() {
    assert_eq!(truncate_to_excerpt(" \n\t ", 10), "");
}

#[test]
fn resync_is_idempotent() {
    assert_eq!(plan_ingest(Some((9, 1_700_000_000)), 1_700_000_000), IngestPlan::Unchanged);
    assert_eq!(
        plan_ingest(Some((9, 1_700_000_000)), 1_700_000_001),
        IngestPlan::Replace { existing_id: 9 }
    );
}
