use mini_rag::chunk::chunk_text;
use mini_rag::db::{rank_hits, vector_search_sql, SearchHit, SearchRow};
use mini_rag::rag::{
    finish_query, prepare_query, question_from_line, strip_think_tags, truncate_to_excerpt, RagResponse, Source,
};
use mini_rag::sync::{
    collect_files, document_chunks, plan_ingest, title_from_path, FsEntry, IngestPlan,
};

fn hit(rank: u32, content: &str, title: &str, path: &str) -> SearchHit {
    SearchHit {
        rank,
        total: 5,
        content: content.to_string(),
        doc_title: title.to_string(),
        doc_path: path.to_string(),
    }
}

#[test]
fn windows_slide_by_step_without_whitespace() {
    // chunk_size 4, overlap 1: windows start every 3 characters; the last
    // one reaches the end, so there is no rest.
    let chunks = chunk_text("abcdefghij", 4, 1);
    let contents: Vec<&str> = chunks.iter().map(|c| c.content.as_str()).collect();
    assert_eq!(contents, vec!["abcd", "defg", "ghij"]);
    // One more character: the rest starts where the next window would.
    let chunks = chunk_text("abcdefghijk", 4, 1);
    let contents: Vec<&str> = chunks.iter().map(|c| c.content.as_str()).collect();
    assert_eq!(contents, vec!["abcd", "defg", "ghij", "jk"]);
}

#[test]
fn blank_window_does_not_repeat_the_end() {
    let chunks = chunk_text("ab  cd", 2, 0);
    let contents: Vec<&str> = chunks.iter().map(|c| c.content.as_str()).collect();
    assert_eq!(contents, vec!["ab", "cd"]);
    assert_eq!(chunks[1].index, 1);
    let chunks = chunk_text("ab  cde", 2, 0);
    let contents: Vec<&str> = chunks.iter().map(|c| c.content.as_str()).collect();
    assert_eq!(contents, vec!["ab", "cd", "e"]);
}

#[test]
fn chat_lines() {
    assert_eq!(question_from_line("  What is Rust?\n"), Some("What is Rust?".to_string()));
    assert_eq!(question_from_line("\n"), None);
    assert_eq!(question_from_line(" exit \n"), None);
    assert_eq!(question_from_line("quit"), None);
    assert_eq!(question_from_line("quitting"), Some("quitting".to_string()));
}

#[test]
fn windows_end_exactly_without_overlap() {
    let chunks = chunk_text("abcdefgh", 4, 0);
    let contents: Vec<&str> = chunks.iter().map(|c| c.content.as_str()).collect();
    assert_eq!(contents, vec!["abcd", "efgh"]);
}

#[test]
fn chunks_are_trimmed_and_not_blank() {
    let chunks = chunk_text("  ab  \n  cd   ", 5, 0);
    for c in &chunks {
        assert!(!c.content.is_empty());
        assert_eq!(c.content.trim(), c.content);
    }
    let contents: Vec<&str> = chunks.iter().map(|c| c.content.as_str()).collect();
    assert_eq!(contents, vec!["ab", "c", "d"]);
}

#[test]
fn blank_text_has_no_chunks() {
    assert!(chunk_text(" \t\n\u{3000} ", 500, 50).is_empty());
    assert!(chunk_text(&" ".repeat(1200), 500, 50).is_empty());
}

#[test]
fn zero_chunk_size_on_empty_text() {
    assert!(chunk_text("", 0, 10).is_empty());
}

#[test]
fn document_chunks_use_500_and_50() {
    let text = "z".repeat(1000);
    let chunks = document_chunks(&text);
    let expected = chunk_text(&text, 500, 50);
    assert_eq!(chunks.len(), expected.len());
    assert_eq!(chunks[2].content.len(), 100);
}

#[test]
fn strip_keeps_text_between_blocks() {
    assert_eq!(
        strip_think_tags("  A<think>x</think>B<think>y</think>C  "),
        "ABC"
    );
    assert_eq!(strip_think_tags("no tags here \n"), "no tags here");
    assert_eq!(strip_think_tags("</think>kept"), "</think>kept");
}

#[test]
fn excerpt_is_a_single_line() {
    assert_eq!(truncate_to_excerpt("  one\ntwo  ", 50), "one two");
    let long = truncate_to_excerpt("line one\nline two\nline three", 12);
    assert_eq!(long, "line one...");
    assert!(!long.contains('\n'));
}

#[test]
fn excerpt_without_space_cuts_at_char() {
    assert_eq!(truncate_to_excerpt("abcdefghij", 4), "abcd...");
    // 'é' starts at byte 3 of "caf\u{e9}..." and is kept whole.
    assert_eq!(truncate_to_excerpt("caf\u{e9}caf\u{e9}", 4), "caf\u{e9}...");
    assert_eq!(truncate_to_excerpt("abc", 0), "...");
}

#[test]
fn excerpt_length_is_bounded() {
    for max in 0..30 {
        let e = truncate_to_excerpt("h\u{e9}llo w\u{f6}rld \u{1f980} crab island text", max);
        assert!(e.len() <= max + 6);
    }
}

#[test]
fn search_sql_writes_top_k() {
    assert_eq!(
        vector_search_sql(5),
        "SELECT c.content, d.title, d.source_path FROM vector_top_k('idx_chunks_embedding', vector32(?1), 5) AS v JOIN chunks AS c ON c.rowid = v.id JOIN documents AS d ON d.id = c.document_id"
    );
    assert!(vector_search_sql(1234).contains("vector32(?1), 1234) AS v"));
    assert!(vector_search_sql(0).contains("vector32(?1), 0) AS v"));
}

#[test]
fn hits_are_ranked_in_order() {
    let rows = vec![
        SearchRow { content: "a".into(), doc_title: "T1".into(), doc_path: "p1".into() },
        SearchRow { content: "b".into(), doc_title: "T2".into(), doc_path: "p2".into() },
    ];
    let hits = rank_hits(rows, 5);
    assert_eq!(hits.len(), 2);
    assert_eq!((hits[0].rank, hits[0].total), (0, 5));
    assert_eq!((hits[1].rank, hits[1].total), (1, 5));
    assert_eq!(hits[1].content, "b");
    assert_eq!(hits[1].doc_title, "T2");
    assert_eq!(hits[1].doc_path, "p2");
    let big = rank_hits(
        vec![SearchRow { content: "c".into(), doc_title: "T".into(), doc_path: "p".into() }],
        usize::MAX,
    );
    assert_eq!(big[0].total, u32::MAX);
}

#[test]
fn prompt_numbers_the_context() {
    let hits = vec![
        hit(0, "Ownership rules.", "Book", "book.pdf"),
        hit(1, "Borrowing\nrules.", "Guide", "guide.pdf"),
    ];
    let (prompt, sources) = prepare_query(hits, "What is ownership?");
    assert_eq!(
        prompt,
        "Context:\n[1] Ownership rules.\n\n[2] Borrowing\nrules.\n\nQuestion: What is ownership?"
    );
    assert_eq!(sources.len(), 2);
    assert_eq!(sources[1].title, "Guide");
    assert_eq!(sources[1].path, "guide.pdf");
    assert_eq!(sources[1].excerpt, "Borrowing rules.");
}

#[test]
fn prompt_without_hits() {
    let (prompt, sources) = prepare_query(Vec::new(), "Q?");
    assert_eq!(prompt, "Context:\n\n\nQuestion: Q?");
    assert!(sources.is_empty());
}

#[test]
fn answer_is_stripped() {
    let sources = vec![Source {
        title: "T".into(),
        path: "p".into(),
        excerpt: "e".into(),
    }];
    let r = finish_query("<think>hmm</think> Squawk! ", sources);
    assert_eq!(r.answer, "Squawk!");
    assert_eq!(r.sources.len(), 1);
}

#[test]
fn render_without_sources() {
    let r = RagResponse { answer: "Just this.".into(), sources: Vec::new() };
    assert_eq!(r.render(), "Just this.\n");
}

#[test]
fn render_with_sources() {
    let r = RagResponse {
        answer: "A".into(),
        sources: vec![
            Source { title: "T".into(), path: "p.pdf".into(), excerpt: "ex".into() },
            Source { title: "U".into(), path: "q".into(), excerpt: "fy".into() },
        ],
    };
    let expected = "A\n\n\x1b[2m\u{2500}\u{2500}\u{2500} Sources \u{2500}\u{2500}\u{2500}\x1b[0m\n  \x1b[1m[1]\x1b[0m \x1b[32mT\x1b[39m (\x1b[2mp.pdf\x1b[0m)\n      \x1b[2m\"ex\"\x1b[0m\n  \x1b[1m[2]\x1b[0m \x1b[32mU\x1b[39m (\x1b[2mq\x1b[0m)\n      \x1b[2m\"fy\"\x1b[0m\n";
    assert_eq!(r.render(), expected);
}

#[test]
fn ingest_plans() {
    assert_eq!(plan_ingest(None, 7), IngestPlan::Insert);
    assert_eq!(plan_ingest(Some((3, 7)), 7), IngestPlan::Unchanged);
    assert_eq!(plan_ingest(Some((3, 6)), 7), IngestPlan::Replace { existing_id: 3 });
}

#[test]
fn titles_come_from_file_stems() {
    assert_eq!(title_from_path("docs/comprehensive-rust.pdf"), "comprehensive-rust");
    assert_eq!(title_from_path("notes.tar.gz"), "notes.tar");
    assert_eq!(title_from_path(".hidden"), ".hidden");
    assert_eq!(title_from_path(""), "Untitled");
    assert_eq!(title_from_path("/"), "Untitled");
}

#[test]
fn files_are_collected_depth_first() {
    let entries = vec![
        FsEntry::File("a.pdf"),
        FsEntry::Dir(
            "d",
            vec![
                FsEntry::File("d/b.pdf"),
                FsEntry::Dir("d/e", vec![FsEntry::File("d/e/c.pdf")]),
                FsEntry::Other("d/socket"),
                FsEntry::File("d/f.pdf"),
            ],
        ),
        FsEntry::Other("missing"),
        FsEntry::File("g.pdf"),
    ];
    let (files, skipped) = collect_files(entries);
    assert_eq!(files, vec!["a.pdf", "d/b.pdf", "d/e/c.pdf", "d/f.pdf", "g.pdf"]);
    assert_eq!(skipped, vec!["missing"]);
}
