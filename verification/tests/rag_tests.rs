use mini_rag::rag::{strip_think_tags, truncate_to_excerpt};

#[test]
fn strip_think_tags_removes_reasoning() {
    let input = "<think>internal reasoning</think>The actual answer.";
    assert_eq!(strip_think_tags(input), "The actual answer.");
}

#[test]
fn strip_think_tags_handles_multiple() {
    let input = "<think>a</think>Hello <think>b</think>world";
    assert_eq!(strip_think_tags(input), "Hello world");
}

#[test]
fn strip_think_tags_no_tags() {
    let input = "Just plain text";
    assert_eq!(strip_think_tags(input), "Just plain text");
}

#[test]
fn strip_think_tags_unclosed() {
    let input = "Before<think>unclosed reasoning";
    assert_eq!(strip_think_tags(input), "Before");
}

#[test]
fn truncate_to_excerpt_short_text() {
    assert_eq!(truncate_to_excerpt("hello world", 50), "hello world");
}

#[test]
fn truncate_to_excerpt_long_text() {
    let result = truncate_to_excerpt("this is a longer text that should be truncated", 20);
    assert!(result.ends_with("..."));
    assert!(result.len() <= 25);
}

#[test]
fn truncate_to_excerpt_multibyte() {
    let text = "café résumé naïve";
    let result = truncate_to_excerpt(text, 6);
    assert!(result.ends_with("..."));
}
