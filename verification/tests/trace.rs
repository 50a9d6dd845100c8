use reasonmetrics::trace::{estimated_token_count, extract_thinking, floor_char_boundary};

#[test]
fn test_extract_think_tags() {
    assert_eq!(
        extract_thinking("<think>Step by step.</think>"),
        "Step by step."
    );
}

#[test]
fn test_extract_reasoning_tags() {
    assert_eq!(
        extract_thinking("<reasoning>Base case first.</reasoning>"),
        "Base case first."
    );
}

#[test]
fn test_extract_plain_text() {
    assert_eq!(extract_thinking("Just text."), "Just text.");
}

#[test]
fn test_extract_trims_whitespace() {
    assert_eq!(extract_thinking("  \n  hello  \n  "), "hello");
}

#[test]
fn test_extract_malformed_tag_order() {
    // A closing tag before the opening one is ignored: the closing tag is
    // only searched for after the opening tag.
    let result = extract_thinking("</think>some text<think>content</think>");
    assert_eq!(result, "content");
}

#[test]
fn test_extract_unclosed_tag() {
    // An opening tag without a closing tag falls through to plain text.
    let result = extract_thinking("<think>no closing tag here");
    assert_eq!(result, "<think>no closing tag here");
}

#[test]
fn test_estimated_token_count_english() {
    assert_eq!(estimated_token_count("one two three"), 3);
}

#[test]
fn test_estimated_token_count_cjk() {
    // No spaces, but still clearly not a 1-word trace.
    assert!(estimated_token_count("逐步分析并验证答案是否正确。") >= 4);
}

#[test]
fn test_estimated_token_count_blank() {
    assert_eq!(estimated_token_count("   \n  "), 0);
}

#[test]
fn the_first_complete_tag_pair_wins() {
    // Whichever complete pair opens first in the text gives the reasoning.
    assert_eq!(
        extract_thinking("<reasoning>r</reasoning> <think>t</think>"),
        "r"
    );
    assert_eq!(
        extract_thinking("<think>t</think> <reasoning>r</reasoning>"),
        "t"
    );
    // An unclosed <think> is no pair; the complete <reasoning> pair counts.
    assert_eq!(
        extract_thinking("<think>open <reasoning> inner </reasoning>"),
        "inner"
    );
    // Only <think> and <reasoning> mark reasoning; other tags stay in the text.
    assert_eq!(
        extract_thinking(" <thought> deep </thought> "),
        "<thought> deep </thought>"
    );
}

#[test]
fn extracted_thinking_is_trimmed_at_both_ends() {
    for raw in ["<think>\n\t x \n</think>", "  plain  ", "\u{3000}wide\u{3000}"] {
        let t = extract_thinking(raw);
        assert_eq!(t, t.trim());
    }
}

#[test]
fn token_count_is_zero_only_for_blank_text() {
    assert_eq!(estimated_token_count(""), 0);
    assert_eq!(estimated_token_count("\u{3000}\t\n"), 0);
    assert_eq!(estimated_token_count("x"), 1);
    assert_eq!(estimated_token_count("验"), 1);
    assert_eq!(estimated_token_count("验证"), 1);
    assert_eq!(estimated_token_count("验证一下"), 2);
    assert_eq!(estimated_token_count("a  b\tc\nd"), 4);
}

#[test]
fn floor_char_boundary_steps_back_to_a_char_start() {
    let s = "aé€"; // bytes: a(1) é(2) €(3)
    assert_eq!(floor_char_boundary(s, 0), 0);
    assert_eq!(floor_char_boundary(s, 1), 1);
    assert_eq!(floor_char_boundary(s, 2), 1);
    assert_eq!(floor_char_boundary(s, 3), 3);
    assert_eq!(floor_char_boundary(s, 5), 3);
    assert_eq!(floor_char_boundary(s, 6), 6);
    assert_eq!(floor_char_boundary(s, 100), 6);
}
