use reasonmetrics::scorers::accuracy_efficiency::{answers_equal, normalize_answer};
use reasonmetrics::scorers::alignment::alignment_signals;
use reasonmetrics::scorers::efficiency::restart_count;
use reasonmetrics::scorers::language::{language_signals, strip_code_blocks, Language};
use reasonmetrics::scorers::length::{length_score, sweet_spot};
use reasonmetrics::scorers::overthinking::complexity_signals;
use reasonmetrics::scorers::repetition::repetition_signals;
use reasonmetrics::scorers::structure::structure_signals;
use reasonmetrics::scorers::verification::verification_signals;
use reasonmetrics::trace::estimated_token_count;

#[test]
fn test_math_trace_with_boxed_answer() {
    let thinking = "Let me work through this. First I set up the equation. Then I solve for x. Therefore, the answer is x = 42. \\boxed{42}";
    let s = alignment_signals(thinking, "42");
    // "therefore" + "the answer is" = 22; ends in `}` so no structural bonus.
    assert_eq!(s.convergence, 22);
    assert_eq!(s.answer_echo, 25);
    assert_eq!(s.delimiters, 20);
    assert_eq!(s.anti_divergence, 20);
    assert_eq!(s.score(), 87);
    assert!(s.answer_in_trace_end());
}

#[test]
fn test_medical_conversational_convergence() {
    let thinking = "So we have sudden weakness and a swollen leg after long travel. \
        A clot in the leg could cause stroke symptoms through paradoxical embolism. \
        This points to a PFO. The clinical picture fits the bill perfectly — \
        a right-to-left shunt letting a venous clot reach the brain. \
        Everything fits together. In conclusion, PFO is the diagnosis.";
    let s = alignment_signals(thinking, "Patent foramen ovale (PFO)");
    assert!(s.score() >= 50, "got {}", s.score());
}

#[test]
fn test_divergent_trace_scores_low() {
    let long_padding = "Let me think about this problem more. ".repeat(20);
    let thinking = format!("{long_padding}I'm not sure about this. Let me try another approach. Wait, maybe I should reconsider the whole thing.");
    let s = alignment_signals(&thinking, "42");
    assert!(s.score() < 20, "got {}", s.score());
    assert_eq!(s.anti_divergence, 0);
}

#[test]
fn test_short_numeric_answer_at_end() {
    let thinking = "I simplify the expression carefully. Therefore, the answer is 42.";
    let s = alignment_signals(thinking, "42");
    // 22 for two phrases + 10 for the final period; echo 25; no delimiter.
    assert_eq!(s.convergence, 32);
    assert_eq!(s.score(), 77);
}

#[test]
fn test_no_answer_but_converges() {
    let thinking = "After analyzing all the evidence, we conclude that the mechanism involves quantum tunneling. In summary, the barrier transmission coefficient is non-zero.";
    let s = alignment_signals(thinking, "The transmission coefficient T = e^{-2κL}");
    assert!(s.score() >= 40, "got {}", s.score());
    assert_eq!(s.answer_echo, 0);
}

#[test]
fn alignment_question_ending_gets_no_structural_bonus() {
    let s = alignment_signals("Is it done?", "");
    assert_eq!(s.convergence, 0);
    assert_eq!(s.answer_echo, 0);
    assert_eq!(s.score(), 20);
    assert!(!s.answer_in_trace_end());
}

#[test]
fn alignment_single_non_ascii_answer_can_echo() {
    let s = alignment_signals("所以答案是甲。", "甲");
    assert_eq!(s.answer_echo, 25);
    let s = alignment_signals("so it is b.", "b");
    assert_eq!(s.answer_echo, 0);
}

#[test]
fn test_verification_at_end_scores_high() {
    let thinking = "First, I solve the equation. x = 5. Let me verify by substituting back. Indeed, 2(5) + 3 = 13. This confirms our answer.";
    let s = verification_signals(thinking);
    assert!(s.score() >= 80);
    assert!(s.has_verification());
}

#[test]
fn test_no_verification_scores_low() {
    let thinking = "I compute the derivative. The derivative is 2x. So the answer is 2x. That seems right to me based on my calculations above.";
    let s = verification_signals(thinking);
    assert!(s.score() <= 40);
    assert!(!s.has_verification());
}

#[test]
fn test_short_trace_with_verification_gets_credit() {
    let s = verification_signals("x = 5. Let me check: 2(5) + 3 = 13.");
    assert!(s.short);
    assert_eq!(s.late_explicit, 1);
    assert_eq!(s.score(), 80);
}

#[test]
fn test_medical_implicit_verification() {
    let thinking = "The patient presents with sudden weakness and DVT after long travel. This is consistent with paradoxical embolism through a PFO. The clinical picture fits together — the findings support a right-to-left shunt allowing venous clot to reach the brain. This explains the neurological symptoms.";
    let s = verification_signals(thinking);
    assert!(s.score() >= 60, "got {}", s.score());
}

#[test]
fn verification_short_without_phrases_is_neutral() {
    let s = verification_signals("2 + 2 = 4.");
    assert_eq!(s.score(), 50);
}

#[test]
fn restart_heavy_trace_counts_every_phrase() {
    let thinking = "Let me try this. Wait, let me reconsider. Actually, no that's wrong. Let me start over. Hmm, let me try again. Actually I was wrong. Let me recalculate.";
    assert_eq!(restart_count(thinking), 8);
    assert_eq!(restart_count("First, let me compute the derivative. Then I apply the chain rule."), 0);
}

#[test]
fn structure_counts_markers_and_breaks() {
    let s = structure_signals("Step 1: go.\n\nStep 2: since x, then y.\nDone.");
    assert_eq!(s.word_count, 10);
    assert_eq!(s.strong, 2);
    assert_eq!(s.medium, 1);
    assert_eq!(s.weak, 1);
    assert_eq!(s.double_breaks, 1);
    assert_eq!(s.single_breaks, 1);
}

#[test]
fn structure_wall_of_text_has_no_breaks() {
    let thinking =
        "I think about this and compute something and get a number and try another thing. "
            .repeat(30);
    let s = structure_signals(&thinking);
    assert!(s.word_count > 200);
    assert_eq!(s.double_breaks, 0);
    assert_eq!(s.single_breaks, 0);
}

#[test]
fn repetition_counts_distinct_paragraphs() {
    let s = repetition_signals(
        "alpha beta gamma delta epsilon\n\nALPHA beta  gamma delta epsilon\n\nshort one",
    );
    assert_eq!(s.paragraphs, 2);
    assert_eq!(s.unique_paragraphs, 1);
    assert_eq!(s.sentences, 1);
    assert_eq!(s.repeated_sentences, 0);
}

#[test]
fn repetition_counts_sentences_seen_three_times() {
    let s = repetition_signals(
        "This is a repeated sentence. This is a repeated sentence. This is a repeated sentence.",
    );
    assert_eq!(s.sentences, 3);
    assert_eq!(s.repeated_sentences, 1);
    assert_eq!(s.paragraphs, 1);
    assert_eq!(s.unique_paragraphs, 1);
}

#[test]
fn repetition_no_repeats_in_distinct_paragraphs() {
    let thinking = "First, I analyze the problem.\n\nSecond, I set up equations.\n\nThird, I solve for x.\n\nFinally, I verify the result.";
    let s = repetition_signals(thinking);
    assert_eq!(s.repeated_sentences, 0);
    assert_eq!(s.unique_paragraphs, s.paragraphs);
}

#[test]
fn repetition_detects_repeated_cjk_paragraphs() {
    let para = "逐步分析这个问题并验证答案。";
    let thinking = format!("{}\n\n{}\n\n{}\n\n现在给出最终答案。", para, para, para);
    let s = repetition_signals(&thinking);
    assert!(s.unique_paragraphs < s.paragraphs);
}

#[test]
fn complexity_counts_math_and_code() {
    let s = complexity_signals("What is 2+3?");
    assert_eq!((s.word_count, s.math_count, s.code_count), (3, 0, 0));
    let s = complexity_signals("Compute ∫ x dx and \\FRAC{1}{2} with def f(): ≤ ≤");
    assert_eq!(s.math_count, 4);
    assert_eq!(s.code_count, 1);
}

#[test]
fn length_bands() {
    assert_eq!(length_score(3, 200, 3000), 5);
    assert_eq!(length_score(31, 200, 3000), 30);
    assert_eq!(length_score(150, 200, 3000), 60);
    assert_eq!(length_score(1000, 200, 3000), 100);
    assert_eq!(length_score(4000, 200, 3000), 90);
    assert_eq!(length_score(9000, 200, 3000), 70);
    assert_eq!(length_score(15000, 200, 3000), 40);
    assert_eq!(length_score(25000, 200, 3000), 15);
    assert_eq!(length_score(usize::MAX, 200, usize::MAX), 100);
}

#[test]
fn test_inverted_bounds_are_normalized() {
    let (lo, hi) = sweet_spot(3000, 200);
    assert_eq!((lo, hi), (200, 3000));
    assert_eq!(length_score(1000, lo, hi), 100);
}

#[test]
fn test_english_only_scores_high() {
    let text = "Let me solve this problem step by step. First, I need to find the derivative of the function. The chain rule tells us that we should multiply the outer derivative by the inner derivative. Therefore, applying the chain rule gives us the result. Let me verify this by substituting back into the original equation. The computation confirms our answer is correct. This is a well-known result in calculus. ".repeat(3);
    let s = language_signals(&text, 10, 20);
    assert!(!s.short);
    assert!(s.score() >= 80);
    assert_eq!(s.dominant, Some(Language::Eng));
    assert_eq!(s.dominant.unwrap().name(), "Eng");
}

#[test]
fn test_short_text_defaults_to_100() {
    let s = language_signals("Short text.", 10, 20);
    assert!(s.short);
    assert_eq!(s.score(), 100);
    assert!(!s.is_mixed());
}

#[test]
fn test_strip_code_blocks() {
    let text = "Some text\n```python\ndef hello():\n    pass\n```\nMore text";
    assert_eq!(strip_code_blocks(text), "Some text\nMore text\n");
    assert_eq!(strip_code_blocks("a\r\nb"), "a\nb\n");
    assert_eq!(strip_code_blocks("  ```\nhidden\n"), "");
}

#[test]
fn test_cjk_text_is_not_treated_as_empty() {
    let text = "让我们逐步分析这个问题并验证最终答案是否正确。".repeat(12);
    let s = language_signals(&text, 4, 6);
    assert!(s.valid_chunks > 0);
}

#[test]
fn test_zero_chunk_config_is_sanitized() {
    let text = "Let me solve this step by step and verify the result carefully. ".repeat(8);
    let s = language_signals(&text, 0, 0);
    assert!(s.score() >= 80);
    assert_eq!(s.valid_chunks, 1);
}

#[test]
fn answers_normalize_case_whitespace_and_trailing_punctuation() {
    assert_eq!(normalize_answer(" X = 2. "), "x = 2");
    assert_eq!(normalize_answer("43."), "43");
    assert_eq!(normalize_answer("Paris,. "), "paris");
    assert_eq!(normalize_answer("3.14"), "3.14");
}

#[test]
fn test_sweet_spot_length() {
    let (lo, hi) = sweet_spot(200, 3000);
    let thinking = "word ".repeat(1000); // 1000 words — in sweet spot
    assert_eq!(length_score(estimated_token_count(&thinking), lo, hi), 100);
}

#[test]
fn test_too_short() {
    let (lo, hi) = sweet_spot(200, 3000);
    assert!(length_score(estimated_token_count("yes"), lo, hi) <= 30);
}

#[test]
fn test_too_long() {
    let (lo, hi) = sweet_spot(200, 3000);
    let thinking = "word ".repeat(25000);
    assert!(length_score(estimated_token_count(&thinking), lo, hi) <= 20);
}

#[test]
fn answers_equal_after_normalization() {
    assert!(answers_equal(" Paris. ", "paris"));
    assert!(answers_equal("43.", "43"));
    assert!(!answers_equal("44", "43"));
    assert!(answers_equal("X = 2,", "x = 2"));
    assert!(!answers_equal("43", "42"));
    // Numeric closeness is no part of this check.
    assert!(!answers_equal("1.0", "1"));
}
