use reasonmetrics::annotate::{annotate, AnnotationKind};

#[test]
fn finds_restart_and_verification_spans() {
    let t = "Let me try again. 2+2=4. Let me verify: yes 4.";
    let anns = annotate(t);
    assert!(anns.iter().any(|a| a.kind == AnnotationKind::Restart));
    let v = anns
        .iter()
        .find(|a| a.kind == AnnotationKind::Verification)
        .expect("verification span");
    assert_eq!(&t[v.start..v.end], "Let me verify");
}

#[test]
fn verification_matching_is_case_insensitive() {
    let t = "Done. LET ME VERIFY the result now.";
    let anns = annotate(t);
    let v = anns
        .iter()
        .find(|a| a.kind == AnnotationKind::Verification)
        .expect("verification span");
    assert_eq!(&t[v.start..v.end], "LET ME VERIFY");
}

#[test]
fn cjk_input_does_not_panic_and_offsets_are_char_safe() {
    let t = "计算 2+2。验证一下:等于4。再次验证一下:还是4。";
    for a in annotate(t) {
        assert!(t.is_char_boundary(a.start), "start not on boundary");
        assert!(t.is_char_boundary(a.end), "end not on boundary");
    }
    // CJK explicit verification phrase should be found
    assert!(annotate(t)
        .iter()
        .any(|a| a.kind == AnnotationKind::Verification));
}

#[test]
fn flags_repeated_sentences() {
    let t = "The sum is four because two plus two equals four. \
             The sum is four because two plus two equals four.";
    let anns = annotate(t);
    assert!(anns.iter().any(|a| a.kind == AnnotationKind::Repetition));
}

#[test]
fn short_repeated_fragments_are_ignored() {
    let t = "Yes. Yes. Yes. The detailed reasoning follows here.";
    let anns = annotate(t);
    assert!(!anns.iter().any(|a| a.kind == AnnotationKind::Repetition));
}

#[test]
fn clean_trace_has_no_annotations() {
    let t = "Compute 2+2 step by step. Two plus two equals four. Done here.";
    let restarts_or_reps = annotate(t)
        .iter()
        .filter(|a| a.kind != AnnotationKind::Verification)
        .count();
    assert_eq!(restarts_or_reps, 0);
}

#[test]
fn annotations_are_sorted_by_start() {
    let t = "Let me verify early. Wait, let me restart. Let me check the end.";
    let anns = annotate(t);
    let starts: Vec<usize> = anns.iter().map(|a| a.start).collect();
    let mut sorted = starts.clone();
    sorted.sort_unstable();
    assert_eq!(starts, sorted);
}

#[test]
fn repetition_notes_count_occurrences() {
    let s = "The sum is four because two plus two equals four.";
    let t = format!("{s} {s} {s}");
    let reps: Vec<_> = annotate(&t)
        .into_iter()
        .filter(|a| a.kind == AnnotationKind::Repetition)
        .collect();
    assert_eq!(reps.len(), 2);
    assert_eq!(reps[0].note, "duplicate occurrence #2 of an earlier sentence");
    assert_eq!(reps[1].note, "duplicate occurrence #3 of an earlier sentence");
    assert_eq!(&t[reps[0].start..reps[0].end], format!(" {s}"));
}

#[test]
fn restart_and_verification_notes() {
    let t = "Wait, let me redo this. Let me check: fine.";
    let anns = annotate(t);
    let r = anns.iter().find(|a| a.kind == AnnotationKind::Restart).unwrap();
    assert_eq!(r.note, "restart / backtrack phrase");
    assert_eq!(&t[r.start..r.end], "Wait, let me");
    let v = anns
        .iter()
        .find(|a| a.kind == AnnotationKind::Verification)
        .unwrap();
    assert_eq!(v.note, "explicit self-verification");
    assert_eq!(&t[v.start..v.end], "Let me check");
}

#[test]
fn lowercasing_that_changes_length_maps_back_to_source_offsets() {
    // 'İ' lowercases to two chars; the match must still cover the source text.
    let t = "İİ LET ME CHECK İ";
    let v = annotate(t)
        .into_iter()
        .find(|a| a.kind == AnnotationKind::Verification)
        .unwrap();
    assert_eq!(&t[v.start..v.end], "LET ME CHECK");
}

#[test]
fn equal_starts_are_ordered_by_end() {
    // The second sentence starts right at a restart phrase, so a restart and
    // a repetition annotation share a start; the shorter one comes first.
    let t = "Let me reconsider this whole approach.Let me reconsider this whole approach.";
    let anns = annotate(t);
    for w in anns.windows(2) {
        assert!((w[0].start, w[0].end) <= (w[1].start, w[1].end));
    }
    let second = anns.iter().filter(|a| a.start == 38).collect::<Vec<_>>();
    assert_eq!(second.len(), 2);
    assert_eq!(second[0].kind, AnnotationKind::Restart);
    assert_eq!(second[1].kind, AnnotationKind::Repetition);
    assert_eq!(second[1].end, t.len());
}

#[test]
fn empty_text_has_no_annotations() {
    assert!(annotate("").is_empty());
}

#[test]
fn verification_and_repetition_spans_are_never_empty() {
    let text = "Let me verify this. The answer is forty two today. \
                The answer is forty two today. Let me double-check: ok. Wait, retry.";
    let anns = annotate(text);
    assert!(anns.iter().any(|a| a.kind == AnnotationKind::Repetition));
    assert!(anns.iter().any(|a| a.kind == AnnotationKind::Verification));
    for a in &anns {
        assert!(a.start <= a.end && a.end <= text.len());
        if a.kind != AnnotationKind::Restart {
            assert!(a.start < a.end, "{a:?}");
        }
    }
}
