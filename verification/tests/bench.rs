use reasonmetrics::bench::judge::judge_prompt;
use reasonmetrics::bench::leaderboard::{one, SortKey};
use reasonmetrics::bench::result::{default_out_file, model_slug, tally_rows, TaskSetMeta};
use reasonmetrics::bench::runner::{after_failure, regroup, RetryStep};
use reasonmetrics::bench::model::{host_of, Completion, MockModel, Model};
use reasonmetrics::bench::score::{
    task_verdict, TaskVerdict, first_error, first_success, sample_tokens, split_completion, tally_samples,
};
use reasonmetrics::bench::site::{esc, ymd};
use reasonmetrics::bench::taskset::{bundled, digest_hex, load_lines, task_set, Task};
use reasonmetrics::bench::LeaderboardFormat;

#[test]
fn mock_returns_canned_completion() {
    let mock = MockModel::new(vec![(
        "What is 2+2?".to_string(),
        Completion {
            text: "<think>2+2=4</think> 4".into(),
            completion_tokens: Some(5),
        },
    )]);
    let c = mock.complete("What is 2+2?").unwrap();
    assert_eq!(c.completion_tokens, Some(5));
    assert!(c.text.contains("4"));
}

#[test]
fn mock_errors_on_unknown_prompt() {
    let mock = MockModel::new(vec![]);
    assert!(mock.complete("unknown").is_err());
}

#[test]
fn mock_keeps_the_last_completion_for_a_repeated_prompt() {
    let c = |t: &str| Completion {
        text: t.to_string(),
        completion_tokens: None,
    };
    let mock = MockModel::new(vec![
        ("p".to_string(), c("first")),
        ("q".to_string(), c("other")),
        ("p".to_string(), c("second")),
    ]);
    assert_eq!(mock.complete("p").unwrap().text, "second");
    assert_eq!(mock.complete("q").unwrap().text, "other");
    assert_eq!(
        mock.complete("r\"").unwrap_err(),
        "MockModel: no canned response for prompt \"r\\\"\""
    );
}

#[test]
fn host_of_extracts_host_only() {
    assert_eq!(host_of("http://localhost:8000/v1"), "localhost:8000");
    assert_eq!(host_of("https://api.example.com/v1/"), "api.example.com");
    assert_eq!(host_of("localhost:11434"), "localhost:11434");
}

#[test]
fn host_of_drops_credentials_query_and_fragment() {
    assert_eq!(host_of("https://user:pw@host.io:9/x"), "host.io:9");
    assert_eq!(host_of("http://h?x=1"), "h");
    assert_eq!(host_of("h#frag"), "h");
    assert_eq!(host_of(""), "");
}

#[test]
fn split_completion_separates_think_and_answer() {
    let (think, ans) = split_completion("<think>2+2=4, check: 4</think> The answer is 4");
    assert_eq!(think, "2+2=4, check: 4");
    assert_eq!(ans, "The answer is 4");
}

#[test]
fn split_completion_without_tags_puts_all_in_answer() {
    let (think, ans) = split_completion("just 4");
    assert_eq!(think, "");
    assert_eq!(ans, "just 4");
}

#[test]
fn split_completion_answer_follows_the_last_close_tag() {
    let (think, ans) = split_completion("<think>a</think> mid </think> end ");
    assert_eq!(think, "a");
    assert_eq!(ans, "end");
    // A close tag without an open tag: no thinking, answer after the tag.
    let (think, ans) = split_completion("x</think>y");
    assert_eq!(think, "");
    assert_eq!(ans, "y");
}

#[test]
fn sample_tokens_prefers_reported_counts() {
    let reported = Completion {
        text: "<think>a b c</think> d".into(),
        completion_tokens: Some(9),
    };
    assert_eq!(sample_tokens(&reported), (9, false));
    let estimated = Completion {
        text: "<think>a b c</think> d".into(),
        completion_tokens: None,
    };
    assert_eq!(sample_tokens(&estimated), (4, true));
}

#[test]
fn first_error_and_first_success() {
    let ok = Completion {
        text: "x".into(),
        completion_tokens: None,
    };
    let samples = vec![Ok(ok.clone()), Err("timeout".to_string()), Err("later".to_string())];
    assert_eq!(first_error(&samples), "timeout");
    assert_eq!(first_success(&samples), Some(0));
    let failed: Vec<Result<Completion, String>> = vec![Err("a".into()), Err("b".into())];
    assert_eq!(first_success(&failed), None);
    assert_eq!(first_error(&Vec::new()), "no samples");
}

#[test]
fn tally_counts_correct_sums_tokens_and_flags_estimates() {
    let t = tally_samples(&vec![(false, 10, false), (true, 5, true), (true, 7, false)]);
    assert_eq!(t.samples_correct, 2);
    assert_eq!(t.tokens, 22);
    assert!(t.tokens_estimated);
    let t = tally_samples(&vec![(false, usize::MAX, false), (false, 1, false)]);
    assert_eq!(t.samples_correct, 0);
    assert_eq!(t.tokens, usize::MAX);
    assert!(!t.tokens_estimated);
}

#[test]
fn ymd_converts_known_dates() {
    assert_eq!(ymd(0), "-");
    assert_eq!(ymd(1_752_537_600), "2025-07-15");
    assert_eq!(ymd(946_684_800), "2000-01-01");
}

#[test]
fn ymd_handles_leap_days_and_the_epoch_day() {
    assert_eq!(ymd(1), "1970-01-01");
    assert_eq!(ymd(951_782_400), "2000-02-29");
    assert_eq!(ymd(4_107_542_399), "2100-02-28");
}

#[test]
fn esc_escapes_markup() {
    assert_eq!(esc("<script>x</script>"), "&lt;script&gt;x&lt;/script&gt;");
    assert_eq!(esc("a & b"), "a &amp; b");
    assert_eq!(esc("plain"), "plain");
}

#[test]
fn judge_prompt_places_problem_reasoning_and_answer() {
    let p = judge_prompt("P?", "think", "A");
    assert!(p.starts_with("You are grading the QUALITY of a reasoning trace — how efficiently and soundly it reasons"));
    assert!(p.contains("\n\nProblem:\nP?\n\nReasoning:\nthink\n\nFinal answer:\nA\n\nRate the reasoning from 0 to 100"));
    assert!(p.ends_with("Reply with exactly one line:\nSCORE: <number>"));
}

#[test]
fn sort_keys_and_formats_parse_case_insensitively() {
    assert_eq!("ACCURACY".parse::<SortKey>(), Ok(SortKey::Accuracy));
    assert_eq!("tokens_per_correct".parse::<SortKey>(), Ok(SortKey::Tokens));
    assert_eq!("Cost".parse::<SortKey>(), Ok(SortKey::Cost));
    assert_eq!(
        "Speed".parse::<SortKey>(),
        Err("unknown sort `speed` (accuracy|quality|tokens|cost)".to_string())
    );
    assert_eq!("Markdown".parse::<LeaderboardFormat>(), Ok(LeaderboardFormat::Md));
    assert_eq!("JSON".parse::<LeaderboardFormat>(), Ok(LeaderboardFormat::Json));
    assert_eq!(
        "csv".parse::<LeaderboardFormat>(),
        Err("unknown format `csv` (use table|md|html|json)".to_string())
    );
    assert_eq!(one(), 1);
}

#[test]
fn bundled_task_set_lines_and_digest() {
    assert!(bundled("does-not-exist").is_none());
    let raw = bundled("overthinking-v1").unwrap();
    let (sha, lines) = load_lines("overthinking-v1").unwrap();
    assert_eq!(lines.len(), 12);
    assert_eq!(lines[0].0, 1);
    assert!(lines[0].1.contains("\"ot-001\""));
    assert!(lines[0].1.contains("\"expected_answer\":\"43\""));
    assert_eq!(sha.len(), 64);
    assert!(sha.chars().all(|c| c.is_ascii_digit() || ('a'..='f').contains(&c)));
    assert_eq!(sha, digest_hex(raw));
    assert_eq!(sha, load_lines("overthinking-v1").unwrap().0);
}

#[test]
fn digest_hex_matches_known_vectors() {
    assert_eq!(
        digest_hex(""),
        "e3b0c44298fc1c149afbf4c8996fb92427ae41e4649b934ca495991b7852b855"
    );
    assert_eq!(
        digest_hex("abc"),
        "ba7816bf8f01cfea414140de5dae2223b00361a396177a9cb410ff61f20015ad"
    );
}

#[test]
fn unknown_task_set_errors() {
    assert_eq!(
        load_lines("does-not-exist").unwrap_err(),
        "unknown task set `does-not-exist` (bundled: overthinking-v1)"
    );
}

#[test]
fn task_set_must_hold_tasks() {
    assert_eq!(
        task_set("x", "s".into(), vec![]).unwrap_err(),
        "task set `x` is empty"
    );
    let ts = task_set(
        "x",
        "s".into(),
        vec![Task {
            id: "1".into(),
            problem: "p".into(),
            expected_answer: "a".into(),
        }],
    )
    .unwrap();
    assert_eq!(ts.name, "x");
    assert_eq!(ts.tasks.len(), 1);
}

#[test]
fn model_slug_keeps_safe_characters() {
    assert_eq!(model_slug("qwen3:1.7b"), "qwen3_1.7b");
    assert_eq!(model_slug("org/Model-X v2"), "org_Model-X_v2");
    assert_eq!(model_slug("é"), "_");
}

#[test]
fn row_tally_counts_scored_correct_and_tokens() {
    let t = tally_rows(&vec![(false, true, 300), (false, false, 200), (true, false, 999)]);
    assert_eq!(t.n_attempted, 3);
    assert_eq!(t.n_scored, 2);
    assert_eq!(t.n_errored, 1);
    assert_eq!(t.n_correct, 1);
    assert_eq!(t.total_tokens, 500);
}

#[test]
fn retries_back_off_linearly_then_give_up() {
    assert_eq!(after_failure(0, 2), RetryStep::Wait { millis: 250 });
    assert_eq!(after_failure(1, 2), RetryStep::Wait { millis: 500 });
    assert_eq!(after_failure(2, 2), RetryStep::GiveUp);
    assert_eq!(after_failure(0, 0), RetryStep::GiveUp);
}

#[test]
fn host_of_is_idempotent() {
    for url in ["https://u@h.io:8/x?y#z", "localhost:11434", "http://a/b"] {
        let h = host_of(url);
        assert_eq!(host_of(&h), h);
    }
}

#[test]
fn judge_reply_tokens_and_score_section() {
    let tokens = reasonmetrics::bench::judge::number_tokens("SCORE:\n55.5 overall, 1.2.3 and .x 7");
    assert_eq!(tokens, vec!["55.5", "1.2", "3", ".", "7"]);
    assert_eq!(
        reasonmetrics::bench::judge::score_section("I'd rate this SCORE: 72"),
        Some(": 72".to_string())
    );
    assert_eq!(reasonmetrics::bench::judge::score_section("no rating"), None);
}

#[test]
fn chat_url_drops_trailing_slashes() {
    assert_eq!(
        reasonmetrics::bench::model::chat_completions_url("http://h/v1//"),
        "http://h/v1/chat/completions"
    );
    assert_eq!(
        reasonmetrics::bench::model::chat_completions_url("http://h/v1"),
        "http://h/v1/chat/completions"
    );
}

#[test]
fn short_sha_and_byte_prefix() {
    assert_eq!(reasonmetrics::bench::leaderboard::short_sha("34ae22b1a7b9"), "34ae22");
    assert_eq!(reasonmetrics::bench::leaderboard::short_sha("sha1"), "sha1");
    assert_eq!(reasonmetrics::bench::leaderboard::byte_prefix("aé€x", 3), "aé");
    assert_eq!(reasonmetrics::bench::leaderboard::byte_prefix("", 8), "");
}

#[test]
fn regroup_restores_task_and_sample_order() {
    // Outcomes arrive in completion order, not in work order.
    let outcomes = vec![
        (1usize, 1usize, "b1"),
        (0, 2, "a2"),
        (1, 0, "b0"),
        (0, 0, "a0"),
        (0, 1, "a1"),
    ];
    let groups = regroup(2, outcomes);
    assert_eq!(groups, vec![vec!["a0", "a1", "a2"], vec!["b0", "b1"]]);
}

#[test]
fn regroup_gives_every_task_a_group() {
    let groups = regroup::<u8>(3, vec![(2, 0, 7)]);
    assert_eq!(groups, vec![vec![], vec![], vec![7]]);
    let empty = regroup::<u8>(0, vec![]);
    assert!(empty.is_empty());
}

#[test]
fn regroup_keeps_equal_keys_in_arrival_order() {
    let groups = regroup(1, vec![(0usize, 0usize, 'x'), (0, 0, 'y')]);
    assert_eq!(groups, vec![vec!['x', 'y']]);
}

#[test]
fn default_out_path_uses_taskset_model_and_shorthash() {
    let set = TaskSetMeta {
        name: "overthinking-v1".into(),
        sha256: "abc123".into(),
        n: 2,
    };
    assert_eq!(
        std::path::PathBuf::from(default_out_file(&set, "m")),
        std::path::PathBuf::from("results/overthinking-v1-m-abc123.json")
    );
}

#[test]
fn default_out_file_cuts_long_digests_and_slugs_the_model() {
    let set = TaskSetMeta {
        name: "s".into(),
        sha256: "0123456789abcdef".into(),
        n: 1,
    };
    assert_eq!(default_out_file(&set, "org/m:1"), "results/s-org_m_1-012345.json");
    let short = TaskSetMeta {
        name: "s".into(),
        sha256: "ab".into(),
        n: 1,
    };
    assert_eq!(default_out_file(&short, "m"), "results/s-m-ab.json");
}

fn load_bundled(name: &str) -> reasonmetrics::bench::taskset::TaskSet {
    let (sha, lines) = load_lines(name).unwrap();
    let tasks = lines
        .iter()
        .map(|(_, line)| {
            let v: serde_json::Value = serde_json::from_str(line).unwrap();
            Task {
                id: v["id"].as_str().unwrap().to_string(),
                problem: v["problem"].as_str().unwrap().to_string(),
                expected_answer: v["expected_answer"].as_str().unwrap().to_string(),
            }
        })
        .collect();
    task_set(name, sha, tasks).unwrap()
}

#[test]
fn loads_bundled_overthinking_v1() {
    let ts = load_bundled("overthinking-v1");
    assert_eq!(ts.name, "overthinking-v1");
    assert_eq!(ts.tasks.len(), 12);
    assert_eq!(ts.tasks[0].id, "ot-001");
    assert_eq!(ts.tasks[0].expected_answer, "43");
    // sha256 is 64 lowercase hex chars and stable across calls.
    assert_eq!(ts.sha256.len(), 64);
    assert_eq!(ts.sha256, load_bundled("overthinking-v1").sha256);
}

#[test]
fn escapes_model_names() {
    let cell = esc("<script>x</script>");
    assert!(!cell.contains("<script>x"));
    assert!(cell.contains("&lt;script&gt;"));
}

#[test]
fn task_verdict_errors_only_when_nothing_was_answered() {
    assert!(matches!(task_verdict(&vec![]), TaskVerdict::Errored));
    match task_verdict(&vec![(false, 10, false), (true, 20, true), (false, 30, false)]) {
        TaskVerdict::Scored { solved, tally } => {
            assert!(solved, "any correct sample solves the task");
            assert_eq!(tally.samples_correct, 1);
            assert_eq!(tally.tokens, 60);
            assert!(tally.tokens_estimated);
        }
        TaskVerdict::Errored => panic!("answered samples make a scored row"),
    }
    match task_verdict(&vec![(false, 5, false)]) {
        TaskVerdict::Scored { solved, .. } => assert!(!solved),
        TaskVerdict::Errored => panic!("answered samples make a scored row"),
    }
}

#[test]
fn ymd_steps_one_calendar_day_per_day() {
    // 2100 is no leap year; 2400 is.
    assert_eq!(ymd(4_107_456_000 + 86_400), "2100-03-01");
    assert_eq!(ymd(4_107_542_400), "2100-03-01");
    assert_eq!(ymd(13_574_563_200 - 86_400), "2400-02-28");
    assert_eq!(ymd(13_574_563_200), "2400-02-29");
    assert_eq!(ymd(1_735_603_200 + 86_399), "2024-12-31");
    assert_eq!(ymd(1_735_689_600), "2025-01-01");
}
