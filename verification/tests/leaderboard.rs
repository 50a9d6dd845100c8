use reasonmetrics::bench::leaderboard::{
    group_by_task_set, newest_runs, validate_entry, RunKey, SamplingRef, TaskSetRef,
};
use reasonmetrics::bench::taskset::load_lines;

fn set(name: &str, sha: &str) -> TaskSetRef {
    TaskSetRef {
        name: name.into(),
        sha256: sha.into(),
        n: 100,
    }
}

#[test]
fn valid_entry_has_no_problems() {
    let ts = set("custom-set", &"a".repeat(64));
    assert!(validate_entry("1", "m", &ts, &SamplingRef { samples: 1 }, 10, vec![]).is_empty());
}

#[test]
fn validate_flags_bad_fields() {
    let ts = set("custom-set", "nothex");
    let problems = validate_entry(
        "99",
        "  ",
        &ts,
        &SamplingRef { samples: 0 },
        10,
        vec!["accuracy 1.5 out of [0,1]".to_string()],
    );
    assert!(problems.iter().any(|p| p.contains("schema_version")));
    assert!(problems.iter().any(|p| p.contains("model is empty")));
    assert!(problems.iter().any(|p| p.contains("accuracy")));
    assert!(problems.iter().any(|p| p.contains("sha256")));
    assert!(problems.iter().any(|p| p.contains("samples")));
    assert_eq!(
        problems,
        vec![
            "schema_version \"99\" unsupported (this build reads \"1\")",
            "model is empty",
            "task_set.sha256 is not 64 lowercase hex chars",
            "accuracy 1.5 out of [0,1]",
            "sampling.samples must be >= 1",
        ]
    );
}

#[test]
fn integrity_check_compares_a_bundled_set_with_its_frozen_digest() {
    let wrong = set("overthinking-v1", &"a".repeat(64));
    let problems = validate_entry("1", "m", &wrong, &SamplingRef { samples: 1 }, 10, vec![]);
    assert_eq!(problems.len(), 1);
    assert!(problems[0].starts_with("task_set.sha256 aaaaaaaa… does not match the frozen bundled `overthinking-v1` ("));
    let (frozen, _) = load_lines("overthinking-v1").unwrap();
    let right = set("overthinking-v1", &frozen);
    assert!(validate_entry("1", "m", &right, &SamplingRef { samples: 1 }, 10, vec![]).is_empty());
}

#[test]
fn n_scored_cannot_exceed_task_set_size() {
    let ts = set("custom-set", &"a".repeat(64));
    let problems = validate_entry("1", "m", &ts, &SamplingRef { samples: 1 }, 101, vec![]);
    assert_eq!(problems, vec!["n_scored 101 exceeds task_set.n 100"]);
    let open = TaskSetRef { n: 0, ..set("custom-set", &"a".repeat(64)) };
    assert!(validate_entry("1", "m", &open, &SamplingRef { samples: 1 }, 101, vec![]).is_empty());
}

fn key(model: &str, set: &str, samples: usize, generated_at: u64) -> RunKey {
    RunKey {
        task_set: set.into(),
        sha256: "sha1".into(),
        model: model.into(),
        samples,
        generated_at,
    }
}

#[test]
fn dedup_keeps_newest_run_per_model() {
    let keys = vec![key("m", "s", 1, 100), key("m", "s", 1, 200)];
    assert_eq!(newest_runs(&keys), vec![1]);
}

#[test]
fn different_samples_are_separate_rows() {
    let keys = vec![key("m", "s", 1, 1), key("m", "s", 4, 1), key("m", "t", 1, 1)];
    assert_eq!(newest_runs(&keys), vec![0, 1, 2]);
}

#[test]
fn equally_new_runs_keep_the_first_listed() {
    let keys = vec![key("m", "s", 1, 5), key("m", "s", 1, 5), key("m", "s", 1, 3)];
    assert_eq!(newest_runs(&keys), vec![0]);
}

#[test]
fn two_distinct_task_sets_make_two_groups() {
    let sets = vec![set("s", "sha1"), set("s", "sha1"), set("t", "sha2")];
    assert_eq!(group_by_task_set(&sets), vec![vec![0, 1], vec![2]]);
}

#[test]
fn groups_come_in_name_then_digest_order() {
    let sets = vec![
        set("t", "sha2"),
        set("s", "sha1"),
        set("t", "sha2"),
        set("t", "sha1"),
        set("S", "sha9"),
    ];
    // Upper case sorts before lower case, as `str` orders them.
    assert_eq!(
        group_by_task_set(&sets),
        vec![vec![4], vec![1], vec![3], vec![0, 2]]
    );
}

#[test]
fn same_name_with_another_digest_is_another_group() {
    let sets = vec![set("s", "b"), set("s", "a"), set("s", "b")];
    assert_eq!(group_by_task_set(&sets), vec![vec![1], vec![0, 2]]);
}

#[test]
fn no_runs_no_groups() {
    assert!(group_by_task_set(&vec![]).is_empty());
}

#[test]
fn a_prefix_sorts_first() {
    let sets = vec![set("setb", "x"), set("set", "x"), set("seta", "x")];
    assert_eq!(group_by_task_set(&sets), vec![vec![1], vec![2], vec![0]]);
}
