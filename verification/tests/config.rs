use reasonmetrics::config::{
    default_output_name, format_for_extension, AccuracyEfficiencyConfig, InputConfig,
    LanguageConfig, LengthConfig, OutputFormat,
};
use reasonmetrics::registry::{extract_thinking, Extraction};

#[test]
fn config_defaults() {
    assert!(!InputConfig::default().strict);
    let l = LanguageConfig::default();
    assert_eq!((l.num_chunks, l.min_words_per_chunk), (10, 20));
    let l = LengthConfig::default();
    assert_eq!((l.sweet_spot_min, l.sweet_spot_max), (200, 3000));
    let a = AccuracyEfficiencyConfig::default();
    assert_eq!((a.token_min, a.token_max), (50, 5000));
    assert_eq!(OutputFormat::default(), OutputFormat::Parquet);
}

#[test]
fn registry_extraction_tries_tag_pairs_in_order() {
    let e = Extraction {
        think_tags: vec![
            ("<seed:think>".into(), "</seed:think>".into()),
            ("<think>".into(), "</think>".into()),
        ],
        reasoning_fields: vec![],
    };
    assert_eq!(extract_thinking(&e, "<think> a </think>"), Some("a".to_string()));
    assert_eq!(
        extract_thinking(&e, "<seed:think>x</seed:think><think>y</think>"),
        Some("x".to_string())
    );
    assert_eq!(extract_thinking(&e, "<seed:think>open only <think>y</think>"), Some("y".to_string()));
    assert_eq!(extract_thinking(&e, "no tags"), None);
    assert_eq!(extract_thinking(&Extraction::default(), "<think>a</think>"), None);
}

#[test]
fn output_format_follows_the_extension() {
    assert_eq!(
        format_for_extension(Some("PARQUET"), OutputFormat::Jsonl),
        Ok(OutputFormat::Parquet)
    );
    assert_eq!(
        format_for_extension(Some("jsonl"), OutputFormat::Parquet),
        Ok(OutputFormat::Jsonl)
    );
    assert_eq!(
        format_for_extension(None, OutputFormat::Jsonl),
        Ok(OutputFormat::Jsonl)
    );
    assert_eq!(
        format_for_extension(Some("csv"), OutputFormat::Parquet),
        Err("Unsupported output format: csv. Use .parquet or .jsonl".to_string())
    );
    assert_eq!(default_output_name(OutputFormat::Parquet), "scored.parquet");
    assert_eq!(default_output_name(OutputFormat::Jsonl), "scored.jsonl");
}
