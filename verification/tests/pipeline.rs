use cluster_report::cloud::exclusion_vocabulary;
use cluster_report::cloud::filter_excluded;
use cluster_report::cloud::count_frequencies;
use cluster_report::cloud::join_with_spaces;
use cluster_report::cloud::max_count;
use cluster_report::cloud::saturation_hundredths;
use cluster_report::cloud::slug;
use cluster_report::cloud::take_capped;
use cluster_report::cloud::tokenize;
use cluster_report::grouping::group_sentences_by_cluster;
use cluster_report::labels::check_reduction_shapes;
use cluster_report::labels::labels_from_oracle;
use cluster_report::labels::pair_lines_with_labels;
use cluster_report::labels::ReductionFault;

fn strings(vals: &[&str]) -> Vec<String> {
    vals.iter().map(|v| v.to_string()).collect()
}

#[test]
fn grouping_partitions_lines_by_label() {
    let data = vec![
        ("alpha".to_string(), Some(1)),
        ("beta".to_string(), None),
        ("gamma".to_string(), Some(0)),
        ("delta".to_string(), Some(1)),
    ];
    let grouped = group_sentences_by_cluster(data);
    assert_eq!(grouped.len(), 2);
    assert_eq!(grouped[&1], strings(&["alpha", "delta"]));
    assert_eq!(grouped[&0], strings(&["gamma"]));
}

#[test]
fn grouping_drops_all_noise() {
    let data = vec![("a".to_string(), None), ("b".to_string(), None)];
    let grouped = group_sentences_by_cluster(data);
    assert!(grouped.is_empty());
}

#[test]
fn grouping_keeps_duplicate_lines() {
    let data = vec![("same".to_string(), Some(7)), ("same".to_string(), Some(7))];
    let grouped = group_sentences_by_cluster(data);
    assert_eq!(grouped[&7], strings(&["same", "same"]));
}

#[test]
fn labels_from_successful_oracle() {
    let labels = labels_from_oracle(Some(vec![0, 2, -1, 1]), 4);
    assert_eq!(labels, vec![Some(0), Some(2), None, Some(1)]);
}

#[test]
fn labels_degrade_to_noise_on_oracle_failure() {
    let labels = labels_from_oracle(None, 3);
    assert_eq!(labels, vec![None, None, None]);
}

#[test]
fn reduction_shapes_accept_uniform_wide_rows() {
    assert_eq!(check_reduction_shapes(&vec![8, 8, 8], 5), Ok(8));
}

#[test]
fn reduction_shapes_reject_empty_input() {
    assert_eq!(check_reduction_shapes(&vec![], 5), Err(ReductionFault::EmptyInput));
}

#[test]
fn reduction_shapes_reject_ragged_rows() {
    assert_eq!(check_reduction_shapes(&vec![8, 7, 8], 5), Err(ReductionFault::RaggedRows));
}

#[test]
fn reduction_shapes_reject_narrow_rows() {
    assert_eq!(check_reduction_shapes(&vec![3, 3], 5), Err(ReductionFault::TooFewFeatures));
}

#[test]
fn pairing_zips_lines_with_labels() {
    let pairs = pair_lines_with_labels(strings(&["x", "y"]), vec![Some(0), None]);
    assert_eq!(pairs, vec![("x".to_string(), Some(0)), ("y".to_string(), None)]);
}

#[test]
fn tokenizer_splits_on_whitespace_runs() {
    let toks = tokenize("  good battery\tlife \n battery ");
    assert_eq!(toks, strings(&["good", "battery", "life", "battery"]));
}

#[test]
fn tokenizer_preserves_case_and_empty_input() {
    assert_eq!(tokenize("Dell DELL dell"), strings(&["Dell", "DELL", "dell"]));
    assert!(tokenize("   ").is_empty());
    assert!(tokenize("").is_empty());
}

#[test]
fn exclusion_vocabulary_holds_base_and_domain_literals() {
    let vocab = exclusion_vocabulary("the and a");
    assert!(vocab.contains(&"the".to_string()));
    assert!(vocab.contains(&"Survey".to_string()));
    assert!(vocab.contains(&"survey".to_string()));
    assert!(vocab.contains(&"SURVEY".to_string()));
    assert!(vocab.contains(&"N/A".to_string()));
    assert!(vocab.contains(&"Dell".to_string()));
    assert!(vocab.contains(&"Feedback".to_string()));
    assert!(vocab.contains(&"ID".to_string()));
    assert!(vocab.contains(&"Comment".to_string()));
    assert!(!vocab.contains(&"battery".to_string()));
}

#[test]
fn excluded_tokens_never_survive_filtering() {
    let toks = strings(&["Survey", "battery", "Dell", "battery", "Survey", "screen"]);
    let vocab = exclusion_vocabulary("");
    let kept = filter_excluded(&toks, &vocab);
    assert_eq!(kept, strings(&["battery", "battery", "screen"]));
    assert!(!kept.contains(&"Survey".to_string()));
    assert!(!kept.contains(&"Dell".to_string()));
}

#[test]
fn frequencies_count_each_distinct_token() {
    let toks = strings(&["b", "a", "b", "c", "b", "a"]);
    let counts = count_frequencies(&toks);
    assert_eq!(
        counts,
        vec![("b".to_string(), 3), ("a".to_string(), 2), ("c".to_string(), 1)]
    );
    assert_eq!(max_count(&counts), 3);
    assert_eq!(max_count(&Vec::new()), 0);
}

#[test]
fn counting_ceiling_caps_considered_occurrences() {
    let toks = strings(&["a", "a", "b", "b", "b"]);
    let capped = take_capped(toks, 3);
    assert_eq!(capped, strings(&["a", "a", "b"]));
    let counts = count_frequencies(&capped);
    assert_eq!(counts, vec![("a".to_string(), 2), ("b".to_string(), 1)]);
}

#[test]
fn saturation_buckets_match_the_color_table() {
    assert_eq!(saturation_hundredths(95, 100), 95);
    assert_eq!(saturation_hundredths(50, 100), 100);
    assert_eq!(saturation_hundredths(15, 100), 80);
    assert_eq!(saturation_hundredths(7, 100), 60);
    assert_eq!(saturation_hundredths(4, 100), 30);
    assert_eq!(saturation_hundredths(1, 100), 20);
    assert_eq!(saturation_hundredths(3, 3), 100);
}

#[test]
fn weighted_summary_counts_filters_and_colors() {
    let vocab = strings(&["Survey"]);
    let corpus = format!("{}b b c Survey", "a ".repeat(20));
    let ws = cluster_report::cloud::weighted_tokens(&corpus, &vocab, 100_000);
    assert_eq!(
        ws,
        vec![
            ("a".to_string(), 20, 100),
            ("b".to_string(), 2, 80),
            ("c".to_string(), 1, 30),
        ]
    );
}

#[test]
fn weighted_summary_respects_the_counting_ceiling() {
    let ws = cluster_report::cloud::weighted_tokens("x y x", &Vec::new(), 2);
    assert_eq!(ws, vec![("x".to_string(), 1, 100), ("y".to_string(), 1, 100)]);
}

#[test]
fn corpus_joins_lines_with_single_spaces() {
    let corpus = join_with_spaces(&strings(&["good battery life", "battery issues"]));
    assert_eq!(corpus, "good battery life battery issues");
    assert_eq!(join_with_spaces(&Vec::new()), "");
    assert_eq!(join_with_spaces(&strings(&["solo"])), "solo");
}

#[test]
fn slug_lowercases_and_replaces_separators() {
    assert_eq!(slug("Battery Life/Drain"), "battery_life_drain");
    assert_eq!(slug("A B\\c"), "a_b_c");
    assert_eq!(slug("plain"), "plain");
}

#[test]
fn slug_lowercases_by_unicode() {
    assert_eq!(slug("\u{c9}cran Bleu"), "\u{e9}cran_bleu");
    assert_eq!(slug("Stra\u{df}e/Weg"), "stra\u{df}e_weg");
    assert_eq!(slug("a\u{a0}b"), "a_b");
}
