use cluster_report::cloud::count_frequencies;
use cluster_report::cloud::exclusion_vocabulary;
use cluster_report::cloud::filter_excluded;
use cluster_report::cloud::join_with_spaces;
use cluster_report::cloud::max_count;
use cluster_report::cloud::saturation_hundredths;
use cluster_report::cloud::tokenize;
use cluster_report::extract::extract_non_empty_first_column;
use cluster_report::grouping::group_sentences_by_cluster;
use cluster_report::table::encode_table;
use cluster_report::table::sort_keys;
use cluster_report::table::str_leq;
use cluster_report::table::table_rows;

fn strings(vals: &[&str]) -> Vec<String> {
    vals.iter().map(|v| v.to_string()).collect()
}

#[test]
fn keys_sort_lexicographically() {
    let sorted = sort_keys(&strings(&["2", "10", "1", "0"]));
    assert_eq!(sorted, strings(&["0", "1", "10", "2"]));
    assert!(str_leq("10", "2"));
    assert!(!str_leq("2", "10"));
    assert!(str_leq("ab", "abc"));
    assert!(str_leq("abc", "abc"));
}

#[test]
fn table_pads_columns_to_longest_group() {
    let groups = vec![
        ("b".to_string(), strings(&["b1"])),
        ("a".to_string(), strings(&["a1", "a2", "a3"])),
    ];
    let (header, rows) = table_rows(&groups);
    assert_eq!(header, strings(&["a", "b"]));
    assert_eq!(rows.len(), 3);
    assert_eq!(rows[0], strings(&["a1", "b1"]));
    assert_eq!(rows[1], strings(&["a2", ""]));
    assert_eq!(rows[2], strings(&["a3", ""]));
}

#[test]
fn table_of_no_groups_is_empty() {
    let (header, rows) = table_rows(&Vec::new());
    assert!(header.is_empty());
    assert!(rows.is_empty());
}

#[test]
fn encoded_table_escapes_embedded_separators() {
    let groups = vec![("a".to_string(), strings(&["x,y", "plain"]))];
    let (header, rows) = table_rows(&groups);
    let bytes = encode_table(&header, &rows);
    assert_eq!(String::from_utf8(bytes).unwrap(), "a\n\"x,y\"\nplain\n");
}

#[test]
fn encoded_table_quotes_quotes_and_newlines() {
    let groups = vec![
        ("k".to_string(), strings(&["say \"hi\""])),
        ("l".to_string(), strings(&["two\nlines"])),
    ];
    let (header, rows) = table_rows(&groups);
    let bytes = encode_table(&header, &rows);
    assert_eq!(
        String::from_utf8(bytes).unwrap(),
        "k,l\n\"say \"\"hi\"\"\",\"two\nlines\"\n"
    );
}

#[test]
fn extraction_keeps_non_blank_first_column_values() {
    let data = b"header,other\nv1,x\n ,x\n\" \",y\nv2,z\n".to_vec();
    let values = extract_non_empty_first_column(&data);
    assert_eq!(values, strings(&["v1", "v2"]));
}

#[test]
fn extraction_skips_unicode_blank_values() {
    let text = format!("header\nv1\n\u{00A0}\n\u{000B}\nv2\n");
    let values = extract_non_empty_first_column(&text.into_bytes());
    assert_eq!(values, strings(&["v1", "v2"]));
}

#[test]
fn extraction_skips_malformed_rows() {
    let mut data = b"header\nv1\n".to_vec();
    data.extend_from_slice(&[0xff, 0xfe, b'\n']);
    data.extend_from_slice(b"v2\n");
    let values = extract_non_empty_first_column(&data);
    assert_eq!(values, strings(&["v1", "v2"]));
}

#[test]
fn extraction_of_empty_input_yields_nothing() {
    let values = extract_non_empty_first_column(&Vec::new());
    assert!(values.is_empty());
}

#[test]
fn end_to_end_battery_scenario() {
    let lines = strings(&[
        "good battery life",
        "battery issues",
        "screen is great",
        "battery drains fast",
    ]);
    let labels = vec![Some(0), Some(0), None, Some(0)];
    let pairs: Vec<(String, Option<usize>)> =
        lines.iter().cloned().zip(labels.into_iter()).collect();
    let grouped = group_sentences_by_cluster(pairs);
    assert_eq!(grouped.len(), 1);
    assert_eq!(
        grouped[&0],
        strings(&["good battery life", "battery issues", "battery drains fast"])
    );

    let groups = vec![("0".to_string(), grouped[&0].clone())];
    let (header, rows) = table_rows(&groups);
    assert_eq!(header, strings(&["0"]));
    assert_eq!(rows.len(), 3);
    let bytes = encode_table(&header, &rows);
    assert_eq!(
        String::from_utf8(bytes).unwrap(),
        "0\ngood battery life\nbattery issues\nbattery drains fast\n"
    );

    let corpus = join_with_spaces(&groups[0].1);
    assert_eq!(corpus, "good battery life battery issues battery drains fast");
    let toks = tokenize(&corpus);
    let vocab = exclusion_vocabulary("");
    let kept = filter_excluded(&toks, &vocab);
    let counts = count_frequencies(&kept);
    let top = max_count(&counts);
    let battery = counts.iter().find(|c| c.0 == "battery").unwrap();
    assert_eq!(battery.1, 3);
    assert_eq!(top, 3);
    assert_eq!(saturation_hundredths(battery.1, top), 100);
}
