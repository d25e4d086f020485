use file_processor::aggregate::aggregate;
use file_processor::aggregate::count_line_words_concurrent;
use file_processor::aggregate::WordCountMap;
use file_processor::stream_ext::FileProcessorStreamExt;
use file_processor::stream_ext::StringMultiStreamExt;

fn sources(pairs: &[(&str, &str)]) -> Vec<(String, String)> {
    pairs.iter().map(|(id, text)| (id.to_string(), text.to_string())).collect()
}

#[test]
fn test_count_line_words_concurrent() {
    let srcs = sources(&[
        ("file1.txt", "hello world\nfoo bar baz\n"),
        ("file2.txt", "one two\nthree four\n"),
    ]);
    let result = count_line_words_concurrent(&srcs);
    assert_eq!(result.get("file1.txt").unwrap(), &vec![2, 3]);
    assert_eq!(result.get("file2.txt").unwrap(), &vec![2, 2]);
    assert_eq!(result.len(), 2);
}

#[test]
fn test_distinct_identifiers_do_not_mix() {
    let srcs = sources(&[("a", "x\nx x\nx x x\n"), ("b", "y y y y\n\ny y\n")]);
    let result = count_line_words_concurrent(&srcs);
    assert_eq!(result.get("a").unwrap(), &vec![1, 2, 3]);
    assert_eq!(result.get("b").unwrap(), &vec![4, 0, 2]);
}

#[test]
fn test_no_sources_yield_empty_mapping() {
    let srcs: Vec<(String, String)> = Vec::new();
    let result = count_line_words_concurrent(&srcs);
    assert_eq!(result.len(), 0);
    assert!(result.get("anything").is_none());
}

#[test]
fn test_unopened_identifier_is_absent() {
    // A source that fails to open never reaches the aggregator: it is
    // filtered out at the boundary, so its identifier has no entry.
    let requested = ["present.txt", "missing.txt"];
    let opened = sources(&[("present.txt", "a b c\n")]);
    let result = count_line_words_concurrent(&opened);
    assert_eq!(result.get(requested[0]).unwrap(), &vec![3]);
    assert!(result.get(requested[1]).is_none());
    assert_eq!(result.len(), 1);
}

#[test]
fn test_aggregation_is_idempotent() {
    let srcs = sources(&[
        ("one", "alpha beta\ngamma\n"),
        ("two", "delta epsilon zeta\n"),
        ("one", "eta\n"),
    ]);
    let first = count_line_words_concurrent(&srcs);
    let second = count_line_words_concurrent(&srcs);
    assert_eq!(first.len(), second.len());
    for key in ["one", "two"] {
        assert_eq!(first.get(key).unwrap(), second.get(key).unwrap());
    }
}

#[test]
fn test_shared_identifier_entries_are_appended() {
    let srcs = sources(&[("log", "a b\nc\n"), ("log", "d e f\n")]);
    let result = count_line_words_concurrent(&srcs);
    assert_eq!(result.get("log").unwrap(), &vec![2, 1, 3]);
    assert_eq!(result.len(), 1);
}

#[test]
fn test_empty_source_contributes_no_entry() {
    let srcs = sources(&[("empty", ""), ("full", "one\n")]);
    let result = count_line_words_concurrent(&srcs);
    assert!(result.get("empty").is_none());
    assert_eq!(result.get("full").unwrap(), &vec![1]);
    assert_eq!(result.len(), 1);
}

#[test]
fn test_aggregate_folds_interleaved_items() {
    let items: Vec<(String, usize)> = vec![
        ("a".to_string(), 1),
        ("b".to_string(), 4),
        ("a".to_string(), 2),
        ("b".to_string(), 5),
        ("a".to_string(), 3),
    ];
    let result = aggregate(&items);
    assert_eq!(result.get("a").unwrap(), &vec![1, 2, 3]);
    assert_eq!(result.get("b").unwrap(), &vec![4, 5]);
}

#[test]
fn test_push_count_builds_entries_in_arrival_order() {
    let mut map = WordCountMap::new();
    map.push_count("k", 7);
    map.push_count("m", 1);
    map.push_count("k", 9);
    assert_eq!(map.get("k").unwrap(), &vec![7, 9]);
    assert_eq!(map.get("m").unwrap(), &vec![1]);
    assert_eq!(map.len(), 2);
}

#[test]
fn test_as_entries_lists_every_identifier_once() {
    let srcs = sources(&[("p", "x\n"), ("q", "y y\n"), ("p", "z z z\n")]);
    let result = count_line_words_concurrent(&srcs);
    let entries = result.as_entries();
    assert_eq!(entries.len(), 2);
    let mut keys: Vec<&str> = entries.iter().map(|e| e.0.as_str()).collect();
    keys.sort();
    assert_eq!(keys, ["p", "q"]);
}

#[test]
fn test_file_processor_stream_ext_method() {
    let srcs = sources(&[("file1.txt", "hello world\nfoo bar baz\n")]);
    let result = FileProcessorStreamExt::count_line_words_concurrent(srcs);
    assert_eq!(result.get("file1.txt").unwrap(), &vec![2, 3]);
}

#[test]
fn test_string_multi_stream_ext_method() {
    let srcs = sources(&[("buffer-1", "a b c d\ne\n")]);
    let result = StringMultiStreamExt::count_line_words_concurrent(srcs);
    assert_eq!(result.get("buffer-1").unwrap(), &vec![4, 1]);
}
