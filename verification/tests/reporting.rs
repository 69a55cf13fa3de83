use file_processor::aggregate::run_pipeline;
use file_processor::report::{
    average_nanos, build_report, char_display_name, compute_totals, merge_frequencies, top_chars,
};
use file_processor::stats::{FileContents, FileInput};
use file_processor::text::histogram_of;

fn input(name: &str, text: &str, size_bytes: u64, nanos: u64) -> FileInput {
    FileInput {
        filename: name.to_string(),
        outcome: Some(FileContents { text: text.to_string(), size_bytes }),
        elapsed_nanos: nanos,
    }
}

fn merged_count(m: &[(char, u128)], c: char) -> Option<u128> {
    m.iter().find(|e| e.0 == c).map(|e| e.1)
}

#[test]
fn totals_are_independent_of_worker_order() {
    let one = input("a.txt", "go go 2", 8, 100);
    let two = input("b.txt", "x\ny\n", 4, 200);
    let three = input("c.txt", "lorem\nipsum", 11, 300);
    let forward = run_pipeline(&vec![one.clone(), two.clone(), three.clone()]);
    let backward = run_pipeline(&vec![three, two, one]);
    let rf = build_report(&forward.entries, 10);
    let rb = build_report(&backward.entries, 10);
    assert_eq!(rf.totals.words, rb.totals.words);
    assert_eq!(rf.totals.lines, rb.totals.lines);
    assert_eq!(rf.totals.bytes, rb.totals.bytes);
    assert_eq!(rf.average_nanos, rb.average_nanos);
}

#[test]
fn merge_sums_counts_across_files() {
    let agg = run_pipeline(&vec![
        input("a.txt", "go go 2", 8, 1),
        input("b.txt", "x\ny\n", 4, 1),
    ]);
    let merged = merge_frequencies(&agg.entries);
    assert_eq!(merged_count(&merged, 'g'), Some(2));
    assert_eq!(merged_count(&merged, 'o'), Some(2));
    assert_eq!(merged_count(&merged, ' '), Some(2));
    assert_eq!(merged_count(&merged, '2'), Some(1));
    assert_eq!(merged_count(&merged, 'x'), Some(1));
    assert_eq!(merged_count(&merged, 'y'), Some(1));
    assert_eq!(merged_count(&merged, '\n'), Some(2));
    assert_eq!(merged_count(&merged, 'z'), None);
    assert_eq!(merged.len(), 7);
}

#[test]
fn merged_top_two_sits_among_the_tied_leaders() {
    let agg = run_pipeline(&vec![
        input("a.txt", "go go 2", 8, 1),
        input("b.txt", "x\ny\n", 4, 1),
    ]);
    let merged = merge_frequencies(&agg.entries);
    let top = top_chars(merged, 2);
    assert_eq!(top.len(), 2);
    let tied: Vec<char> = vec!['g', 'o', ' ', '\n'];
    for entry in &top {
        assert!(tied.contains(&entry.0));
        assert_eq!(entry.1, 2);
    }
    assert_ne!(top[0].0, top[1].0);
}

#[test]
fn ranking_is_descending_with_ties_in_first_seen_order() {
    let agg = run_pipeline(&vec![input("a.txt", "abacabad", 8, 1)]);
    let merged = merge_frequencies(&agg.entries);
    // a:4 b:2 c:1 d:1, first seen a, b, c, d
    let top = top_chars(merged, 10);
    let chars: Vec<char> = top.iter().map(|e| e.0).collect();
    let counts: Vec<u128> = top.iter().map(|e| e.1).collect();
    assert_eq!(chars, vec!['a', 'b', 'c', 'd']);
    assert_eq!(counts, vec![4, 2, 1, 1]);
}

#[test]
fn top_k_is_cut_to_the_table_size() {
    let agg = run_pipeline(&vec![input("a.txt", "ab", 2, 1)]);
    let merged = merge_frequencies(&agg.entries);
    let top = top_chars(merged, 10);
    assert_eq!(top.len(), 2);
}

#[test]
fn totals_match_per_file_sums() {
    let agg = run_pipeline(&vec![
        input("a.txt", "one two", 7, 50),
        input("b.txt", "three\nfour five\n", 16, 150),
    ]);
    let totals = compute_totals(&agg.entries);
    assert_eq!(totals.words, 2 + 3);
    assert_eq!(totals.lines, 1 + 2);
    assert_eq!(totals.bytes, 7 + 16);
    assert_eq!(average_nanos(&agg.entries), 100);
}

#[test]
fn display_names_for_special_characters() {
    assert_eq!(char_display_name(' '), "space");
    assert_eq!(char_display_name('\n'), "newline");
    assert_eq!(char_display_name('\t'), "tab");
    assert_eq!(char_display_name('g'), "'g'");
}

#[test]
fn single_file_histogram_reaches_the_merge_unchanged() {
    let h = histogram_of("go go 2");
    let pairs: Vec<(char, usize)> = h.entries.clone();
    assert_eq!(pairs, vec![('g', 2), ('o', 2), (' ', 2), ('2', 1)]);
}
