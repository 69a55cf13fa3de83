use file_processor::aggregate::{run_pipeline, Aggregate, WorkQueue};
use file_processor::report::build_report;
use file_processor::stats::{analyze_input, is_txt_file_name, FileContents, FileInput};

fn input(name: &str, contents: Option<(&str, u64)>, nanos: u64) -> FileInput {
    FileInput {
        filename: name.to_string(),
        outcome: contents.map(|(text, size_bytes)| FileContents {
            text: text.to_string(),
            size_bytes,
        }),
        elapsed_nanos: nanos,
    }
}

#[test]
fn aggregate_counts_every_record() {
    let mut agg = Aggregate::new();
    assert_eq!(agg.progress(), 0);
    let a = analyze_input(&input("a.txt", Some(("hi", 2)), 5));
    agg.record(a);
    assert_eq!(agg.progress(), 1);
    let b = analyze_input(&input("b.txt", Some(("ho ho", 5)), 7));
    agg.record(b);
    assert_eq!(agg.progress(), 2);
    assert_eq!(agg.entries.len(), 2);
}

#[test]
fn work_queue_hands_out_in_submission_order() {
    let mut q = WorkQueue::new();
    q.submit("one.txt".to_string());
    q.submit("two.txt".to_string());
    assert_eq!(q.take().as_deref(), Some("one.txt"));
    assert_eq!(q.take().as_deref(), Some("two.txt"));
    assert!(q.take().is_none());
}

#[test]
fn pipeline_keeps_one_entry_per_submitted_file() {
    let inputs = vec![
        input("a.txt", Some(("alpha beta", 10)), 1),
        input("b.txt", None, 2),
        input("c.txt", Some(("", 0)), 3),
    ];
    let agg = run_pipeline(&inputs);
    assert_eq!(agg.entries.len(), 3);
    assert_eq!(agg.completed, 3);
    assert_eq!(agg.entries[0].filename, "a.txt");
    assert_eq!(agg.entries[1].filename, "b.txt");
    assert_eq!(agg.entries[2].filename, "c.txt");
}

#[test]
fn rerunning_the_same_inputs_gives_identical_totals() {
    let inputs = vec![
        input("a.txt", Some(("go go 2", 8)), 11),
        input("b.txt", Some(("x\ny\n", 4)), 13),
    ];
    let first = run_pipeline(&inputs);
    let second = run_pipeline(&inputs);
    let r1 = build_report(&first.entries, 10);
    let r2 = build_report(&second.entries, 10);
    assert_eq!(r1.totals.words, r2.totals.words);
    assert_eq!(r1.totals.lines, r2.totals.lines);
    assert_eq!(r1.totals.bytes, r2.totals.bytes);
    assert_eq!(r1.files_processed, r2.files_processed);
}

#[test]
fn empty_input_set_yields_a_clean_empty_report() {
    let inputs: Vec<FileInput> = Vec::new();
    let agg = run_pipeline(&inputs);
    assert_eq!(agg.entries.len(), 0);
    assert_eq!(agg.progress(), 0);
    let report = build_report(&agg.entries, 10);
    assert_eq!(report.files_processed, 0);
    assert_eq!(report.totals.words, 0);
    assert_eq!(report.totals.lines, 0);
    assert_eq!(report.totals.bytes, 0);
    assert!(report.average_nanos.is_none());
    assert!(report.top_characters.is_empty());
}

#[test]
fn failed_read_contributes_zero_record_without_stopping_others() {
    let inputs = vec![
        input("bad.txt", None, 4),
        input("good.txt", Some(("one two three", 13)), 6),
    ];
    let agg = run_pipeline(&inputs);
    assert_eq!(agg.entries.len(), 2);
    let bad = &agg.entries[0].stats;
    assert_eq!(bad.word_count, 0);
    assert_eq!(bad.line_count, 0);
    assert_eq!(bad.size_bytes, 0);
    assert!(bad.char_frequencies.entries.is_empty());
    let good = &agg.entries[1].stats;
    assert_eq!(good.word_count, 3);
    assert_eq!(good.line_count, 1);
    assert_eq!(good.size_bytes, 13);
    let report = build_report(&agg.entries, 10);
    assert_eq!(report.totals.words, 3);
    assert_eq!(report.totals.lines, 1);
    assert_eq!(report.totals.bytes, 13);
}

#[test]
fn two_file_example_aggregates_to_expected_totals() {
    let inputs = vec![
        input("a.txt", Some(("go go 2", 8)), 100),
        input("b.txt", Some(("x\ny\n", 4)), 200),
    ];
    let agg = run_pipeline(&inputs);
    assert_eq!(agg.entries.len(), 2);
    assert_eq!(agg.entries[0].stats.word_count, 3);
    assert_eq!(agg.entries[0].stats.line_count, 1);
    assert_eq!(agg.entries[1].stats.word_count, 2);
    assert_eq!(agg.entries[1].stats.line_count, 2);
    let report = build_report(&agg.entries, 10);
    assert_eq!(report.totals.words, 5);
    assert_eq!(report.totals.lines, 3);
    assert_eq!(report.totals.bytes, 12);
    assert_eq!(report.files_processed, 2);
    assert_eq!(report.average_nanos, Some(150));
}

#[test]
fn discoverer_filter_matches_txt_names_only() {
    assert!(is_txt_file_name("a.txt"));
    assert!(is_txt_file_name("notes.2024.txt"));
    assert!(!is_txt_file_name(".txt"));
    assert!(!is_txt_file_name("txt"));
    assert!(!is_txt_file_name("readme.md"));
    assert!(!is_txt_file_name(""));
}
