use json_sort::inputs::{admit_path, input_fails, is_glob_pattern, reads_standard_input};
use json_sort::run::{Mode, Status, file_status, run_fails, run_mode};
use json_sort::sort_and_compare;

#[test]
fn a_sorted_text_is_unchanged() {
    let (sorted, changed) = sort_and_compare("{\"a\":1,\"b\":2}\n").expect("a document");
    assert_eq!(sorted, "{\"a\":1,\"b\":2}\n");
    assert!(!changed);
}

#[test]
fn an_unsorted_text_is_changed() {
    let (sorted, changed) = sort_and_compare("{\"b\":1,\"a\":2}").expect("a document");
    assert_eq!(sorted, "{\"a\":2,\"b\":1}");
    assert!(changed);
}

#[test]
fn comparing_reports_the_fault() {
    let error = sort_and_compare("{\"a\":1,}").expect_err("not a document");
    assert!(error.cause.is_none());
}

#[test]
fn glob_patterns_hold_wildcards() {
    assert!(is_glob_pattern("*.json"));
    assert!(is_glob_pattern("dir/file?.json"));
    assert!(is_glob_pattern("[ab].json"));
    assert!(!is_glob_pattern("dir/file.json"));
    assert!(!is_glob_pattern(""));
}

#[test]
fn a_lone_dash_reads_standard_input() {
    assert!(reads_standard_input(&vec!["-".to_string()]));
    assert!(!reads_standard_input(&vec!["-".to_string(), "a.json".to_string()]));
    assert!(!reads_standard_input(&vec!["--".to_string()]));
    assert!(!reads_standard_input(&vec!["a.json".to_string()]));
    assert!(!reads_standard_input(&Vec::new()));
}

#[test]
fn duplicate_paths_are_admitted_once() {
    let mut seen: Vec<Vec<u8>> = Vec::new();
    assert!(admit_path(&mut seen, b"/a/x.json".to_vec()));
    assert!(admit_path(&mut seen, b"/a/y.json".to_vec()));
    assert!(!admit_path(&mut seen, b"/a/x.json".to_vec()));
    assert!(admit_path(&mut seen, b"/a/x.jso".to_vec()));
    assert_eq!(seen.len(), 3);
    assert_eq!(seen[0], b"/a/x.json".to_vec());
    assert_eq!(seen[2], b"/a/x.jso".to_vec());
}

#[test]
fn inputs_without_files_fail() {
    assert!(input_fails(0));
    assert!(!input_fails(1));
    assert!(!input_fails(7));
}

#[test]
fn check_wins_over_fix() {
    assert_eq!(run_mode(true, true), Mode::Check);
    assert_eq!(run_mode(true, false), Mode::Check);
    assert_eq!(run_mode(false, false), Mode::Check);
    assert_eq!(run_mode(false, true), Mode::Fix);
}

#[test]
fn file_statuses_follow_the_mode() {
    assert_eq!(file_status(Mode::Check, None), Status::Failed);
    assert_eq!(file_status(Mode::Fix, None), Status::Failed);
    assert_eq!(file_status(Mode::Check, Some(false)), Status::Clean);
    assert_eq!(file_status(Mode::Fix, Some(false)), Status::Clean);
    assert_eq!(file_status(Mode::Check, Some(true)), Status::Unsorted);
    assert_eq!(file_status(Mode::Fix, Some(true)), Status::Fixed);
}

#[test]
fn runs_fail_on_unsorted_or_failed_files_only() {
    assert!(!run_fails(&vec![]));
    assert!(!run_fails(&vec![Status::Clean, Status::Fixed, Status::Fixed]));
    assert!(run_fails(&vec![Status::Clean, Status::Unsorted]));
    assert!(run_fails(&vec![Status::Failed, Status::Fixed]));
}
