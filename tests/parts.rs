use treereduce::check::{
    exit_code_of, marker_suffix, needs_file, stream_mode, substitute_markers,
};
use treereduce::driver::{min_reduction, passes, run_another_pass};
use treereduce::heap::TaskHeap;
use treereduce::{Original, OriginalError};
use treereduce::{
    Edits, Matcher, NodeId, OnParseError, ParseErrorAction, Pass, Stats, StreamMode, SyntaxTree,
    Task, TaskId, TreeError, Verdict, Versioned,
};

#[test]
fn heap_pops_largest_first() {
    let mut h = TaskHeap::new();
    h.push(Task::Explore(NodeId { id: 1 }), 5);
    h.push(Task::Explore(NodeId { id: 2 }), 9);
    h.push(Task::Explore(NodeId { id: 3 }), 1);
    h.push(Task::Explore(NodeId { id: 4 }), 9);
    let order: Vec<usize> = std::iter::from_fn(|| h.pop().map(|t| t.priority)).collect();
    assert_eq!(order, vec![9, 9, 5, 1]);
    assert!(h.is_empty());
}

#[test]
fn heap_numbers_tasks() {
    let mut h = TaskHeap::new();
    h.push(Task::Explore(NodeId { id: 1 }), 3);
    h.push(Task::Explore(NodeId { id: 2 }), 4);
    let t = h.pop().unwrap();
    assert_eq!(t.id, TaskId { id: 1 });
    assert_eq!(t.task.kind(), "explore");
}

#[test]
fn edits_keep_one_edit_per_node() {
    let e = Edits::new();
    assert!(e.is_empty());
    let e = e.omit_id(NodeId { id: 3 });
    assert!(!e.is_empty());
    assert!(e.should_omit_id(&NodeId { id: 3 }));
    let e = e.replace_id(NodeId { id: 3 }, b"x".to_vec());
    assert!(!e.should_replace_id(&NodeId { id: 3 }));
    let e = e.replace_id(NodeId { id: 5 }, b"y".to_vec());
    assert!(e.should_replace_id(&NodeId { id: 5 }));
    let e = e.omit_id(NodeId { id: 5 });
    assert!(!e.should_omit_id(&NodeId { id: 5 }));
    let only_replaced = Edits::new().replace_id(NodeId { id: 0 }, b"z".to_vec());
    assert!(!only_replaced.is_empty());
    let many = Edits::new().omit_ids(&[NodeId { id: 1 }, NodeId { id: 7 }]);
    assert!(many.should_omit_id(&NodeId { id: 7 }));
    assert!(!many.should_omit_id(&NodeId { id: 2 }));
}

#[test]
fn versioned_counts_commits() {
    let v = Versioned::new(10u32);
    assert_eq!(v.get_version(), 0);
    let w = v.modify(11);
    assert!(v.old_version(&w));
    assert!(!w.old_version(&v));
    assert!(!v.same_version(&w));
    assert_eq!(*w.get(), 11);
    let x = w.inc();
    assert_eq!(x.get_version(), 2);
    assert_eq!(x.extract(), 11);
}

#[test]
fn tree_refuses_bad_nodes() {
    let mut t = SyntaxTree::new();
    assert_eq!(t.add_node(Some(NodeId { id: 0 }), "x".to_string(), 0, 1), Err(TreeError::BadParent));
    let root = t.add_node(None, "root".to_string(), 0, 10).unwrap();
    assert_eq!(t.add_node(None, "again".to_string(), 0, 1), Err(TreeError::BadParent));
    assert_eq!(t.add_node(Some(root), "c".to_string(), 5, 11), Err(TreeError::BadRange));
    let a = t.add_node(Some(root), "a".to_string(), 2, 5).unwrap();
    assert_eq!(a, NodeId { id: 1 });
    assert_eq!(t.add_node(Some(root), "b".to_string(), 4, 6), Err(TreeError::BadRange));
    assert_eq!(t.add_node(Some(root), "b".to_string(), 6, 4), Err(TreeError::BadRange));
    assert!(t.add_node(Some(root), "b".to_string(), 5, 9).is_ok());
    assert_eq!(t.len(), 3);
}

#[test]
fn verdict_combines_codes_and_patterns() {
    let v = Verdict {
        exit_codes: vec![0, 3],
        interesting_stdout: Some(Matcher::new("crash").unwrap()),
        interesting_stderr: None,
        uninteresting_stdout: Some(Matcher::new("benign").unwrap()),
        uninteresting_stderr: None,
    };
    assert!(v.judge(Some(3), b"", b""));
    assert!(!v.judge(Some(1), b"", b""));
    assert!(v.judge(Some(1), b"a crash here", b""));
    assert!(!v.judge(Some(0), b"benign", b""));
    assert!(!v.judge(None, b"", b""));
    assert!(Matcher::new("(").is_err());
    assert_eq!(Matcher::new("a+").unwrap().as_str(), "a+");
}

#[test]
fn verdict_reads_invalid_utf8() {
    let v = Verdict {
        exit_codes: vec![],
        interesting_stdout: None,
        interesting_stderr: Some(Matcher::new("\u{FFFD}x").unwrap()),
        uninteresting_stdout: None,
        uninteresting_stderr: None,
    };
    assert!(v.judge(Some(0), b"", &[0xff, b'x']));
    assert!(!v.judge(Some(0), b"", b"x"));
}

#[test]
fn signals_count_as_codes() {
    assert_eq!(exit_code_of(Some(2), None), Some(2));
    assert_eq!(exit_code_of(None, Some(9)), Some(137));
    assert_eq!(exit_code_of(None, None), None);
    assert_eq!(exit_code_of(None, Some(i32::MAX)), None);
}

#[test]
fn markers_are_substituted() {
    let args = vec!["-c".to_string(), "@@.c".to_string()];
    assert!(needs_file(&args));
    assert!(!needs_file(&vec!["-c".to_string()]));
    assert_eq!(substitute_markers(&args, "/tmp/f.c"), vec!["-c".to_string(), "/tmp/f.c".to_string()]);
    assert_eq!(marker_suffix("@@.c"), ".c");
    assert_eq!(marker_suffix("@@"), "");
}

#[test]
fn streams_are_piped_only_when_read() {
    assert_eq!(stream_mode(true, true), StreamMode::Inherit);
    assert_eq!(stream_mode(false, true), StreamMode::Piped);
    assert_eq!(stream_mode(false, false), StreamMode::Null);
}

#[test]
fn options_follow_fast_and_slow() {
    assert_eq!(min_reduction(true, false, 2), 4);
    assert_eq!(min_reduction(false, true, 2), 1);
    assert_eq!(min_reduction(false, false, 7), 7);
    assert_eq!(passes(true, false, false, 2), Some(1));
    assert_eq!(passes(false, true, false, 2), None);
    assert_eq!(passes(false, false, true, 2), None);
    assert_eq!(passes(false, false, true, 5), Some(5));
    assert_eq!(passes(false, false, false, 3), Some(3));
}

#[test]
fn passes_stop_at_budget_or_fixpoint() {
    assert!(run_another_pass(0, Some(2), true));
    assert!(run_another_pass(1, Some(2), true));
    assert!(!run_another_pass(2, Some(2), false));
    assert!(run_another_pass(0, None, true));
    assert!(run_another_pass(3, None, false));
    assert!(!run_another_pass(3, None, true));
}

#[test]
fn parse_errors_by_policy() {
    assert_eq!(OnParseError::default(), OnParseError::Warn);
    assert_eq!(OnParseError::Error.action(true), ParseErrorAction::Abort);
    assert_eq!(OnParseError::Error.action(false), ParseErrorAction::Continue);
    assert_eq!(OnParseError::Warn.action(true), ParseErrorAction::Warn);
    assert_eq!(OnParseError::Ignore.action(true), ParseErrorAction::Continue);
    assert_eq!(OnParseError::Ignore.name(), "ignore");
}

#[test]
fn stats_record_passes() {
    let mut s = Stats::new();
    s.record_pass(Pass { duration: std::time::Duration::from_secs(1), start_size: 100, end_size: 60 });
    s.record_pass(Pass { duration: std::time::Duration::from_secs(1), start_size: 60, end_size: 50 });
    assert_eq!(s.start_size, 100);
    assert_eq!(s.end_size, 50);
    assert_eq!(s.passes.len(), 2);
}

#[test]
fn original_must_fit_its_text() {
    assert_eq!(
        Original::new(SyntaxTree::new(), b"abc".to_vec()).err(),
        Some(OriginalError::EmptyTree)
    );
    let mut t = SyntaxTree::new();
    t.add_node(None, "root".to_string(), 0, 5).unwrap();
    assert_eq!(Original::new(t, b"abc".to_vec()).err(), Some(OriginalError::RangeOutsideText));
    let mut u = SyntaxTree::new();
    u.add_node(None, "root".to_string(), 1, 2).unwrap();
    let o = Original::new(u, b"abc".to_vec()).unwrap();
    assert_eq!(treereduce::render::render(&o, &Edits::new()), b"abc".to_vec());
    let gone = Edits::new().omit_id(NodeId { id: 0 });
    assert_eq!(treereduce::render::render(&o, &gone), b"ac".to_vec());
}
