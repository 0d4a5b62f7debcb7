use proc_siding_lib::monitor::Transition::{Clear, Hold, Pressure};
use proc_siding_lib::monitor::{
    exit_failure, parse_detector_output, spawn_failure, Hysteresis, SampleError, Transition,
};

fn entities(stdout: &str) -> Vec<String> {
    let (records, error) = parse_detector_output(stdout);
    assert!(error.is_none(), "unexpected error");
    records.into_iter().map(|r| r.entity).collect()
}

fn values(stdout: &str) -> Vec<String> {
    let (records, _) = parse_detector_output(stdout);
    records.into_iter().map(|r| r.value).collect()
}

#[test]
fn detector_single_line() {
    assert_eq!(entities("42.5\tfirefox\n"), vec!["firefox"]);
    assert_eq!(values("42.5\tfirefox\n"), vec!["42.5"]);
}

#[test]
fn detector_multiple_lines_in_order() {
    let out = "10.0\tfirefox\n25.5\tblender\n";
    assert_eq!(entities(out), vec!["firefox", "blender"]);
    assert_eq!(values(out), vec!["10.0", "25.5"]);
}

#[test]
fn detector_blank_lines_are_skipped() {
    let out = "\n10.0\tfirefox\n\n20.0\tblender\n\n";
    assert_eq!(entities(out), vec!["firefox", "blender"]);
    assert_eq!(values(out), vec!["10.0", "20.0"]);
}

#[test]
fn detector_empty_output_has_no_samples() {
    let (records, error) = parse_detector_output("");
    assert!(records.is_empty());
    assert!(error.is_none());
}

#[test]
fn detector_fields_are_trimmed() {
    let (records, error) = parse_detector_output("  42.5  \t  firefox  \n");
    assert!(error.is_none());
    assert_eq!(records.len(), 1);
    assert_eq!(records[0].line, "42.5  \t  firefox");
    assert_eq!(records[0].value_field, "42.5  ");
    assert_eq!(records[0].value, "42.5");
    assert_eq!(records[0].entity, "firefox");
}

#[test]
fn detector_line_without_tab_is_rejected() {
    let (records, error) = parse_detector_output("no-tab-here\n");
    assert!(records.is_empty());
    match error {
        Some(SampleError::ParseFailed { line, detail }) => {
            assert_eq!(line, "no-tab-here");
            assert_eq!(detail, "expected tab-separated <value>\\t<entity>");
        }
        other => panic!("expected ParseFailed, got {other:?}"),
    }
}

#[test]
fn detector_records_before_bad_line_are_kept() {
    let (records, error) = parse_detector_output("1\ta\n2\tb\noops\n3\tc\n");
    assert_eq!(records.len(), 2);
    assert_eq!(records[1].entity, "b");
    assert!(matches!(error, Some(SampleError::ParseFailed { .. })));
}

#[test]
fn detector_non_numeric_value_is_left_for_the_caller() {
    let (records, error) = parse_detector_output("abc\tfirefox\n");
    assert!(error.is_none());
    assert_eq!(records[0].value, "abc");
}

#[test]
fn detector_splits_at_first_tab_and_handles_crlf() {
    let (records, error) = parse_detector_output("33.33\tprocess-a\tx\r\n33.34\tprocess-b\r\n");
    assert!(error.is_none());
    assert_eq!(records.len(), 2);
    assert_eq!(records[0].entity, "process-a\tx");
    assert_eq!(records[1].entity, "process-b");
}

#[test]
fn command_failures_carry_their_reason() {
    match spawn_failure("No such file") {
        SampleError::CommandFailed(m) => assert_eq!(m, "failed to spawn: No such file"),
        other => panic!("unexpected {other:?}"),
    }
    match exit_failure("exit status: 1", "something broke\n") {
        SampleError::CommandFailed(m) => {
            assert_eq!(m, "exited exit status: 1: something broke")
        }
        other => panic!("unexpected {other:?}"),
    }
}

fn feed(h: &mut Hysteresis, samples: &[bool], hysteresis: u32) -> Vec<Transition> {
    samples.iter().map(|&s| h.observe(s, hysteresis)).collect()
}

#[test]
fn hysteresis_needs_consecutive_samples_above() {
    let mut h = Hysteresis::new();
    let got = feed(&mut h, &[true, true, false, true, true, true, true], 3);
    assert_eq!(got, vec![Hold, Hold, Hold, Hold, Hold, Pressure, Hold]);
    assert!(h.paused);
    assert_eq!(h.above, 4);
    assert_eq!(h.below, 0);
}

#[test]
fn hysteresis_clears_after_consecutive_samples_below() {
    let mut h = Hysteresis::new();
    let got = feed(&mut h, &[true, true, false, false, true, false, false, false], 2);
    assert_eq!(got, vec![Hold, Pressure, Hold, Clear, Hold, Hold, Hold, Hold]);
    assert!(!h.paused);
    assert_eq!(h.below, 3);
}

#[test]
fn hysteresis_never_clears_when_not_paused() {
    let mut h = Hysteresis::new();
    let got = feed(&mut h, &[false, false, false, false], 1);
    assert!(got.iter().all(|t| *t == Transition::Hold));
}

#[test]
fn hysteresis_zero_fires_on_first_sample() {
    let mut h = Hysteresis::new();
    assert_eq!(feed(&mut h, &[true, false], 0), vec![Pressure, Clear]);
}

#[test]
fn hysteresis_transitions_alternate() {
    let mut h = Hysteresis::new();
    let samples: Vec<bool> = (0..200).map(|i| (i * 7 + i / 3) % 5 < 2).collect();
    let fired: Vec<Transition> = feed(&mut h, &samples, 2)
        .into_iter()
        .filter(|t| *t != Transition::Hold)
        .collect();
    for (i, t) in fired.iter().enumerate() {
        let expected = if i % 2 == 0 { Transition::Pressure } else { Transition::Clear };
        assert_eq!(*t, expected);
    }
}
