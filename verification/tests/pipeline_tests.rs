use lagerist::correlate::Correlator;
use lagerist::trace::{parse_trace_line, EventKind, OpType};

fn insert_line(t: &str, dev: &str) -> String {
    format!(
        "kworker/0:1H-246   [000] d..1 {}: block_rq_insert: {} W 4096 () 2048 + 8 [kworker/0:1H]",
        t, dev
    )
}

fn issue_line(t: &str, dev: &str) -> String {
    format!(
        "kworker/0:1H-246   [000] d..1 {}: block_rq_issue: {} W 4096 () 2048 + 8 [kworker/0:1H]",
        t, dev
    )
}

fn complete_line(t: &str, dev: &str) -> String {
    format!(
        "<idle>-0       [000] d.h1 {}: block_rq_complete: {} W () 2048 + 8 [0]",
        t, dev
    )
}

#[test]
fn parses_insert_event_fields() {
    let ev = parse_trace_line(&insert_line("0.100000", "8,0")).unwrap();
    assert_eq!(ev.kind, EventKind::Insert);
    assert_eq!(ev.dev, String::from("8,0"));
    assert_eq!(ev.sector, String::from("2048"));
    assert_eq!(ev.nr_sectors, String::from("8"));
    assert_eq!(ev.optype, OpType::Write);
    assert_eq!(ev.micros, 100000);
}

#[test]
fn parses_complete_event_fields() {
    let ev = parse_trace_line(&complete_line("0.130000", "8,0")).unwrap();
    assert_eq!(ev.kind, EventKind::Complete);
    assert_eq!(ev.dev, String::from("8,0"));
    assert_eq!(ev.sector, String::from("2048"));
    assert_eq!(ev.nr_sectors, String::from("8"));
    assert_eq!(ev.micros, 130000);
}

#[test]
fn task_name_with_whitespace_is_tolerated() {
    let line = "some task name-1  [002] d..1 2.000000: block_rq_issue: 8,0 R 4096 () 96 + 16 [x]";
    let ev = parse_trace_line(line).unwrap();
    assert_eq!(ev.kind, EventKind::Issue);
    assert_eq!(ev.optype, OpType::Read);
    assert_eq!(ev.sector, String::from("96"));
    assert_eq!(ev.nr_sectors, String::from("16"));
    assert_eq!(ev.micros, 2000000);
}

#[test]
fn device_zero_zero_never_yields_event() {
    assert!(parse_trace_line(&insert_line("0.100000", "0,0")).is_none());
    assert!(parse_trace_line(&issue_line("0.105000", "0,0")).is_none());
    assert!(parse_trace_line(&complete_line("0.130000", "0,0")).is_none());
}

#[test]
fn line_without_bracket_is_rejected() {
    assert!(parse_trace_line("no bracket token anywhere 0.1: block_rq_insert: 8,0 W").is_none());
}

#[test]
fn line_opening_with_bracket_is_rejected() {
    assert!(parse_trace_line("[000] d..1 0.1: block_rq_insert: 8,0 W 4096 () 0 + 8 [x]").is_none());
}

#[test]
fn invalid_timestamp_is_rejected() {
    assert!(parse_trace_line(&insert_line("0.10a", "8,0")).is_none());
    assert!(parse_trace_line(&insert_line("..5", "8,0")).is_none());
}

#[test]
fn unknown_direction_is_rejected() {
    let line = "task-1  [000] d..1 0.100000: block_rq_insert: 8,0 F 0 () 0 + 0 [t]";
    assert!(parse_trace_line(line).is_none());
}

#[test]
fn unknown_event_name_is_rejected() {
    let line = "task-1  [000] d..1 0.100000: block_rq_requeue: 8,0 W 0 () 0 + 8 [t]";
    assert!(parse_trace_line(line).is_none());
}

#[test]
fn truncated_suffix_is_rejected() {
    let line = "task-1  [000] d..1 0.100000: block_rq_insert: 8,0 W 4096 () 2048";
    assert!(parse_trace_line(line).is_none());
}

#[test]
fn short_fraction_is_padded_and_whole_seconds_accepted() {
    let ev = parse_trace_line(&insert_line("0.1", "8,0")).unwrap();
    assert_eq!(ev.micros, 100000);
    let ev2 = parse_trace_line(&insert_line("12", "8,0")).unwrap();
    assert_eq!(ev2.micros, 12000000);
    let ev3 = parse_trace_line(&insert_line("3.0000019", "8,0")).unwrap();
    assert_eq!(ev3.micros, 3000001);
}

#[test]
fn correlator_times_one_request() {
    let mut c = Correlator::new();
    let e1 = parse_trace_line(&insert_line("0.100000", "8,0")).unwrap();
    let e2 = parse_trace_line(&issue_line("0.105000", "8,0")).unwrap();
    let e3 = parse_trace_line(&complete_line("0.130000", "8,0")).unwrap();
    assert!(c.observe(&e1).is_none());
    assert!(c.observe(&e2).is_none());
    let rec = c.observe(&e3).unwrap();
    assert_eq!(rec.queue_micros, 5000);
    assert_eq!(rec.disk_micros, 25000);
    assert_eq!(rec.total_micros, 30000);
    assert_eq!(rec.dev, String::from("8,0"));
    assert_eq!(rec.optype, OpType::Write);
}

#[test]
fn unmatched_complete_yields_nothing() {
    let mut c = Correlator::new();
    let e = parse_trace_line(&complete_line("0.130000", "8,0")).unwrap();
    assert!(c.observe(&e).is_none());
    // a second identical completion is just as quiet
    assert!(c.observe(&e).is_none());
}

#[test]
fn insert_without_issue_yields_nothing_and_is_consumed() {
    let mut c = Correlator::new();
    let e1 = parse_trace_line(&insert_line("0.100000", "8,0")).unwrap();
    let e3 = parse_trace_line(&complete_line("0.130000", "8,0")).unwrap();
    assert!(c.observe(&e1).is_none());
    assert!(c.observe(&e3).is_none());
    // the completion cleared the pending insert, so a full round is needed again
    let e2 = parse_trace_line(&issue_line("0.200000", "8,0")).unwrap();
    assert!(c.observe(&e2).is_none());
    assert!(c.observe(&e3).is_none());
}

#[test]
fn repeated_insert_updates_timestamp() {
    let mut c = Correlator::new();
    let e1a = parse_trace_line(&insert_line("0.100000", "8,0")).unwrap();
    let e1b = parse_trace_line(&insert_line("0.200000", "8,0")).unwrap();
    let e2 = parse_trace_line(&issue_line("0.300000", "8,0")).unwrap();
    let e3 = parse_trace_line(&complete_line("0.400000", "8,0")).unwrap();
    c.observe(&e1a);
    c.observe(&e1b);
    c.observe(&e2);
    let rec = c.observe(&e3).unwrap();
    assert_eq!(rec.queue_micros, 100000);
    assert_eq!(rec.disk_micros, 100000);
    assert_eq!(rec.total_micros, 200000);
}

#[test]
fn different_sectors_do_not_correlate() {
    let mut c = Correlator::new();
    let line = "t-1  [000] d..1 0.100000: block_rq_insert: 8,0 W 4096 () 999 + 8 [t]";
    let e1 = parse_trace_line(line).unwrap();
    let e2 = parse_trace_line(&issue_line("0.105000", "8,0")).unwrap();
    let e3 = parse_trace_line(&complete_line("0.130000", "8,0")).unwrap();
    c.observe(&e1);
    c.observe(&e2);
    assert!(c.observe(&e3).is_none());
}
