use lagerist::device::DevicePaths;
use lagerist::server::{CyclePlan, ServerCore};

fn fresh_core() -> ServerCore {
    let d = DevicePaths::new(
        String::from("major minor  #blocks  name\n\n   8        0  976762584 sda\n"),
        vec![],
    );
    ServerCore::new(d)
}

#[test]
fn shutdown_wins_over_everything() {
    let c = fresh_core();
    let plan = c.plan_cycle(true, true, true, true, true, &vec![1, 2]);
    assert_eq!(plan, CyclePlan::Stop);
}

#[test]
fn interrupted_wait_is_retried() {
    let c = fresh_core();
    assert_eq!(c.plan_cycle(false, true, false, true, true, &vec![]), CyclePlan::Retry);
}

#[test]
fn failed_wait_aborts() {
    let c = fresh_core();
    assert_eq!(c.plan_cycle(false, false, true, true, true, &vec![]), CyclePlan::Abort);
}

#[test]
fn readiness_flags_pass_through() {
    let c = fresh_core();
    assert_eq!(
        c.plan_cycle(false, false, false, true, false, &vec![]),
        CyclePlan::Work { read_trace: true, accept: false, serve: None }
    );
}

#[test]
fn only_monitored_clients_are_served() {
    let mut c = fresh_core();
    c.register_client(7);
    c.register_client(9);
    // 3 is not monitored; 9 is the first monitored ready id
    let plan = c.plan_cycle(false, false, false, false, false, &vec![3, 9, 7]);
    assert_eq!(plan, CyclePlan::Work { read_trace: false, accept: false, serve: Some(9) });
}

#[test]
fn queued_client_is_served_and_dropped_without_touching_trace_state() {
    let mut c = fresh_core();
    c.register_client(5);
    let snapshot_before = c.render_snapshot();
    // zero trace bytes available, one queued ready client
    let plan = c.plan_cycle(false, false, false, false, false, &vec![5]);
    assert_eq!(plan, CyclePlan::Work { read_trace: false, accept: false, serve: Some(5) });
    let resp = c.serve_client(5).unwrap();
    let expected = format!(
        "HTTP/1.1 200 OK\nContent-Type: text/plain\nContent-Length: {}\n\n{}\n",
        snapshot_before.len(),
        snapshot_before
    );
    assert_eq!(resp, expected);
    // the client left the monitored set, the pipeline state is untouched
    assert_eq!(c.plan_cycle(false, false, false, false, false, &vec![5]),
        CyclePlan::Work { read_trace: false, accept: false, serve: None });
    assert!(c.serve_client(5).is_none());
    assert_eq!(c.render_snapshot(), snapshot_before);
}

#[test]
fn registering_twice_keeps_one_entry() {
    let mut c = fresh_core();
    c.register_client(4);
    c.register_client(4);
    assert!(c.serve_client(4).is_some());
    assert!(c.serve_client(4).is_none());
}

#[test]
fn trace_chunk_flows_into_the_registry() {
    let mut c = fresh_core();
    let text = format!(
        "{}\n{}\n{}\n",
        "kworker/0:1H-246   [000] d..1 0.100000: block_rq_insert: 8,0 W 4096 () 2048 + 8 [k]",
        "kworker/0:1H-246   [000] d..1 0.105000: block_rq_issue: 8,0 W 4096 () 2048 + 8 [k]",
        "<idle>-0       [000] d.h1 0.130000: block_rq_complete: 8,0 W () 2048 + 8 [0]"
    );
    assert!(c.ingest_trace_text(&text));
    let snap = c.render_snapshot();
    assert!(snap.contains(
        "diskio_queue_time_microseconds_sum{device=\"/dev/sda\",optype=\"write\"} 5000"
    ));
    assert!(snap.contains(
        "diskio_disk_time_microseconds_sum{device=\"/dev/sda\",optype=\"write\"} 25000"
    ));
    assert!(snap.contains(
        "diskio_total_time_microseconds_sum{device=\"/dev/sda\",optype=\"write\"} 30000"
    ));
    assert!(snap.contains(
        "diskio_total_time_microseconds_count{device=\"/dev/sda\",optype=\"write\"} 1"
    ));
}

#[test]
fn malformed_and_partial_lines_are_skipped_quietly() {
    let mut c = fresh_core();
    let text = "garbage line\n\nkworker-1 [000] d..1 0.100000: block_rq_insert: 8,0 W 4096 () 2048 + 8 [k]\n";
    assert!(c.ingest_trace_text(text));
    // insert alone records nothing yet
    assert_eq!(c.render_snapshot(), String::new());
}

#[test]
fn unresolvable_completed_device_is_fatal() {
    let mut c = fresh_core();
    let text = format!(
        "{}\n{}\n{}\n",
        "k-1 [000] d..1 0.100000: block_rq_insert: 9,9 W 4096 () 0 + 8 [k]",
        "k-1 [000] d..1 0.105000: block_rq_issue: 9,9 W 4096 () 0 + 8 [k]",
        "k-1 [000] d.h1 0.130000: block_rq_complete: 9,9 W () 0 + 8 [0]"
    );
    assert!(!c.ingest_trace_text(&text));
}

#[test]
fn pending_events_for_unknown_devices_cost_nothing() {
    let mut c = fresh_core();
    // inserts and issues never resolve; only completions do
    let text = "k-1 [000] d..1 0.100000: block_rq_insert: 9,9 W 4096 () 0 + 8 [k]\n";
    assert!(c.ingest_trace_text(text));
}
