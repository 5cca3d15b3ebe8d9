use lagerist::metrics::Registry;
use lagerist::trace::OpType;

const BOUNDS: [u64; 17] = [
    10, 25, 50, 75, 100, 250, 500, 750, 1000, 2500, 5000, 7500, 10000, 25000, 50000, 75000, 100000,
];

fn expected_hist(name: &str, dev: &str, op: &str, per_bucket: &[u64; 18], sum: i128, count: u64) -> String {
    let mut out = String::new();
    let mut cum: u64 = 0;
    for i in 0..18 {
        cum += per_bucket[i];
        let le = if i < 17 {
            format!("{}", BOUNDS[i])
        } else {
            String::from("+Inf")
        };
        out.push_str(&format!(
            "{}_bucket{{device=\"{}\",optype=\"{}\",le=\"{}\"}} {}\n",
            name, dev, op, le, cum
        ));
    }
    out.push_str(&format!("{}_sum{{device=\"{}\",optype=\"{}\"}} {}\n", name, dev, op, sum));
    out.push_str(&format!("{}_count{{device=\"{}\",optype=\"{}\"}} {}\n", name, dev, op, count));
    out
}

#[test]
fn empty_registry_renders_nothing() {
    let r = Registry::new();
    assert_eq!(r.render(), String::new());
}

#[test]
fn one_observation_renders_exactly() {
    let mut r = Registry::new();
    r.observe("/dev/sda", OpType::Read, 12, 30, 42);
    let mut q = [0u64; 18];
    q[1] = 1; // 12 falls past 10, within 25
    let mut d = [0u64; 18];
    d[2] = 1; // 30 falls past 25, within 50
    let mut t = [0u64; 18];
    t[2] = 1; // 42 falls past 25, within 50
    let expected = format!(
        "{}{}{}",
        expected_hist("diskio_queue_time_microseconds", "/dev/sda", "read", &q, 12, 1),
        expected_hist("diskio_disk_time_microseconds", "/dev/sda", "read", &d, 30, 1),
        expected_hist("diskio_total_time_microseconds", "/dev/sda", "read", &t, 42, 1),
    );
    assert_eq!(r.render(), expected);
}

#[test]
fn observation_moves_one_bucket_sum_and_count() {
    let mut r = Registry::new();
    r.observe("/dev/sda", OpType::Write, 100, 200, 300);
    let mut q = [0u64; 18];
    q[4] = 1; // 100 sits in the bucket bounded by 100
    let mut d = [0u64; 18];
    d[5] = 1; // 200 sits in the bucket bounded by 250
    let mut t = [0u64; 18];
    t[6] = 1; // 300 sits in the bucket bounded by 500
    let before = format!(
        "{}{}{}",
        expected_hist("diskio_queue_time_microseconds", "/dev/sda", "write", &q, 100, 1),
        expected_hist("diskio_disk_time_microseconds", "/dev/sda", "write", &d, 200, 1),
        expected_hist("diskio_total_time_microseconds", "/dev/sda", "write", &t, 300, 1),
    );
    assert_eq!(r.render(), before);
    // a second identical observation grows exactly that bucket, the sum by
    // the duration, and the count by one
    r.observe("/dev/sda", OpType::Write, 100, 200, 300);
    q[4] = 2;
    d[5] = 2;
    t[6] = 2;
    let after = format!(
        "{}{}{}",
        expected_hist("diskio_queue_time_microseconds", "/dev/sda", "write", &q, 200, 2),
        expected_hist("diskio_disk_time_microseconds", "/dev/sda", "write", &d, 400, 2),
        expected_hist("diskio_total_time_microseconds", "/dev/sda", "write", &t, 600, 2),
    );
    assert_eq!(r.render(), after);
}

#[test]
fn boundary_durations_land_inclusively() {
    let mut r = Registry::new();
    // exactly on a boundary belongs to that bucket
    r.observe("/dev/sdb", OpType::Read, 10, 100000, 100001);
    let text = r.render();
    let lines: Vec<&str> = text.lines().collect();
    assert_eq!(
        lines[0],
        "diskio_queue_time_microseconds_bucket{device=\"/dev/sdb\",optype=\"read\",le=\"10\"} 1"
    );
    // 100000 sits in the last bounded bucket, 100001 only in the overflow one
    assert_eq!(
        lines[36],
        "diskio_disk_time_microseconds_bucket{device=\"/dev/sdb\",optype=\"read\",le=\"100000\"} 1"
    );
    assert_eq!(
        lines[56],
        "diskio_total_time_microseconds_bucket{device=\"/dev/sdb\",optype=\"read\",le=\"100000\"} 0"
    );
    assert_eq!(
        lines[57],
        "diskio_total_time_microseconds_bucket{device=\"/dev/sdb\",optype=\"read\",le=\"+Inf\"} 1"
    );
}

#[test]
fn negative_duration_lands_in_first_bucket_and_sum() {
    let mut r = Registry::new();
    r.observe("/dev/sda", OpType::Read, -5, 3, -2);
    let text = r.render();
    let lines: Vec<&str> = text.lines().collect();
    assert_eq!(
        lines[0],
        "diskio_queue_time_microseconds_bucket{device=\"/dev/sda\",optype=\"read\",le=\"10\"} 1"
    );
    assert!(text.contains("diskio_queue_time_microseconds_sum{device=\"/dev/sda\",optype=\"read\"} -5"));
    assert!(text.contains("diskio_total_time_microseconds_sum{device=\"/dev/sda\",optype=\"read\"} -2"));
}

#[test]
fn label_pairs_are_registered_separately_in_order() {
    let mut r = Registry::new();
    r.observe("/dev/sda", OpType::Read, 1, 1, 2);
    r.observe("/dev/sda", OpType::Write, 1, 1, 2);
    r.observe("/dev/sdb", OpType::Read, 1, 1, 2);
    let text = r.render();
    // three series, sixty lines each
    assert_eq!(text.lines().count(), 180);
    let first_write = text.find("optype=\"write\"").unwrap();
    let first_sdb = text.find("device=\"/dev/sdb\"").unwrap();
    assert!(first_write < first_sdb);
    // same-label observations fold into one series
    r.observe("/dev/sda", OpType::Read, 1, 1, 2);
    assert_eq!(r.render().lines().count(), 180);
    assert!(r
        .render()
        .contains("diskio_queue_time_microseconds_count{device=\"/dev/sda\",optype=\"read\"} 2"));
}
