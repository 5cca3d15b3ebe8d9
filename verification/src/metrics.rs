//! Latency histograms: three fixed-bucket histograms (queue, device, total
//! time, in microseconds) per `(device path, operation)` label pair, with a
//! deterministic text rendering of cumulative bucket counts, sums and counts.

use vstd::prelude::*;
use vstd::string::*;
use crate::decimal::{dec_str, int_str, i128_to_string, u64_to_string};
use crate::text::str_eq;
use crate::trace::OpType;

verus! {

/// Observations per series stop being counted beyond this bound, so that
/// counters and sums provably stay within their machine types.
pub const SERIES_CAP: u64 = 0x4000000000000000;

/// One observation is a difference of two `u64` microsecond timestamps, so
/// its magnitude stays within two to the sixty-fourth.
pub open spec fn dur_ok(d: int) -> bool {
    -0x10000000000000000 <= d <= 0x10000000000000000
}

/// Upper bucket boundaries in microseconds (ten microseconds up to a tenth of
/// a second); an eighteenth bucket catches everything above.
pub open spec fn spec_bound(i: int) -> u64 {
    if i == 0 {
        10
    } else if i == 1 {
        25
    } else if i == 2 {
        50
    } else if i == 3 {
        75
    } else if i == 4 {
        100
    } else if i == 5 {
        250
    } else if i == 6 {
        500
    } else if i == 7 {
        750
    } else if i == 8 {
        1000
    } else if i == 9 {
        2500
    } else if i == 10 {
        5000
    } else if i == 11 {
        7500
    } else if i == 12 {
        10000
    } else if i == 13 {
        25000
    } else if i == 14 {
        50000
    } else if i == 15 {
        75000
    } else {
        100000
    }
}

fn bound_of(i: usize) -> (r: u64)
    requires
        i < 17,
    ensures
        r == spec_bound(i as int),
{
    if i == 0 {
        10
    } else if i == 1 {
        25
    } else if i == 2 {
        50
    } else if i == 3 {
        75
    } else if i == 4 {
        100
    } else if i == 5 {
        250
    } else if i == 6 {
        500
    } else if i == 7 {
        750
    } else if i == 8 {
        1000
    } else if i == 9 {
        2500
    } else if i == 10 {
        5000
    } else if i == 11 {
        7500
    } else if i == 12 {
        10000
    } else if i == 13 {
        25000
    } else if i == 14 {
        50000
    } else if i == 15 {
        75000
    } else {
        100000
    }
}

/// Index of the bucket that records a duration of `d` microseconds: the first
/// whose boundary `d` does not exceed.
pub open spec fn bucket_index(d: int) -> int {
    if d <= 10 {
        0
    } else if d <= 25 {
        1
    } else if d <= 50 {
        2
    } else if d <= 75 {
        3
    } else if d <= 100 {
        4
    } else if d <= 250 {
        5
    } else if d <= 500 {
        6
    } else if d <= 750 {
        7
    } else if d <= 1000 {
        8
    } else if d <= 2500 {
        9
    } else if d <= 5000 {
        10
    } else if d <= 7500 {
        11
    } else if d <= 10000 {
        12
    } else if d <= 25000 {
        13
    } else if d <= 50000 {
        14
    } else if d <= 75000 {
        15
    } else if d <= 100000 {
        16
    } else {
        17
    }
}

fn bucket_index_exec(d: i128) -> (r: usize)
    ensures
        r == bucket_index(d as int),
        r < 18,
{
    if d <= 10 {
        0
    } else if d <= 25 {
        1
    } else if d <= 50 {
        2
    } else if d <= 75 {
        3
    } else if d <= 100 {
        4
    } else if d <= 250 {
        5
    } else if d <= 500 {
        6
    } else if d <= 750 {
        7
    } else if d <= 1000 {
        8
    } else if d <= 2500 {
        9
    } else if d <= 5000 {
        10
    } else if d <= 7500 {
        11
    } else if d <= 10000 {
        12
    } else if d <= 25000 {
        13
    } else if d <= 50000 {
        14
    } else if d <= 75000 {
        15
    } else if d <= 100000 {
        16
    } else {
        17
    }
}

// ---------------------------------------------------------------------------
// One histogram
// ---------------------------------------------------------------------------

/// Mathematical image of a `Histogram`.
pub struct HistogramV {
    pub buckets: Seq<u64>,
    pub sum: int,
    pub count: u64,
}

/// Sum of the first `i` bucket counts.
pub open spec fn sum_buckets(b: Seq<u64>, i: int) -> int
    decreases i,
        when 0 <= i <= b.len()
{
    if i <= 0 {
        0
    } else {
        sum_buckets(b, i - 1) + b[i - 1]
    }
}

/// Eighteen buckets; the bucket counts add up to the observation count, which
/// is capped; the sum's magnitude is bounded by one maximal observation per
/// count.
pub open spec fn hist_wf(h: HistogramV) -> bool {
    &&& h.buckets.len() == 18
    &&& h.count <= SERIES_CAP
    &&& sum_buckets(h.buckets, 18) == h.count
    &&& -((h.count as int) * 0x10000000000000000) <= h.sum
    &&& h.sum <= (h.count as int) * 0x10000000000000000
}

/// What one observation does: below the cap, the duration's bucket, the sum
/// and the count each grow; at the cap the histogram is left unchanged.
pub open spec fn hist_step(h: HistogramV, d: int) -> HistogramV {
    if h.count >= SERIES_CAP {
        h
    } else {
        HistogramV {
            buckets: h.buckets.update(bucket_index(d), (h.buckets[bucket_index(d)] + 1) as u64),
            sum: h.sum + d,
            count: (h.count + 1) as u64,
        }
    }
}

/// The histogram of no observations.
pub open spec fn zero_hist() -> HistogramV {
    HistogramV { buckets: Seq::new(18, |i: int| 0u64), sum: 0, count: 0 }
}

proof fn lemma_sum_zero(b: Seq<u64>, i: int)
    requires
        0 <= i <= b.len(),
        forall|j: int| 0 <= j < b.len() ==> b[j] == 0,
    ensures
        sum_buckets(b, i) == 0,
    decreases i,
{
    if i > 0 {
        lemma_sum_zero(b, i - 1);
    }
}

/// Partial sums grow with the index.
pub proof fn lemma_sum_monotone(b: Seq<u64>, i: int, j: int)
    requires
        0 <= i <= j <= b.len(),
    ensures
        sum_buckets(b, i) <= sum_buckets(b, j),
    decreases j - i,
{
    if i < j {
        lemma_sum_monotone(b, i, j - 1);
    }
}

/// Raising one bucket raises the total by the same amount.
proof fn lemma_sum_update(b: Seq<u64>, k: int, v: u64, i: int)
    requires
        0 <= k < b.len(),
        0 <= i <= b.len(),
    ensures
        sum_buckets(b.update(k, v), i) == if k < i {
            sum_buckets(b, i) + v - b[k]
        } else {
            sum_buckets(b, i)
        },
    decreases i,
{
    if i > 0 {
        lemma_sum_update(b, k, v, i - 1);
    }
}

/// One bucket never exceeds the total.
proof fn lemma_bucket_le_sum(b: Seq<u64>, k: int)
    requires
        0 <= k < b.len(),
    ensures
        b[k] <= sum_buckets(b, b.len() as int),
    decreases b.len() - k,
{
    assert(sum_buckets(b, k + 1) == sum_buckets(b, k) + b[k]);
    assert(sum_buckets(b, k) >= 0) by {
        lemma_sum_monotone(b, 0, k);
    }
    lemma_sum_monotone(b, k + 1, b.len() as int);
}

/// One observation moves exactly its own bucket, the sum and the count: below
/// the cap, the duration's bucket grows by one, every other bucket keeps its
/// count, the sum grows by the duration and the count by one.
pub proof fn lemma_observe_reflects(h: HistogramV, d: int)
    requires
        hist_wf(h),
        h.count < SERIES_CAP,
    ensures
        hist_step(h, d).buckets[bucket_index(d)] == h.buckets[bucket_index(d)] + 1,
        forall|i: int|
            0 <= i < 18 && i != bucket_index(d) ==> hist_step(h, d).buckets[i] == h.buckets[i],
        hist_step(h, d).sum == h.sum + d,
        hist_step(h, d).count == h.count + 1,
{
    lemma_bucket_le_sum(h.buckets, bucket_index(d));
}

/// One labeled latency histogram.
pub struct Histogram {
    buckets: Vec<u64>,
    sum: i128,
    count: u64,
}

impl View for Histogram {
    type V = HistogramV;

    closed spec fn view(&self) -> HistogramV {
        HistogramV { buckets: self.buckets@, sum: self.sum as int, count: self.count }
    }
}

impl Histogram {
    /// An empty histogram.
    pub fn new() -> (r: Histogram)
        ensures
            hist_wf(r@),
            r@ == zero_hist(),
    {
        let mut b: Vec<u64> = Vec::new();
        let mut i: usize = 0;
        while i < 18
            invariant
                i <= 18,
                b@.len() == i,
                forall|j: int| 0 <= j < i ==> b@[j] == 0,
            decreases 18 - i,
        {
            b.push(0);
            i = i + 1;
        }
        let r = Histogram { buckets: b, sum: 0, count: 0 };
        proof {
            lemma_sum_zero(r@.buckets, 18);
            assert(r@.buckets =~= zero_hist().buckets);
        }
        r
    }

    /// Records one duration.
    pub fn observe_one(&mut self, d: i128)
        requires
            hist_wf(old(self)@),
            dur_ok(d as int),
        ensures
            hist_wf(final(self)@),
            final(self)@ == hist_step(old(self)@, d as int),
    {
        if self.count >= SERIES_CAP {
            return ;
        }
        let bi = bucket_index_exec(d);
        proof {
            lemma_bucket_le_sum(self@.buckets, bi as int);
        }
        let b = self.buckets[bi];
        let ghost bv = self@.buckets;
        self.buckets.remove(bi);
        self.buckets.insert(bi, b + 1);
        proof {
            assert(self.buckets@ =~= bv.update(bi as int, (b + 1) as u64));
            lemma_sum_update(bv, bi as int, (b + 1) as u64, 18);
        }
        self.sum = self.sum + d;
        self.count = self.count + 1;
    }
}

// ---------------------------------------------------------------------------
// Labeled series and the registry
// ---------------------------------------------------------------------------

/// Mathematical image of a `Series`.
pub struct SeriesV {
    pub device: Seq<char>,
    pub optype: OpType,
    pub queue: HistogramV,
    pub disk: HistogramV,
    pub total: HistogramV,
}

pub open spec fn series_wf(s: SeriesV) -> bool {
    hist_wf(s.queue) && hist_wf(s.disk) && hist_wf(s.total)
}

/// The three empty histograms under one label pair.
pub open spec fn zero_series(dev: Seq<char>, ot: OpType) -> SeriesV {
    SeriesV { device: dev, optype: ot, queue: zero_hist(), disk: zero_hist(), total: zero_hist() }
}

/// One completed request recorded into a series' three histograms.
pub open spec fn series_observed(s: SeriesV, q: int, d: int, t: int) -> SeriesV {
    SeriesV {
        device: s.device,
        optype: s.optype,
        queue: hist_step(s.queue, q),
        disk: hist_step(s.disk, d),
        total: hist_step(s.total, t),
    }
}

/// First series carrying the label pair, at or after `i`.
pub open spec fn find_series(rv: Seq<SeriesV>, dev: Seq<char>, ot: OpType, i: int) -> Option<int>
    decreases rv.len() - i,
        when 0 <= i <= rv.len()
{
    if i == rv.len() {
        None
    } else if rv[i].device == dev && rv[i].optype == ot {
        Some(i)
    } else {
        find_series(rv, dev, ot, i + 1)
    }
}

proof fn lemma_find_series_none(rv: Seq<SeriesV>, dev: Seq<char>, ot: OpType, i: int)
    requires
        0 <= i <= rv.len(),
        find_series(rv, dev, ot, i) is None,
    ensures
        forall|j: int|
            i <= j < rv.len() ==> !((#[trigger] rv[j]).device == dev && rv[j].optype == ot),
    decreases rv.len() - i,
{
    if i < rv.len() {
        lemma_find_series_none(rv, dev, ot, i + 1);
    }
}

proof fn lemma_find_series_some(rv: Seq<SeriesV>, dev: Seq<char>, ot: OpType, i: int)
    requires
        0 <= i <= rv.len(),
        find_series(rv, dev, ot, i) is Some,
    ensures
        ({
            let j = find_series(rv, dev, ot, i)->0;
            i <= j < rv.len() && rv[j].device == dev && rv[j].optype == ot
        }),
    decreases rv.len() - i,
{
    if i < rv.len() && !(rv[i].device == dev && rv[i].optype == ot) {
        lemma_find_series_some(rv, dev, ot, i + 1);
    }
}

/// Every series well formed, each label pair held once.
pub open spec fn registry_wf(rv: Seq<SeriesV>) -> bool {
    &&& forall|i: int| 0 <= i < rv.len() ==> series_wf(#[trigger] rv[i])
    &&& forall|i: int, j: int|
        0 <= i < j < rv.len() ==> !((#[trigger] rv[i]).device == (#[trigger] rv[j]).device
            && rv[i].optype == rv[j].optype)
}

/// What recording one completed request does: the label pair's series gets
/// the three durations, a label pair seen for the first time gets a fresh
/// series; all other series are untouched.
pub open spec fn registry_step(
    rv: Seq<SeriesV>,
    dev: Seq<char>,
    ot: OpType,
    q: int,
    d: int,
    t: int,
) -> Seq<SeriesV> {
    match find_series(rv, dev, ot, 0) {
        Some(i) => rv.update(i, series_observed(rv[i], q, d, t)),
        None => rv.push(series_observed(zero_series(dev, ot), q, d, t)),
    }
}

/// Recording touches exactly the label pair's series, which receives the
/// durations as `series_observed` says; every other series keeps its state.
pub proof fn lemma_registry_step_label(
    rv: Seq<SeriesV>,
    dev: Seq<char>,
    ot: OpType,
    q: int,
    d: int,
    t: int,
)
    requires
        registry_wf(rv),
    ensures
        ({
            let rv2 = registry_step(rv, dev, ot, q, d, t);
            match find_series(rv, dev, ot, 0) {
                Some(i) => rv2.len() == rv.len() && rv2[i] == series_observed(rv[i], q, d, t)
                    && forall|j: int| 0 <= j < rv.len() && j != i ==> rv2[j] == rv[j],
                None => rv2.len() == rv.len() + 1 && rv2.last() == series_observed(
                    zero_series(dev, ot),
                    q,
                    d,
                    t,
                ) && forall|j: int| 0 <= j < rv.len() ==> rv2[j] == rv[j],
            }
        }),
{
    match find_series(rv, dev, ot, 0) {
        Some(i) => {
            lemma_find_series_some(rv, dev, ot, 0);
        },
        None => {},
    }
}

/// One label pair's series.
pub struct Series {
    device: String,
    optype: OpType,
    queue: Histogram,
    disk: Histogram,
    total: Histogram,
}

impl View for Series {
    type V = SeriesV;

    closed spec fn view(&self) -> SeriesV {
        SeriesV {
            device: self.device@,
            optype: self.optype,
            queue: self.queue@,
            disk: self.disk@,
            total: self.total@,
        }
    }
}

/// Series in insertion order.
pub open spec fn series_v(s: Seq<Series>) -> Seq<SeriesV> {
    s.map_values(|x: Series| x@)
}

/// The metrics registry: one series per label pair, registered implicitly on
/// first observation.
pub struct Registry {
    series: Vec<Series>,
}

impl View for Registry {
    type V = Seq<SeriesV>;

    closed spec fn view(&self) -> Seq<SeriesV> {
        series_v(self.series@)
    }
}

impl Registry {
    pub open spec fn wf(&self) -> bool {
        registry_wf(self@)
    }

    /// An empty registry.
    pub fn new() -> (r: Registry)
        ensures
            r.wf(),
            r@ == Seq::<SeriesV>::empty(),
    {
        let r = Registry { series: Vec::new() };
        proof {
            assert(r@ =~= Seq::<SeriesV>::empty());
        }
        r
    }

    fn find(&self, device: &str, optype: OpType) -> (r: Option<usize>)
        ensures
            match r {
                Some(i) => Some(i as int) == find_series(self@, device@, optype, 0) && i
                    < self@.len(),
                None => find_series(self@, device@, optype, 0) is None,
            },
    {
        let ghost rv = self@;
        let n = self.series.len();
        let mut i: usize = 0;
        while i < n
            invariant
                n == rv.len(),
                rv == self@,
                i <= n,
                find_series(rv, device@, optype, 0) == find_series(rv, device@, optype, i as int),
            decreases n - i,
        {
            proof {
                assert(rv[i as int] == self.series@[i as int]@);
            }
            if str_eq(self.series[i].device.as_str(), device) && self.series[i].optype == optype {
                return Some(i);
            }
            i = i + 1;
        }
        None
    }

    /// Records one completed request's three durations under its label pair;
    /// an unseen label pair is registered first.
    pub fn observe(&mut self, device: &str, optype: OpType, queue: i128, disk: i128, total: i128)
        requires
            old(self).wf(),
            dur_ok(queue as int),
            dur_ok(disk as int),
            dur_ok(total as int),
        ensures
            final(self).wf(),
            final(self)@ == registry_step(old(self)@, device@, optype, queue as int, disk as int, total as int),
    {
        let ghost rv = self@;
        match self.find(device, optype) {
            Some(i) => {
                proof {
                    lemma_find_series_some(rv, device@, optype, 0);
                }
                let mut s = self.series.remove(i);
                proof {
                    assert(rv[i as int] == s@);
                    assert(rv[i as int].device == device@ && rv[i as int].optype == optype);
                }
                s.queue.observe_one(queue);
                s.disk.observe_one(disk);
                s.total.observe_one(total);
                self.series.insert(i, s);
                proof {
                    assert(self@ =~= rv.update(
                        i as int,
                        series_observed(rv[i as int], queue as int, disk as int, total as int),
                    ));
                }
            },
            None => {
                proof {
                    lemma_find_series_none(rv, device@, optype, 0);
                }
                let mut s = Series {
                    device: String::from_str(device),
                    optype: optype,
                    queue: Histogram::new(),
                    disk: Histogram::new(),
                    total: Histogram::new(),
                };
                s.queue.observe_one(queue);
                s.disk.observe_one(disk);
                s.total.observe_one(total);
                self.series.push(s);
                proof {
                    assert(self@ =~= rv.push(
                        series_observed(
                            zero_series(device@, optype),
                            queue as int,
                            disk as int,
                            total as int,
                        ),
                    ));
                }
            },
        }
    }
}

// ---------------------------------------------------------------------------
// Rendering
// ---------------------------------------------------------------------------

pub open spec fn ot_text(ot: OpType) -> Seq<char> {
    match ot {
        OpType::Read => "read"@,
        OpType::Write => "write"@,
    }
}

/// The shared opening of one series' label set.
pub open spec fn label_open(dev: Seq<char>, ot: OpType) -> Seq<char> {
    "{device=\""@ + dev + "\",optype=\""@ + ot_text(ot)
}

/// Boundary label of bucket `i`; the last bucket is unbounded.
pub open spec fn le_text(i: int) -> Seq<char> {
    if i < 17 {
        dec_str(spec_bound(i) as nat)
    } else {
        "+Inf"@
    }
}

/// One cumulative bucket line.
pub open spec fn bucket_line(name: Seq<char>, dev: Seq<char>, ot: OpType, i: int, cum: int) -> Seq<
    char,
> {
    name + "_bucket"@ + label_open(dev, ot) + "\",le=\""@ + le_text(i) + "\"} "@ + dec_str(
        cum as nat,
    ) + "\n"@
}

/// The first `i` bucket lines, each with its cumulative count.
pub open spec fn bucket_lines(
    name: Seq<char>,
    dev: Seq<char>,
    ot: OpType,
    b: Seq<u64>,
    i: int,
) -> Seq<char>
    decreases i,
        when 0 <= i <= b.len()
{
    if i <= 0 {
        Seq::empty()
    } else {
        bucket_lines(name, dev, ot, b, i - 1) + bucket_line(name, dev, ot, i - 1, sum_buckets(b, i))
    }
}

pub open spec fn sum_line(name: Seq<char>, dev: Seq<char>, ot: OpType, sum: int) -> Seq<char> {
    name + "_sum"@ + label_open(dev, ot) + "\"} "@ + int_str(sum) + "\n"@
}

pub open spec fn count_line(name: Seq<char>, dev: Seq<char>, ot: OpType, count: u64) -> Seq<char> {
    name + "_count"@ + label_open(dev, ot) + "\"} "@ + dec_str(count as nat) + "\n"@
}

/// Text of one histogram: eighteen cumulative bucket lines, the sum, the
/// count.
pub open spec fn hist_text(name: Seq<char>, dev: Seq<char>, ot: OpType, h: HistogramV) -> Seq<
    char,
> {
    bucket_lines(name, dev, ot, h.buckets, 18) + sum_line(name, dev, ot, h.sum) + count_line(
        name,
        dev,
        ot,
        h.count,
    )
}

/// Text of one series: its three histograms.
pub open spec fn series_text(s: SeriesV) -> Seq<char> {
    hist_text("diskio_queue_time_microseconds"@, s.device, s.optype, s.queue) + hist_text(
        "diskio_disk_time_microseconds"@,
        s.device,
        s.optype,
        s.disk,
    ) + hist_text("diskio_total_time_microseconds"@, s.device, s.optype, s.total)
}

pub open spec fn render_upto(rv: Seq<SeriesV>, i: int) -> Seq<char>
    decreases i,
        when 0 <= i <= rv.len()
{
    if i <= 0 {
        Seq::empty()
    } else {
        render_upto(rv, i - 1) + series_text(rv[i - 1])
    }
}

/// The whole snapshot: every series' text, in registration order.
pub open spec fn spec_render(rv: Seq<SeriesV>) -> Seq<char> {
    render_upto(rv, rv.len() as int)
}

fn append_label(out: &mut String, dev: &str, ot: OpType)
    ensures
        final(out)@ == old(out)@ + label_open(dev@, ot),
{
    out.append("{device=\"");
    out.append(dev);
    out.append("\",optype=\"");
    match ot {
        OpType::Read => out.append("read"),
        OpType::Write => out.append("write"),
    }
    proof {
        assert(out@ =~= old(out)@ + label_open(dev@, ot));
    }
}

#[verifier::rlimit(80)]
fn append_hist(out: &mut String, name: &str, dev: &str, ot: OpType, h: &Histogram)
    requires
        hist_wf(h@),
    ensures
        final(out)@ == old(out)@ + hist_text(name@, dev@, ot, h@),
{
    let mut cum: u64 = 0;
    let mut i: usize = 0;
    proof {
        assert(out@ =~= old(out)@ + bucket_lines(name@, dev@, ot, h@.buckets, 0));
    }
    while i < 18
        invariant
            hist_wf(h@),
            i <= 18,
            cum == sum_buckets(h@.buckets, i as int),
            out@ == old(out)@ + bucket_lines(name@, dev@, ot, h@.buckets, i as int),
        decreases 18 - i,
    {
        proof {
            lemma_sum_monotone(h@.buckets, i + 1, 18);
            assert(sum_buckets(h@.buckets, i + 1) == cum + h@.buckets[i as int]);
        }
        let b = h.buckets[i];
        let c2 = cum + b;
        out.append(name);
        out.append("_bucket");
        append_label(out, dev, ot);
        out.append("\",le=\"");
        if i < 17 {
            let t = u64_to_string(bound_of(i));
            out.append(t.as_str());
        } else {
            out.append("+Inf");
        }
        out.append("\"} ");
        let t2 = u64_to_string(c2);
        out.append(t2.as_str());
        out.append("\n");
        proof {
            assert(out@ =~= old(out)@ + bucket_lines(name@, dev@, ot, h@.buckets, i + 1));
        }
        cum = c2;
        i = i + 1;
    }
    out.append(name);
    out.append("_sum");
    append_label(out, dev, ot);
    out.append("\"} ");
    let ts = i128_to_string(h.sum);
    out.append(ts.as_str());
    out.append("\n");
    out.append(name);
    out.append("_count");
    append_label(out, dev, ot);
    out.append("\"} ");
    let tc = u64_to_string(h.count);
    out.append(tc.as_str());
    out.append("\n");
    proof {
        assert(out@ =~= old(out)@ + hist_text(name@, dev@, ot, h@));
    }
}

impl Registry {
    /// Renders the whole snapshot deterministically from the registry state.
    #[verifier::rlimit(80)]
    pub fn render(&self) -> (r: String)
        requires
            self.wf(),
        ensures
            r@ == spec_render(self@),
    {
        let ghost rv = self@;
        let mut out = String::new();
        let n = self.series.len();
        let mut i: usize = 0;
        proof {
            assert(out@ =~= render_upto(rv, 0));
        }
        while i < n
            invariant
                n == rv.len(),
                rv == self@,
                registry_wf(rv),
                i <= n,
                out@ == render_upto(rv, i as int),
            decreases n - i,
        {
            proof {
                assert(rv[i as int] == self.series@[i as int]@);
                assert(series_wf(rv[i as int]));
            }
            let s: &Series = &self.series[i];
            append_hist(
                &mut out,
                "diskio_queue_time_microseconds",
                s.device.as_str(),
                s.optype,
                &s.queue,
            );
            append_hist(
                &mut out,
                "diskio_disk_time_microseconds",
                s.device.as_str(),
                s.optype,
                &s.disk,
            );
            append_hist(
                &mut out,
                "diskio_total_time_microseconds",
                s.device.as_str(),
                s.optype,
                &s.total,
            );
            proof {
                assert(out@ =~= render_upto(rv, i + 1));
            }
            i = i + 1;
        }
        out
    }
}

} // verus!
