//! The server loop's decision core: one readiness cycle's plan, the trace
//! text pipeline (parse, correlate, resolve, record), client bookkeeping and
//! response framing. The caller owns the actual polling, reading, accepting
//! and writing; every decision between those calls is made here.

use vstd::prelude::*;
use vstd::string::*;
use crate::correlate::{correlate_step, Correlator, CorrelatorV};
use crate::decimal::dec_str;
use crate::decimal::u64_to_string;
use crate::device::{spec_get_step, DevicePaths, DevicePathsV};
use crate::metrics::{dur_ok, registry_step, spec_render, Registry, SeriesV};
use crate::text::{spec_lines, split_lines};
use crate::trace::spec_parse_line;
use crate::trace::parse_trace_line;

verus! {

/// Mathematical image of a `ServerCore`.
pub struct ServerCoreV {
    pub resolver: DevicePathsV,
    pub correlator: CorrelatorV,
    pub registry: Seq<SeriesV>,
    pub clients: Seq<u64>,
}

// ---------------------------------------------------------------------------
// The trace pipeline, one line at a time
// ---------------------------------------------------------------------------

/// What one trace line does to the core. The flag is false exactly when a
/// completed request's device identifier cannot be resolved, which is fatal:
/// a histogram under a fabricated name would hide the gap.
pub open spec fn core_line_step(c: ServerCoreV, line: Seq<char>) -> (ServerCoreV, bool) {
    match spec_parse_line(line) {
        None => (c, true),
        Some(ev) => {
            let step = correlate_step(c.correlator, ev);
            let c1 = ServerCoreV {
                resolver: c.resolver,
                correlator: step.0,
                registry: c.registry,
                clients: c.clients,
            };
            match step.1 {
                None => (c1, true),
                Some(rec) => {
                    let got = spec_get_step(c1.resolver, rec.dev);
                    let c2 = ServerCoreV {
                        resolver: got.0,
                        correlator: c1.correlator,
                        registry: c1.registry,
                        clients: c1.clients,
                    };
                    match got.1 {
                        None => (c2, false),
                        Some(path) => (
                            ServerCoreV {
                                resolver: c2.resolver,
                                correlator: c2.correlator,
                                registry: registry_step(
                                    c2.registry,
                                    path,
                                    rec.optype,
                                    rec.queue_micros,
                                    rec.disk_micros,
                                    rec.total_micros,
                                ),
                                clients: c2.clients,
                            },
                            true,
                        ),
                    }
                },
            }
        },
    }
}

/// The lines from `i` on, run through `core_line_step` until done or fatal.
pub open spec fn core_lines_run(c: ServerCoreV, lines: Seq<Seq<char>>, i: int) -> (
    ServerCoreV,
    bool,
)
    decreases lines.len() - i,
        when 0 <= i <= lines.len()
{
    if i >= lines.len() {
        (c, true)
    } else {
        let step = core_line_step(c, lines[i]);
        if !step.1 {
            (step.0, false)
        } else {
            core_lines_run(step.0, lines, i + 1)
        }
    }
}

/// One chunk of trace text: split into lines, each run through the pipeline.
pub open spec fn core_ingest(c: ServerCoreV, text: Seq<char>) -> (ServerCoreV, bool) {
    core_lines_run(c, spec_lines(text), 0)
}

// ---------------------------------------------------------------------------
// Cycle planning
// ---------------------------------------------------------------------------

/// What one readiness cycle should do.
#[derive(PartialEq, Eq, Debug)]
pub enum CyclePlan {
    /// The shutdown flag was observed: close the trace stream and return.
    Stop,
    /// The readiness wait was interrupted: treat as spurious, poll again.
    Retry,
    /// The readiness wait failed: fatal for the run loop.
    Abort,
    /// Drain the trace stream and/or the listener, then serve one client.
    Work { read_trace: bool, accept: bool, serve: Option<u64> },
}

/// First id in `ready` that is a monitored client.
pub open spec fn first_monitored(ready: Seq<u64>, clients: Seq<u64>, i: int) -> Option<u64>
    decreases ready.len() - i,
        when 0 <= i <= ready.len()
{
    if i == ready.len() {
        None
    } else if clients.contains(ready[i]) {
        Some(ready[i])
    } else {
        first_monitored(ready, clients, i + 1)
    }
}

/// The plan for one cycle: the shutdown flag ends the loop before anything
/// else; an interrupted wait is retried; a failed wait is fatal; otherwise
/// the ready handles are worked, serving the first ready monitored client.
pub open spec fn spec_plan(
    clients: Seq<u64>,
    shutdown: bool,
    interrupted: bool,
    failed: bool,
    trace_ready: bool,
    listener_ready: bool,
    ready: Seq<u64>,
) -> CyclePlan {
    if shutdown {
        CyclePlan::Stop
    } else if interrupted {
        CyclePlan::Retry
    } else if failed {
        CyclePlan::Abort
    } else {
        CyclePlan::Work {
            read_trace: trace_ready,
            accept: listener_ready,
            serve: first_monitored(ready, clients, 0),
        }
    }
}

/// With no trace data and exactly one ready, monitored client, the plan is to
/// serve that client and touch nothing else; `serve_client`'s contract then
/// yields it the rendered snapshot and drops only it from the monitored set.
pub proof fn lemma_one_client_served(c: ServerCoreV, id: u64)
    requires
        c.clients.contains(id),
    ensures
        spec_plan(c.clients, false, false, false, false, false, seq![id]) == (CyclePlan::Work {
            read_trace: false,
            accept: false,
            serve: Some(id),
        }),
{
    let ready = seq![id];
    assert(ready[0] == id);
    assert(first_monitored(ready, c.clients, 0) == Some(id));
}

// ---------------------------------------------------------------------------
// Response framing
// ---------------------------------------------------------------------------

/// The one response ever sent: a status line, the content type, the body's
/// length, a blank line, the body, one trailing newline (which the declared
/// length does not include). The length counts characters, which equals the
/// byte count for the ascii text the registry renders.
pub open spec fn http_response_text(body: Seq<char>) -> Seq<char> {
    "HTTP/1.1 200 OK\nContent-Type: text/plain\nContent-Length: "@ + dec_str(body.len()) + "\n\n"@
        + body + "\n"@
}

/// Frames `body` as the metrics endpoint's response.
pub fn http_response(body: &str) -> (r: String)
    ensures
        r@ == http_response_text(body@),
{
    let mut out = String::from_str("HTTP/1.1 200 OK\nContent-Type: text/plain\nContent-Length: ");
    let n = body.unicode_len();
    let t = u64_to_string(n as u64);
    out.append(t.as_str());
    out.append("\n\n");
    out.append(body);
    out.append("\n");
    proof {
        assert(out@ =~= http_response_text(body@));
    }
    out
}

// ---------------------------------------------------------------------------
// The core state
// ---------------------------------------------------------------------------

/// Index of client `id` in the monitored list.
pub open spec fn find_client(s: Seq<u64>, id: u64, i: int) -> Option<int>
    decreases s.len() - i,
        when 0 <= i <= s.len()
{
    if i == s.len() {
        None
    } else if s[i] == id {
        Some(i)
    } else {
        find_client(s, id, i + 1)
    }
}

proof fn lemma_find_client_none(s: Seq<u64>, id: u64, i: int)
    requires
        0 <= i <= s.len(),
        find_client(s, id, i) is None,
    ensures
        forall|j: int| i <= j < s.len() ==> s[j] != id,
    decreases s.len() - i,
{
    if i < s.len() {
        lemma_find_client_none(s, id, i + 1);
    }
}

fn contains_id(v: &Vec<u64>, id: u64) -> (r: bool)
    ensures
        r == v@.contains(id),
{
    let n = v.len();
    let mut i: usize = 0;
    while i < n
        invariant
            n == v@.len(),
            i <= n,
            forall|j: int| 0 <= j < i ==> v@[j] != id,
        decreases n - i,
    {
        if v[i] == id {
            assert(v@[i as int] == id);
            return true;
        }
        i = i + 1;
    }
    false
}

/// Everything the run loop decides over: the trace pipeline's three stages
/// and the set of monitored client connections (by the caller's handle ids).
pub struct ServerCore {
    resolver: DevicePaths,
    correlator: Correlator,
    registry: Registry,
    clients: Vec<u64>,
}

impl View for ServerCore {
    type V = ServerCoreV;

    closed spec fn view(&self) -> ServerCoreV {
        ServerCoreV {
            resolver: self.resolver@,
            correlator: self.correlator@,
            registry: self.registry@,
            clients: self.clients@,
        }
    }
}

impl ServerCore {
    /// The pipeline is well formed and no client is monitored twice.
    pub closed spec fn wf(&self) -> bool {
        &&& self.resolver.wf()
        &&& self.correlator.wf()
        &&& self.registry.wf()
        &&& forall|i: int, j: int|
            0 <= i < j < self.clients@.len() ==> self.clients@[i] != self.clients@[j]
    }

    /// A fresh core around a resolver, with nothing pending, nothing
    /// recorded, and no client monitored.
    pub fn new(resolver: DevicePaths) -> (r: ServerCore)
        requires
            resolver.wf(),
        ensures
            r.wf(),
            r@.resolver == resolver@,
            r@.correlator.inserts == Map::<(Seq<char>, Seq<char>, Seq<char>), u64>::empty(),
            r@.correlator.issues == Map::<(Seq<char>, Seq<char>, Seq<char>), u64>::empty(),
            r@.registry == Seq::<SeriesV>::empty(),
            r@.clients == Seq::<u64>::empty(),
    {
        ServerCore {
            resolver,
            correlator: Correlator::new(),
            registry: Registry::new(),
            clients: Vec::new(),
        }
    }

    /// The plan for one cycle, from the shutdown flag and the wait's outcome.
    pub fn plan_cycle(
        &self,
        shutdown: bool,
        interrupted: bool,
        failed: bool,
        trace_ready: bool,
        listener_ready: bool,
        ready: &Vec<u64>,
    ) -> (r: CyclePlan)
        ensures
            r == spec_plan(
                self@.clients,
                shutdown,
                interrupted,
                failed,
                trace_ready,
                listener_ready,
                ready@,
            ),
    {
        if shutdown {
            return CyclePlan::Stop;
        }
        if interrupted {
            return CyclePlan::Retry;
        }
        if failed {
            return CyclePlan::Abort;
        }
        let n = ready.len();
        let mut i: usize = 0;
        let mut serve: Option<u64> = None;
        while i < n
            invariant
                !shutdown,
                !interrupted,
                !failed,
                n == ready@.len(),
                i <= n,
                serve is None,
                first_monitored(ready@, self@.clients, 0) == first_monitored(
                    ready@,
                    self@.clients,
                    i as int,
                ),
            decreases n - i,
        {
            if contains_id(&self.clients, ready[i]) {
                return CyclePlan::Work {
                    read_trace: trace_ready,
                    accept: listener_ready,
                    serve: Some(ready[i]),
                };
            }
            i = i + 1;
        }
        CyclePlan::Work { read_trace: trace_ready, accept: listener_ready, serve: None }
    }

    /// Runs one chunk of trace text through the pipeline. A false result is
    /// the fatal case: a completed request whose device has no name.
    pub fn ingest_trace_text(&mut self, text: &str) -> (ok: bool)
        requires
            old(self).wf(),
        ensures
            final(self).wf(),
            final(self)@ == core_ingest(old(self)@, text@).0,
            ok == core_ingest(old(self)@, text@).1,
    {
        let lines = split_lines(text);
        let ghost ls = spec_lines(text@);
        proof {
            assert(lines.deep_view() == ls);
        }
        let n = lines.len();
        let mut i: usize = 0;
        while i < n
            invariant
                self.wf(),
                n == ls.len(),
                lines.deep_view() == ls,
                i <= n,
                self@.clients == old(self)@.clients,
                core_ingest(old(self)@, text@) == core_lines_run(self@, ls, i as int),
            decreases n - i,
        {
            proof {
                assert(ls[i as int] == lines@[i as int]@);
            }
            let ghost pre = self@;
            match parse_trace_line(lines[i].as_str()) {
                None => {},
                Some(ev) => {
                    let ghost evv = spec_parse_line(ls[i as int])->0;
                    match self.correlator.observe(&ev) {
                        None => {},
                        Some(rec) => {
                            proof {
                                let srec = correlate_step(pre.correlator, evv).1->0;
                                assert(rec@ == srec);
                            }
                            match self.resolver.get_dev_path(rec.dev.as_str()) {
                                None => {
                                    proof {
                                        assert(core_line_step(pre, ls[i as int]).1 == false);
                                        assert(core_line_step(pre, ls[i as int]).0 == self@);
                                    }
                                    return false;
                                },
                                Some(path) => {
                                    proof {
                                        assert(dur_ok(rec.queue_micros as int));
                                        assert(dur_ok(rec.disk_micros as int));
                                        assert(dur_ok(rec.total_micros as int));
                                    }
                                    self.registry.observe(
                                        path.as_str(),
                                        rec.optype,
                                        rec.queue_micros,
                                        rec.disk_micros,
                                        rec.total_micros,
                                    );
                                },
                            }
                        },
                    }
                },
            }
            proof {
                assert(core_line_step(pre, ls[i as int]) == (self@, true));
            }
            i = i + 1;
        }
        true
    }

    /// Starts monitoring an accepted connection; a handle already monitored
    /// is left alone.
    pub fn register_client(&mut self, id: u64)
        requires
            old(self).wf(),
        ensures
            final(self).wf(),
            final(self)@.resolver == old(self)@.resolver,
            final(self)@.correlator == old(self)@.correlator,
            final(self)@.registry == old(self)@.registry,
            final(self)@.clients == if old(self)@.clients.contains(id) {
                old(self)@.clients
            } else {
                old(self)@.clients.push(id)
            },
    {
        if !contains_id(&self.clients, id) {
            self.clients.push(id);
        }
    }

    /// Serves a monitored ready client: renders the snapshot, frames it, and
    /// stops monitoring the client, whose connection the caller then closes.
    /// The trace pipeline's state is untouched either way.
    pub fn serve_client(&mut self, id: u64) -> (r: Option<String>)
        requires
            old(self).wf(),
        ensures
            final(self).wf(),
            final(self)@.resolver == old(self)@.resolver,
            final(self)@.correlator == old(self)@.correlator,
            final(self)@.registry == old(self)@.registry,
            match find_client(old(self)@.clients, id, 0) {
                Some(idx) => final(self)@.clients == old(self)@.clients.remove(idx) && (match r {
                    Some(resp) => resp@ == http_response_text(spec_render(old(self)@.registry)),
                    None => false,
                }),
                None => final(self)@.clients == old(self)@.clients && r is None,
            },
    {
        let n = self.clients.len();
        let mut i: usize = 0;
        while i < n
            invariant
                *self == *old(self),
                old(self).wf(),
                n == self.clients@.len(),
                i <= n,
                find_client(self@.clients, id, 0) == find_client(self@.clients, id, i as int),
            decreases n - i,
        {
            if self.clients[i] == id {
                self.clients.remove(i);
                let body = self.registry.render();
                let resp = http_response(body.as_str());
                return Some(resp);
            }
            i = i + 1;
        }
        None
    }

    /// Renders the current snapshot without serving anyone.
    pub fn render_snapshot(&self) -> (r: String)
        requires
            self.wf(),
        ensures
            r@ == spec_render(self@.registry),
    {
        self.registry.render()
    }
}

} // verus!
