//! Kernel block-trace line parsing: one text line in, one structured event
//! out, or a rejection for anything malformed or irrelevant.
//!
//! A line is whitespace-tokenized. The task-name prefix may itself contain
//! whitespace, so the fixed-format suffix is located at one token before the
//! first token that opens with `[` (the cpu field). Within that suffix, token
//! three is the timestamp (with a trailing colon), token four the event name
//! (likewise), token five the `major,minor` device identifier and token six
//! the direction flags. Insert and issue events carry a request-size field
//! that completions lack, so their sector and sector-count fields sit two
//! different index pairs further in.

use vstd::prelude::*;
use vstd::string::*;
use crate::decimal::spec_parse_micros;
use crate::decimal::parse_micros;
use crate::text::{find_bracket, find_bracket_spec, str_contains, str_eq, tokenize, tokens_of};
use crate::text::lemma_tokens_nonempty;

verus! {

/// The three block-layer request lifecycle events that are understood.
#[derive(Clone, Copy, PartialEq, Eq, Structural, Debug)]
pub enum EventKind {
    Insert,
    Issue,
    Complete,
}

/// Direction of a block request.
#[derive(Clone, Copy, PartialEq, Eq, Structural, Debug)]
pub enum OpType {
    Read,
    Write,
}

/// One parsed trace event.
pub struct TraceEvent {
    pub kind: EventKind,
    pub dev: String,
    pub sector: String,
    pub nr_sectors: String,
    pub optype: OpType,
    pub micros: u64,
}

/// Mathematical image of a `TraceEvent`.
pub struct TraceEventV {
    pub kind: EventKind,
    pub dev: Seq<char>,
    pub sector: Seq<char>,
    pub nr_sectors: Seq<char>,
    pub optype: OpType,
    pub micros: u64,
}

impl View for TraceEvent {
    type V = TraceEventV;

    open spec fn view(&self) -> TraceEventV {
        TraceEventV {
            kind: self.kind,
            dev: self.dev@,
            sector: self.sector@,
            nr_sectors: self.nr_sectors@,
            optype: self.optype,
            micros: self.micros,
        }
    }
}

/// Direction read out of the flags token: a read marker wins over a write
/// marker; neither means the line is discarded.
pub open spec fn spec_optype(rwbs: Seq<char>) -> Option<OpType> {
    if rwbs.contains('R') {
        Some(OpType::Read)
    } else if rwbs.contains('W') {
        Some(OpType::Write)
    } else {
        None
    }
}

/// Event parsed from the fixed-format suffix tokens `f` (the token before the
/// bracketed cpu field is `f[0]`).
pub open spec fn spec_parse_fields(f: Seq<Seq<char>>) -> Option<TraceEventV> {
    if f.len() < 7 {
        None
    } else {
        let ts_tok = f[3];
        if ts_tok.len() == 0 {
            None
        } else {
            match spec_parse_micros(ts_tok.take(ts_tok.len() - 1)) {
                None => None,
                Some(t) => {
                    let op_tok = f[4];
                    if op_tok.len() == 0 {
                        None
                    } else {
                        let op = op_tok.take(op_tok.len() - 1);
                        let dev = f[5];
                        let rwbs = f[6];
                        if dev == "0,0"@ {
                            None
                        } else {
                            match spec_optype(rwbs) {
                                None => None,
                                Some(ot) => {
                                    if op == "block_rq_insert"@ {
                                        if f.len() < 12 {
                                            None
                                        } else {
                                            Some(
                                                TraceEventV {
                                                    kind: EventKind::Insert,
                                                    dev: dev,
                                                    sector: f[9],
                                                    nr_sectors: f[11],
                                                    optype: ot,
                                                    micros: t,
                                                },
                                            )
                                        }
                                    } else if op == "block_rq_issue"@ {
                                        if f.len() < 12 {
                                            None
                                        } else {
                                            Some(
                                                TraceEventV {
                                                    kind: EventKind::Issue,
                                                    dev: dev,
                                                    sector: f[9],
                                                    nr_sectors: f[11],
                                                    optype: ot,
                                                    micros: t,
                                                },
                                            )
                                        }
                                    } else if op == "block_rq_complete"@ {
                                        if f.len() < 11 {
                                            None
                                        } else {
                                            Some(
                                                TraceEventV {
                                                    kind: EventKind::Complete,
                                                    dev: dev,
                                                    sector: f[8],
                                                    nr_sectors: f[10],
                                                    optype: ot,
                                                    micros: t,
                                                },
                                            )
                                        }
                                    } else {
                                        None
                                    }
                                },
                            }
                        }
                    }
                },
            }
        }
    }
}

/// Event parsed from one whole trace line, if any.
pub open spec fn spec_parse_line(line: Seq<char>) -> Option<TraceEventV> {
    let ts = tokens_of(line);
    match find_bracket_spec(ts, 0) {
        None => None,
        Some(bi) => {
            if bi == 0 {
                None
            } else {
                spec_parse_fields(ts.skip(bi - 1))
            }
        },
    }
}

/// A trace line whose device identifier field reads `0,0` yields no event,
/// whatever its event name or direction flags say.
pub proof fn lemma_dev_zero_rejected(line: Seq<char>)
    requires
        ({
            let ts = tokens_of(line);
            match find_bracket_spec(ts, 0) {
                Some(bi) => bi >= 1 && ts.skip(bi - 1).len() >= 7 && ts.skip(bi - 1)[5] == "0,0"@,
                None => true,
            }
        }),
    ensures
        spec_parse_line(line) is None,
{
}

/// Parses one trace line into an event, or rejects it.
pub fn parse_trace_line(line: &str) -> (r: Option<TraceEvent>)
    ensures
        match (r, spec_parse_line(line@)) {
            (Some(ev), Some(v)) => ev@ == v,
            (None, None) => true,
            _ => false,
        },
{
    let toks: Vec<String> = tokenize(line);
    let ghost ts = tokens_of(line@);
    proof {
        lemma_tokens_nonempty(line@);
        assert(toks.deep_view() == ts);
    }
    let n = toks.len();
    proof {
        assert(n == ts.len());
    }
    // locate the bracketed cpu token
    let bstart = match find_bracket(&toks) {
        None => {
            return None;
        },
        Some(b) => b,
    };
    if bstart == 0 {
        return None;
    }
    let start = bstart - 1;
    let ghost f = ts.skip(start as int);
    if n - start < 7 {
        return None;
    }
    proof {
        assert(f.len() == n - start);
        assert(forall|k: int| 0 <= k < f.len() ==> f[k] == ts[start + k]);
        assert(forall|k: int| 0 <= k < ts.len() ==> ts[k] == toks@[k]@);
    }
    // timestamp: strip the trailing colon, then parse
    let ts_tok: &String = &toks[start + 3];
    let ts_len = ts_tok.as_str().unicode_len();
    proof {
        assert(f[3] == ts_tok@);
        assert(f[3].len() > 0);
    }
    let ts_str = ts_tok.as_str().substring_char(0, ts_len - 1);
    proof {
        assert(ts_str@ =~= f[3].take(f[3].len() - 1));
    }
    let micros = match parse_micros(ts_str) {
        Some(t) => t,
        None => {
            return None;
        },
    };
    // event name: strip the trailing colon
    let op_tok: &String = &toks[start + 4];
    let op_len = op_tok.as_str().unicode_len();
    proof {
        assert(f[4] == op_tok@);
        assert(f[4].len() > 0);
    }
    let op_str = op_tok.as_str().substring_char(0, op_len - 1);
    proof {
        assert(op_str@ =~= f[4].take(f[4].len() - 1));
    }
    let dev_tok: &String = &toks[start + 5];
    let rwbs_tok: &String = &toks[start + 6];
    proof {
        assert(f[5] == dev_tok@);
        assert(f[6] == rwbs_tok@);
    }
    if str_eq(dev_tok.as_str(), "0,0") {
        return None;
    }
    let optype = if str_contains(rwbs_tok.as_str(), 'R') {
        OpType::Read
    } else if str_contains(rwbs_tok.as_str(), 'W') {
        OpType::Write
    } else {
        return None;
    };
    if str_eq(op_str, "block_rq_insert") || str_eq(op_str, "block_rq_issue") {
        if n - start < 12 {
            return None;
        }
        let kind = if str_eq(op_str, "block_rq_insert") {
            EventKind::Insert
        } else {
            EventKind::Issue
        };
        proof {
            assert(f[9] == toks@[start + 9]@);
            assert(f[11] == toks@[start + 11]@);
        }
        let ev = TraceEvent {
            kind: kind,
            dev: dev_tok.clone(),
            sector: toks[start + 9].clone(),
            nr_sectors: toks[start + 11].clone(),
            optype: optype,
            micros: micros,
        };
        Some(ev)
    } else if str_eq(op_str, "block_rq_complete") {
        if n - start < 11 {
            return None;
        }
        proof {
            assert(f[8] == toks@[start + 8]@);
            assert(f[10] == toks@[start + 10]@);
        }
        let ev = TraceEvent {
            kind: EventKind::Complete,
            dev: dev_tok.clone(),
            sector: toks[start + 8].clone(),
            nr_sectors: toks[start + 10].clone(),
            optype: optype,
            micros: micros,
        };
        Some(ev)
    } else {
        None
    }
}

} // verus!
