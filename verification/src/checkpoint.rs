//! Interrupting a campaign: a flag that Ctrl-C raises.

use vstd::prelude::*;

use std::io::Write;
use std::sync::atomic::AtomicBool;
use std::sync::Arc;

use crate::command::subprocess::runner::map_views;
use crate::fields::FieldMap;
use crate::text::{concat_str, parse_usize, parsed_usize};
use crate::trial::store::{status_of, TrialStatus};

verus! {

/// `line_ending::LineEnding::from_current_platform().as_str()`: `\r\n`
/// when built for Windows, `\n` otherwise (which one depends on the build
/// target, so the contract allows both).
#[verifier::external_body]
fn platform_line_ending() -> (r: &'static str)
    ensures
        r@ == "\n"@ || r@ == "\r\n"@,
{
    line_ending::LineEnding::from_current_platform().as_str()
}

/// Write `text` and a newline to standard error (what `eprintln!` writes),
/// ignoring a failed write. Nothing is promised: it is output only.
#[verifier::external_body]
pub(crate) fn print_error_line(text: &str) {
    let _ = writeln!(std::io::stderr(), "{}", text);
}

/// Announce the shutdown on standard error and raise the stop flag.
fn raise_stop(flag: &AtomicBool) {
    let lf = platform_line_ending();
    let msg = concat_str(lf, "Shutdown requested (Ctrl-C). Finishing current work...");
    print_error_line(msg.as_str());
    flag.store(true, std::sync::atomic::Ordering::SeqCst);
}

/// `ctrlc::set_handler` with a handler that raises `flag`; whether the
/// handler could be installed is not reported (the campaign runs either way).
#[verifier::external_body]
fn install_interrupt_handler(flag: Arc<AtomicBool>) {
    let _ = ctrlc::set_handler(move || raise_stop(&flag));
}

/// A flag set when SIGINT (Ctrl-C) is received.
#[derive(Clone)]
pub struct StopFlag(Arc<AtomicBool>);

impl StopFlag {
    /// The shared flag.
    pub closed spec fn shared(&self) -> Arc<AtomicBool> {
        self.0
    }

    /// A lowered flag, raised by the process's Ctrl-C handler from now on;
    /// the handler also announces the shutdown on standard error.
    pub fn new() -> (r: Self) {
        let flag = Arc::new(AtomicBool::new(false));
        let handler_flag = flag.clone();
        install_interrupt_handler(handler_flag);
        StopFlag(flag)
    }

    /// Whether Ctrl-C has been received; the answer depends on when the
    /// signal arrives, so no contract can fix it.
    pub fn is_set(&self) -> (r: bool) {
        self.0.load(std::sync::atomic::Ordering::SeqCst)
    }

    /// The shared flag itself.
    pub fn inner(&self) -> (r: Arc<AtomicBool>)
        ensures
            r == self.shared(),
    {
        self.0.clone()
    }
}

impl Default for StopFlag {
    fn default() -> (r: Self) {
        StopFlag::new()
    }
}

/// The trial of a row that an interrupted run left running: its id, when
/// the row's status is `running` and its `trial_id` parses.
pub open spec fn stale_id(row: Map<Seq<char>, Seq<char>>) -> Option<usize> {
    if row.contains_key("status"@) && status_of(row["status"@]) == Some(TrialStatus::Running)
        && row.contains_key("trial_id"@) {
        parsed_usize(row["trial_id"@])
    } else {
        None
    }
}

/// The stale trial ids among the first `n` rows, in order.
pub open spec fn stale_ids(rows: Seq<Map<Seq<char>, Seq<char>>>, n: int) -> Seq<usize>
    decreases n,
{
    if n <= 0 {
        Seq::empty()
    } else {
        match stale_id(rows[n - 1]) {
            Some(id) => stale_ids(rows, n - 1).push(id),
            None => stale_ids(rows, n - 1),
        }
    }
}

/// The ids of the trials that a previous run left `running`, in row order;
/// their records and artifact directories are reset before a resume.
pub fn stale_running_ids(rows: &Vec<FieldMap>) -> (r: Vec<usize>)
    ensures
        r@ == stale_ids(map_views(rows@), rows@.len() as int),
{
    let ghost ms = map_views(rows@);
    let mut r: Vec<usize> = Vec::new();
    let mut i: usize = 0;
    while i < rows.len()
        invariant
            i <= rows@.len(),
            ms == map_views(rows@),
            r@ == stale_ids(ms, i as int),
        decreases rows@.len() - i,
    {
        let row = &rows[i];
        proof {
            assert(ms[i as int] == row@);
        }
        let running = match row.get("status") {
            Some(s) => match TrialStatus::parse(s.as_str()) {
                Some(TrialStatus::Running) => true,
                _ => false,
            },
            None => false,
        };
        if running {
            match row.get("trial_id") {
                Some(t) => match parse_usize(t.as_str()) {
                    Some(id) => {
                        r.push(id);
                    },
                    None => {},
                },
                None => {},
            }
        }
        i = i + 1;
    }
    r
}

} // verus!
