use vstd::prelude::*;
use crate::deadlock::{find_deadlocks, is_cycle_list, lemma_cycle_list_unique, on_cycle};
use crate::lexer::{lex_normalized, tokenize_source};
use crate::parser::{parse, parse_tokens, Event, Operation, SyntaxError};
use crate::races::{find_races, holds, holds_exec, is_race, is_race_list, lemma_race_list_unique};
use crate::token::LexerError;

verus! {

/// A breach of lock or thread discipline.
#[derive(Debug, Clone, Copy, PartialEq, Eq, Structural)]
pub enum Breach {
    /// A thread acquires a lock it already holds.
    DoubleAcquire,
    /// A thread releases a lock it does not hold.
    ReleaseWithoutHold,
    /// A join of a thread that was never forked or was joined already.
    InvalidJoin,
    /// A fork of a thread id that is already in use.
    InvalidFork,
    /// Under strict checking: an acquire that no later release by the same
    /// thread undoes.
    UnreleasedLock,
    /// Under strict checking: a fork of a thread that is never joined.
    UnjoinedThread,
}

pub open spec fn forked_before(tr: Seq<Event>, c: i64, k: int) -> bool {
    exists|m: int| 0 <= m < k && #[trigger] tr[m].operation == Operation::Fork(c)
}

pub open spec fn joined_before(tr: Seq<Event>, c: i64, k: int) -> bool {
    exists|m: int| 0 <= m < k && #[trigger] tr[m].operation == Operation::Join(c)
}

pub open spec fn active_before(tr: Seq<Event>, c: i64, k: int) -> bool {
    exists|m: int| 0 <= m < k && #[trigger] tr[m].thread == c
}

pub open spec fn released_after(tr: Seq<Event>, t: i64, l: i64, k: int) -> bool {
    exists|m: int| k < m < tr.len() && tr[m].thread == t && #[trigger] tr[m].operation == Operation::Release(l)
}

pub open spec fn joined_after(tr: Seq<Event>, c: i64, k: int) -> bool {
    exists|m: int| k < m < tr.len() && #[trigger] tr[m].operation == Operation::Join(c)
}

/// The breach that event `k` commits, if any; `strict` adds the checks at
/// the end of the trace (locks never released, threads never joined).
pub open spec fn breach_at(tr: Seq<Event>, k: int, strict: bool) -> Option<Breach> {
    let e = tr[k];
    match e.operation {
        Operation::Acquire(l) => if holds(tr, e.thread, l, k) {
            Some(Breach::DoubleAcquire)
        } else if strict && !released_after(tr, e.thread, l, k) {
            Some(Breach::UnreleasedLock)
        } else {
            None
        },
        Operation::Release(l) => if !holds(tr, e.thread, l, k) {
            Some(Breach::ReleaseWithoutHold)
        } else {
            None
        },
        Operation::Join(c) => if !forked_before(tr, c, k) || joined_before(tr, c, k) {
            Some(Breach::InvalidJoin)
        } else {
            None
        },
        Operation::Fork(c) => if c == e.thread || forked_before(tr, c, k) || active_before(tr, c, k) {
            Some(Breach::InvalidFork)
        } else if strict && !joined_after(tr, c, k) {
            Some(Breach::UnjoinedThread)
        } else {
            None
        },
        _ => None,
    }
}

/// The breaches among the first `k` events, with their indices, in order.
pub open spec fn breaches_upto(tr: Seq<Event>, k: int, strict: bool) -> Seq<(usize, Breach)>
    decreases k,
{
    if k <= 0 || k > tr.len() {
        Seq::empty()
    } else {
        match breach_at(tr, k - 1, strict) {
            Some(b) => breaches_upto(tr, k - 1, strict).push(((k - 1) as usize, b)),
            None => breaches_upto(tr, k - 1, strict),
        }
    }
}

/// Whether thread `c` was forked, joined, or ran an event among the first `k`
/// events.
fn thread_history(tr: &Vec<Event>, c: i64, k: usize) -> (r: (bool, bool, bool))
    requires
        k <= tr@.len(),
    ensures
        r.0 == forked_before(tr@, c, k as int),
        r.1 == joined_before(tr@, c, k as int),
        r.2 == active_before(tr@, c, k as int),
{
    let mut forked = false;
    let mut joined = false;
    let mut active = false;
    let mut m: usize = 0;
    while m < k
        invariant
            m <= k <= tr@.len(),
            forked == forked_before(tr@, c, m as int),
            joined == joined_before(tr@, c, m as int),
            active == active_before(tr@, c, m as int),
        decreases k - m,
    {
        let e = tr[m];
        if e.operation == Operation::Fork(c) {
            forked = true;
        }
        if e.operation == Operation::Join(c) {
            joined = true;
        }
        if e.thread == c {
            active = true;
        }
        m = m + 1;
    }
    (forked, joined, active)
}

fn released_after_exec(tr: &Vec<Event>, t: i64, l: i64, k: usize) -> (r: bool)
    requires
        k < tr@.len(),
    ensures
        r == released_after(tr@, t, l, k as int),
{
    let n = tr.len();
    let mut m: usize = k + 1;
    while m < n
        invariant
            n == tr@.len(),
            k < m <= tr@.len(),
            forall|x: int| k < x < m ==> !(tr@[x].thread == t && #[trigger] tr@[x].operation == Operation::Release(l)),
        decreases tr@.len() - m,
    {
        if tr[m].thread == t && tr[m].operation == Operation::Release(l) {
            return true;
        }
        m = m + 1;
    }
    false
}

fn joined_after_exec(tr: &Vec<Event>, c: i64, k: usize) -> (r: bool)
    requires
        k < tr@.len(),
    ensures
        r == joined_after(tr@, c, k as int),
{
    let n = tr.len();
    let mut m: usize = k + 1;
    while m < n
        invariant
            n == tr@.len(),
            k < m <= tr@.len(),
            forall|x: int| k < x < m ==> #[trigger] tr@[x].operation != Operation::Join(c),
        decreases tr@.len() - m,
    {
        if tr[m].operation == Operation::Join(c) {
            return true;
        }
        m = m + 1;
    }
    false
}

fn breach_exec(tr: &Vec<Event>, k: usize, strict: bool) -> (r: Option<Breach>)
    requires
        k < tr@.len(),
    ensures
        r == breach_at(tr@, k as int, strict),
{
    let e = tr[k];
    match e.operation {
        Operation::Acquire(l) => if holds_exec(tr, e.thread, l, k) {
            Some(Breach::DoubleAcquire)
        } else if strict && !released_after_exec(tr, e.thread, l, k) {
            Some(Breach::UnreleasedLock)
        } else {
            None
        },
        Operation::Release(l) => if !holds_exec(tr, e.thread, l, k) {
            Some(Breach::ReleaseWithoutHold)
        } else {
            None
        },
        Operation::Join(c) => {
            let (forked, joined, _) = thread_history(tr, c, k);
            if !forked || joined {
                Some(Breach::InvalidJoin)
            } else {
                None
            }
        },
        Operation::Fork(c) => {
            let (forked, _, active) = thread_history(tr, c, k);
            if c == e.thread || forked || active {
                Some(Breach::InvalidFork)
            } else if strict && !joined_after_exec(tr, c, k) {
                Some(Breach::UnjoinedThread)
            } else {
                None
            }
        },
        _ => None,
    }
}

/// Every breach of lock or thread discipline, with its event index, in trace
/// order; `strict` adds the checks at the end of the trace.
pub fn find_breaches(tr: &Vec<Event>, strict: bool) -> (r: Vec<(usize, Breach)>)
    ensures
        r@ == breaches_upto(tr@, tr@.len() as int, strict),
{
    let mut r: Vec<(usize, Breach)> = Vec::new();
    let mut k: usize = 0;
    while k < tr.len()
        invariant
            k <= tr@.len(),
            r@ == breaches_upto(tr@, k as int, strict),
        decreases tr@.len() - k,
    {
        match breach_exec(tr, k, strict) {
            Some(b) => r.push((k, b)),
            None => {},
        }
        k = k + 1;
    }
    r
}


/// Everything the analysis found in a trace: racing pairs of event indices,
/// discipline breaches with their event index, and the indices of the
/// standing lock requests that lie on a cycle of the wait-for graph.
#[derive(Debug, Clone)]
pub struct Report {
    pub races: Vec<(usize, usize)>,
    pub breaches: Vec<(usize, Breach)>,
    pub deadlocks: Vec<usize>,
}

/// `r` is the complete report on `tr`.
pub open spec fn reports(tr: Seq<Event>, strict: bool, r: Report) -> bool {
    &&& is_race_list(tr, r.races@)
    &&& r.breaches@ == breaches_upto(tr, tr.len() as int, strict)
    &&& is_cycle_list(tr, r.deadlocks@)
}

/// A trace with no race, no breach and no deadlock.
pub open spec fn is_clean(tr: Seq<Event>, strict: bool) -> bool {
    &&& forall|i: int, j: int| !is_race(tr, i, j)
    &&& breaches_upto(tr, tr.len() as int, strict).len() == 0
    &&& forall|a: int| !on_cycle(tr, a)
}

impl Report {
    /// No violation was found.
    pub fn is_clean(&self) -> (r: bool)
        ensures
            r == (self.races@.len() == 0 && self.breaches@.len() == 0 && self.deadlocks@.len() == 0),
    {
        self.races.len() == 0 && self.breaches.len() == 0 && self.deadlocks.len() == 0
    }
}

/// Runs every check on a trace; the scan never stops at a finding. `strict`
/// also reports locks never released and threads never joined.
pub fn analyze(tr: &Vec<Event>, strict: bool) -> (r: Report)
    ensures
        reports(tr@, strict, r),
        (r.races@.len() == 0 && r.breaches@.len() == 0 && r.deadlocks@.len() == 0) == is_clean(
            tr@,
            strict,
        ),
{
    let races = find_races(tr);
    let breaches = find_breaches(tr, strict);
    let deadlocks = find_deadlocks(tr);
    let r = Report { races, breaches, deadlocks };
    proof {
        if r.races@.len() > 0 {
            assert(is_race(tr@, r.races@[0].0 as int, r.races@[0].1 as int));
        }
        if r.deadlocks@.len() > 0 {
            assert(on_cycle(tr@, r.deadlocks@[0] as int));
        }
    }
    r
}


/// A front-end failure: the analysis does not start.
#[derive(Debug, Clone, Copy, PartialEq, Eq, Structural)]
pub enum TraceError {
    Lexical(LexerError),
    Syntax(SyntaxError),
}

/// Lexes, optionally normalizes, parses and analyzes a trace text; `strict`
/// as for `analyze`.
pub fn analyze_trace(source: String, normalize: bool, strict: bool) -> (r: Result<Report, TraceError>)
    ensures
        match lex_normalized(vstd::utf8::encode_utf8(source@), normalize) {
            Err(e) => r == Err::<Report, TraceError>(TraceError::Lexical(e)),
            Ok(ts) => match parse(ts) {
                Err(e) => r == Err::<Report, TraceError>(TraceError::Syntax(e)),
                Ok(tr) => r is Ok && reports(tr, strict, r->Ok_0),
            },
        },
{
    let tokens = match tokenize_source(source, normalize) {
        Ok(tokens) => tokens,
        Err(e) => return Err(TraceError::Lexical(e)),
    };
    let events = match parse_tokens(&tokens) {
        Ok(events) => events,
        Err(e) => return Err(TraceError::Syntax(e)),
    };
    Ok(analyze(&events, strict))
}


/// Analyzing one trace twice gives the same report: two reports that both
/// meet the contract of `analyze` agree in every field.
pub proof fn lemma_report_deterministic(tr: Seq<Event>, strict: bool, a: Report, b: Report)
    requires
        reports(tr, strict, a),
        reports(tr, strict, b),
    ensures
        a.races@ == b.races@,
        a.breaches@ == b.breaches@,
        a.deadlocks@ == b.deadlocks@,
{
    lemma_race_list_unique(tr, a.races@, b.races@);
    lemma_cycle_list_unique(tr, a.deadlocks@, b.deadlocks@);
}

} // verus!
