use vstd::prelude::*;
use crate::parser::{Event, Operation};

verus! {

/// Event `i` releases a lock and event `j` is the next acquire of that lock
/// by another thread.
pub open spec fn hands_over(tr: Seq<Event>, i: int, j: int) -> bool {
    match (tr[i].operation, tr[j].operation) {
        (Operation::Release(l1), Operation::Acquire(l2)) => {
            &&& l1 == l2
            &&& tr[j].thread != tr[i].thread
            &&& forall|x: int|
                i < x < j ==> !((#[trigger] tr[x]).operation == Operation::Acquire(l1) && tr[x].thread
                    != tr[i].thread)
        },
        _ => false,
    }
}

/// The generating edges of the happens-before order: program order, a fork
/// before the child's events, the child's events before its join, and a
/// release before the next acquire of the same lock by another thread.
pub open spec fn direct(tr: Seq<Event>, i: int, j: int) -> bool {
    &&& 0 <= i < j < tr.len()
    &&& {
        ||| tr[i].thread == tr[j].thread
        ||| tr[i].operation == Operation::Fork(tr[j].thread)
        ||| tr[j].operation == Operation::Join(tr[i].thread)
        ||| hands_over(tr, i, j)
    }
}

/// Event `i` happens before event `j`: a chain of generating edges leads
/// from `i` to `j`.
pub open spec fn happens_before(tr: Seq<Event>, i: int, j: int) -> bool
    decreases j, j + 1,
{
    if 0 <= i < j < tr.len() {
        reaches(tr, i, j, j)
    } else {
        false
    }
}

/// Some edge into `j` from an event before `k` starts at `i` or at an event
/// that `i` happens before.
pub open spec fn reaches(tr: Seq<Event>, i: int, j: int, k: int) -> bool
    decreases j, k,
{
    if 0 < k <= j {
        (direct(tr, k - 1, j) && (k - 1 == i || happens_before(tr, i, k - 1))) || reaches(
            tr,
            i,
            j,
            k - 1,
        )
    } else {
        false
    }
}

proof fn lemma_reaches_witness(tr: Seq<Event>, i: int, j: int, k: int)
    requires
        reaches(tr, i, j, k),
    ensures
        exists|m: int|
            0 <= m < k && #[trigger] direct(tr, m, j) && (m == i || happens_before(tr, i, m)),
    decreases k,
{
    if !(direct(tr, k - 1, j) && (k - 1 == i || happens_before(tr, i, k - 1))) {
        lemma_reaches_witness(tr, i, j, k - 1);
    }
}

proof fn lemma_reaches_from(tr: Seq<Event>, i: int, j: int, k: int, m: int)
    requires
        0 <= m < k <= j,
        direct(tr, m, j),
        m == i || happens_before(tr, i, m),
    ensures
        reaches(tr, i, j, k),
    decreases k,
{
    if m < k - 1 {
        lemma_reaches_from(tr, i, j, k - 1, m);
    }
}

/// An edge into `j` starts at `i` or at an event that `i` happens before.
pub proof fn lemma_happens_before_witness(tr: Seq<Event>, i: int, j: int)
    requires
        happens_before(tr, i, j),
    ensures
        exists|m: int|
            0 <= m < j && #[trigger] direct(tr, m, j) && (m == i || happens_before(tr, i, m)),
{
    lemma_reaches_witness(tr, i, j, j);
}

/// Happens-before only points forward in the trace.
pub proof fn lemma_happens_before_forward(tr: Seq<Event>, i: int, j: int)
    requires
        happens_before(tr, i, j),
    ensures
        0 <= i < j < tr.len(),
{
}

/// Happens-before is a strict partial order: no event precedes itself, no two
/// events precede each other, and precedence is transitive.
pub proof fn lemma_strict_partial_order(tr: Seq<Event>, a: int, b: int, c: int)
    ensures
        !happens_before(tr, a, a),
        !(happens_before(tr, a, b) && happens_before(tr, b, a)),
        happens_before(tr, a, b) && happens_before(tr, b, c) ==> happens_before(tr, a, c),
{
    if happens_before(tr, a, b) && happens_before(tr, b, c) {
        lemma_transitive(tr, a, b, c);
    }
}

proof fn lemma_transitive(tr: Seq<Event>, a: int, b: int, c: int)
    requires
        happens_before(tr, a, b),
        happens_before(tr, b, c),
    ensures
        happens_before(tr, a, c),
    decreases c,
{
    lemma_reaches_witness(tr, b, c, c);
    let m = choose|m: int| 0 <= m < c && #[trigger] direct(tr, m, c) && (m == b || happens_before(tr, b, m));
    if m != b {
        lemma_transitive(tr, a, b, m);
    }
    lemma_reaches_from(tr, a, c, c, m);
}

fn hands_over_exec(tr: &Vec<Event>, i: usize, j: usize) -> (r: bool)
    requires
        i < j < tr@.len(),
    ensures
        r == hands_over(tr@, i as int, j as int),
{
    let l = match (tr[i].operation, tr[j].operation) {
        (Operation::Release(l1), Operation::Acquire(l2)) => {
            if l1 != l2 || tr[j].thread == tr[i].thread {
                return false;
            }
            l1
        },
        _ => return false,
    };
    let t = tr[i].thread;
    let mut x: usize = i + 1;
    while x < j
        invariant
            i < x <= j < tr@.len(),
            t == tr@[i as int].thread,
            tr@[i as int].operation == Operation::Release(l),
            tr@[j as int].operation == Operation::Acquire(l),
            tr@[j as int].thread != t,
            forall|y: int|
                i < y < x ==> !((#[trigger] tr@[y]).operation == Operation::Acquire(l) && tr@[y].thread != t),
        decreases j - x,
    {
        if tr[x].operation == Operation::Acquire(l) && tr[x].thread != t {
            return false;
        }
        x = x + 1;
    }
    true
}

fn direct_exec(tr: &Vec<Event>, i: usize, j: usize) -> (r: bool)
    requires
        i < j < tr@.len(),
    ensures
        r == direct(tr@, i as int, j as int),
{
    let a = tr[i];
    let b = tr[j];
    a.thread == b.thread || a.operation == Operation::Fork(b.thread) || b.operation
        == Operation::Join(a.thread) || hands_over_exec(tr, i, j)
}

/// For each event `j`, which earlier events have a generating edge into it.
fn direct_matrix(tr: &Vec<Event>) -> (d: Vec<Vec<bool>>)
    ensures
        d@.len() == tr@.len(),
        forall|j: int| 0 <= j < tr@.len() ==> (#[trigger] d@[j])@.len() == j,
        forall|i: int, j: int| 0 <= i < j < tr@.len() ==> d@[j]@[i] == direct(tr@, i, j),
{
    let mut d: Vec<Vec<bool>> = Vec::new();
    let mut j: usize = 0;
    while j < tr.len()
        invariant
            j <= tr@.len(),
            d@.len() == j,
            forall|jj: int| 0 <= jj < j ==> (#[trigger] d@[jj])@.len() == jj,
            forall|i: int, jj: int| 0 <= i < jj < j ==> d@[jj]@[i] == direct(tr@, i, jj),
        decreases tr@.len() - j,
    {
        let mut row: Vec<bool> = Vec::new();
        let mut i: usize = 0;
        while i < j
            invariant
                i <= j < tr@.len(),
                row@.len() == i,
                forall|a: int| 0 <= a < i ==> row@[a] == direct(tr@, a, j as int),
            decreases j - i,
        {
            row.push(direct_exec(tr, i, j));
            i = i + 1;
        }
        d.push(row);
        j = j + 1;
    }
    d
}

/// For each event `j`, which earlier events happen before it.
pub fn order_matrix(tr: &Vec<Event>) -> (m: Vec<Vec<bool>>)
    ensures
        m@.len() == tr@.len(),
        forall|j: int| 0 <= j < tr@.len() ==> (#[trigger] m@[j])@.len() == j,
        forall|i: int, j: int|
            0 <= i < j < tr@.len() ==> m@[j]@[i] == happens_before(tr@, i, j),
{
    let d = direct_matrix(tr);
    let mut m: Vec<Vec<bool>> = Vec::new();
    let mut j: usize = 0;
    while j < tr.len()
        invariant
            d@.len() == tr@.len(),
            forall|b: int| 0 <= b < tr@.len() ==> (#[trigger] d@[b])@.len() == b,
            forall|a: int, b: int| 0 <= a < b < tr@.len() ==> d@[b]@[a] == direct(tr@, a, b),
            j <= tr@.len(),
            m@.len() == j,
            forall|jj: int| 0 <= jj < j ==> (#[trigger] m@[jj])@.len() == jj,
            forall|i: int, jj: int| 0 <= i < jj < j ==> m@[jj]@[i] == happens_before(tr@, i, jj),
        decreases tr@.len() - j,
    {
        let mut row: Vec<bool> = Vec::new();
        let mut i: usize = 0;
        while i < j
            invariant
                d@.len() == tr@.len(),
                forall|b: int| 0 <= b < tr@.len() ==> (#[trigger] d@[b])@.len() == b,
                forall|a: int, b: int| 0 <= a < b < tr@.len() ==> d@[b]@[a] == direct(tr@, a, b),
                i <= j < tr@.len(),
                m@.len() == j,
                forall|jj: int| 0 <= jj < j ==> (#[trigger] m@[jj])@.len() == jj,
                forall|a: int, jj: int| 0 <= a < jj < j ==> m@[jj]@[a] == happens_before(tr@, a, jj),
                row@.len() == i,
                forall|a: int| 0 <= a < i ==> row@[a] == happens_before(tr@, a, j as int),
            decreases j - i,
        {
            let mut acc = false;
            let mut k: usize = 0;
            while k < j
                invariant
                    d@.len() == tr@.len(),
                    forall|b: int| 0 <= b < tr@.len() ==> (#[trigger] d@[b])@.len() == b,
                    forall|a: int, b: int| 0 <= a < b < tr@.len() ==> d@[b]@[a] == direct(tr@, a, b),
                    i < j < tr@.len(),
                    k <= j,
                    m@.len() == j,
                    forall|jj: int| 0 <= jj < j ==> (#[trigger] m@[jj])@.len() == jj,
                    forall|a: int, jj: int| 0 <= a < jj < j ==> m@[jj]@[a] == happens_before(tr@, a, jj),
                    acc == reaches(tr@, i as int, j as int, k as int),
                decreases j - k,
            {
                let via = k == i || (i < k && m[k][i]);
                if d[j][k] && via {
                    acc = true;
                }
                proof {
                    if k <= i {
                        assert(!happens_before(tr@, i as int, k as int));
                    }
                    assert(reaches(tr@, i as int, j as int, k + 1) == ((direct(tr@, k as int, j as int)
                        && (k == i || happens_before(tr@, i as int, k as int))) || reaches(
                        tr@,
                        i as int,
                        j as int,
                        k as int,
                    )));
                }
                k = k + 1;
            }
            row.push(acc);
            i = i + 1;
        }
        m.push(row);
        j = j + 1;
    }
    m
}


} // verus!
