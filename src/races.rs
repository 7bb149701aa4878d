use vstd::prelude::*;
use crate::order::{direct, happens_before, order_matrix};
use crate::parser::{Event, Operation};
use crate::token::Location;

verus! {

/// The location an event touches, and whether it writes it.
pub open spec fn access_of(e: Event) -> Option<(Location, bool)> {
    match e.operation {
        Operation::Write(l) => Some((l, true)),
        Operation::Read(l) => Some((l, false)),
        _ => None,
    }
}

/// Thread `t` holds lock `l` once the first `k` events have happened: its
/// last acquire or release of `l` among them was an acquire.
pub open spec fn holds(tr: Seq<Event>, t: i64, l: i64, k: int) -> bool
    decreases k,
{
    if k <= 0 || k > tr.len() {
        false
    } else if tr[k - 1].thread == t && tr[k - 1].operation == Operation::Acquire(l) {
        true
    } else if tr[k - 1].thread == t && tr[k - 1].operation == Operation::Release(l) {
        false
    } else {
        holds(tr, t, l, k - 1)
    }
}

/// Some lock is held by the thread of event `i` when it happens and by the
/// thread of event `j` when that happens.
pub open spec fn common_lock(tr: Seq<Event>, i: int, j: int) -> bool {
    exists|l: i64| holds(tr, tr[i].thread, l, i) && #[trigger] holds(tr, tr[j].thread, l, j)
}

/// Events `i < j` race: they access one location from two threads, one of
/// them writes, neither happens before the other, and no common lock
/// protects both.
pub open spec fn is_race(tr: Seq<Event>, i: int, j: int) -> bool {
    &&& 0 <= i < j < tr.len()
    &&& match (access_of(tr[i]), access_of(tr[j])) {
        (Some((la, wa)), Some((lb, wb))) => {
            &&& la == lb
            &&& tr[i].thread != tr[j].thread
            &&& (wa || wb)
            &&& !happens_before(tr, i, j)
            &&& !common_lock(tr, i, j)
        },
        _ => false,
    }
}

pub open spec fn lex_less(a: (usize, usize), b: (usize, usize)) -> bool {
    a.0 < b.0 || (a.0 == b.0 && a.1 < b.1)
}

/// `r` lists exactly the racing pairs of `tr`, in increasing order.
pub open spec fn is_race_list(tr: Seq<Event>, r: Seq<(usize, usize)>) -> bool {
    &&& forall|k: int| 0 <= k < r.len() ==> is_race(tr, r[k].0 as int, r[k].1 as int)
    &&& forall|i: int, j: int|
        is_race(tr, i, j) ==> exists|k: int| 0 <= k < r.len() && #[trigger] r[k] == (i as usize, j as usize)
    &&& forall|a: int, b: int| 0 <= a < b < r.len() ==> lex_less(r[a], r[b])
}

proof fn lemma_holds_acquired(tr: Seq<Event>, t: i64, l: i64, k: int)
    requires
        holds(tr, t, l, k),
    ensures
        exists|m: int|
            0 <= m < k && tr[m].thread == t && #[trigger] tr[m].operation == Operation::Acquire(l),
    decreases k,
{
    if !(tr[k - 1].thread == t && tr[k - 1].operation == Operation::Acquire(l)) {
        lemma_holds_acquired(tr, t, l, k - 1);
    }
}

pub(crate) fn holds_exec(tr: &Vec<Event>, t: i64, l: i64, k: usize) -> (r: bool)
    requires
        k <= tr@.len(),
    ensures
        r == holds(tr@, t, l, k as int),
{
    let mut m: usize = k;
    while m > 0
        invariant
            m <= k <= tr@.len(),
            holds(tr@, t, l, k as int) == holds(tr@, t, l, m as int),
        decreases m,
    {
        let e = tr[m - 1];
        if e.thread == t && e.operation == Operation::Acquire(l) {
            return true;
        }
        if e.thread == t && e.operation == Operation::Release(l) {
            return false;
        }
        m = m - 1;
    }
    false
}

fn common_lock_exec(tr: &Vec<Event>, i: usize, j: usize) -> (r: bool)
    requires
        i < j < tr@.len(),
    ensures
        r == common_lock(tr@, i as int, j as int),
{
    let ti = tr[i].thread;
    let tj = tr[j].thread;
    let mut m: usize = 0;
    while m < i
        invariant
            i < j < tr@.len(),
            ti == tr@[i as int].thread,
            tj == tr@[j as int].thread,
            m <= i,
            forall|a: int, l: i64|
                #![trigger tr@[a].operation, holds(tr@, ti, l, i as int)]
                0 <= a < m && tr@[a].thread == ti && tr@[a].operation
                    == Operation::Acquire(l) ==> !(holds(tr@, ti, l, i as int) && holds(
                    tr@,
                    tj,
                    l,
                    j as int,
                )),
        decreases i - m,
    {
        let e = tr[m];
        match e.operation {
            Operation::Acquire(l) => {
                if e.thread == ti && holds_exec(tr, ti, l, i) && holds_exec(tr, tj, l, j) {
                    return true;
                }
            },
            _ => {},
        }
        m = m + 1;
    }
    proof {
        if common_lock(tr@, i as int, j as int) {
            let l = choose|l: i64|
                holds(tr@, ti, l, i as int) && #[trigger] holds(tr@, tj, l, j as int);
            lemma_holds_acquired(tr@, ti, l, i as int);
        }
    }
    false
}

fn access_exec(e: Event) -> (r: Option<(Location, bool)>)
    ensures
        r == access_of(e),
{
    match e.operation {
        Operation::Write(l) => Some((l, true)),
        Operation::Read(l) => Some((l, false)),
        _ => None,
    }
}

fn is_race_exec(tr: &Vec<Event>, m: &Vec<Vec<bool>>, i: usize, j: usize) -> (r: bool)
    requires
        i < j < tr@.len(),
        m@.len() == tr@.len(),
        forall|b: int| 0 <= b < tr@.len() ==> (#[trigger] m@[b])@.len() == b,
        forall|a: int, b: int| 0 <= a < b < tr@.len() ==> m@[b]@[a] == happens_before(tr@, a, b),
    ensures
        r == is_race(tr@, i as int, j as int),
{
    match (access_exec(tr[i]), access_exec(tr[j])) {
        (Some((la, wa)), Some((lb, wb))) => {
            la == lb && tr[i].thread != tr[j].thread && (wa || wb) && !m[j][i]
                && !common_lock_exec(tr, i, j)
        },
        _ => false,
    }
}

/// Events `x` and `y` both access one location.
pub open spec fn same_location(tr: Seq<Event>, x: int, y: int) -> bool {
    &&& access_of(tr[x]) is Some
    &&& access_of(tr[y]) is Some
    &&& access_of(tr[x])->Some_0.0 == access_of(tr[y])->Some_0.0
}

/// Among the events before `bound`, `y` is the next access after `x` to the
/// location that `x` accesses; the trace length where there is none.
pub open spec fn next_link(tr: Seq<Event>, x: int, y: int, bound: int) -> bool {
    ||| (y == tr.len() && forall|z: int| x < z < bound ==> !#[trigger] same_location(tr, x, z))
    ||| (x < y < bound && same_location(tr, x, y) && forall|z: int|
        x < z < y ==> !#[trigger] same_location(tr, x, z))
}

proof fn lemma_race_same_location(tr: Seq<Event>, i: int, j: int)
    requires
        is_race(tr, i, j),
    ensures
        same_location(tr, i, j),
{
}

/// Event `z` accesses location `loc`.
pub open spec fn accesses(tr: Seq<Event>, z: int, loc: Location) -> bool {
    access_of(tr[z]) is Some && access_of(tr[z])->Some_0.0 == loc
}

/// No event strictly between `from` and `to` accesses `loc`.
spec fn untouched(tr: Seq<Event>, loc: Location, from: int, to: int) -> bool {
    forall|z: int| from < z < to ==> !#[trigger] accesses(tr, z, loc)
}

/// The bucketing state after the first `i` events: one key per accessed
/// location, the last access to each, and the links found so far.
#[verifier::opaque]
spec fn buckets_ok(tr: Seq<Event>, keys: Seq<Location>, last: Seq<usize>, next: Seq<usize>, i: int) -> bool {
    &&& 0 <= i <= tr.len()
    &&& next.len() == i
    &&& keys.len() == last.len()
    &&& forall|b: int|
        0 <= b < keys.len() ==> last[b] < i && accesses(tr, last[b] as int, keys[b]) && untouched(
            tr,
            keys[b],
            last[b] as int,
            i,
        )
    &&& forall|b1: int, b2: int| 0 <= b1 < b2 < keys.len() ==> keys[b1] != keys[b2]
    &&& forall|x: int|
        0 <= x < i && (#[trigger] access_of(tr[x])) is Some ==> exists|b: int|
            0 <= b < keys.len() && keys[b] == access_of(tr[x])->Some_0.0
    &&& forall|x: int|
        0 <= x < i && (#[trigger] access_of(tr[x])) is Some ==> next_link(tr, x, next[x] as int, i)
}

proof fn lemma_buckets_start(tr: Seq<Event>)
    ensures
        buckets_ok(tr, Seq::empty(), Seq::empty(), Seq::empty(), 0),
{
    reveal(buckets_ok);
}

proof fn lemma_buckets_done(tr: Seq<Event>, keys: Seq<Location>, last: Seq<usize>, next: Seq<usize>)
    requires
        buckets_ok(tr, keys, last, next, tr.len() as int),
    ensures
        next.len() == tr.len(),
        forall|x: int|
            0 <= x < tr.len() && (#[trigger] access_of(tr[x])) is Some ==> next_link(
                tr,
                x,
                next[x] as int,
                tr.len() as int,
            ),
{
    reveal(buckets_ok);
}

proof fn lemma_buckets_skip(tr: Seq<Event>, keys: Seq<Location>, last: Seq<usize>, next: Seq<usize>, i: int)
    requires
        buckets_ok(tr, keys, last, next, i),
        i < tr.len(),
        access_of(tr[i]) is None,
    ensures
        buckets_ok(tr, keys, last, next.push(tr.len() as usize), i + 1),
{
    reveal(buckets_ok);
    let nn = next.push(tr.len() as usize);
    assert forall|b: int| 0 <= b < keys.len() implies untouched(tr, keys[b], last[b] as int, i + 1) by {
        assert(!accesses(tr, i, keys[b]));
    }
    assert forall|x: int|
        0 <= x < i + 1 && (#[trigger] access_of(tr[x])) is Some implies next_link(tr, x, nn[x] as int, i + 1) by {
        assert(nn[x] == next[x]);
        assert(!same_location(tr, x, i));
    }
}

proof fn lemma_link_extend(tr: Seq<Event>, x: int, y: int, i: int)
    requires
        next_link(tr, x, y, i),
        !same_location(tr, x, i),
    ensures
        next_link(tr, x, y, i + 1),
{
}

proof fn lemma_untouched_extend(tr: Seq<Event>, loc: Location, from: int, i: int)
    requires
        untouched(tr, loc, from, i),
        !accesses(tr, i, loc),
    ensures
        untouched(tr, loc, from, i + 1),
{
}

proof fn lemma_buckets_extend(
    tr: Seq<Event>,
    keys: Seq<Location>,
    last: Seq<usize>,
    next: Seq<usize>,
    i: int,
    b: int,
)
    requires
        buckets_ok(tr, keys, last, next, i),
        i < tr.len() <= usize::MAX,
        0 <= b < keys.len(),
        accesses(tr, i, keys[b]),
    ensures
        buckets_ok(
            tr,
            keys,
            last.update(b, i as usize),
            next.push(tr.len() as usize).update(last[b] as int, i as usize),
            i + 1,
        ),
{
    reveal(buckets_ok);
    let p = last[b] as int;
    let loc = keys[b];
    let nl = last.update(b, i as usize);
    let nn = next.push(tr.len() as usize).update(p, i as usize);
    assert forall|c: int| 0 <= c < keys.len() implies nl[c] < i + 1 && accesses(tr, nl[c] as int, keys[c])
        && untouched(tr, keys[c], nl[c] as int, i + 1) by {
        if c != b {
            assert(keys[c] != loc);
            assert(nl[c] == last[c]);
            lemma_untouched_extend(tr, keys[c], last[c] as int, i);
        } else {
            assert(nl[c] == i);
        }
    }
    assert forall|x: int|
        0 <= x < i + 1 && (#[trigger] access_of(tr[x])) is Some implies next_link(tr, x, nn[x] as int, i + 1) by {
        if x == p {
            assert(untouched(tr, loc, p, i));
            assert forall|z: int| p < z < i implies !#[trigger] same_location(tr, p, z) by {
                assert(!accesses(tr, z, loc));
            }
            assert(nn[x] == i);
            assert(same_location(tr, p, i));
        } else if x < i {
            assert(nn[x] == next[x]);
            assert(next_link(tr, x, next[x] as int, i));
            if same_location(tr, x, i) {
                assert(untouched(tr, loc, p, i));
                if x > p {
                    assert(accesses(tr, x, loc));
                }
                assert(x < p);
                assert(same_location(tr, x, p));
                assert(next[x] < i);
            } else {
                lemma_link_extend(tr, x, next[x] as int, i);
            }
        } else {
            assert(nn[x] == tr.len());
        }
    }
}

proof fn lemma_buckets_open(
    tr: Seq<Event>,
    keys: Seq<Location>,
    last: Seq<usize>,
    next: Seq<usize>,
    i: int,
    loc: Location,
)
    requires
        buckets_ok(tr, keys, last, next, i),
        i < tr.len() <= usize::MAX,
        accesses(tr, i, loc),
        forall|c: int| 0 <= c < keys.len() ==> keys[c] != loc,
    ensures
        buckets_ok(tr, keys.push(loc), last.push(i as usize), next.push(tr.len() as usize), i + 1),
{
    reveal(buckets_ok);
    let nk = keys.push(loc);
    let nl = last.push(i as usize);
    let nn = next.push(tr.len() as usize);
    assert forall|c: int| 0 <= c < nk.len() implies nl[c] < i + 1 && accesses(tr, nl[c] as int, nk[c])
        && untouched(tr, nk[c], nl[c] as int, i + 1) by {
        if c < keys.len() {
            assert(nk[c] == keys[c]);
            assert(nl[c] == last[c]);
            assert(keys[c] != loc);
            lemma_untouched_extend(tr, keys[c], last[c] as int, i);
        } else {
            assert(nk[c] == loc);
            assert(nl[c] == i);
        }
    }
    assert forall|x: int|
        0 <= x < i + 1 && (#[trigger] access_of(tr[x])) is Some implies exists|c: int|
            0 <= c < nk.len() && nk[c] == access_of(tr[x])->Some_0.0 by {
        if x < i {
            let c = choose|c: int| 0 <= c < keys.len() && keys[c] == access_of(tr[x])->Some_0.0;
            assert(nk[c] == keys[c]);
        } else {
            assert(nk[keys.len() as int] == loc);
        }
    }
    assert forall|x: int|
        0 <= x < i + 1 && (#[trigger] access_of(tr[x])) is Some implies next_link(tr, x, nn[x] as int, i + 1) by {
        if x < i {
            assert(nn[x] == next[x]);
            assert(next_link(tr, x, next[x] as int, i));
            if same_location(tr, x, i) {
                let c = choose|c: int| 0 <= c < keys.len() && keys[c] == access_of(tr[x])->Some_0.0;
                assert(keys[c] != loc);
            }
            lemma_link_extend(tr, x, next[x] as int, i);
        } else {
            assert(nn[x] == tr.len());
        }
    }
}

/// Buckets the accesses by location: for each access, the index of the next
/// access to the same location (the trace length after the last one).
fn location_links(tr: &Vec<Event>) -> (next: Vec<usize>)
    ensures
        next@.len() == tr@.len(),
        forall|x: int|
            0 <= x < tr@.len() && (#[trigger] access_of(tr@[x])) is Some ==> next_link(
                tr@,
                x,
                next@[x] as int,
                tr@.len() as int,
            ),
{
    let n = tr.len();
    let mut next: Vec<usize> = Vec::new();
    let mut keys: Vec<Location> = Vec::new();
    let mut last: Vec<usize> = Vec::new();
    proof {
        lemma_buckets_start(tr@);
    }
    let mut i: usize = 0;
    while i < n
        invariant
            n == tr@.len(),
            i <= n,
            buckets_ok(tr@, keys@, last@, next@, i as int),
        decreases n - i,
    {
        proof {
            reveal(buckets_ok);
        }
        match access_exec(tr[i]) {
            None => {
                proof {
                    lemma_buckets_skip(tr@, keys@, last@, next@, i as int);
                }
                next.push(n);
            },
            Some((loc, _)) => {
                let mut b: usize = 0;
                while b < keys.len() && keys[b] != loc
                    invariant
                        b <= keys@.len(),
                        forall|c: int| 0 <= c < b ==> keys@[c] != loc,
                    decreases keys@.len() - b,
                {
                    b = b + 1;
                }
                if b < keys.len() {
                    let p = last[b];
                    proof {
                        lemma_buckets_extend(tr@, keys@, last@, next@, i as int, b as int);
                    }
                    next.push(n);
                    next.set(p, i);
                    last.set(b, i);
                } else {
                    proof {
                        lemma_buckets_open(tr@, keys@, last@, next@, i as int, loc);
                    }
                    keys.push(loc);
                    last.push(i);
                    next.push(n);
                }
            },
        }
        i = i + 1;
    }
    proof {
        lemma_buckets_done(tr@, keys@, last@, next@);
    }
    next
}

/// Every racing pair of events, as indices, in increasing order. Accesses
/// are bucketed by location first, and only pairs within a bucket are
/// checked.
pub fn find_races(tr: &Vec<Event>) -> (r: Vec<(usize, usize)>)
    ensures
        is_race_list(tr@, r@),
{
    let m = order_matrix(tr);
    let links = location_links(tr);
    let mut r: Vec<(usize, usize)> = Vec::new();
    let n = tr.len();
    let mut i: usize = 0;
    while i < n
        invariant
            n == tr@.len(),
            i <= n,
            m@.len() == tr@.len(),
            forall|b: int| 0 <= b < tr@.len() ==> (#[trigger] m@[b])@.len() == b,
            forall|a: int, b: int| 0 <= a < b < tr@.len() ==> m@[b]@[a] == happens_before(tr@, a, b),
            links@.len() == n,
            forall|x: int|
                0 <= x < n && (#[trigger] access_of(tr@[x])) is Some ==> next_link(
                    tr@,
                    x,
                    links@[x] as int,
                    n as int,
                ),
            forall|k: int| 0 <= k < r@.len() ==> is_race(tr@, r@[k].0 as int, r@[k].1 as int),
            forall|a: int, b: int|
                0 <= a < i && is_race(tr@, a, b) ==> exists|k: int|
                    0 <= k < r@.len() && #[trigger] r@[k] == (a as usize, b as usize),
            forall|a: int, b: int| 0 <= a < b < r@.len() ==> lex_less(r@[a], r@[b]),
            forall|k: int| 0 <= k < r@.len() ==> r@[k].0 < i,
        decreases n - i,
    {
        let ghost ii = i as int;
        if access_exec(tr[i]).is_some() {
            let mut j: usize = links[i];
            proof {
                assert forall|z: int| ii < z < j && is_race(tr@, ii, z) implies false by {
                    assert(same_location(tr@, ii, z));
                }
            }
            while j < n
                invariant
                    n == tr@.len(),
                    i < n,
                    access_of(tr@[i as int]) is Some,
                    i < j <= n,
                    j < n ==> same_location(tr@, i as int, j as int),
                    m@.len() == tr@.len(),
                    forall|b: int| 0 <= b < tr@.len() ==> (#[trigger] m@[b])@.len() == b,
                    forall|a: int, b: int|
                        0 <= a < b < tr@.len() ==> m@[b]@[a] == happens_before(tr@, a, b),
                    links@.len() == n,
                    forall|x: int|
                        0 <= x < n && (#[trigger] access_of(tr@[x])) is Some ==> next_link(
                            tr@,
                            x,
                            links@[x] as int,
                            n as int,
                        ),
                    forall|k: int| 0 <= k < r@.len() ==> is_race(tr@, r@[k].0 as int, r@[k].1 as int),
                    forall|a: int, b: int|
                        ((0 <= a < i) || (a == i && b < j)) && is_race(tr@, a, b) ==> exists|k: int|
                            0 <= k < r@.len() && #[trigger] r@[k] == (a as usize, b as usize),
                    forall|a: int, b: int| 0 <= a < b < r@.len() ==> lex_less(r@[a], r@[b]),
                    forall|k: int| 0 <= k < r@.len() ==> r@[k].0 < i || (r@[k].0 == i && r@[k].1 < j),
                decreases n - j,
            {
                let ghost jj = j as int;
                if is_race_exec(tr, &m, i, j) {
                    let ghost old_r = r@;
                    r.push((i, j));
                    proof {
                        assert forall|a: int, b: int|
                            ((0 <= a < i) || (a == i && b < j + 1)) && is_race(tr@, a, b) implies exists|k: int|
                                0 <= k < r@.len() && #[trigger] r@[k] == (a as usize, b as usize) by {
                            if a == i && b == j {
                                assert(r@[old_r.len() as int] == (a as usize, b as usize));
                            } else {
                                let k = choose|k: int|
                                    0 <= k < old_r.len() && #[trigger] old_r[k] == (a as usize, b as usize);
                                assert(r@[k] == old_r[k]);
                            }
                        }
                    }
                }
                let nj = links[j];
                proof {
                    assert(access_of(tr@[jj]) is Some);
                    assert(next_link(tr@, jj, nj as int, n as int));
                    assert forall|a: int, b: int|
                        ((0 <= a < i) || (a == i && b < nj)) && is_race(tr@, a, b) implies exists|k: int|
                            0 <= k < r@.len() && #[trigger] r@[k] == (a as usize, b as usize) by {
                        if a == i && b > j {
                            lemma_race_same_location(tr@, a, b);
                            assert(same_location(tr@, jj, b));
                        }
                    }
                }
                j = nj;
            }
        }
        proof {
            assert forall|a: int, b: int|
                0 <= a < i + 1 && is_race(tr@, a, b) implies exists|k: int|
                    0 <= k < r@.len() && #[trigger] r@[k] == (a as usize, b as usize) by {
                if a == i {
                    assert(access_of(tr@[ii]) is Some);
                }
            }
        }
        i = i + 1;
    }
    r
}

/// A trace every access of which to `loc` happens while its thread holds
/// lock `l` has no race on `loc`.
pub proof fn lemma_lock_protected_location_has_no_race(tr: Seq<Event>, loc: Location, l: i64)
    requires
        forall|k: int|
            0 <= k < tr.len() && (#[trigger] access_of(tr[k])) is Some && access_of(tr[k])->Some_0.0
                == loc ==> holds(tr, tr[k].thread, l, k),
    ensures
        forall|i: int, j: int|
            (#[trigger] is_race(tr, i, j)) ==> access_of(tr[i])->Some_0.0 != loc,
{
    assert forall|i: int, j: int| (#[trigger] is_race(tr, i, j)) implies access_of(tr[i])->Some_0.0 != loc by {
        if access_of(tr[i])->Some_0.0 == loc {
            assert(access_of(tr[i]) is Some);
            assert(access_of(tr[j]) is Some);
            assert(holds(tr, tr[i].thread, l, i) && holds(tr, tr[j].thread, l, j));
        }
    }
}

/// Thread `t` forks no thread, takes and releases no lock, and is joined by
/// nobody: nothing orders its events with those of another thread.
pub open spec fn isolated(tr: Seq<Event>, t: i64) -> bool {
    forall|k: int|
        0 <= k < tr.len() ==> {
            &&& (#[trigger] tr[k]).operation != Operation::Join(t)
            &&& tr[k].thread == t ==> match tr[k].operation {
                Operation::Fork(_) | Operation::Acquire(_) | Operation::Release(_) => false,
                _ => true,
            }
        }
}

proof fn lemma_isolated_order_stays_in_thread(tr: Seq<Event>, i: int, j: int)
    requires
        isolated(tr, tr[i].thread),
        happens_before(tr, i, j),
    ensures
        tr[j].thread == tr[i].thread,
    decreases j,
{
    crate::order::lemma_happens_before_witness(tr, i, j);
    let m = choose|m: int|
        0 <= m < j && #[trigger] direct(tr, m, j) && (m == i || happens_before(tr, i, m));
    if m != i {
        lemma_isolated_order_stays_in_thread(tr, i, m);
    }
    assert(tr[m] == tr[m]);
    assert(tr[j] == tr[j]);
}

/// An access by an isolated thread and a later conflicting access to the
/// same location by another thread race.
pub proof fn lemma_isolated_conflict_races(tr: Seq<Event>, i: int, j: int)
    requires
        0 <= i < j < tr.len(),
        isolated(tr, tr[i].thread),
        access_of(tr[i]) is Some,
        access_of(tr[j]) is Some,
        access_of(tr[i])->Some_0.0 == access_of(tr[j])->Some_0.0,
        access_of(tr[i])->Some_0.1 || access_of(tr[j])->Some_0.1,
        tr[i].thread != tr[j].thread,
    ensures
        is_race(tr, i, j),
{
    if happens_before(tr, i, j) {
        lemma_isolated_order_stays_in_thread(tr, i, j);
    }
    if common_lock(tr, i, j) {
        let l = choose|l: i64| holds(tr, tr[i].thread, l, i) && #[trigger] holds(tr, tr[j].thread, l, j);
        lemma_holds_acquired(tr, tr[i].thread, l, i);
        let m = choose|m: int|
            0 <= m < i && tr[m].thread == tr[i].thread && #[trigger] tr[m].operation == Operation::Acquire(l);
        assert(tr[m] == tr[m]);
    }
}

pub open spec fn strictly_sorted(r: Seq<(usize, usize)>) -> bool {
    forall|a: int, b: int| 0 <= a < b < r.len() ==> lex_less(r[a], r[b])
}

/// Every pair in `r1` stands somewhere in `r2`.
pub open spec fn covers(r1: Seq<(usize, usize)>, r2: Seq<(usize, usize)>) -> bool {
    forall|i: int| 0 <= i < r1.len() ==> #[trigger] contains_pair(r2, r1[i])
}

pub open spec fn contains_pair(r: Seq<(usize, usize)>, x: (usize, usize)) -> bool {
    exists|j: int| 0 <= j < r.len() && #[trigger] r[j] == x
}

proof fn lemma_sorted_agree_at(r1: Seq<(usize, usize)>, r2: Seq<(usize, usize)>, k: int)
    requires
        strictly_sorted(r1),
        strictly_sorted(r2),
        covers(r1, r2),
        covers(r2, r1),
        0 <= k < r1.len(),
        k < r2.len(),
        forall|i: int| 0 <= i < k ==> r1[i] == r2[i],
    ensures
        r1[k] == r2[k],
{
    assert(contains_pair(r2, r1[k]));
    let a = choose|j: int| 0 <= j < r2.len() && #[trigger] r2[j] == r1[k];
    assert(contains_pair(r1, r2[k]));
    let b = choose|j: int| 0 <= j < r1.len() && #[trigger] r1[j] == r2[k];
    if a < k {
        assert(lex_less(r1[a], r1[k]));
    }
    if b < k {
        assert(lex_less(r2[b], r2[k]));
    }
    if a > k && b > k {
        assert(lex_less(r2[k], r2[a]));
        assert(lex_less(r1[k], r1[b]));
    }
}

proof fn lemma_sorted_prefix(r1: Seq<(usize, usize)>, r2: Seq<(usize, usize)>, k: int)
    requires
        strictly_sorted(r1),
        strictly_sorted(r2),
        covers(r1, r2),
        covers(r2, r1),
        0 <= k <= r1.len(),
        k <= r2.len(),
    ensures
        forall|i: int| 0 <= i < k ==> r1[i] == r2[i],
    decreases k,
{
    if k > 0 {
        lemma_sorted_prefix(r1, r2, k - 1);
        lemma_sorted_agree_at(r1, r2, k - 1);
    }
}

proof fn lemma_sorted_lists_equal(r1: Seq<(usize, usize)>, r2: Seq<(usize, usize)>)
    requires
        strictly_sorted(r1),
        strictly_sorted(r2),
        covers(r1, r2),
        covers(r2, r1),
    ensures
        r1 == r2,
{
    let n = if r1.len() < r2.len() {
        r1.len() as int
    } else {
        r2.len() as int
    };
    lemma_sorted_prefix(r1, r2, n);
    if r1.len() > n {
        assert(contains_pair(r2, r1[n]));
        let a = choose|j: int| 0 <= j < r2.len() && #[trigger] r2[j] == r1[n];
        assert(lex_less(r1[a], r1[n]));
    }
    if r2.len() > n {
        assert(contains_pair(r1, r2[n]));
        let a = choose|j: int| 0 <= j < r1.len() && #[trigger] r1[j] == r2[n];
        assert(lex_less(r2[a], r2[n]));
    }
    assert(r1 =~= r2);
}

/// The race list of a trace is unique: any two lists that meet the contract
/// of `find_races` are equal, so the analysis of one trace always reports
/// the same races.
pub proof fn lemma_race_list_unique(tr: Seq<Event>, r1: Seq<(usize, usize)>, r2: Seq<(usize, usize)>)
    requires
        is_race_list(tr, r1),
        is_race_list(tr, r2),
    ensures
        r1 == r2,
{
    assert forall|i: int| 0 <= i < r1.len() implies #[trigger] contains_pair(r2, r1[i]) by {
        let x = r1[i];
        assert(is_race(tr, x.0 as int, x.1 as int));
        let k = choose|k: int|
            0 <= k < r2.len() && #[trigger] r2[k] == ((x.0 as int) as usize, (x.1 as int) as usize);
        assert(r2[k] == x);
    }
    assert forall|i: int| 0 <= i < r2.len() implies #[trigger] contains_pair(r1, r2[i]) by {
        let x = r2[i];
        assert(is_race(tr, x.0 as int, x.1 as int));
        let k = choose|k: int|
            0 <= k < r1.len() && #[trigger] r1[k] == ((x.0 as int) as usize, (x.1 as int) as usize);
        assert(r1[k] == x);
    }
    lemma_sorted_lists_equal(r1, r2);
}

} // verus!
