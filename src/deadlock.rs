use vstd::prelude::*;
use crate::races::{holds, holds_exec};
use crate::parser::{Event, Operation};

verus! {

/// Event `m` is the first event of the thread of event `k` after `k`.
pub open spec fn next_of_thread(tr: Seq<Event>, k: int, m: int) -> bool {
    &&& 0 <= k < m < tr.len()
    &&& tr[m].thread == tr[k].thread
    &&& forall|x: int| k < x < m ==> #[trigger] tr[x].thread != tr[k].thread
}

/// The lock that event `k` requests, where the request is still standing:
/// the thread's next event is not the acquire of that lock.
pub open spec fn standing(tr: Seq<Event>, k: int) -> Option<i64> {
    match tr[k].operation {
        Operation::Request(l) => if exists|m: int|
            #[trigger] next_of_thread(tr, k, m) && tr[m].operation == Operation::Acquire(l) {
            None
        } else {
            Some(l)
        },
        _ => None,
    }
}

/// Standing request `a` waits on standing request `b`: at the end of the
/// trace the thread of `b`, another thread, holds the lock `a` asks for.
pub open spec fn waits_on(tr: Seq<Event>, a: int, b: int) -> bool {
    &&& 0 <= a < tr.len()
    &&& 0 <= b < tr.len()
    &&& match (standing(tr, a), standing(tr, b)) {
        (Some(la), Some(_)) => tr[a].thread != tr[b].thread && holds(tr, tr[b].thread, la, tr.len() as int),
        _ => false,
    }
}

/// A chain of `k` wait-for edges leads from request `a` to request `b`.
pub open spec fn path(tr: Seq<Event>, a: int, b: int, k: nat) -> bool
    decreases k,
{
    if k == 0 {
        false
    } else if k == 1 {
        waits_on(tr, a, b)
    } else {
        exists|c: int| 0 <= c < tr.len() && path(tr, a, c, (k - 1) as nat) && #[trigger] waits_on(tr, c, b)
    }
}

/// Request `a` lies on a cycle of the wait-for graph (of at most as many
/// edges as the trace has events, which bounds every simple cycle).
pub open spec fn on_cycle(tr: Seq<Event>, a: int) -> bool {
    exists|k: nat| 1 <= k <= tr.len() && #[trigger] path(tr, a, a, k)
}

/// `r` lists exactly the requests on a wait-for cycle, in increasing order.
pub open spec fn is_cycle_list(tr: Seq<Event>, r: Seq<usize>) -> bool {
    &&& forall|k: int| 0 <= k < r.len() ==> on_cycle(tr, #[trigger] r[k] as int)
    &&& forall|a: int| on_cycle(tr, a) ==> exists|k: int| 0 <= k < r.len() && #[trigger] r[k] == a
    &&& forall|i: int, j: int| 0 <= i < j < r.len() ==> r[i] < r[j]
}

fn standing_exec(tr: &Vec<Event>, k: usize) -> (r: Option<i64>)
    requires
        k < tr@.len(),
    ensures
        r == standing(tr@, k as int),
{
    let l = match tr[k].operation {
        Operation::Request(l) => l,
        _ => return None,
    };
    let t = tr[k].thread;
    let n = tr.len();
    let mut m: usize = k + 1;
    while m < tr.len()
        invariant
            k < m <= tr@.len(),
            t == tr@[k as int].thread,
            tr@[k as int].operation == Operation::Request(l),
            forall|x: int| k < x < m ==> #[trigger] tr@[x].thread != t,
        decreases tr@.len() - m,
    {
        if tr[m].thread == t {
            assert(next_of_thread(tr@, k as int, m as int));
            proof {
                assert forall|m2: int| #[trigger] next_of_thread(tr@, k as int, m2) implies m2 == m by {
                    if m2 < m {
                    } else if m2 > m {
                        assert(tr@[m as int].thread != tr@[k as int].thread);
                    }
                }
            }
            if tr[m].operation == Operation::Acquire(l) {
                return None;
            } else {
                return Some(l);
            }
        }
        m = m + 1;
    }
    Some(l)
}

fn waits_on_exec(tr: &Vec<Event>, st: &Vec<Option<i64>>, a: usize, b: usize) -> (r: bool)
    requires
        a < tr@.len(),
        b < tr@.len(),
        st@.len() == tr@.len(),
        forall|k: int| 0 <= k < tr@.len() ==> st@[k] == standing(tr@, k),
    ensures
        r == waits_on(tr@, a as int, b as int),
{
    match (st[a], st[b]) {
        (Some(la), Some(_)) => tr[a].thread != tr[b].thread && holds_exec(tr, tr[b].thread, la, tr.len()),
        _ => false,
    }
}

/// The wait-for relation as a matrix: `w[a][b]` when `a` waits on `b`.
fn wait_matrix(tr: &Vec<Event>) -> (w: Vec<Vec<bool>>)
    ensures
        w@.len() == tr@.len(),
        forall|a: int| 0 <= a < tr@.len() ==> (#[trigger] w@[a])@.len() == tr@.len(),
        forall|a: int, b: int|
            0 <= a < tr@.len() && 0 <= b < tr@.len() ==> w@[a]@[b] == waits_on(tr@, a, b),
{
    let n = tr.len();
    let mut st: Vec<Option<i64>> = Vec::new();
    let mut k: usize = 0;
    while k < n
        invariant
            n == tr@.len(),
            k <= n,
            st@.len() == k,
            forall|x: int| 0 <= x < k ==> st@[x] == standing(tr@, x),
        decreases n - k,
    {
        st.push(standing_exec(tr, k));
        k = k + 1;
    }
    let mut w: Vec<Vec<bool>> = Vec::new();
    let mut a: usize = 0;
    while a < n
        invariant
            n == tr@.len(),
            a <= n,
            st@.len() == n,
            forall|x: int| 0 <= x < n ==> st@[x] == standing(tr@, x),
            w@.len() == a,
            forall|x: int| 0 <= x < a ==> (#[trigger] w@[x])@.len() == n,
            forall|x: int, y: int| 0 <= x < a && 0 <= y < n ==> w@[x]@[y] == waits_on(tr@, x, y),
        decreases n - a,
    {
        let mut row: Vec<bool> = Vec::new();
        let mut b: usize = 0;
        while b < n
            invariant
                n == tr@.len(),
                a < n,
                b <= n,
                st@.len() == n,
                forall|x: int| 0 <= x < n ==> st@[x] == standing(tr@, x),
                row@.len() == b,
                forall|y: int| 0 <= y < b ==> row@[y] == waits_on(tr@, a as int, y),
            decreases n - b,
        {
            row.push(waits_on_exec(tr, &st, a, b));
            b = b + 1;
        }
        w.push(row);
        a = a + 1;
    }
    w
}

/// Whether request `a` lies on a wait-for cycle, following chains of growing
/// length from `a`.
fn on_cycle_exec(tr: &Vec<Event>, w: &Vec<Vec<bool>>, a: usize) -> (r: bool)
    requires
        a < tr@.len(),
        w@.len() == tr@.len(),
        forall|x: int| 0 <= x < tr@.len() ==> (#[trigger] w@[x])@.len() == tr@.len(),
        forall|x: int, y: int|
            0 <= x < tr@.len() && 0 <= y < tr@.len() ==> w@[x]@[y] == waits_on(tr@, x, y),
    ensures
        r == on_cycle(tr@, a as int),
{
    let n = tr.len();
    let mut cur: Vec<bool> = w[a].clone();
    assert(cur@ == w@[a as int]@);
    let mut k: usize = 1;
    while k <= n
        invariant
            n == tr@.len(),
            a < n,
            1 <= k <= n + 1,
            w@.len() == n,
            forall|x: int| 0 <= x < n ==> (#[trigger] w@[x])@.len() == n,
            forall|x: int, y: int| 0 <= x < n && 0 <= y < n ==> w@[x]@[y] == waits_on(tr@, x, y),
            cur@.len() == n,
            forall|y: int| 0 <= y < n ==> cur@[y] == path(tr@, a as int, y, k as nat),
            forall|j: nat| 1 <= j < k ==> !#[trigger] path(tr@, a as int, a as int, j),
        decreases n + 1 - k,
    {
        if cur[a] {
            return true;
        }
        let mut next: Vec<bool> = Vec::new();
        let mut b: usize = 0;
        while b < n
            invariant
                n == tr@.len(),
                a < n,
                1 <= k <= n,
                b <= n,
                w@.len() == n,
                forall|x: int| 0 <= x < n ==> (#[trigger] w@[x])@.len() == n,
                forall|x: int, y: int| 0 <= x < n && 0 <= y < n ==> w@[x]@[y] == waits_on(tr@, x, y),
                cur@.len() == n,
                forall|y: int| 0 <= y < n ==> cur@[y] == path(tr@, a as int, y, k as nat),
                next@.len() == b,
                forall|y: int| 0 <= y < b ==> next@[y] == path(tr@, a as int, y, (k + 1) as nat),
            decreases n - b,
        {
            let mut acc = false;
            let mut c: usize = 0;
            while c < n
                invariant
                    n == tr@.len(),
                    b < n,
                    c <= n,
                    w@.len() == n,
                    forall|x: int| 0 <= x < n ==> (#[trigger] w@[x])@.len() == n,
                    forall|x: int, y: int|
                        0 <= x < n && 0 <= y < n ==> w@[x]@[y] == waits_on(tr@, x, y),
                    cur@.len() == n,
                    forall|y: int| 0 <= y < n ==> cur@[y] == path(tr@, a as int, y, k as nat),
                    acc == exists|x: int|
                        0 <= x < c && path(tr@, a as int, x, k as nat) && #[trigger] waits_on(tr@, x, b as int),
                decreases n - c,
            {
                if cur[c] && w[c][b] {
                    acc = true;
                }
                proof {
                    let cc = c as int;
                    if cur@[cc] && w@[cc]@[b as int] {
                        assert(path(tr@, a as int, cc, k as nat) && waits_on(tr@, cc, b as int));
                    } else {
                        assert(!(path(tr@, a as int, cc, k as nat) && waits_on(tr@, cc, b as int)));
                    }
                }
                c = c + 1;
            }
            next.push(acc);
            b = b + 1;
        }
        proof {
            assert forall|y: int| 0 <= y < n implies next@[y] == path(tr@, a as int, y, (k + 1) as nat) by {}
        }
        cur = next;
        if k == n {
            proof {
                if on_cycle(tr@, a as int) {
                    let j = choose|j: nat| 1 <= j <= tr@.len() && #[trigger] path(tr@, a as int, a as int, j);
                    assert(j < k || j == k);
                }
            }
            return false;
        }
        k = k + 1;
    }
    proof {
        if on_cycle(tr@, a as int) {
            let j = choose|j: nat| 1 <= j <= tr@.len() && #[trigger] path(tr@, a as int, a as int, j);
        }
    }
    false
}

/// The requests that lie on a cycle of the wait-for graph, in increasing
/// order: each is a potential deadlock, with its thread, lock and line.
pub fn find_deadlocks(tr: &Vec<Event>) -> (r: Vec<usize>)
    ensures
        is_cycle_list(tr@, r@),
{
    let w = wait_matrix(tr);
    let n = tr.len();
    let mut r: Vec<usize> = Vec::new();
    let mut a: usize = 0;
    while a < n
        invariant
            n == tr@.len(),
            a <= n,
            w@.len() == n,
            forall|x: int| 0 <= x < n ==> (#[trigger] w@[x])@.len() == n,
            forall|x: int, y: int| 0 <= x < n && 0 <= y < n ==> w@[x]@[y] == waits_on(tr@, x, y),
            forall|k: int| 0 <= k < r@.len() ==> on_cycle(tr@, #[trigger] r@[k] as int),
            forall|x: int| 0 <= x < a && on_cycle(tr@, x) ==> exists|k: int| 0 <= k < r@.len() && #[trigger] r@[k] == x,
            forall|i: int, j: int| 0 <= i < j < r@.len() ==> r@[i] < r@[j],
            forall|k: int| 0 <= k < r@.len() ==> r@[k] < a,
        decreases n - a,
    {
        if on_cycle_exec(tr, &w, a) {
            let ghost old_r = r@;
            r.push(a);
            proof {
                assert forall|x: int| 0 <= x < a + 1 && on_cycle(tr@, x) implies exists|k: int| 0 <= k < r@.len() && #[trigger] r@[k] == x by {
                    if x == a {
                        assert(r@[old_r.len() as int] == x);
                    } else {
                        let k = choose|k: int| 0 <= k < old_r.len() && #[trigger] old_r[k] == x;
                        assert(r@[k] == old_r[k]);
                    }
                }
            }
        }
        a = a + 1;
    }
    proof {
        assert forall|x: int| on_cycle(tr@, x) implies exists|k: int| 0 <= k < r@.len() && #[trigger] r@[k] == x by {
            if !(0 <= x < n) {
                let j = choose|j: nat| 1 <= j <= tr@.len() && #[trigger] path(tr@, x, x, j);
                lemma_path_inside(tr@, x, x, j);
            }
        }
    }
    r
}

/// Two standing requests of two threads, each thread holding at the end of
/// the trace the lock the other requests, both lie on a wait-for cycle.
pub proof fn lemma_crossed_requests_deadlock(tr: Seq<Event>, a: int, b: int, la: i64, lb: i64)
    requires
        0 <= a < tr.len(),
        0 <= b < tr.len(),
        standing(tr, a) == Some(la),
        standing(tr, b) == Some(lb),
        tr[a].thread != tr[b].thread,
        holds(tr, tr[b].thread, la, tr.len() as int),
        holds(tr, tr[a].thread, lb, tr.len() as int),
    ensures
        on_cycle(tr, a),
        on_cycle(tr, b),
{
    assert(waits_on(tr, a, b));
    assert(waits_on(tr, b, a));
    assert(a != b);
    assert(path(tr, a, b, 1));
    assert(path(tr, b, a, 1));
    assert(path(tr, a, a, 2));
    assert(path(tr, b, b, 2));
}

proof fn lemma_path_inside(tr: Seq<Event>, a: int, b: int, k: nat)
    requires
        path(tr, a, b, k),
    ensures
        0 <= a < tr.len(),
        0 <= b < tr.len(),
    decreases k,
{
    if k > 1 {
        let c = choose|c: int| 0 <= c < tr.len() && path(tr, a, c, (k - 1) as nat) && #[trigger] waits_on(tr, c, b);
        lemma_path_inside(tr, a, c, (k - 1) as nat);
    }
}

/// The list of requests on wait-for cycles is unique: any two lists that meet
/// the contract of `find_deadlocks` are equal.
pub proof fn lemma_cycle_list_unique(tr: Seq<Event>, r1: Seq<usize>, r2: Seq<usize>)
    requires
        is_cycle_list(tr, r1),
        is_cycle_list(tr, r2),
    ensures
        r1 == r2,
{
    lemma_cycle_prefix(tr, r1, r2, if r1.len() < r2.len() { r1.len() as int } else { r2.len() as int });
    let n = if r1.len() < r2.len() { r1.len() as int } else { r2.len() as int };
    if r1.len() > n {
        assert(on_cycle(tr, r1[n] as int));
        let a = choose|k: int| 0 <= k < r2.len() && #[trigger] r2[k] == r1[n] as int;
        assert(r1[a] < r1[n]);
    }
    if r2.len() > n {
        assert(on_cycle(tr, r2[n] as int));
        let a = choose|k: int| 0 <= k < r1.len() && #[trigger] r1[k] == r2[n] as int;
        assert(r2[a] < r2[n]);
    }
    assert(r1 =~= r2);
}

proof fn lemma_cycle_prefix(tr: Seq<Event>, r1: Seq<usize>, r2: Seq<usize>, k: int)
    requires
        is_cycle_list(tr, r1),
        is_cycle_list(tr, r2),
        0 <= k <= r1.len(),
        k <= r2.len(),
    ensures
        forall|i: int| 0 <= i < k ==> r1[i] == r2[i],
    decreases k,
{
    if k > 0 {
        lemma_cycle_prefix(tr, r1, r2, k - 1);
        let m = k - 1;
        assert(on_cycle(tr, r1[m] as int));
        assert(on_cycle(tr, r2[m] as int));
        let a = choose|x: int| 0 <= x < r2.len() && #[trigger] r2[x] == r1[m] as int;
        let b = choose|x: int| 0 <= x < r1.len() && #[trigger] r1[x] == r2[m] as int;
        if a < m {
            assert(r1[a] < r1[m]);
        }
        if b < m {
            assert(r2[b] < r2[m]);
        }
        if a > m && b > m {
            assert(r2[m] < r2[a]);
            assert(r1[m] < r1[b]);
        }
    }
}

} // verus!
