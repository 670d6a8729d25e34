//! Bookkeeping decisions of the neighbor table and the airtime history,
//! taken on clock readings that the caller makes: which neighbor to evict
//! when the table is full, which neighbors have gone stale, and how many of
//! the oldest airtime records have left the window.

use vstd::prelude::*;

use crate::mesh::traceroute::{is_past, is_timed_out};

verus! {

/// The index of the entry seen longest ago among the first `n` ages: the
/// largest age, the last one among equal largest ages.
pub open spec fn oldest_index(ages: Seq<(u32, u128)>, n: int) -> int
    decreases n,
{
    if n <= 1 {
        0
    } else {
        let b = oldest_index(ages, n - 1);
        if ages[n - 1].1 >= ages[b].1 {
            n - 1
        } else {
            b
        }
    }
}

/// The ids whose age has run past the timeout, in order.
pub open spec fn stale_ids(ages: Seq<(u32, u128)>, timeout_secs: u64) -> Seq<u32>
    decreases ages.len(),
{
    if ages.len() == 0 {
        seq![]
    } else {
        let rest = stale_ids(ages.drop_last(), timeout_secs);
        if is_past(ages.last().1, timeout_secs) {
            rest.push(ages.last().0)
        } else {
            rest
        }
    }
}

/// The neighbor to evict when the table is full: given `(id, age)` pairs,
/// the id seen longest ago (the largest age; the last of equal ones), or
/// none for an empty table.
pub fn oldest_entry(ages: &[(u32, u128)]) -> (r: Option<u32>)
    ensures
        ages.len() == 0 ==> r is None,
        ages.len() > 0 ==> r == Some(ages[oldest_index(ages@, ages.len() as int)].0),
        ages.len() > 0 ==> forall|j: int| 0 <= j < ages.len() ==> #[trigger] ages[j].1 <= ages[oldest_index(
            ages@,
            ages.len() as int,
        )].1,
{
    if ages.len() == 0 {
        return None;
    }
    let mut best: usize = 0;
    let mut i: usize = 1;
    while i < ages.len()
        invariant
            1 <= i <= ages.len(),
            best == oldest_index(ages@, i as int),
            best < i,
            forall|j: int| 0 <= j < i ==> #[trigger] ages[j].1 <= ages[best as int].1,
        decreases ages.len() - i,
    {
        if ages[i].1 >= ages[best].1 {
            best = i;
        }
        i += 1;
    }
    Some(ages[best].0)
}

/// The neighbors gone stale: the ids, in order, whose age in nanoseconds
/// has run past a timeout of `timeout_secs` seconds.
pub fn stale_entries(ages: &[(u32, u128)], timeout_secs: u64) -> (out: Vec<u32>)
    ensures
        out@ == stale_ids(ages@, timeout_secs),
{
    let mut out: Vec<u32> = Vec::new();
    let mut i: usize = 0;
    while i < ages.len()
        invariant
            i <= ages.len(),
            out@ == stale_ids(ages@.subrange(0, i as int), timeout_secs),
        decreases ages.len() - i,
    {
        proof {
            assert(ages@.subrange(0, i + 1).drop_last() =~= ages@.subrange(0, i as int));
        }
        if is_timed_out(ages[i].1, timeout_secs) {
            out.push(ages[i].0);
        }
        i += 1;
    }
    proof {
        assert(ages@.subrange(0, ages.len() as int) =~= ages@);
    }
    out
}

/// How many of the oldest airtime records (ages in nanoseconds, oldest
/// first) have left a window of `window_secs` seconds: the records from the
/// front whose age runs past the window, up to the first that does not.
pub fn expired_prefix(ages_ns: &[u128], window_secs: u64) -> (n: usize)
    ensures
        n <= ages_ns.len(),
        forall|i: int| 0 <= i < n ==> #[trigger] is_past(ages_ns[i], window_secs),
        n < ages_ns.len() ==> !is_past(ages_ns[n as int], window_secs),
{
    let mut n: usize = 0;
    while n < ages_ns.len()
        invariant
            n <= ages_ns.len(),
            forall|i: int| 0 <= i < n ==> #[trigger] is_past(ages_ns[i], window_secs),
        decreases ages_ns.len() - n,
    {
        if !is_timed_out(ages_ns[n], window_secs) {
            return n;
        }
        n += 1;
    }
    n
}

} // verus!
