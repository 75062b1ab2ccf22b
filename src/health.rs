//! Source health: which sources are stalled and how many samples every
//! active source has delivered.
//!
//! A source's cursor is the absolute index of the next sample it will
//! contribute. A cursor below `base` marks a source that takes no part in the
//! mix (0 is the usual such value, as `base` never falls below 1).
use vstd::prelude::*;

verus! {

/// The largest cursor, or 0 when there are none.
pub open spec fn max_cursor(cursors: Seq<u64>) -> int
    decreases cursors.len(),
{
    if cursors.len() == 0 {
        0
    } else {
        let m = max_cursor(cursors.drop_last());
        if cursors.last() > m {
            cursors.last() as int
        } else {
            m
        }
    }
}

/// The smallest cursor at or past `base`, if any.
pub open spec fn min_active_cursor(cursors: Seq<u64>, base: u64) -> Option<int>
    decreases cursors.len(),
{
    if cursors.len() == 0 {
        None
    } else {
        let m = min_active_cursor(cursors.drop_last(), base);
        let x = cursors.last();
        if x < base {
            m
        } else {
            match m {
                None => Some(x as int),
                Some(y) => Some(
                    if (x as int) < y {
                        x as int
                    } else {
                        y
                    },
                ),
            }
        }
    }
}

/// Some source has run `3 * flush_len` samples or more past `base`.
pub open spec fn drift_exceeded(cursors: Seq<u64>, base: u64, flush_len: usize) -> bool {
    max_cursor(cursors) - base >= 3 * flush_len
}

/// The cursors after stall eviction: when some source has run `3 * flush_len`
/// samples past `base`, each source still at `base` is dropped (its cursor
/// set to 0).
pub open spec fn evicted(cursors: Seq<u64>, base: u64, flush_len: usize) -> Seq<u64> {
    if drift_exceeded(cursors, base, flush_len) {
        cursors.map_values(
            |x: u64|
                if x == base {
                    0u64
                } else {
                    x
                },
        )
    } else {
        cursors
    }
}

/// How many samples past `base` every active source has delivered: the
/// smallest active cursor less `base`, or 0 when no source is active.
pub open spec fn deliverable(cursors: Seq<u64>, base: u64) -> int {
    match min_active_cursor(cursors, base) {
        None => 0,
        Some(m) => m - base,
    }
}

/// The smallest active cursor is an active cursor, and no active cursor lies
/// below it.
pub proof fn lemma_min_active_cursor(cursors: Seq<u64>, base: u64)
    ensures
        match min_active_cursor(cursors, base) {
            None => forall|i: int| 0 <= i < cursors.len() ==> cursors[i] < base,
            Some(m) => {
                &&& m >= base
                &&& exists|i: int| 0 <= i < cursors.len() && cursors[i] == m
                &&& forall|i: int|
                    0 <= i < cursors.len() && cursors[i] >= base ==> m <= cursors[i]
            },
        },
    decreases cursors.len(),
{
    if cursors.len() > 0 {
        let prev = cursors.drop_last();
        lemma_min_active_cursor(prev, base);
        let last = cursors.len() - 1;
        assert(forall|i: int| 0 <= i < prev.len() ==> cursors[i] == prev[i]);
        assert(cursors[last] == cursors.last());
        match min_active_cursor(prev, base) {
            None => {},
            Some(m) => {
                let i = choose|i: int| 0 <= i < prev.len() && prev[i] == m;
                assert(cursors[i] == m);
            },
        }
    }
}

proof fn lemma_max_cursor(cursors: Seq<u64>)
    ensures
        forall|i: int| 0 <= i < cursors.len() ==> cursors[i] <= max_cursor(cursors),
        0 <= max_cursor(cursors) <= u64::MAX,
    decreases cursors.len(),
{
    if cursors.len() > 0 {
        let prev = cursors.drop_last();
        lemma_max_cursor(prev);
        assert(forall|i: int| 0 <= i < prev.len() ==> cursors[i] == prev[i]);
        assert(cursors[cursors.len() - 1] == cursors.last());
    }
}

/// The largest of `cursors`, or 0 when there are none.
fn find_max_cursor(cursors: &Vec<u64>) -> (r: u64)
    ensures
        r == max_cursor(cursors@),
{
    let mut m: u64 = 0;
    let mut i: usize = 0;
    while i < cursors.len()
        invariant
            i <= cursors@.len(),
            m == max_cursor(cursors@.subrange(0, i as int)),
        decreases cursors@.len() - i,
    {
        assert(cursors@.subrange(0, i + 1).drop_last() =~= cursors@.subrange(0, i as int));
        if cursors[i] > m {
            m = cursors[i];
        }
        i += 1;
    }
    assert(cursors@.subrange(0, i as int) =~= cursors@);
    m
}

/// Applies stall eviction to `cursors`: when the furthest source has run
/// `3 * flush_len` samples or more past `base`, every source whose cursor is
/// exactly `base` is dropped.
pub fn evict_stalled_sources(cursors: &mut Vec<u64>, base: u64, flush_len: usize)
    ensures
        final(cursors)@ == evicted(old(cursors)@, base, flush_len),
{
    let m = find_max_cursor(cursors);
    if m >= base && (m - base) as u128 >= 3 * (flush_len as u128) {
        let ghost start = cursors@;
        let mut i: usize = 0;
        while i < cursors.len()
            invariant
                i <= cursors@.len() == start.len(),
                forall|j: int|
                    0 <= j < cursors@.len() ==> #[trigger] cursors@[j] == if j < i {
                        if start[j] == base {
                            0u64
                        } else {
                            start[j]
                        }
                    } else {
                        start[j]
                    },
            decreases cursors@.len() - i,
        {
            if cursors[i] == base {
                cursors.set(i, 0);
            }
            i += 1;
        }
        assert(cursors@ =~= evicted(start, base, flush_len));
    } else {
        proof {
            lemma_max_cursor(cursors@);
        }
    }
}

/// The number of samples past `base` that every active source has delivered.
pub fn deliverable_samples(cursors: &Vec<u64>, base: u64) -> (r: u64)
    ensures
        r == deliverable(cursors@, base),
{
    let mut found = false;
    let mut m: u64 = 0;
    let mut i: usize = 0;
    while i < cursors.len()
        invariant
            i <= cursors@.len(),
            min_active_cursor(cursors@.subrange(0, i as int), base) == if found {
                Some(m as int)
            } else {
                None::<int>
            },
            found ==> m >= base,
        decreases cursors@.len() - i,
    {
        assert(cursors@.subrange(0, i + 1).drop_last() =~= cursors@.subrange(0, i as int));
        let x = cursors[i];
        if x >= base {
            if !found || x < m {
                m = x;
            }
            found = true;
        }
        i += 1;
    }
    assert(cursors@.subrange(0, i as int) =~= cursors@);
    if found {
        m - base
    } else {
        0
    }
}

/// A source whose cursor stays at `base` while another has run
/// `3 * flush_len` samples past it is dropped by the next health check.
pub proof fn lemma_stalled_source_evicted(
    cursors: Seq<u64>,
    base: u64,
    flush_len: usize,
    stalled: int,
    ahead: int,
)
    requires
        0 <= stalled < cursors.len(),
        0 <= ahead < cursors.len(),
        cursors[stalled] == base,
        cursors[ahead] >= base + 3 * flush_len,
    ensures
        evicted(cursors, base, flush_len)[stalled] == 0,
        evicted(cursors, base, flush_len).len() == cursors.len(),
{
    lemma_max_cursor(cursors);
}

} // verus!
