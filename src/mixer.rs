//! Sample-accurate mixing of several sources into one rolling channel queue.
//!
//! A channel queue holds mixed samples; its element 0 stands at the absolute
//! sample index `base`. Samples arrive in fixed point: an input sample and a
//! gain each count `1.0` as 65536, so a mixed value counts `1.0` as 2^32.
use std::collections::VecDeque;
use vstd::prelude::*;

verus! {

/// The value `1.0` of an input sample.
pub const SAMPLE_ONE: i32 = 65536;

/// The value `1.0` of a gain.
pub const GAIN_ONE: i32 = 65536;

/// The value `1.0` of a mixed sample (`SAMPLE_ONE * GAIN_ONE`).
pub const MIXED_ONE: i64 = 4294967296;

/// `v` clipped into the range of `i64`.
pub open spec fn saturate(v: int) -> i64 {
    if v > i64::MAX {
        i64::MAX
    } else if v < i64::MIN {
        i64::MIN
    } else {
        v as i64
    }
}

/// The absolute index at which a source with cursor `cursor` starts writing
/// into a queue of `len` samples that begins at `base`: the cursor clamped
/// into `[base, base + len]`.
pub open spec fn write_start(len: nat, cursor: u64, base: u64) -> int {
    if cursor < base {
        base as int
    } else if cursor > base + len {
        base + len
    } else {
        cursor as int
    }
}

/// What a batch written from queue offset `off` adds at queue offset `j`.
pub open spec fn contribution(samples: Seq<i32>, gain: i32, off: int, j: int) -> int {
    if off <= j < off + samples.len() {
        samples[j - off] * gain
    } else {
        0
    }
}

/// The queue `q` with the batch `samples`, scaled by `gain`, added from
/// offset `off` on; the queue grows where the batch runs past its end.
pub open spec fn mixed_queue(q: Seq<i64>, samples: Seq<i32>, gain: i32, off: int) -> Seq<i64> {
    let len = if q.len() >= off + samples.len() { q.len() as int } else { off + samples.len() };
    Seq::new(
        len as nat,
        |j: int|
            saturate(
                (if j < q.len() { q[j] as int } else { 0 }) + contribution(samples, gain, off, j),
            ),
    )
}

/// Relies on `VecDeque`'s `IndexMut`: `q[i] = v` replaces the element at `i`
/// and leaves the others as they were.
#[verifier::external_body]
fn set_sample(q: &mut VecDeque<i64>, i: usize, v: i64)
    requires
        i < old(q)@.len(),
    ensures
        final(q)@ == old(q)@.update(i as int, v),
{
    q[i] = v;
}

/// Drops the first `n` samples of `q` (all of them when it holds fewer).
pub fn truncate_front<T>(q: &mut VecDeque<T>, n: usize)
    ensures
        n <= old(q)@.len() ==> final(q)@ == old(q)@.subrange(n as int, old(q)@.len() as int),
        n > old(q)@.len() ==> final(q)@.len() == 0,
{
    let mut i: usize = 0;
    while i < n
        invariant
            i <= n,
            i <= old(q)@.len() ==> q@ == old(q)@.subrange(i as int, old(q)@.len() as int),
            i > old(q)@.len() ==> q@.len() == 0,
        decreases n - i,
    {
        q.pop_front();
        i += 1;
    }
}

/// Adds `sample * gain` to `acc`, clipping at the range of `i64`.
fn add_scaled(acc: i64, sample: i32, gain: i32) -> (r: i64)
    ensures
        r == saturate(acc + sample * gain),
{
    let s = sample as i64;
    let g = gain as i64;
    assert(-0x4000_0000_0000_0000 <= s * g <= 0x4000_0000_0000_0000) by (nonlinear_arith)
        requires
            -0x8000_0000 <= s <= 0x7fff_ffff,
            -0x8000_0000 <= g <= 0x7fff_ffff,
    ;
    let sum = acc as i128 + (s * g) as i128;
    if sum > i64::MAX as i128 {
        i64::MAX
    } else if sum < i64::MIN as i128 {
        i64::MIN
    } else {
        sum as i64
    }
}

/// Mixes the batch `audio_data`, scaled by `amplifier`, into `audio_buffer`
/// for a source whose next sample stands at `source_sample_number`, and
/// returns that source's new cursor.
///
/// The write starts at the cursor clamped into `[base, base + len]`: a cursor
/// behind the queue skips what was already retired, and one past its end
/// appends at the tail. Where the queue already holds a sample the batch adds
/// to it; past its end the queue grows.
pub fn mix_audio_buffer(
    audio_buffer: &mut VecDeque<i64>,
    audio_data: &[i32],
    amplifier: i32,
    source_sample_number: u64,
    base_sample_number: u64,
) -> (r: u64)
    requires
        base_sample_number + old(audio_buffer)@.len() + audio_data@.len() <= u64::MAX,
    ensures
        r == write_start(old(audio_buffer)@.len(), source_sample_number, base_sample_number)
            + audio_data@.len(),
        final(audio_buffer)@ == mixed_queue(
            old(audio_buffer)@,
            audio_data@,
            amplifier,
            write_start(old(audio_buffer)@.len(), source_sample_number, base_sample_number)
                - base_sample_number,
        ),
{
    let len = audio_buffer.len();
    let mut position: u64 = source_sample_number;
    if source_sample_number < base_sample_number {
        position = base_sample_number;
    } else if source_sample_number - base_sample_number > len as u64 {
        position = base_sample_number + len as u64;
    }
    let ghost off: int = position - base_sample_number;
    let ghost q0 = old(audio_buffer)@;
    let n = audio_data.len();
    let mut k: usize = 0;
    while k < n
        invariant
            k <= n == audio_data@.len(),
            q0 == old(audio_buffer)@,
            0 <= off <= q0.len(),
            position == base_sample_number + off + k,
            base_sample_number + q0.len() + n <= u64::MAX,
            audio_buffer@ == mixed_queue(q0, audio_data@.subrange(0, k as int), amplifier, off),
        decreases n - k,
    {
        let index = (position - base_sample_number) as usize;
        let ghost before = audio_buffer@;
        let ghost done = audio_data@.subrange(0, k as int);
        let ghost next = audio_data@.subrange(0, k + 1);
        if index < audio_buffer.len() {
            let v = add_scaled(audio_buffer[index], audio_data[k], amplifier);
            set_sample(audio_buffer, index, v);
            assert(index < q0.len());
        } else {
            let v = add_scaled(0, audio_data[k], amplifier);
            audio_buffer.push_back(v);
        }
        assert(audio_buffer@ =~= mixed_queue(q0, next, amplifier, off)) by {
            assert forall|j: int| 0 <= j < audio_buffer@.len() implies audio_buffer@[j]
                == mixed_queue(q0, next, amplifier, off)[j] by {
                if j != index {
                    assert(contribution(done, amplifier, off, j) == contribution(
                        next,
                        amplifier,
                        off,
                        j,
                    ));
                } else {
                    assert(next[k as int] == audio_data@[k as int]);
                }
            }
        }
        position = position + 1;
        k += 1;
    }
    assert(audio_data@.subrange(0, n as int) =~= audio_data@);
    position
}

/// Sample `j` of `q`, and zero where `q` holds none.
pub open spec fn sample_at(q: Seq<i64>, j: int) -> int {
    if 0 <= j < q.len() {
        q[j] as int
    } else {
        0
    }
}

/// The queue after the calls `calls` of `mix_audio_buffer`, in order, on the
/// queue `q` whose first sample stands at `base`; a call is a cursor, a
/// batch and a gain.
pub open spec fn queue_after(q: Seq<i64>, base: u64, calls: Seq<(u64, Seq<i32>, i32)>) -> Seq<
    i64,
>
    decreases calls.len(),
{
    if calls.len() == 0 {
        q
    } else {
        let prev = queue_after(q, base, calls.drop_last());
        let c = calls.last();
        mixed_queue(prev, c.1, c.2, write_start(prev.len(), c.0, base) - base)
    }
}

/// The exact sum of what the calls `calls` on `q` add at offset `j`, each
/// batch placed where its call writes it.
pub open spec fn total_contribution(
    q: Seq<i64>,
    base: u64,
    calls: Seq<(u64, Seq<i32>, i32)>,
    j: int,
) -> int
    decreases calls.len(),
{
    if calls.len() == 0 {
        0
    } else {
        let prev = queue_after(q, base, calls.drop_last());
        let c = calls.last();
        total_contribution(q, base, calls.drop_last(), j) + contribution(
            c.1,
            c.2,
            write_start(prev.len(), c.0, base) - base,
            j,
        )
    }
}

/// Mixing is exact addition: after any run of calls, each sample of the
/// queue is its value before plus the sum of `sample * gain` over every batch
/// that covers its absolute index, as long as no running total leaves the
/// range of `i64`.
pub proof fn lemma_mix_is_linear_sum(q: Seq<i64>, base: u64, calls: Seq<(u64, Seq<i32>, i32)>)
    requires
        forall|k: int, j: int|
            0 <= k <= calls.len() ==> i64::MIN <= sample_at(q, j) + #[trigger] total_contribution(
                q,
                base,
                calls.take(k),
                j,
            ) <= i64::MAX,
    ensures
        queue_after(q, base, calls).len() >= q.len(),
        forall|j: int|
            0 <= j ==> #[trigger] sample_at(queue_after(q, base, calls), j) == sample_at(q, j)
                + total_contribution(q, base, calls, j),
    decreases calls.len(),
{
    if calls.len() > 0 {
        let prev = calls.drop_last();
        assert forall|k: int, j: int| 0 <= k <= prev.len() implies i64::MIN <= sample_at(q, j)
            + #[trigger] total_contribution(q, base, prev.take(k), j) <= i64::MAX by {
            assert(prev.take(k) =~= calls.take(k));
        }
        lemma_mix_is_linear_sum(q, base, prev);
        assert(calls.take(calls.len() as int) =~= calls);
        let pq = queue_after(q, base, prev);
        let c = calls.last();
        let off = write_start(pq.len(), c.0, base) - base;
        let nq = queue_after(q, base, calls);
        assert forall|j: int| 0 <= j implies #[trigger] sample_at(nq, j) == sample_at(q, j)
            + total_contribution(q, base, calls, j) by {
            assert(sample_at(pq, j) == sample_at(q, j) + total_contribution(q, base, prev, j));
            assert(i64::MIN <= sample_at(q, j) + total_contribution(q, base, calls.take(calls.len() as int), j) <= i64::MAX);
        }
    }
}

} // verus!
