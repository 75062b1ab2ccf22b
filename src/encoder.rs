//! The audio-to-image codec: one channel's samples become a raster of cells,
//! each cell a block of BGRA pixels.
//!
//! The first four cells carry the low four bits of the frame counter (white
//! for 1, black for 0). Each further cell carries one mixed sample as a
//! dithered pair of levels per pixel: blue and red carry one level, green
//! another, so that the mean over the cell approximates the sample more finely
//! than one 8-bit level. Cells past the last sample are black.
use crate::mixer::MIXED_ONE;
use std::collections::VecDeque;
use vstd::arithmetic::div_mod::{lemma_fundamental_div_mod, lemma_fundamental_div_mod_converse};
use vstd::prelude::*;

verus! {

/// The level of a mixed value `x`, times `MIXED_ONE`: the value `v = x / MIXED_ONE`
/// maps to the level `16 + 120 * (v + 1)`, so that `[-1, 1]` spans `[16, 256]`.
pub open spec fn level_numerator(x: i64) -> int {
    136 * MIXED_ONE + 120 * x
}

/// A level clamped into `[16, 255]`.
pub open spec fn clamp_level(l: int) -> int {
    if l < 16 {
        16
    } else if l > 255 {
        255
    } else {
        l
    }
}

/// The level that follows `k` levels summing to `sum`, for a target level
/// `num / MIXED_ONE`: the floor of the target while the sum has reached `k`
/// times the target, else the level above it.
pub open spec fn next_level(num: int, k: int, sum: int) -> int {
    clamp_level(
        if sum * MIXED_ONE >= k * num {
            num / MIXED_ONE as int
        } else {
            num / MIXED_ONE as int + 1
        },
    )
}

/// The sum of the first `k` dithered levels for the target `num / MIXED_ONE`.
pub open spec fn dither_sum(num: int, k: nat) -> int
    decreases k,
{
    if k == 0 {
        0
    } else {
        let prev = dither_sum(num, (k - 1) as nat);
        prev + next_level(num, k - 1, prev)
    }
}

/// The `k`-th dithered level for the target `num / MIXED_ONE`.
pub open spec fn dither_level(num: int, k: nat) -> int {
    next_level(num, k as int, dither_sum(num, k))
}

/// Bit `k` of the frame counter.
pub open spec fn prefix_bit(packet_index: u64, k: int) -> bool {
    (packet_index >> (k as u64)) & 1u64 == 1u64
}

/// Level number `i` of cell number `cell`, for a channel whose samples are
/// `samples`.
pub open spec fn cell_level(samples: Seq<i64>, packet_index: u64, cell: int, i: int) -> int {
    if cell < 4 {
        if prefix_bit(packet_index, cell) {
            255
        } else {
            0
        }
    } else if cell - 4 < samples.len() {
        dither_level(level_numerator(samples[cell - 4]), i as nat)
    } else {
        0
    }
}

/// The cell, counted row-major in cell units, that holds pixel `p`.
pub open spec fn cell_index(width: int, cell_width: int, cell_height: int, p: int) -> int {
    (p / width) / cell_height * (width / cell_width) + (p % width) / cell_width
}

/// Where pixel `p` stands inside its cell, counted row-major.
pub open spec fn slot_index(width: int, cell_width: int, cell_height: int, p: int) -> int {
    ((p / width) % cell_height) * cell_width + (p % width) % cell_width
}

/// Byte `q` of an encoded half: pixel `q / 4`, channel `q % 4` in the order
/// blue, green, red, alpha.
pub open spec fn pixel_byte(
    samples: Seq<i64>,
    width: int,
    cell_width: int,
    cell_height: int,
    packet_index: u64,
    q: int,
) -> u8 {
    let p = q / 4;
    let c = q % 4;
    if c == 3 {
        255
    } else {
        let slot = slot_index(width, cell_width, cell_height, p);
        cell_level(
            samples,
            packet_index,
            cell_index(width, cell_width, cell_height, p),
            2 * slot + if c == 1 {
                1int
            } else {
                0int
            },
        ) as u8
    }
}

/// The bytes of one channel's half of a frame, `width` by `rows` pixels.
pub open spec fn encoded_half(
    samples: Seq<i64>,
    width: int,
    rows: int,
    cell_width: int,
    cell_height: int,
    packet_index: u64,
) -> Seq<u8> {
    Seq::new(
        (width * rows * 4) as nat,
        |q: int| pixel_byte(samples, width, cell_width, cell_height, packet_index, q),
    )
}

/// The cells of a half tile it exactly.
pub open spec fn valid_half(width: int, rows: int, cell_width: int, cell_height: int) -> bool {
    &&& width > 0
    &&& rows > 0
    &&& cell_width > 0
    &&& cell_height > 0
    &&& width % cell_width == 0
    &&& rows % cell_height == 0
}

/// A cell whose levels are all `v`.
fn uniform_cell(v: u8, n: usize) -> (r: Vec<u8>)
    ensures
        r@ == Seq::new(n as nat, |i: int| v),
{
    let mut r: Vec<u8> = Vec::new();
    let mut i: usize = 0;
    while i < n
        invariant
            i <= n,
            r@ == Seq::new(i as nat, |j: int| v),
        decreases n - i,
    {
        r.push(v);
        i += 1;
        assert(r@ =~= Seq::new(i as nat, |j: int| v));
    }
    r
}

/// The `n` dithered levels of a cell that carries the mixed value `x`.
fn dither_cell(x: i64, n: usize) -> (r: Vec<u8>)
    ensures
        r@.len() == n,
        forall|i: int|
            0 <= i < n ==> r@[i] as int == dither_level(level_numerator(x), i as nat),
{
    let one: i128 = MIXED_ONE as i128;
    let wide: i128 = 136 * one + 120 * (x as i128);
    let ghost num: int = level_numerator(x);
    assert(wide == num);
    if wide < 16 * one || wide >= 255 * one {
        let v: u8 = if wide < 16 * one {
            16
        } else {
            255
        };
        let r = uniform_cell(v, n);
        assert forall|i: int| 0 <= i < n implies r@[i] as int == dither_level(num, i as nat) by {
            lemma_fundamental_div_mod(num, MIXED_ONE as int);
        }
        return r;
    }
    let num64: i64 = wide as i64;
    let floor: i64 = num64 / MIXED_ONE;
    proof {
        lemma_fundamental_div_mod(num, MIXED_ONE as int);
        assert(16 <= floor <= 254);
    }
    // the running sum times MIXED_ONE, less k times the target
    let mut drift: i64 = 0;
    let mut r: Vec<u8> = Vec::new();
    let mut k: usize = 0;
    while k < n
        invariant
            k <= n,
            16 * MIXED_ONE <= num < 255 * MIXED_ONE,
            num64 == num,
            floor == num / MIXED_ONE as int,
            floor * MIXED_ONE <= num < (floor + 1) * MIXED_ONE,
            16 <= floor <= 254,
            drift == dither_sum(num, k as nat) * MIXED_ONE - k * num,
            -MIXED_ONE < drift <= MIXED_ONE,
            r@.len() == k,
            forall|i: int| 0 <= i < k ==> r@[i] as int == dither_level(num, i as nat),
        decreases n - k,
    {
        let level: i64 = if drift >= 0 {
            floor
        } else {
            floor + 1
        };
        proof {
            assert((k + 1) * num == k * num + num) by (nonlinear_arith);
            assert(level == dither_level(num, k as nat));
        }
        drift = drift + level * MIXED_ONE - num64;
        r.push(level as u8);
        k += 1;
    }
    r
}

proof fn lemma_pixel_position(width: int, rows: int, cell_width: int, cell_height: int, p: int)
    requires
        valid_half(width, rows, cell_width, cell_height),
        0 <= p < width * rows,
    ensures
        0 <= p / width < rows,
        0 <= p % width < width,
        0 <= cell_index(width, cell_width, cell_height, p) < (rows / cell_height) * (width
            / cell_width),
        0 <= slot_index(width, cell_width, cell_height, p) < cell_width * cell_height,
{
    let y = p / width;
    let x = p % width;
    let cols = width / cell_width;
    let crows = rows / cell_height;
    lemma_fundamental_div_mod(p, width);
    lemma_fundamental_div_mod(width, cell_width);
    lemma_fundamental_div_mod(rows, cell_height);
    assert(y < rows) by (nonlinear_arith)
        requires
            p == width * y + x,
            x >= 0,
            p < width * rows,
            width > 0,
    ;
    assert(y >= 0) by (nonlinear_arith)
        requires
            p == width * y + x,
            x < width,
            p >= 0,
            width > 0,
    ;
    let a = y / cell_height;
    let j = y % cell_height;
    let b = x / cell_width;
    let i = x % cell_width;
    lemma_fundamental_div_mod(y, cell_height);
    lemma_fundamental_div_mod(x, cell_width);
    assert(0 <= a < crows) by (nonlinear_arith)
        requires
            y == cell_height * a + j,
            0 <= j < cell_height,
            0 <= y < rows,
            rows == cell_height * crows,
    ;
    assert(0 <= b < cols) by (nonlinear_arith)
        requires
            x == cell_width * b + i,
            0 <= i < cell_width,
            0 <= x < width,
            width == cell_width * cols,
    ;
    assert(0 <= a * cols + b < crows * cols) by (nonlinear_arith)
        requires
            0 <= a < crows,
            0 <= b < cols,
    ;
    assert(0 <= j * cell_width + i < cell_width * cell_height) by (nonlinear_arith)
        requires
            0 <= j < cell_height,
            0 <= i < cell_width,
    ;
}

/// Appends to `texture_buffer` one channel's half of a frame, `width` by `rows`
/// pixels in cells of `cell_width` by `cell_height`, from the first `count`
/// samples of `audio_buffer`, with the frame counter `packet_index` in its
/// prefix. Samples beyond the cells that the half holds are not shown.
pub fn fill_texture_buffer(
    texture_buffer: &mut Vec<u8>,
    audio_buffer: &VecDeque<i64>,
    count: usize,
    width: usize,
    rows: usize,
    cell_width: usize,
    cell_height: usize,
    packet_index: u64,
)
    requires
        valid_half(width as int, rows as int, cell_width as int, cell_height as int),
        count <= audio_buffer@.len(),
        old(texture_buffer)@.len() + width * rows * 4 <= usize::MAX,
    ensures
        final(texture_buffer)@ == old(texture_buffer)@ + encoded_half(
            audio_buffer@.subrange(0, count as int),
            width as int,
            rows as int,
            cell_width as int,
            cell_height as int,
            packet_index,
        ),
{
    let ghost samples = audio_buffer@.subrange(0, count as int);
    let ghost start = old(texture_buffer)@;
    let ghost half = encoded_half(
        samples,
        width as int,
        rows as int,
        cell_width as int,
        cell_height as int,
        packet_index,
    );
    let cols = width / cell_width;
    let cell_rows = rows / cell_height;
    proof {
        lemma_fundamental_div_mod(width as int, cell_width as int);
        lemma_fundamental_div_mod(rows as int, cell_height as int);
        assert(cols * cell_rows <= width * rows && cell_width * cell_height <= width * rows)
            by (nonlinear_arith)
            requires
                width == cell_width * cols,
                rows == cell_height * cell_rows,
                cell_width >= 1,
                cell_height >= 1,
                width >= 1,
                rows >= 1,
                cols >= 0,
                cell_rows >= 0,
        ;
    }
    let cell_count = cols * cell_rows;
    let levels = 2 * (cell_width * cell_height);
    let mut cells: Vec<Vec<u8>> = Vec::new();
    let mut c: usize = 0;
    while c < cell_count
        invariant
            c <= cell_count,
            count <= audio_buffer@.len(),
            samples == audio_buffer@.subrange(0, count as int),
            cells@.len() == c,
            forall|d: int| 0 <= d < c ==> #[trigger] cells@[d]@.len() == levels,
            forall|d: int, i: int|
                0 <= d < c && 0 <= i < levels ==> #[trigger] cells@[d]@[i] as int
                    == cell_level(samples, packet_index, d, i),
        decreases cell_count - c,
    {
        let cell = if c < 4 {
            let white = (packet_index >> (c as u64)) & 1 == 1;
            uniform_cell(
                if white {
                    255
                } else {
                    0
                },
                levels,
            )
        } else if c - 4 < count {
            dither_cell(audio_buffer[c - 4], levels)
        } else {
            uniform_cell(0, levels)
        };
        cells.push(cell);
        c += 1;
    }
    let pixel_count = width * rows;
    let mut p: usize = 0;
    while p < pixel_count
        invariant
            p <= pixel_count == width * rows,
            valid_half(width as int, rows as int, cell_width as int, cell_height as int),
            cols == width / cell_width,
            cell_count == (rows / cell_height) * cols,
            levels == 2 * (cell_width * cell_height),
            start.len() + width * rows * 4 <= usize::MAX,
            cells@.len() == cell_count,
            forall|d: int| 0 <= d < cell_count ==> #[trigger] cells@[d]@.len() == levels,
            forall|d: int, i: int|
                0 <= d < cell_count && 0 <= i < levels ==> #[trigger] cells@[d]@[i] as int
                    == cell_level(samples, packet_index, d, i),
            half == encoded_half(
                samples,
                width as int,
                rows as int,
                cell_width as int,
                cell_height as int,
                packet_index,
            ),
            texture_buffer@ == start + half.subrange(0, 4 * p),
        decreases pixel_count - p,
    {
        proof {
            lemma_pixel_position(
                width as int,
                rows as int,
                cell_width as int,
                cell_height as int,
                p as int,
            );
        }
        let y = p / width;
        let x = p % width;
        let cell = (y / cell_height) * cols + x / cell_width;
        let slot = (y % cell_height) * cell_width + x % cell_width;
        let ghost q = 4 * p;
        proof {
            assert(cell as int == cell_index(
                width as int,
                cell_width as int,
                cell_height as int,
                p as int,
            ));
            assert(slot as int == slot_index(
                width as int,
                cell_width as int,
                cell_height as int,
                p as int,
            ));
            assert(cells@[cell as int]@.len() == levels);
            assert(cells@[cell as int]@[2 * slot] as int == cell_level(samples, packet_index, cell as int, 2 * slot));
            assert(cells@[cell as int]@[2 * slot + 1] as int == cell_level(samples, packet_index, cell as int, 2 * slot + 1));
        }
        let rb = cells[cell][2 * slot];
        let g = cells[cell][2 * slot + 1];
        texture_buffer.push(rb);
        texture_buffer.push(g);
        texture_buffer.push(rb);
        texture_buffer.push(255);
        proof {
            assert((q + 0) / 4 == p && (q + 0) % 4 == 0);
            assert((q + 1) / 4 == p && (q + 1) % 4 == 1);
            assert((q + 2) / 4 == p && (q + 2) % 4 == 2);
            assert((q + 3) / 4 == p && (q + 3) % 4 == 3);
            assert(texture_buffer@ =~= start + half.subrange(0, 4 * p + 4));
        }
        p += 1;
    }
    assert(half.subrange(0, 4 * p as int) =~= half);
}

/// The first pixel of cell number `k`.
pub open spec fn cell_origin(width: int, cell_width: int, cell_height: int, k: int) -> int {
    let cols = width / cell_width;
    (k / cols) * cell_height * width + (k % cols) * cell_width
}

/// The frame counter read back from the blue bytes of the four prefix cells
/// of an encoded half: a white cell `k` stands for `2^k`.
pub open spec fn decode_prefix(bytes: Seq<u8>, width: int, cell_width: int, cell_height: int) -> int {
    (if bytes[4 * cell_origin(width, cell_width, cell_height, 0)] == 255 {
        1int
    } else {
        0int
    }) + (if bytes[4 * cell_origin(width, cell_width, cell_height, 1)] == 255 {
        2int
    } else {
        0int
    }) + (if bytes[4 * cell_origin(width, cell_width, cell_height, 2)] == 255 {
        4int
    } else {
        0int
    }) + (if bytes[4 * cell_origin(width, cell_width, cell_height, 3)] == 255 {
        8int
    } else {
        0int
    })
}

/// An encoded half is `width * rows * 4` bytes long and every pixel in it is
/// opaque.
pub proof fn lemma_half_frame_shape(
    samples: Seq<i64>,
    width: int,
    rows: int,
    cell_width: int,
    cell_height: int,
    packet_index: u64,
)
    requires
        valid_half(width, rows, cell_width, cell_height),
    ensures
        encoded_half(samples, width, rows, cell_width, cell_height, packet_index).len() == width
            * rows * 4,
        forall|p: int|
            0 <= p < width * rows ==> #[trigger] encoded_half(
                samples,
                width,
                rows,
                cell_width,
                cell_height,
                packet_index,
            )[4 * p + 3] == 255,
{
    assert(width * rows >= 0) by (nonlinear_arith)
        requires
            width > 0,
            rows > 0,
    ;
    assert forall|p: int| 0 <= p < width * rows implies #[trigger] encoded_half(
        samples,
        width,
        rows,
        cell_width,
        cell_height,
        packet_index,
    )[4 * p + 3] == 255 by {
        assert((4 * p + 3) % 4 == 3);
    }
}

proof fn lemma_cell_origin(width: int, rows: int, cell_width: int, cell_height: int, k: int)
    requires
        valid_half(width, rows, cell_width, cell_height),
        0 <= k < (rows / cell_height) * (width / cell_width),
    ensures
        0 <= cell_origin(width, cell_width, cell_height, k) < width * rows,
        cell_index(width, cell_width, cell_height, cell_origin(width, cell_width, cell_height, k))
            == k,
        slot_index(width, cell_width, cell_height, cell_origin(width, cell_width, cell_height, k))
            == 0,
{
    let cols = width / cell_width;
    let crows = rows / cell_height;
    lemma_fundamental_div_mod(width, cell_width);
    lemma_fundamental_div_mod(rows, cell_height);
    assert(cols >= 1) by (nonlinear_arith)
        requires
            width == cell_width * cols,
            width > 0,
            cell_width > 0,
    ;
    let a = k / cols;
    let b = k % cols;
    lemma_fundamental_div_mod(k, cols);
    assert(0 <= a < crows) by (nonlinear_arith)
        requires
            k == cols * a + b,
            0 <= b < cols,
            0 <= k < crows * cols,
    ;
    let p = a * cell_height * width + b * cell_width;
    assert(0 <= b * cell_width < width) by (nonlinear_arith)
        requires
            0 <= b < cols,
            width == cell_width * cols,
            cell_width > 0,
    ;
    assert(p == width * (a * cell_height) + b * cell_width) by (nonlinear_arith)
        requires
            p == a * cell_height * width + b * cell_width,
    ;
    lemma_fundamental_div_mod_converse(p, width, a * cell_height, b * cell_width);
    assert(a * cell_height == cell_height * a + 0) by (nonlinear_arith);
    lemma_fundamental_div_mod_converse(a * cell_height, cell_height, a, 0);
    assert(b * cell_width == cell_width * b + 0) by (nonlinear_arith);
    lemma_fundamental_div_mod_converse(b * cell_width, cell_width, b, 0);
    assert(0 <= p < width * rows) by (nonlinear_arith)
        requires
            p == width * (a * cell_height) + b * cell_width,
            0 <= b * cell_width < width,
            0 <= a < crows,
            rows == cell_height * crows,
            cell_height > 0,
            width > 0,
    ;
}

/// The four prefix cells of an encoded half read back as the low four bits of
/// the frame counter: cell `k` is white exactly when bit `k` is set, in each
/// of its colour bytes.
pub proof fn lemma_prefix_round_trip(
    samples: Seq<i64>,
    width: int,
    rows: int,
    cell_width: int,
    cell_height: int,
    packet_index: u64,
)
    requires
        valid_half(width, rows, cell_width, cell_height),
        (rows / cell_height) * (width / cell_width) >= 4,
    ensures
        decode_prefix(
            encoded_half(samples, width, rows, cell_width, cell_height, packet_index),
            width,
            cell_width,
            cell_height,
        ) == packet_index % 16,
        forall|q: int|
            0 <= q < width * rows * 4 && q % 4 != 3 && cell_index(
                width,
                cell_width,
                cell_height,
                q / 4,
            ) < 4 ==> #[trigger] encoded_half(
                samples,
                width,
                rows,
                cell_width,
                cell_height,
                packet_index,
            )[q] == if prefix_bit(packet_index, cell_index(width, cell_width, cell_height, q / 4)) {
                255u8
            } else {
                0u8
            },
{
    let half = encoded_half(samples, width, rows, cell_width, cell_height, packet_index);
    assert forall|k: int| 0 <= k < 4 implies #[trigger] half[4 * cell_origin(
        width,
        cell_width,
        cell_height,
        k,
    )] == if prefix_bit(packet_index, k) {
        255u8
    } else {
        0u8
    } by {
        lemma_cell_origin(width, rows, cell_width, cell_height, k);
        let p = cell_origin(width, cell_width, cell_height, k);
        assert(4 * p < width * rows * 4);
        assert((4 * p) / 4 == p && (4 * p) % 4 == 0);
    }
    assert(half[4 * cell_origin(width, cell_width, cell_height, 0)] == if prefix_bit(
        packet_index,
        0,
    ) {
        255u8
    } else {
        0u8
    });
    assert(half[4 * cell_origin(width, cell_width, cell_height, 1)] == if prefix_bit(
        packet_index,
        1,
    ) {
        255u8
    } else {
        0u8
    });
    assert(half[4 * cell_origin(width, cell_width, cell_height, 2)] == if prefix_bit(
        packet_index,
        2,
    ) {
        255u8
    } else {
        0u8
    });
    assert(half[4 * cell_origin(width, cell_width, cell_height, 3)] == if prefix_bit(
        packet_index,
        3,
    ) {
        255u8
    } else {
        0u8
    });
    let b0 = (packet_index >> 0u64) & 1u64;
    let b1 = (packet_index >> 1u64) & 1u64;
    let b2 = (packet_index >> 2u64) & 1u64;
    let b3 = (packet_index >> 3u64) & 1u64;
    assert(b0 + 2 * b1 + 4 * b2 + 8 * b3 == packet_index % 16
        && b0 <= 1 && b1 <= 1 && b2 <= 1 && b3 <= 1) by (bit_vector)
        requires
            b0 == (packet_index >> 0u64) & 1u64,
            b1 == (packet_index >> 1u64) & 1u64,
            b2 == (packet_index >> 2u64) & 1u64,
            b3 == (packet_index >> 3u64) & 1u64,
    ;
    assert forall|q: int|
        0 <= q < width * rows * 4 && q % 4 != 3 && cell_index(
            width,
            cell_width,
            cell_height,
            q / 4,
        ) < 4 implies #[trigger] half[q] == if prefix_bit(
        packet_index,
        cell_index(width, cell_width, cell_height, q / 4),
    ) {
        255u8
    } else {
        0u8
    } by {
        lemma_pixel_position(width, rows, cell_width, cell_height, q / 4);
    }
}

proof fn lemma_drift_bounded(num: int, k: nat)
    requires
        16 * MIXED_ONE <= num < 255 * MIXED_ONE,
    ensures
        -MIXED_ONE < dither_sum(num, k) * MIXED_ONE - k * num <= MIXED_ONE,
    decreases k,
{
    lemma_fundamental_div_mod(num, MIXED_ONE as int);
    if k > 0 {
        lemma_drift_bounded(num, (k - 1) as nat);
        assert(k * num == (k - 1) * num + num) by (nonlinear_arith);
    }
}

proof fn lemma_saturated_sum(num: int, k: nat)
    requires
        num >= 255 * MIXED_ONE,
    ensures
        dither_sum(num, k) == 255 * k,
    decreases k,
{
    lemma_fundamental_div_mod(num, MIXED_ONE as int);
    if k > 0 {
        lemma_saturated_sum(num, (k - 1) as nat);
    }
}

/// Every dithered level lies in `[16, 255]`, whatever the sample.
pub proof fn lemma_levels_in_range(num: int, k: nat)
    ensures
        16 <= dither_level(num, k) <= 255,
{
}

/// A cell of `n` levels that carries a sample in `[-1, 1]` reads back within
/// one quantization step: the mean of its levels lies within one level of the
/// exact level `level_numerator(x) / MIXED_ONE`.
pub proof fn lemma_dither_precision(x: i64, n: nat)
    requires
        -MIXED_ONE <= x <= MIXED_ONE,
    ensures
        forall|k: nat| 16 <= #[trigger] dither_level(level_numerator(x), k) <= 255,
        -(n * MIXED_ONE) <= dither_sum(level_numerator(x), n) * MIXED_ONE - n * level_numerator(
            x,
        ) <= n * MIXED_ONE,
{
    let num = level_numerator(x);
    assert forall|k: nat| 16 <= #[trigger] dither_level(num, k) <= 255 by {
        lemma_levels_in_range(num, k);
    }
    if num < 255 * MIXED_ONE {
        lemma_drift_bounded(num, n);
        assert(n * MIXED_ONE >= 0) by (nonlinear_arith);
        if n == 0 {
        } else {
            assert(n * MIXED_ONE >= MIXED_ONE) by (nonlinear_arith)
                requires
                    n >= 1,
            ;
        }
    } else {
        lemma_saturated_sum(num, n);
        assert(-(n * MIXED_ONE) <= 255 * n * MIXED_ONE - n * num <= n * MIXED_ONE)
            by (nonlinear_arith)
            requires
                255 * MIXED_ONE <= num <= 256 * MIXED_ONE,
        ;
    }
}

} // verus!
