//! One renderer instance: its geometry, its source slots, the two mixed
//! channel queues and the pixel buffer, and what happens on each delivery of
//! samples and on each render tick.
use crate::encoder::{encoded_half, fill_texture_buffer, valid_half};
use crate::health::{
    deliverable, deliverable_samples, evict_stalled_sources, evicted, lemma_min_active_cursor,
    lemma_stalled_source_evicted, min_active_cursor,
};
use crate::mixer::{mix_audio_buffer, mixed_queue, truncate_front, write_start, GAIN_ONE};
use std::collections::VecDeque;
use vstd::arithmetic::div_mod::lemma_fundamental_div_mod;
use vstd::prelude::*;

verus! {

/// How many sources one renderer mixes.
pub const MAX_AUDIO_SOURCE_COUNT: usize = 4;

/// The absolute index of the first sample after a reset; cursor 0 stays free
/// to mark an inactive source.
pub const INITIAL_BASE: u64 = 1;

/// Why a geometry is refused.
#[derive(Clone, Copy, Debug, PartialEq, Eq, Structural)]
pub enum ConfigError {
    ZeroWidth,
    ZeroHeight,
    ZeroCellWidth,
    ZeroCellHeight,
    /// The height is odd, so it cannot be split into two channel halves.
    OddHeight,
    /// The cell width does not divide the width.
    WidthNotCellMultiple,
    /// The cell height does not divide half the height.
    HalfHeightNotCellMultiple,
    /// The pixel buffer would not fit in memory.
    TooLarge,
    /// A half holds fewer cells than `flush_len`.
    AreaTooSmall,
}

/// The size of the encoded surface and of its cells, and how many samples
/// every source must have delivered before a frame is emitted.
#[derive(Clone, Copy, Debug, PartialEq, Eq, Structural)]
pub struct Geometry {
    pub width: usize,
    pub height: usize,
    pub cell_width: usize,
    pub cell_height: usize,
    pub flush_len: usize,
}

/// The first check that the geometry fails, if any.
pub open spec fn geometry_error(g: Geometry) -> Option<ConfigError> {
    if g.width == 0 {
        Some(ConfigError::ZeroWidth)
    } else if g.height == 0 {
        Some(ConfigError::ZeroHeight)
    } else if g.cell_width == 0 {
        Some(ConfigError::ZeroCellWidth)
    } else if g.cell_height == 0 {
        Some(ConfigError::ZeroCellHeight)
    } else if g.height % 2 != 0 {
        Some(ConfigError::OddHeight)
    } else if g.width % g.cell_width != 0 {
        Some(ConfigError::WidthNotCellMultiple)
    } else if (g.height / 2) % g.cell_height != 0 {
        Some(ConfigError::HalfHeightNotCellMultiple)
    } else if g.width * g.height * 4 > usize::MAX {
        Some(ConfigError::TooLarge)
    } else if (g.width * g.height / 2) / (g.cell_width * g.cell_height) < g.flush_len {
        Some(ConfigError::AreaTooSmall)
    } else {
        None
    }
}

/// The geometry passes every check.
pub open spec fn valid_geometry(g: Geometry) -> bool {
    geometry_error(g) is None
}

/// Checks a geometry: positive sizes, an even height, cells that tile each
/// half exactly, a pixel buffer that fits in memory, and halves with room for
/// at least `flush_len` cells.
pub fn validate_geometry(geometry: Geometry) -> (r: Result<Geometry, ConfigError>)
    ensures
        r == match geometry_error(geometry) {
            Some(e) => Err::<Geometry, ConfigError>(e),
            None => Ok(geometry),
        },
{
    if geometry.width == 0 {
        return Err(ConfigError::ZeroWidth);
    }
    if geometry.height == 0 {
        return Err(ConfigError::ZeroHeight);
    }
    if geometry.cell_width == 0 {
        return Err(ConfigError::ZeroCellWidth);
    }
    if geometry.cell_height == 0 {
        return Err(ConfigError::ZeroCellHeight);
    }
    if geometry.height % 2 != 0 {
        return Err(ConfigError::OddHeight);
    }
    if geometry.width % geometry.cell_width != 0 {
        return Err(ConfigError::WidthNotCellMultiple);
    }
    if (geometry.height / 2) % geometry.cell_height != 0 {
        return Err(ConfigError::HalfHeightNotCellMultiple);
    }
    let area = match geometry.width.checked_mul(geometry.height) {
        Some(a) => a,
        None => {
            assert(geometry.width * geometry.height * 4 > usize::MAX) by (nonlinear_arith)
                requires
                    geometry.width * geometry.height > usize::MAX,
            ;
            return Err(ConfigError::TooLarge);
        },
    };
    if area > usize::MAX / 4 {
        return Err(ConfigError::TooLarge);
    }
    let cw = geometry.cell_width;
    let ch = geometry.cell_height;
    proof {
        lemma_fundamental_div_mod(geometry.width as int, cw as int);
        lemma_fundamental_div_mod((geometry.height / 2) as int, ch as int);
        let cols = geometry.width / cw;
        let crows = (geometry.height / 2) / ch;
        assert(cols >= 1) by (nonlinear_arith)
            requires
                geometry.width == cw * cols,
                geometry.width > 0,
                cw > 0,
        ;
        assert(crows >= 1) by (nonlinear_arith)
            requires
                geometry.height / 2 == ch * crows,
                geometry.height / 2 > 0,
                ch > 0,
        ;
        assert(cw <= geometry.width) by (nonlinear_arith)
            requires
                geometry.width == cw * cols,
                cols >= 1,
                cw > 0,
        ;
        assert(ch <= geometry.height) by (nonlinear_arith)
            requires
                geometry.height / 2 == ch * crows,
                crows >= 1,
                ch > 0,
        ;
        assert(0 < cw * ch <= area) by (nonlinear_arith)
            requires
                0 < cw <= geometry.width,
                0 < ch <= geometry.height,
                area == geometry.width * geometry.height,
        ;
    }
    if (area / 2) / (cw * ch) < geometry.flush_len {
        return Err(ConfigError::AreaTooSmall);
    }
    Ok(geometry)
}

/// One source slot: the identity of the source bound to it (empty when none
/// is) and the gain applied to its samples, in units of `GAIN_ONE`.
#[derive(Debug)]
pub struct SourceSlot {
    pub identity: String,
    pub amplifier: i32,
}

/// A renderer instance: mixes the sources bound to its slots into two
/// channel queues and encodes them, frame by frame, into its pixel buffer.
pub struct AudioRenderer {
    pub geometry: Geometry,
    pub sources: Vec<SourceSlot>,
    /// The BGRA pixels of the last emitted frame: the left channel in the
    /// top half, the right channel in the bottom half.
    pub texture_buffer: Vec<u8>,
    /// Mixed samples of the left channel; element 0 stands at
    /// `base_sample_number`.
    pub channel_left: VecDeque<i64>,
    /// Mixed samples of the right channel, aligned with the left one.
    pub channel_right: VecDeque<i64>,
    /// For each slot, the absolute index of the next sample its source will
    /// contribute; below `base_sample_number` the source is inactive.
    pub source_sample_number: Vec<u64>,
    /// The absolute index of the oldest sample still held.
    pub base_sample_number: u64,
    /// How many frames have been emitted, modulo 2^64.
    pub packet_index: u64,
}

impl AudioRenderer {
    /// The instance's invariant.
    pub open spec fn wf(&self) -> bool {
        &&& valid_geometry(self.geometry)
        &&& self.sources@.len() == MAX_AUDIO_SOURCE_COUNT
        &&& self.source_sample_number@.len() == MAX_AUDIO_SOURCE_COUNT
        &&& self.texture_buffer@.len() == self.geometry.width * self.geometry.height * 4
        &&& self.channel_left@.len() == self.channel_right@.len()
        &&& self.base_sample_number >= INITIAL_BASE
        &&& self.base_sample_number + self.channel_left@.len() <= u64::MAX
        &&& forall|i: int|
            0 <= i < MAX_AUDIO_SOURCE_COUNT && self.source_sample_number@[i]
                >= self.base_sample_number ==> #[trigger] self.source_sample_number@[i]
                <= self.base_sample_number + self.channel_left@.len()
    }

    /// The cursors after this tick's stall eviction.
    pub open spec fn cursors_after_eviction(&self) -> Seq<u64> {
        evicted(self.source_sample_number@, self.base_sample_number, self.geometry.flush_len)
    }

    /// The samples every active source has delivered, after eviction.
    pub open spec fn deliverable_now(&self) -> int {
        deliverable(self.cursors_after_eviction(), self.base_sample_number)
    }

    /// This tick emits a frame.
    pub open spec fn emits(&self) -> bool {
        self.deliverable_now() >= self.geometry.flush_len
    }

    /// The pixel buffer of the frame this tick emits.
    pub open spec fn next_frame(&self) -> Seq<u8> {
        let g = self.geometry;
        let d = self.deliverable_now();
        encoded_half(
            self.channel_left@.subrange(0, d),
            g.width as int,
            (g.height / 2) as int,
            g.cell_width as int,
            g.cell_height as int,
            self.packet_index,
        ) + encoded_half(
            self.channel_right@.subrange(0, d),
            g.width as int,
            (g.height / 2) as int,
            g.cell_width as int,
            g.cell_height as int,
            self.packet_index,
        )
    }

    /// The queue length after this tick's emission, before the length guard.
    pub open spec fn queued_after_emit(&self) -> int {
        if self.emits() {
            self.channel_left@.len() - self.deliverable_now()
        } else {
            self.channel_left@.len() as int
        }
    }

    /// The length guard fires this tick: the queues still hold
    /// `3 * flush_len` samples or more after the emission.
    pub open spec fn overflows(&self) -> bool {
        self.queued_after_emit() >= 3 * self.geometry.flush_len
    }

    /// What one render tick does, from `self` to `next`, reporting `modified`.
    pub open spec fn rendered(&self, next: &AudioRenderer, modified: bool) -> bool {
        let d = self.deliverable_now();
        let l = self.channel_left@;
        let r = self.channel_right@;
        &&& next.geometry == self.geometry
        &&& next.sources == self.sources
        &&& modified == self.emits()
        &&& next.packet_index == if self.emits() {
            (if self.packet_index == u64::MAX {
                0
            } else {
                self.packet_index + 1
            }) as u64
        } else {
            self.packet_index
        }
        &&& next.texture_buffer@ == if self.emits() {
            self.next_frame()
        } else {
            self.texture_buffer@
        }
        &&& if self.overflows() {
            &&& next.channel_left@.len() == 0
            &&& next.channel_right@.len() == 0
            &&& next.source_sample_number@ == Seq::new(
                MAX_AUDIO_SOURCE_COUNT as nat,
                |i: int| 0u64,
            )
            &&& next.base_sample_number == INITIAL_BASE
        } else if self.emits() {
            &&& next.channel_left@ == l.subrange(d, l.len() as int)
            &&& next.channel_right@ == r.subrange(d, r.len() as int)
            &&& next.source_sample_number@ == self.cursors_after_eviction()
            &&& next.base_sample_number == self.base_sample_number + d
        } else {
            &&& next.channel_left@ == l
            &&& next.channel_right@ == r
            &&& next.source_sample_number@ == self.cursors_after_eviction()
            &&& next.base_sample_number == self.base_sample_number
        }
    }
}

/// A cursor of 0 for every slot.
fn inactive_cursors() -> (r: Vec<u64>)
    ensures
        r@ == Seq::new(MAX_AUDIO_SOURCE_COUNT as nat, |i: int| 0u64),
{
    let mut r: Vec<u64> = Vec::new();
    let mut i: usize = 0;
    while i < MAX_AUDIO_SOURCE_COUNT
        invariant
            i <= MAX_AUDIO_SOURCE_COUNT,
            r@ == Seq::new(i as nat, |j: int| 0u64),
        decreases MAX_AUDIO_SOURCE_COUNT - i,
    {
        r.push(0);
        i += 1;
        assert(r@ =~= Seq::new(i as nat, |j: int| 0u64));
    }
    r
}

impl AudioRenderer {
    /// One render tick: evicts stalled sources; when every active source has
    /// delivered `flush_len` samples or more, encodes exactly that many from
    /// each channel into a new frame, retires them from both queues and
    /// advances the base and the frame counter; then, when the queues still
    /// hold `3 * flush_len` samples or more, drops them all and resets every
    /// cursor and the base. Returns whether a new frame was emitted.
    pub fn video_render(&mut self) -> (modified: bool)
        requires
            old(self).wf(),
        ensures
            final(self).wf(),
            old(self).rendered(final(self), modified),
    {
        let ghost before = *self;
        let base = self.base_sample_number;
        let flush_len = self.geometry.flush_len;
        evict_stalled_sources(&mut self.source_sample_number, base, flush_len);
        let d = deliverable_samples(&self.source_sample_number, base);
        proof {
            let c = self.source_sample_number@;
            lemma_min_active_cursor(c, base);
            assert(d <= self.channel_left@.len()) by {
                match min_active_cursor(c, base) {
                    None => {},
                    Some(m) => {
                        let i = choose|i: int| 0 <= i < c.len() && c[i] == m;
                        assert(before.source_sample_number@[i] == m);
                    },
                }
            }
        }
        let mut modified = false;
        if d as u128 >= flush_len as u128 {
            let width = self.geometry.width;
            let rows = self.geometry.height / 2;
            let cell_width = self.geometry.cell_width;
            let cell_height = self.geometry.cell_height;
            proof {
                let g = self.geometry;
                lemma_fundamental_div_mod(g.height as int, 2);
                assert(g.width * g.height == 2 * (width * rows)) by (nonlinear_arith)
                    requires
                        g.height == 2 * rows,
                        g.width == width,
                ;
                assert(valid_half(width as int, rows as int, cell_width as int, cell_height as int));
            }
            // the queue's length fits in usize, and `d` is at most that length
            let queued = self.channel_left.len();
            assert(d <= queued);
            let count = d as usize;
            let mut pixels: Vec<u8> = Vec::new();
            fill_texture_buffer(
                &mut pixels,
                &self.channel_left,
                count,
                width,
                rows,
                cell_width,
                cell_height,
                self.packet_index,
            );
            assert(pixels@ =~= Seq::<u8>::empty() + encoded_half(
                self.channel_left@.subrange(0, d as int),
                width as int,
                rows as int,
                cell_width as int,
                cell_height as int,
                self.packet_index,
            ));
            fill_texture_buffer(
                &mut pixels,
                &self.channel_right,
                count,
                width,
                rows,
                cell_width,
                cell_height,
                self.packet_index,
            );
            self.texture_buffer = pixels;
            truncate_front(&mut self.channel_left, count);
            truncate_front(&mut self.channel_right, count);
            self.base_sample_number = base + d;
            self.packet_index = self.packet_index.wrapping_add(1);
            modified = true;
        }
        if self.channel_left.len() as u128 >= 3 * (flush_len as u128) {
            self.channel_left.clear();
            self.channel_right.clear();
            self.source_sample_number = inactive_cursors();
            self.base_sample_number = INITIAL_BASE;
        }
        modified
    }
}

/// The two queues and the cursors after the first `k` slots have taken a
/// delivery of `left` and `right` from the source `id`: each slot bound to
/// `id`, in order, mixes both batches in at its cursor, scaled by its gain,
/// and moves its cursor past them.
pub open spec fn after_slots(
    queues: (Seq<i64>, Seq<i64>),
    cursors: Seq<u64>,
    base: u64,
    sources: Seq<SourceSlot>,
    id: Seq<char>,
    left: Seq<i32>,
    right: Seq<i32>,
    k: nat,
) -> (Seq<i64>, Seq<i64>, Seq<u64>)
    decreases k,
{
    if k == 0 {
        (queues.0, queues.1, cursors)
    } else {
        let prev = after_slots(queues, cursors, base, sources, id, left, right, (k - 1) as nat);
        let slot = sources[k - 1];
        if slot.identity@ == id {
            let start = write_start(prev.0.len(), prev.2[k - 1], base);
            (
                mixed_queue(prev.0, left, slot.amplifier, start - base),
                mixed_queue(prev.1, right, slot.amplifier, start - base),
                prev.2.update(k - 1, (start + left.len()) as u64),
            )
        } else {
            prev
        }
    }
}

impl AudioRenderer {
    /// Mixes one delivery of the source `source_id` into every slot bound to
    /// it. `planes` holds one batch per channel, all of one length: a mono
    /// delivery goes to both channels, of a wider one the first two planes
    /// are used, and a delivery without planes changes nothing.
    pub fn dispatch(&mut self, source_id: &String, planes: &Vec<Vec<i32>>)
        requires
            old(self).wf(),
            planes@.len() >= 2 ==> planes@[0]@.len() == planes@[1]@.len(),
            planes@.len() >= 1 ==> old(self).base_sample_number + old(self).channel_left@.len()
                + MAX_AUDIO_SOURCE_COUNT * planes@[0]@.len() <= u64::MAX,
        ensures
            final(self).wf(),
            final(self).geometry == old(self).geometry,
            final(self).sources == old(self).sources,
            final(self).texture_buffer == old(self).texture_buffer,
            final(self).base_sample_number == old(self).base_sample_number,
            final(self).packet_index == old(self).packet_index,
            planes@.len() == 0 ==> {
                &&& final(self).channel_left@ == old(self).channel_left@
                &&& final(self).channel_right@ == old(self).channel_right@
                &&& final(self).source_sample_number@ == old(self).source_sample_number@
            },
            planes@.len() >= 1 ==> (
            final(self).channel_left@,
            final(self).channel_right@,
            final(self).source_sample_number@,
            ) == after_slots(
                (old(self).channel_left@, old(self).channel_right@),
                old(self).source_sample_number@,
                old(self).base_sample_number,
                old(self).sources@,
                source_id@,
                planes@[0]@,
                planes@[if planes@.len() >= 2 {
                    1int
                } else {
                    0int
                }]@,
                MAX_AUDIO_SOURCE_COUNT as nat,
            ),
    {
        if planes.len() == 0 {
            return;
        }
        let left = planes[0].as_slice();
        let right = if planes.len() >= 2 {
            planes[1].as_slice()
        } else {
            planes[0].as_slice()
        };
        let n = left.len();
        let base = self.base_sample_number;
        let ghost q0 = (self.channel_left@, self.channel_right@);
        let ghost c0 = self.source_sample_number@;
        let mut i: usize = 0;
        while i < MAX_AUDIO_SOURCE_COUNT
            invariant
                i <= MAX_AUDIO_SOURCE_COUNT,
                self.wf(),
                self.geometry == old(self).geometry,
                self.sources == old(self).sources,
                self.texture_buffer == old(self).texture_buffer,
                self.base_sample_number == base == old(self).base_sample_number,
                self.packet_index == old(self).packet_index,
                q0 == (old(self).channel_left@, old(self).channel_right@),
                c0 == old(self).source_sample_number@,
                left@ == planes@[0]@,
                right@.len() == n == left@.len(),
                self.channel_left@.len() <= q0.0.len() + i * n,
                base + q0.0.len() + MAX_AUDIO_SOURCE_COUNT * n <= u64::MAX,
                (self.channel_left@, self.channel_right@, self.source_sample_number@)
                    == after_slots(q0, c0, base, self.sources@, source_id@, left@, right@, i as nat),
            decreases MAX_AUDIO_SOURCE_COUNT - i,
        {
            if self.sources[i].identity == *source_id {
                let amplifier = self.sources[i].amplifier;
                let cursor = self.source_sample_number[i];
                let ghost old_len = self.channel_left@.len();
                proof {
                    assert(base + self.channel_left@.len() + n <= u64::MAX) by (nonlinear_arith)
                        requires
                            self.channel_left@.len() <= q0.0.len() + i * n,
                            base + q0.0.len() + MAX_AUDIO_SOURCE_COUNT * n <= u64::MAX,
                            i < MAX_AUDIO_SOURCE_COUNT,
                    ;
                }
                let next = mix_audio_buffer(&mut self.channel_left, left, amplifier, cursor, base);
                mix_audio_buffer(&mut self.channel_right, right, amplifier, cursor, base);
                self.source_sample_number.set(i, next);
                proof {
                    assert(self.channel_left@.len() <= q0.0.len() + (i + 1) * n) by (nonlinear_arith)
                        requires
                            self.channel_left@.len() <= old_len + n,
                            old_len <= q0.0.len() + i * n,
                    ;
                }
            }
            assert(i * n <= (i + 1) * n) by (nonlinear_arith);
            i += 1;
        }
    }
}

/// `n` zero bytes.
fn zeroed_pixels(n: usize) -> (r: Vec<u8>)
    ensures
        r@ == Seq::new(n as nat, |i: int| 0u8),
{
    let mut r: Vec<u8> = Vec::new();
    let mut i: usize = 0;
    while i < n
        invariant
            i <= n,
            r@ == Seq::new(i as nat, |j: int| 0u8),
        decreases n - i,
    {
        r.push(0);
        i += 1;
        assert(r@ =~= Seq::new(i as nat, |j: int| 0u8));
    }
    r
}

/// The geometry a renderer starts with: 32 by 1072 pixels in 2 by 2 cells,
/// emitting once 2400 samples have been delivered.
pub open spec fn default_geometry() -> Geometry {
    Geometry { width: 32, height: 1072, cell_width: 2, cell_height: 2, flush_len: 2400 }
}

impl AudioRenderer {
    /// A renderer with the default geometry, no source bound (every identity
    /// empty, every gain `1.0`), a black pixel buffer and empty queues.
    pub fn new() -> (r: AudioRenderer)
        ensures
            r.wf(),
            r.geometry == default_geometry(),
            forall|i: int|
                0 <= i < MAX_AUDIO_SOURCE_COUNT ==> (#[trigger] r.sources@[i]).identity@.len() == 0
                    && r.sources@[i].amplifier == GAIN_ONE,
            r.texture_buffer@ == Seq::new((32 * 1072 * 4) as nat, |i: int| 0u8),
            r.channel_left@.len() == 0,
            r.channel_right@.len() == 0,
            r.source_sample_number@ == Seq::new(MAX_AUDIO_SOURCE_COUNT as nat, |i: int| 0u64),
            r.base_sample_number == INITIAL_BASE,
            r.packet_index == 0,
    {
        let geometry = Geometry {
            width: 32,
            height: 1072,
            cell_width: 2,
            cell_height: 2,
            flush_len: 2400,
        };
        assert(32 * 1072 * 4 == 137216 && (32 * 1072 / 2) / (2 * 2) == 4288) by (nonlinear_arith);
        assert(geometry_error(geometry) is None);
        let mut sources: Vec<SourceSlot> = Vec::new();
        let mut i: usize = 0;
        while i < MAX_AUDIO_SOURCE_COUNT
            invariant
                i <= MAX_AUDIO_SOURCE_COUNT,
                sources@.len() == i,
                forall|j: int|
                    0 <= j < i ==> (#[trigger] sources@[j]).identity@.len() == 0
                        && sources@[j].amplifier == GAIN_ONE,
            decreases MAX_AUDIO_SOURCE_COUNT - i,
        {
            sources.push(SourceSlot { identity: String::new(), amplifier: GAIN_ONE });
            i += 1;
        }
        AudioRenderer {
            geometry,
            sources,
            texture_buffer: zeroed_pixels(32 * 1072 * 4),
            channel_left: VecDeque::new(),
            channel_right: VecDeque::new(),
            source_sample_number: inactive_cursors(),
            base_sample_number: INITIAL_BASE,
            packet_index: 0,
        }
    }

    /// Applies new settings. A geometry that fails a check is refused with
    /// the first check it fails, and the renderer is left as it was.
    /// Otherwise the renderer takes the geometry and the source slots, gets a
    /// black pixel buffer of the new size, drops every queued sample, and
    /// resets every cursor and the base; the frame counter runs on.
    pub fn filter_update(&mut self, geometry: Geometry, sources: Vec<SourceSlot>) -> (r: Result<
        (),
        ConfigError,
    >)
        requires
            old(self).wf(),
            sources@.len() == MAX_AUDIO_SOURCE_COUNT,
        ensures
            final(self).wf(),
            match geometry_error(geometry) {
                Some(e) => r == Err::<(), ConfigError>(e) && *final(self) == *old(self),
                None => {
                    &&& r is Ok
                    &&& final(self).geometry == geometry
                    &&& final(self).sources == sources
                    &&& final(self).texture_buffer@ == Seq::new(
                        (geometry.width * geometry.height * 4) as nat,
                        |i: int| 0u8,
                    )
                    &&& final(self).channel_left@.len() == 0
                    &&& final(self).channel_right@.len() == 0
                    &&& final(self).source_sample_number@ == Seq::new(
                        MAX_AUDIO_SOURCE_COUNT as nat,
                        |i: int| 0u64,
                    )
                    &&& final(self).base_sample_number == INITIAL_BASE
                    &&& final(self).packet_index == old(self).packet_index
                },
            },
    {
        match validate_geometry(geometry) {
            Err(e) => Err(e),
            Ok(g) => {
                let size = g.width * g.height * 4;
                self.geometry = g;
                self.sources = sources;
                self.texture_buffer = zeroed_pixels(size);
                self.channel_left.clear();
                self.channel_right.clear();
                self.source_sample_number = inactive_cursors();
                self.base_sample_number = INITIAL_BASE;
                Ok(())
            },
        }
    }
}

/// A tick at which every active source has delivered `flush_len` samples or
/// more emits exactly one frame: the frame counter steps once, the base
/// advances by exactly the delivered count, and both queues shrink by that
/// count (unless the queues still overflow afterwards, when the length guard
/// resets them).
pub proof fn lemma_flush_emits_one_frame(
    before: AudioRenderer,
    after: AudioRenderer,
    modified: bool,
)
    requires
        before.wf(),
        before.rendered(&after, modified),
        before.deliverable_now() >= before.geometry.flush_len,
        !before.overflows(),
    ensures
        modified,
        after.packet_index == (if before.packet_index == u64::MAX {
            0
        } else {
            before.packet_index + 1
        }),
        after.base_sample_number == before.base_sample_number + before.deliverable_now(),
        after.channel_left@.len() == before.channel_left@.len() - before.deliverable_now(),
        after.channel_right@.len() == before.channel_right@.len() - before.deliverable_now(),
        after.texture_buffer@ == before.next_frame(),
{
    let c = before.cursors_after_eviction();
    let base = before.base_sample_number;
    lemma_min_active_cursor(c, base);
    match min_active_cursor(c, base) {
        None => {},
        Some(m) => {
            let i = choose|i: int| 0 <= i < c.len() && c[i] == m;
            assert(before.source_sample_number@[i] == m);
        },
    }
}

/// A source whose cursor stays at the base while another source has run
/// `3 * flush_len` samples past it is dropped (its cursor becomes 0) by the
/// next tick.
pub proof fn lemma_tick_evicts_stalled_source(
    before: AudioRenderer,
    after: AudioRenderer,
    modified: bool,
    stalled: int,
    ahead: int,
)
    requires
        before.wf(),
        before.rendered(&after, modified),
        0 <= stalled < MAX_AUDIO_SOURCE_COUNT,
        0 <= ahead < MAX_AUDIO_SOURCE_COUNT,
        before.source_sample_number@[stalled] == before.base_sample_number,
        before.source_sample_number@[ahead] >= before.base_sample_number + 3
            * before.geometry.flush_len,
    ensures
        after.source_sample_number@[stalled] == 0,
{
    lemma_stalled_source_evicted(
        before.source_sample_number@,
        before.base_sample_number,
        before.geometry.flush_len,
        stalled,
        ahead,
    );
}

} // verus!
