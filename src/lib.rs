//! Turns live audio streams into a video signal and back into a frame-timed
//! buffer: several independently clocked sources are mixed sample-accurately
//! into two channel queues, stalled sources are evicted, and each frame
//! encodes the delivered samples as dithered pixel levels behind a 4-bit
//! frame counter.
//!
//! - `mixer`: mixing batches into a channel queue by absolute sample index.
//! - `health`: stall eviction and how many samples every source delivered.
//! - `encoder`: the sample-to-pixel codec.
//! - `renderer`: one instance, its settings, deliveries and render ticks.

pub mod encoder;
pub mod health;
pub mod mixer;
pub mod renderer;
