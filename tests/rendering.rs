use obs_audio_renderer::mixer::GAIN_ONE;
use obs_audio_renderer::renderer::{
    validate_geometry, AudioRenderer, ConfigError, Geometry, SourceSlot, INITIAL_BASE,
    MAX_AUDIO_SOURCE_COUNT,
};

fn geometry(width: usize, height: usize, cell_width: usize, cell_height: usize, flush_len: usize) -> Geometry {
    Geometry { width, height, cell_width, cell_height, flush_len }
}

fn slots(ids: &[&str]) -> Vec<SourceSlot> {
    (0..MAX_AUDIO_SOURCE_COUNT)
        .map(|i| SourceSlot {
            identity: ids.get(i).map(|s| s.to_string()).unwrap_or_default(),
            amplifier: GAIN_ONE,
        })
        .collect()
}

fn renderer(ids: &[&str]) -> AudioRenderer {
    let mut r = AudioRenderer::new();
    assert_eq!(r.filter_update(geometry(32, 1072, 2, 2, 2400), slots(ids)), Ok(()));
    r
}

fn mono(n: usize, v: i32) -> Vec<Vec<i32>> {
    vec![vec![v; n]]
}

#[test]
fn new_renderer_has_default_state() {
    let r = AudioRenderer::new();
    assert_eq!(r.geometry, geometry(32, 1072, 2, 2, 2400));
    assert_eq!(r.texture_buffer.len(), 32 * 1072 * 4);
    assert!(r.texture_buffer.iter().all(|b| *b == 0));
    assert_eq!(r.base_sample_number, INITIAL_BASE);
    assert_eq!(r.packet_index, 0);
    assert_eq!(r.source_sample_number, vec![0; MAX_AUDIO_SOURCE_COUNT]);
    assert!(r.sources.iter().all(|s| s.identity.is_empty() && s.amplifier == GAIN_ONE));
}

#[test]
fn two_silent_mono_sources_emit_one_midpoint_frame() {
    let mut r = renderer(&["a", "b"]);
    r.dispatch(&"a".to_string(), &mono(2400, 0));
    r.dispatch(&"b".to_string(), &mono(2400, 0));
    assert_eq!(r.source_sample_number[0], INITIAL_BASE + 2400);
    assert_eq!(r.source_sample_number[1], INITIAL_BASE + 2400);
    assert!(r.video_render());
    assert_eq!(r.base_sample_number, INITIAL_BASE + 2400);
    assert_eq!(r.packet_index, 1);
    assert!(r.channel_left.is_empty() && r.channel_right.is_empty());
    let half = r.texture_buffer.len() / 2;
    assert_eq!(&r.texture_buffer[..half], &r.texture_buffer[half..]);
    // 16 cells per cell row; the first four are the prefix of frame 0
    for y in 0..536 {
        for x in 0..32 {
            let cell = (y / 2) * 16 + x / 2;
            let p = 4 * (y * 32 + x);
            let px = &r.texture_buffer[p..p + 4];
            let v = if cell < 4 {
                0
            } else if cell - 4 < 2400 {
                136
            } else {
                0
            };
            assert_eq!(px, &[v, v, v, 255]);
        }
    }
}

#[test]
fn not_enough_samples_keeps_the_frame() {
    let mut r = renderer(&["a"]);
    r.dispatch(&"a".to_string(), &mono(2399, 100));
    let before = r.texture_buffer.clone();
    assert!(!r.video_render());
    assert_eq!(r.texture_buffer, before);
    assert_eq!(r.base_sample_number, INITIAL_BASE);
    assert_eq!(r.packet_index, 0);
    assert_eq!(r.channel_left.len(), 2399);
}

#[test]
fn inactive_bound_source_is_evicted_and_mixing_goes_on() {
    let mut r = renderer(&["a", "b"]);
    // "b" joins with an empty batch, which puts its cursor at the base
    r.dispatch(&"b".to_string(), &mono(0, 0));
    assert_eq!(r.source_sample_number[1], INITIAL_BASE);
    r.dispatch(&"a".to_string(), &mono(2400, 0));
    // "b" holds the frame back while "a" is less than three windows ahead
    assert!(!r.video_render());
    assert_eq!(r.source_sample_number[1], INITIAL_BASE);
    r.dispatch(&"a".to_string(), &mono(4800, 0));
    assert!(r.video_render());
    assert_eq!(r.source_sample_number[1], 0);
    assert_eq!(r.base_sample_number, INITIAL_BASE + 7200);
    assert_eq!(r.packet_index, 1);
    r.dispatch(&"a".to_string(), &mono(2400, 0));
    assert!(r.video_render());
    assert_eq!(r.base_sample_number, INITIAL_BASE + 9600);
    assert_eq!(r.packet_index, 2);
    assert_eq!(r.source_sample_number[1], 0);
}

#[test]
fn stall_check_keeps_sources_that_delivered() {
    let mut r = renderer(&["a", "b"]);
    r.dispatch(&"b".to_string(), &mono(2400, 0));
    r.dispatch(&"a".to_string(), &mono(7300, 0));
    assert!(r.video_render());
    assert_eq!(r.source_sample_number[1], INITIAL_BASE + 2400);
    assert_eq!(r.base_sample_number, INITIAL_BASE + 2400);
    assert_eq!(r.channel_left.len(), 4900);
}

#[test]
fn overlong_queue_is_reset() {
    let mut r = renderer(&["a", "b"]);
    r.dispatch(&"b".to_string(), &mono(2400, 0));
    r.dispatch(&"a".to_string(), &mono(9600, 0));
    assert!(r.video_render());
    assert_eq!(r.packet_index, 1);
    assert!(r.channel_left.is_empty() && r.channel_right.is_empty());
    assert_eq!(r.source_sample_number, vec![0; MAX_AUDIO_SOURCE_COUNT]);
    assert_eq!(r.base_sample_number, INITIAL_BASE);
}

#[test]
fn stereo_planes_go_to_their_channels() {
    let mut r = renderer(&["a"]);
    r.dispatch(&"a".to_string(), &vec![vec![1, 2], vec![3, 4], vec![5, 6]]);
    let g = GAIN_ONE as i64;
    assert_eq!(r.channel_left.iter().copied().collect::<Vec<_>>(), vec![g, 2 * g]);
    assert_eq!(r.channel_right.iter().copied().collect::<Vec<_>>(), vec![3 * g, 4 * g]);
}

#[test]
fn mono_plane_goes_to_both_channels() {
    let mut r = renderer(&["a"]);
    r.dispatch(&"a".to_string(), &vec![vec![7, -7]]);
    assert_eq!(r.channel_left, r.channel_right);
    assert_eq!(r.channel_left.len(), 2);
}

#[test]
fn delivery_without_planes_or_unknown_source_changes_nothing() {
    let mut r = renderer(&["a"]);
    r.dispatch(&"a".to_string(), &vec![]);
    r.dispatch(&"zzz".to_string(), &mono(5, 1));
    assert!(r.channel_left.is_empty());
    assert_eq!(r.source_sample_number, vec![0; MAX_AUDIO_SOURCE_COUNT]);
}

#[test]
fn gain_scales_and_sources_add() {
    let mut ids = slots(&["a", "b"]);
    ids[1].amplifier = 2 * GAIN_ONE;
    let mut r = AudioRenderer::new();
    assert_eq!(r.filter_update(geometry(32, 1072, 2, 2, 2400), ids), Ok(()));
    r.dispatch(&"a".to_string(), &mono(3, 10));
    r.dispatch(&"b".to_string(), &mono(2, 1));
    let g = GAIN_ONE as i64;
    assert_eq!(r.channel_left.iter().copied().collect::<Vec<_>>(), vec![12 * g, 12 * g, 10 * g]);
}

#[test]
fn source_bound_to_two_slots_mixes_twice() {
    let mut r = renderer(&["a", "a"]);
    r.dispatch(&"a".to_string(), &mono(2, 1));
    let g = GAIN_ONE as i64;
    assert_eq!(r.channel_left.iter().copied().collect::<Vec<_>>(), vec![2 * g, 2 * g]);
    assert_eq!(r.source_sample_number[0], INITIAL_BASE + 2);
    assert_eq!(r.source_sample_number[1], INITIAL_BASE + 2);
}

#[test]
fn refused_update_leaves_renderer_unchanged() {
    let mut r = renderer(&["a"]);
    r.dispatch(&"a".to_string(), &mono(5, 1));
    assert_eq!(
        r.filter_update(geometry(32, 1071, 2, 2, 2400), slots(&["b"])),
        Err(ConfigError::OddHeight)
    );
    assert_eq!(r.geometry, geometry(32, 1072, 2, 2, 2400));
    assert_eq!(r.sources[0].identity, "a");
    assert_eq!(r.channel_left.len(), 5);
}

#[test]
fn accepted_update_resizes_and_resets() {
    let mut r = renderer(&["a"]);
    r.dispatch(&"a".to_string(), &mono(5, 1));
    assert_eq!(r.filter_update(geometry(8, 4, 2, 2, 2), slots(&["b"])), Ok(()));
    assert_eq!(r.texture_buffer, vec![0u8; 8 * 4 * 4]);
    assert!(r.channel_left.is_empty());
    assert_eq!(r.source_sample_number, vec![0; MAX_AUDIO_SOURCE_COUNT]);
    assert_eq!(r.base_sample_number, INITIAL_BASE);
    assert_eq!(r.sources[0].identity, "b");
}

#[test]
fn geometry_errors_in_order() {
    assert_eq!(validate_geometry(geometry(0, 2, 1, 1, 1)), Err(ConfigError::ZeroWidth));
    assert_eq!(validate_geometry(geometry(2, 0, 1, 1, 1)), Err(ConfigError::ZeroHeight));
    assert_eq!(validate_geometry(geometry(2, 2, 0, 1, 1)), Err(ConfigError::ZeroCellWidth));
    assert_eq!(validate_geometry(geometry(2, 2, 1, 0, 1)), Err(ConfigError::ZeroCellHeight));
    assert_eq!(validate_geometry(geometry(2, 3, 1, 1, 1)), Err(ConfigError::OddHeight));
    assert_eq!(validate_geometry(geometry(3, 2, 2, 1, 1)), Err(ConfigError::WidthNotCellMultiple));
    assert_eq!(
        validate_geometry(geometry(2, 6, 1, 2, 1)),
        Err(ConfigError::HalfHeightNotCellMultiple)
    );
    assert_eq!(
        validate_geometry(geometry(usize::MAX, 2, 1, 1, 1)),
        Err(ConfigError::TooLarge)
    );
    assert_eq!(
        validate_geometry(geometry(1 << 31, 1 << 31, 1, 1, 1)),
        Err(ConfigError::TooLarge)
    );
    assert_eq!(validate_geometry(geometry(4, 4, 2, 2, 3)), Err(ConfigError::AreaTooSmall));
    assert_eq!(validate_geometry(geometry(4, 4, 2, 2, 2)), Ok(geometry(4, 4, 2, 2, 2)));
    assert_eq!(
        validate_geometry(geometry(32, 1072, 2, 2, 4288)),
        Ok(geometry(32, 1072, 2, 2, 4288))
    );
    assert_eq!(
        validate_geometry(geometry(32, 1072, 2, 2, 4289)),
        Err(ConfigError::AreaTooSmall)
    );
}

#[test]
fn frame_counter_prefix_follows_packet_index() {
    let mut r = renderer(&["a"]);
    for frame in 0..3u64 {
        r.dispatch(&"a".to_string(), &mono(2400, 0));
        assert!(r.video_render());
        for k in 0..4usize {
            let b = r.texture_buffer[4 * (2 * k)];
            let bit = (frame >> k) & 1 == 1;
            assert_eq!(b, if bit { 255 } else { 0 });
        }
    }
    assert_eq!(r.packet_index, 3);
}
