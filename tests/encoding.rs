use obs_audio_renderer::encoder::fill_texture_buffer;
use obs_audio_renderer::mixer::MIXED_ONE;
use std::collections::VecDeque;

fn pixel(buf: &[u8], p: usize) -> [u8; 4] {
    [buf[4 * p], buf[4 * p + 1], buf[4 * p + 2], buf[4 * p + 3]]
}

#[test]
fn small_half_with_prefix_samples_and_silence() {
    // 4 by 2 pixels in 1 by 1 cells: eight cells, four of them the prefix.
    let samples: VecDeque<i64> = VecDeque::from(vec![0, MIXED_ONE, -MIXED_ONE]);
    let mut buf = Vec::new();
    fill_texture_buffer(&mut buf, &samples, 3, 4, 2, 1, 1, 0b1010);
    assert_eq!(buf.len(), 4 * 2 * 4);
    assert_eq!(pixel(&buf, 0), [0, 0, 0, 255]);
    assert_eq!(pixel(&buf, 1), [255, 255, 255, 255]);
    assert_eq!(pixel(&buf, 2), [0, 0, 0, 255]);
    assert_eq!(pixel(&buf, 3), [255, 255, 255, 255]);
    assert_eq!(pixel(&buf, 4), [136, 136, 136, 255]);
    assert_eq!(pixel(&buf, 5), [255, 255, 255, 255]);
    assert_eq!(pixel(&buf, 6), [16, 16, 16, 255]);
    assert_eq!(pixel(&buf, 7), [0, 0, 0, 255]);
}

#[test]
fn count_limits_the_samples_shown() {
    let samples: VecDeque<i64> = VecDeque::from(vec![0, 0, 0]);
    let mut buf = Vec::new();
    fill_texture_buffer(&mut buf, &samples, 1, 4, 2, 1, 1, 0);
    assert_eq!(pixel(&buf, 4), [136, 136, 136, 255]);
    assert_eq!(pixel(&buf, 5), [0, 0, 0, 255]);
}

#[test]
fn fraction_is_dithered_between_neighbouring_levels() {
    // 120 * x = MIXED_ONE - 16, so the exact level is just below 137.
    let x: i64 = 35791394;
    let samples: VecDeque<i64> = VecDeque::from(vec![x]);
    let mut buf = Vec::new();
    fill_texture_buffer(&mut buf, &samples, 1, 5, 1, 1, 1, 0);
    assert_eq!(pixel(&buf, 4), [136, 137, 136, 255]);
}

#[test]
fn cells_span_several_pixels_row_major() {
    // 4 by 4 pixels in 2 by 2 cells: four cells, all of them prefix.
    let samples: VecDeque<i64> = VecDeque::new();
    let mut buf = Vec::new();
    fill_texture_buffer(&mut buf, &samples, 0, 4, 4, 2, 2, 0b0110);
    let expect = |cell: usize| if (0b0110 >> cell) & 1 == 1 { 255u8 } else { 0u8 };
    for y in 0..4 {
        for x in 0..4 {
            let cell = (y / 2) * 2 + x / 2;
            let v = expect(cell);
            assert_eq!(pixel(&buf, y * 4 + x), [v, v, v, 255]);
        }
    }
}

#[test]
fn appends_after_existing_bytes() {
    let samples: VecDeque<i64> = VecDeque::new();
    let mut buf = vec![9u8, 9u8];
    fill_texture_buffer(&mut buf, &samples, 0, 2, 2, 1, 1, 0);
    assert_eq!(buf.len(), 2 + 16);
    assert_eq!(&buf[..2], &[9, 9]);
}

#[test]
fn every_pixel_is_opaque_and_length_is_exact() {
    let samples: VecDeque<i64> = (0..500).map(|i| (i as i64 - 250) * (MIXED_ONE / 250)).collect();
    let mut buf = Vec::new();
    fill_texture_buffer(&mut buf, &samples, 500, 32, 536, 2, 2, 77);
    assert_eq!(buf.len(), 32 * 536 * 4);
    for p in 0..32 * 536 {
        assert_eq!(buf[4 * p + 3], 255);
    }
}

#[test]
fn prefix_reads_back_as_low_four_bits() {
    for packet in [0u64, 1, 5, 13, 15, 16, 0xffff_ffff_ffff_fffe] {
        let samples: VecDeque<i64> = VecDeque::new();
        let mut buf = Vec::new();
        fill_texture_buffer(&mut buf, &samples, 0, 32, 536, 2, 2, packet);
        let mut decoded = 0u64;
        for k in 0..4 {
            // first pixel of cell k: cell row 0, column k
            let b = buf[4 * (k * 2)];
            if b == 255 {
                decoded += 1 << k;
            } else {
                assert_eq!(b, 0);
            }
        }
        assert_eq!(decoded, packet % 16);
    }
}

#[test]
fn reconstruction_is_within_one_step() {
    let one = MIXED_ONE as i128;
    let xs: Vec<i64> = vec![
        -MIXED_ONE,
        MIXED_ONE,
        0,
        MIXED_ONE / 3,
        -MIXED_ONE / 7,
        MIXED_ONE - 1,
        -MIXED_ONE + 12345,
        999_999_999,
    ];
    for x in xs {
        let samples: VecDeque<i64> = VecDeque::from(vec![x]);
        let mut buf = Vec::new();
        // 10 by 2 pixels in 2 by 2 cells: the sample sits in cell 4
        fill_texture_buffer(&mut buf, &samples, 1, 10, 2, 2, 2, 0);
        let mut sum: i128 = 0;
        for y in 0..2 {
            for px in 8..10 {
                let p = pixel(&buf, y * 10 + px);
                assert_eq!(p[0], p[2]);
                for level in [p[0], p[1]] {
                    assert!((16..=255).contains(&level));
                    sum += level as i128;
                }
            }
        }
        let num = 136 * one + 120 * x as i128;
        assert!((sum * one - 8 * num).abs() <= 8 * one, "x = {}", x);
    }
}
