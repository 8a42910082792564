use raytracer::tiling::{frame_len, plan_bands, render_band, worker_count, RowBand};

fn band(start: usize, end: usize) -> RowBand {
    RowBand { start, end }
}

fn coord_shade(x: usize, y: usize) -> [u8; 4] {
    [x as u8, y as u8, (x * 7 + y * 3) as u8, 255]
}

fn render_with_workers(width: usize, height: usize, workers: usize) -> Vec<u8> {
    let mut frame = vec![0u8; frame_len(width, height).unwrap()];
    let bands = plan_bands(height, workers);
    let mut rest: &mut [u8] = &mut frame;
    for b in bands.iter() {
        let (chunk, tail) = rest.split_at_mut(b.byte_len(width));
        render_band(chunk, *b, width, &coord_shade);
        rest = tail;
    }
    assert!(rest.is_empty());
    frame
}

#[test]
fn worker_count_uses_hint_and_caps_at_rows() {
    assert_eq!(worker_count(Some(8), 720), 8);
    assert_eq!(worker_count(Some(8), 3), 3);
    assert_eq!(worker_count(None, 720), 1);
    assert_eq!(worker_count(Some(0), 720), 1);
    assert_eq!(worker_count(Some(4), 0), 1);
}

#[test]
fn plan_gives_one_band_per_worker_last_absorbs_remainder() {
    assert_eq!(plan_bands(10, 3), vec![band(0, 3), band(3, 6), band(6, 10)]);
    assert_eq!(plan_bands(9, 3), vec![band(0, 3), band(3, 6), band(6, 9)]);
    assert_eq!(plan_bands(5, 4), vec![band(0, 1), band(1, 2), band(2, 3), band(3, 5)]);
    let big = plan_bands(720, 8);
    assert_eq!(big.len(), 8);
    assert_eq!(big[0], band(0, 90));
    assert_eq!(big[7], band(630, 720));
    let odd = plan_bands(721, 8);
    assert_eq!(odd[6], band(540, 630));
    assert_eq!(odd[7], band(630, 721));
}

#[test]
fn plan_never_has_more_bands_than_rows() {
    assert_eq!(plan_bands(3, 8), vec![band(0, 1), band(1, 2), band(2, 3)]);
    assert_eq!(plan_bands(3, 3), vec![band(0, 1), band(1, 2), band(2, 3)]);
}

#[test]
fn plan_of_empty_image_is_empty() {
    assert!(plan_bands(0, 4).is_empty());
}

#[test]
fn single_worker_gets_whole_image() {
    assert_eq!(plan_bands(7, 1), vec![band(0, 7)]);
}

#[test]
fn frame_len_counts_rgba_bytes() {
    assert_eq!(frame_len(1280, 720), Some(1280 * 720 * 4));
    assert_eq!(frame_len(0, 10), Some(0));
    assert_eq!(frame_len(usize::MAX, 2), None);
    assert_eq!(frame_len(usize::MAX / 2, 1), None);
}

#[test]
fn byte_len_of_band() {
    assert_eq!(band(4, 8).byte_len(10), 160);
    assert_eq!(band(3, 3).byte_len(10), 0);
}

#[test]
fn render_band_writes_each_pixel_in_row_major_order() {
    let mut chunk = vec![0u8; 2 * 3 * 4];
    render_band(&mut chunk, band(5, 7), 3, &coord_shade);
    let mut expected = Vec::new();
    for y in 5..7 {
        for x in 0..3 {
            expected.extend_from_slice(&coord_shade(x, y));
        }
    }
    assert_eq!(chunk, expected);
}

#[test]
fn frame_is_identical_for_any_worker_count() {
    let one = render_with_workers(13, 11, 1);
    for workers in 2..=16 {
        assert_eq!(render_with_workers(13, 11, workers), one);
    }
    assert_eq!(one[0..4], coord_shade(0, 0));
    let last = (10 * 13 + 12) * 4;
    assert_eq!(one[last..last + 4], coord_shade(12, 10));
}

#[test]
fn every_row_lies_in_exactly_one_band() {
    for height in 0..40usize {
        for workers in 1..12usize {
            let bands = plan_bands(height, workers);
            assert_eq!(bands.len(), workers.min(height));
            for row in 0..height {
                let owners = bands.iter().filter(|b| b.start <= row && row < b.end).count();
                assert_eq!(owners, 1);
            }
            for pair in bands.windows(2) {
                assert_eq!(pair[0].end, pair[1].start);
            }
            if let Some(last) = bands.last() {
                assert_eq!(bands[0].start, 0);
                assert_eq!(last.end, height);
            }
        }
    }
}
