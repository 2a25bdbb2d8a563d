use voice::config::{MEL_BINS, TIME_FRAMES};
use voice::layout::{
    activation_shape, ceil_sqrt, chunk_bounds, fit_time_axis, gather_rows, grid_layout, ActivationShape,
};

#[test]
fn fit_truncates_long_spectrograms() {
    let frames = 200;
    let data: Vec<u32> = (0..(2 * frames) as u32).collect();
    let out = fit_time_axis(&data, 2, frames, 9999);
    assert_eq!(out.len(), 2 * TIME_FRAMES);
    for r in 0..2 {
        for t in 0..TIME_FRAMES {
            assert_eq!(out[r * TIME_FRAMES + t], data[r * frames + t]);
        }
    }
}

#[test]
fn fit_pads_short_spectrograms() {
    let frames = 3;
    let data: Vec<i64> = (0..(MEL_BINS * frames) as i64).collect();
    let out = fit_time_axis(&data, MEL_BINS, frames, -1);
    assert_eq!(out.len(), MEL_BINS * TIME_FRAMES);
    assert_eq!(out[0], 0);
    assert_eq!(out[2], 2);
    assert_eq!(out[3], -1);
    assert_eq!(out[TIME_FRAMES], 3);
    assert_eq!(out[TIME_FRAMES + 5], -1);
    assert_eq!(out[79 * TIME_FRAMES + 2], (79 * 3 + 2) as i64);
}

#[test]
fn fit_repeats_a_single_row() {
    let data = vec![7u8, 8u8];
    let out = fit_time_axis(&data, 1, 2, 0);
    assert_eq!(out.len(), MEL_BINS * TIME_FRAMES);
    for r in 0..MEL_BINS {
        assert_eq!(out[r * TIME_FRAMES], 7);
        assert_eq!(out[r * TIME_FRAMES + 1], 8);
        assert_eq!(out[r * TIME_FRAMES + 2], 0);
    }
}

#[test]
fn fit_keeps_fixed_size_spectrograms() {
    let data: Vec<u32> = (0..(MEL_BINS * TIME_FRAMES) as u32).collect();
    assert_eq!(fit_time_axis(&data, MEL_BINS, TIME_FRAMES, 0), data);
    let once = fit_time_axis(&data[..MEL_BINS * 10], MEL_BINS, 10, 0);
    assert_eq!(fit_time_axis(&once, MEL_BINS, TIME_FRAMES, 0), once);
}

#[test]
fn chunk_bounds_cover_items() {
    assert_eq!(chunk_bounds(10, 4), vec![(0, 4), (4, 8), (8, 10)]);
    assert_eq!(chunk_bounds(8, 4), vec![(0, 4), (4, 8)]);
    assert_eq!(chunk_bounds(0, 4), Vec::<(usize, usize)>::new());
    assert_eq!(chunk_bounds(3, 256), vec![(0, 3)]);
    assert_eq!(chunk_bounds(513, 256).len(), 3);
}

#[test]
fn gather_rows_concatenates_selection() {
    let data: Vec<u16> = (0..12).collect();
    assert_eq!(gather_rows(&data, 3, &[2, 0]), vec![6, 7, 8, 0, 1, 2]);
    assert_eq!(gather_rows(&data, 1, &[11, 5]), vec![11, 5]);
    assert_eq!(gather_rows(&data, 3, &[]), Vec::<u16>::new());
}

#[test]
fn activation_shapes() {
    let s = ActivationShape { channels: 32, height: 40, width: 92 };
    assert_eq!(activation_shape(&[1, 32, 40, 92]), Some(s));
    assert_eq!(activation_shape(&[32, 40, 92]), Some(s));
    assert_eq!(activation_shape(&[2, 32, 40, 92]), None);
    assert_eq!(activation_shape(&[40, 92]), None);
    assert_eq!(activation_shape(&[]), None);
}

#[test]
fn ceil_sqrt_values() {
    let expected = [(0, 0), (1, 1), (2, 2), (4, 2), (5, 3), (32, 6), (64, 8), (128, 12), (1_000_000, 1000)];
    for (n, c) in expected {
        assert_eq!(ceil_sqrt(n), c);
    }
}

#[test]
fn grid_layout_geometry() {
    let g = grid_layout(32, 40, 92, 1).unwrap();
    assert_eq!(g.cols, 6);
    assert_eq!(g.rows, 6);
    assert_eq!(g.width, 6 * 92 + 7);
    assert_eq!(g.height, 6 * 40 + 7);
    assert_eq!(g.cell_origin(0), (1, 1));
    assert_eq!(g.cell_origin(7), (1 + 93, 1 + 41));
    assert_eq!(g.cell_origin(31), (1 + 93, 1 + 5 * 41));
    let g = grid_layout(128, 10, 23, 2).unwrap();
    assert_eq!((g.cols, g.rows), (12, 11));
    assert_eq!(g.width, 12 * 23 + 13 * 2);
    assert_eq!(grid_layout(0, 10, 10, 1), None);
    assert_eq!(grid_layout(4, usize::MAX, 1, 1), None);
}

#[test]
fn grid_cells_inside_and_disjoint() {
    for (channels, h, w, pad) in [(32, 40, 93, 1), (64, 20, 46, 2), (128, 10, 23, 1), (5, 3, 4, 0)] {
        let g = grid_layout(channels, h, w, pad).unwrap();
        let cells: Vec<(usize, usize)> = (0..channels).map(|c| g.cell_origin(c)).collect();
        for (a, &(xa, ya)) in cells.iter().enumerate() {
            assert!(xa + w <= g.width && ya + h <= g.height);
            for &(xb, yb) in cells.iter().skip(a + 1) {
                assert!(xa + w <= xb || xb + w <= xa || ya + h <= yb || yb + h <= ya);
            }
        }
    }
}
