use mandelbrot::{band_layout, intensity, render, rows_per_band, Band, PixelBounds};

fn band(top: usize, rows: usize, width: usize) -> Band {
    Band { top, rows, start: top * width, len: rows * width }
}

#[test]
fn rows_per_band_rounds_up() {
    assert_eq!(rows_per_band(100, 4), 25);
    assert_eq!(rows_per_band(10, 3), 4);
    assert_eq!(rows_per_band(3, 8), 1);
    assert_eq!(rows_per_band(7, 1), 7);
    assert_eq!(rows_per_band(usize::MAX, 2), usize::MAX / 2 + 1);
}

#[test]
fn band_layout_cuts_whole_rows() {
    let bounds = PixelBounds { width: 5, height: 10 };
    assert_eq!(band_layout(bounds, 3), vec![band(0, 4, 5), band(4, 4, 5), band(8, 2, 5)]);
    assert_eq!(band_layout(bounds, 1), vec![band(0, 10, 5)]);
    assert_eq!(band_layout(bounds, 10), (0..10).map(|r| band(r, 1, 5)).collect::<Vec<_>>());
    let short = PixelBounds { width: 2, height: 3 };
    assert_eq!(band_layout(short, 8), vec![band(0, 1, 2), band(1, 1, 2), band(2, 1, 2)]);
    // ceiling division: 10 rows over 4 workers is 3 bands of 3 and one of 1
    assert_eq!(band_layout(bounds, 4), vec![band(0, 3, 5), band(3, 3, 5), band(6, 3, 5), band(9, 1, 5)]);
}

#[test]
fn band_layout_covers_every_byte_once() {
    for width in 1..6usize {
        for height in 1..12usize {
            for workers in 1..15usize {
                let bounds = PixelBounds { width, height };
                let bands = band_layout(bounds, workers);
                let mut writes = vec![0u32; width * height];
                let mut rows = 0;
                for b in bands.iter() {
                    assert!(b.rows > 0 && b.rows <= rows_per_band(height, workers));
                    assert_eq!(b.top, rows);
                    rows += b.rows;
                    for i in b.start..b.start + b.len {
                        writes[i] += 1;
                    }
                }
                assert_eq!(rows, height);
                assert!(writes.iter().all(|&n| n == 1));
            }
        }
    }
}

#[test]
fn intensity_brightens_early_escapes() {
    assert_eq!(intensity(None), 0);
    assert_eq!(intensity(Some(0)), 255);
    assert_eq!(intensity(Some(10)), 245);
    assert_eq!(intensity(Some(255)), 0);
}

#[test]
fn render_fills_each_pixel_from_its_coordinates() {
    let bounds = PixelBounds { width: 3, height: 2 };
    let mut pixels = vec![7u8; 6];
    render(&mut pixels, bounds, &|col: usize, row: usize| {
        if col == 2 && row == 1 { None } else { Some((col + 10 * row) as u8) }
    });
    assert_eq!(pixels, vec![255, 254, 253, 245, 244, 0]);
}

fn render_in_bands(bounds: PixelBounds, workers: usize) -> Vec<u8> {
    let sentinel = 1u8;
    let mut pixels = vec![sentinel; bounds.width * bounds.height];
    let mut rest: &mut [u8] = &mut pixels;
    for b in band_layout(bounds, workers) {
        let (head, tail) = rest.split_at_mut(b.len);
        rest = tail;
        let band_bounds = PixelBounds { width: bounds.width, height: b.rows };
        let top = b.top;
        render(head, band_bounds, &move |col: usize, row: usize| {
            let (x, y) = (col as u64, (top + row) as u64);
            let v = (x * 31 + y * y * 7 + x * y) % 300;
            if v >= 256 { None } else { Some(v as u8) }
        });
    }
    assert!(rest.is_empty());
    pixels
}

#[test]
fn any_worker_count_renders_the_same_bytes() {
    let bounds = PixelBounds { width: 13, height: 17 };
    let single = render_in_bands(bounds, 1);
    for workers in 2..=bounds.height {
        assert_eq!(render_in_bands(bounds, workers), single, "workers {}", workers);
    }
}
