use pixelsort::color::{get_lightness, Color};
use pixelsort::direction::SortType;
use pixelsort::engine::{
    opposite_corners,
    sort_columns,
    sort_image,
    sort_image_in_band,
    sort_line,
    sort_path,
    sort_rows,
};
use pixelsort::error::SortError;
use pixelsort::raster::Raster;
use pixelsort::select::Band;

fn shade(key: u16) -> Color {
    // a colour whose lightness is `key`, with an alpha that tells colours apart
    if key <= 255 {
        Color { r: 0, g: 0, b: key as u8, a: (key % 251) as u8 }
    } else {
        Color { r: (key - 255) as u8, g: 255, b: 255, a: (key % 251) as u8 }
    }
}

fn raster_of_keys(width: u32, height: u32, keys: &[u16]) -> Raster {
    assert_eq!(keys.len() as u32, width * height);
    let mut data = Vec::new();
    for &key in keys {
        let c = shade(key);
        data.extend_from_slice(&[c.r, c.g, c.b, c.a]);
    }
    Raster::from_raw(width, height, data).unwrap()
}

fn keys_of(raster: &Raster) -> Vec<u16> {
    let mut keys = Vec::new();
    for y in 0..raster.height() {
        for x in 0..raster.width() {
            let c = raster.get_pixel(x, y);
            assert_eq!(c, shade(get_lightness(c)));
            keys.push(get_lightness(c));
        }
    }
    keys
}

fn noise(width: u32, height: u32, seed: u32) -> Vec<u16> {
    let mut state = seed;
    let mut keys = Vec::new();
    for _ in 0..width * height {
        state = state.wrapping_mul(1664525).wrapping_add(1013904223);
        keys.push(((state >> 16) % 511) as u16);
    }
    keys
}

fn in_band(band: Band) -> impl Fn(Color) -> bool {
    move |c: Color| band.selects(c)
}

// Sorts the runs of `keys` that lie in the band, the plain way.
fn sorted_runs(keys: &[u16], band: Band) -> Vec<u16> {
    let mut out = keys.to_vec();
    let inside = |k: u16| band.low <= k && k <= band.high;
    let mut i = 0;
    while i < out.len() {
        if inside(out[i]) {
            let mut j = i;
            while j < out.len() && inside(out[j]) {
                j += 1;
            }
            out[i..j].sort();
            i = j;
        } else {
            i += 1;
        }
    }
    out
}

#[test]
fn row_with_one_run_and_one_lone_pixel() {
    // lightness 0.1, 0.5, 0.3, 0.9, 0.4 in the band from 0.25 to 0.8
    let mut raster = raster_of_keys(5, 1, &[51, 255, 153, 459, 204]);
    let done = sort_image_in_band(&mut raster, SortType::HorizontalLR, None, Band::default());
    assert_eq!(done, Ok(()));
    assert_eq!(keys_of(&raster), vec![51, 153, 255, 459, 204]);
}

#[test]
fn uniform_white_row_is_unchanged() {
    let white = Color { r: 255, g: 255, b: 255, a: 255 };
    let mut data = Vec::new();
    for _ in 0..6 {
        data.extend_from_slice(&[white.r, white.g, white.b, white.a]);
    }
    let mut raster = Raster::from_raw(6, 1, data.clone()).unwrap();
    let done = sort_image_in_band(&mut raster, SortType::HorizontalLR, None, Band::default());
    assert_eq!(done, Ok(()));
    assert_eq!(raster.into_raw(), data);
}

#[test]
fn rows_are_sorted_each_on_its_own() {
    let keys = [
        300, 200, 150, 0, 400, 380, //
        0, 0, 0, 0, 0, 0, //
        408, 128, 127, 409, 300, 129,
    ];
    let mut raster = raster_of_keys(6, 3, &keys);
    sort_rows(&mut raster, &in_band(Band::default()));
    let expected = [
        150, 200, 300, 0, 380, 400, //
        0, 0, 0, 0, 0, 0, //
        128, 408, 127, 409, 129, 300,
    ];
    assert_eq!(keys_of(&raster), expected.to_vec());
}

#[test]
fn columns_are_sorted_top_to_bottom() {
    let keys = [
        300, 0, 408, //
        200, 0, 128, //
        150, 0, 127, //
        0, 0, 409, //
        400, 0, 300, //
        380, 0, 129,
    ];
    let mut raster = raster_of_keys(3, 6, &keys);
    sort_columns(&mut raster, &in_band(Band::default()));
    let expected = [
        150, 0, 128, //
        200, 0, 408, //
        300, 0, 127, //
        0, 0, 409, //
        380, 0, 129, //
        400, 0, 300,
    ];
    assert_eq!(keys_of(&raster), expected.to_vec());
}

#[test]
fn backward_rows_sort_from_right_to_left() {
    let mut raster = raster_of_keys(5, 1, &[51, 153, 255, 459, 204]);
    let done = sort_image_in_band(&mut raster, SortType::HorizontalRL, None, Band::default());
    assert_eq!(done, Ok(()));
    assert_eq!(keys_of(&raster), vec![51, 255, 153, 459, 204]);
}

#[test]
fn backward_rows_keep_each_row_in_its_place() {
    let keys = [
        130, 140, 150, //
        0, 300, 200,
    ];
    let mut raster = raster_of_keys(3, 2, &keys);
    let done = sort_image_in_band(&mut raster, SortType::HorizontalRL, None, Band::default());
    assert_eq!(done, Ok(()));
    let expected = [
        150, 140, 130, //
        0, 300, 200,
    ];
    assert_eq!(keys_of(&raster), expected.to_vec());
}

#[test]
fn backward_columns_sort_from_bottom_to_top() {
    let keys = [
        130, 0, //
        140, 200, //
        150, 300,
    ];
    let mut raster = raster_of_keys(2, 3, &keys);
    let done = sort_image_in_band(&mut raster, SortType::VerticalDU, None, Band::default());
    assert_eq!(done, Ok(()));
    let expected = [
        150, 0, //
        140, 300, //
        130, 200,
    ];
    assert_eq!(keys_of(&raster), expected.to_vec());
}

#[test]
fn forward_columns_through_sort_image() {
    let keys = [
        150, 0, //
        140, 300, //
        130, 200,
    ];
    let mut raster = raster_of_keys(2, 3, &keys);
    let done = sort_image(&mut raster, SortType::VerticalUD, None, &in_band(Band::default()));
    assert_eq!(done, Ok(()));
    let expected = [
        130, 0, //
        140, 200, //
        150, 300,
    ];
    assert_eq!(keys_of(&raster), expected.to_vec());
}

#[test]
fn bezier_changes_nothing() {
    let keys = noise(7, 5, 3);
    let mut raster = raster_of_keys(7, 5, &keys);
    let done = sort_image_in_band(&mut raster, SortType::Bezier, None, Band::default());
    assert_eq!(done, Ok(()));
    assert_eq!(keys_of(&raster), keys);
}

#[test]
fn line_sorts_along_the_diagonal() {
    let keys = [
        300, 1, 2, //
        3, 200, 4, //
        5, 6, 150,
    ];
    let mut raster = raster_of_keys(3, 3, &keys);
    let ends = Some(((0, 0), (2, 2)));
    let done = sort_image_in_band(&mut raster, SortType::Line, ends, Band::default());
    assert_eq!(done, Ok(()));
    let expected = [
        150, 1, 2, //
        3, 200, 4, //
        5, 6, 300,
    ];
    assert_eq!(keys_of(&raster), expected.to_vec());
}

#[test]
fn line_follows_its_direction() {
    let keys = [
        300, 1, 2, //
        3, 200, 4, //
        5, 6, 150,
    ];
    let mut raster = raster_of_keys(3, 3, &keys);
    let done = sort_line(&mut raster, (2, 2), (0, 0), &in_band(Band::default()));
    assert_eq!(done, Ok(()));
    assert_eq!(keys_of(&raster), keys.to_vec());
}

#[test]
fn line_from_corner_to_corner_of_a_wide_raster() {
    let keys = noise(5, 3, 11);
    let mut raster = raster_of_keys(5, 3, &keys);
    let all = |_c: Color| true;
    let done = sort_line(&mut raster, (0, 0), (4, 2), &all);
    assert_eq!(done, Ok(()));
    let path = [(0u32, 0u32), (1, 0), (2, 1), (3, 1), (4, 2)];
    let after = keys_of(&raster);
    let mut on_path: Vec<u16> = path.iter().map(|&(x, y)| keys[(y * 5 + x) as usize]).collect();
    on_path.sort();
    for (i, &(x, y)) in path.iter().enumerate() {
        assert_eq!(after[(y * 5 + x) as usize], on_path[i]);
    }
    for y in 0..3u32 {
        for x in 0..5u32 {
            if !path.contains(&(x, y)) {
                assert_eq!(after[(y * 5 + x) as usize], keys[(y * 5 + x) as usize]);
            }
        }
    }
}

#[test]
fn line_needs_endpoints_inside_the_raster() {
    let keys = noise(4, 3, 5);
    let band = Band::default();
    let outside = [
        Some(((0, 0), (4, 2))),
        Some(((0, 0), (3, 3))),
        Some(((4, 0), (0, 0))),
        Some(((0, 3), (0, 0))),
        Some(((u32::MAX, 0), (0, 0))),
        None,
    ];
    for ends in outside {
        let mut raster = raster_of_keys(4, 3, &keys);
        let done = sort_image_in_band(&mut raster, SortType::Line, ends, band);
        assert_eq!(done, Err(SortError::InvalidEndpoint));
        assert_eq!(keys_of(&raster), keys);
    }
    let mut raster = raster_of_keys(4, 3, &keys);
    let inside = Some(((3, 2), (0, 0)));
    assert_eq!(sort_image_in_band(&mut raster, SortType::Line, inside, band), Ok(()));
}

#[test]
fn line_in_an_empty_raster_has_no_endpoint() {
    let mut raster = Raster::from_raw(0, 0, Vec::new()).unwrap();
    let ends = Some(((0, 0), (0, 0)));
    let done = sort_image_in_band(&mut raster, SortType::Line, ends, Band::default());
    assert_eq!(done, Err(SortError::InvalidEndpoint));
}

#[test]
fn endpoints_are_ignored_off_the_line() {
    let mut raster = raster_of_keys(3, 1, &[300, 200, 150]);
    let ends = Some(((9, 9), (10, 10)));
    let done = sort_image_in_band(&mut raster, SortType::HorizontalLR, ends, Band::default());
    assert_eq!(done, Ok(()));
    assert_eq!(keys_of(&raster), vec![150, 200, 300]);
}

#[test]
fn sort_path_sorts_the_runs_of_any_path() {
    let keys = [
        300, 0, 200, //
        0, 150, 0,
    ];
    let mut raster = raster_of_keys(3, 2, &keys);
    let path = vec![(0, 0), (2, 0), (1, 1), (1, 0)];
    sort_path(&mut raster, path, &in_band(Band::default()));
    let expected = [
        150, 0, 200, //
        0, 300, 0,
    ];
    assert_eq!(keys_of(&raster), expected.to_vec());
}

#[test]
fn pass_over_rows_matches_a_plain_sort_of_each_run() {
    let band = Band { low: 100, high: 350 };
    let (width, height) = (37u32, 11u32);
    let keys = noise(width, height, 2024);
    let mut raster = raster_of_keys(width, height, &keys);
    assert_eq!(sort_image_in_band(&mut raster, SortType::HorizontalLR, None, band), Ok(()));
    let after = keys_of(&raster);
    for y in 0..height as usize {
        let w = width as usize;
        assert_eq!(after[y * w..(y + 1) * w], sorted_runs(&keys[y * w..(y + 1) * w], band)[..]);
    }
}

#[test]
fn pass_over_columns_matches_a_plain_sort_of_each_run() {
    let band = Band { low: 100, high: 350 };
    let (width, height) = (9u32, 23u32);
    let keys = noise(width, height, 77);
    let mut raster = raster_of_keys(width, height, &keys);
    assert_eq!(sort_image_in_band(&mut raster, SortType::VerticalUD, None, band), Ok(()));
    let after = keys_of(&raster);
    for x in 0..width as usize {
        let column: Vec<u16> = (0..height as usize).map(|y| keys[y * width as usize + x]).collect();
        let sorted: Vec<u16> = (0..height as usize).map(|y| after[y * width as usize + x]).collect();
        assert_eq!(sorted, sorted_runs(&column, band));
    }
}

#[test]
fn backward_pass_is_the_forward_pass_on_the_turned_raster() {
    let band = Band::default();
    let (width, height) = (13u32, 6u32);
    let keys = noise(width, height, 5150);
    for (backward, forward) in [
        (SortType::HorizontalRL, SortType::HorizontalLR),
        (SortType::VerticalDU, SortType::VerticalUD),
    ] {
        let mut raster = raster_of_keys(width, height, &keys);
        assert_eq!(sort_image_in_band(&mut raster, backward, None, band), Ok(()));
        let mut turned = raster_of_keys(width, height, &keys).rotate180();
        assert_eq!(sort_image_in_band(&mut turned, forward, None, band), Ok(()));
        assert_eq!(keys_of(&raster), keys_of(&turned.rotate180()));
    }
}

#[test]
fn pixels_outside_every_interval_stay() {
    let band = Band::default();
    let (width, height) = (20u32, 4u32);
    let keys = noise(width, height, 31337);
    let mut raster = raster_of_keys(width, height, &keys);
    assert_eq!(sort_image_in_band(&mut raster, SortType::HorizontalLR, None, band), Ok(()));
    let after = keys_of(&raster);
    let inside = |k: u16| band.low <= k && k <= band.high;
    let w = width as usize;
    for y in 0..height as usize {
        for x in 0..w {
            let here = inside(keys[y * w + x]);
            let left = x > 0 && inside(keys[y * w + x - 1]);
            let right = x + 1 < w && inside(keys[y * w + x + 1]);
            if !(here && (left || right)) {
                assert_eq!(after[y * w + x], keys[y * w + x]);
            }
        }
    }
}

#[test]
fn closure_and_band_select_alike() {
    let band = Band { low: 50, high: 450 };
    let keys = noise(16, 3, 8);
    let mut by_band = raster_of_keys(16, 3, &keys);
    let mut by_closure = raster_of_keys(16, 3, &keys);
    assert_eq!(sort_image_in_band(&mut by_band, SortType::HorizontalLR, None, band), Ok(()));
    let predicate = |c: Color| {
        let key = get_lightness(c);
        key >= 50 && key <= 450
    };
    assert_eq!(sort_image(&mut by_closure, SortType::HorizontalLR, None, &predicate), Ok(()));
    assert_eq!(keys_of(&by_band), keys_of(&by_closure));
}

#[test]
fn empty_raster_passes_in_every_direction() {
    for sort_type in [
        SortType::HorizontalLR,
        SortType::HorizontalRL,
        SortType::VerticalUD,
        SortType::VerticalDU,
        SortType::Bezier,
    ] {
        let mut raster = Raster::from_raw(0, 3, Vec::new()).unwrap();
        assert_eq!(sort_image_in_band(&mut raster, sort_type, None, Band::default()), Ok(()));
        assert_eq!(raster.width(), 0);
        assert_eq!(raster.height(), 3);
    }
}

#[test]
fn opposite_corners_span_the_raster() {
    assert_eq!(opposite_corners(5, 3), Some(((0, 0), (4, 2))));
    assert_eq!(opposite_corners(1, 1), Some(((0, 0), (0, 0))));
    assert_eq!(opposite_corners(0, 3), None);
    assert_eq!(opposite_corners(3, 0), None);
    assert_eq!(opposite_corners(u32::MAX, u32::MAX), Some(((0, 0), (u32::MAX - 1, u32::MAX - 1))));
}

#[test]
fn line_between_opposite_corners_is_always_usable() {
    let keys = noise(6, 4, 1);
    let mut raster = raster_of_keys(6, 4, &keys);
    let ends = opposite_corners(raster.width(), raster.height());
    assert_eq!(sort_image_in_band(&mut raster, SortType::Line, ends, Band::default()), Ok(()));
}
