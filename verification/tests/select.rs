use pixelsort::color::Color;
use pixelsort::raster::Raster;
use pixelsort::select::{cut_intervals, get_intervals, selection_mask, Band};
use pixelsort::segment::Run;

fn blue(key: u16) -> Color {
    // lightness is the least channel, 0, plus the greatest
    Color { r: 0, g: 0, b: key as u8, a: 255 }
}

fn row_of_keys(keys: &[u16]) -> Raster {
    let mut data = Vec::new();
    for &key in keys {
        let c = if key <= 255 { blue(key) } else { Color { r: (key - 255) as u8, g: 255, b: 255, a: 255 } };
        data.extend_from_slice(&[c.r, c.g, c.b, c.a]);
    }
    Raster::from_raw(keys.len() as u32, 1, data).unwrap()
}

#[test]
fn default_band_runs_from_a_quarter_to_four_fifths() {
    let band = Band::default();
    assert_eq!(band, Band { low: 128, high: 408 });
    assert!(!band.selects(blue(127)));
    assert!(band.selects(blue(128)));
    assert!(band.selects(blue(255)));
    assert!(band.selects(Color { r: 153, g: 255, b: 255, a: 0 }));
    assert!(!band.selects(Color { r: 154, g: 255, b: 255, a: 0 }));
    assert!(!band.selects(Color { r: 255, g: 255, b: 255, a: 255 }));
    assert!(!band.selects(Color { r: 0, g: 0, b: 0, a: 255 }));
}

#[test]
fn band_includes_both_ends() {
    let band = Band { low: 10, high: 20 };
    assert!(!band.selects(blue(9)));
    assert!(band.selects(blue(10)));
    assert!(band.selects(blue(20)));
    assert!(!band.selects(blue(21)));
}

#[test]
fn empty_band_selects_nothing() {
    let band = Band { low: 300, high: 200 };
    assert!(!band.selects(blue(250)));
    assert!(!band.selects(blue(200)));
}

#[test]
fn selection_mask_asks_about_each_position() {
    // lightness 0.1, 0.5, 0.3, 0.9, 0.4
    let raster = row_of_keys(&[51, 255, 153, 459, 204]);
    let band = Band::default();
    let line = vec![(0, 0), (1, 0), (2, 0), (3, 0), (4, 0)];
    let mask = selection_mask(&raster, &line, &|c: Color| band.selects(c));
    assert_eq!(mask, vec![false, true, true, false, true]);
}

#[test]
fn selection_mask_follows_the_order_of_the_path() {
    let raster = row_of_keys(&[51, 255, 153, 459, 204]);
    let band = Band::default();
    let line = vec![(4, 0), (3, 0), (0, 0)];
    let mask = selection_mask(&raster, &line, &|c: Color| band.selects(c));
    assert_eq!(mask, vec![true, false, false]);
}

#[test]
fn cut_intervals_copies_each_run() {
    let line = vec![(5, 0), (6, 0), (7, 0), (8, 0), (9, 0)];
    let runs = vec![Run { start: 0, end: 2 }, Run { start: 3, end: 5 }];
    assert_eq!(cut_intervals(&line, &runs), vec![vec![(5, 0), (6, 0)], vec![(8, 0), (9, 0)]]);
    assert_eq!(cut_intervals(&line, &Vec::new()), Vec::<Vec<(u32, u32)>>::new());
}

#[test]
fn intervals_of_a_row_in_the_default_band() {
    let raster = row_of_keys(&[51, 255, 153, 459, 204]);
    let band = Band::default();
    let line = vec![(0, 0), (1, 0), (2, 0), (3, 0), (4, 0)];
    let intervals = get_intervals(&raster, line, &|c: Color| band.selects(c));
    assert_eq!(intervals, vec![vec![(1, 0), (2, 0)]]);
}

#[test]
fn intervals_of_a_uniform_white_row_are_none() {
    let raster = row_of_keys(&[510, 510, 510, 510]);
    let band = Band::default();
    let line = vec![(0, 0), (1, 0), (2, 0), (3, 0)];
    let intervals = get_intervals(&raster, line, &|c: Color| band.selects(c));
    assert_eq!(intervals, Vec::<Vec<(u32, u32)>>::new());
}

#[test]
fn intervals_follow_any_predicate() {
    let raster = row_of_keys(&[51, 255, 153, 459, 204, 10]);
    let line = vec![(0, 0), (1, 0), (2, 0), (3, 0), (4, 0), (5, 0)];
    let dark = |c: Color| c.b < 100 && c.r == 0;
    assert_eq!(get_intervals(&raster, line.clone(), &dark), Vec::<Vec<(u32, u32)>>::new());
    let any = |_c: Color| true;
    assert_eq!(get_intervals(&raster, line.clone(), &any), vec![line.clone()]);
    let opaque_blue = |c: Color| c.a == 255 && c.r == 0;
    assert_eq!(
        get_intervals(&raster, line, &opaque_blue),
        vec![vec![(0, 0), (1, 0), (2, 0)], vec![(4, 0), (5, 0)]]
    );
}

#[test]
fn intervals_of_an_empty_path_are_none() {
    let raster = row_of_keys(&[200, 200]);
    let any = |_c: Color| true;
    assert_eq!(get_intervals(&raster, Vec::new(), &any), Vec::<Vec<(u32, u32)>>::new());
}

#[test]
fn intervals_are_disjoint_and_at_least_two_long() {
    let mut keys = Vec::new();
    let mut state: u32 = 99;
    for _ in 0..300 {
        state = state.wrapping_mul(1664525).wrapping_add(1013904223);
        keys.push(((state >> 16) % 256) as u16);
    }
    let raster = row_of_keys(&keys);
    let band = Band::default();
    let line: Vec<(u32, u32)> = (0..300).map(|x| (x, 0)).collect();
    let intervals = get_intervals(&raster, line, &|c: Color| band.selects(c));
    let mut seen = std::collections::HashSet::new();
    for interval in &intervals {
        assert!(interval.len() >= 2);
        for c in interval {
            assert!(seen.insert(*c));
            assert!(band.selects(raster.get_pixel(c.0, c.1)));
        }
    }
    assert!(!intervals.is_empty());
}
