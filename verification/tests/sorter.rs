use pixelsort::color::{get_lightness, Color};
use pixelsort::raster::Raster;
use pixelsort::sorter::{sort, sort_interval, SortPixel};

fn grey(v: u8, a: u8) -> Color {
    Color { r: v, g: v, b: v, a }
}

fn row_of_colors(colors: &[Color]) -> Raster {
    let mut data = Vec::new();
    for c in colors {
        data.extend_from_slice(&[c.r, c.g, c.b, c.a]);
    }
    Raster::from_raw(colors.len() as u32, 1, data).unwrap()
}

fn row_colors(raster: &Raster) -> Vec<Color> {
    (0..raster.width()).map(|x| raster.get_pixel(x, 0)).collect()
}

fn as_sorted_bytes(colors: &[Color]) -> Vec<[u8; 4]> {
    let mut bytes: Vec<[u8; 4]> = colors.iter().map(|c| [c.r, c.g, c.b, c.a]).collect();
    bytes.sort();
    bytes
}

#[test]
fn sort_pixel_records_place_colour_and_lightness() {
    let raster = row_of_colors(&[grey(1, 255), Color { r: 10, g: 20, b: 30, a: 40 }]);
    let pixel = SortPixel::new(&raster, 1, 0);
    assert_eq!(pixel.x, 1);
    assert_eq!(pixel.y, 0);
    assert_eq!(pixel.color, Color { r: 10, g: 20, b: 30, a: 40 });
    assert_eq!(pixel.lightness, 40);
}

#[test]
fn sort_interval_orders_by_lightness() {
    let colors = [grey(9, 1), grey(200, 2), grey(50, 3), grey(120, 4), grey(0, 5)];
    let mut raster = row_of_colors(&colors);
    sort_interval(&mut raster, &vec![(1, 0), (2, 0), (3, 0)]);
    assert_eq!(
        row_colors(&raster),
        vec![grey(9, 1), grey(50, 3), grey(120, 4), grey(200, 2), grey(0, 5)]
    );
}

#[test]
fn sort_interval_writes_in_the_order_of_the_interval() {
    let colors = [grey(10, 1), grey(20, 2), grey(30, 3)];
    let mut raster = row_of_colors(&colors);
    sort_interval(&mut raster, &vec![(2, 0), (1, 0), (0, 0)]);
    assert_eq!(row_colors(&raster), vec![grey(30, 3), grey(20, 2), grey(10, 1)]);
}

#[test]
fn sort_interval_carries_alpha_with_the_colour() {
    let colors = [Color { r: 200, g: 0, b: 0, a: 7 }, Color { r: 0, g: 100, b: 0, a: 9 }];
    let mut raster = row_of_colors(&colors);
    sort_interval(&mut raster, &vec![(0, 0), (1, 0)]);
    assert_eq!(
        row_colors(&raster),
        vec![Color { r: 0, g: 100, b: 0, a: 9 }, Color { r: 200, g: 0, b: 0, a: 7 }]
    );
}

#[test]
fn sort_interval_of_nothing_changes_nothing() {
    let colors = [grey(3, 1), grey(2, 1), grey(1, 1)];
    let mut raster = row_of_colors(&colors);
    sort_interval(&mut raster, &Vec::new());
    assert_eq!(row_colors(&raster), colors.to_vec());
}

#[test]
fn sort_keeps_the_colours_of_each_interval() {
    let mut colors = Vec::new();
    let mut state: u32 = 7;
    for _ in 0..64 {
        state = state.wrapping_mul(1664525).wrapping_add(1013904223);
        let b = state.to_be_bytes();
        colors.push(Color { r: b[0], g: b[1], b: b[2] % 8, a: b[3] });
    }
    let mut raster = row_of_colors(&colors);
    let first: Vec<(u32, u32)> = (3..20).map(|x| (x, 0)).collect();
    let second: Vec<(u32, u32)> = (30..64).map(|x| (x, 0)).collect();
    sort(&mut raster, vec![first.clone(), second.clone()]);
    let after = row_colors(&raster);
    for interval in [first, second] {
        let lo = interval[0].0 as usize;
        let hi = interval[interval.len() - 1].0 as usize + 1;
        assert_eq!(as_sorted_bytes(&after[lo..hi]), as_sorted_bytes(&colors[lo..hi]));
        for pair in after[lo..hi].windows(2) {
            assert!(get_lightness(pair[0]) <= get_lightness(pair[1]));
        }
    }
    assert_eq!(after[..3], colors[..3]);
    assert_eq!(after[20..30], colors[20..30]);
}

#[test]
fn sort_with_no_interval_changes_nothing() {
    let colors = [grey(3, 1), grey(2, 1), grey(1, 1)];
    let mut raster = row_of_colors(&colors);
    sort(&mut raster, Vec::new());
    assert_eq!(row_colors(&raster), colors.to_vec());
}
