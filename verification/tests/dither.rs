use sixel_bytes::dither::{apply_palette, nearest_index, IndexRaster};
use sixel_bytes::pixel::{RasterView, Rgb};
use sixel_bytes::quant::Palette;
use sixel_bytes::status;
use sixel_bytes::{DiffusionMethod, PixelFormat, SixelError};

fn palette_of(colors: &[[u8; 3]]) -> Palette {
    Palette::new(colors.iter().map(|c| Rgb { r: c[0], g: c[1], b: c[2] }).collect()).unwrap()
}

fn indices_of(pixels: &[[u8; 3]], w: i32, h: i32, colors: &[[u8; 3]], m: DiffusionMethod) -> Vec<u8> {
    let mut bytes = Vec::new();
    for p in pixels {
        bytes.extend_from_slice(p);
    }
    let view = RasterView::new(&bytes, w, h, PixelFormat::RGB888).unwrap();
    let ix = apply_palette(&view, &palette_of(colors), m).unwrap();
    assert_eq!(ix.width(), w as usize);
    assert_eq!(ix.height(), h as usize);
    assert_eq!(ix.len(), (w * h) as usize);
    (0..ix.len()).map(|k| ix.get(k)).collect()
}

#[test]
fn two_grays_side_by_side() {
    let pixels = [[100, 100, 100], [100, 100, 100]];
    let colors = [[0, 0, 0], [255, 255, 255]];
    assert_eq!(
        indices_of(&pixels, 2, 1, &colors, DiffusionMethod::Off),
        vec![0, 0]
    );
    assert_eq!(
        indices_of(&pixels, 2, 1, &colors, DiffusionMethod::FS),
        vec![0, 1]
    );
    assert_eq!(
        indices_of(&pixels, 2, 1, &colors, DiffusionMethod::Atkinson),
        vec![0, 0]
    );
    assert_eq!(
        indices_of(&pixels, 2, 1, &colors, DiffusionMethod::JaJuNi),
        vec![0, 0]
    );
    assert_eq!(
        indices_of(&pixels, 2, 1, &colors, DiffusionMethod::Stucki),
        vec![0, 0]
    );
    assert_eq!(
        indices_of(&pixels, 2, 1, &colors, DiffusionMethod::Burkes),
        vec![0, 0]
    );
    assert_eq!(
        indices_of(&pixels, 2, 1, &colors, DiffusionMethod::Auto),
        vec![0, 0]
    );
}

#[test]
fn two_grays_one_above_the_other() {
    let pixels = [[100, 100, 100], [100, 100, 100]];
    let colors = [[0, 0, 0], [255, 255, 255]];
    assert_eq!(
        indices_of(&pixels, 1, 2, &colors, DiffusionMethod::Off),
        vec![0, 0]
    );
    assert_eq!(
        indices_of(&pixels, 1, 2, &colors, DiffusionMethod::FS),
        vec![0, 1]
    );
    assert_eq!(
        indices_of(&pixels, 1, 2, &colors, DiffusionMethod::Atkinson),
        vec![0, 0]
    );
    assert_eq!(
        indices_of(&pixels, 1, 2, &colors, DiffusionMethod::JaJuNi),
        vec![0, 0]
    );
    assert_eq!(
        indices_of(&pixels, 1, 2, &colors, DiffusionMethod::Stucki),
        vec![0, 0]
    );
    assert_eq!(
        indices_of(&pixels, 1, 2, &colors, DiffusionMethod::Burkes),
        vec![0, 0]
    );
    assert_eq!(
        indices_of(&pixels, 1, 2, &colors, DiffusionMethod::Auto),
        vec![0, 0]
    );
}

#[test]
fn negative_error_is_handed_on() {
    let pixels = [[160, 160, 160], [140, 140, 140]];
    let colors = [[0, 0, 0], [255, 255, 255]];
    assert_eq!(
        indices_of(&pixels, 2, 1, &colors, DiffusionMethod::Off),
        vec![1, 1]
    );
    assert_eq!(
        indices_of(&pixels, 2, 1, &colors, DiffusionMethod::FS),
        vec![1, 0]
    );
    assert_eq!(
        indices_of(&pixels, 2, 1, &colors, DiffusionMethod::Atkinson),
        vec![1, 1]
    );
    assert_eq!(
        indices_of(&pixels, 2, 1, &colors, DiffusionMethod::JaJuNi),
        vec![1, 0]
    );
    assert_eq!(
        indices_of(&pixels, 2, 1, &colors, DiffusionMethod::Stucki),
        vec![1, 0]
    );
    assert_eq!(
        indices_of(&pixels, 2, 1, &colors, DiffusionMethod::Burkes),
        vec![1, 0]
    );
    assert_eq!(
        indices_of(&pixels, 2, 1, &colors, DiffusionMethod::Auto),
        vec![1, 1]
    );
}

#[test]
fn row_of_three() {
    let pixels = [[120, 120, 120], [120, 120, 120], [120, 120, 120]];
    let colors = [[0, 0, 0], [255, 255, 255]];
    assert_eq!(
        indices_of(&pixels, 3, 1, &colors, DiffusionMethod::Off),
        vec![0, 0, 0]
    );
    assert_eq!(
        indices_of(&pixels, 3, 1, &colors, DiffusionMethod::FS),
        vec![0, 1, 0]
    );
    assert_eq!(
        indices_of(&pixels, 3, 1, &colors, DiffusionMethod::Atkinson),
        vec![0, 1, 0]
    );
    assert_eq!(
        indices_of(&pixels, 3, 1, &colors, DiffusionMethod::JaJuNi),
        vec![0, 1, 0]
    );
    assert_eq!(
        indices_of(&pixels, 3, 1, &colors, DiffusionMethod::Stucki),
        vec![0, 1, 0]
    );
    assert_eq!(
        indices_of(&pixels, 3, 1, &colors, DiffusionMethod::Burkes),
        vec![0, 1, 0]
    );
    assert_eq!(
        indices_of(&pixels, 3, 1, &colors, DiffusionMethod::Auto),
        vec![0, 1, 0]
    );
}

#[test]
fn gray_grid() {
    let pixels = [[100, 100, 100], [110, 110, 110], [120, 120, 120], [130, 130, 130], [140, 140, 140], [150, 150, 150], [160, 160, 160], [170, 170, 170], [60, 60, 60], [70, 70, 70], [80, 80, 80], [90, 90, 90], [200, 200, 200], [30, 30, 30], [128, 128, 128], [127, 127, 127]];
    let colors = [[0, 0, 0], [255, 255, 255]];
    assert_eq!(
        indices_of(&pixels, 4, 4, &colors, DiffusionMethod::Off),
        vec![0, 0, 0, 1, 1, 1, 1, 1, 0, 0, 0, 0, 1, 0, 1, 0]
    );
    assert_eq!(
        indices_of(&pixels, 4, 4, &colors, DiffusionMethod::FS),
        vec![0, 1, 0, 1, 1, 0, 1, 0, 0, 0, 1, 0, 1, 0, 0, 1]
    );
    assert_eq!(
        indices_of(&pixels, 4, 4, &colors, DiffusionMethod::Atkinson),
        vec![0, 0, 1, 1, 1, 1, 0, 1, 0, 0, 0, 0, 1, 0, 1, 1]
    );
    assert_eq!(
        indices_of(&pixels, 4, 4, &colors, DiffusionMethod::JaJuNi),
        vec![0, 0, 1, 0, 1, 1, 1, 1, 0, 0, 0, 0, 1, 0, 1, 0]
    );
    assert_eq!(
        indices_of(&pixels, 4, 4, &colors, DiffusionMethod::Stucki),
        vec![0, 0, 1, 0, 1, 1, 1, 1, 0, 0, 0, 0, 1, 0, 1, 0]
    );
    assert_eq!(
        indices_of(&pixels, 4, 4, &colors, DiffusionMethod::Burkes),
        vec![0, 1, 0, 1, 1, 0, 1, 1, 0, 0, 0, 0, 1, 0, 1, 1]
    );
    assert_eq!(
        indices_of(&pixels, 4, 4, &colors, DiffusionMethod::Auto),
        vec![0, 0, 1, 1, 1, 1, 0, 1, 0, 0, 0, 0, 1, 0, 1, 1]
    );
}

#[test]
fn gray_grid_three_levels() {
    let pixels = [[100, 100, 100], [110, 110, 110], [120, 120, 120], [130, 130, 130], [140, 140, 140], [150, 150, 150], [160, 160, 160], [170, 170, 170], [60, 60, 60], [70, 70, 70], [80, 80, 80], [90, 90, 90], [200, 200, 200], [30, 30, 30], [128, 128, 128]];
    let colors = [[0, 0, 0], [128, 128, 128], [255, 255, 255]];
    assert_eq!(
        indices_of(&pixels, 5, 3, &colors, DiffusionMethod::Off),
        vec![1, 1, 1, 1, 1, 1, 1, 1, 0, 1, 1, 1, 2, 0, 1]
    );
    assert_eq!(
        indices_of(&pixels, 5, 3, &colors, DiffusionMethod::FS),
        vec![1, 1, 1, 1, 1, 1, 1, 1, 1, 0, 1, 1, 1, 0, 1]
    );
    assert_eq!(
        indices_of(&pixels, 5, 3, &colors, DiffusionMethod::Atkinson),
        vec![1, 1, 1, 1, 1, 1, 1, 1, 1, 1, 1, 1, 1, 0, 1]
    );
    assert_eq!(
        indices_of(&pixels, 5, 3, &colors, DiffusionMethod::JaJuNi),
        vec![1, 1, 1, 1, 1, 1, 1, 1, 1, 1, 1, 1, 1, 0, 1]
    );
    assert_eq!(
        indices_of(&pixels, 5, 3, &colors, DiffusionMethod::Stucki),
        vec![1, 1, 1, 1, 1, 1, 1, 1, 1, 0, 1, 1, 2, 0, 1]
    );
    assert_eq!(
        indices_of(&pixels, 5, 3, &colors, DiffusionMethod::Burkes),
        vec![1, 1, 1, 1, 1, 1, 1, 1, 1, 0, 1, 1, 2, 0, 1]
    );
    assert_eq!(
        indices_of(&pixels, 5, 3, &colors, DiffusionMethod::Auto),
        vec![1, 1, 1, 1, 1, 1, 1, 1, 1, 1, 1, 1, 1, 0, 1]
    );
}

#[test]
fn color_grid() {
    let pixels = [[0, 0, 0], [37, 91, 53], [74, 182, 106], [111, 17, 159], [148, 108, 212], [185, 199, 9], [222, 34, 62], [3, 125, 115], [40, 216, 168], [77, 51, 221], [114, 142, 18], [151, 233, 71]];
    let colors = [[10, 200, 30], [250, 5, 5], [0, 0, 250], [128, 128, 0]];
    assert_eq!(
        indices_of(&pixels, 4, 3, &colors, DiffusionMethod::Off),
        vec![3, 3, 0, 2, 2, 3, 1, 0, 0, 2, 3, 3]
    );
    assert_eq!(
        indices_of(&pixels, 4, 3, &colors, DiffusionMethod::FS),
        vec![3, 3, 0, 2, 2, 3, 1, 0, 0, 2, 3, 3]
    );
    assert_eq!(
        indices_of(&pixels, 4, 3, &colors, DiffusionMethod::Atkinson),
        vec![3, 0, 0, 2, 2, 3, 1, 0, 0, 2, 3, 3]
    );
    assert_eq!(
        indices_of(&pixels, 4, 3, &colors, DiffusionMethod::JaJuNi),
        vec![3, 0, 0, 2, 2, 3, 1, 0, 0, 2, 3, 3]
    );
    assert_eq!(
        indices_of(&pixels, 4, 3, &colors, DiffusionMethod::Stucki),
        vec![3, 0, 0, 2, 2, 3, 1, 0, 0, 2, 3, 3]
    );
    assert_eq!(
        indices_of(&pixels, 4, 3, &colors, DiffusionMethod::Burkes),
        vec![3, 0, 0, 2, 2, 3, 1, 0, 0, 2, 3, 3]
    );
    assert_eq!(
        indices_of(&pixels, 4, 3, &colors, DiffusionMethod::Auto),
        vec![3, 0, 0, 2, 2, 3, 1, 0, 0, 2, 3, 3]
    );
}

#[test]
fn tall_ramp() {
    let pixels = [[3, 3, 3], [14, 14, 14], [25, 25, 25], [36, 36, 36], [47, 47, 47], [58, 58, 58], [69, 69, 69], [80, 80, 80], [91, 91, 91], [102, 102, 102], [113, 113, 113], [124, 124, 124], [135, 135, 135], [146, 146, 146], [157, 157, 157], [168, 168, 168], [179, 179, 179], [190, 190, 190], [201, 201, 201], [212, 212, 212], [223, 223, 223], [234, 234, 234], [245, 245, 245], [0, 0, 0], [11, 11, 11], [22, 22, 22], [33, 33, 33], [44, 44, 44], [55, 55, 55], [66, 66, 66], [77, 77, 77], [88, 88, 88], [99, 99, 99], [110, 110, 110], [121, 121, 121]];
    let colors = [[0, 0, 0], [64, 64, 64], [192, 192, 192], [255, 255, 255]];
    assert_eq!(
        indices_of(&pixels, 5, 7, &colors, DiffusionMethod::Off),
        vec![0, 0, 0, 1, 1, 1, 1, 1, 1, 1, 1, 1, 2, 2, 2, 2, 2, 2, 2, 2, 2, 3, 3, 0, 0, 0, 1, 1, 1, 1, 1, 1, 1, 1, 1]
    );
    assert_eq!(
        indices_of(&pixels, 5, 7, &colors, DiffusionMethod::FS),
        vec![0, 0, 0, 1, 1, 1, 1, 1, 1, 1, 1, 2, 2, 2, 2, 2, 2, 2, 2, 2, 2, 2, 3, 0, 0, 0, 1, 1, 1, 1, 1, 1, 1, 1, 2]
    );
    assert_eq!(
        indices_of(&pixels, 5, 7, &colors, DiffusionMethod::Atkinson),
        vec![0, 0, 0, 1, 1, 1, 1, 1, 1, 1, 1, 2, 2, 2, 2, 2, 2, 2, 2, 2, 3, 2, 3, 0, 0, 0, 0, 1, 1, 1, 1, 1, 1, 1, 2]
    );
    assert_eq!(
        indices_of(&pixels, 5, 7, &colors, DiffusionMethod::JaJuNi),
        vec![0, 0, 0, 1, 1, 1, 1, 1, 1, 1, 1, 2, 2, 2, 2, 2, 2, 2, 2, 2, 2, 3, 3, 0, 0, 0, 0, 1, 1, 1, 1, 1, 1, 1, 2]
    );
    assert_eq!(
        indices_of(&pixels, 5, 7, &colors, DiffusionMethod::Stucki),
        vec![0, 0, 0, 1, 1, 1, 1, 1, 1, 1, 1, 2, 2, 2, 2, 2, 2, 2, 2, 2, 2, 3, 3, 0, 0, 0, 0, 1, 1, 1, 1, 1, 1, 1, 2]
    );
    assert_eq!(
        indices_of(&pixels, 5, 7, &colors, DiffusionMethod::Burkes),
        vec![0, 0, 0, 1, 1, 1, 1, 1, 1, 1, 1, 2, 2, 2, 2, 2, 2, 2, 2, 2, 2, 3, 2, 0, 0, 0, 1, 1, 1, 1, 1, 1, 1, 1, 2]
    );
    assert_eq!(
        indices_of(&pixels, 5, 7, &colors, DiffusionMethod::Auto),
        vec![0, 0, 0, 1, 1, 1, 1, 1, 1, 1, 1, 2, 2, 2, 2, 2, 2, 2, 2, 2, 3, 2, 3, 0, 0, 0, 0, 1, 1, 1, 1, 1, 1, 1, 2]
    );
}

#[test]
fn clamped_at_both_ends() {
    let pixels = [[250, 250, 250], [250, 250, 250], [5, 5, 5], [5, 5, 5], [250, 250, 250], [5, 5, 5], [250, 250, 250], [5, 5, 5], [130, 130, 130]];
    let colors = [[100, 100, 100], [160, 160, 160]];
    assert_eq!(
        indices_of(&pixels, 3, 3, &colors, DiffusionMethod::Off),
        vec![1, 1, 0, 0, 1, 0, 1, 0, 0]
    );
    assert_eq!(
        indices_of(&pixels, 3, 3, &colors, DiffusionMethod::FS),
        vec![1, 1, 0, 0, 1, 0, 1, 0, 0]
    );
    assert_eq!(
        indices_of(&pixels, 3, 3, &colors, DiffusionMethod::Atkinson),
        vec![1, 1, 0, 0, 1, 0, 1, 0, 0]
    );
    assert_eq!(
        indices_of(&pixels, 3, 3, &colors, DiffusionMethod::JaJuNi),
        vec![1, 1, 0, 0, 1, 0, 1, 0, 0]
    );
    assert_eq!(
        indices_of(&pixels, 3, 3, &colors, DiffusionMethod::Stucki),
        vec![1, 1, 0, 0, 1, 0, 1, 0, 0]
    );
    assert_eq!(
        indices_of(&pixels, 3, 3, &colors, DiffusionMethod::Burkes),
        vec![1, 1, 0, 0, 1, 0, 1, 0, 0]
    );
    assert_eq!(
        indices_of(&pixels, 3, 3, &colors, DiffusionMethod::Auto),
        vec![1, 1, 0, 0, 1, 0, 1, 0, 0]
    );
}

#[test]
fn auto_goes_by_the_size_of_the_palette() {
    let pixels = [[5, 5, 5], [28, 28, 28], [51, 51, 51], [74, 74, 74], [97, 97, 97], [120, 120, 120], [143, 143, 143], [166, 166, 166], [189, 189, 189], [212, 212, 212], [235, 235, 235], [2, 2, 2]];
    let seventeen = [[0, 0, 0], [15, 15, 15], [30, 30, 30], [45, 45, 45], [60, 60, 60], [75, 75, 75], [90, 90, 90], [105, 105, 105], [120, 120, 120], [135, 135, 135], [150, 150, 150], [165, 165, 165], [180, 180, 180], [195, 195, 195], [210, 210, 210], [225, 225, 225], [240, 240, 240]];
    let sixteen = [[0, 0, 0], [15, 15, 15], [30, 30, 30], [45, 45, 45], [60, 60, 60], [75, 75, 75], [90, 90, 90], [105, 105, 105], [120, 120, 120], [135, 135, 135], [150, 150, 150], [165, 165, 165], [180, 180, 180], [195, 195, 195], [210, 210, 210], [225, 225, 225]];
    assert_eq!(
        indices_of(&pixels, 4, 3, &seventeen, DiffusionMethod::Auto),
        vec![0, 2, 3, 5, 7, 8, 10, 11, 12, 14, 16, 0]
    );
    assert_eq!(
        indices_of(&pixels, 4, 3, &seventeen, DiffusionMethod::FS),
        vec![0, 2, 3, 5, 7, 8, 10, 11, 12, 14, 16, 0]
    );
    assert_eq!(
        indices_of(&pixels, 4, 3, &seventeen, DiffusionMethod::Atkinson),
        vec![0, 2, 3, 5, 6, 8, 10, 11, 13, 14, 16, 0]
    );
    assert_eq!(
        indices_of(&pixels, 4, 3, &sixteen, DiffusionMethod::Auto),
        vec![0, 2, 3, 5, 6, 8, 10, 11, 13, 14, 15, 0]
    );
    assert_eq!(
        indices_of(&pixels, 4, 3, &sixteen, DiffusionMethod::FS),
        vec![0, 2, 3, 5, 7, 8, 10, 11, 12, 14, 15, 0]
    );
    assert_eq!(
        indices_of(&pixels, 4, 3, &sixteen, DiffusionMethod::Atkinson),
        vec![0, 2, 3, 5, 6, 8, 10, 11, 13, 14, 15, 0]
    );
}

#[test]
fn nearest_takes_the_first_of_equals() {
    let p = palette_of(&[[10, 10, 10], [30, 30, 30], [10, 10, 10], [50, 50, 50]]);
    assert_eq!(nearest_index(&p, Rgb { r: 10, g: 10, b: 10 }), 0);
    assert_eq!(nearest_index(&p, Rgb { r: 20, g: 20, b: 20 }), 0);
    assert_eq!(nearest_index(&p, Rgb { r: 21, g: 20, b: 20 }), 1);
    assert_eq!(nearest_index(&p, Rgb { r: 40, g: 40, b: 40 }), 1);
    assert_eq!(nearest_index(&p, Rgb { r: 41, g: 40, b: 40 }), 3);
    assert_eq!(nearest_index(&p, Rgb { r: 255, g: 0, b: 0 }), 3);
}

#[test]
fn nearest_goes_by_the_squares() {
    // from (0, 0, 0): (9, 0, 0) is at 81, (5, 5, 5) at 75
    let p = palette_of(&[[9, 0, 0], [5, 5, 5]]);
    assert_eq!(nearest_index(&p, Rgb { r: 0, g: 0, b: 0 }), 1);
    // (8, 0, 0) is at 64
    let q = palette_of(&[[8, 0, 0], [5, 5, 5]]);
    assert_eq!(nearest_index(&q, Rgb { r: 0, g: 0, b: 0 }), 0);
}

#[test]
fn empty_palette_is_refused() {
    let bytes = [1u8, 2, 3];
    let view = RasterView::new(&bytes, 1, 1, PixelFormat::RGB888).unwrap();
    let empty = Palette::new(Vec::new()).unwrap();
    match apply_palette(&view, &empty, DiffusionMethod::Off) {
        Err(SixelError::Sixel(code)) => assert_eq!(code, status::BAD_ARGUMENT),
        _ => panic!("expected BAD_ARGUMENT"),
    }
}

#[test]
fn exact_palette_maps_each_pixel_to_its_color() {
    let colors = [[1u8, 2, 3], [200, 100, 0], [0, 0, 0], [255, 255, 255]];
    let mut pixels = Vec::new();
    for i in 0..30usize {
        pixels.push(colors[(i * 7 + i / 4) % 4]);
    }
    for m in [
        DiffusionMethod::Auto,
        DiffusionMethod::Off,
        DiffusionMethod::Atkinson,
        DiffusionMethod::FS,
        DiffusionMethod::JaJuNi,
        DiffusionMethod::Stucki,
        DiffusionMethod::Burkes,
    ] {
        let ix = indices_of(&pixels, 6, 5, &colors, m);
        for (k, p) in pixels.iter().enumerate() {
            assert_eq!(colors[ix[k] as usize], *p);
        }
    }
}

#[test]
fn index_raster_takes_matching_geometry_only() {
    let ix = IndexRaster::new(3, 2, vec![0, 1, 2, 3, 4, 5]).unwrap();
    assert_eq!(ix.width(), 3);
    assert_eq!(ix.height(), 2);
    assert_eq!(ix.len(), 6);
    assert_eq!(ix.get(4), 4);
    assert_eq!(ix.at(1, 1), 4);
    assert_eq!(ix.at(2, 0), 2);
    for (w, h, n) in [(3usize, 2usize, 5usize), (3, 2, 7), (0, 2, 0), (3, 0, 0), (0, 0, 0), (2, 3, 5)] {
        match IndexRaster::new(w, h, vec![0; n]) {
            Err(SixelError::Sixel(code)) => assert_eq!(code, status::BAD_INPUT),
            _ => panic!("expected BAD_INPUT"),
        }
    }
}
