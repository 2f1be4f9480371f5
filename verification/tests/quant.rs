use sixel_bytes::histogram::{count_colors, ColorCount};
use sixel_bytes::pixel::{RasterView, Rgb};
use sixel_bytes::quant::{
    make_palette, MethodForLargest, MethodForRepColor, Palette, QualityMode, HIGH_SAMPLES,
    LOW_SAMPLES, PALETTE_MAX,
};
use sixel_bytes::status;
use sixel_bytes::{PixelFormat, SixelError};

fn rgb(r: u8, g: u8, b: u8) -> Rgb {
    Rgb { r, g, b }
}

fn palette_for(
    pixels: &[[u8; 3]],
    capacity: usize,
    largest: MethodForLargest,
    rep: MethodForRepColor,
) -> Vec<Rgb> {
    let mut bytes = Vec::new();
    for p in pixels {
        bytes.extend_from_slice(p);
    }
    let view = RasterView::new(&bytes, pixels.len() as i32, 1, PixelFormat::RGB888).unwrap();
    make_palette(&view, capacity, largest, rep, QualityMode::Full).unwrap().colors()
}

#[test]
fn histogram_counts_in_order_of_first_occurrence() {
    let a = rgb(1, 1, 1);
    let b = rgb(2, 2, 2);
    let c = rgb(1, 1, 2);
    let hist = count_colors(&vec![b, a, b, c, b, a]);
    assert_eq!(
        hist,
        vec![
            ColorCount { color: b, count: 3 },
            ColorCount { color: a, count: 2 },
            ColorCount { color: c, count: 1 },
        ]
    );
    assert_eq!(count_colors(&Vec::new()), Vec::<ColorCount>::new());
}

#[test]
fn histogram_tells_channels_apart() {
    let hist = count_colors(&vec![rgb(1, 0, 0), rgb(0, 1, 0), rgb(0, 0, 1), rgb(0, 1, 0), rgb(0, 0, 0)]);
    assert_eq!(
        hist,
        vec![
            ColorCount { color: rgb(1, 0, 0), count: 1 },
            ColorCount { color: rgb(0, 1, 0), count: 2 },
            ColorCount { color: rgb(0, 0, 1), count: 1 },
            ColorCount { color: rgb(0, 0, 0), count: 1 },
        ]
    );
}

#[test]
fn few_colors_are_kept_as_they_are() {
    let pixels = [[9u8, 9, 9], [1, 2, 3], [9, 9, 9], [200, 0, 0], [1, 2, 3]];
    for capacity in [3usize, 4, 256] {
        assert_eq!(
            palette_for(&pixels, capacity, MethodForLargest::Auto, MethodForRepColor::Auto),
            vec![rgb(9, 9, 9), rgb(1, 2, 3), rgb(200, 0, 0)]
        );
    }
}

#[test]
fn capacity_must_be_within_range() {
    let bytes = [1u8, 2, 3];
    let view = RasterView::new(&bytes, 1, 1, PixelFormat::RGB888).unwrap();
    for capacity in [0usize, 257, 1000] {
        match make_palette(
            &view,
            capacity,
            MethodForLargest::Auto,
            MethodForRepColor::Auto,
            QualityMode::Auto,
        ) {
            Err(SixelError::Sixel(code)) => assert_eq!(code, status::BAD_INPUT),
            _ => panic!("expected BAD_INPUT"),
        }
    }
    for capacity in [1usize, 2, 256] {
        assert!(make_palette(
            &view,
            capacity,
            MethodForLargest::Auto,
            MethodForRepColor::Auto,
            QualityMode::Auto
        )
        .is_ok());
    }
    assert_eq!(PALETTE_MAX, 256);
}

#[test]
fn palette_holds_256_colors_at_most() {
    assert!(Palette::new(vec![rgb(0, 0, 0); 256]).is_ok());
    assert_eq!(Palette::new(vec![rgb(0, 0, 0); 256]).unwrap().len(), 256);
    match Palette::new(vec![rgb(0, 0, 0); 257]) {
        Err(SixelError::Sixel(code)) => assert_eq!(code, status::BAD_INPUT),
        _ => panic!("expected BAD_INPUT"),
    }
    let p = Palette::new(vec![rgb(1, 2, 3), rgb(4, 5, 6)]).unwrap();
    assert_eq!(p.len(), 2);
    assert_eq!(p.color(1), rgb(4, 5, 6));
    assert_eq!(p.colors(), vec![rgb(1, 2, 3), rgb(4, 5, 6)]);
}

#[test]
fn cut_at_the_median_of_the_pixels() {
    let pixels = [[0, 0, 0], [10, 0, 0], [10, 0, 0], [10, 0, 0], [200, 0, 0]];
    assert_eq!(
        palette_for(&pixels, 2, MethodForLargest::Normal, MethodForRepColor::CenterOfBox),
        vec![rgb(5, 0, 0), rgb(200, 0, 0)]
    );
    assert_eq!(
        palette_for(&pixels, 1, MethodForLargest::Normal, MethodForRepColor::CenterOfBox),
        vec![rgb(100, 0, 0)]
    );
    assert_eq!(
        palette_for(&pixels, 2, MethodForLargest::Normal, MethodForRepColor::AverageColor),
        vec![rgb(5, 0, 0), rgb(200, 0, 0)]
    );
    assert_eq!(
        palette_for(&pixels, 1, MethodForLargest::Normal, MethodForRepColor::AverageColor),
        vec![rgb(70, 0, 0)]
    );
    assert_eq!(
        palette_for(&pixels, 2, MethodForLargest::Normal, MethodForRepColor::AveragePixels),
        vec![rgb(7, 0, 0), rgb(200, 0, 0)]
    );
    assert_eq!(
        palette_for(&pixels, 1, MethodForLargest::Normal, MethodForRepColor::AveragePixels),
        vec![rgb(46, 0, 0)]
    );
    assert_eq!(
        palette_for(&pixels, 2, MethodForLargest::Auto, MethodForRepColor::Auto),
        vec![rgb(5, 0, 0), rgb(200, 0, 0)]
    );
}

#[test]
fn luminosity_weighs_the_ranges() {
    let pixels = [[0, 0, 0], [100, 10, 0], [10, 60, 0]];
    assert_eq!(
        palette_for(&pixels, 2, MethodForLargest::Normal, MethodForRepColor::CenterOfBox),
        vec![rgb(5, 30, 0), rgb(100, 10, 0)]
    );
    assert_eq!(
        palette_for(&pixels, 2, MethodForLargest::Luminosity, MethodForRepColor::CenterOfBox),
        vec![rgb(50, 5, 0), rgb(10, 60, 0)]
    );
}

#[test]
fn cut_of_forty_colors() {
    let mut pixels = Vec::new();
    for i in 0..40usize {
        let c = [((i * 7) % 256) as u8, ((i * i) % 256) as u8, ((i * 31 + 3) % 256) as u8];
        for _ in 0..(1 + (i * i) % 5) {
            pixels.push(c);
        }
    }
    assert_eq!(
        palette_for(&pixels, 2, MethodForLargest::Normal, MethodForRepColor::CenterOfBox),
        vec![rgb(56, 120, 127), rgb(185, 114, 118)]
    );
    assert_eq!(
        palette_for(&pixels, 2, MethodForLargest::Luminosity, MethodForRepColor::CenterOfBox),
        vec![rgb(126, 34, 126), rgb(124, 157, 111)]
    );
    assert_eq!(
        palette_for(&pixels, 2, MethodForLargest::Normal, MethodForRepColor::AverageColor),
        vec![rgb(49, 86, 134), rgb(185, 108, 107)]
    );
    assert_eq!(
        palette_for(&pixels, 2, MethodForLargest::Luminosity, MethodForRepColor::AverageColor),
        vec![rgb(102, 26, 128), rgb(129, 155, 114)]
    );
    assert_eq!(
        palette_for(&pixels, 2, MethodForLargest::Normal, MethodForRepColor::AveragePixels),
        vec![rgb(45, 86, 141), rgb(180, 94, 108)]
    );
    assert_eq!(
        palette_for(&pixels, 2, MethodForLargest::Luminosity, MethodForRepColor::AveragePixels),
        vec![rgb(113, 29, 127), rgb(113, 159, 121)]
    );
    assert_eq!(
        palette_for(&pixels, 3, MethodForLargest::Normal, MethodForRepColor::CenterOfBox),
        vec![rgb(42, 72, 65), rgb(185, 114, 118), rgb(61, 120, 200)]
    );
    assert_eq!(
        palette_for(&pixels, 3, MethodForLargest::Luminosity, MethodForRepColor::CenterOfBox),
        vec![rgb(59, 32, 127), rgb(124, 157, 111), rgb(189, 34, 118)]
    );
    assert_eq!(
        palette_for(&pixels, 3, MethodForLargest::Normal, MethodForRepColor::AverageColor),
        vec![rgb(36, 56, 74), rgb(185, 108, 107), rgb(61, 116, 194)]
    );
    assert_eq!(
        palette_for(&pixels, 3, MethodForLargest::Luminosity, MethodForRepColor::AverageColor),
        vec![rgb(43, 21, 127), rgb(129, 155, 114), rgb(194, 35, 130)]
    );
    assert_eq!(
        palette_for(&pixels, 3, MethodForLargest::Normal, MethodForRepColor::AveragePixels),
        vec![rgb(34, 58, 88), rgb(180, 94, 108), rgb(56, 114, 195)]
    );
    assert_eq!(
        palette_for(&pixels, 3, MethodForLargest::Luminosity, MethodForRepColor::AveragePixels),
        vec![rgb(48, 26, 131), rgb(113, 159, 121), rgb(190, 34, 123)]
    );
    assert_eq!(
        palette_for(&pixels, 5, MethodForLargest::Normal, MethodForRepColor::CenterOfBox),
        vec![rgb(14, 8, 65), rgb(185, 116, 48), rgb(61, 120, 200), rgb(182, 114, 169), rgb(43, 112, 76)]
    );
    assert_eq!(
        palette_for(&pixels, 5, MethodForLargest::Luminosity, MethodForRepColor::CenterOfBox),
        vec![rgb(56, 12, 123), rgb(120, 118, 87), rgb(189, 34, 118), rgb(131, 205, 138), rgb(80, 48, 134)]
    );
    assert_eq!(
        palette_for(&pixels, 5, MethodForLargest::Normal, MethodForRepColor::AverageColor),
        vec![rgb(14, 6, 65), rgb(189, 111, 46), rgb(61, 116, 194), rgb(182, 105, 169), rgb(59, 107, 83)]
    );
    assert_eq!(
        palette_for(&pixels, 5, MethodForLargest::Luminosity, MethodForRepColor::AverageColor),
        vec![rgb(31, 7, 103), rgb(122, 120, 88), rgb(194, 35, 130), rgb(140, 206, 153), rgb(66, 45, 169)]
    );
    assert_eq!(
        palette_for(&pixels, 5, MethodForLargest::Normal, MethodForRepColor::AveragePixels),
        vec![rgb(16, 6, 75), rgb(178, 102, 42), rgb(56, 114, 195), rgb(183, 87, 174), rgb(52, 111, 100)]
    );
    assert_eq!(
        palette_for(&pixels, 5, MethodForLargest::Luminosity, MethodForRepColor::AveragePixels),
        vec![rgb(28, 6, 98), rgb(92, 123, 101), rgb(190, 34, 123), rgb(139, 205, 146), rgb(70, 47, 166)]
    );
    assert_eq!(
        palette_for(&pixels, 16, MethodForLargest::Normal, MethodForRepColor::CenterOfBox),
        vec![rgb(7, 2, 34), rgb(122, 50, 33), rgb(42, 37, 189), rgb(178, 16, 153), rgb(73, 112, 72), rgb(161, 161, 45), rgb(50, 202, 169), rgb(175, 124, 173), rgb(241, 40, 48), rgb(24, 12, 111), rgb(84, 32, 247), rgb(224, 0, 227), rgb(3, 89, 126), rgb(101, 210, 196), rgb(185, 210, 184), rgb(241, 166, 48)]
    );
    assert_eq!(
        palette_for(&pixels, 16, MethodForLargest::Luminosity, MethodForRepColor::CenterOfBox),
        vec![rgb(7, 2, 34), rgb(40, 101, 76), rgb(178, 16, 153), rgb(119, 182, 161), rgb(80, 34, 103), rgb(185, 118, 87), rgb(147, 66, 142), rgb(217, 205, 130), rgb(47, 154, 138), rgb(70, 12, 185), rgb(238, 8, 161), rgb(85, 233, 192), rgb(56, 64, 251), rgb(21, 9, 96), rgb(49, 49, 220), rgb(231, 65, 2)]
    );
    assert_eq!(
        palette_for(&pixels, 16, MethodForLargest::Normal, MethodForRepColor::AverageColor),
        vec![rgb(7, 1, 34), rgb(122, 50, 33), rgb(42, 36, 189), rgb(178, 16, 153), rgb(73, 111, 72), rgb(169, 149, 50), rgb(39, 191, 165), rgb(173, 119, 157), rgb(241, 40, 48), rgb(24, 12, 111), rgb(84, 32, 247), rgb(224, 0, 227), rgb(3, 89, 126), rgb(101, 210, 196), rgb(185, 210, 184), rgb(241, 166, 48)]
    );
    assert_eq!(
        palette_for(&pixels, 16, MethodForLargest::Luminosity, MethodForRepColor::AverageColor),
        vec![rgb(7, 1, 34), rgb(53, 97, 74), rgb(178, 16, 153), rgb(112, 183, 157), rgb(80, 34, 103), rgb(183, 123, 82), rgb(147, 66, 142), rgb(217, 203, 110), rgb(47, 154, 138), rgb(58, 13, 176), rgb(238, 8, 161), rgb(92, 231, 191), rgb(56, 64, 251), rgb(21, 9, 96), rgb(49, 49, 220), rgb(231, 65, 2)]
    );
    assert_eq!(
        palette_for(&pixels, 16, MethodForLargest::Normal, MethodForRepColor::AveragePixels),
        vec![rgb(10, 2, 49), rgb(122, 50, 33), rgb(45, 42, 204), rgb(178, 16, 153), rgb(77, 122, 88), rgb(175, 173, 61), rgb(44, 178, 159), rgb(173, 115, 162), rgb(237, 51, 28), rgb(23, 11, 104), rgb(72, 45, 248), rgb(224, 0, 227), rgb(3, 89, 126), rgb(100, 205, 191), rgb(172, 218, 179), rgb(240, 155, 43)]
    );
    assert_eq!(
        palette_for(&pixels, 16, MethodForLargest::Luminosity, MethodForRepColor::AveragePixels),
        vec![rgb(10, 2, 49), rgb(36, 94, 91), rgb(178, 16, 153), rgb(105, 178, 155), rgb(97, 33, 66), rgb(185, 121, 78), rgb(138, 66, 102), rgb(203, 209, 102), rgb(47, 154, 138), rgb(63, 11, 179), rgb(232, 4, 189), rgb(113, 230, 181), rgb(56, 64, 251), rgb(21, 9, 96), rgb(49, 49, 220), rgb(231, 65, 2)]
    );
    assert_eq!(
        palette_for(&pixels, 39, MethodForLargest::Normal, MethodForRepColor::CenterOfBox),
        vec![rgb(0, 0, 3), rgb(119, 33, 18), rgb(35, 25, 158), rgb(196, 16, 103), rgb(63, 81, 26), rgb(175, 113, 10), rgb(10, 164, 157), rgb(203, 73, 134), rgb(231, 65, 2), rgb(21, 9, 96), rgb(112, 0, 243), rgb(224, 0, 227), rgb(3, 89, 126), rgb(98, 196, 181), rgb(154, 228, 173), rgb(238, 132, 33), rgb(91, 169, 150), rgb(126, 68, 49), rgb(161, 17, 204), rgb(84, 144, 119), rgb(189, 217, 72), rgb(14, 4, 65), rgb(49, 49, 220), rgb(189, 98, 200), rgb(17, 241, 188), rgb(252, 16, 95), rgb(28, 16, 127), rgb(56, 64, 251), rgb(217, 193, 196), rgb(77, 121, 88), rgb(133, 105, 80), rgb(147, 185, 142), rgb(7, 1, 34), rgb(42, 36, 189), rgb(70, 100, 57), rgb(182, 164, 41), rgb(140, 144, 111), rgb(105, 225, 212), rgb(245, 201, 64)]
    );
    assert_eq!(
        palette_for(&pixels, 39, MethodForLargest::Luminosity, MethodForRepColor::CenterOfBox),
        vec![rgb(0, 0, 3), rgb(3, 89, 126), rgb(196, 16, 103), rgb(91, 169, 150), rgb(42, 36, 189), rgb(133, 105, 80), rgb(126, 68, 49), rgb(189, 217, 72), rgb(10, 164, 157), rgb(28, 16, 127), rgb(252, 16, 95), rgb(17, 241, 188), rgb(56, 64, 251), rgb(21, 9, 96), rgb(49, 49, 220), rgb(231, 65, 2), rgb(140, 144, 111), rgb(70, 100, 57), rgb(161, 17, 204), rgb(84, 144, 119), rgb(98, 196, 181), rgb(14, 4, 65), rgb(192, 122, 87), rgb(245, 201, 64), rgb(154, 228, 173), rgb(63, 81, 26), rgb(119, 33, 18), rgb(168, 64, 235), rgb(224, 0, 227), rgb(112, 0, 243), rgb(203, 73, 134), rgb(147, 185, 142), rgb(238, 132, 33), rgb(7, 1, 34), rgb(35, 25, 158), rgb(105, 225, 212), rgb(182, 164, 41), rgb(77, 121, 88), rgb(217, 193, 196)]
    );
    assert_eq!(
        palette_for(&pixels, 39, MethodForLargest::Normal, MethodForRepColor::AverageColor),
        vec![rgb(0, 0, 3), rgb(119, 33, 18), rgb(35, 25, 158), rgb(196, 16, 103), rgb(63, 81, 26), rgb(175, 113, 10), rgb(10, 164, 157), rgb(203, 73, 134), rgb(231, 65, 2), rgb(21, 9, 96), rgb(112, 0, 243), rgb(224, 0, 227), rgb(3, 89, 126), rgb(98, 196, 181), rgb(154, 228, 173), rgb(238, 132, 33), rgb(91, 169, 150), rgb(126, 68, 49), rgb(161, 17, 204), rgb(84, 144, 119), rgb(189, 217, 72), rgb(14, 4, 65), rgb(49, 49, 220), rgb(189, 98, 200), rgb(17, 241, 188), rgb(252, 16, 95), rgb(28, 16, 127), rgb(56, 64, 251), rgb(217, 193, 196), rgb(77, 121, 88), rgb(133, 105, 80), rgb(147, 185, 142), rgb(7, 1, 34), rgb(42, 36, 189), rgb(70, 100, 57), rgb(182, 164, 41), rgb(140, 144, 111), rgb(105, 225, 212), rgb(245, 201, 64)]
    );
    assert_eq!(
        palette_for(&pixels, 39, MethodForLargest::Luminosity, MethodForRepColor::AverageColor),
        vec![rgb(0, 0, 3), rgb(3, 89, 126), rgb(196, 16, 103), rgb(91, 169, 150), rgb(42, 36, 189), rgb(133, 105, 80), rgb(126, 68, 49), rgb(189, 217, 72), rgb(10, 164, 157), rgb(28, 16, 127), rgb(252, 16, 95), rgb(17, 241, 188), rgb(56, 64, 251), rgb(21, 9, 96), rgb(49, 49, 220), rgb(231, 65, 2), rgb(140, 144, 111), rgb(70, 100, 57), rgb(161, 17, 204), rgb(84, 144, 119), rgb(98, 196, 181), rgb(14, 4, 65), rgb(192, 122, 87), rgb(245, 201, 64), rgb(154, 228, 173), rgb(63, 81, 26), rgb(119, 33, 18), rgb(168, 64, 235), rgb(224, 0, 227), rgb(112, 0, 243), rgb(203, 73, 134), rgb(147, 185, 142), rgb(238, 132, 33), rgb(7, 1, 34), rgb(35, 25, 158), rgb(105, 225, 212), rgb(182, 164, 41), rgb(77, 121, 88), rgb(217, 193, 196)]
    );
    assert_eq!(
        palette_for(&pixels, 39, MethodForLargest::Normal, MethodForRepColor::AveragePixels),
        vec![rgb(0, 0, 3), rgb(119, 33, 18), rgb(35, 25, 158), rgb(196, 16, 103), rgb(63, 81, 26), rgb(175, 113, 10), rgb(10, 164, 157), rgb(203, 73, 134), rgb(231, 65, 2), rgb(21, 9, 96), rgb(112, 0, 243), rgb(224, 0, 227), rgb(3, 89, 126), rgb(98, 196, 181), rgb(154, 228, 173), rgb(238, 132, 33), rgb(91, 169, 150), rgb(126, 68, 49), rgb(161, 17, 204), rgb(84, 144, 119), rgb(189, 217, 72), rgb(14, 4, 65), rgb(49, 49, 220), rgb(182, 86, 211), rgb(17, 241, 188), rgb(252, 16, 95), rgb(28, 16, 127), rgb(56, 64, 251), rgb(217, 193, 196), rgb(77, 121, 88), rgb(133, 105, 80), rgb(147, 185, 142), rgb(7, 1, 34), rgb(42, 36, 189), rgb(70, 100, 57), rgb(182, 164, 41), rgb(140, 144, 111), rgb(105, 225, 212), rgb(245, 201, 64)]
    );
    assert_eq!(
        palette_for(&pixels, 39, MethodForLargest::Luminosity, MethodForRepColor::AveragePixels),
        vec![rgb(0, 0, 3), rgb(3, 89, 126), rgb(196, 16, 103), rgb(91, 169, 150), rgb(42, 36, 189), rgb(133, 105, 80), rgb(126, 68, 49), rgb(189, 217, 72), rgb(10, 164, 157), rgb(28, 16, 127), rgb(252, 16, 95), rgb(17, 241, 188), rgb(56, 64, 251), rgb(21, 9, 96), rgb(49, 49, 220), rgb(231, 65, 2), rgb(140, 144, 111), rgb(70, 100, 57), rgb(161, 17, 204), rgb(84, 144, 119), rgb(98, 196, 181), rgb(14, 4, 65), rgb(192, 122, 87), rgb(245, 201, 64), rgb(154, 228, 173), rgb(63, 81, 26), rgb(119, 33, 18), rgb(168, 64, 235), rgb(224, 0, 227), rgb(112, 0, 243), rgb(203, 73, 134), rgb(147, 185, 142), rgb(238, 132, 33), rgb(7, 1, 34), rgb(35, 25, 158), rgb(105, 225, 212), rgb(182, 164, 41), rgb(77, 121, 88), rgb(217, 193, 196)]
    );
    assert_eq!(
        palette_for(&pixels, 40, MethodForLargest::Normal, MethodForRepColor::AveragePixels).len(),
        40
    );
}

#[test]
fn the_box_with_most_pixels_is_split_next() {
    let mut pixels = vec![[0u8, 0, 0], [0, 0, 9]];
    for _ in 0..10 {
        pixels.push([100, 0, 0]);
    }
    for _ in 0..10 {
        pixels.push([120, 0, 0]);
    }
    pixels.push([255, 0, 0]);
    assert_eq!(
        palette_for(&pixels, 2, MethodForLargest::Normal, MethodForRepColor::CenterOfBox),
        vec![rgb(50, 0, 4), rgb(187, 0, 0)]
    );
    assert_eq!(
        palette_for(&pixels, 3, MethodForLargest::Normal, MethodForRepColor::CenterOfBox),
        vec![rgb(0, 0, 4), rgb(187, 0, 0), rgb(100, 0, 0)]
    );
    assert_eq!(
        palette_for(&pixels, 4, MethodForLargest::Normal, MethodForRepColor::CenterOfBox),
        vec![rgb(0, 0, 4), rgb(120, 0, 0), rgb(100, 0, 0), rgb(255, 0, 0)]
    );
}

#[test]
fn quality_sets_the_distance_of_the_samples() {
    // 40000 pixels: an even place is black, an odd one white
    let n = 40000usize;
    assert_eq!(n / LOW_SAMPLES, 2);
    assert_eq!(n / HIGH_SAMPLES, 0);
    let mut bytes = Vec::new();
    for i in 0..n {
        bytes.push(if i % 2 == 0 { 0u8 } else { 255u8 });
    }
    let view = RasterView::new(&bytes, 200, 200, PixelFormat::G8).unwrap();
    let low = make_palette(
        &view,
        256,
        MethodForLargest::Auto,
        MethodForRepColor::Auto,
        QualityMode::Low,
    )
    .unwrap();
    assert_eq!(low.colors(), vec![rgb(0, 0, 0)]);
    for quality in [QualityMode::Auto, QualityMode::High, QualityMode::Full] {
        let all = make_palette(
            &view,
            256,
            MethodForLargest::Auto,
            MethodForRepColor::Auto,
            quality,
        )
        .unwrap();
        assert_eq!(all.colors(), vec![rgb(0, 0, 0), rgb(255, 255, 255)]);
    }
}

#[test]
fn low_quality_looks_at_every_third_pixel() {
    // 60000 pixels: the colour of a place is its place modulo 3
    let n = 60000usize;
    assert_eq!(n / LOW_SAMPLES, 3);
    let mut bytes = Vec::new();
    for i in 0..n {
        bytes.push((i % 3) as u8 * 100);
    }
    let view = RasterView::new(&bytes, 300, 200, PixelFormat::G8).unwrap();
    let low = make_palette(
        &view,
        256,
        MethodForLargest::Auto,
        MethodForRepColor::Auto,
        QualityMode::Low,
    )
    .unwrap();
    assert_eq!(low.colors(), vec![rgb(0, 0, 0)]);
}

#[test]
fn gradient_palette() {
    let mut bytes: Vec<u8> = Vec::new();
    for x in 0..255u8 {
        for y in 0..255u8 {
            bytes.push(x);
            bytes.push(0);
            bytes.push(y);
        }
    }
    let view = RasterView::new(&bytes, 255, 255, PixelFormat::RGB888).unwrap();
    let p = make_palette(
        &view,
        256,
        MethodForLargest::Auto,
        MethodForRepColor::Auto,
        QualityMode::Auto,
    )
    .unwrap()
    .colors();
    assert_eq!(p.len(), 256);
    assert_eq!(&p[..4], &[rgb(7, 0, 7), rgb(135, 0, 7), rgb(7, 0, 135), rgb(135, 0, 135)]);
    assert_eq!(&p[253..], &[rgb(247, 0, 119), rgb(119, 0, 247), rgb(247, 0, 247)]);
}
