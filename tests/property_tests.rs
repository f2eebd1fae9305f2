use pixtra::canvas::{Canvas, Island, Point};
use pixtra::pixels::Pixel;
use pixtra::utility::{
    clamp, count_colors, diff, diff_debug, diff_squared, error, from_grey, max, min, overlap_colors,
    to_grey_average, to_grey_lightness, to_grey_lumiosity, to_grey_mean,
};

fn numbered(width: u32, height: u32) -> Canvas {
    let mut data = Vec::new();
    for i in 0..(width * height) {
        data.push(Pixel::new(i as u8, (i / 7) as u8, 3, 255));
    }
    Canvas::new_with_data(width, height, data)
}

fn all_pixels(c: &Canvas) -> Vec<Pixel> {
    c.iter()
}

#[test]
fn rotate_four_times_restores_buffers() {
    for (w, h) in [(1, 1), (3, 1), (1, 4), (3, 3), (4, 4), (5, 3), (2, 7), (6, 4)] {
        let start = numbered(w, h);
        let turned = start.duplicate().rotate90().rotate90().rotate90().rotate90();
        assert_eq!(turned, start);
        assert_eq!(turned.dimensions(), start.dimensions());
    }
}

#[test]
fn rotate90_turns_clockwise() {
    let a = Pixel::new(1, 0, 0, 255);
    let b = Pixel::new(2, 0, 0, 255);
    let c = Pixel::new(3, 0, 0, 255);
    let row = Canvas::new_with_data(3, 1, vec![a, b, c]);
    let column = row.rotate90();
    assert_eq!(column.dimensions().width, 1);
    assert_eq!(column.dimensions().height, 3);
    assert_eq!(all_pixels(&column), vec![a, b, c]);

    let square = numbered(3, 3);
    let turned = square.duplicate().rotate90();
    for x in 0..3 {
        for y in 0..3 {
            assert_eq!(turned.get_pixel(x, y), square.get_pixel(y, 2 - x));
        }
    }
    let mut in_place = square.duplicate();
    in_place.rotate270_mut();
    assert_eq!(in_place, square.duplicate().rotate90().rotate90().rotate90());
    let mut half = square.duplicate();
    half.rotate180_mut();
    assert_eq!(half, square.rotate180());
}

#[test]
fn fill_uniform_buffer_covers_everything() {
    let a = Pixel::new(9, 9, 9, 255);
    let c = Pixel::new(1, 2, 3, 4);
    let canvas = Canvas::new_with_background(10, 8, a);
    let filled = canvas.fill(3, 4, &c);
    let counts = count_colors(&filled);
    assert_eq!(counts, vec![(c, 80)]);
}

#[test]
fn fill_start_does_not_matter_on_uniform_buffer() {
    let canvas = Canvas::new(6, 5);
    let grey = Pixel::new(172, 172, 172, 255);
    let one = canvas.duplicate().fill(1, 1, &grey);
    let two = canvas.fill(2, 2, &grey);
    assert_eq!(one, two);
}

#[test]
fn fill_with_same_color_changes_nothing() {
    let canvas = numbered(4, 4);
    let p = canvas.get_pixel(2, 1);
    let filled = canvas.duplicate().fill(2, 1, &p);
    assert_eq!(filled, canvas);
}

#[test]
fn nested_region_fill_keeps_other_colors() {
    let a = Pixel::new(0, 0, 255, 255);
    let b = Pixel::new(255, 0, 0, 255);
    let c = Pixel::new(0, 255, 0, 255);
    let d = Pixel::new(172, 172, 172, 255);
    let canvas = Canvas::new_with_background(30, 30, a)
        .draw_square(5, 5, 20, 20, &b)
        .draw_square(10, 10, 10, 10, &c);
    let before_b = canvas.count_pixels(&b);
    let before_c = canvas.count_pixels(&c);
    let before_a = canvas.count_pixels(&a);
    let filled = canvas.fill(0, 0, &d);
    assert_eq!(filled.count_pixels(&b), before_b);
    assert_eq!(filled.count_pixels(&c), before_c);
    assert_eq!(filled.count_pixels(&d), before_a);
    assert_eq!(filled.count_pixels(&a), 0);
}

#[test]
fn diagonal_pixels_are_separate_regions() {
    let black = Pixel::new(0, 0, 0, 255);
    let red = Pixel::new(255, 0, 0, 255);
    let canvas = Canvas::new(3, 3).set_pixel(0, 0, &black).set_pixel(1, 1, &black);
    let filled = canvas.fill(0, 0, &red);
    assert_eq!(filled.get_pixel(0, 0), red);
    assert_eq!(filled.get_pixel(1, 1), black);
}

#[test]
fn two_islands_are_found() {
    let black = Pixel::new(0, 0, 0, 255);
    let canvas = Canvas::new(12, 10)
        .draw_square(1, 1, 3, 2, &black)
        .draw_square(6, 4, 4, 5, &black);
    let islands = canvas.find_islands(&black);
    assert_eq!(islands.len(), 2);
    let total: usize = islands.iter().map(|i| i.points.len()).sum();
    assert_eq!(total as u32, canvas.count_pixels(&black));
    assert_eq!(islands[0].points.len(), 6);
    assert_eq!(islands[1].points.len(), 20);
    for p in islands[0].points.iter() {
        assert!(!islands[1].points.contains(p));
        assert_eq!(canvas.get_pixel(p.x, p.y), black);
    }
    for p in islands[1].points.iter() {
        assert_eq!(canvas.get_pixel(p.x, p.y), black);
    }
    assert_eq!(islands[0].points[0], Point { x: 1, y: 1 });
    assert_eq!(islands[1].points[0], Point { x: 6, y: 4 });
}

#[test]
fn no_islands_without_the_color() {
    let canvas = Canvas::new(4, 4);
    assert_eq!(canvas.find_islands(&Pixel::new(1, 1, 1, 1)).len(), 0);
}

#[test]
fn black_islands_are_found_too() {
    let black = Pixel::new(0, 0, 0, 255);
    let canvas = Canvas::new_with_background(3, 1, black).set_pixel(1, 0, &Pixel::new(9, 9, 9, 255));
    let islands = canvas.find_islands(&black);
    assert_eq!(islands.len(), 2);
}

#[test]
fn opaque_source_wins() {
    let destinations = [Pixel::new(0, 0, 0, 0), Pixel::new(12, 200, 7, 90), Pixel::new(255, 255, 255, 255)];
    let source = Pixel::new(17, 130, 250, 255);
    for d in destinations.iter() {
        assert_eq!(overlap_colors(d, &source), source);
    }
}

#[test]
fn half_transparent_source_blends() {
    let destination = Pixel::new(0, 0, 255, 255);
    let source = Pixel::new(200, 100, 0, 128);
    assert_eq!(overlap_colors(&destination, &source), Pixel::new(100, 50, 127, 191));
    let clear = Pixel::new(90, 90, 90, 0);
    assert_eq!(overlap_colors(&destination, &clear), Pixel::new(0, 0, 255, 255));
}

#[test]
fn reads_clamp_to_the_edge() {
    let canvas = numbered(5, 4);
    assert_eq!(canvas.get_pixel(100, 100), canvas.get_pixel(4, 3));
    assert_eq!(canvas.get_pixel(7, 1), canvas.get_pixel(4, 1));
    assert_eq!(canvas.get_pixel(2, 9), canvas.get_pixel(2, 3));
    let thin = Canvas::new_with_background(1, 1, Pixel::new(5, 6, 7, 8));
    assert_eq!(thin.get_pixel(3, 3), Pixel::new(5, 6, 7, 8));
}

#[test]
fn nested_squares_scenario() {
    let blue = Pixel::new(0, 0, 255, 255);
    let red = Pixel::new(255, 0, 0, 255);
    let grey = Pixel::new(172, 172, 172, 255);
    let canvas = Canvas::new_with_background(100, 100, blue)
        .draw_square(10, 10, 80, 80, &red)
        .draw_square(20, 20, 60, 60, &blue)
        .fill(1, 1, &grey);
    let counts = count_colors(&canvas);
    assert_eq!(counts.len(), 3);
    assert_eq!(canvas.count_pixels(&grey), 3600);
    assert_eq!(canvas.count_pixels(&red), 2800);
    assert_eq!(canvas.count_pixels(&blue), 3600);
}

#[test]
fn zero_size_becomes_one() {
    let canvas = Canvas::new(0, 0);
    assert_eq!(canvas.dimensions().width, 1);
    assert_eq!(canvas.dimensions().height, 1);
    assert_eq!(canvas.get_pixel(0, 0), Pixel::new(255, 255, 255, 255));
}

#[test]
fn subimages_are_clipped() {
    let canvas = numbered(5, 4);
    let sub = canvas.get_subimage(3, 1, 10, 2);
    assert_eq!(sub.dimensions().width, 2);
    assert_eq!(sub.dimensions().height, 2);
    assert_eq!(sub.get_pixel(0, 0), canvas.get_pixel(3, 1));
    assert_eq!(sub.get_pixel(1, 1), canvas.get_pixel(4, 2));

    let mut target = Canvas::new(3, 3);
    let red = Pixel::new(255, 0, 0, 255);
    target.set_subimage_mut(2, 2, &Canvas::new_with_background(5, 5, red));
    assert_eq!(target.count_pixels(&red), 1);
    assert_eq!(target.get_pixel(2, 2), red);
    let unchanged = Canvas::new(3, 3).set_subimage(7, 1, &Canvas::new_with_background(2, 2, red));
    assert_eq!(unchanged, Canvas::new(3, 3));
}

#[test]
fn resize_keeps_the_top_left() {
    let canvas = numbered(3, 2);
    let bigger = canvas.duplicate().resize(4, 3);
    assert_eq!(bigger.get_pixel(2, 1), canvas.get_pixel(2, 1));
    assert_eq!(bigger.get_pixel(3, 2), Pixel::new(255, 255, 255, 255));
    let mut smaller = canvas.duplicate();
    smaller.resize_mut(2, 1);
    assert_eq!(all_pixels(&smaller), vec![canvas.get_pixel(0, 0), canvas.get_pixel(1, 0)]);
}

#[test]
fn flip_and_flop_mirror() {
    let canvas = numbered(3, 2);
    let flipped = canvas.flip();
    let flopped = canvas.flop();
    for x in 0..3 {
        for y in 0..2 {
            assert_eq!(flipped.get_pixel(x, y), canvas.get_pixel(2 - x, y));
            assert_eq!(flopped.get_pixel(x, y), canvas.get_pixel(x, 1 - y));
        }
    }
}

#[test]
fn chunks_cover_the_canvas() {
    let canvas = numbered(4, 5);
    let rows = canvas.vertical_chunks(2);
    assert_eq!(rows.len(), 3);
    assert_eq!(rows[2].dimensions().height, 1);
    assert_eq!(rows[1].get_pixel(3, 1), canvas.get_pixel(3, 3));
    let columns = canvas.horizontal_chunks(3);
    assert_eq!(columns.len(), 2);
    assert_eq!(columns[1].dimensions().width, 1);
    assert_eq!(columns[1].get_pixel(0, 4), canvas.get_pixel(3, 4));
}

#[test]
fn trace_paints_boxes_around_points() {
    let red = Pixel::new(255, 0, 0, 255);
    let island = Island { points: vec![Point { x: 0, y: 0 }, Point { x: 4, y: 4 }] };
    let canvas = Canvas::new(6, 6).trace(&island, &red, 1, 1, 0, 1);
    assert_eq!(canvas.count_pixels(&red), 4 + 6);
    assert_eq!(canvas.get_pixel(1, 1), red);
    assert_eq!(canvas.get_pixel(0, 2), Pixel::new(255, 255, 255, 255));
    let drawn = Canvas::new(6, 6).draw_island(&island, &red);
    assert_eq!(drawn.count_pixels(&red), 2);
}

#[test]
fn distance_operations() {
    let base = Pixel::new(100, 100, 100, 255);
    let near = Pixel::new(103, 104, 100, 255);
    let far = Pixel::new(110, 100, 100, 255);
    let canvas = Canvas::new_with_background(3, 1, base).set_pixel(1, 0, &near).set_pixel(2, 0, &far);
    assert_eq!(canvas.count_pixels_with_distance(&base, 6), 2);
    assert_eq!(canvas.count_pixels_with_distance(&base, 5), 1);
    let red = Pixel::new(255, 0, 0, 255);
    let replaced = canvas.duplicate().replace_pixel_with_distance(&base, 6, &red);
    assert_eq!(all_pixels(&replaced), vec![red, red, far]);
    let filled = canvas.duplicate().fill_by_distance(0, 0, &red, 6);
    assert_eq!(all_pixels(&filled), vec![red, red, far]);
    let by_color = canvas.duplicate().fill_by_color_and_distance(2, 0, &red, &base, 1);
    assert_eq!(all_pixels(&by_color), vec![base, near, red]);
    let exact = canvas.replace_pixel_with(&near, &red);
    assert_eq!(all_pixels(&exact), vec![base, red, far]);
}

#[test]
fn grey_conversions() {
    let p = Pixel::new(100, 50, 20, 7);
    assert_eq!(to_grey_lumiosity(&p), from_grey(58));
    assert_eq!(to_grey_mean(&p), from_grey(61));
    assert_eq!(to_grey_average(&Pixel::new(30, 60, 90, 1)), from_grey(60));
    assert_eq!(to_grey_lightness(&Pixel::new(100, 40, 10, 1)), from_grey(105));
    assert_eq!(max(3, 9, 4), 9);
    assert_eq!(min(3, 9, 4), 3);
    assert_eq!(clamp(2, 5, 9), 5);
    assert_eq!(clamp(2, 5, 0), 2);
    assert_eq!(clamp(2, 5, 3), 3);
    let grey = Canvas::new_with_background(2, 2, p).to_grey();
    assert_eq!(grey.count_pixels(&from_grey(58)), 4);
    let mut in_place = Canvas::new_with_background(2, 1, p);
    in_place.to_grey_mut();
    assert_eq!(in_place, grey.get_subimage(0, 0, 2, 1));
}

#[test]
fn differences_between_canvases() {
    let c1 = Canvas::new_with_background(2, 2, Pixel::new(10, 10, 10, 10));
    let c2 = Canvas::new_with_background(2, 2, Pixel::new(13, 10, 10, 10));
    assert_eq!(error(&c1, &c2), 2);
    assert_eq!(error(&c1, &c1), 0);
    let d = diff_debug(&c1, &c2);
    assert_eq!(count_colors(&d), vec![(Pixel::new(3, 0, 0, 0), 4)]);
    let other = Canvas::new(3, 1);
    assert_eq!(diff_debug(&c1, &other), c1);
    assert_eq!(diff(&c1, &c2), Canvas::new(1, 1));
    assert_eq!(diff_squared(&Pixel::new(5, 9, 20, 3), &Pixel::new(1, 9, 10, 0)), (16, 0, 100, 9));
}

#[test]
fn filters_and_text() {
    let canvas = numbered(3, 2);
    let swapped = canvas.filter(|c: &Canvas, x: u32, y: u32| c.get_pixel(2 - x, y));
    assert_eq!(swapped, canvas.flip());
    assert_eq!(canvas.to_string(), "Image with 6 pixels and dimensions: (3, 2).");
    assert_eq!(Point { x: 3, y: 40 }.to_string(), "(3, 40)");
    let with = canvas.iter_with_coordinates();
    assert_eq!(with.len(), 6);
    assert_eq!(with[4].coordinate, Point { x: 1, y: 1 });
    assert_eq!(with[4].pixel, canvas.get_pixel(1, 1));
}

#[test]
fn rgba_bytes_round_trip() {
    let canvas = numbered(3, 2);
    let bytes = canvas.to_rgba_bytes();
    assert_eq!(bytes.len(), 24);
    assert_eq!(&bytes[4..8], &[1, 0, 3, 255]);
    let back = Canvas::from_rgba_bytes(3, 2, &bytes).unwrap();
    assert_eq!(back, canvas);
    assert!(Canvas::from_rgba_bytes(3, 3, &bytes).is_none());
    assert!(Canvas::from_rgba_bytes(0, 2, &bytes).is_none());
}

#[test]
fn signed_writes_outside_are_ignored() {
    let red = Pixel::new(255, 0, 0, 255);
    let mut canvas = Canvas::new(2, 2);
    canvas.set_pixel_mut_signed(-1, 0, &red);
    canvas.set_pixel_mut_signed(0, 2, &red);
    assert_eq!(canvas, Canvas::new(2, 2));
    canvas.set_pixel_mut_signed(1, 1, &red);
    assert_eq!(canvas.get_pixel(1, 1), red);
    assert_eq!(canvas.pixels().len(), 4);
}
