use pixtra::canvas::{Canvas, Point, Size};
use pixtra::pixels::Pixel;
use pixtra::utility::{count_colors, overlap_colors};

fn count_of(counts: &Vec<(Pixel, usize)>, pixel: &Pixel) -> Option<usize> {
    counts.iter().find(|(p, _)| p == pixel).map(|(_, n)| *n)
}

// Straightforward compositing by coordinates, to compare against the library.
fn draw_subimage_mut_old(draw_on: &mut Canvas, x: u32, y: u32, canvas: &Canvas) {
    let width = std::cmp::min(canvas.dimensions().width, draw_on.dimensions().width - x);
    let height = std::cmp::min(canvas.dimensions().height, draw_on.dimensions().height - y);
    for i in 0..width {
        for j in 0..height {
            let destination = draw_on.get_pixel(x + i, y + j);
            let source = canvas.get_pixel(i, j);
            let new_color = overlap_colors(&destination, &source);
            draw_on.set_pixel_mut(x + i, y + j, &new_color);
        }
    }
}

#[test]
fn clean_canvas() {
    let canvas = Canvas::new(20, 20);
    let dimensions = canvas.dimensions();
    assert_eq!(
        dimensions,
        Size {
            width: 20,
            height: 20
        }
    );

    let counts = count_colors(&canvas);
    assert_eq!(counts.len(), 1);
    assert_eq!(count_of(&counts, &Pixel::new(255, 255, 255, 255)), Some(400));
}

#[test]
fn testing_new_iterators() {
    let canvas = Canvas::new(20, 20);
    let filled_canvas = canvas.fill(0, 0, &Pixel::new(255, 255, 0, 255));
    let mut canvas_one = Canvas::new(40, 40);
    let mut canvas_two = Canvas::new(40, 40);
    canvas_one.draw_subimage_mut(10, 10, &filled_canvas);
    draw_subimage_mut_old(&mut canvas_two, 10, 10, &filled_canvas);

    assert_eq!(canvas_one, canvas_two);
}

#[test]
fn testing_new_iterators_out_of_border_y() {
    let position = Point { x: 10, y: 30 };
    let size = 40;
    let canvas = Canvas::new(20, 20);
    let filled_canvas = canvas.fill(0, 0, &Pixel::new(255, 255, 0, 255));
    let mut canvas_one = Canvas::new(size, size);
    let mut canvas_two = Canvas::new(size, size);
    canvas_one.draw_subimage_mut(position.x, position.y, &filled_canvas);
    draw_subimage_mut_old(&mut canvas_two, position.x, position.y, &filled_canvas);

    assert_eq!(canvas_one, canvas_two);
}

#[test]
fn testing_new_iterators_out_of_border_x() {
    let position = Point { x: 30, y: 10 };
    let size = 40;
    let canvas = Canvas::new(20, 20);
    let filled_canvas = canvas.fill(0, 0, &Pixel::new(255, 255, 0, 255));
    let mut canvas_one = Canvas::new(size, size);
    let mut canvas_two = Canvas::new(size, size);
    canvas_one.draw_subimage_mut(position.x, position.y, &filled_canvas);
    draw_subimage_mut_old(&mut canvas_two, position.x, position.y, &filled_canvas);

    assert_eq!(canvas_one, canvas_two);
}

#[test]
fn test_find_with_predicate() {
    let position = Point { x: 10, y: 10 };
    let size = 40;
    let canvas = Canvas::new(20, 20);
    let filled_canvas = canvas.fill(0, 0, &Pixel::new(255, 255, 0, 255));
    let mut canvas_one = Canvas::new(size, size);
    canvas_one.draw_subimage_mut(position.x, position.y, &filled_canvas);
    let predicate = |pixel: &Pixel, _: u32, _: u32| -> bool {
        if pixel == &Pixel::new(255, 255, 0, 255) {
            return true;
        } else {
            return false;
        }
    };
    let found = canvas_one.find_with_predicate(predicate);
    // We filled the canvas with 20 * 20 yellow pixels
    assert_eq!(found.len(), 20 * 20);
    let correct_color = found
        .iter()
        .all(|pixelwithcoordinate| pixelwithcoordinate.pixel == Pixel::new(255, 255, 0, 255));
    assert_eq!(correct_color, true);
}

#[test]
fn clean_canvas_with_background() {
    let color = Pixel::random();
    let canvas = Canvas::new_with_background(20, 20, color.clone());
    let dimensions = canvas.dimensions();
    assert_eq!(
        dimensions,
        Size {
            width: 20,
            height: 20
        }
    );

    let counts = count_colors(&canvas);
    assert_eq!(counts.len(), 1);
    assert_eq!(count_of(&counts, &color), Some(400));
}
