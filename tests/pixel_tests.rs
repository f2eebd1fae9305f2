use pixtra::pixels::{ColorTrait, Colors, Pixel};

#[test]
fn pixel_show_display() {
    let pixel = Pixel::new(140, 200, 100, 240);
    let disp = pixel.to_string();
    assert_eq!("(140, 200, 100, 240)", disp);
}

#[test]
fn pixel_it_works() {
    let pixel = Pixel::new(55, 25, 255, 0);
    assert_eq!(pixel.a, 0);
    assert_eq!(pixel.r, 55);
    assert_eq!(pixel.g, 25);
    assert_eq!(pixel.b, 255);
}

#[test]
fn pixel_equality_works() {
    let pixel_one = Pixel::new(155, 172, 3, 255);
    let pixel_two = Pixel::new(155, 172, 3, 255);
    assert_eq!(pixel_one.r, pixel_two.r);
    assert_eq!(pixel_one.g, pixel_two.g);
    assert_eq!(pixel_one.b, pixel_two.b);
    assert_eq!(pixel_one.a, pixel_two.a);
    assert_eq!(pixel_one, pixel_two);

    // Red channel
    let pixel_two = &pixel_one.clone().set_red(156);
    assert_ne!(pixel_one.r, pixel_two.r);
    assert_eq!(pixel_one.g, pixel_two.g);
    assert_eq!(pixel_one.b, pixel_two.b);
    assert_eq!(pixel_one.a, pixel_two.a);
    assert_ne!(&pixel_one, pixel_two);

    // Green channel
    let pixel_two = &pixel_one.clone().set_green(156);
    assert_eq!(pixel_one.r, pixel_two.r);
    assert_ne!(pixel_one.g, pixel_two.g);
    assert_eq!(pixel_one.b, pixel_two.b);
    assert_eq!(pixel_one.a, pixel_two.a);
    assert_ne!(&pixel_one, pixel_two);

    // Blue channel
    let pixel_two = &pixel_one.clone().set_blue(156);
    assert_eq!(pixel_one.r, pixel_two.r);
    assert_eq!(pixel_one.g, pixel_two.g);
    assert_ne!(pixel_one.b, pixel_two.b);
    assert_eq!(pixel_one.a, pixel_two.a);
    assert_ne!(&pixel_one, pixel_two);

    // Alpha channel
    let pixel_two = &pixel_one.clone().set_alpha(156);
    assert_eq!(pixel_one.r, pixel_two.r);
    assert_eq!(pixel_one.g, pixel_two.g);
    assert_eq!(pixel_one.b, pixel_two.b);
    assert_ne!(pixel_one.a, pixel_two.a);
    assert_ne!(&pixel_one, pixel_two);
}

#[test]
fn pixel_mut_setters() {
    let mut pixel = Pixel::new(3, 3, 3, 3);
    assert_eq!(&pixel, &Pixel::new(3, 3, 3, 3));

    pixel.set_red_mut(4);
    assert_eq!(&pixel, &Pixel::new(4, 3, 3, 3));

    pixel.set_green_mut(5);
    assert_eq!(&pixel, &Pixel::new(4, 5, 3, 3));

    pixel.set_blue_mut(6);
    assert_eq!(&pixel, &Pixel::new(4, 5, 6, 3));

    pixel.set_alpha_mut(7);
    assert_eq!(&pixel, &Pixel::new(4, 5, 6, 7));
}

#[test]
fn pixel_setters() {
    let pixel = Pixel::new(3, 3, 3, 3);
    assert_eq!(&pixel, &Pixel::new(3, 3, 3, 3));

    let pixel = pixel.set_red(4);
    assert_eq!(&pixel, &Pixel::new(4, 3, 3, 3));

    let pixel = pixel.set_green(5);
    assert_eq!(&pixel, &Pixel::new(4, 5, 3, 3));

    let pixel = pixel.set_blue(6);
    assert_eq!(&pixel, &Pixel::new(4, 5, 6, 3));

    let pixel = pixel.set_alpha(7);
    assert_eq!(&pixel, &Pixel::new(4, 5, 6, 7));
}

#[test]
fn random_pixel_is_opaque() {
    for _ in 0..20 {
        assert_eq!(Pixel::random().a, 255);
    }
}

#[test]
fn named_colors() {
    assert_eq!(Colors::white(), Pixel::new(255, 255, 255, 255));
    assert_eq!(Colors::black(), Pixel::new(0, 0, 0, 255));
    assert_eq!(Colors::red(), Pixel::new(255, 0, 0, 255));
    assert_eq!(Colors::green(), Pixel::new(0, 255, 0, 255));
    assert_eq!(Colors::blue(), Pixel::new(0, 0, 255, 255));
    assert_eq!(Colors::zero(), Pixel::new(0, 0, 0, 0));
}

#[test]
fn pixel_diff_and_distance() {
    let a = Pixel::new(10, 200, 30, 255);
    let b = Pixel::new(20, 100, 30, 250);
    assert_eq!(a.diff(&b), Pixel::new(10, 100, 0, 5));
    assert_eq!(a.squared_distance(&b), 100 + 10000 + 0 + 25);
    assert!(Pixel::new(0, 0, 0, 17).is_zero());
    assert!(!Pixel::new(0, 1, 0, 0).is_zero());
}
