use mandelbrot::{Complex, Mandelbrot, Viewport, SCALE};

fn square_viewport() -> Viewport {
    // Upper-left -2+2i, lower-right 2-2i: the classic frame around the set.
    Viewport::new(
        Complex::new(-2 * SCALE, 2 * SCALE),
        Complex::new(2 * SCALE, -2 * SCALE),
    )
}

#[test]
fn corner_pixels_map_exactly_onto_the_corners() {
    let engine = Mandelbrot::new((100, 200));
    let vp = square_viewport();
    let top_left = engine.pixel_to_point((100, 200), (0, 0), vp.ul, vp.lr);
    let bottom_right = engine.pixel_to_point((100, 200), (100, 200), vp.ul, vp.lr);
    assert_eq!(top_left, vp.ul);
    assert_eq!(bottom_right, vp.lr);
}

#[test]
fn pixel_mapping_is_monotonic() {
    let engine = Mandelbrot::new((64, 64));
    let vp = square_viewport();
    let mut previous = engine.pixel_to_point((64, 64), (0, 3), vp.ul, vp.lr);
    for col in 1..=64usize {
        let next = engine.pixel_to_point((64, 64), (col, 3), vp.ul, vp.lr);
        assert!(next.re > previous.re);
        assert_eq!(next.im, previous.im);
        previous = next;
    }
    let mut previous = engine.pixel_to_point((64, 64), (5, 0), vp.ul, vp.lr);
    for row in 1..=64usize {
        let next = engine.pixel_to_point((64, 64), (5, row), vp.ul, vp.lr);
        assert!(next.im < previous.im);
        assert_eq!(next.re, previous.re);
        previous = next;
    }
}

#[test]
fn pixel_mapping_exact_interior_value() {
    let engine = Mandelbrot::new((4, 4));
    let vp = square_viewport();
    // One pixel in: a quarter of the 4-wide span from each corner component.
    let p = engine.pixel_to_point((4, 4), (1, 1), vp.ul, vp.lr);
    assert_eq!(p, Complex::new(-SCALE, SCALE));
}

#[test]
fn origin_never_escapes() {
    let engine = Mandelbrot::new((1, 1));
    assert_eq!(engine.escape_time(Complex::new(0, 0), 1), None);
    assert_eq!(engine.escape_time(Complex::new(0, 0), 255), None);
    assert_eq!(engine.escape_time(Complex::new(0, 0), 10_000), None);
}

#[test]
fn three_escapes_at_the_first_check_after_an_update() {
    let engine = Mandelbrot::new((1, 1));
    // z stays 0 through the first radius check, becomes 3 on the update, and
    // |3|^2 = 9 > 4 fails the check of iteration 1.
    assert_eq!(engine.escape_time(Complex::new(3 * SCALE, 0), 255), Some(1));
    // A budget of one iteration ends before that check is reached.
    assert_eq!(engine.escape_time(Complex::new(3 * SCALE, 0), 1), None);
}

#[test]
fn two_i_escapes_one_step_later() {
    let engine = Mandelbrot::new((1, 1));
    // |2i|^2 = 4 passes the first check; z becomes -4+2i, which fails it.
    assert_eq!(engine.escape_time(Complex::new(0, 2 * SCALE), 255), Some(2));
}

#[test]
fn rendering_twice_gives_identical_buffers() {
    let engine = Mandelbrot::new((16, 16));
    let vp = square_viewport();
    let first = engine.render(vp);
    let second = engine.render(vp);
    assert_eq!(first, second);
}

#[test]
fn bands_concatenate_to_the_sequential_render() {
    let engine = Mandelbrot::new((3, 5));
    let vp = square_viewport();
    let whole = engine.partial_render(vp, 0, 5);
    let mut stitched = engine.partial_render(vp, 0, 2);
    stitched.extend(engine.partial_render(vp, 2, 3));
    assert_eq!(stitched, whole);
    assert_eq!(engine.render(vp), whole);
}

#[test]
fn a_zero_row_band_renders_nothing() {
    let engine = Mandelbrot::new((7, 3));
    let vp = square_viewport();
    assert_eq!(engine.partial_render(vp, 2, 0), Vec::<u8>::new());
}

#[test]
fn render_covers_heights_beyond_the_band_count() {
    let engine = Mandelbrot::new((2, 10));
    let vp = square_viewport();
    let pixels = engine.render(vp);
    assert_eq!(pixels.len(), 20);
    assert_eq!(pixels, engine.partial_render(vp, 0, 10));
}

#[test]
fn end_to_end_two_by_two_reference_table() {
    let engine = Mandelbrot::new((2, 2));
    let pixels = engine.render(square_viewport());
    // (-2+2i) escapes at step 1, 2i at step 2; -2 and 0 are set members.
    assert_eq!(pixels, vec![254, 253, 0, 0]);
}

#[test]
fn zoom_of_one_keeps_both_corners() {
    let mut vp = square_viewport();
    vp.zoom(SCALE);
    assert_eq!(vp, square_viewport());
}

#[test]
fn zoom_out_doubles_the_spans_around_the_center() {
    let mut vp = Viewport::new(
        Complex::new(-SCALE, SCALE),
        Complex::new(SCALE, -SCALE),
    );
    vp.zoom(2 * SCALE);
    assert_eq!(vp.ul, Complex::new(-2 * SCALE, 2 * SCALE));
    assert_eq!(vp.lr, Complex::new(2 * SCALE, -2 * SCALE));
}

#[test]
fn translate_x_round_trip_restores_the_corners() {
    let original = square_viewport();
    let mut vp = original;
    vp.translate_x(SCALE / 100);
    vp.translate_x(-(SCALE / 100));
    assert_eq!(vp, original);
}

#[test]
fn translate_y_round_trip_restores_the_corners() {
    let original = Viewport::new(
        Complex::new(-12 * SCALE / 10, 35 * SCALE / 100),
        Complex::new(-SCALE, 20 * SCALE / 100),
    );
    let mut vp = original;
    vp.translate_y(SCALE / 100);
    vp.translate_y(-(SCALE / 100));
    assert_eq!(vp, original);
}

#[test]
fn translate_x_steps_by_the_cross_wired_span() {
    // The horizontal pan measures its step against the .im span: here the
    // span is -4 (in plane units), so a half-step moves both .re by -2.
    let mut vp = Viewport::new(
        Complex::new(0, 0),
        Complex::new(10 * SCALE, -4 * SCALE),
    );
    vp.translate_x(SCALE / 2);
    assert_eq!(vp.ul, Complex::new(-2 * SCALE, 0));
    assert_eq!(vp.lr, Complex::new(8 * SCALE, -4 * SCALE));
}

#[test]
fn viewport_and_complex_hold_their_parts() {
    let c = Complex::new(7, -9);
    assert_eq!(c.re, 7);
    assert_eq!(c.im, -9);
    let vp = Viewport::new(Complex::new(1, 2), Complex::new(3, 4));
    assert_eq!(vp.ul, Complex::new(1, 2));
    assert_eq!(vp.lr, Complex::new(3, 4));
}
