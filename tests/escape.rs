use fractal::escape::{iteration_count, pixel_color, wavelength_of};
use fractal::spectrum::{wavelength_to_rgb, Rgb};

/// The first step at which the orbit of pixel (x, y) has `|z| >= 2`, or
/// `max_iter` when it never does, in single precision.
fn first_escape(c: (f32, f32), x: u32, y: u32, width: u32, height: u32, max_iter: u32) -> u32 {
    let (w, h) = (width as f32, height as f32);
    let mut re = 3.0 * (x as f32 - 0.5 * w) / w;
    let mut im = 2.0 * (y as f32 - 0.5 * h) / h;
    for t in 0..max_iter {
        if (re * re + im * im).sqrt() >= 2.0 {
            return t;
        }
        let next = re * re - im * im + c.0;
        im = 2.0 * re * im + c.1;
        re = next;
    }
    max_iter
}

#[test]
fn escape_at_once_counts_zero() {
    assert_eq!(iteration_count(0, 300), 0);
}

#[test]
fn escape_reports_completed_steps() {
    assert_eq!(iteration_count(1, 300), 1);
    assert_eq!(iteration_count(2, 300), 2);
    assert_eq!(iteration_count(5, 10), 5);
    assert_eq!(iteration_count(57, 300), 57);
    assert_eq!(iteration_count(299, 300), 299);
}

#[test]
fn never_escaping_reports_cap_minus_one() {
    assert_eq!(iteration_count(300, 300), 299);
    assert_eq!(iteration_count(1, 1), 0);
    assert_eq!(iteration_count(0, 0), 0);
}

#[test]
fn counts_stay_below_cap() {
    for m in 1u32..40 {
        for e in 0..=m {
            assert!(iteration_count(e, m) < m);
        }
    }
}

#[test]
fn wavelength_rescales_counts() {
    assert_eq!(wavelength_of(0, 300), 380);
    assert_eq!(wavelength_of(150, 300), 580);
    assert_eq!(wavelength_of(299, 300), 778);
    assert_eq!(wavelength_of(9, 10), 740);
    assert_eq!(wavelength_of(u32::MAX - 1, u32::MAX), 779);
}

#[test]
fn pixel_colour_goes_through_wavelength() {
    assert_eq!(pixel_color(0, 10), Rgb { r: 97, g: 0, b: 97 });
    assert_eq!(pixel_color(150, 300), wavelength_to_rgb(580));
}

#[test]
fn two_by_one_frame_with_zero_parameter() {
    let (width, height, max_iter) = (2u32, 1u32, 10u32);
    // z0 = (-1.5, -1.0) has |z0| < 2; z1 = (1.25, 3.0) does not, so one
    // step completes before the test fires.
    let e0 = first_escape((0.0, 0.0), 0, 0, width, height, max_iter);
    assert_eq!(e0, 1);
    let i0 = iteration_count(e0, max_iter);
    assert_eq!(i0, 1);
    assert_eq!(wavelength_of(i0, max_iter), 420);
    assert_eq!(pixel_color(i0, max_iter), wavelength_to_rgb(380 + i0 * 400 / max_iter));
    assert_eq!(pixel_color(i0, max_iter), Rgb { r: 105, g: 0, b: 255 });
    // z0 = (0, -1) lies on the unit circle, which z * z keeps, so it never
    // escapes.
    let e1 = first_escape((0.0, 0.0), 1, 0, width, height, max_iter);
    assert_eq!(e1, max_iter);
    let i1 = iteration_count(e1, max_iter);
    assert_eq!(i1, 9);
    assert_eq!(pixel_color(i1, max_iter), Rgb { r: 180, g: 0, b: 0 });
}
