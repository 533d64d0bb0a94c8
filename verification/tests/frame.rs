use mandelbrot::bands::Band;
use mandelbrot::escape::{escape_time, ITERATION_BUDGET};
use mandelbrot::frame::{blank_frame, split_bands};
use mandelbrot::palette::ColorPolicy;
use mandelbrot::render::render;
use num::Complex;

fn pixel_to_point(
    size: (usize, usize),
    pixel: (usize, usize),
    upper_left: Complex<f64>,
    lower_right: Complex<f64>,
) -> Complex<f64> {
    let complex_width = lower_right.re - upper_left.re;
    let complex_height = upper_left.im - lower_right.im;
    Complex {
        re: upper_left.re + pixel.0 as f64 * complex_width / size.0 as f64,
        im: upper_left.im - pixel.1 as f64 * complex_height / size.1 as f64,
    }
}

fn escape_at(size: (usize, usize), column: usize, row: usize) -> Option<u32> {
    let c = pixel_to_point(
        size,
        (column, row),
        Complex { re: -2.0, im: 1.5 },
        Complex { re: 1.0, im: -1.5 },
    );
    escape_time(
        Complex { re: 0.0, im: 0.0 },
        ITERATION_BUDGET,
        |z: Complex<f64>| z * z + c,
        |z: Complex<f64>| z.norm_sqr() > 4.0,
    )
}

fn render_whole(size: (usize, usize), policy: ColorPolicy) -> Vec<u8> {
    let mut pixels = blank_frame(size);
    render(&mut pixels, size, policy, |column, row| escape_at(size, column, row));
    pixels
}

fn render_by_bands(size: (usize, usize), workers: usize, policy: ColorPolicy) -> Vec<u8> {
    let mut pixels = blank_frame(size);
    for (band, part) in split_bands(&mut pixels, size, workers) {
        render(part, (size.0, band.height), policy, |column, row| {
            escape_at(size, column, band.top + row)
        });
    }
    pixels
}

#[test]
fn blank_frame_is_all_zero() {
    assert_eq!(blank_frame((3, 2)), vec![0u8; 6]);
    assert_eq!(blank_frame((0, 7)), Vec::<u8>::new());
    assert_eq!(blank_frame((7, 0)), Vec::<u8>::new());
    assert_eq!(blank_frame((750, 750)).len(), 562500);
}

#[test]
fn rendering_twice_gives_the_same_bytes() {
    let size = (24, 17);
    assert_eq!(
        render_by_bands(size, 4, ColorPolicy::Direct),
        render_by_bands(size, 4, ColorPolicy::Direct)
    );
}

#[test]
fn the_worker_count_does_not_change_the_image() {
    let size = (24, 17);
    for policy in [ColorPolicy::Direct, ColorPolicy::Inverted] {
        let whole = render_whole(size, policy);
        assert!(whole.iter().any(|&level| level != whole[0]));
        for workers in [1usize, 2, 4, 8] {
            assert_eq!(render_by_bands(size, workers, policy), whole);
        }
    }
}

#[test]
fn the_two_policies_mirror_each_other() {
    let size = (24, 17);
    let direct = render_whole(size, ColorPolicy::Direct);
    let inverted = render_whole(size, ColorPolicy::Inverted);
    for (one, other) in direct.iter().zip(inverted.iter()) {
        assert_eq!(*one as u16 + *other as u16, 255);
    }
}

#[test]
fn split_bands_hands_out_the_whole_buffer() {
    let width = 3usize;
    let height = 5usize;
    let mut pixels: Vec<u8> = (0..15u8).collect();
    {
        let jobs = split_bands(&mut pixels, (width, height), 4);
        assert_eq!(jobs.len(), 3);
        assert_eq!(jobs[0].0, Band { top: 0, height: 2 });
        assert_eq!(jobs[1].0, Band { top: 2, height: 2 });
        assert_eq!(jobs[2].0, Band { top: 4, height: 1 });
        assert_eq!(*jobs[0].1, [0u8, 1, 2, 3, 4, 5]);
        assert_eq!(*jobs[1].1, [6u8, 7, 8, 9, 10, 11]);
        assert_eq!(*jobs[2].1, [12u8, 13, 14]);
        for (band, part) in jobs {
            for byte in part.iter_mut() {
                *byte = 100 + band.top as u8;
            }
        }
    }
    assert_eq!(
        pixels,
        vec![100u8, 100, 100, 100, 100, 100, 102, 102, 102, 102, 102, 102, 104, 104, 104]
    );
}

#[test]
fn split_bands_of_an_image_without_columns() {
    let mut pixels: Vec<u8> = Vec::new();
    let jobs = split_bands(&mut pixels, (0, 4), 2);
    assert_eq!(jobs.len(), 2);
    assert!(jobs.iter().all(|job| job.1.is_empty()));
}
