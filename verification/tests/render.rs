use mandelbrot::palette::ColorPolicy;
use mandelbrot::render::{pixel_index, render};

#[test]
fn pixel_index_reads_row_by_row() {
    assert_eq!(pixel_index((100, 100), 25, 75), 7525);
    assert_eq!(pixel_index((3, 2), 0, 0), 0);
    assert_eq!(pixel_index((3, 2), 2, 0), 2);
    assert_eq!(pixel_index((3, 2), 0, 1), 3);
    assert_eq!(pixel_index((3, 2), 2, 1), 5);
}

#[test]
fn render_direct_writes_the_count() {
    let mut pixels = vec![7u8; 6];
    render(&mut pixels, (3, 2), ColorPolicy::Direct, |column, row| {
        if column == row {
            None
        } else {
            Some((10 * row + column) as u32)
        }
    });
    assert_eq!(pixels, vec![255u8, 1, 2, 10, 255, 12]);
}

#[test]
fn render_inverted_writes_what_is_left_of_255() {
    let mut pixels = vec![7u8; 6];
    render(&mut pixels, (3, 2), ColorPolicy::Inverted, |column, row| {
        if column == row {
            None
        } else {
            Some((10 * row + column) as u32)
        }
    });
    assert_eq!(pixels, vec![0u8, 254, 253, 245, 0, 243]);
}

#[test]
fn render_of_an_empty_image_writes_nothing() {
    let mut pixels: Vec<u8> = Vec::new();
    render(&mut pixels, (0, 5), ColorPolicy::Direct, |_, _| -> Option<u32> {
        panic!("no pixel is to be asked for")
    });
    render(&mut pixels, (5, 0), ColorPolicy::Direct, |_, _| -> Option<u32> {
        panic!("no pixel is to be asked for")
    });
    assert!(pixels.is_empty());
}

#[test]
fn render_asks_for_each_pixel_once_in_reading_order() {
    let asked = std::cell::RefCell::new(Vec::new());
    let mut pixels = vec![0u8; 6];
    render(&mut pixels, (2, 3), ColorPolicy::Direct, |column, row| {
        asked.borrow_mut().push((column, row));
        Some(0)
    });
    assert_eq!(asked.into_inner(), vec![(0, 0), (1, 0), (0, 1), (1, 1), (0, 2), (1, 2)]);
}
