use raytracer::raster::{render_image, RasterError};

#[test]
fn render_places_pixels_by_coordinates() {
    let pixels = vec![(1, 0, (10, 20, 30)), (0, 1, (40, 50, 60))];
    let bytes = render_image(2, 2, &pixels).unwrap();
    assert_eq!(bytes, vec![0, 0, 0, 10, 20, 30, 40, 50, 60, 0, 0, 0]);
}

#[test]
fn render_untouched_pixels_are_black() {
    let bytes = render_image(3, 1, &vec![]).unwrap();
    assert_eq!(bytes, vec![0; 9]);
}

#[test]
fn render_later_write_wins() {
    let pixels = vec![(0, 0, (1, 1, 1)), (0, 0, (2, 3, 4))];
    let bytes = render_image(1, 1, &pixels).unwrap();
    assert_eq!(bytes, vec![2, 3, 4]);
}

#[test]
fn render_is_independent_of_pixel_order() {
    let mut pixels = Vec::new();
    for y in 0..3u32 {
        for x in 0..4u32 {
            pixels.push((x, y, (x as u8, y as u8, (x * y) as u8)));
        }
    }
    let mut shuffled = pixels.clone();
    shuffled.reverse();
    shuffled.swap(2, 7);
    shuffled.swap(0, 11);
    let a = render_image(4, 3, &pixels).unwrap();
    let b = render_image(4, 3, &shuffled).unwrap();
    assert_eq!(a, b);
    assert_eq!(&a[3 * (2 * 4 + 3)..3 * (2 * 4 + 3) + 3], &[3, 2, 6]);
}

#[test]
fn render_rejects_out_of_bounds() {
    let r = render_image(2, 2, &vec![(0, 0, (1, 2, 3)), (2, 0, (1, 2, 3))]);
    assert!(matches!(r, Err(RasterError::OutOfBounds)));
    let r = render_image(2, 2, &vec![(0, 2, (1, 2, 3))]);
    assert!(matches!(r, Err(RasterError::OutOfBounds)));
}

#[test]
fn render_rejects_oversized_raster() {
    if usize::MAX as u128 == u64::MAX as u128 {
        // 3 * 2^32 * 2^32 bytes cannot be addressed on 64 bits
        let r = render_image(u32::MAX, u32::MAX, &vec![]);
        assert!(matches!(r, Err(RasterError::TooLarge)));
    }
}

#[test]
fn render_wide_empty_raster() {
    // no rows, but a row of this width needs more bytes than 32-bit indices hold
    let r = render_image(0x6000_0000, 0, &vec![]);
    if usize::BITS <= 32 {
        assert!(matches!(r, Err(RasterError::TooLarge)));
    } else {
        assert_eq!(r.unwrap(), Vec::<u8>::new());
    }
}
