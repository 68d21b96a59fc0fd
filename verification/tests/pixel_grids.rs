use raytracer::camera::xyrange_expanded;
use raytracer::gens::{initial, xyrange};

#[test]
fn xyrange_is_row_major() {
    let cells = xyrange(0, 3, 0, 2);
    assert_eq!(cells, vec![(0, 0), (1, 0), (2, 0), (0, 1), (1, 1), (2, 1)]);
}

#[test]
fn xyrange_with_negative_bounds() {
    let cells = xyrange(-11, 11, -11, 11);
    assert_eq!(cells.len(), 22 * 22);
    assert_eq!(cells[0], (-11, -11));
    assert_eq!(cells[1], (-10, -11));
    assert_eq!(cells[22], (-11, -10));
    assert_eq!(cells[22 * 22 - 1], (10, 10));
}

#[test]
fn xyrange_empty_ranges() {
    assert!(xyrange(3, 3, 0, 5).is_empty());
    assert!(xyrange(0, 5, 4, 2).is_empty());
    assert!(xyrange(5, 0, 0, 5).is_empty());
}

#[test]
fn xyrange_expanded_repeats_each_cell() {
    let cells = xyrange_expanded(1, 3, 5, 7, 2);
    assert_eq!(
        cells,
        vec![(1, 5), (1, 5), (2, 5), (2, 5), (1, 6), (1, 6), (2, 6), (2, 6)]
    );
}

#[test]
fn xyrange_expanded_zero_repeat_is_empty() {
    assert!(xyrange_expanded(0, 4, 0, 4, 0).is_empty());
    assert!(xyrange_expanded(2, 2, 0, 4, 3).is_empty());
}

#[test]
fn xyrange_expanded_chunks_are_the_pixels() {
    let spp = 5usize;
    let cells = xyrange_expanded(0, 4, 0, 3, spp as u32);
    let pixels = xyrange(0, 4, 0, 3);
    assert_eq!(cells.len(), pixels.len() * spp);
    for (p, chunk) in cells.chunks(spp).enumerate() {
        for c in chunk {
            assert_eq!((c.0 as i32, c.1 as i32), pixels[p]);
        }
    }
}

#[test]
fn initial_shades_every_pixel_once() {
    let img = initial(|x, y| [x as u8, y as u8, 7]);
    let png = img.into_png();
    assert_eq!(&png[16..20], &256u32.to_be_bytes());
    assert_eq!(&png[20..24], &256u32.to_be_bytes());
    let zlen = png.len() - 57;
    let raw = miniz_oxide::inflate::decompress_to_vec_zlib(&png[41..41 + zlen]).unwrap();
    assert_eq!(raw.len(), 256 * (3 * 256 + 1));
    // Row 3, column 5.
    let i = 3 * (3 * 256 + 1) + 1 + 3 * 5;
    assert_eq!(&raw[i..i + 3], &[5, 3, 7]);
}
