use miniz_oxide::inflate::decompress_to_vec_zlib;
use raytracer::render::{filter_scanlines, png_from_idat, Image, METADATA_SIZ, RGB};

fn be(x: u32) -> [u8; 4] {
    x.to_be_bytes()
}

#[test]
fn metadata_size_counts_every_fixed_byte() {
    assert_eq!(METADATA_SIZ, 57);
}

#[test]
fn iend_crc_matches_crc32fast() {
    assert_eq!(crc32fast::hash(b"IEND"), 0xAE42_6082);
}

#[test]
fn png_from_idat_frames_the_data() {
    let z = [1u8, 2, 3, 4, 5];
    let png = png_from_idat(3, 2, &z);
    assert_eq!(png.len(), z.len() + METADATA_SIZ);
    assert_eq!(&png[0..8], &[0x89, 0x50, 0x4E, 0x47, 0x0D, 0x0A, 0x1A, 0x0A]);
    assert_eq!(&png[8..12], &be(13));
    assert_eq!(&png[12..16], b"IHDR");
    assert_eq!(&png[16..20], &be(3));
    assert_eq!(&png[20..24], &be(2));
    assert_eq!(&png[24..29], &[8, 2, 0, 0, 0]);
    assert_eq!(&png[29..33], &be(crc32fast::hash(&png[12..29])));
    assert_eq!(&png[33..37], &be(5));
    assert_eq!(&png[37..41], b"IDAT");
    assert_eq!(&png[41..46], &z);
    assert_eq!(&png[46..50], &be(crc32fast::hash(&png[37..46])));
    assert_eq!(
        &png[50..62],
        &[0, 0, 0, 0, 0x49, 0x45, 0x4E, 0x44, 0xAE, 0x42, 0x60, 0x82]
    );
}

#[test]
fn png_from_idat_with_empty_data() {
    let png = png_from_idat(2, 2, &[]);
    assert_eq!(png.len(), METADATA_SIZ);
    assert_eq!(&png[33..37], &[0, 0, 0, 0]);
    assert_eq!(&png[41..45], &be(crc32fast::hash(b"IDAT")));
}

#[test]
fn ihdr_crc_of_known_header() {
    // The IHDR chunk of a 1x1 8-bit RGB image is a well known constant.
    let png = png_from_idat(1, 1, &[]);
    assert_eq!(&png[29..33], &[0x90, 0x77, 0x53, 0xDE]);
}

#[test]
fn filter_scanlines_prefixes_every_row() {
    let img: Vec<RGB> = vec![[1, 2, 3], [4, 5, 6], [7, 8, 9], [10, 11, 12]];
    let raw = filter_scanlines(&img, 2);
    assert_eq!(raw, vec![0, 1, 2, 3, 4, 5, 6, 0, 7, 8, 9, 10, 11, 12]);
}

#[test]
fn filter_scanlines_drops_an_incomplete_row() {
    let img: Vec<RGB> = vec![[1, 2, 3], [4, 5, 6], [7, 8, 9]];
    let raw = filter_scanlines(&img, 2);
    assert_eq!(raw, vec![0, 1, 2, 3, 4, 5, 6]);
    let raw = filter_scanlines(&img, 3);
    assert_eq!(raw, vec![0, 1, 2, 3, 4, 5, 6, 7, 8, 9]);
    let raw = filter_scanlines(&img, 4);
    assert!(raw.is_empty());
}

#[test]
fn into_png_compresses_the_scanlines() {
    let img: Vec<RGB> = (0..6u8).map(|i| [i, 10 * i, 255 - i]).collect();
    let raw = filter_scanlines(&img, 3);
    let png = Image::new(img, 3, 2).into_png();
    let zlen = u32::from_be_bytes([png[33], png[34], png[35], png[36]]) as usize;
    assert_eq!(png.len(), zlen + METADATA_SIZ);
    assert_eq!(&png[16..20], &be(3));
    assert_eq!(&png[20..24], &be(2));
    let z = &png[41..41 + zlen];
    assert_eq!(z, miniz_oxide::deflate::compress_to_vec_zlib(&raw, 6).as_slice());
    let inflated = decompress_to_vec_zlib(z).unwrap();
    assert_eq!(inflated, raw);
    assert_eq!(
        &png[41 + zlen..45 + zlen],
        &be(crc32fast::hash(&png[37..41 + zlen]))
    );
    assert_eq!(&png[png.len() - 8..png.len() - 4], b"IEND");
}

#[test]
fn into_png_of_a_flat_image() {
    let img: Vec<RGB> = vec![[200, 100, 50]; 4 * 3];
    let png = Image::new(img, 4, 3).into_png();
    let zlen = png.len() - METADATA_SIZ;
    let inflated = decompress_to_vec_zlib(&png[41..41 + zlen]).unwrap();
    assert_eq!(inflated.len(), 3 * (3 * 4 + 1));
    for row in inflated.chunks(13) {
        assert_eq!(row[0], 0);
        assert_eq!(&row[1..4], &[200, 100, 50]);
    }
}
