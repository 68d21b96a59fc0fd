//! Encoding a rendered image as a PNG file: raw scanlines, zlib-compressed,
//! framed by the signature and the IHDR, IDAT and IEND chunks.
use vstd::prelude::*;
use miniz_oxide::deflate::CompressionLevel;

verus! {

/// One pixel: red, green and blue, eight bits each.
pub type RGB = [u8; 3];

/// Length of the IHDR chunk's data.
pub const IHDR_SIZ: u32 = 13;

/// Bit depth of each colour channel.
pub const EIGHT_BPP: u8 = 8;

/// PNG colour type of truecolour pixels without alpha.
pub const RGB_TYPE: u8 = 2;

/// Bytes of a PNG file besides the compressed image data: the signature, the IEND chunk,
/// the IHDR data, and length, type and CRC of the IHDR and IDAT chunks.
pub const METADATA_SIZ: usize = 8 + 12 + 13 + 4 * 6;

/// The PNG signature.
pub open spec fn png_magic() -> Seq<u8> {
    seq![0x89u8, 0x50u8, 0x4Eu8, 0x47u8, 0x0Du8, 0x0Au8, 0x1Au8, 0x0Au8]
}

/// The complete IEND chunk: zero length, type `IEND`, and the CRC of the type.
pub open spec fn iend() -> Seq<u8> {
    seq![0u8, 0u8, 0u8, 0u8, 0x49u8, 0x45u8, 0x4Eu8, 0x44u8, 0xAEu8, 0x42u8, 0x60u8, 0x82u8]
}

/// The chunk type `IHDR`.
pub open spec fn ihdr_tag() -> Seq<u8> {
    seq![0x49u8, 0x48u8, 0x44u8, 0x52u8]
}

/// The chunk type `IDAT`.
pub open spec fn idat_tag() -> Seq<u8> {
    seq![0x49u8, 0x44u8, 0x41u8, 0x54u8]
}

/// The chunk type `IEND`.
pub open spec fn iend_tag() -> Seq<u8> {
    seq![0x49u8, 0x45u8, 0x4Eu8, 0x44u8]
}

/// The four bytes of `x`, most significant first.
pub open spec fn be32(x: u32) -> Seq<u8> {
    seq![(x >> 24u32) as u8, (x >> 16u32) as u8, (x >> 8u32) as u8, x as u8]
}

/// Type and data of the IHDR chunk of a `w` by `h` image of 8-bit RGB pixels,
/// with deflate compression, adaptive filtering and no interlacing.
pub open spec fn ihdr_body(w: u32, h: u32) -> Seq<u8> {
    ihdr_tag() + be32(w) + be32(h) + seq![EIGHT_BPP, RGB_TYPE, 0u8, 0u8, 0u8]
}

/// One bit of the CRC-32 (IEEE 802.3) shift register, in its reflected form.
pub open spec fn crc32_shift(c: u32) -> u32 {
    if c & 1u32 == 1u32 {
        (c >> 1u32) ^ 0xEDB8_8320u32
    } else {
        c >> 1u32
    }
}

/// The CRC-32 register after taking in the byte `b`, low bit first.
pub open spec fn crc32_byte(c: u32, b: u8) -> u32 {
    crc32_shift(
        crc32_shift(
            crc32_shift(crc32_shift(crc32_shift(crc32_shift(crc32_shift(crc32_shift(c ^ (b as u32))))))),
        ),
    )
}

/// The CRC-32 register after taking in `data` from register value `c`.
pub open spec fn crc32_register(c: u32, data: Seq<u8>) -> u32
    decreases data.len(),
{
    if data.len() == 0 {
        c
    } else {
        crc32_register(crc32_byte(c, data[0]), data.drop_first())
    }
}

/// The CRC-32 (IEEE) of `data`, as PNG chunks carry it: the register starts with all bits
/// set, and the result is inverted.
pub open spec fn crc32_of(data: Seq<u8>) -> u32 {
    !crc32_register(0xFFFF_FFFFu32, data)
}

/// The IEND chunk written out as constant bytes is an empty chunk of type `IEND` with the
/// right CRC.
pub proof fn lemma_iend_is_a_chunk()
    ensures
        iend() == be32(0) + iend_tag() + be32(crc32_of(iend_tag())),
{
    let t = iend_tag();
    assert(crc32_byte(0xFFFF_FFFFu32, 0x49u8) == 0x22FD_E946u32) by (bit_vector);
    assert(crc32_byte(0x22FD_E946u32, 0x45u8) == 0x992B_AC53u32) by (bit_vector);
    assert(crc32_byte(0x992B_AC53u32, 0x4Eu8) == 0x639F_4775u32) by (bit_vector);
    assert(crc32_byte(0x639F_4775u32, 0x44u8) == 0x51BD_9F7Du32) by (bit_vector);
    assert(!0x51BD_9F7Du32 == 0xAE42_6082u32) by (bit_vector);
    assert(t.drop_first() =~= seq![0x45u8, 0x4Eu8, 0x44u8]);
    assert(t.drop_first().drop_first() =~= seq![0x4Eu8, 0x44u8]);
    assert(t.drop_first().drop_first().drop_first() =~= seq![0x44u8]);
    assert(t.drop_first().drop_first().drop_first().drop_first() =~= Seq::<u8>::empty());
    assert(crc32_register(0x51BD_9F7Du32, Seq::<u8>::empty()) == 0x51BD_9F7Du32);
    assert(crc32_register(0x639F_4775u32, seq![0x44u8]) == 0x51BD_9F7Du32);
    assert(crc32_register(0x992B_AC53u32, seq![0x4Eu8, 0x44u8]) == 0x51BD_9F7Du32);
    assert(crc32_register(0x22FD_E946u32, seq![0x45u8, 0x4Eu8, 0x44u8]) == 0x51BD_9F7Du32);
    assert(crc32_register(0xFFFF_FFFFu32, t) == 0x51BD_9F7Du32);
    assert(crc32_of(t) == 0xAE42_6082u32);
    let crc: u32 = 0xAE42_6082u32;
    assert((crc >> 24u32) as u8 == 0xAEu8 && (crc >> 16u32) as u8 == 0x42u8 && (crc >> 8u32) as u8
        == 0x60u8 && crc as u8 == 0x82u8) by (bit_vector)
        requires
            crc == 0xAE42_6082u32,
    ;
    let zero: u32 = 0;
    assert((zero >> 24u32) as u8 == 0u8 && (zero >> 16u32) as u8 == 0u8 && (zero >> 8u32) as u8
        == 0u8 && zero as u8 == 0u8) by (bit_vector)
        requires
            zero == 0u32,
    ;
    assert(iend() =~= be32(0) + iend_tag() + be32(crc));
}

/// The zlib stream that `miniz_oxide` produces of `data` at compression level `level`.
pub uninterp spec fn zlib_of(data: Seq<u8>, level: u8) -> Seq<u8>;

/// The PNG file of a `w` by `h` image whose compressed scanlines are `z`.
/// The IDAT length field holds the length of `z` cut to 32 bits.
pub open spec fn png_bytes(w: u32, h: u32, z: Seq<u8>) -> Seq<u8> {
    png_magic()
        + be32(IHDR_SIZ) + ihdr_body(w, h) + be32(crc32_of(ihdr_body(w, h)))
        + be32(z.len() as u32) + (idat_tag() + z) + be32(crc32_of(idat_tag() + z))
        + iend()
}

/// Byte `i` of the filtered scanlines of the pixels `px`, `w` to a row: each row is
/// the filter type 0 followed by the red, green and blue bytes of its pixels.
pub open spec fn scanline_byte(px: Seq<RGB>, w: nat, i: int) -> u8 {
    let stride: int = (3 * w + 1) as int;
    let off: int = i % stride;
    if off == 0 {
        0u8
    } else {
        px[(i / stride) * w + (off - 1) / 3]@[(off - 1) % 3]
    }
}

/// The filtered scanlines of the pixels `px`, `w` to a row; an incomplete last row is left out.
pub open spec fn scanlines(px: Seq<RGB>, w: nat) -> Seq<u8> {
    Seq::new((px.len() / w) * (3 * w + 1), |i: int| scanline_byte(px, w, i))
}

/// The zlib level that `CompressionLevel::DefaultLevel` stands for.
pub open spec fn default_level() -> u8 {
    6u8
}

/// `crc32fast::hash`: the CRC-32 (IEEE) of `data`.
#[verifier::external_body]
fn crc32(data: &[u8]) -> (crc: u32)
    ensures
        crc == crc32_of(data@),
{
    crc32fast::hash(data)
}

/// `miniz_oxide::deflate::compress_to_vec_zlib`: the zlib stream of `data` at `level`
/// (the crate documents levels 0 to 10), which depends on `data` and `level` alone.
#[verifier::external_body]
fn compress_zlib(data: &[u8], level: u8) -> (z: Vec<u8>)
    requires
        level <= 10,
    ensures
        z@ == zlib_of(data@, level),
{
    miniz_oxide::deflate::compress_to_vec_zlib(data, level)
}

/// The level of `miniz_oxide::deflate::CompressionLevel::DefaultLevel`, declared there as 6.
#[verifier::external_body]
fn default_compression_level() -> (level: u8)
    ensures
        level == default_level(),
{
    CompressionLevel::DefaultLevel as u8
}

/// Appends `x` to `buf` in big-endian byte order.
fn push_be32(buf: &mut Vec<u8>, x: u32)
    ensures
        final(buf)@ == old(buf)@ + be32(x),
{
    buf.push((x >> 24u32) as u8);
    buf.push((x >> 16u32) as u8);
    buf.push((x >> 8u32) as u8);
    buf.push(x as u8);
    assert(buf@ =~= old(buf)@ + be32(x));
}

/// Appends all of `bytes` to `buf`.
fn push_bytes(buf: &mut Vec<u8>, bytes: &[u8])
    ensures
        final(buf)@ == old(buf)@ + bytes@,
{
    let mut i: usize = 0;
    while i < bytes.len()
        invariant
            i <= bytes@.len(),
            buf@ == old(buf)@ + bytes@.subrange(0, i as int),
        decreases bytes@.len() - i,
    {
        buf.push(bytes[i]);
        i += 1;
        assert(buf@ =~= old(buf)@ + bytes@.subrange(0, i as int));
    }
    assert(bytes@.subrange(0, i as int) =~= bytes@);
}

/// Where byte `1 + 3 * c + k` of row `r` stands in the scanlines, `w` pixels to a row.
proof fn lemma_scanline_pos(w: nat, r: int, c: int, k: int)
    requires
        w > 0,
        0 <= r,
        0 <= c < w,
        0 <= k < 3,
    ensures
        ({
            let stride: int = (3 * w + 1) as int;
            let i: int = r * stride + 1 + 3 * c + k;
            &&& i % stride == 1 + 3 * c + k
            &&& i / stride == r
            &&& (3 * c + k) / 3 == c
            &&& (3 * c + k) % 3 == k
        }),
{
    let stride: int = (3 * w + 1) as int;
    vstd::arithmetic::div_mod::lemma_fundamental_div_mod_converse(
        r * stride + 1 + 3 * c + k,
        stride,
        r,
        1 + 3 * c + k,
    );
    vstd::arithmetic::div_mod::lemma_fundamental_div_mod_converse(3 * c + k, 3, c, k);
}

/// The first byte of row `r` of the scanlines, `w` pixels to a row.
proof fn lemma_row_start(w: nat, r: int)
    requires
        w > 0,
        0 <= r,
    ensures
        (r * (3 * w + 1)) % ((3 * w + 1) as int) == 0,
        (r * (3 * w + 1)) / ((3 * w + 1) as int) == r,
{
    vstd::arithmetic::div_mod::lemma_fundamental_div_mod_converse(
        r * (3 * w + 1),
        (3 * w + 1) as int,
        r,
        0,
    );
}

/// Pixel `c` of row `r` lies inside an image of `rows` full rows of `w` pixels.
proof fn lemma_pixel_in_bounds(w: int, rows: int, r: int, c: int)
    requires
        0 <= r < rows,
        0 <= c < w,
    ensures
        0 <= r * w + c < rows * w,
        r * w + w <= rows * w,
{
    assert(0 <= r * w + c < rows * w) by (nonlinear_arith)
        requires
            0 <= r < rows,
            0 <= c < w,
    ;
    assert(r * w + w <= rows * w) by (nonlinear_arith)
        requires
            0 <= r < rows,
            0 <= c < w,
    ;
}

/// The filtered scanlines of `img`, `w` pixels to a row: each full row becomes the
/// filter type 0 followed by the bytes of its pixels; a last, incomplete row is dropped.
pub fn filter_scanlines(img: &Vec<RGB>, w: u32) -> (raw: Vec<u8>)
    requires
        w > 0,
    ensures
        raw@ == scanlines(img@, w as nat),
{
    let wu = w as usize;
    let rows = img.len() / wu;
    let ghost stride: int = (3 * w + 1) as int;
    proof {
        assert(rows * wu <= img@.len()) by (nonlinear_arith)
            requires
                rows == img@.len() as int / (wu as int),
                wu > 0,
        ;
    }
    let mut raw: Vec<u8> = Vec::new();
    let mut r: usize = 0;
    while r < rows
        invariant
            wu == w,
            w > 0,
            stride == 3 * w + 1,
            rows == img@.len() as int / (w as int),
            rows * wu <= img@.len(),
            img@.len() <= usize::MAX,
            r <= rows,
            raw@.len() == r * stride,
            forall|i: int| 0 <= i < raw@.len() ==> raw@[i] == scanline_byte(img@, w as nat, i),
        decreases rows - r,
    {
        proof {
            lemma_row_start(w as nat, r as int);
        }
        raw.push(0u8);
        let mut c: usize = 0;
        while c < wu
            invariant
                wu == w,
                w > 0,
                stride == 3 * w + 1,
                rows * wu <= img@.len(),
                img@.len() <= usize::MAX,
                r < rows,
                c <= wu,
                raw@.len() == r * stride + 1 + 3 * c,
                forall|i: int|
                    0 <= i < raw@.len() ==> raw@[i] == scanline_byte(img@, w as nat, i),
            decreases wu - c,
        {
            proof {
                lemma_pixel_in_bounds(wu as int, rows as int, r as int, c as int);
                lemma_scanline_pos(w as nat, r as int, c as int, 0);
                lemma_scanline_pos(w as nat, r as int, c as int, 1);
                lemma_scanline_pos(w as nat, r as int, c as int, 2);
            }
            let px = img[r * wu + c];
            raw.push(px[0]);
            raw.push(px[1]);
            raw.push(px[2]);
            c += 1;
        }
        proof {
            assert((r + 1) * stride == r * stride + stride) by (nonlinear_arith);
        }
        r += 1;
    }
    assert(raw@ =~= scanlines(img@, w as nat));
    raw
}

/// Frames the compressed scanlines `zimg` of a `width` by `height` image as a PNG file:
/// signature, IHDR chunk, one IDAT chunk holding `zimg`, IEND chunk.
pub fn png_from_idat(width: u32, height: u32, zimg: &[u8]) -> (png: Vec<u8>)
    ensures
        png@ == png_bytes(width, height, zimg@),
        png@.len() == zimg@.len() + METADATA_SIZ,
{
    let zimg_len = zimg.len() as u32;
    let mut buf: Vec<u8> = Vec::new();
    push_bytes(&mut buf, &[0x89u8, 0x50, 0x4E, 0x47, 0x0D, 0x0A, 0x1A, 0x0A]);
    push_be32(&mut buf, IHDR_SIZ);
    let ghost head = buf@;
    // For the CRC32. The length of the field is not included.
    let off = buf.len();
    push_bytes(&mut buf, &[0x49u8, 0x48, 0x44, 0x52]);
    push_be32(&mut buf, width);
    push_be32(&mut buf, height);
    buf.push(EIGHT_BPP);
    buf.push(RGB_TYPE);
    // unused: compression method, filter method and interlacing.
    push_bytes(&mut buf, &[0u8, 0, 0]);
    assert(buf@.subrange(off as int, buf@.len() as int) =~= ihdr_body(width, height));
    let crc = crc32(vstd::slice::slice_subrange(buf.as_slice(), off, buf.len()));
    push_be32(&mut buf, crc);
    assert(buf@ =~= png_magic() + be32(IHDR_SIZ) + ihdr_body(width, height) + be32(
        crc32_of(ihdr_body(width, height)),
    ));

    let ghost head = buf@;
    push_be32(&mut buf, zimg_len);
    let off = buf.len();
    push_bytes(&mut buf, &[0x49u8, 0x44, 0x41, 0x54]);
    push_bytes(&mut buf, zimg);
    assert(buf@.subrange(off as int, buf@.len() as int) =~= idat_tag() + zimg@);
    let crc = crc32(vstd::slice::slice_subrange(buf.as_slice(), off, buf.len()));
    push_be32(&mut buf, crc);

    push_bytes(&mut buf, &[0u8, 0, 0, 0, 0x49, 0x45, 0x4E, 0x44, 0xAE, 0x42, 0x60, 0x82]);
    assert(buf@ =~= png_bytes(width, height, zimg@));
    buf
}

/// Where the parts of a PNG file made by `png_bytes` stand: the signature, the IHDR chunk
/// with the width and height, the IDAT chunk with the compressed data and its length,
/// and the IEND chunk at the end; the file is `METADATA_SIZ` bytes longer than the data.
pub proof fn lemma_png_layout(w: u32, h: u32, z: Seq<u8>)
    ensures
        ({
            let png = png_bytes(w, h, z);
            let n = z.len() as int;
            &&& png.len() == z.len() + METADATA_SIZ
            &&& png.subrange(0, 8) == png_magic()
            &&& png.subrange(8, 12) == be32(IHDR_SIZ)
            &&& png.subrange(12, 29) == ihdr_body(w, h)
            &&& png.subrange(16, 20) == be32(w)
            &&& png.subrange(20, 24) == be32(h)
            &&& png.subrange(29, 33) == be32(crc32_of(ihdr_body(w, h)))
            &&& png.subrange(33, 37) == be32(z.len() as u32)
            &&& png.subrange(37, 41) == idat_tag()
            &&& png.subrange(41, 41 + n) == z
            &&& png.subrange(41 + n, 45 + n) == be32(crc32_of(idat_tag() + z))
            &&& png.subrange(45 + n, 57 + n) == iend()
        }),
{
    let png = png_bytes(w, h, z);
    let n = z.len() as int;
    assert(png.subrange(0, 8) =~= png_magic());
    assert(png.subrange(8, 12) =~= be32(IHDR_SIZ));
    assert(png.subrange(12, 29) =~= ihdr_body(w, h));
    assert(png.subrange(16, 20) =~= be32(w));
    assert(png.subrange(20, 24) =~= be32(h));
    assert(png.subrange(29, 33) =~= be32(crc32_of(ihdr_body(w, h))));
    assert(png.subrange(33, 37) =~= be32(z.len() as u32));
    assert(png.subrange(37, 41) =~= idat_tag());
    assert(png.subrange(41, 41 + n) =~= z);
    assert(png.subrange(41 + n, 45 + n) =~= be32(crc32_of(idat_tag() + z)));
    assert(png.subrange(45 + n, 57 + n) =~= iend());
}

/// The scanlines of a `w` by `h` image hold `h` rows of `3 * w + 1` bytes; each row is
/// the filter type 0 followed by the red, green and blue bytes of its pixels in order.
pub proof fn lemma_scanline_rows(px: Seq<RGB>, w: nat, h: nat)
    requires
        w > 0,
        px.len() == w * h,
    ensures
        scanlines(px, w).len() == h * (3 * w + 1),
        forall|r: int|
            0 <= r < h ==> #[trigger] scanlines(px, w)[r * (3 * w + 1)] == 0,
        forall|r: int, c: int, k: int|
            0 <= r < h && 0 <= c < w && 0 <= k < 3 ==> #[trigger] scanlines(px, w)[r * (3 * w + 1)
                + 1 + 3 * c + k] == px[r * w + c]@[k],
{
    assert(w * h == h * w) by (nonlinear_arith);
    vstd::arithmetic::div_mod::lemma_fundamental_div_mod_converse(
        (w * h) as int,
        w as int,
        h as int,
        0,
    );
    assert forall|r: int| 0 <= r < h implies #[trigger] scanlines(px, w)[r * (3 * w + 1)] == 0 by {
        lemma_row_start(w, r);
        assert(r * (3 * w + 1) < h * (3 * w + 1)) by (nonlinear_arith)
            requires
                0 <= r < h,
                w > 0,
        ;
    }
    assert forall|r: int, c: int, k: int|
        0 <= r < h && 0 <= c < w && 0 <= k < 3 implies #[trigger] scanlines(px, w)[r * (3 * w + 1)
        + 1 + 3 * c + k] == px[r * w + c]@[k] by {
        lemma_scanline_pos(w, r, c, k);
        assert(r * (3 * w + 1) + 1 + 3 * c + k < h * (3 * w + 1)) by (nonlinear_arith)
            requires
                0 <= r < h,
                0 <= c < w,
                0 <= k < 3,
        ;
    }
}

/// The filtered scanlines of `img`, `w` pixels to a row, compressed into a zlib stream
/// at the default level.
fn gen_idat(img: Vec<RGB>, w: u32) -> (z: Vec<u8>)
    requires
        w > 0,
    ensures
        z@ == zlib_of(scanlines(img@, w as nat), default_level()),
{
    let raw = filter_scanlines(&img, w);
    compress_zlib(raw.as_slice(), default_compression_level())
}

/// A rendered image: its pixels row by row, its width and its height.
pub struct Image(Vec<RGB>, u32, u32);

impl Image {
    /// Both sides exceed one pixel and the pixels fill the rectangle exactly.
    #[verifier::type_invariant]
    spec fn well_sized(self) -> bool {
        &&& 1 < self.1
        &&& 1 < self.2
        &&& self.1 * self.2 <= u32::MAX
        &&& self.0@.len() == self.1 * self.2
    }

    /// The pixels, row by row from the top, each row from the left.
    pub closed spec fn pixels(self) -> Seq<RGB> {
        self.0@
    }

    /// The number of pixels in a row.
    pub closed spec fn width(self) -> u32 {
        self.1
    }

    /// The number of rows.
    pub closed spec fn height(self) -> u32 {
        self.2
    }

    /// An image of `w` by `h` pixels, given row by row. Both sides must exceed one pixel,
    /// and `img` must hold exactly `w * h` pixels.
    pub fn new(img: Vec<RGB>, w: u32, h: u32) -> (image: Image)
        requires
            w > 1,
            h > 1,
            w * h <= u32::MAX,
            img@.len() == w * h,
        ensures
            image.pixels() == img@,
            image.width() == w,
            image.height() == h,
    {
        Image(img, w, h)
    }

    /// The image as a PNG file of 8-bit RGB pixels: signature, IHDR, one IDAT chunk
    /// with the zlib-compressed scanlines (filter type 0 on every row), IEND.
    pub fn into_png(self) -> (png: Vec<u8>)
        ensures
            png@ == png_bytes(
                self.width(),
                self.height(),
                zlib_of(scanlines(self.pixels(), self.width() as nat), default_level()),
            ),
            png@.len() == zlib_of(scanlines(self.pixels(), self.width() as nat), default_level()).len()
                + METADATA_SIZ,
            scanlines(self.pixels(), self.width() as nat).len() == self.height() * (3
                * self.width() + 1),
    {
        proof {
            use_type_invariant(&self);
            let w = self.1 as int;
            let h = self.2 as int;
            assert(w * h == h * w) by (nonlinear_arith);
            vstd::arithmetic::div_mod::lemma_fundamental_div_mod_converse(w * h, w, h, 0);
            assert(self.0@.len() / self.1 as nat == h);
        }
        let Image(img, width, height) = self;
        let zimg = gen_idat(img, width);
        png_from_idat(width, height, zimg.as_slice())
    }
}

} // verus!
