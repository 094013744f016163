use lab1_poligono::checksum::{adler32, crc32};
use lab1_poligono::encode::{bmp_bytes, png_bytes, png_ihdr, zlib_store};
use lab1_poligono::framebuffer::{Color, Framebuffer};

#[test]
fn crc32_known_values() {
    assert_eq!(crc32(b"123456789"), 0xcbf4_3926);
    assert_eq!(crc32(b"IEND"), 0xae42_6082);
    assert_eq!(crc32(b""), 0);
}

#[test]
fn adler32_known_values() {
    assert_eq!(adler32(b"Wikipedia"), 0x11e6_0398);
    assert_eq!(adler32(b""), 1);
    assert_eq!(adler32(&[0, 1, 2, 3, 4, 5, 6, 7, 8]), 0x0081_0025);
}

#[test]
fn adler32_sums_wrap_at_the_modulus() {
    let bytes = vec![255u8; 1000];
    let (mut a, mut b) = (1u64, 0u64);
    for &x in bytes.iter() {
        a = (a + x as u64) % 65521;
        b = (b + a) % 65521;
    }
    assert_eq!(adler32(&bytes) as u64, (b << 16) | a);
}

fn two_pixels() -> Framebuffer {
    let mut fb = Framebuffer::new(2, 1, Color::new(1, 2, 3, 4));
    fb.set_pixel(1, 0, Color::new(5, 6, 7, 8));
    fb
}

#[test]
fn ihdr_holds_size_depth_and_colour_type() {
    let fb = Framebuffer::new(800, 450, Color::new(0, 0, 0, 0));
    assert_eq!(png_ihdr(&fb), [0, 0, 3, 32, 0, 0, 1, 194, 8, 6, 0, 0, 0]);
}

#[test]
fn png_of_two_pixels_is_exact() {
    let png = png_bytes(&two_pixels());
    let mut want: Vec<u8> = vec![0x89, b'P', b'N', b'G', 0x0d, 0x0a, 0x1a, 0x0a];
    want.extend_from_slice(&[0, 0, 0, 13]);
    want.extend_from_slice(b"IHDR");
    want.extend_from_slice(&[0, 0, 0, 2, 0, 0, 0, 1, 8, 6, 0, 0, 0]);
    want.extend_from_slice(&[0xf4, 0x22, 0x7f, 0x8a]);
    want.extend_from_slice(&[0, 0, 0, 20]);
    want.extend_from_slice(b"IDAT");
    want.extend_from_slice(&[
        0x78, 0x01, 1, 9, 0, 0xf6, 0xff, 0, 1, 2, 3, 4, 5, 6, 7, 8, 0x00, 0x81, 0x00, 0x25,
    ]);
    want.extend_from_slice(&[0x25, 0x2b, 0x1e, 0x22]);
    want.extend_from_slice(&[0, 0, 0, 0]);
    want.extend_from_slice(b"IEND");
    want.extend_from_slice(&[0xae, 0x42, 0x60, 0x82]);
    assert_eq!(png, want);
}

#[test]
fn zlib_store_splits_long_input_into_blocks() {
    let raw: Vec<u8> = (0..70000u32).map(|i| (i % 251) as u8).collect();
    let z = zlib_store(&raw);
    assert_eq!(&z[0..2], &[0x78, 0x01]);
    assert_eq!(&z[2..7], &[0, 0xff, 0xff, 0x00, 0x00]);
    assert_eq!(&z[7..7 + 65535], &raw[0..65535]);
    let rest = 70000 - 65535;
    let second = 7 + 65535;
    assert_eq!(z[second], 1);
    assert_eq!(u16::from_le_bytes([z[second + 1], z[second + 2]]) as usize, rest);
    assert_eq!(u16::from_le_bytes([z[second + 3], z[second + 4]]), !(rest as u16));
    assert_eq!(&z[second + 5..second + 5 + rest], &raw[65535..]);
    let tail = &z[z.len() - 4..];
    assert_eq!(u32::from_be_bytes([tail[0], tail[1], tail[2], tail[3]]), adler32(&raw));
    assert_eq!(z.len(), 2 + 5 + 65535 + 5 + rest + 4);
}

#[test]
fn zlib_store_of_nothing_has_no_block() {
    assert_eq!(zlib_store(&[]), vec![0x78, 0x01, 0, 0, 0, 1]);
}

#[test]
fn bmp_of_two_pixels_is_exact() {
    let bmp = bmp_bytes(&two_pixels());
    assert_eq!(bmp.len(), 54 + 8);
    assert_eq!(&bmp[0..2], b"BM");
    assert_eq!(u32::from_le_bytes(bmp[2..6].try_into().unwrap()), 62);
    assert_eq!(u32::from_le_bytes(bmp[10..14].try_into().unwrap()), 54);
    assert_eq!(u32::from_le_bytes(bmp[14..18].try_into().unwrap()), 40);
    assert_eq!(i32::from_le_bytes(bmp[18..22].try_into().unwrap()), 2);
    assert_eq!(i32::from_le_bytes(bmp[22..26].try_into().unwrap()), -1);
    assert_eq!(u16::from_le_bytes(bmp[26..28].try_into().unwrap()), 1);
    assert_eq!(u16::from_le_bytes(bmp[28..30].try_into().unwrap()), 32);
    assert_eq!(u32::from_le_bytes(bmp[34..38].try_into().unwrap()), 8);
    assert_eq!(u32::from_le_bytes(bmp[38..42].try_into().unwrap()), 2835);
    assert_eq!(&bmp[54..], &[3, 2, 1, 4, 7, 6, 5, 8]);
}

#[test]
fn png_decodes_back_to_rgba() {
    let mut fb = Framebuffer::new(3, 2, Color::new(1, 2, 3, 4));
    fb.set_pixel(2, 0, Color::new(9, 8, 7, 6));
    fb.set_pixel(0, 1, Color::new(50, 60, 70, 80));
    let png = png_bytes(&fb);
    let len = u32::from_be_bytes(png[33..37].try_into().unwrap()) as usize;
    assert_eq!(&png[37..41], b"IDAT");
    let z = &png[41..41 + len];
    assert_eq!(&z[0..2], &[0x78, 0x01]);
    // One stored block: final flag, length, complement, then the scanlines.
    assert_eq!(z[2], 1);
    let block = u16::from_le_bytes([z[3], z[4]]) as usize;
    assert_eq!(u16::from_le_bytes([z[5], z[6]]), !(block as u16));
    let raw = &z[7..7 + block];
    assert_eq!(raw.len(), (4 * 3 + 1) * 2);
    let mut pixels = Vec::new();
    for row in raw.chunks(4 * 3 + 1) {
        assert_eq!(row[0], 0);
        pixels.extend_from_slice(&row[1..]);
    }
    assert_eq!(pixels, fb.as_rgba8());
    assert_eq!(u32::from_be_bytes(z[z.len() - 4..].try_into().unwrap()), adler32(raw));
}

#[test]
fn cloned_framebuffer_has_the_same_pixels() {
    let fb = two_pixels();
    let copy = fb.clone();
    assert_eq!(copy.width(), 2);
    assert_eq!(copy.height(), 1);
    assert_eq!(copy.pixels(), fb.pixels());
}
