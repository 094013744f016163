use vstd::prelude::*;

use crate::checksum::{adler32, adler32_of, crc32, crc32_of};
use crate::framebuffer::{lemma_encode, lemma_rgba_layout, rgba_bytes, Color, FrameView, Framebuffer};

verus! {

/// The largest payload of one stored (uncompressed) deflate block.
pub const STORED_BLOCK_MAX: usize = 65535;

/// The four bytes of `v`, most significant first.
pub open spec fn be32(v: u32) -> Seq<u8> {
    seq![(v >> 24) as u8, (v >> 16) as u8, (v >> 8) as u8, v as u8]
}

/// The four bytes of `v`, least significant first.
pub open spec fn le32(v: u32) -> Seq<u8> {
    seq![v as u8, (v >> 8) as u8, (v >> 16) as u8, (v >> 24) as u8]
}

/// The two bytes of `v`, least significant first.
pub open spec fn le16(v: u16) -> Seq<u8> {
    seq![v as u8, (v >> 8) as u8]
}

/// The eight-byte PNG file signature.
pub open spec fn png_signature() -> Seq<u8> {
    seq![0x89u8, 0x50u8, 0x4eu8, 0x47u8, 0x0du8, 0x0au8, 0x1au8, 0x0au8]
}

/// The IHDR payload: width and height (big-endian, wrapped to 32 bits), bit
/// depth 8, colour type 6 (RGBA), default compression, filter and interlace.
pub open spec fn ihdr_payload(width: nat, height: nat) -> Seq<u8> {
    be32(width as u32) + be32(height as u32) + seq![8u8, 6u8, 0u8, 0u8, 0u8]
}

/// A PNG chunk: payload length, type, payload, and the CRC-32 of type and payload.
pub open spec fn png_chunk_bytes(kind: Seq<u8>, data: Seq<u8>) -> Seq<u8> {
    be32(data.len() as u32) + kind + data + be32(crc32_of(kind + data))
}

/// The pixels of row `y`.
pub open spec fn row_pixels(v: FrameView, y: int) -> Seq<Color> {
    v.pixels.subrange(y * v.width, y * v.width + v.width)
}

/// The first `k` rows as PNG scanlines: each is a zero filter byte followed by
/// the row's RGBA bytes.
pub open spec fn png_scanlines(v: FrameView, k: nat) -> Seq<u8>
    decreases k,
{
    if k == 0 {
        seq![]
    } else {
        png_scanlines(v, (k - 1) as nat) + seq![0u8] + rgba_bytes(row_pixels(v, k - 1))
    }
}

/// `raw` cut into stored deflate blocks of at most `STORED_BLOCK_MAX` bytes:
/// a final-block flag, the length and its complement (little-endian), then
/// the bytes. Nothing at all for an empty input.
pub open spec fn stored_blocks(raw: Seq<u8>) -> Seq<u8>
    decreases raw.len(),
{
    if raw.len() == 0 {
        seq![]
    } else if raw.len() <= STORED_BLOCK_MAX {
        let len = raw.len() as u16;
        seq![1u8] + le16(len) + le16(!len) + raw
    } else {
        let len = STORED_BLOCK_MAX as u16;
        seq![0u8] + le16(len) + le16(!len) + raw.take(STORED_BLOCK_MAX as int) + stored_blocks(
            raw.skip(STORED_BLOCK_MAX as int),
        )
    }
}

/// A zlib stream holding `raw` without compression: header 78 01, stored
/// blocks, and the Adler-32 of `raw` (big-endian).
pub open spec fn zlib_stored(raw: Seq<u8>) -> Seq<u8> {
    seq![0x78u8, 0x01u8] + stored_blocks(raw) + be32(adler32_of(raw))
}

pub open spec fn ihdr_tag() -> Seq<u8> {
    seq![0x49u8, 0x48u8, 0x44u8, 0x52u8]
}

pub open spec fn idat_tag() -> Seq<u8> {
    seq![0x49u8, 0x44u8, 0x41u8, 0x54u8]
}

pub open spec fn iend_tag() -> Seq<u8> {
    seq![0x49u8, 0x45u8, 0x4eu8, 0x44u8]
}

/// The PNG file of a framebuffer: signature, IHDR, one IDAT chunk with the
/// zlib-stored scanlines, and IEND.
pub open spec fn png_file(v: FrameView) -> Seq<u8> {
    png_signature() + png_chunk_bytes(ihdr_tag(), ihdr_payload(v.width, v.height))
        + png_chunk_bytes(idat_tag(), zlib_stored(png_scanlines(v, v.height))) + png_chunk_bytes(
        iend_tag(),
        seq![],
    )
}

/// The BGRA bytes of a run of pixels: blue, green, red, alpha for each.
pub open spec fn bgra_bytes(pixels: Seq<Color>) -> Seq<u8>
    decreases pixels.len(),
{
    if pixels.len() == 0 {
        seq![]
    } else {
        let c = pixels.last();
        bgra_bytes(pixels.drop_last()) + seq![c.b, c.g, c.r, c.a]
    }
}

/// The 54-byte BMP header of a framebuffer: a 14-byte file header and a
/// 40-byte BITMAPINFOHEADER for a top-down 32-bit image (negative height) at
/// 2835 pixels per metre.
pub open spec fn bmp_header(v: FrameView) -> Seq<u8> {
    let pixel_bytes = v.width * v.height * 4;
    let file_size = 14 + 40 + pixel_bytes;
    seq![0x42u8, 0x4du8] + le32(file_size as u32) + seq![0u8, 0u8, 0u8, 0u8] + le32(54) + le32(40)
        + le32(((v.width as i32) as u32)) + le32((-(v.height as i32)) as u32) + le16(1) + le16(32)
        + le32(0) + le32(pixel_bytes as u32) + le32(2835) + le32(2835) + le32(0) + le32(0)
}

/// The BMP file of a framebuffer: the header, then the pixels as BGRA in
/// row-major order.
pub open spec fn bmp_file(v: FrameView) -> Seq<u8> {
    bmp_header(v) + bgra_bytes(v.pixels)
}

/// The sizes for which the PNG encoding needs no more room than an allocation can have.
pub open spec fn png_size_ok(v: FrameView) -> bool {
    &&& 4 * v.width + 1 <= usize::MAX
    &&& (4 * v.width + 1) * v.height <= isize::MAX
}

/// The sizes whose BMP header fields can be computed.
pub open spec fn bmp_size_ok(v: FrameView) -> bool {
    &&& v.width * v.height * 4 + 54 <= usize::MAX
    &&& (v.height as i32) != i32::MIN
}

fn push_be32(out: &mut Vec<u8>, v: u32)
    ensures
        final(out)@ == old(out)@ + be32(v),
{
    out.push((v >> 24) as u8);
    out.push((v >> 16) as u8);
    out.push((v >> 8) as u8);
    out.push(v as u8);
    assert(final(out)@ =~= old(out)@ + be32(v));
}

fn push_le32(out: &mut Vec<u8>, v: u32)
    ensures
        final(out)@ == old(out)@ + le32(v),
{
    out.push(v as u8);
    out.push((v >> 8) as u8);
    out.push((v >> 16) as u8);
    out.push((v >> 24) as u8);
    assert(final(out)@ =~= old(out)@ + le32(v));
}

fn push_le16(out: &mut Vec<u8>, v: u16)
    ensures
        final(out)@ == old(out)@ + le16(v),
{
    out.push(v as u8);
    out.push((v >> 8) as u8);
    assert(final(out)@ =~= old(out)@ + le16(v));
}

fn push_all(out: &mut Vec<u8>, bytes: &[u8])
    ensures
        final(out)@ == old(out)@ + bytes@,
{
    let ghost start = out@;
    let n = bytes.len();
    let mut i: usize = 0;
    while i < n
        invariant
            n == bytes@.len(),
            i <= n,
            out@ == start + bytes@.take(i as int),
        decreases n - i,
    {
        out.push(bytes[i]);
        assert(out@ =~= start + bytes@.take(i + 1));
        i += 1;
    }
    assert(bytes@.take(n as int) =~= bytes@);
}

/// The IHDR payload of a framebuffer.
pub fn png_ihdr(framebuffer: &Framebuffer) -> (ihdr: [u8; 13])
    ensures
        ihdr@ == ihdr_payload(framebuffer@.width, framebuffer@.height),
{
    let w = framebuffer.width() as u32;
    let h = framebuffer.height() as u32;
    let ihdr = [
        (w >> 24) as u8,
        (w >> 16) as u8,
        (w >> 8) as u8,
        w as u8,
        (h >> 24) as u8,
        (h >> 16) as u8,
        (h >> 8) as u8,
        h as u8,
        8,
        6,
        0,
        0,
        0,
    ];
    assert(ihdr@ =~= ihdr_payload(framebuffer@.width, framebuffer@.height));
    ihdr
}

/// Appends a PNG chunk of the given type and payload.
pub fn push_png_chunk(out: &mut Vec<u8>, kind: &[u8; 4], data: &[u8])
    ensures
        final(out)@ == old(out)@ + png_chunk_bytes(kind@, data@),
{
    let ghost start = out@;
    push_be32(out, data.len() as u32);
    push_all(out, kind.as_slice());
    push_all(out, data);
    let mut crc_data: Vec<u8> = Vec::new();
    push_all(&mut crc_data, kind.as_slice());
    push_all(&mut crc_data, data);
    push_be32(out, crc32(crc_data.as_slice()));
    assert(out@ =~= start + png_chunk_bytes(kind@, data@));
}

/// The scanlines of a framebuffer as PNG stores them: each row preceded by
/// filter type 0.
pub fn png_raw_scanlines(framebuffer: &Framebuffer) -> (raw: Vec<u8>)
    ensures
        raw@ == png_scanlines(framebuffer@, framebuffer@.height),
{
    proof {
        use_type_invariant(framebuffer);
    }
    let ghost v = framebuffer@;
    let width = framebuffer.width();
    let height = framebuffer.height();
    let pixels = framebuffer.pixels();
    let mut raw: Vec<u8> = Vec::new();
    let mut y: usize = 0;
    while y < height
        invariant
            v == framebuffer@,
            v.wf(),
            width == v.width,
            height == v.height,
            pixels@ == v.pixels,
            y <= height,
            raw@ == png_scanlines(v, y as nat),
        decreases height - y,
    {
        raw.push(0);
        let ghost row_start = raw@;
        let ghost row = row_pixels(v, y as int);
        proof {
            let w = width as int;
            let h = height as int;
            let yi = y as int;
            assert(0 <= yi * w && yi * w + w <= w * h) by (nonlinear_arith)
                requires
                    0 <= yi < h,
                    0 <= w,
            ;
            assert(row.len() == width);
        }
        let mut x: usize = 0;
        while x < width
            invariant
                v == framebuffer@,
                v.wf(),
                width == v.width,
                height == v.height,
                pixels@ == v.pixels,
                y < height,
                x <= width,
                row == row_pixels(v, y as int),
                row.len() == width,
                0 <= y * width,
                y * width + width <= pixels@.len(),
                raw@ == row_start + rgba_bytes(row.take(x as int)),
            decreases width - x,
        {
            let n = pixels.len();
            proof {
                lemma_encode(v, x as int, y as int);
                assert(y * width + x < n);
            }
            let p = pixels[y * width + x];
            raw.push(p.r);
            raw.push(p.g);
            raw.push(p.b);
            raw.push(p.a);
            proof {
                assert(row.take(x + 1).drop_last() =~= row.take(x as int));
                assert(row[x as int] == p);
                assert(raw@ =~= row_start + rgba_bytes(row.take(x + 1)));
            }
            x += 1;
        }
        proof {
            assert(row.take(width as int) =~= row);
        }
        y += 1;
    }
    raw
}

/// Wraps `raw` in a zlib stream of stored (uncompressed) blocks.
pub fn zlib_store(raw: &[u8]) -> (stream: Vec<u8>)
    ensures
        stream@ == zlib_stored(raw@),
{
    let mut out: Vec<u8> = Vec::new();
    out.push(0x78);
    out.push(0x01);
    let ghost head = out@;
    let n = raw.len();
    assert(raw@.skip(0) =~= raw@);
    let mut pos: usize = 0;
    while pos < n
        invariant
            n == raw@.len(),
            pos <= n,
            out@ + stored_blocks(raw@.skip(pos as int)) == head + stored_blocks(raw@),
        decreases n - pos,
    {
        let rest = n - pos;
        let take = if rest <= STORED_BLOCK_MAX {
            rest
        } else {
            STORED_BLOCK_MAX
        };
        let is_last: u8 = if rest <= STORED_BLOCK_MAX {
            1
        } else {
            0
        };
        let ghost before = out@;
        let ghost tail = raw@.skip(pos as int);
        out.push(is_last);
        let len = take as u16;
        push_le16(&mut out, len);
        push_le16(&mut out, !len);
        let mut i: usize = pos;
        while i < pos + take
            invariant
                n == raw@.len(),
                pos + take <= n,
                pos <= i <= pos + take,
                out@ == before + seq![is_last] + le16(len) + le16(!len) + raw@.subrange(
                    pos as int,
                    i as int,
                ),
            decreases pos + take - i,
        {
            out.push(raw[i]);
            assert(out@ =~= before + seq![is_last] + le16(len) + le16(!len) + raw@.subrange(
                pos as int,
                i + 1,
            ));
            i += 1;
        }
        proof {
            assert(raw@.subrange(pos as int, (pos + take) as int) =~= tail.take(take as int));
            assert(tail.skip(take as int) =~= raw@.skip(pos + take));
            if rest <= STORED_BLOCK_MAX {
                assert(tail.take(take as int) =~= tail);
                assert(raw@.skip(pos + take) =~= Seq::<u8>::empty());
                assert(out@ + stored_blocks(raw@.skip(pos + take)) =~= before + stored_blocks(
                    tail,
                ));
            } else {
                assert(out@ + stored_blocks(raw@.skip(pos + take)) =~= before + stored_blocks(
                    tail,
                ));
            }
        }
        pos = pos + take;
    }
    proof {
        assert(raw@.skip(n as int) =~= Seq::<u8>::empty());
        assert(out@ =~= head + stored_blocks(raw@));
    }
    push_be32(&mut out, adler32(raw));
    assert(out@ =~= zlib_stored(raw@));
    out
}

/// The complete PNG file of a framebuffer.
pub fn png_bytes(framebuffer: &Framebuffer) -> (bytes: Vec<u8>)
    requires
        png_size_ok(framebuffer@),
    ensures
        bytes@ == png_file(framebuffer@),
{
    proof {
        use_type_invariant(framebuffer);
    }
    let raw = png_raw_scanlines(framebuffer);
    let zlib = zlib_store(raw.as_slice());
    let mut out: Vec<u8> = Vec::new();
    let signature: [u8; 8] = [0x89, 0x50, 0x4e, 0x47, 0x0d, 0x0a, 0x1a, 0x0a];
    push_all(&mut out, signature.as_slice());
    let ihdr = png_ihdr(framebuffer);
    let ihdr_kind: [u8; 4] = [0x49, 0x48, 0x44, 0x52];
    let idat_kind: [u8; 4] = [0x49, 0x44, 0x41, 0x54];
    let iend_kind: [u8; 4] = [0x49, 0x45, 0x4e, 0x44];
    let empty: [u8; 0] = [];
    push_png_chunk(&mut out, &ihdr_kind, ihdr.as_slice());
    push_png_chunk(&mut out, &idat_kind, zlib.as_slice());
    push_png_chunk(&mut out, &iend_kind, empty.as_slice());
    assert(signature@ =~= png_signature());
    assert(ihdr_kind@ =~= ihdr_tag());
    assert(idat_kind@ =~= idat_tag());
    assert(iend_kind@ =~= iend_tag());
    assert(empty@ =~= Seq::<u8>::empty());
    assert(out@ =~= png_file(framebuffer@));
    out
}

/// The complete BMP file of a framebuffer.
pub fn bmp_bytes(framebuffer: &Framebuffer) -> (bytes: Vec<u8>)
    requires
        bmp_size_ok(framebuffer@),
    ensures
        bytes@ == bmp_file(framebuffer@),
{
    proof {
        use_type_invariant(framebuffer);
    }
    let ghost v = framebuffer@;
    let width = framebuffer.width();
    let height = framebuffer.height();
    let pixels = framebuffer.pixels();
    assert(width * height * 4 + 54 <= usize::MAX);
    let pixel_bytes = width * height * 4;
    let file_size = 14 + 40 + pixel_bytes;
    let mut out: Vec<u8> = Vec::new();
    out.push(0x42);
    out.push(0x4d);
    push_le32(&mut out, file_size as u32);
    push_le32(&mut out, 0);
    push_le32(&mut out, 54);
    push_le32(&mut out, 40);
    push_le32(&mut out, (width as i32) as u32);
    push_le32(&mut out, (-(height as i32)) as u32);
    push_le16(&mut out, 1);
    push_le16(&mut out, 32);
    push_le32(&mut out, 0);
    push_le32(&mut out, pixel_bytes as u32);
    push_le32(&mut out, 2835);
    push_le32(&mut out, 2835);
    push_le32(&mut out, 0);
    push_le32(&mut out, 0);
    let ghost header = out@;
    let n = pixels.len();
    let mut i: usize = 0;
    while i < n
        invariant
            n == pixels@.len(),
            i <= n,
            out@ == header + bgra_bytes(pixels@.take(i as int)),
        decreases n - i,
    {
        let p = pixels[i];
        out.push(p.b);
        out.push(p.g);
        out.push(p.r);
        out.push(p.a);
        proof {
            assert(pixels@.take(i + 1).drop_last() =~= pixels@.take(i as int));
            assert(out@ =~= header + bgra_bytes(pixels@.take(i + 1)));
        }
        i += 1;
    }
    proof {
        assert(pixels@.take(n as int) =~= pixels@);
        let z = 0u32;
        assert(z as u8 == 0 && (z >> 8) as u8 == 0 && (z >> 16) as u8 == 0 && (z >> 24) as u8 == 0)
            by (bit_vector)
            requires
                z == 0,
        ;
        assert(le32(0) =~= seq![0u8, 0u8, 0u8, 0u8]);
        assert(header =~= bmp_header(v));
        assert(out@ =~= bmp_file(v));
    }
    out
}

/// The number that four big-endian bytes spell.
pub open spec fn be32_value(b: Seq<u8>) -> int {
    b[0] * 0x100_0000 + b[1] * 0x1_0000 + b[2] * 0x100 + b[3]
}

/// The number that four little-endian bytes spell.
pub open spec fn le32_value(b: Seq<u8>) -> int {
    b[3] * 0x100_0000 + b[2] * 0x1_0000 + b[1] * 0x100 + b[0]
}

/// Reading four big-endian bytes back gives the number that was written.
pub proof fn lemma_be32_roundtrip(v: u32)
    ensures
        be32(v).len() == 4,
        be32_value(be32(v)) == v,
{
    let b0 = (v >> 24) as u8;
    let b1 = (v >> 16) as u8;
    let b2 = (v >> 8) as u8;
    let b3 = v as u8;
    assert(v == (b0 as u32) * 0x100_0000 + (b1 as u32) * 0x1_0000 + (b2 as u32) * 0x100 + (
    b3 as u32)) by (bit_vector)
        requires
            b0 == (v >> 24) as u8,
            b1 == (v >> 16) as u8,
            b2 == (v >> 8) as u8,
            b3 == v as u8,
    ;
}

/// Reading four little-endian bytes back gives the number that was written.
pub proof fn lemma_le32_roundtrip(v: u32)
    ensures
        le32(v).len() == 4,
        le32_value(le32(v)) == v,
{
    let b0 = v as u8;
    let b1 = (v >> 8) as u8;
    let b2 = (v >> 16) as u8;
    let b3 = (v >> 24) as u8;
    assert(v == (b3 as u32) * 0x100_0000 + (b2 as u32) * 0x1_0000 + (b1 as u32) * 0x100 + (
    b0 as u32)) by (bit_vector)
        requires
            b0 == v as u8,
            b1 == (v >> 8) as u8,
            b2 == (v >> 16) as u8,
            b3 == (v >> 24) as u8,
    ;
}

/// A PNG file starts with the signature and the IHDR chunk, whose width and
/// height read back as the framebuffer's (wrapped to 32 bits), and ends with
/// the IEND chunk.
pub proof fn lemma_png_layout(v: FrameView)
    ensures
        ({
            let f = png_file(v);
            &&& f.len() >= 45
            &&& f.subrange(0, 8) == png_signature()
            &&& be32_value(f.subrange(8, 12)) == 13
            &&& f.subrange(12, 16) == ihdr_tag()
            &&& be32_value(f.subrange(16, 20)) == v.width as u32
            &&& be32_value(f.subrange(20, 24)) == v.height as u32
            &&& f.subrange(24, 29) == seq![8u8, 6u8, 0u8, 0u8, 0u8]
            &&& f.subrange(f.len() - 12, f.len() as int) == png_chunk_bytes(iend_tag(), seq![])
        }),
{
    let f = png_file(v);
    let payload = ihdr_payload(v.width, v.height);
    let ihdr = png_chunk_bytes(ihdr_tag(), payload);
    let idat = png_chunk_bytes(idat_tag(), zlib_stored(png_scanlines(v, v.height)));
    let iend = png_chunk_bytes(iend_tag(), seq![]);
    assert(f == png_signature() + ihdr + idat + iend);
    assert(payload.len() == 13);
    lemma_be32_roundtrip(13);
    lemma_be32_roundtrip(v.width as u32);
    lemma_be32_roundtrip(v.height as u32);
    assert(f.subrange(0, 8) =~= png_signature());
    assert(f.subrange(8, 12) =~= be32(13));
    assert(f.subrange(12, 16) =~= ihdr_tag());
    assert(f.subrange(16, 20) =~= be32(v.width as u32));
    assert(f.subrange(20, 24) =~= be32(v.height as u32));
    assert(f.subrange(24, 29) =~= seq![8u8, 6u8, 0u8, 0u8, 0u8]);
    assert(iend.len() == 12);
    assert(f.subrange(f.len() - 12, f.len() as int) =~= iend);
}

/// The BGRA bytes hold four bytes per pixel: pixel `i` gives bytes `4i` to
/// `4i + 3`, blue first.
pub proof fn lemma_bgra_layout(pixels: Seq<Color>)
    ensures
        bgra_bytes(pixels).len() == 4 * pixels.len(),
        forall|i: int|
            0 <= i < pixels.len() ==> {
                &&& bgra_bytes(pixels)[4 * i] == (#[trigger] pixels[i]).b
                &&& bgra_bytes(pixels)[4 * i + 1] == pixels[i].g
                &&& bgra_bytes(pixels)[4 * i + 2] == pixels[i].r
                &&& bgra_bytes(pixels)[4 * i + 3] == pixels[i].a
            },
    decreases pixels.len(),
{
    if pixels.len() > 0 {
        let rest = pixels.drop_last();
        lemma_bgra_layout(rest);
        assert forall|i: int| 0 <= i < pixels.len() implies {
            &&& bgra_bytes(pixels)[4 * i] == (#[trigger] pixels[i]).b
            &&& bgra_bytes(pixels)[4 * i + 1] == pixels[i].g
            &&& bgra_bytes(pixels)[4 * i + 2] == pixels[i].r
            &&& bgra_bytes(pixels)[4 * i + 3] == pixels[i].a
        } by {
            if i < rest.len() {
                assert(rest[i] == pixels[i]);
            }
        }
    }
}

/// A BMP file is a 54-byte header followed by the pixels; the header holds
/// "BM", the width, and the negated height (a top-down image), each reading
/// back as written.
pub proof fn lemma_bmp_layout(v: FrameView)
    ensures
        ({
            let f = bmp_file(v);
            &&& f.len() == 54 + 4 * v.pixels.len()
            &&& f.subrange(0, 2) == seq![0x42u8, 0x4du8]
            &&& le32_value(f.subrange(10, 14)) == 54
            &&& le32_value(f.subrange(18, 22)) == ((v.width as i32) as u32)
            &&& le32_value(f.subrange(22, 26)) == ((-(v.height as i32)) as u32)
            &&& f.subrange(54, f.len() as int) == bgra_bytes(v.pixels)
        }),
{
    let f = bmp_file(v);
    let h = bmp_header(v);
    lemma_bgra_layout(v.pixels);
    lemma_le32_roundtrip(54);
    lemma_le32_roundtrip((v.width as i32) as u32);
    lemma_le32_roundtrip((-(v.height as i32)) as u32);
    assert(h.len() == 54);
    assert(h.subrange(0, 2) =~= seq![0x42u8, 0x4du8]);
    assert(h.subrange(10, 14) =~= le32(54));
    assert(h.subrange(18, 22) =~= le32((v.width as i32) as u32));
    assert(h.subrange(22, 26) =~= le32((-(v.height as i32)) as u32));
    assert(f.subrange(0, 2) =~= h.subrange(0, 2));
    assert(f.subrange(10, 14) =~= h.subrange(10, 14));
    assert(f.subrange(18, 22) =~= h.subrange(18, 22));
    assert(f.subrange(22, 26) =~= h.subrange(22, 26));
    assert(f.subrange(54, f.len() as int) =~= bgra_bytes(v.pixels));
}

/// The number that two little-endian bytes spell.
pub open spec fn le16_value(b: Seq<u8>) -> int {
    b[1] * 0x100 + b[0]
}

/// Reads stored deflate blocks back: each block is a final-block flag, a
/// little-endian length, its complement, and that many bytes; reading stops
/// after a final block or at anything malformed.
pub open spec fn unstore(s: Seq<u8>) -> Seq<u8>
    decreases s.len(),
{
    if s.len() < 5 {
        seq![]
    } else {
        let len = le16_value(s.subrange(1, 3));
        if len > s.len() - 5 {
            seq![]
        } else {
            let payload = s.subrange(5, 5 + len);
            if s[0] == 1 {
                payload
            } else {
                payload + unstore(s.skip(5 + len))
            }
        }
    }
}

/// Reading two little-endian bytes back gives the number that was written.
pub proof fn lemma_le16_roundtrip(v: u16)
    ensures
        le16(v).len() == 2,
        le16_value(le16(v)) == v,
{
    let b0 = v as u8;
    let b1 = (v >> 8) as u8;
    assert(v == (b1 as u16) * 0x100 + (b0 as u16)) by (bit_vector)
        requires
            b0 == v as u8,
            b1 == (v >> 8) as u8,
    ;
}

/// Reading the stored blocks back gives the bytes that were stored.
pub proof fn lemma_unstore_stored(raw: Seq<u8>)
    ensures
        unstore(stored_blocks(raw)) == raw,
    decreases raw.len(),
{
    let s = stored_blocks(raw);
    if raw.len() == 0 {
        assert(s.len() == 0);
        assert(unstore(s) =~= raw);
    } else if raw.len() <= STORED_BLOCK_MAX {
        let len = raw.len() as u16;
        lemma_le16_roundtrip(len);
        lemma_le16_roundtrip(!len);
        assert(s.subrange(1, 3) =~= le16(len));
        assert(s.subrange(5, 5 + raw.len() as int) =~= raw);
    } else {
        let len = STORED_BLOCK_MAX as u16;
        lemma_le16_roundtrip(len);
        lemma_le16_roundtrip(!len);
        let rest = raw.skip(STORED_BLOCK_MAX as int);
        lemma_unstore_stored(rest);
        assert(s.subrange(1, 3) =~= le16(len));
        assert(s.subrange(5, 5 + STORED_BLOCK_MAX) =~= raw.take(STORED_BLOCK_MAX as int));
        assert(s.skip(5 + STORED_BLOCK_MAX) =~= stored_blocks(rest));
        assert(raw.take(STORED_BLOCK_MAX as int) + rest =~= raw);
    }
}

/// The zlib stream of `raw` holds `raw` back between its two-byte header and
/// its four-byte checksum, and the checksum reads back as the Adler-32 of `raw`.
pub proof fn lemma_zlib_stored_roundtrip(raw: Seq<u8>)
    ensures
        ({
            let z = zlib_stored(raw);
            &&& z.len() >= 6
            &&& z.subrange(0, 2) == seq![0x78u8, 0x01u8]
            &&& unstore(z.subrange(2, z.len() - 4)) == raw
            &&& be32_value(z.subrange(z.len() - 4, z.len() as int)) == adler32_of(raw)
        }),
{
    let z = zlib_stored(raw);
    lemma_unstore_stored(raw);
    lemma_be32_roundtrip(adler32_of(raw));
    assert(z.subrange(0, 2) =~= seq![0x78u8, 0x01u8]);
    assert(z.subrange(2, z.len() - 4) =~= stored_blocks(raw));
    assert(z.subrange(z.len() - 4, z.len() as int) =~= be32(adler32_of(raw)));
}

/// The RGBA bytes of two runs of pixels are those of the first, then those of the second.
pub proof fn lemma_rgba_concat(a: Seq<Color>, b: Seq<Color>)
    ensures
        rgba_bytes(a + b) == rgba_bytes(a) + rgba_bytes(b),
    decreases b.len(),
{
    if b.len() == 0 {
        assert(a + b =~= a);
        assert(rgba_bytes(a) + rgba_bytes(b) =~= rgba_bytes(a));
    } else {
        lemma_rgba_concat(a, b.drop_last());
        assert((a + b).drop_last() =~= a + b.drop_last());
        assert((a + b).last() == b.last());
        assert(rgba_bytes(a + b) =~= rgba_bytes(a) + rgba_bytes(b));
    }
}

/// The RGBA bytes of a slice of pixels are the matching slice of the RGBA bytes.
pub proof fn lemma_rgba_subrange(s: Seq<Color>, lo: int, hi: int)
    requires
        0 <= lo <= hi <= s.len(),
    ensures
        rgba_bytes(s.subrange(lo, hi)) == rgba_bytes(s).subrange(4 * lo, 4 * hi),
{
    let a = s.subrange(0, lo);
    let b = s.subrange(lo, hi);
    let c = s.subrange(hi, s.len() as int);
    assert(s =~= a + (b + c));
    lemma_rgba_concat(a, b + c);
    lemma_rgba_concat(b, c);
    lemma_rgba_layout(a);
    lemma_rgba_layout(b);
    assert(rgba_bytes(s).subrange(4 * lo, 4 * hi) =~= rgba_bytes(b));
}

/// The bytes in a block of PNG scanlines that belong to pixels: each row of
/// `4 * width + 1` bytes without its leading filter byte.
pub open spec fn strip_filter_bytes(raw: Seq<u8>, width: nat, k: nat) -> Seq<u8>
    decreases k,
{
    if k == 0 {
        seq![]
    } else {
        let row: int = 4 * (width as int) + 1;
        strip_filter_bytes(raw, width, (k - 1) as nat) + raw.subrange(
            row * (k - 1) + 1,
            row * (k as int),
        )
    }
}

/// The filter byte of row `y` in a block of PNG scanlines.
pub open spec fn filter_byte(raw: Seq<u8>, width: int, y: int) -> u8 {
    raw[(4 * width + 1) * y]
}

/// The pixel bytes of row `y` in a block of PNG scanlines.
pub open spec fn row_payload(raw: Seq<u8>, width: int, y: int) -> Seq<u8> {
    raw.subrange((4 * width + 1) * y + 1, (4 * width + 1) * (y + 1))
}

/// The PNG scanlines hold one row of `4 * width + 1` bytes per pixel row: a
/// zero filter byte, then the matching slice of the RGBA bytes; dropping the
/// filter bytes gives the RGBA bytes of those rows.
#[verifier::rlimit(40)]
pub proof fn lemma_png_rows(v: FrameView, k: nat)
    requires
        v.wf(),
        k <= v.height,
    ensures
        ({
            let raw = png_scanlines(v, k);
            let w = v.width as int;
            &&& raw.len() == (4 * w + 1) * k
            &&& forall|y: int| 0 <= y < k ==> #[trigger] filter_byte(raw, w, y) == 0
            &&& forall|y: int|
                0 <= y < k ==> #[trigger] row_payload(raw, w, y) == rgba_bytes(v.pixels).subrange(
                    4 * w * y,
                    4 * w * (y + 1),
                )
            &&& strip_filter_bytes(raw, v.width, k) == rgba_bytes(v.pixels).subrange(0, 4 * w * k)
        }),
    decreases k,
{
    let w = v.width as int;
    let h = v.height as int;
    let raw = png_scanlines(v, k);
    lemma_rgba_layout(v.pixels);
    if k == 0 {
        assert((4 * w + 1) * 0 == 0 && 4 * w * 0 == 0) by (nonlinear_arith);
        assert(rgba_bytes(v.pixels).subrange(0, 0) =~= Seq::<u8>::empty());
    } else {
        let j = k - 1;
        lemma_png_rows(v, j as nat);
        let prev = png_scanlines(v, j as nat);
        let row = row_pixels(v, j);
        assert(w * j + w == w * k && 0 <= w * j && w * k <= w * h) by (nonlinear_arith)
            requires
                j == k - 1,
                0 <= j,
                k <= h,
                0 <= w,
        ;
        assert(w * h == v.pixels.len());
        lemma_rgba_subrange(v.pixels, w * j, w * k);
        lemma_rgba_layout(row);
        let bytes = rgba_bytes(row);
        assert(row.len() == w);
        assert(raw == prev + seq![0u8] + bytes);
        let start = (4 * w + 1) * j;
        assert((4 * w + 1) * k == start + 1 + 4 * w && 4 * (w * j) == 4 * w * j && 4 * (w * k) == 4
            * w * k) by (nonlinear_arith)
            requires
                start == (4 * w + 1) * j,
                k == j + 1,
        ;
        assert(prev.len() == start);
        assert(raw.len() == (4 * w + 1) * k);
        assert forall|y: int| 0 <= y < k implies #[trigger] filter_byte(raw, w, y) == 0
            && row_payload(raw, w, y) == rgba_bytes(v.pixels).subrange(4 * w * y, 4 * w * (y + 1)) by {
            if y < j {
                assert((4 * w + 1) * (y + 1) <= start) by (nonlinear_arith)
                    requires
                        y + 1 <= j,
                        start == (4 * w + 1) * j,
                        w >= 0,
                ;
                assert(0 <= (4 * w + 1) * y && (4 * w + 1) * (y + 1) == (4 * w + 1) * y + 4 * w + 1)
                    by (nonlinear_arith)
                    requires
                        y >= 0,
                        w >= 0,
                ;
                assert(filter_byte(prev, w, y) == 0);
                assert(row_payload(prev, w, y) == rgba_bytes(v.pixels).subrange(
                    4 * w * y,
                    4 * w * (y + 1),
                ));
                assert(raw[(4 * w + 1) * y] == prev[(4 * w + 1) * y]);
                assert(row_payload(raw, w, y) =~= row_payload(prev, w, y));
            } else {
                assert(y == j);
                assert(raw[start] == 0);
                assert(row_payload(raw, w, y) =~= bytes);
            }
        }
        assert forall|y: int| 0 <= y < k implies #[trigger] row_payload(raw, w, y) == rgba_bytes(
            v.pixels,
        ).subrange(4 * w * y, 4 * w * (y + 1)) by {
            assert(filter_byte(raw, w, y) == 0);
        }
        assert(raw.subrange(start + 1, start + 1 + 4 * w) =~= bytes);
        assert(strip_filter_bytes(raw, v.width, k) == strip_filter_bytes(raw, v.width, j as nat)
            + raw.subrange(start + 1, (4 * w + 1) * k));
        assert(strip_filter_bytes(raw, v.width, j as nat) == strip_filter_bytes(prev, v.width, j as nat)) by {
            lemma_strip_prefix(prev, raw, v.width, j as nat);
        }
        assert(strip_filter_bytes(raw, v.width, k) =~= rgba_bytes(v.pixels).subrange(0, 4 * w * k));
    }
}

/// Stripping the first `k` rows reads only the first `k` rows.
proof fn lemma_strip_prefix(prefix: Seq<u8>, raw: Seq<u8>, width: nat, k: nat)
    requires
        prefix.len() >= (4 * width + 1) * k,
        prefix.len() <= raw.len(),
        forall|i: int| 0 <= i < prefix.len() ==> #[trigger] raw[i] == prefix[i],
    ensures
        strip_filter_bytes(raw, width, k) == strip_filter_bytes(prefix, width, k),
    decreases k,
{
    if k > 0 {
        let r: int = 4 * (width as int) + 1;
        assert(r * (k - 1) + 1 <= r * (k as int) && r * (k - 1) >= 0) by (nonlinear_arith)
            requires
                r >= 1,
                k >= 1,
        ;
        assert((4 * width + 1) * (k - 1) <= (4 * width + 1) * k) by (nonlinear_arith)
            requires
                k >= 1,
        ;
        lemma_strip_prefix(prefix, raw, width, (k - 1) as nat);
        assert(raw.subrange(r * (k - 1) + 1, r * (k as int)) =~= prefix.subrange(
            r * (k - 1) + 1,
            r * (k as int),
        ));
    }
}

/// Decoding the PNG file gives back the RGBA bytes of the framebuffer: the
/// IHDR and IDAT chunks each end with the CRC-32 of their type and whole
/// payload, the IDAT chunk's payload is the zlib stream of the scanlines, reading its
/// stored blocks gives the scanlines back, and dropping each row's filter
/// byte gives `as_rgba8`.
pub proof fn lemma_png_decodes_to_rgba(v: FrameView)
    requires
        v.wf(),
    ensures
        ({
            let f = png_file(v);
            let raw = png_scanlines(v, v.height);
            let z = zlib_stored(raw);
            &&& f.len() >= 41 + z.len()
            &&& be32_value(f.subrange(33, 37)) == (z.len() as u32)
            &&& f.subrange(37, 41) == idat_tag()
            &&& f.subrange(41, 41 + z.len() as int) == z
            &&& be32_value(f.subrange(41 + z.len() as int, 45 + z.len() as int)) == crc32_of(
                idat_tag() + z,
            )
            &&& be32_value(f.subrange(29, 33)) == crc32_of(
                ihdr_tag() + ihdr_payload(v.width, v.height),
            )
            &&& unstore(z.subrange(2, z.len() - 4)) == raw
            &&& strip_filter_bytes(raw, v.width, v.height) == rgba_bytes(v.pixels)
        }),
{
    let f = png_file(v);
    let raw = png_scanlines(v, v.height);
    let z = zlib_stored(raw);
    let ihdr = png_chunk_bytes(ihdr_tag(), ihdr_payload(v.width, v.height));
    let idat = png_chunk_bytes(idat_tag(), z);
    let iend = png_chunk_bytes(iend_tag(), seq![]);
    assert(f == png_signature() + ihdr + idat + iend);
    assert(ihdr.len() == 25);
    lemma_be32_roundtrip(z.len() as u32);
    assert(f.subrange(33, 37) =~= be32(z.len() as u32));
    assert(f.subrange(37, 41) =~= idat_tag());
    assert(f.subrange(41, 41 + z.len() as int) =~= z);
    lemma_be32_roundtrip(crc32_of(idat_tag() + z));
    lemma_be32_roundtrip(crc32_of(ihdr_tag() + ihdr_payload(v.width, v.height)));
    assert(f.subrange(41 + z.len() as int, 45 + z.len() as int) =~= be32(crc32_of(idat_tag() + z)));
    assert(f.subrange(29, 33) =~= be32(crc32_of(ihdr_tag() + ihdr_payload(v.width, v.height))));
    lemma_zlib_stored_roundtrip(raw);
    lemma_png_rows(v, v.height);
    lemma_rgba_layout(v.pixels);
    assert(4 * (v.width as int) * (v.height as int) == 4 * v.pixels.len()) by (nonlinear_arith)
        requires
            v.pixels.len() == v.width * v.height,
    ;
    assert(rgba_bytes(v.pixels).subrange(0, 4 * (v.width as int) * (v.height as int)) =~= rgba_bytes(
        v.pixels,
    ));
}

} // verus!
