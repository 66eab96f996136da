//! Reader and decoder for Wallpaper Engine `.tex` texture containers.
//!
//! `.tex` files store textures used by scene materials, effects, and sprites.
//! They can contain uncompressed pixel data (RGBA8) or block-compressed
//! textures (DXT1/BC1, DXT3/BC2, DXT5/BC3).
//!
//! Decodes directly to 32-bit RGBA8888 for portable upload to OpenGL ES textures.
use vstd::prelude::*;
use crate::bytes::{bytes_part, digit_of, le_u16, le_u32, le_u64};

verus! {

/// Texture compression formats supported by Wallpaper Engine `.tex` files.
#[derive(Debug, Clone, Copy, PartialEq, Eq, Structural)]
pub enum TexFormat {
    Rgba8,
    Rgb8,
    R8,
    Dxt1,
    Dxt3,
    Dxt5,
    Unknown(u32),
}

/// The format that a number in the file stands for.
pub open spec fn format_of(val: u32) -> TexFormat {
    if val == 0 || val == 1 || val == 28 {
        TexFormat::Rgba8
    } else if val == 2 || val == 29 {
        TexFormat::Rgb8
    } else if val == 3 || val == 61 {
        TexFormat::R8
    } else if val == 4 || val == 10 || val == 71 {
        TexFormat::Dxt1
    } else if val == 5 || val == 11 || val == 74 {
        TexFormat::Dxt3
    } else if val == 6 || val == 12 || val == 77 {
        TexFormat::Dxt5
    } else {
        TexFormat::Unknown(val)
    }
}

impl TexFormat {
    pub fn from_u32(val: u32) -> (r: Self)
        ensures
            r == format_of(val),
    {
        match val {
            0 | 1 | 28 => TexFormat::Rgba8,
            2 | 29 => TexFormat::Rgb8,
            3 | 61 => TexFormat::R8,
            4 | 10 | 71 => TexFormat::Dxt1,
            5 | 11 | 74 => TexFormat::Dxt3,
            6 | 12 | 77 => TexFormat::Dxt5,
            other => TexFormat::Unknown(other),
        }
    }
}

/// Why a texture could not be read or decoded.
#[derive(Debug, Clone, Copy, PartialEq, Eq)]
pub enum TexError {
    /// The file is too small to be a `.tex` texture.
    TooSmall,
    /// Neither `TEXV####` nor `TEXB####`.
    UnknownMagic,
    /// The file ends within its header.
    TruncatedHeader,
    /// The pixels of the format need more bytes than there are.
    Insufficient { format: TexFormat, needed: u128, got: usize },
    /// No decoder knows the format.
    Unsupported(u32),
}

/// A parsed texture from a `.tex` file.
#[derive(Debug, Clone)]
pub struct TexImage {
    pub width: u32,
    pub height: u32,
    pub format: TexFormat,
    pub data: Vec<u8>,
}

/// Whether `TEXV` or `TEXB` stands at `at`.
pub open spec fn tex_magic_at(bytes: Seq<u8>, at: int) -> bool {
    &&& bytes[at] == 0x54
    &&& bytes[at + 1] == 0x45
    &&& bytes[at + 2] == 0x58
    &&& bytes[at + 3] == 0x56 || bytes[at + 3] == 0x42
}

/// Where the header begins: behind a bare eight-byte magic, or behind a
/// version string with its length before it.
pub open spec fn header_start(bytes: Seq<u8>) -> Option<int> {
    if tex_magic_at(bytes, 0) {
        Some(8)
    } else if tex_magic_at(bytes, 4) {
        Some(4 + crate::bytes::le(bytes, 0, 4) as int)
    } else {
        None
    }
}

/// Where the pixels begin, the header being at `pos`: the count behind the
/// header is skipped where it is there.
pub open spec fn pixels_start(bytes: Seq<u8>, pos: int) -> int {
    if pos + 16 <= bytes.len() {
        pos + 16
    } else {
        pos + 12
    }
}

/// What a `.tex` file says.
pub open spec fn tex_parsed(bytes: Seq<u8>, r: Result<TexImage, TexError>) -> bool {
    if bytes.len() < 16 {
        r == Err::<TexImage, TexError>(TexError::TooSmall)
    } else {
        match header_start(bytes) {
            None => r == Err::<TexImage, TexError>(TexError::UnknownMagic),
            Some(pos) => if bytes.len() < pos + 12 {
                r == Err::<TexImage, TexError>(TexError::TruncatedHeader)
            } else {
                r matches Ok(t) && {
                    &&& t.format == format_of(crate::bytes::le(bytes, pos, 4) as u32)
                    &&& t.width == crate::bytes::le(bytes, pos + 4, 4)
                    &&& t.height == crate::bytes::le(bytes, pos + 8, 4)
                    &&& t.data@ == bytes.skip(pixels_start(bytes, pos))
                }
            },
        }
    }
}

fn magic_at(bytes: &[u8], at: usize) -> (r: bool)
    requires
        at + 4 <= bytes@.len(),
    ensures
        r == tex_magic_at(bytes@, at as int),
{
    let n = bytes.len();
    bytes[at] == 0x54 && bytes[at + 1] == 0x45 && bytes[at + 2] == 0x58 && (bytes[at + 3] == 0x56
        || bytes[at + 3] == 0x42)
}

/// A 24-bit colour.
#[derive(Debug, Clone, Copy, PartialEq, Eq, Structural)]
pub struct Rgb {
    pub r: u8,
    pub g: u8,
    pub b: u8,
}

/// The 24-bit colour of a 16-bit one: five bits of red, six of green, five of blue.
pub open spec fn rgb565(c: u16) -> Rgb {
    Rgb {
        r: ((c as int / 2048 * 527 + 23) / 64) as u8,
        g: ((c as int / 32 % 64 * 259 + 33) / 64) as u8,
        b: ((c as int % 32 * 527 + 23) / 64) as u8,
    }
}

/// Convert 16-bit RGB565 to 24-bit RGB888.
pub fn decode_rgb565(c: u16) -> (r: Rgb)
    ensures
        r == rgb565(c),
{
    Rgb {
        r: ((c / 2048 * 527 + 23) / 64) as u8,
        g: (((c / 32) % 64 * 259 + 33) / 64) as u8,
        b: (((c % 32) * 527 + 23) / 64) as u8,
    }
}

/// The mean of two channels, weighted.
pub open spec fn mixed(a: u8, wa: int, b: u8, wb: int) -> u8 {
    ((wa * a + wb * b) / (wa + wb)) as u8
}

fn mix(a: u8, wa: u16, b: u8, wb: u16) -> (r: u8)
    requires
        wa + wb > 0,
        wa <= 8,
        wb <= 8,
    ensures
        r == mixed(a, wa as int, b, wb as int),
{
    proof {
        assert(0 <= wa * a <= 8 * 255) by (nonlinear_arith)
            requires
                wa <= 8,
                a <= 255,
        ;
        assert(0 <= wb * b <= 8 * 255) by (nonlinear_arith)
            requires
                wb <= 8,
                b <= 255,
        ;
        assert((wa * a + wb * b) / (wa + wb) <= 255) by (nonlinear_arith)
            requires
                wa + wb > 0,
                a <= 255,
                b <= 255,
        ;
    }
    ((wa * (a as u16) + wb * (b as u16)) / (wa + wb)) as u8
}

/// Two colours, mixed channel by channel.
pub open spec fn rgb_mixed(a: Rgb, wa: int, b: Rgb, wb: int) -> Rgb {
    Rgb { r: mixed(a.r, wa, b.r, wb), g: mixed(a.g, wa, b.g, wb), b: mixed(a.b, wa, b.b, wb) }
}

fn mix_rgb(a: Rgb, wa: u16, b: Rgb, wb: u16) -> (r: Rgb)
    requires
        wa + wb > 0,
        wa <= 8,
        wb <= 8,
    ensures
        r == rgb_mixed(a, wa as int, b, wb as int),
{
    Rgb { r: mix(a.r, wa, b.r, wb), g: mix(a.g, wa, b.g, wb), b: mix(a.b, wa, b.b, wb) }
}

/// One decoded pixel.
#[derive(Clone, Copy)]
pub struct Pixel {
    pub rgb: Rgb,
    pub a: u8,
}

/// A byte of a pixel, in the order red, green, blue, alpha.
pub open spec fn channel(p: Pixel, i: int) -> u8 {
    if i == 0 {
        p.rgb.r
    } else if i == 1 {
        p.rgb.g
    } else if i == 2 {
        p.rgb.b
    } else {
        p.a
    }
}

/// The block compressions.
#[derive(Debug, Clone, Copy, PartialEq, Eq, Structural)]
pub enum Codec {
    Dxt1,
    Dxt3,
    Dxt5,
}

/// How many bytes a block of 4 by 4 pixels takes.
pub open spec fn block_size(codec: Codec) -> int {
    if codec == Codec::Dxt1 {
        8
    } else {
        16
    }
}

/// The colour that a code picks between two, a third of the way each.
pub open spec fn four_colours(c0: u16, c1: u16, code: nat) -> Rgb {
    if code == 0 {
        rgb565(c0)
    } else if code == 1 {
        rgb565(c1)
    } else if code == 2 {
        rgb_mixed(rgb565(c0), 2, rgb565(c1), 1)
    } else {
        rgb_mixed(rgb565(c0), 1, rgb565(c1), 2)
    }
}

/// The alpha that a code picks: eight steps from `a0` to `a1`, or six and the
/// two extremes where `a0` is not above `a1`.
pub open spec fn alpha_step(a0: u8, a1: u8, code: nat) -> u8 {
    if code == 0 {
        a0
    } else if code == 1 {
        a1
    } else if a0 > a1 {
        mixed(a0, 8 - code, a1, code - 1)
    } else if code <= 5 {
        mixed(a0, 6 - code, a1, code - 1)
    } else if code == 6 {
        0
    } else {
        255
    }
}

/// The pixel `k` of a block, counted row by row.
pub open spec fn block_pixel(codec: Codec, block: Seq<u8>, k: nat) -> Pixel {
    let at = block_size(codec) - 8;
    let c0 = crate::bytes::le(block, at, 2) as u16;
    let c1 = crate::bytes::le(block, at + 2, 2) as u16;
    let code = crate::bytes::digit(crate::bytes::le(block, at + 4, 4), 4, k);
    match codec {
        Codec::Dxt1 => if c0 > c1 || code < 2 {
            Pixel { rgb: four_colours(c0, c1, code), a: 255 }
        } else if code == 2 {
            Pixel { rgb: rgb_mixed(rgb565(c0), 1, rgb565(c1), 1), a: 255 }
        } else {
            Pixel { rgb: Rgb { r: 0, g: 0, b: 0 }, a: 0 }
        },
        Codec::Dxt3 => Pixel {
            rgb: four_colours(c0, c1, code),
            a: (17 * crate::bytes::digit(crate::bytes::le(block, 0, 8), 16, k)) as u8,
        },
        Codec::Dxt5 => Pixel {
            rgb: four_colours(c0, c1, code),
            a: alpha_step(
                block[0],
                block[1],
                crate::bytes::digit(crate::bytes::le(block, 2, 6), 8, k),
            ),
        },
    }
}

fn alpha_of(a0: u8, a1: u8, code: u64) -> (r: u8)
    requires
        code < 8,
    ensures
        r == alpha_step(a0, a1, code as nat),
{
    if code == 0 {
        a0
    } else if code == 1 {
        a1
    } else if a0 > a1 {
        mix(a0, 8 - code as u16, a1, code as u16 - 1)
    } else if code <= 5 {
        mix(a0, 6 - code as u16, a1, code as u16 - 1)
    } else if code == 6 {
        0
    } else {
        255
    }
}

/// Append the sixteen pixels of a block.
fn decode_block(codec: Codec, block: &[u8], out: &mut Vec<Pixel>)
    requires
        block@.len() == block_size(codec),
    ensures
        final(out)@.len() == old(out)@.len() + 16,
        forall|i: int| 0 <= i < old(out)@.len() ==> final(out)@[i] == old(out)@[i],
        forall|k: int|
            0 <= k < 16 ==> #[trigger] final(out)@[old(out)@.len() + k] == block_pixel(
                codec,
                block@,
                k as nat,
            ),
{
    let at: usize = if codec == Codec::Dxt1 {
        0
    } else {
        8
    };
    let c0 = le_u16(block, at);
    let c1 = le_u16(block, at + 2);
    let lookup = le_u32(block, at + 4);
    let first = decode_rgb565(c0);
    let second = decode_rgb565(c1);
    let third = if codec == Codec::Dxt1 && c0 <= c1 {
        mix_rgb(first, 1, second, 1)
    } else {
        mix_rgb(first, 2, second, 1)
    };
    let fourth = mix_rgb(first, 1, second, 2);
    let alpha_bits = match codec {
        Codec::Dxt1 => 0,
        Codec::Dxt3 => le_u64(block, 0, 8),
        Codec::Dxt5 => le_u64(block, 2, 6),
    };
    let ghost base = out@.len();
    let mut k: usize = 0;
    while k < 16
        invariant
            k <= 16,
            block@.len() == block_size(codec),
            base == old(out)@.len(),
            out@.len() == base + k,
            at == block_size(codec) - 8,
            c0 == crate::bytes::le(block@, at as int, 2),
            c1 == crate::bytes::le(block@, at + 2, 2),
            lookup == crate::bytes::le(block@, at + 4, 4),
            first == rgb565(c0),
            second == rgb565(c1),
            third == (if codec == Codec::Dxt1 && c0 <= c1 {
                rgb_mixed(first, 1, second, 1)
            } else {
                rgb_mixed(first, 2, second, 1)
            }),
            fourth == rgb_mixed(first, 1, second, 2),
            codec == Codec::Dxt3 ==> alpha_bits == crate::bytes::le(block@, 0, 8),
            codec == Codec::Dxt5 ==> alpha_bits == crate::bytes::le(block@, 2, 6),
            forall|i: int| 0 <= i < base ==> out@[i] == old(out)@[i],
            forall|i: int|
                0 <= i < k ==> #[trigger] out@[base + i] == block_pixel(codec, block@, i as nat),
        decreases 16 - k,
    {
        let code = digit_of(lookup as u64, 4, k);
        let rgb = if code == 0 {
            first
        } else if code == 1 {
            second
        } else if code == 2 {
            third
        } else if codec == Codec::Dxt1 && c0 <= c1 {
            Rgb { r: 0, g: 0, b: 0 }
        } else {
            fourth
        };
        let a: u8 = match codec {
            Codec::Dxt1 => if c0 <= c1 && code == 3 {
                0
            } else {
                255
            },
            Codec::Dxt3 => digit_of(alpha_bits, 16, k) as u8 * 17,
            Codec::Dxt5 => alpha_of(block[0], block[1], digit_of(alpha_bits, 8, k)),
        };
        out.push(Pixel { rgb, a });
        proof {
            assert(out@[base + k] == block_pixel(codec, block@, k as nat));
        }
        k += 1;
    }
}

/// How many blocks lie side by side.
pub open spec fn blocks_across(side: u32) -> int {
    (side + 3) / 4
}

/// How many bytes the blocks of an image take.
pub open spec fn blocks_bytes(codec: Codec, width: u32, height: u32) -> int {
    blocks_across(width) * blocks_across(height) * block_size(codec)
}

/// The block `n` of the data.
pub open spec fn nth_block(codec: Codec, data: Seq<u8>, n: int) -> Seq<u8> {
    data.subrange(n * block_size(codec), n * block_size(codec) + block_size(codec))
}

/// The pixel at column `x` and row `y`.
pub open spec fn image_pixel(codec: Codec, width: u32, data: Seq<u8>, x: int, y: int) -> Pixel {
    block_pixel(
        codec,
        nth_block(codec, data, (y / 4) * blocks_across(width) + x / 4),
        (y % 4 * 4 + x % 4) as nat,
    )
}

/// The bytes of the decoded image, row by row.
pub open spec fn image_bytes(codec: Codec, width: u32, height: u32, data: Seq<u8>) -> Seq<u8> {
    Seq::new(
        (width * height * 4) as nat,
        |i: int| channel(image_pixel(codec, width, data, i / 4 % width as int, i / 4 / width as int), i % 4),
    )
}

/// Every block of an image lies within its bytes.
proof fn lemma_block_inside(across: int, down: int, size: int, bx: int, by: int)
    by (nonlinear_arith)
    requires
        0 <= bx < across,
        0 <= by < down,
        0 < size,
    ensures
        0 <= by * across,
        0 <= by * across + bx < across * down,
        0 <= (by * across + bx) * size,
        (by * across + bx) * size + size <= across * down * size,
        across <= across * down * size,
{
    assert(by * across + across <= down * across);
    assert(by * across + bx + 1 <= across * down);
    assert((by * across + bx + 1) * size <= across * down * size);
    assert(across <= across * down);
    assert(across * down <= across * down * size);
}

/// The pixels of one row of blocks, block by block.
fn decode_block_row(codec: Codec, width: u32, height: u32, data: &[u8], by: usize) -> (row: Vec<Pixel>)
    requires
        by < blocks_across(height),
        blocks_bytes(codec, width, height) <= data@.len(),
    ensures
        row@.len() == 16 * blocks_across(width),
        forall|bx: int, k: int|
            0 <= bx < blocks_across(width) && 0 <= k < 16 ==> #[trigger] row@[bx * 16 + k]
                == block_pixel(
                codec,
                nth_block(codec, data@, by * blocks_across(width) + bx),
                k as nat,
            ),
{
    let size: usize = if codec == Codec::Dxt1 {
        8
    } else {
        16
    };
    let across: u64 = (width as u64 + 3) / 4;
    let len = data.len();
    let mut row: Vec<Pixel> = Vec::new();
    let mut bx: usize = 0;
    while (bx as u64) < across
        invariant
            by < blocks_across(height),
            blocks_bytes(codec, width, height) <= data@.len() == len,
            size == block_size(codec),
            across == blocks_across(width),
            bx <= across,
            row@.len() == 16 * bx,
            forall|b: int, k: int|
                0 <= b < bx && 0 <= k < 16 ==> #[trigger] row@[b * 16 + k] == block_pixel(
                    codec,
                    nth_block(codec, data@, by * blocks_across(width) + b),
                    k as nat,
                ),
        decreases across - bx,
    {
        proof {
            lemma_block_inside(
                blocks_across(width),
                blocks_across(height),
                block_size(codec),
                bx as int,
                by as int,
            );
            assert((by * across + bx) * size <= len);
            assert(by * across + bx <= (by * across + bx) * size) by (nonlinear_arith)
                requires
                    0 <= by * across + bx,
                    size >= 1,
            ;
        }
        let at: usize = (by * (across as usize) + bx) * size;
        let block = bytes_part(data, at, at + size);
        proof {
            assert(block@ == nth_block(codec, data@, by * blocks_across(width) + bx));
        }
        let ghost before = row@;
        decode_block(codec, block.as_slice(), &mut row);
        bx += 1;
        proof {
            assert forall|b: int, k: int| 0 <= b < bx && 0 <= k < 16 implies #[trigger] row@[b * 16
                + k] == block_pixel(
                codec,
                nth_block(codec, data@, by * blocks_across(width) + b),
                k as nat,
            ) by {
                if b < bx - 1 {
                    assert(row@[b * 16 + k] == before[b * 16 + k]);
                } else {
                    assert(b * 16 + k == before.len() + k);
                }
            }
        }
    }
    row
}

/// Which pixel a byte of the decoded image belongs to.
proof fn lemma_pixel_index(width: u32, x: int, y: int, c: int)
    requires
        0 <= x < width,
        0 <= y,
        0 <= c < 4,
    ensures
        ((y * width + x) * 4 + c) / 4 == y * width + x,
        ((y * width + x) * 4 + c) % 4 == c,
        (y * width + x) / width as int == y,
        (y * width + x) % width as int == x,
{
    vstd::arithmetic::div_mod::lemma_fundamental_div_mod_converse(
        y * width + x,
        width as int,
        y,
        x,
    );
}

/// Append the pixels of the row `y`, given those of the row of blocks it is in.
fn push_row(codec: Codec, width: u32, height: u32, data: &[u8], y: u32, row: &Vec<Pixel>, out: &mut Vec<u8>)
    requires
        y < height,
        width * height * 4 <= u32::MAX,
        row@.len() == 16 * blocks_across(width),
        forall|bx: int, k: int|
            0 <= bx < blocks_across(width) && 0 <= k < 16 ==> #[trigger] row@[bx * 16 + k]
                == block_pixel(
                codec,
                nth_block(codec, data@, (y as int / 4) * blocks_across(width) + bx),
                k as nat,
            ),
        old(out)@ == image_bytes(codec, width, height, data@).take(y * width * 4),
    ensures
        final(out)@ == image_bytes(codec, width, height, data@).take((y + 1) * width * 4),
{
    let ghost all = image_bytes(codec, width, height, data@);
    proof {
        assert(0 <= y * width * 4 <= (y + 1) * width * 4 <= width * height * 4) by (nonlinear_arith)
            requires
                y < height,
                0 <= width,
        ;
    }
    let mut x: u32 = 0;
    while x < width
        invariant
            x <= width,
            y < height,
            all == image_bytes(codec, width, height, data@),
            all.len() == width * height * 4,
            0 <= y * width * 4,
            (y + 1) * width * 4 <= width * height * 4,
            row@.len() == 16 * blocks_across(width),
            forall|bx: int, k: int|
                0 <= bx < blocks_across(width) && 0 <= k < 16 ==> #[trigger] row@[bx * 16 + k]
                    == block_pixel(
                    codec,
                    nth_block(codec, data@, (y as int / 4) * blocks_across(width) + bx),
                    k as nat,
                ),
            out@ == all.take((y * width + x) * 4),
        decreases width - x,
    {
        let bx: usize = (x / 4) as usize;
        let k: usize = ((y % 4) * 4 + x % 4) as usize;
        let n = row.len();
        proof {
            assert(bx < blocks_across(width));
            assert(row@[bx * 16 + k] == image_pixel(codec, width, data@, x as int, y as int));
        }
        let p = row[bx * 16 + k];
        let ghost at = (y * width + x) * 4;
        proof {
            assert((y * width + x + 1) * 4 <= (y + 1) * width * 4) by (nonlinear_arith)
                requires
                    x < width,
            ;
            assert(0 <= at) by (nonlinear_arith)
                requires
                    at == (y * width + x) * 4,
                    0 <= width,
                    0 <= x,
                    0 <= y,
            ;
            lemma_pixel_index(width, x as int, y as int, 0);
            lemma_pixel_index(width, x as int, y as int, 1);
            lemma_pixel_index(width, x as int, y as int, 2);
            lemma_pixel_index(width, x as int, y as int, 3);
            assert(all[at] == channel(p, 0));
            assert(all[at + 1] == channel(p, 1));
            assert(all[at + 2] == channel(p, 2));
            assert(all[at + 3] == channel(p, 3));
        }
        let ghost before = out@;
        out.push(p.rgb.r);
        out.push(p.rgb.g);
        out.push(p.rgb.b);
        out.push(p.a);
        proof {
            assert(out@ == before.push(p.rgb.r).push(p.rgb.g).push(p.rgb.b).push(p.a));
            assert(all.take(at + 4) =~= all.take(at).push(all[at]).push(all[at + 1]).push(
                all[at + 2],
            ).push(all[at + 3]));
            assert((y * width + (x + 1)) * 4 == at + 4);
        }
        x += 1;
    }
    proof {
        assert((y * width + width) * 4 == (y + 1) * width * 4) by (nonlinear_arith);
    }
}

/// The format of a block compression.
pub open spec fn codec_format(codec: Codec) -> TexFormat {
    match codec {
        Codec::Dxt1 => TexFormat::Dxt1,
        Codec::Dxt3 => TexFormat::Dxt3,
        Codec::Dxt5 => TexFormat::Dxt5,
    }
}

/// What decompressing gives: the image, or that the data is too short for it.
pub open spec fn decompressed(
    codec: Codec,
    width: u32,
    height: u32,
    data: Seq<u8>,
    r: Result<Vec<u8>, TexError>,
) -> bool {
    if data.len() < blocks_bytes(codec, width, height) {
        r == Err::<Vec<u8>, TexError>(
            TexError::Insufficient {
                format: codec_format(codec),
                needed: blocks_bytes(codec, width, height) as u128,
                got: data.len() as usize,
            },
        )
    } else {
        r matches Ok(v) && v@ == image_bytes(codec, width, height, data)
    }
}

/// Whether an image can be decoded into a buffer whose size fits in 32 bits,
/// where there is data for it at all.
pub open spec fn decodable(codec: Codec, width: u32, height: u32, data: Seq<u8>) -> bool {
    blocks_bytes(codec, width, height) <= data.len() ==> width * height * 4 <= u32::MAX
}

fn decompress(codec: Codec, width: u32, height: u32, data: &[u8]) -> (r: Result<Vec<u8>, TexError>)
    requires
        decodable(codec, width, height, data@),
    ensures
        decompressed(codec, width, height, data@, r),
{
    let across: u128 = (width as u128 + 3) / 4;
    let down: u128 = (height as u128 + 3) / 4;
    let size: u128 = if codec == Codec::Dxt1 {
        8
    } else {
        16
    };
    proof {
        assert(across * down <= 0x4000_0000 * 0x4000_0000) by (nonlinear_arith)
            requires
                across <= 0x4000_0000,
                down <= 0x4000_0000,
        ;
        assert(across * down * size <= 0x4000_0000 * 0x4000_0000 * 16) by (nonlinear_arith)
            requires
                0 <= across * down <= 0x4000_0000 * 0x4000_0000,
                size <= 16,
        ;
    }
    let needed: u128 = across * down * size;
    if (data.len() as u128) < needed {
        let format = match codec {
            Codec::Dxt1 => TexFormat::Dxt1,
            Codec::Dxt3 => TexFormat::Dxt3,
            Codec::Dxt5 => TexFormat::Dxt5,
        };
        return Err(TexError::Insufficient { format, needed, got: data.len() });
    }
    let ghost all = image_bytes(codec, width, height, data@);
    let mut out: Vec<u8> = Vec::new();
    let mut row: Vec<Pixel> = Vec::new();
    let mut y: u32 = 0;
    proof {
        assert(0 * width * 4 == 0) by (nonlinear_arith);
        assert(out@ =~= all.take(0));
    }
    while y < height
        invariant
            y <= height,
            all == image_bytes(codec, width, height, data@),
            blocks_bytes(codec, width, height) <= data@.len(),
            width * height * 4 <= u32::MAX,
            y as int % 4 != 0 ==> {
                &&& row@.len() == 16 * blocks_across(width)
                &&& forall|bx: int, k: int|
                    0 <= bx < blocks_across(width) && 0 <= k < 16 ==> #[trigger] row@[bx * 16 + k]
                        == block_pixel(
                        codec,
                        nth_block(codec, data@, (y as int / 4) * blocks_across(width) + bx),
                        k as nat,
                    )
            },
            out@ == all.take(y * width * 4),
        decreases height - y,
    {
        if y % 4 == 0 {
            row = decode_block_row(codec, width, height, data, (y / 4) as usize);
        }
        push_row(codec, width, height, data, y, &row, &mut out);
        y += 1;
    }
    proof {
        assert(height * width * 4 == width * height * 4) by (nonlinear_arith);
        assert(all.take(width * height * 4) =~= all);
    }
    Ok(out)
}

/// Decompress DXT1 / BC1 texture to RGBA8888.
pub fn decompress_dxt1(width: u32, height: u32, data: &[u8]) -> (r: Result<Vec<u8>, TexError>)
    requires
        decodable(Codec::Dxt1, width, height, data@),
    ensures
        decompressed(Codec::Dxt1, width, height, data@, r),
{
    decompress(Codec::Dxt1, width, height, data)
}

/// Decompress DXT3 / BC2 texture to RGBA8888.
pub fn decompress_dxt3(width: u32, height: u32, data: &[u8]) -> (r: Result<Vec<u8>, TexError>)
    requires
        decodable(Codec::Dxt3, width, height, data@),
    ensures
        decompressed(Codec::Dxt3, width, height, data@, r),
{
    decompress(Codec::Dxt3, width, height, data)
}

/// Decompress DXT5 / BC3 texture to RGBA8888.
pub fn decompress_dxt5(width: u32, height: u32, data: &[u8]) -> (r: Result<Vec<u8>, TexError>)
    requires
        decodable(Codec::Dxt5, width, height, data@),
    ensures
        decompressed(Codec::Dxt5, width, height, data@, r),
{
    decompress(Codec::Dxt5, width, height, data)
}

/// How many bytes of data a pixel of an uncompressed format takes.
pub open spec fn pixel_size(format: TexFormat) -> int {
    match format {
        TexFormat::Rgba8 => 4,
        TexFormat::Rgb8 => 3,
        _ => 1,
    }
}

/// The bytes of an uncompressed image: colour without alpha is opaque, and a
/// single channel is grey.
pub open spec fn plain_bytes(format: TexFormat, pixels: int, data: Seq<u8>) -> Seq<u8> {
    Seq::new(
        (pixels * 4) as nat,
        |i: int|
            match format {
                TexFormat::Rgba8 => data[i],
                TexFormat::Rgb8 => if i % 4 == 3 {
                    255
                } else {
                    data[i / 4 * 3 + i % 4]
                },
                _ => if i % 4 == 3 {
                    255
                } else {
                    data[i / 4]
                },
            },
    )
}

/// What decoding an uncompressed image gives.
pub open spec fn plain_decoded(
    format: TexFormat,
    pixels: int,
    data: Seq<u8>,
    r: Result<Vec<u8>, TexError>,
) -> bool {
    if data.len() < pixels * pixel_size(format) {
        r == Err::<Vec<u8>, TexError>(
            TexError::Insufficient {
                format,
                needed: (pixels * pixel_size(format)) as u128,
                got: data.len() as usize,
            },
        )
    } else {
        r matches Ok(v) && v@ == plain_bytes(format, pixels, data)
    }
}

fn decode_plain(format: TexFormat, pixels: u64, data: &[u8]) -> (r: Result<Vec<u8>, TexError>)
    requires
        format == TexFormat::Rgba8 || format == TexFormat::Rgb8 || format == TexFormat::R8,
    ensures
        plain_decoded(format, pixels as int, data@, r),
{
    let size: usize = match format {
        TexFormat::Rgba8 => 4,
        TexFormat::Rgb8 => 3,
        _ => 1,
    };
    let needed: u128 = pixels as u128 * (size as u128);
    if (data.len() as u128) < needed {
        return Err(TexError::Insufficient { format, needed, got: data.len() });
    }
    let ghost all = plain_bytes(format, pixels as int, data@);
    let mut out: Vec<u8> = Vec::new();
    let mut p: usize = 0;
    proof {
        assert(pixels <= pixels * size) by (nonlinear_arith)
            requires
                size >= 1,
        ;
    }
    let count = pixels as usize;
    while p < count
        invariant
            p <= count == pixels,
            count * size <= data@.len() <= usize::MAX,
            size == pixel_size(format),
            format == TexFormat::Rgba8 || format == TexFormat::Rgb8 || format == TexFormat::R8,
            all == plain_bytes(format, pixels as int, data@),
            out@ == all.take(p * 4),
        decreases count - p,
    {
        let (r, g, b, a): (u8, u8, u8, u8) = match format {
            TexFormat::Rgba8 => (data[p * 4], data[p * 4 + 1], data[p * 4 + 2], data[p * 4 + 3]),
            TexFormat::Rgb8 => (data[p * 3], data[p * 3 + 1], data[p * 3 + 2], 255),
            _ => (data[p], data[p], data[p], 255),
        };
        proof {
            let at = p * 4;
            assert(all[at] == r && all[at + 1] == g && all[at + 2] == b && all[at + 3] == a);
            assert(all.take(at + 4) =~= all.take(at).push(r).push(g).push(b).push(a));
        }
        out.push(r);
        out.push(g);
        out.push(b);
        out.push(a);
        p += 1;
    }
    proof {
        assert(all.take(pixels * 4) =~= all);
    }
    Ok(out)
}

impl TexImage {
    /// Parse from memory buffer.
    pub fn parse(bytes: &[u8]) -> (r: Result<Self, TexError>)
        ensures
            tex_parsed(bytes@, r),
    {
        if bytes.len() < 16 {
            return Err(TexError::TooSmall);
        }
        let pos: u64 = if magic_at(bytes, 0) {
            8
        } else if magic_at(bytes, 4) {
            4 + le_u32(bytes, 0) as u64
        } else {
            return Err(TexError::UnknownMagic);
        };
        if (bytes.len() as u64) < pos + 12 {
            return Err(TexError::TruncatedHeader);
        }
        let at = pos as usize;
        let format = TexFormat::from_u32(le_u32(bytes, at));
        let width = le_u32(bytes, at + 4);
        let height = le_u32(bytes, at + 8);
        // Skip the optional mipmap/extra count if present.
        let start: usize = if bytes.len() - at >= 16 {
            at + 16
        } else {
            at + 12
        };
        let data = bytes_part(bytes, start, bytes.len());
        proof {
            assert(data@ =~= bytes@.skip(start as int));
        }
        Ok(TexImage { width, height, format, data })
    }

    /// The compression of a compressed image.
    pub open spec fn codec(self) -> Option<Codec> {
        match self.format {
            TexFormat::Dxt1 => Some(Codec::Dxt1),
            TexFormat::Dxt3 => Some(Codec::Dxt3),
            TexFormat::Dxt5 => Some(Codec::Dxt5),
            _ => None,
        }
    }

    /// What decoding the image gives.
    pub open spec fn decoded(self, r: Result<Vec<u8>, TexError>) -> bool {
        match self.format {
            TexFormat::Unknown(n) => r == Err::<Vec<u8>, TexError>(TexError::Unsupported(n)),
            format => match self.codec() {
                Some(codec) => decompressed(codec, self.width, self.height, self.data@, r),
                None => plain_decoded(format, self.width * self.height, self.data@, r),
            },
        }
    }

    /// Decode the texture into standard 32-bit RGBA8 pixels (`width * height * 4` bytes).
    pub fn to_rgba8(&self) -> (r: Result<Vec<u8>, TexError>)
        requires
            self.codec() matches Some(codec) ==> decodable(
                codec,
                self.width,
                self.height,
                self.data@,
            ),
        ensures
            self.decoded(r),
            r matches Ok(v) ==> v@.len() == self.width * self.height * 4,
    {
        let data = self.data.as_slice();
        proof {
            assert(self.width * self.height <= u32::MAX * u32::MAX) by (nonlinear_arith)
                requires
                    self.width <= u32::MAX,
                    self.height <= u32::MAX,
            ;
        }
        match self.format {
            TexFormat::Rgba8 | TexFormat::Rgb8 | TexFormat::R8 => decode_plain(
                self.format,
                self.width as u64 * (self.height as u64),
                data,
            ),
            TexFormat::Dxt1 => decompress_dxt1(self.width, self.height, data),
            TexFormat::Dxt3 => decompress_dxt3(self.width, self.height, data),
            TexFormat::Dxt5 => decompress_dxt5(self.width, self.height, data),
            TexFormat::Unknown(fmt) => Err(TexError::Unsupported(fmt)),
        }
    }
}

/// The blocks of an image follow each other from left to right, and the rows of blocks
/// from top to bottom: the pixel at column `4 * bx + px` and row `4 * by + py` is the
/// pixel at `px` and `py` of the block, decoded on its own, that `by` rows of `across`
/// blocks and then `bx` blocks stand before.
pub proof fn law_blocks_are_laid_out_in_rows(
    codec: Codec,
    width: u32,
    height: u32,
    data: Seq<u8>,
    image: Result<Vec<u8>, TexError>,
    tile: Result<Vec<u8>, TexError>,
    across: int,
    bx: int,
    by: int,
    px: int,
    py: int,
    c: int,
)
    requires
        4 * (across - 1) < width <= 4 * across,
        0 <= bx,
        0 <= by,
        0 <= px < 4,
        0 <= py < 4,
        0 <= c < 4,
        4 * bx + px < width,
        4 * by + py < height,
        image is Ok,
        decompressed(codec, width, height, data, image),
        ({
            let size: int = if codec == Codec::Dxt1 {
                8
            } else {
                16
            };
            let at = (by * across + bx) * size;
            decompressed(codec, 4, 4, data.subrange(at, at + size), tile)
        }),
    ensures
        tile is Ok,
        image->Ok_0@.len() == width * height * 4,
        tile->Ok_0@.len() == 64,
        0 <= ((4 * by + py) * width + 4 * bx + px) * 4 + c < width * height * 4,
        image->Ok_0@[((4 * by + py) * width + 4 * bx + px) * 4 + c] == tile->Ok_0@[(4 * py + px) * 4
            + c],
{
    let size: int = if codec == Codec::Dxt1 {
        8
    } else {
        16
    };
    let down = blocks_across(height);
    let w = width as int;
    let h = height as int;
    let x = 4 * bx + px;
    let y = 4 * by + py;
    assert(across == blocks_across(width));
    lemma_block_inside(across, down, size, bx, by);
    let at = (by * across + bx) * size;
    let part = data.subrange(at, at + size);
    assert(part.len() == size);
    assert(blocks_bytes(codec, 4, 4) == size) by {
        assert(blocks_across(4) == 1);
        assert(1 * 1 * size == size);
    }
    assert(nth_block(codec, part, 0) =~= part);
    assert(nth_block(codec, data, by * across + bx) == part);
    assert(0 <= y * w + x < w * h) by (nonlinear_arith)
        requires
            0 <= x < w,
            0 <= y < h,
    ;
    vstd::arithmetic::div_mod::lemma_fundamental_div_mod_converse(y * w + x, w, y, x);
    let i = (y * w + x) * 4 + c;
    assert(i / 4 == y * w + x && i % 4 == c);
    assert(x / 4 == bx && x % 4 == px && y / 4 == by && y % 4 == py);
    let j = (4 * py + px) * 4 + c;
    assert(j / 4 == 4 * py + px && j % 4 == c);
    assert((4 * py + px) % 4 == px && (4 * py + px) / 4 == py);
    assert(py / 4 == 0 && px / 4 == 0 && py % 4 == py && px % 4 == px);
    assert(0 * blocks_across(4) + 0 == 0);
    assert((4u32 * 4u32 * 4) as nat == 64);
}

/// Decompressing succeeds exactly where there is a block for every four by four pixels
/// that have been begun, and gives four bytes for each pixel.
pub proof fn law_an_image_needs_all_its_blocks(
    codec: Codec,
    width: u32,
    height: u32,
    data: Seq<u8>,
    r: Result<Vec<u8>, TexError>,
    across: int,
    down: int,
)
    requires
        decompressed(codec, width, height, data, r),
        4 * (across - 1) < width <= 4 * across,
        4 * (down - 1) < height <= 4 * down,
    ensures
        ({
            let size: int = if codec == Codec::Dxt1 {
                8
            } else {
                16
            };
            &&& r is Ok <==> data.len() >= across * down * size
            &&& r matches Ok(v) ==> v@.len() == width * height * 4
            &&& r matches Err(e) ==> (e matches TexError::Insufficient { got, .. } && got
                == data.len() as usize)
        }),
{
    assert(across == blocks_across(width) && down == blocks_across(height));
    assert(width * height * 4 >= 0) by (nonlinear_arith)
        requires
            width >= 0,
            height >= 0,
    ;
}

/// Sixteen bits of colour: five of red, six of green, five of blue.
pub ghost struct Packed {
    pub r: nat,
    pub g: nat,
    pub b: nat,
}

impl Packed {
    pub open spec fn fits(self) -> bool {
        self.r < 32 && self.g < 64 && self.b < 32
    }

    /// The colour as it is stored.
    pub open spec fn stored(self) -> nat {
        self.r * 2048 + self.g * 32 + self.b
    }
}

/// Whether `v` is the byte nearest to the fraction `n / top` of 255.
pub open spec fn nearest_byte(v: u8, n: nat, top: nat) -> bool {
    -(top as int) <= 2 * (255 * n - top * v) <= top
}

/// A stored colour is spread over the whole range of a byte, channel by channel.
pub proof fn law_colours_are_spread(p: Packed)
    requires
        p.fits(),
    ensures
        nearest_byte(rgb565(p.stored() as u16).r, p.r, 31),
        nearest_byte(rgb565(p.stored() as u16).g, p.g, 63),
        nearest_byte(rgb565(p.stored() as u16).b, p.b, 31),
{
    let c = p.stored() as u16;
    assert(c == p.stored());
    assert(c as int / 2048 == p.r);
    assert(c as int / 32 % 64 == p.g);
    assert(c as int % 32 == p.b);
    lemma_five_bits(p.r as u32);
    lemma_five_bits(p.b as u32);
    lemma_six_bits(p.g as u32);
}

proof fn lemma_five_bits(n: u32)
    by (bit_vector)
    requires
        n < 32,
    ensures
        (n * 527 + 23) / 64 < 256,
        2 * 255 * n <= 2 * 31 * ((n * 527 + 23) / 64) + 31,
        2 * 31 * ((n * 527 + 23) / 64) <= 2 * 255 * n + 31,
{
}

proof fn lemma_six_bits(n: u32)
    by (bit_vector)
    requires
        n < 64,
    ensures
        (n * 259 + 33) / 64 < 256,
        2 * 255 * n <= 2 * 63 * ((n * 259 + 33) / 64) + 63,
        2 * 63 * ((n * 259 + 33) / 64) <= 2 * 255 * n + 63,
{
}

/// A block before it is stored: two colours, a code for each of the sixteen pixels, and
/// what there is of alpha.
pub ghost struct Block {
    pub first: Packed,
    pub second: Packed,
    pub codes: Seq<nat>,
    pub a0: u8,
    pub a1: u8,
    pub alphas: Seq<nat>,
}

impl Block {
    /// Whether every part fits in its place.
    pub open spec fn fits(self, codec: Codec) -> bool {
        let steps: nat = if codec == Codec::Dxt3 {
            16
        } else {
            8
        };
        &&& self.first.fits() && self.second.fits()
        &&& self.codes.len() == 16
        &&& forall|i: int| 0 <= i < 16 ==> #[trigger] self.codes[i] < 4
        &&& self.alphas.len() == 16
        &&& forall|i: int| 0 <= i < 16 ==> #[trigger] self.alphas[i] < steps
    }

    /// The block as it is stored: alpha before the colours, the colours before their
    /// codes, each number with its lowest byte first.
    pub open spec fn stored(self, codec: Codec) -> Seq<u8> {
        let colours = crate::pkg::le_bytes(self.first.stored(), 2) + crate::pkg::le_bytes(
            self.second.stored(),
            2,
        ) + crate::pkg::le_bytes(crate::bytes::of_digits(self.codes, 4), 4);
        match codec {
            Codec::Dxt1 => colours,
            Codec::Dxt3 => crate::pkg::le_bytes(crate::bytes::of_digits(self.alphas, 16), 8)
                + colours,
            Codec::Dxt5 => seq![self.a0, self.a1] + crate::pkg::le_bytes(
                crate::bytes::of_digits(self.alphas, 8),
                6,
            ) + colours,
        }
    }
}

/// Whether `v` is the whole part of `n / d`.
pub open spec fn whole_part(v: u8, n: int, d: int) -> bool {
    d * v <= n < d * v + d
}

/// Whether a colour lies between two, `m` parts of the first and `n` of the second.
pub open spec fn lies_between(c: Rgb, a: Rgb, m: int, b: Rgb, n: int) -> bool {
    &&& whole_part(c.r, m * a.r + n * b.r, m + n)
    &&& whole_part(c.g, m * a.g + n * b.g, m + n)
    &&& whole_part(c.b, m * a.b + n * b.b, m + n)
}

/// A mean is the whole part of the weighted sum over the weights.
proof fn lemma_mixed(a: u8, m: int, b: u8, n: int)
    requires
        0 <= m <= 8,
        0 <= n <= 8,
        m + n > 0,
    ensures
        whole_part(mixed(a, m, b, n), m * a + n * b, m + n),
{
    let x = m * a + n * b;
    assert(0 <= m * a && 0 <= n * b && m * a <= m * 255 && n * b <= n * 255) by (nonlinear_arith)
        requires
            0 <= m,
            0 <= n,
            0 <= a <= 255,
            0 <= b <= 255,
    ;
    let q = x / (m + n);
    vstd::arithmetic::div_mod::lemma_fundamental_div_mod(x, m + n);
    assert(0 <= q <= 255) by (nonlinear_arith)
        requires
            x == (m + n) * q + x % (m + n),
            0 <= x % (m + n) < m + n,
            0 <= x <= m * 255 + n * 255,
            m + n > 0,
    ;
}

proof fn lemma_rgb_mixed(a: Rgb, m: int, b: Rgb, n: int)
    requires
        0 <= m <= 8,
        0 <= n <= 8,
        m + n > 0,
    ensures
        lies_between(rgb_mixed(a, m, b, n), a, m, b, n),
{
    lemma_mixed(a.r, m, b.r, n);
    lemma_mixed(a.g, m, b.g, n);
    lemma_mixed(a.b, m, b.b, n);
}

/// The numbers of a stored block are read back.
proof fn lemma_block_read(codec: Codec, b: Block, k: int)
    requires
        b.fits(codec),
        0 <= k < 16,
    ensures
        b.stored(codec).len() == block_size(codec),
        ({
            let s = b.stored(codec);
            let at = block_size(codec) - 8;
            &&& crate::bytes::le(s, at, 2) == b.first.stored()
            &&& crate::bytes::le(s, at + 2, 2) == b.second.stored()
            &&& crate::bytes::digit(crate::bytes::le(s, at + 4, 4), 4, k as nat) == b.codes[k]
            &&& codec == Codec::Dxt3 ==> crate::bytes::digit(
                crate::bytes::le(s, 0, 8),
                16,
                k as nat,
            ) == b.alphas[k]
            &&& codec == Codec::Dxt5 ==> s[0] == b.a0 && s[1] == b.a1 && crate::bytes::digit(
                crate::bytes::le(s, 2, 6),
                8,
                k as nat,
            ) == b.alphas[k]
        }),
{
    let s = b.stored(codec);
    let at = block_size(codec) - 8;
    let c0 = crate::pkg::le_bytes(b.first.stored(), 2);
    let c1 = crate::pkg::le_bytes(b.second.stored(), 2);
    let n = crate::bytes::of_digits(b.codes, 4);
    let cs = crate::pkg::le_bytes(n, 4);
    crate::bytes::lemma_le_bytes_len(b.first.stored(), 2);
    crate::bytes::lemma_le_bytes_len(b.second.stored(), 2);
    crate::bytes::lemma_le_bytes_len(n, 4);
    let a16 = crate::bytes::of_digits(b.alphas, 16);
    let a8 = crate::bytes::of_digits(b.alphas, 8);
    crate::bytes::lemma_le_bytes_len(a16, 8);
    crate::bytes::lemma_le_bytes_len(a8, 6);
    lemma_powers();
    assert(s.len() == at + 8);
    assert(s.subrange(at, at + 2) =~= c0);
    assert(s.subrange(at + 2, at + 2 + 2) =~= c1);
    assert(s.subrange(at + 4, at + 4 + 4) =~= cs);
    crate::bytes::law_numbers_are_read_back(s, at, b.first.stored(), 2);
    crate::bytes::law_numbers_are_read_back(s, at + 2, b.second.stored(), 2);
    crate::bytes::lemma_of_digits_bound(b.codes, 4);
    crate::bytes::law_numbers_are_read_back(s, at + 4, n, 4);
    crate::bytes::law_digits_are_read_back(b.codes, 4, k);
    if codec == Codec::Dxt3 {
        assert(s.subrange(0, 8) =~= crate::pkg::le_bytes(a16, 8));
        crate::bytes::lemma_of_digits_bound(b.alphas, 16);
        crate::bytes::law_numbers_are_read_back(s, 0, a16, 8);
        crate::bytes::law_digits_are_read_back(b.alphas, 16, k);
    }
    if codec == Codec::Dxt5 {
        assert(s.subrange(2, 8) =~= crate::pkg::le_bytes(a8, 6));
        crate::bytes::lemma_of_digits_bound(b.alphas, 8);
        crate::bytes::law_numbers_are_read_back(s, 2, a8, 6);
        crate::bytes::law_digits_are_read_back(b.alphas, 8, k);
    }
}

proof fn lemma_powers()
    ensures
        vstd::arithmetic::power::pow(256, 2) == 0x1_0000,
        vstd::arithmetic::power::pow(4, 16) == 0x1_0000_0000,
        vstd::arithmetic::power::pow(256, 4) == 0x1_0000_0000,
        vstd::arithmetic::power::pow(8, 16) == 0x1_0000_0000_0000,
        vstd::arithmetic::power::pow(256, 6) == 0x1_0000_0000_0000,
        vstd::arithmetic::power::pow(16, 16) == 0x1_0000_0000_0000_0000,
        vstd::arithmetic::power::pow(256, 8) == 0x1_0000_0000_0000_0000,
{
    reveal_with_fuel(vstd::arithmetic::power::pow, 17);
}

/// Whether `c` is the colour of the pixel `k` of a block: the codes 0 and 1 pick the two
/// colours, the others lie between them, a third and two thirds of the way, or, in DXT1
/// where the first colour is not the greater number, halfway and nothing at all.
pub open spec fn is_colour_of(codec: Codec, b: Block, k: int, c: Rgb) -> bool {
    let code = b.codes[k];
    let first = rgb565(b.first.stored() as u16);
    let second = rgb565(b.second.stored() as u16);
    let thirds = codec != Codec::Dxt1 || b.first.stored() > b.second.stored();
    &&& code == 0 ==> c == first
    &&& code == 1 ==> c == second
    &&& code == 2 && thirds ==> lies_between(c, first, 2, second, 1)
    &&& code == 3 && thirds ==> lies_between(c, first, 1, second, 2)
    &&& code == 2 && !thirds ==> lies_between(c, first, 1, second, 1)
    &&& code == 3 && !thirds ==> c == (Rgb { r: 0, g: 0, b: 0 })
}

/// Whether `a` is the alpha of the pixel `k` of a block: full in DXT1 but for nothing at
/// all, sixteen even steps in DXT3, and in DXT5 between two values, with both extremes
/// where the first is not the greater.
pub open spec fn is_alpha_of(codec: Codec, b: Block, k: int, a: u8) -> bool {
    let code = b.codes[k];
    let step = b.alphas[k];
    match codec {
        Codec::Dxt1 => if code == 3 && b.first.stored() <= b.second.stored() {
            a == 0
        } else {
            a == 255
        },
        Codec::Dxt3 => 15 * a == 255 * step,
        Codec::Dxt5 => {
            &&& step == 0 ==> a == b.a0
            &&& step == 1 ==> a == b.a1
            &&& step >= 2 && b.a0 > b.a1 ==> whole_part(
                a,
                (8 - step) * b.a0 + (step - 1) * b.a1,
                7,
            )
            &&& 2 <= step <= 5 && b.a0 <= b.a1 ==> whole_part(
                a,
                (6 - step) * b.a0 + (step - 1) * b.a1,
                5,
            )
            &&& step == 6 && b.a0 <= b.a1 ==> a == 0
            &&& step == 7 && b.a0 <= b.a1 ==> a == 255
        },
    }
}

proof fn lemma_block_colour(codec: Codec, b: Block, k: int)
    requires
        b.fits(codec),
        0 <= k < 16,
    ensures
        is_colour_of(codec, b, k, block_pixel(codec, b.stored(codec), k as nat).rgb),
{
    lemma_block_read(codec, b, k);
    let first = rgb565(b.first.stored() as u16);
    let second = rgb565(b.second.stored() as u16);
    lemma_rgb_mixed(first, 2, second, 1);
    lemma_rgb_mixed(first, 1, second, 2);
    lemma_rgb_mixed(first, 1, second, 1);
}

proof fn lemma_block_alpha(codec: Codec, b: Block, k: int)
    requires
        b.fits(codec),
        0 <= k < 16,
    ensures
        is_alpha_of(codec, b, k, block_pixel(codec, b.stored(codec), k as nat).a),
{
    lemma_block_read(codec, b, k);
    if codec == Codec::Dxt5 {
        let step = b.alphas[k] as int;
        if 2 <= step && b.a0 > b.a1 {
            lemma_mixed(b.a0, 8 - step, b.a1, step - 1);
        } else if 2 <= step <= 5 {
            lemma_mixed(b.a0, 6 - step, b.a1, step - 1);
        }
    }
}

/// The bytes of an image that is one block.
proof fn lemma_one_block(codec: Codec, s: Seq<u8>, k: int)
    requires
        s.len() == block_size(codec),
        0 <= k < 16,
    ensures
        blocks_bytes(codec, 4, 4) == block_size(codec),
        image_bytes(codec, 4, 4, s).len() == 64,
        ({
            let v = image_bytes(codec, 4, 4, s);
            let p = block_pixel(codec, s, k as nat);
            v[4 * k] == p.rgb.r && v[4 * k + 1] == p.rgb.g && v[4 * k + 2] == p.rgb.b && v[4 * k + 3]
                == p.a
        }),
{
    let size = block_size(codec);
    assert(blocks_across(4) == 1);
    assert(1 * 1 * size == size);
    assert((4u32 * 4u32 * 4) as nat == 64);
    let v = image_bytes(codec, 4, 4, s);
    assert(nth_block(codec, s, 0) =~= s);
    let x = k % 4;
    let y = k / 4;
    assert(y / 4 == 0 && x / 4 == 0 && y % 4 * 4 + x % 4 == k);
    assert(image_pixel(codec, 4, s, x, y) == block_pixel(codec, s, k as nat)) by {
        assert(0 * blocks_across(4) + 0 == 0);
    }
    assert forall|c: int| 0 <= c < 4 implies #[trigger] v[4 * k + c] == channel(
        block_pixel(codec, s, k as nat),
        c,
    ) by {
        let i = 4 * k + c;
        assert(i / 4 == k && i % 4 == c);
    }
    assert(v[4 * k] == v[4 * k + 0]);
}

/// A stored block is decoded into what it was made of, pixel by pixel and row by row.
pub proof fn law_a_stored_block_is_decoded(
    codec: Codec,
    b: Block,
    r: Result<Vec<u8>, TexError>,
    k: int,
)
    requires
        b.fits(codec),
        0 <= k < 16,
        decompressed(codec, 4, 4, b.stored(codec), r),
    ensures
        r matches Ok(v) && v@.len() == 64 && is_colour_of(
            codec,
            b,
            k,
            Rgb { r: v@[4 * k], g: v@[4 * k + 1], b: v@[4 * k + 2] },
        ) && is_alpha_of(codec, b, k, v@[4 * k + 3]),
{
    lemma_block_read(codec, b, k);
    lemma_one_block(codec, b.stored(codec), k);
    lemma_block_colour(codec, b, k);
    lemma_block_alpha(codec, b, k);
}

/// An uncompressed image is given pixel by pixel: four channels as they are, three with
/// full alpha, and one as grey with full alpha. It needs the bytes of all its pixels.
pub proof fn law_plain_pixels_are_kept(
    format: TexFormat,
    pixels: int,
    data: Seq<u8>,
    r: Result<Vec<u8>, TexError>,
    p: int,
)
    requires
        0 <= p < pixels,
        plain_decoded(format, pixels, data, r),
    ensures
        format == TexFormat::Rgba8 ==> (r is Ok <==> data.len() >= 4 * pixels),
        format == TexFormat::Rgb8 ==> (r is Ok <==> data.len() >= 3 * pixels),
        format == TexFormat::R8 ==> (r is Ok <==> data.len() >= pixels),
        r matches Ok(v) ==> v@.len() == 4 * pixels && {
            let shown = v@.subrange(4 * p, 4 * p + 4);
            &&& format == TexFormat::Rgba8 ==> shown == data.subrange(4 * p, 4 * p + 4)
            &&& format == TexFormat::Rgb8 ==> shown == data.subrange(3 * p, 3 * p + 3).push(255)
            &&& format == TexFormat::R8 ==> shown == seq![data[p], data[p], data[p], 255]
        },
{
    if let Ok(v) = r {
        let all = plain_bytes(format, pixels, data);
        let shown = v@.subrange(4 * p, 4 * p + 4);
        assert forall|c: int| 0 <= c < 4 implies #[trigger] shown[c] == all[4 * p + c] && (4 * p
            + c) / 4 == p && (4 * p + c) % 4 == c by {}
        if format == TexFormat::Rgba8 {
            assert(shown =~= data.subrange(4 * p, 4 * p + 4));
        } else if format == TexFormat::Rgb8 {
            assert(shown =~= data.subrange(3 * p, 3 * p + 3).push(255));
        } else if format == TexFormat::R8 {
            assert(shown =~= seq![data[p], data[p], data[p], 255]);
        }
    }
}

/// A texture's header is read back: behind a magic of eight bytes, or behind a version
/// with its length before it, stand the format, the width, the height and a count, and
/// then the pixels.
pub proof fn law_a_texture_is_read_back(
    version: Seq<u8>,
    counted: bool,
    format: u32,
    width: u32,
    height: u32,
    count: u32,
    pixels: Seq<u8>,
    r: Result<TexImage, TexError>,
)
    requires
        version.len() >= 8,
        version.len() <= u32::MAX,
        !counted ==> version.len() == 8,
        version.take(4) == seq![0x54u8, 0x45, 0x58, 0x56] || version.take(4) == seq![
            0x54u8,
            0x45,
            0x58,
            0x42,
        ],
        // A length that spells a magic itself is none.
        counted ==> version.len() % 256 != 0x54,
        tex_parsed(
            (if counted {
                crate::pkg::le_bytes(version.len(), 4)
            } else {
                Seq::empty()
            }) + version + crate::pkg::le_bytes(format as nat, 4) + crate::pkg::le_bytes(
                width as nat,
                4,
            ) + crate::pkg::le_bytes(height as nat, 4) + crate::pkg::le_bytes(count as nat, 4)
                + pixels,
            r,
        ),
    ensures
        r matches Ok(t) && t.format == format_of(format) && t.width == width && t.height == height
            && t.data@ == pixels,
{
    let start = if counted {
        crate::pkg::le_bytes(version.len(), 4)
    } else {
        Seq::empty()
    };
    let f = crate::pkg::le_bytes(format as nat, 4);
    let w = crate::pkg::le_bytes(width as nat, 4);
    let h = crate::pkg::le_bytes(height as nat, 4);
    let n = crate::pkg::le_bytes(count as nat, 4);
    let bytes = start + version + f + w + h + n + pixels;
    crate::bytes::lemma_le_bytes_len(version.len(), 4);
    crate::bytes::lemma_le_bytes_len(format as nat, 4);
    crate::bytes::lemma_le_bytes_len(width as nat, 4);
    crate::bytes::lemma_le_bytes_len(height as nat, 4);
    crate::bytes::lemma_le_bytes_len(count as nat, 4);
    lemma_powers();
    let at = (start.len() + version.len()) as int;
    let v4 = version.take(4);
    assert(v4[0] == version[0] && v4[1] == version[1] && v4[2] == version[2] && v4[3]
        == version[3]);
    if counted {
        assert(bytes.subrange(0, 4) =~= start);
        crate::bytes::law_numbers_are_read_back(bytes, 0, version.len(), 4);
        reveal_with_fuel(crate::pkg::le_bytes, 2);
        assert(bytes[0] == start[0]);
        assert(start[0] == (version.len() % 256) as u8);
        assert(bytes[4] == version[0] && bytes[5] == version[1] && bytes[6] == version[2]
            && bytes[7] == version[3]);
    } else {
        assert(bytes[0] == version[0] && bytes[1] == version[1] && bytes[2] == version[2]
            && bytes[3] == version[3]);
    }
    assert(header_start(bytes) == Some(at));
    assert(bytes.subrange(at, at + 4) =~= f);
    assert(bytes.subrange(at + 4, at + 4 + 4) =~= w);
    assert(bytes.subrange(at + 8, at + 8 + 4) =~= h);
    crate::bytes::law_numbers_are_read_back(bytes, at, format as nat, 4);
    crate::bytes::law_numbers_are_read_back(bytes, at + 4, width as nat, 4);
    crate::bytes::law_numbers_are_read_back(bytes, at + 8, height as nat, 4);
    assert(bytes.skip(at + 16) =~= pixels);
}

/// The numbers of each format: the engine's own, and those of DXGI.
pub proof fn law_format_numbers(val: u32)
    ensures
        format_of(val) == TexFormat::Rgba8 <==> val == 0 || val == 1 || val == 28,
        format_of(val) == TexFormat::Rgb8 <==> val == 2 || val == 29,
        format_of(val) == TexFormat::R8 <==> val == 3 || val == 61,
        format_of(val) == TexFormat::Dxt1 <==> val == 4 || val == 10 || val == 71,
        format_of(val) == TexFormat::Dxt3 <==> val == 5 || val == 11 || val == 74,
        format_of(val) == TexFormat::Dxt5 <==> val == 6 || val == 12 || val == 77,
        format_of(val) matches TexFormat::Unknown(n) ==> n == val,
{
}

/// An image is decoded by its own format, at its own size; an unknown format is refused
/// with its number.
pub proof fn law_each_format_is_decoded_as_itself(t: TexImage, r: Result<Vec<u8>, TexError>)
    requires
        t.decoded(r),
    ensures
        t.format == TexFormat::Dxt1 ==> decompressed(Codec::Dxt1, t.width, t.height, t.data@, r),
        t.format == TexFormat::Dxt3 ==> decompressed(Codec::Dxt3, t.width, t.height, t.data@, r),
        t.format == TexFormat::Dxt5 ==> decompressed(Codec::Dxt5, t.width, t.height, t.data@, r),
        t.format == TexFormat::Rgba8 || t.format == TexFormat::Rgb8 || t.format == TexFormat::R8
            ==> plain_decoded(t.format, t.width * t.height, t.data@, r),
        t.format matches TexFormat::Unknown(n) ==> r == Err::<Vec<u8>, TexError>(
            TexError::Unsupported(n),
        ),
{
}

/// Whether an image came out of the function for a codec.
pub open spec fn came_out(
    codec: Codec,
    width: u32,
    height: u32,
    data: &[u8],
    r: Result<Vec<u8>, TexError>,
) -> bool {
    match codec {
        Codec::Dxt1 => call_ensures(decompress_dxt1, (width, height, data), r),
        Codec::Dxt3 => call_ensures(decompress_dxt3, (width, height, data), r),
        Codec::Dxt5 => call_ensures(decompress_dxt5, (width, height, data), r),
    }
}

/// Each codec's function decodes its own blocks: a pixel of the image is that pixel of the
/// block which holds it, as the same function decodes that block alone.
pub proof fn law_images_are_made_of_their_blocks(
    codec: Codec,
    width: u32,
    height: u32,
    data: &[u8],
    part: &[u8],
    image: Result<Vec<u8>, TexError>,
    tile: Result<Vec<u8>, TexError>,
    across: int,
    bx: int,
    by: int,
    px: int,
    py: int,
    c: int,
)
    requires
        4 * (across - 1) < width <= 4 * across,
        0 <= bx,
        0 <= by,
        0 <= px < 4,
        0 <= py < 4,
        0 <= c < 4,
        4 * bx + px < width,
        4 * by + py < height,
        image is Ok,
        came_out(codec, width, height, data, image),
        came_out(codec, 4, 4, part, tile),
        ({
            let size: int = if codec == Codec::Dxt1 {
                8
            } else {
                16
            };
            let at = (by * across + bx) * size;
            part@ == data@.subrange(at, at + size)
        }),
    ensures
        tile matches Ok(t) && image->Ok_0@[((4 * by + py) * width + (4 * bx + px)) * 4 + c]
            == t@[(py * 4 + px) * 4 + c],
{
    law_blocks_are_laid_out_in_rows(
        codec,
        width,
        height,
        data@,
        image,
        tile,
        across,
        bx,
        by,
        px,
        py,
        c,
    );
}

} // verus!
