use vstd::prelude::*;

use crate::asset::{Error, Format};
use vstd::string::StringExecFns;

verus! {

// ---------------------------------------------------------------------------
// Pixel format conversions into 8-bit RGBA.
//
// Source pixels are read in whole units; trailing bytes that do not make up a
// full pixel are ignored.
// ---------------------------------------------------------------------------

/// One BGRA 4:4:4:4 pixel (bytes `gb`, `ar`) as RGBA, each 4-bit channel
/// scaled to 8 bits.
pub open spec fn bgra4_pixel(gb: u8, ar: u8) -> Seq<u8> {
    seq![
        ((ar & 0x0F) * 0x11) as u8,
        ((gb >> 4u8) * 0x11) as u8,
        ((gb & 0x0F) * 0x11) as u8,
        ((ar >> 4u8) * 0x11) as u8,
    ]
}

/// One BGR 5:5:5 + 1-bit alpha pixel (little-endian bytes `lo`, `hi`) as RGBA.
pub open spec fn bgr5a1_pixel(lo: u8, hi: u8) -> Seq<u8> {
    let pixel = (lo as u16) | ((hi as u16) << 8u16);
    seq![
        ((pixel & 0x7C00) >> 7u16) as u8,
        ((pixel & 0x03E0) >> 2u16) as u8,
        ((pixel & 0x001F) << 3u16) as u8,
        (((pixel & 0x8000) >> 15u16) * 0xFF) as u8,
    ]
}

/// One BGRA 8:8:8:8 pixel as RGBA.
pub open spec fn bgra8_pixel(b: u8, g: u8, r: u8, a: u8) -> Seq<u8> {
    seq![r, g, b, a]
}

/// `out` holds, for each whole `width`-byte source pixel of `data`, the four
/// RGBA bytes that `pixel` gives for it.
pub open spec fn converts_pixels(
    data: Seq<u8>,
    out: Seq<u8>,
    width: int,
    pixel: spec_fn(Seq<u8>) -> Seq<u8>,
) -> bool {
    &&& out.len() == 4 * ((data.len() as int) / width)
    &&& forall|i: int, k: int|
        0 <= i < (data.len() as int) / width && 0 <= k < 4 ==> #[trigger] out[4 * i + k] == pixel(
            data.subrange(width * i, width * i + width),
        )[k]
}

pub open spec fn bgra4_of(bytes: Seq<u8>) -> Seq<u8> {
    bgra4_pixel(bytes[0], bytes[1])
}

pub open spec fn bgr5a1_of(bytes: Seq<u8>) -> Seq<u8> {
    bgr5a1_pixel(bytes[0], bytes[1])
}

pub open spec fn bgra8_of(bytes: Seq<u8>) -> Seq<u8> {
    bgra8_pixel(bytes[0], bytes[1], bytes[2], bytes[3])
}

/// Converts BGRA 4:4:4:4 pixel data into RGBA 8:8:8:8.
pub fn bgra4_to_rgba(data: &[u8]) -> (out: Vec<u8>)
    ensures
        converts_pixels(data@, out@, 2, |b: Seq<u8>| bgra4_of(b)),
{
    let n = data.len() / 2;
    let mut out: Vec<u8> = Vec::new();
    let mut i: usize = 0;
    while i < n
        invariant
            n == data@.len() / 2,
            data@.len() == data.len(),
            i <= n,
            out@.len() == 4 * i,
            forall|j: int, k: int|
                0 <= j < i && 0 <= k < 4 ==> #[trigger] out@[4 * j + k] == bgra4_of(
                    data@.subrange(2 * j, 2 * j + 2),
                )[k],
        decreases n - i,
    {
        let gb = data[2 * i];
        let ar = data[2 * i + 1];
        assert(ar & 0x0F <= 15 && gb >> 4u8 <= 15 && gb & 0x0F <= 15 && ar >> 4u8 <= 15) by (bit_vector);
        let ghost before = out@;
        out.push((ar & 0x0F) * 0x11);
        out.push((gb >> 4) * 0x11);
        out.push((gb & 0x0F) * 0x11);
        out.push((ar >> 4) * 0x11);
        let ghost src = data@.subrange(2 * i as int, 2 * i + 2);
        assert(src[0] == gb && src[1] == ar);
        assert forall|j: int, k: int|
            0 <= j < i + 1 && 0 <= k < 4 implies #[trigger] out@[4 * j + k] == bgra4_of(
            data@.subrange(2 * j, 2 * j + 2),
        )[k] by {
            if j < i {
                assert(out@[4 * j + k] == before[4 * j + k]);
            }
        }
        i = i + 1;
    }
    out
}

/// Converts BGR 5:5:5 + 1-bit alpha pixel data into RGBA 8:8:8:8.
pub fn bgr5a1_to_rgba(data: &[u8]) -> (out: Vec<u8>)
    ensures
        converts_pixels(data@, out@, 2, |b: Seq<u8>| bgr5a1_of(b)),
{
    let n = data.len() / 2;
    let mut out: Vec<u8> = Vec::new();
    let mut i: usize = 0;
    while i < n
        invariant
            n == data@.len() / 2,
            data@.len() == data.len(),
            i <= n,
            out@.len() == 4 * i,
            forall|j: int, k: int|
                0 <= j < i && 0 <= k < 4 ==> #[trigger] out@[4 * j + k] == bgr5a1_of(
                    data@.subrange(2 * j, 2 * j + 2),
                )[k],
        decreases n - i,
    {
        let lo = data[2 * i];
        let hi = data[2 * i + 1];
        let pixel: u16 = (lo as u16) | ((hi as u16) << 8);
        assert(((pixel & 0x7C00) >> 7u16) <= 255 && ((pixel & 0x03E0) >> 2u16) <= 255 && ((pixel
            & 0x001F) << 3u16) <= 255 && ((pixel & 0x8000) >> 15u16) <= 1) by (bit_vector);
        let r = ((pixel & 0x7C00) >> 7) as u8;
        let g = ((pixel & 0x03E0) >> 2) as u8;
        let b = ((pixel & 0x001F) << 3) as u8;
        let a = (((pixel & 0x8000) >> 15) * 0xFF) as u8;
        let ghost before = out@;
        out.push(r);
        out.push(g);
        out.push(b);
        out.push(a);
        let ghost src = data@.subrange(2 * i as int, 2 * i + 2);
        assert(src[0] == lo && src[1] == hi);
        assert forall|j: int, k: int|
            0 <= j < i + 1 && 0 <= k < 4 implies #[trigger] out@[4 * j + k] == bgr5a1_of(
            data@.subrange(2 * j, 2 * j + 2),
        )[k] by {
            if j < i {
                assert(out@[4 * j + k] == before[4 * j + k]);
            }
        }
        i = i + 1;
    }
    out
}

/// The value of a little-endian 16-bit pixel.
pub open spec fn pixel16(lo: u8, hi: u8) -> int {
    lo + 256 * hi
}

proof fn lemma_bgr5a1_pixel_channels(lo: u8, hi: u8)
    ensures
        bgr5a1_pixel(lo, hi)[0] == (pixel16(lo, hi) / 1024) % 32 * 8,
        bgr5a1_pixel(lo, hi)[1] == (pixel16(lo, hi) / 32) % 32 * 8,
        bgr5a1_pixel(lo, hi)[2] == pixel16(lo, hi) % 32 * 8,
        bgr5a1_pixel(lo, hi)[3] == if pixel16(lo, hi) >= 0x8000 { 255int } else { 0int },
{
    let p: u16 = (lo as u16) | ((hi as u16) << 8u16);
    assert(p == lo + 256 * hi) by (bit_vector)
        requires
            p == (lo as u16) | ((hi as u16) << 8u16),
    ;
    assert(((p & 0x7C00) >> 7u16) as u8 == (p / 1024) % 32 * 8) by (bit_vector);
    assert(((p & 0x03E0) >> 2u16) as u8 == (p / 32) % 32 * 8) by (bit_vector);
    assert(((p & 0x001F) << 3u16) as u8 == p % 32 * 8) by (bit_vector);
    assert((((p & 0x8000) >> 15u16) * 0xFF) as u8 == if p >= 0x8000 { 255int } else { 0int }) by (bit_vector);
}

/// A B5G5R5A1 pixel, the little-endian 16-bit value `p` of its two bytes,
/// holds blue in bits 0 to 4, green in bits 5 to 9, red in bits 10 to 14 and
/// alpha in bit 15: it becomes red, green and blue, each of its 5 bits times
/// 8, and alpha 255 when the bit is set, 0 otherwise.
pub proof fn lemma_bgr5a1_decodes(data: Seq<u8>, out: Seq<u8>)
    requires
        converts_pixels(data, out, 2, |b: Seq<u8>| bgr5a1_of(b)),
    ensures
        out.len() == 4 * (data.len() / 2),
        forall|i: int|
            0 <= i < data.len() / 2 ==> {
                let p = pixel16(#[trigger] data[2 * i], data[2 * i + 1]);
                &&& out[4 * i] == (p / 1024) % 32 * 8
                &&& out[4 * i + 1] == (p / 32) % 32 * 8
                &&& out[4 * i + 2] == p % 32 * 8
                &&& out[4 * i + 3] == if p >= 0x8000 { 255int } else { 0int }
            },
{
    assert forall|i: int| 0 <= i < data.len() / 2 implies {
        let p = pixel16(#[trigger] data[2 * i], data[2 * i + 1]);
        &&& out[4 * i] == (p / 1024) % 32 * 8
        &&& out[4 * i + 1] == (p / 32) % 32 * 8
        &&& out[4 * i + 2] == p % 32 * 8
        &&& out[4 * i + 3] == if p >= 0x8000 { 255int } else { 0int }
    } by {
        let src = data.subrange(2 * i, 2 * i + 2);
        assert(src[0] == data[2 * i] && src[1] == data[2 * i + 1]);
        lemma_bgr5a1_pixel_channels(data[2 * i], data[2 * i + 1]);
        assert(out[4 * i + 0] == bgr5a1_of(src)[0]);
        assert(out[4 * i + 1] == bgr5a1_of(src)[1]);
        assert(out[4 * i + 2] == bgr5a1_of(src)[2]);
        assert(out[4 * i + 3] == bgr5a1_of(src)[3]);
    }
}

proof fn lemma_bgra4_pixel_channels(gb: u8, ar: u8)
    ensures
        bgra4_pixel(gb, ar)[0] == (pixel16(gb, ar) / 256) % 16 * 17,
        bgra4_pixel(gb, ar)[1] == (pixel16(gb, ar) / 16) % 16 * 17,
        bgra4_pixel(gb, ar)[2] == pixel16(gb, ar) % 16 * 17,
        bgra4_pixel(gb, ar)[3] == pixel16(gb, ar) / 4096 * 17,
{
    assert(((ar & 0x0F) * 0x11) as u8 == (ar % 16) * 17) by (bit_vector);
    assert(((gb >> 4u8) * 0x11) as u8 == (gb / 16) * 17) by (bit_vector);
    assert(((gb & 0x0F) * 0x11) as u8 == (gb % 16) * 17) by (bit_vector);
    assert(((ar >> 4u8) * 0x11) as u8 == (ar / 16) * 17) by (bit_vector);
    let p = pixel16(gb, ar);
    assert((p / 256) % 16 == ar % 16 && (p / 16) % 16 == gb / 16 && p % 16 == gb % 16 && p / 4096 == ar / 16) by (
    nonlinear_arith)
        requires
            p == gb + 256 * ar,
            0 <= gb < 256,
            0 <= ar < 256,
    ;
}

/// A B4G4R4A4 pixel, the little-endian 16-bit value `p` of its two bytes,
/// holds blue in bits 0 to 3, green in bits 4 to 7, red in bits 8 to 11 and
/// alpha in bits 12 to 15: each channel becomes its 4 bits times 17, so that
/// 15 becomes 255.
pub proof fn lemma_bgra4_decodes(data: Seq<u8>, out: Seq<u8>)
    requires
        converts_pixels(data, out, 2, |b: Seq<u8>| bgra4_of(b)),
    ensures
        out.len() == 4 * (data.len() / 2),
        forall|i: int|
            0 <= i < data.len() / 2 ==> {
                let p = pixel16(#[trigger] data[2 * i], data[2 * i + 1]);
                &&& out[4 * i] == (p / 256) % 16 * 17
                &&& out[4 * i + 1] == (p / 16) % 16 * 17
                &&& out[4 * i + 2] == p % 16 * 17
                &&& out[4 * i + 3] == p / 4096 * 17
            },
{
    assert forall|i: int| 0 <= i < data.len() / 2 implies {
        let p = pixel16(#[trigger] data[2 * i], data[2 * i + 1]);
        &&& out[4 * i] == (p / 256) % 16 * 17
        &&& out[4 * i + 1] == (p / 16) % 16 * 17
        &&& out[4 * i + 2] == p % 16 * 17
        &&& out[4 * i + 3] == p / 4096 * 17
    } by {
        let src = data.subrange(2 * i, 2 * i + 2);
        assert(src[0] == data[2 * i] && src[1] == data[2 * i + 1]);
        lemma_bgra4_pixel_channels(data[2 * i], data[2 * i + 1]);
        assert(out[4 * i + 0] == bgra4_of(src)[0]);
        assert(out[4 * i + 1] == bgra4_of(src)[1]);
        assert(out[4 * i + 2] == bgra4_of(src)[2]);
        assert(out[4 * i + 3] == bgra4_of(src)[3]);
    }
}

/// A B8G8R8A8 pixel is stored blue, green, red, alpha: it becomes its third
/// byte as red, its second as green, its first as blue and its last as
/// alpha.
pub proof fn lemma_bgra8_decodes(data: Seq<u8>, out: Seq<u8>)
    requires
        converts_pixels(data, out, 4, |b: Seq<u8>| bgra8_of(b)),
    ensures
        out.len() == 4 * (data.len() / 4),
        forall|i: int|
            0 <= i < data.len() / 4 ==> {
                &&& #[trigger] out[4 * i] == data[4 * i + 2]
                &&& out[4 * i + 1] == data[4 * i + 1]
                &&& out[4 * i + 2] == data[4 * i]
                &&& out[4 * i + 3] == data[4 * i + 3]
            },
{
    assert forall|i: int| 0 <= i < data.len() / 4 implies {
        &&& #[trigger] out[4 * i] == data[4 * i + 2]
        &&& out[4 * i + 1] == data[4 * i + 1]
        &&& out[4 * i + 2] == data[4 * i]
        &&& out[4 * i + 3] == data[4 * i + 3]
    } by {
        let src = data.subrange(4 * i, 4 * i + 4);
        assert(out[4 * i + 0] == bgra8_of(src)[0]);
        assert(out[4 * i + 1] == bgra8_of(src)[1]);
        assert(out[4 * i + 2] == bgra8_of(src)[2]);
        assert(out[4 * i + 3] == bgra8_of(src)[3]);
    }
}

/// Converts BGRA 8:8:8:8 pixel data into RGBA 8:8:8:8.
pub fn bgra8_to_rgba(data: &[u8]) -> (out: Vec<u8>)
    ensures
        converts_pixels(data@, out@, 4, |b: Seq<u8>| bgra8_of(b)),
{
    let n = data.len() / 4;
    let mut out: Vec<u8> = Vec::new();
    let mut i: usize = 0;
    while i < n
        invariant
            n == data@.len() / 4,
            data@.len() == data.len(),
            i <= n,
            out@.len() == 4 * i,
            forall|j: int, k: int|
                0 <= j < i && 0 <= k < 4 ==> #[trigger] out@[4 * j + k] == bgra8_of(
                    data@.subrange(4 * j, 4 * j + 4),
                )[k],
        decreases n - i,
    {
        let b = data[4 * i];
        let g = data[4 * i + 1];
        let r = data[4 * i + 2];
        let a = data[4 * i + 3];
        let ghost before = out@;
        out.push(r);
        out.push(g);
        out.push(b);
        out.push(a);
        let ghost src = data@.subrange(4 * i as int, 4 * i + 4);
        assert(src[0] == b && src[1] == g && src[2] == r && src[3] == a);
        assert forall|j: int, k: int|
            0 <= j < i + 1 && 0 <= k < 4 implies #[trigger] out@[4 * j + k] == bgra8_of(
            data@.subrange(4 * j, 4 * j + 4),
        )[k] by {
            if j < i {
                assert(out@[4 * j + k] == before[4 * j + k]);
            }
        }
        i = i + 1;
    }
    out
}

/// Multiplies each channel of `map` by the matching channel of `background`,
/// scaled so that 255 is one: `a * b / 255`.
pub fn multiply_channels(map: &mut Vec<u8>, background: &Vec<u8>)
    requires
        old(map)@.len() == background@.len(),
    ensures
        final(map)@.len() == old(map)@.len(),
        forall|i: int|
            0 <= i < old(map)@.len() ==> #[trigger] final(map)@[i] as int == (old(map)@[i] as int)
                * (background@[i] as int) / 255,
{
    let mut i: usize = 0;
    while i < map.len()
        invariant
            map@.len() == old(map)@.len(),
            map@.len() == background@.len(),
            i <= map@.len(),
            forall|j: int|
                0 <= j < i ==> #[trigger] map@[j] as int == (old(map)@[j] as int) * (background@[j] as int)
                    / 255,
            forall|j: int| i <= j < map@.len() ==> #[trigger] map@[j] == old(map)@[j],
        decreases map@.len() - i,
    {
        let a = map[i] as u32;
        let b = background[i] as u32;
        assert(a * b <= 255 * 255) by (nonlinear_arith)
            requires
                a <= 255,
                b <= 255,
        ;
        assert(a * b / 255 <= 255) by (nonlinear_arith)
            requires
                a * b <= 255 * 255,
        ;
        let product = (a * b / 255) as u8;
        map.set(i, product);
        i = i + 1;
    }
}


// ---------------------------------------------------------------------------
// Bitmaps.
// ---------------------------------------------------------------------------
/// How the bytes of a bitmap make up its pixels.
#[derive(Debug, Clone, Copy, PartialEq, Eq, Structural)]
pub enum PixelLayout {
    /// One byte of brightness.
    Luma8,
    /// Red, green, blue.
    Rgb8,
    /// Red, green, blue, alpha.
    Rgba8,
}

pub open spec fn bytes_per_pixel(layout: PixelLayout) -> nat {
    match layout {
        PixelLayout::Luma8 => 1,
        PixelLayout::Rgb8 => 3,
        PixelLayout::Rgba8 => 4,
    }
}

/// An image of `width` by `height` pixels, row by row.
#[derive(Debug)]
pub struct Bitmap {
    pub width: u32,
    pub height: u32,
    pub layout: PixelLayout,
    pub pixels: Vec<u8>,
}

impl Bitmap {
    /// The pixels fill the image exactly.
    pub open spec fn wf(&self) -> bool {
        self.pixels@.len() == self.width * self.height * bytes_per_pixel(self.layout)
    }
}

/// Colour pixels with their alpha dropped.
pub open spec fn drop_alpha(s: Seq<u8>) -> Seq<u8> {
    Seq::new(3 * (s.len() / 4), |i: int| s[4 * (i / 3) + i % 3])
}

/// Grey pixels as colour pixels.
pub open spec fn gray_to_rgb(s: Seq<u8>) -> Seq<u8> {
    Seq::new(3 * s.len(), |i: int| s[i / 3])
}

/// Pixels of the given layout as RGBA, opaque where the layout has no alpha.
pub open spec fn to_rgba(layout: PixelLayout, s: Seq<u8>) -> Seq<u8> {
    match layout {
        PixelLayout::Luma8 => Seq::new(4 * s.len(), |i: int| if i % 4 == 3 { 255u8 } else { s[i / 4] }),
        PixelLayout::Rgb8 => Seq::new(4 * (s.len() / 3), |i: int| if i % 4 == 3 { 255u8 } else { s[3 * (i / 4) + i % 4] }),
        PixelLayout::Rgba8 => s,
    }
}

proof fn lemma_split(j: int, k: int, n: int)
    requires
        0 <= j,
        0 <= k < n,
        n > 0,
    ensures
        (n * j + k) / n == j,
        (n * j + k) % n == k,
{
    assert((n * j + k) / n == j && (n * j + k) % n == k) by (nonlinear_arith)
        requires
            0 <= j,
            0 <= k < n,
            n > 0,
    ;
}

/// RGBA pixels as RGB, the alpha dropped.
pub fn drop_alpha_bytes(s: &Vec<u8>) -> (out: Vec<u8>)
    ensures
        out@ == drop_alpha(s@),
{
    let n = s.len() / 4;
    let mut out: Vec<u8> = Vec::new();
    let mut j: usize = 0;
    while j < n
        invariant
            n == s@.len() / 4,
            s@.len() == s.len(),
            j <= n,
            out@.len() == 3 * j,
            forall|m: int| 0 <= m < 3 * j ==> #[trigger] out@[m] == s@[4 * (m / 3) + m % 3],
        decreases n - j,
    {
        let ghost before = out@;
        assert(4 * j + 3 < s@.len()) by (nonlinear_arith)
            requires
                j < n,
                n == s@.len() / 4,
        ;
        out.push(s[4 * j]);
        out.push(s[4 * j + 1]);
        out.push(s[4 * j + 2]);
        assert forall|m: int| 0 <= m < 3 * (j + 1) implies #[trigger] out@[m] == s@[4 * (m / 3) + m % 3] by {
            if m < 3 * j {
                assert(out@[m] == before[m]);
            } else {
                lemma_split(j as int, m - 3 * j, 3);
            }
        }
        j = j + 1;
    }
    assert(out@ =~= drop_alpha(s@));
    out
}

/// Grey pixels as RGB.
pub fn gray_to_rgb_bytes(s: &Vec<u8>) -> (out: Vec<u8>)
    requires
        3 * s@.len() <= usize::MAX,
    ensures
        out@ == gray_to_rgb(s@),
{
    let mut out: Vec<u8> = Vec::new();
    let mut j: usize = 0;
    while j < s.len()
        invariant
            j <= s@.len(),
            out@.len() == 3 * j,
            forall|m: int| 0 <= m < 3 * j ==> #[trigger] out@[m] == s@[m / 3],
        decreases s@.len() - j,
    {
        let ghost before = out@;
        let v = s[j];
        out.push(v);
        out.push(v);
        out.push(v);
        assert forall|m: int| 0 <= m < 3 * (j + 1) implies #[trigger] out@[m] == s@[m / 3] by {
            if m < 3 * j {
                assert(out@[m] == before[m]);
            } else {
                lemma_split(j as int, m - 3 * j, 3);
            }
        }
        j = j + 1;
    }
    assert(out@ =~= gray_to_rgb(s@));
    out
}

/// Pixels of the given layout as RGBA.
pub fn to_rgba_bytes(layout: PixelLayout, s: Vec<u8>) -> (out: Vec<u8>)
    requires
        layout == PixelLayout::Luma8 ==> 4 * s@.len() <= usize::MAX,
        layout == PixelLayout::Rgb8 ==> 4 * (s@.len() / 3) <= usize::MAX,
    ensures
        out@ == to_rgba(layout, s@),
{
    match layout {
        PixelLayout::Rgba8 => s,
        PixelLayout::Luma8 => {
            let mut out: Vec<u8> = Vec::new();
            let mut j: usize = 0;
            while j < s.len()
                invariant
                    j <= s@.len(),
                    4 * s@.len() <= usize::MAX,
                    out@.len() == 4 * j,
                    forall|m: int|
                        0 <= m < 4 * j ==> #[trigger] out@[m] == (if m % 4 == 3 { 255u8 } else { s@[m / 4] }),
                decreases s@.len() - j,
            {
                let ghost before = out@;
                let v = s[j];
                out.push(v);
                out.push(v);
                out.push(v);
                out.push(255);
                assert forall|m: int| 0 <= m < 4 * (j + 1) implies #[trigger] out@[m] == (if m % 4 == 3 {
                    255u8
                } else {
                    s@[m / 4]
                }) by {
                    if m < 4 * j {
                        assert(out@[m] == before[m]);
                    } else {
                        lemma_split(j as int, m - 4 * j, 4);
                    }
                }
                j = j + 1;
            }
            assert(out@ =~= to_rgba(layout, s@));
            out
        },
        PixelLayout::Rgb8 => {
            let n = s.len() / 3;
            let mut out: Vec<u8> = Vec::new();
            let mut j: usize = 0;
            while j < n
                invariant
                    n == s@.len() / 3,
                    j <= n,
                    4 * n <= usize::MAX,
                    out@.len() == 4 * j,
                    forall|m: int|
                        0 <= m < 4 * j ==> #[trigger] out@[m] == (if m % 4 == 3 {
                            255u8
                        } else {
                            s@[3 * (m / 4) + m % 4]
                        }),
                decreases n - j,
            {
                let ghost before = out@;
                assert(3 * j + 2 < s@.len()) by (nonlinear_arith)
                    requires
                        j < n,
                        n == s@.len() / 3,
                ;
                out.push(s[3 * j]);
                out.push(s[3 * j + 1]);
                out.push(s[3 * j + 2]);
                out.push(255);
                assert forall|m: int| 0 <= m < 4 * (j + 1) implies #[trigger] out@[m] == (if m % 4 == 3 {
                    255u8
                } else {
                    s@[3 * (m / 4) + m % 4]
                }) by {
                    if m < 4 * j {
                        assert(out@[m] == before[m]);
                    } else {
                        lemma_split(j as int, m - 4 * j, 4);
                    }
                }
                j = j + 1;
            }
            assert(out@ =~= to_rgba(layout, s@));
            out
        },
    }
}


/// The RGBA pixels that `pixel` gives for each whole `width`-byte source
/// pixel of `data`.
pub open spec fn pixels_of(data: Seq<u8>, width: int, pixel: spec_fn(Seq<u8>) -> Seq<u8>) -> Seq<u8> {
    Seq::new(
        (4 * (data.len() as int / width)) as nat,
        |i: int| pixel(data.subrange(width * (i / 4), width * (i / 4) + width))[i % 4],
    )
}

proof fn lemma_converts_pixels(data: Seq<u8>, out: Seq<u8>, width: int, pixel: spec_fn(Seq<u8>) -> Seq<u8>)
    requires
        width > 0,
        converts_pixels(data, out, width, pixel),
    ensures
        out == pixels_of(data, width, pixel),
{
    let p = pixels_of(data, width, pixel);
    assert forall|i: int| 0 <= i < out.len() implies out[i] == p[i] by {
        let j = i / 4;
        let k = i % 4;
        assert(i == 4 * j + k && 0 <= k < 4 && 0 <= j) by (nonlinear_arith)
            requires
                0 <= i,
                j == i / 4,
                k == i % 4,
        ;
        assert(j < data.len() as int / width) by (nonlinear_arith)
            requires
                i < 4 * (data.len() as int / width),
                i == 4 * j + k,
                0 <= k < 4,
        ;
        assert(out[4 * j + k] == pixel(data.subrange(width * j, width * j + width))[k]);
    }
    assert(out =~= p);
}

// ---------------------------------------------------------------------------
// Block-compressed textures.
// ---------------------------------------------------------------------------
/// The block compression formats that textures use.
#[derive(Debug, Clone, Copy, PartialEq, Eq, Structural)]
pub enum BlockFormat {
    Bc1,
    Bc2,
    Bc3,
}

/// The bytes of one block of 4 by 4 pixels.
pub open spec fn block_bytes(format: BlockFormat) -> nat {
    match format {
        BlockFormat::Bc1 => 8,
        BlockFormat::Bc2 => 16,
        BlockFormat::Bc3 => 16,
    }
}

/// The bytes of the blocks that cover an image of `width` by `height`.
pub open spec fn compressed_len(format: BlockFormat, width: nat, height: nat) -> nat {
    ((width + 3) / 4) * ((height + 3) / 4) * block_bytes(format)
}

/// The RGBA pixels that decompressing the blocks of `data` gives for an image
/// of `width` by `height`.
pub uninterp spec fn bc_pixels(format: BlockFormat, data: Seq<u8>, width: usize, height: usize) -> Seq<u8>;

/// Decompresses block-compressed pixels into `output` with
/// `texpresso::Format::decompress`. Its source writes each of the `width *
/// height` pixels of `output` from the block of `data` that covers it, so
/// the result depends on the format, `data` and the size alone. It panics
/// where the width is zero (it cuts `output` into rows of `width * 16` bytes)
/// or where `data` holds fewer blocks than the image needs.
#[verifier::external_body]
fn decompress_blocks(format: BlockFormat, data: &[u8], width: usize, height: usize, output: &mut Vec<u8>)
    requires
        width > 0,
        width * 16 <= usize::MAX,
        data@.len() >= compressed_len(format, width as nat, height as nat),
        old(output)@.len() == width * height * 4,
    ensures
        final(output)@ == bc_pixels(format, data@, width, height),
        final(output)@.len() == old(output)@.len(),
{
    let format = match format {
        BlockFormat::Bc1 => texpresso::Format::Bc1,
        BlockFormat::Bc2 => texpresso::Format::Bc2,
        BlockFormat::Bc3 => texpresso::Format::Bc3,
    };
    format.decompress(data, width, height, output.as_mut_slice());
}

// ---------------------------------------------------------------------------
// Encoding.
// ---------------------------------------------------------------------------
#[verifier::external_type_specification]
#[verifier::external_body]
pub struct ExImageError(image::ImageError);

/// The bytes of the file of the given format that encodes the pixels, or
/// `None` where the encoder refuses them.
pub uninterp spec fn encoding(
    format: Format,
    layout: PixelLayout,
    width: u32,
    height: u32,
    pixels: Seq<u8>,
) -> Option<Seq<u8>>;

/// Encodes pixels into a file of the given format with
/// `image::write_buffer_with_format` (PNG, baseline JPEG, lossless WebP).
/// The encoders are deterministic, so the outcome depends on the arguments
/// alone. It panics unless the pixels fill the image exactly.
#[verifier::external_body]
fn write_buffer(pixels: &[u8], width: u32, height: u32, layout: PixelLayout, format: Format) -> (out: Result<
    Vec<u8>,
    image::ImageError,
>)
    requires
        pixels@.len() == width * height * bytes_per_pixel(layout),
    ensures
        match out {
            Ok(bytes) => encoding(format, layout, width, height, pixels@) == Some(bytes@),
            Err(_) => encoding(format, layout, width, height, pixels@) is None,
        },
{
    let color = match layout {
        PixelLayout::Luma8 => image::ExtendedColorType::L8,
        PixelLayout::Rgb8 => image::ExtendedColorType::Rgb8,
        PixelLayout::Rgba8 => image::ExtendedColorType::Rgba8,
    };
    let format = match format {
        Format::Jpeg => image::ImageFormat::Jpeg,
        Format::Png => image::ImageFormat::Png,
        Format::Webp => image::ImageFormat::WebP,
    };
    let mut bytes = std::io::Cursor::new(Vec::new());
    image::write_buffer_with_format(&mut bytes, pixels, width, height, color, format)?;
    Ok(bytes.into_inner())
}

/// The layout in which a bitmap is encoded: JPEG holds no alpha, so it
/// takes colour without alpha.
pub open spec fn prepared_layout(format: Format, layout: PixelLayout) -> PixelLayout {
    if format == Format::Jpeg {
        PixelLayout::Rgb8
    } else {
        layout
    }
}

/// The pixels in the layout in which they are encoded.
pub open spec fn prepared_pixels(format: Format, layout: PixelLayout, pixels: Seq<u8>) -> Seq<u8> {
    if format == Format::Jpeg {
        match layout {
            PixelLayout::Luma8 => gray_to_rgb(pixels),
            PixelLayout::Rgb8 => pixels,
            PixelLayout::Rgba8 => drop_alpha(pixels),
        }
    } else {
        pixels
    }
}

pub open spec fn write_failure_message() -> Seq<char> {
    "failed to write output buffer"@
}

/// Encodes a bitmap into a file of the given format; for JPEG, the bitmap
/// first becomes colour without alpha.
pub fn write(image: Bitmap, format: Format) -> (out: Result<Vec<u8>, Error>)
    requires
        image.wf(),
        image.width * image.height * 4 <= usize::MAX,
    ensures
        match encoding(
            format,
            prepared_layout(format, image.layout),
            image.width,
            image.height,
            prepared_pixels(format, image.layout, image.pixels@),
        ) {
            Some(bytes) => out matches Ok(b) && b@ == bytes,
            None => out matches Err(Error::Failure(m)) && m@ == write_failure_message(),
        },
{
    let Bitmap { width, height, layout, pixels } = image;
    let ghost wh = width * height;
    let (layout, pixels) = if matches!(format, Format::Jpeg) {
        match layout {
            PixelLayout::Luma8 => {
                assert(3 * pixels@.len() == wh * 3) by (nonlinear_arith)
                    requires
                        pixels@.len() == wh * 1,
                ;
                (PixelLayout::Rgb8, gray_to_rgb_bytes(&pixels))
            },
            PixelLayout::Rgb8 => (PixelLayout::Rgb8, pixels),
            PixelLayout::Rgba8 => {
                assert(pixels@.len() / 4 == wh) by (nonlinear_arith)
                    requires
                        pixels@.len() == wh * 4,
                ;
                (PixelLayout::Rgb8, drop_alpha_bytes(&pixels))
            },
        }
    } else {
        (layout, pixels)
    };
    assert(pixels@.len() == width * height * bytes_per_pixel(layout));
    match write_buffer(pixels.as_slice(), width, height, layout, format) {
        Ok(bytes) => Ok(bytes),
        Err(_) => Err(Error::Failure("failed to write output buffer".to_owned())),
    }
}

// ---------------------------------------------------------------------------
// Textures.
// ---------------------------------------------------------------------------
/// The dimension of a texture; only two-dimensional textures are read.
#[derive(Debug)]
pub enum TextureKind {
    D2,
    /// Another dimension, by its name.
    Other(String),
}

/// The pixel format of a texture.
#[derive(Debug)]
pub enum TextureFormat {
    A8Unorm,
    Bgra4Unorm,
    Bgr5a1Unorm,
    Bgra8Unorm,
    Bc1Unorm,
    Bc2Unorm,
    Bc3Unorm,
    /// Another format, by its name.
    Other(String),
}

/// A texture file: its dimension, pixel format, size and pixel data.
#[derive(Debug)]
pub struct Texture {
    pub kind: TextureKind,
    pub format: TextureFormat,
    pub width: u16,
    pub height: u16,
    pub data: Vec<u8>,
}

pub open spec fn block_format_of(format: TextureFormat) -> Option<BlockFormat> {
    match format {
        TextureFormat::Bc1Unorm => Some(BlockFormat::Bc1),
        TextureFormat::Bc2Unorm => Some(BlockFormat::Bc2),
        TextureFormat::Bc3Unorm => Some(BlockFormat::Bc3),
        _ => None,
    }
}

/// The layout and pixels that a texture decodes into, where its format is
/// handled.
pub open spec fn decoded(t: Texture) -> Option<(PixelLayout, Seq<u8>)> {
    match t.format {
        TextureFormat::A8Unorm => Some((PixelLayout::Luma8, t.data@)),
        TextureFormat::Bgra4Unorm => Some((PixelLayout::Rgba8, pixels_of(t.data@, 2, |b: Seq<u8>| bgra4_of(b)))),
        TextureFormat::Bgr5a1Unorm => Some(
            (PixelLayout::Rgba8, pixels_of(t.data@, 2, |b: Seq<u8>| bgr5a1_of(b))),
        ),
        TextureFormat::Bgra8Unorm => Some((PixelLayout::Rgba8, pixels_of(t.data@, 4, |b: Seq<u8>| bgra8_of(b)))),
        TextureFormat::Bc1Unorm => Some(
            (PixelLayout::Rgba8, bc_pixels(BlockFormat::Bc1, t.data@, t.width as usize, t.height as usize)),
        ),
        TextureFormat::Bc2Unorm => Some(
            (PixelLayout::Rgba8, bc_pixels(BlockFormat::Bc2, t.data@, t.width as usize, t.height as usize)),
        ),
        TextureFormat::Bc3Unorm => Some(
            (PixelLayout::Rgba8, bc_pixels(BlockFormat::Bc3, t.data@, t.width as usize, t.height as usize)),
        ),
        TextureFormat::Other(_) => None,
    }
}

/// The block-compressed data of a texture covers its size, and its width is
/// not zero.
pub open spec fn blocks_cover(t: Texture) -> bool {
    match block_format_of(t.format) {
        Some(f) => t.width > 0 && t.data@.len() >= compressed_len(f, t.width as nat, t.height as nat),
        None => true,
    }
}

pub open spec fn buffer_failure_message() -> Seq<char> {
    "failed to build image buffer"@
}

/// Decodes a texture into a bitmap: only two-dimensional textures of the
/// handled formats are read, and the decoded pixels must cover the image.
pub fn read(texture: &Texture, path: &str) -> (out: Result<Bitmap, Error>)
    requires
        blocks_cover(*texture),
        texture.width * texture.height * 4 <= usize::MAX,
    ensures
        match texture.kind {
            TextureKind::Other(name) => out matches Err(Error::UnsupportedSource(p, r)) && p@ == path@ && r@
                == "unhandled texture dimension "@ + name@,
            TextureKind::D2 => match decoded(*texture) {
                None => out matches Err(Error::UnsupportedSource(p, r)) && p@ == path@ && (
                texture.format matches TextureFormat::Other(name) && r@ == "unhandled texture format "@ + name@),
                Some((layout, pixels)) => if pixels.len() >= texture.width * texture.height * bytes_per_pixel(
                    layout,
                ) {
                    out matches Ok(b) && b.width == texture.width && b.height == texture.height && b.layout
                        == layout && b.pixels@ == pixels
                } else {
                    out matches Err(Error::Failure(m)) && m@ == buffer_failure_message()
                },
            },
        },
        pixels_fit(*texture) ==> (out matches Ok(b) ==> b.wf()),
{
    match &texture.kind {
        TextureKind::Other(name) => {
            let mut reason = "unhandled texture dimension ".to_owned();
            reason.append(name.as_str());
            return Err(Error::UnsupportedSource(path.to_owned(), reason));
        },
        TextureKind::D2 => {},
    }
    assert(texture.kind is D2);
    let width = texture.width as usize;
    let height = texture.height as usize;
    let (layout, pixels) = match &texture.format {
        TextureFormat::Other(name) => {
            let mut reason = "unhandled texture format ".to_owned();
            reason.append(name.as_str());
            return Err(Error::UnsupportedSource(path.to_owned(), reason));
        },
        TextureFormat::A8Unorm => (PixelLayout::Luma8, texture.data.clone()),
        TextureFormat::Bgra4Unorm => {
            let out = bgra4_to_rgba(texture.data.as_slice());
            proof {
                lemma_converts_pixels(texture.data@, out@, 2, |b: Seq<u8>| bgra4_of(b));
            }
            (PixelLayout::Rgba8, out)
        },
        TextureFormat::Bgr5a1Unorm => {
            let out = bgr5a1_to_rgba(texture.data.as_slice());
            proof {
                lemma_converts_pixels(texture.data@, out@, 2, |b: Seq<u8>| bgr5a1_of(b));
            }
            (PixelLayout::Rgba8, out)
        },
        TextureFormat::Bgra8Unorm => {
            let out = bgra8_to_rgba(texture.data.as_slice());
            proof {
                lemma_converts_pixels(texture.data@, out@, 4, |b: Seq<u8>| bgra8_of(b));
            }
            (PixelLayout::Rgba8, out)
        },
        TextureFormat::Bc1Unorm => {
            let mut out = vec![0u8; width * height * 4];
            decompress_blocks(BlockFormat::Bc1, texture.data.as_slice(), width, height, &mut out);
            (PixelLayout::Rgba8, out)
        },
        TextureFormat::Bc2Unorm => {
            let mut out = vec![0u8; width * height * 4];
            decompress_blocks(BlockFormat::Bc2, texture.data.as_slice(), width, height, &mut out);
            (PixelLayout::Rgba8, out)
        },
        TextureFormat::Bc3Unorm => {
            let mut out = vec![0u8; width * height * 4];
            decompress_blocks(BlockFormat::Bc3, texture.data.as_slice(), width, height, &mut out);
            (PixelLayout::Rgba8, out)
        },
    };
    assert(decoded(*texture) == Some((layout, pixels@)));
    let needed = match layout {
        PixelLayout::Luma8 => width * height,
        PixelLayout::Rgb8 => width * height * 3,
        PixelLayout::Rgba8 => width * height * 4,
    };
    assert(needed == texture.width * texture.height * bytes_per_pixel(layout)) by (nonlinear_arith)
        requires
            width == texture.width,
            height == texture.height,
            layout == PixelLayout::Luma8 ==> needed == width * height && bytes_per_pixel(layout) == 1,
            layout == PixelLayout::Rgb8 ==> needed == width * height * 3 && bytes_per_pixel(layout) == 3,
            layout == PixelLayout::Rgba8 ==> needed == width * height * 4 && bytes_per_pixel(layout) == 4,
    ;
    if pixels.len() < needed {
        return Err(Error::Failure("failed to build image buffer".to_owned()));
    }
    Ok(Bitmap { width: texture.width as u32, height: texture.height as u32, layout, pixels })
}


/// Once decoded, the pixels of the texture do not run past its image (those
/// of block-compressed textures always fill it exactly).
pub open spec fn pixels_fit(t: Texture) -> bool {
    match t.format {
        TextureFormat::A8Unorm => t.data@.len() <= t.width * t.height,
        TextureFormat::Bgra4Unorm => 4 * (t.data@.len() / 2) <= t.width * t.height * 4,
        TextureFormat::Bgr5a1Unorm => 4 * (t.data@.len() / 2) <= t.width * t.height * 4,
        TextureFormat::Bgra8Unorm => 4 * (t.data@.len() / 4) <= t.width * t.height * 4,
        _ => true,
    }
}

/// Converts a texture into a file of the given format: it is decoded, then
/// encoded.
pub fn convert_texture(texture: &Texture, path: &str, format: Format) -> (out: Result<Vec<u8>, Error>)
    requires
        blocks_cover(*texture),
        pixels_fit(*texture),
        texture.width * texture.height * 4 <= usize::MAX,
    ensures
        match texture.kind {
            TextureKind::Other(name) => out matches Err(Error::UnsupportedSource(p, r)) && p@ == path@ && r@
                == "unhandled texture dimension "@ + name@,
            TextureKind::D2 => match decoded(*texture) {
                None => out matches Err(Error::UnsupportedSource(p, r)) && p@ == path@ && (
                texture.format matches TextureFormat::Other(name) && r@ == "unhandled texture format "@ + name@),
                Some((layout, pixels)) => if pixels.len() >= texture.width * texture.height * bytes_per_pixel(
                    layout,
                ) {
                    match encoding(
                        format,
                        prepared_layout(format, layout),
                        texture.width as u32,
                        texture.height as u32,
                        prepared_pixels(format, layout, pixels),
                    ) {
                        Some(bytes) => out matches Ok(b) && b@ == bytes,
                        None => out matches Err(Error::Failure(m)) && m@ == write_failure_message(),
                    }
                } else {
                    out matches Err(Error::Failure(m)) && m@ == buffer_failure_message()
                },
            },
        },
{
    let image = match read(texture, path) {
        Ok(image) => image,
        Err(e) => return Err(e),
    };
    write(image, format)
}

/// The first `width * height` pixels of a bitmap, as RGBA.
pub open spec fn rgba_pixels(image: Bitmap) -> Seq<u8> {
    to_rgba(image.layout, image.pixels@.take(image.width * image.height * bytes_per_pixel(image.layout)))
}

/// A bitmap as RGBA: its first `width * height` pixels, converted.
pub fn into_rgba(image: Bitmap) -> (out: Bitmap)
    requires
        image.pixels@.len() >= image.width * image.height * bytes_per_pixel(image.layout),
        image.width * image.height * 4 <= usize::MAX,
    ensures
        out.width == image.width,
        out.height == image.height,
        out.layout == PixelLayout::Rgba8,
        out.pixels@ == rgba_pixels(image),
        out.wf(),
{
    let Bitmap { width, height, layout, mut pixels } = image;
    let n = width as usize * height as usize;
    let needed = match layout {
        PixelLayout::Luma8 => n,
        PixelLayout::Rgb8 => n * 3,
        PixelLayout::Rgba8 => n * 4,
    };
    assert(needed == width * height * bytes_per_pixel(layout)) by (nonlinear_arith)
        requires
            n == width * height,
            layout == PixelLayout::Luma8 ==> needed == n && bytes_per_pixel(layout) == 1,
            layout == PixelLayout::Rgb8 ==> needed == n * 3 && bytes_per_pixel(layout) == 3,
            layout == PixelLayout::Rgba8 ==> needed == n * 4 && bytes_per_pixel(layout) == 4,
    ;
    pixels.truncate(needed);
    assert(pixels@ == image.pixels@.take(needed as int));
    assert(layout == PixelLayout::Rgb8 ==> (needed as int) / 3 == n) by (nonlinear_arith)
        requires
            layout == PixelLayout::Rgb8 ==> needed == n * 3,
    ;
    let rgba = to_rgba_bytes(layout, pixels);
    assert(rgba@.len() == width * height * 4) by {
        if layout == PixelLayout::Rgb8 {
            assert((needed as int) / 3 == n) by (nonlinear_arith)
                requires
                    needed == n * 3,
            ;
        }
    }
    Bitmap { width, height, layout: PixelLayout::Rgba8, pixels: rgba }
}

} // verus!
