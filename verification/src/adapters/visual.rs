//! Visual adapter: deterministic PNG rendering of a schedule.
//!
//! The canvas is divided into three horizontal bands, one per stage. Each
//! scheduled event is drawn as a rectangle across the band of its stage,
//! from its first to its last pixel column; where events overlap, the one
//! drawn last wins. The color of an event is taken from a fixed palette of
//! 24 colors by a stable hash of its pitch (or, without a pitch, of its
//! payload), so equal keys always render in equal colors.

use std::collections::hash_map::DefaultHasher;
use std::hash::Hasher;

use vstd::prelude::*;
use vstd::std_specs::hash::DefaultHasherAdditionalSpecFns;
use vstd::utf8::encode_utf8;

use crate::ast::StageKind;
use super::{AdapterCaps, AdapterErr};

verus! {

/// The visual adapter: a canvas size in pixels.
pub struct VisualAdapter {
    pub width: u32,
    pub height: u32,
}

impl VisualAdapter {
    /// A 256 by 256 canvas.
    pub fn new() -> (v: VisualAdapter)
        ensures
            v.width == 256 && v.height == 256,
    {
        VisualAdapter { width: 256, height: 256 }
    }

    pub fn with_size(width: u32, height: u32) -> (v: VisualAdapter)
        ensures
            v.width == width && v.height == height,
    {
        VisualAdapter { width, height }
    }

    pub fn name(&self) -> (s: &'static str)
        ensures
            s@ == "visual.png"@,
    {
        "visual.png"
    }

    pub fn capabilities(&self) -> (c: AdapterCaps)
        ensures
            !c.realtime && !c.differentiable,
    {
        AdapterCaps { realtime: false, differentiable: false }
    }
}

impl Default for VisualAdapter {
    fn default() -> (v: VisualAdapter)
        ensures
            v.width == 256 && v.height == 256,
    {
        VisualAdapter::new()
    }
}

/// The palette color with the given index (taken modulo 24).
pub open spec fn palette(i: u64) -> (u8, u8, u8) {
    let k = i % 24;
    if k == 0 { (220, 20, 60) }
    else if k == 1 { (255, 99, 71) }
    else if k == 2 { (255, 140, 0) }
    else if k == 3 { (255, 215, 0) }
    else if k == 4 { (154, 205, 50) }
    else if k == 5 { (60, 179, 113) }
    else if k == 6 { (0, 139, 139) }
    else if k == 7 { (70, 130, 180) }
    else if k == 8 { (65, 105, 225) }
    else if k == 9 { (123, 104, 238) }
    else if k == 10 { (186, 85, 211) }
    else if k == 11 { (218, 112, 214) }
    else if k == 12 { (255, 105, 180) }
    else if k == 13 { (205, 92, 92) }
    else if k == 14 { (244, 164, 96) }
    else if k == 15 { (189, 183, 107) }
    else if k == 16 { (85, 107, 47) }
    else if k == 17 { (46, 139, 87) }
    else if k == 18 { (32, 178, 170) }
    else if k == 19 { (25, 25, 112) }
    else if k == 20 { (72, 61, 139) }
    else if k == 21 { (128, 0, 128) }
    else if k == 22 { (199, 21, 133) }
    else { (128, 128, 128) }
}

fn palette_color(i: u64) -> (c: (u8, u8, u8))
    ensures
        c == palette(i),
{
    let k = i % 24;
    if k == 0 { (220, 20, 60) }
    else if k == 1 { (255, 99, 71) }
    else if k == 2 { (255, 140, 0) }
    else if k == 3 { (255, 215, 0) }
    else if k == 4 { (154, 205, 50) }
    else if k == 5 { (60, 179, 113) }
    else if k == 6 { (0, 139, 139) }
    else if k == 7 { (70, 130, 180) }
    else if k == 8 { (65, 105, 225) }
    else if k == 9 { (123, 104, 238) }
    else if k == 10 { (186, 85, 211) }
    else if k == 11 { (218, 112, 214) }
    else if k == 12 { (255, 105, 180) }
    else if k == 13 { (205, 92, 92) }
    else if k == 14 { (244, 164, 96) }
    else if k == 15 { (189, 183, 107) }
    else if k == 16 { (85, 107, 47) }
    else if k == 17 { (46, 139, 87) }
    else if k == 18 { (32, 178, 170) }
    else if k == 19 { (25, 25, 112) }
    else if k == 20 { (72, 61, 139) }
    else if k == 21 { (128, 0, 128) }
    else if k == 22 { (199, 21, 133) }
    else { (128, 128, 128) }
}

/// The hash of a key under the default hasher: its UTF-8 bytes followed by
/// the terminator byte 0xff, as `Hash` for `str` writes them.
pub open spec fn key_hash(key: Seq<char>) -> u64 {
    DefaultHasher::spec_finish(seq![encode_utf8(key), seq![0xffu8]])
}

/// The color of a key.
pub open spec fn key_color_spec(key: Seq<char>) -> (u8, u8, u8) {
    palette(key_hash(key))
}

/// The color of a key: a palette entry chosen by the default hash of the key.
pub fn key_color(key: &str) -> (c: (u8, u8, u8))
    ensures
        c == key_color_spec(key@),
{
    let mut h = DefaultHasher::new();
    h.write(key.as_bytes());
    let term: [u8; 1] = [0xff];
    let ts = term.as_slice();
    assert(ts@.len() == 1 && ts@[0] == 0xff);
    assert(ts@ =~= seq![0xffu8]);
    let ghost h1 = h@;
    assert(h1 =~= seq![encode_utf8(key@)]);
    h.write(ts);
    assert(h@ =~= seq![encode_utf8(key@), seq![0xffu8]]);
    palette_color(h.finish())
}

/// One scheduled event placed on the canvas: the band of its stage, its
/// first and last pixel columns, and the key that gives its color.
pub struct Span {
    pub stage: StageKind,
    pub x0: u32,
    pub x1: u32,
    pub key: String,
}

/// Model of a `Span`.
pub struct SpecSpan {
    pub stage: StageKind,
    pub x0: u32,
    pub x1: u32,
    pub key: Seq<char>,
}

impl View for Span {
    type V = SpecSpan;

    open spec fn view(&self) -> SpecSpan {
        SpecSpan { stage: self.stage, x0: self.x0, x1: self.x1, key: self.key@ }
    }
}

pub open spec fn spans_model(s: Seq<Span>) -> Seq<SpecSpan> {
    s.map_values(|x: Span| x@)
}

/// The band of a stage, from the top.
pub open spec fn band_index(k: StageKind) -> u32 {
    match k {
        StageKind::Territorialize => 0,
        StageKind::Deterritorialize => 1,
        StageKind::Reterritorialize => 2,
    }
}

/// The height of a band: a third of the canvas, at least one row.
pub open spec fn band_height(height: u32) -> u32 {
    if height / 3 >= 1 {
        height / 3
    } else {
        1
    }
}

/// First row of the band of `k`.
pub open spec fn band_top(k: StageKind, height: u32) -> int {
    band_index(k) * band_height(height)
}

/// Row just below the band of `k`, within the canvas.
pub open spec fn band_bottom(k: StageKind, height: u32) -> int {
    let b = band_top(k, height) + band_height(height);
    if b < height {
        b
    } else {
        height as int
    }
}

/// Last column of a span, within the canvas.
pub open spec fn last_column(sp: SpecSpan, width: u32) -> int {
    if sp.x1 >= width {
        width - 1
    } else {
        sp.x1 as int
    }
}

/// Whether span `sp` covers pixel `(x, y)`.
pub open spec fn covers(sp: SpecSpan, width: u32, height: u32, x: int, y: int) -> bool {
    &&& band_top(sp.stage, height) <= y < band_bottom(sp.stage, height)
    &&& sp.x0 <= x <= last_column(sp, width)
}

/// The canvas is split into three horizontal bands of a third of its height
/// each, one per stage in stage order from the top: a span covers exactly
/// the pixels of its columns (clipped to the canvas) in the rows of its own
/// stage's band.
pub proof fn law_stage_bands(sp: SpecSpan, width: u32, height: u32, x: int, y: int)
    requires
        height >= 3,
    ensures
        covers(sp, width, height, x, y) <==> sp.x0 <= x <= sp.x1 && x < width && match sp.stage {
            StageKind::Territorialize => 0 <= y < height / 3,
            StageKind::Deterritorialize => height / 3 <= y < 2 * (height / 3),
            StageKind::Reterritorialize => 2 * (height / 3) <= y < 3 * (height / 3),
        },
{
    assert(3 * (height / 3) <= height);
}

/// Spans of different stages never cover the same pixel, whatever the size
/// of the canvas.
pub proof fn law_bands_disjoint(a: SpecSpan, b: SpecSpan, width: u32, height: u32, x: int, y: int)
    requires
        a.stage != b.stage,
    ensures
        !(covers(a, width, height, x, y) && covers(b, width, height, x, y)),
{
    let bh = band_height(height) as int;
    assert(0 * bh == 0 && 1 * bh == bh && 2 * bh == bh + bh) by (nonlinear_arith);
    assert(bh >= 1);
}

/// The color of pixel `(x, y)`: that of the last span covering it, if any.
pub open spec fn pixel_color(spans: Seq<SpecSpan>, width: u32, height: u32, x: int, y: int) -> Option<
    (u8, u8, u8),
>
    decreases spans.len(),
{
    if spans.len() == 0 {
        None
    } else if covers(spans.last(), width, height, x, y) {
        Some(key_color_spec(spans.last().key))
    } else {
        pixel_color(spans.drop_last(), width, height, x, y)
    }
}

/// Channel `c` (red, green, blue) of a color; 0 for no color.
pub open spec fn channel(col: Option<(u8, u8, u8)>, c: int) -> u8 {
    match col {
        Some((r, g, b)) => if c == 0 {
            r
        } else if c == 1 {
            g
        } else {
            b
        },
        None => 0,
    }
}

/// The RGB bytes of the canvas, row by row from the top, three bytes per
/// pixel from the left.
pub open spec fn canvas(spans: Seq<SpecSpan>, width: u32, height: u32) -> Seq<u8> {
    Seq::new(
        (width * height * 3) as nat,
        |k: int| channel(pixel_color(spans, width, height, (k / 3) % (width as int), (k / 3) / (width as int)), k % 3),
    )
}

/// Position of channel `c` of pixel `(x, y)` in the canvas bytes.
pub open spec fn byte_index(width: u32, x: int, y: int, c: int) -> int {
    (y * width + x) * 3 + c
}

proof fn lemma_byte_index(width: u32, height: u32, x: int, y: int, c: int)
    requires
        0 <= x < width,
        0 <= y < height,
        0 <= c < 3,
    ensures
        0 <= byte_index(width, x, y, c) < width * height * 3,
        byte_index(width, x, y, c) / 3 == y * width + x,
        byte_index(width, x, y, c) % 3 == c,
        (y * width + x) % (width as int) == x,
        (y * width + x) / (width as int) == y,
{
    assert(0 <= y * width + x < width * height) by (nonlinear_arith)
        requires
            0 <= x < width,
            0 <= y < height,
    ;
    assert((y * width + x) % (width as int) == x && (y * width + x) / (width as int) == y) by (nonlinear_arith)
        requires
            0 <= x < width,
            0 <= y,
    ;
}

proof fn lemma_byte_index_inverse(width: u32, height: u32, k: int)
    requires
        0 <= k < width * height * 3,
        width > 0,
    ensures
        0 <= (k / 3) % (width as int) < width,
        0 <= (k / 3) / (width as int) < height,
        byte_index(width, (k / 3) % (width as int), (k / 3) / (width as int), k % 3) == k,
{
    let p = k / 3;
    let w = width as int;
    vstd::arithmetic::div_mod::lemma_fundamental_div_mod(k, 3);
    vstd::arithmetic::div_mod::lemma_fundamental_div_mod(p, w);
    assert(0 <= p < w * height) by (nonlinear_arith)
        requires
            0 <= k < w * height * 3,
            p == k / 3,
    ;
    assert(0 <= p / w < height) by (nonlinear_arith)
        requires
            0 <= p < w * height,
            w > 0,
    ;
    assert(0 <= p % w < w) by (nonlinear_arith)
        requires
            w > 0,
            p >= 0,
    ;
    assert(byte_index(width, p % w, p / w, k % 3) == ((p / w) * w + p % w) * 3 + k % 3);
    assert((p / w) * w == w * (p / w)) by (nonlinear_arith);
}

/// Paints the pixels that a span covers in its color.
fn paint_span(buf: &mut Vec<u8>, width: u32, height: u32, sp: &Span)
    requires
        width as int * height as int * 3 <= u32::MAX,
        width > 0,
        old(buf)@.len() == width * height * 3,
    ensures
        final(buf)@.len() == old(buf)@.len(),
        forall|x: int, y: int, c: int|
            #![trigger final(buf)@[byte_index(width, x, y, c)]]
            0 <= x < width && 0 <= y < height && 0 <= c < 3 ==> final(buf)@[byte_index(width, x, y, c)] == if covers(
                sp@,
                width,
                height,
                x,
                y,
            ) {
                channel(Some(key_color_spec(sp.key@)), c)
            } else {
                old(buf)@[byte_index(width, x, y, c)]
            },
{
    let ghost old_buf = buf@;
    let col = key_color(sp.key.as_str());
    let (r, g, b) = col;
    let band_h: u32 = if height / 3 >= 1 { height / 3 } else { 1 };
    let band: u32 = match sp.stage {
        StageKind::Territorialize => 0,
        StageKind::Deterritorialize => 1,
        StageKind::Reterritorialize => 2,
    };
    assert(band * band_h + band_h <= 3 * band_height(height)) by (nonlinear_arith)
        requires
            band <= 2,
            band_h == band_height(height),
    ;
    assert(3 * band_height(height) <= u32::MAX);
    let y0: u32 = band * band_h;
    let y1: u32 = if y0 + band_h < height { y0 + band_h } else { height };
    let x1: u32 = if sp.x1 >= width { width - 1 } else { sp.x1 };
    let x0 = sp.x0;
    assert(band == band_index(sp.stage));
    assert(y0 == band_top(sp.stage, height));
    assert(y1 == band_bottom(sp.stage, height));
    assert(x1 == last_column(sp@, width));
    let n = buf.len();
    let mut y = y0;
    while y < y1
        invariant
            y0 <= y,
            y <= y1 || y == y0,
            y1 <= height,
            x1 < width,
            buf@.len() == n,
            n == width * height * 3,
            width as int * height as int * 3 <= u32::MAX,
            width > 0,
            old_buf.len() == n,
            col == key_color_spec(sp.key@),
            col == (r, g, b),
            y0 == band_top(sp.stage, height),
            y1 == band_bottom(sp.stage, height),
            x1 == last_column(sp@, width),
            x0 == sp.x0,
            forall|px: int, py: int, c: int|
                #![trigger buf@[byte_index(width, px, py, c)]]
                0 <= px < width && 0 <= py < height && 0 <= c < 3 ==> buf@[byte_index(width, px, py, c)] == if y0
                    <= py < y && x0 <= px <= x1 {
                    channel(Some(col), c)
                } else {
                    old_buf[byte_index(width, px, py, c)]
                },
        decreases y1 - y,
    {
        let mut x = x0;
        while x <= x1
            invariant
                y0 <= y < y1,
                y1 <= height,
                x1 < width,
                x0 <= x,
                x <= x1 + 1 || x == x0,
                buf@.len() == n,
                n == width * height * 3,
                width as int * height as int * 3 <= u32::MAX,
                width > 0,
                old_buf.len() == n,
                col == (r, g, b),
                forall|px: int, py: int, c: int|
                    #![trigger buf@[byte_index(width, px, py, c)]]
                    0 <= px < width && 0 <= py < height && 0 <= c < 3 ==> buf@[byte_index(width, px, py, c)]
                        == if (y0 <= py < y && x0 <= px <= x1) || (py == y && x0 <= px < x && px <= x1) {
                        channel(Some(col), c)
                    } else {
                        old_buf[byte_index(width, px, py, c)]
                    },
            decreases x1 + 1 - x,
        {
            proof {
                lemma_byte_index(width, height, x as int, y as int, 0);
                lemma_byte_index(width, height, x as int, y as int, 2);
            }
            let idx = ((y as u64 * width as u64 + x as u64) * 3) as usize;
            assert(idx == byte_index(width, x as int, y as int, 0));
            if idx + 2 < buf.len() {
                let ghost before = buf@;
                buf[idx] = r;
                buf[idx + 1] = g;
                buf[idx + 2] = b;
                assert forall|px: int, py: int, c: int|
                    0 <= px < width && 0 <= py < height && 0 <= c < 3 implies #[trigger] buf@[byte_index(
                        width,
                        px,
                        py,
                        c,
                    )] == if (y0 <= py < y && x0 <= px <= x1) || (py == y && x0 <= px < x + 1 && px <= x1) {
                        channel(Some(col), c)
                    } else {
                        old_buf[byte_index(width, px, py, c)]
                    } by {
                    lemma_byte_index(width, height, px, py, c);
                    lemma_byte_index(width, height, x as int, y as int, c);
                    if px == x && py == y {
                        assert(byte_index(width, px, py, c) == idx + c);
                    } else {
                        let k = byte_index(width, px, py, c);
                        assert(k != idx && k != idx + 1 && k != idx + 2) by {
                            lemma_byte_index(width, height, x as int, y as int, 0);
                            lemma_byte_index(width, height, x as int, y as int, 1);
                            if k / 3 == y * width + x {
                                assert(py * width + px == y * width + x);
                                assert(px == (py * width + px) % (width as int));
                                assert(py == (py * width + px) / (width as int));
                            }
                        }
                        assert(buf@[k] == before[k]);
                    }
                }
            }
            x = x + 1;
        }
        y = y + 1;
    }
}

/// The RGB bytes of the canvas of `spans`, drawn in order.
fn paint(width: u32, height: u32, spans: &Vec<Span>) -> (buf: Vec<u8>)
    requires
        width as int * height as int * 3 <= u32::MAX,
        spans@.len() > 0 ==> width > 0,
    ensures
        buf@ == canvas(spans_model(spans@), width, height),
{
    let n = (width * height * 3) as usize;
    let mut buf: Vec<u8> = vec![0u8; n];
    let ghost sm = spans_model(spans@);
    if width == 0 {
        assert(buf@ =~= canvas(sm, width, height));
        return buf;
    }
    assert forall|k: int| 0 <= k < n implies buf@[k] == 0u8 by {
        assert(vstd::pervasive::cloned(0u8, buf@[k]));
    }
    assert forall|x: int, y: int, c: int|
        0 <= x < width && 0 <= y < height && 0 <= c < 3 implies #[trigger] buf@[byte_index(width, x, y, c)]
        == channel(pixel_color(sm.take(0), width, height, x, y), c) by {
        lemma_byte_index(width, height, x, y, c);
    }
    let mut i: usize = 0;
    while i < spans.len()
        invariant
            i <= spans@.len(),
            sm == spans_model(spans@),
            buf@.len() == n,
            n == width * height * 3,
            width as int * height as int * 3 <= u32::MAX,
            width > 0,
            forall|x: int, y: int, c: int|
                #![trigger buf@[byte_index(width, x, y, c)]]
                0 <= x < width && 0 <= y < height && 0 <= c < 3 ==> buf@[byte_index(width, x, y, c)] == channel(
                    pixel_color(sm.take(i as int), width, height, x, y),
                    c,
                ),
        decreases spans@.len() - i,
    {
        let ghost before = buf@;
        paint_span(&mut buf, width, height, &spans[i]);
        proof {
            assert(sm.take(i + 1).drop_last() =~= sm.take(i as int));
            assert(sm.take(i + 1).last() == spans@[i as int]@);
        }
        i = i + 1;
    }
    assert(sm.take(i as int) =~= sm);
    assert forall|k: int| 0 <= k < buf@.len() implies #[trigger] buf@[k] == canvas(sm, width, height)[k] by {
        lemma_byte_index_inverse(width, height, k);
    }
    assert(buf@ =~= canvas(sm, width, height));
    buf
}

/// The PNG signature, the first eight bytes of every PNG file.
pub open spec fn png_signature() -> Seq<u8> {
    seq![137u8, 80u8, 78u8, 71u8, 13u8, 10u8, 26u8, 10u8]
}

/// What the `png` crate writes for an 8-bit RGB image of the given size and
/// bytes with default compression and no filter, or `None` when it refuses
/// to write it.
pub uninterp spec fn png_rgb8(width: u32, height: u32, rgb: Seq<u8>) -> Option<Seq<u8>>;

/// Encodes an 8-bit RGB image as PNG with `png::Encoder` (default
/// compression, no filter), writing into a byte vector.
///
/// Trusted: the encoder's output is taken to be a function of the size and
/// the pixel bytes (named `png_rgb8`); it refuses exactly a zero width or
/// height and pixel bytes whose count is not `3 * width * height`; it
/// succeeds on any
/// other input (the header and the compressed image go into a byte vector,
/// which cannot fail), and a successful output starts with the PNG signature
/// (`Writer::init` writes it first). The byte count is bounded so that the
/// encoder's size arithmetic cannot overflow.
#[verifier::external_body]
fn encode_png(width: u32, height: u32, rgb: &[u8]) -> (r: Result<Vec<u8>, AdapterErr>)
    requires
        width as int * height as int * 3 <= u32::MAX,
    ensures
        match r {
            Ok(b) => png_rgb8(width, height, rgb@) == Some(b@),
            Err(e) => png_rgb8(width, height, rgb@) is None && e is Encoding,
        },
        (width == 0 || height == 0 || rgb@.len() != width as int * height as int * 3) <==> r is Err,
        r matches Ok(b) ==> b@.len() >= 8 && b@.take(8) == png_signature(),
{
    let mut out = Vec::new();
    {
        let mut encoder = png::Encoder::new(std::io::Cursor::new(&mut out), width, height);
        encoder.set_color(png::ColorType::Rgb);
        encoder.set_depth(png::BitDepth::Eight);
        encoder.set_compression(png::Compression::Default);
        encoder.set_filter(png::FilterType::NoFilter);
        let mut writer = encoder.write_header().map_err(|e| AdapterErr::Encoding(format!("png header: {}", e)))?;
        writer.write_image_data(rgb).map_err(|e| AdapterErr::Encoding(format!("png body: {}", e)))?;
    }
    Ok(out)
}

impl VisualAdapter {
    /// Draws the spans on the canvas and encodes it as PNG.
    pub fn render(&self, spans: &Vec<Span>) -> (r: Result<Vec<u8>, AdapterErr>)
        requires
            self.width as int * self.height as int * 3 <= u32::MAX,
            spans@.len() > 0 ==> self.width > 0,
        ensures
            match r {
                Ok(b) => png_rgb8(self.width, self.height, canvas(spans_model(spans@), self.width, self.height))
                    == Some(b@) && b@.take(8) == png_signature(),
                Err(e) => png_rgb8(self.width, self.height, canvas(spans_model(spans@), self.width, self.height))
                    is None && e is Encoding,
            },
            (self.width == 0 || self.height == 0) <==> r is Err,
    {
        let buf = paint(self.width, self.height, spans);
        encode_png(self.width, self.height, buf.as_slice())
    }
}

} // verus!
