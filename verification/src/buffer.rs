//! The pixel sink: an RGBA buffer with a coverage-weighted blend, the one
//! primitive the painting pass needs. Out-of-range coordinates are ignored
//! rather than faulted, since glyph boxes can reach past the canvas.

use vstd::prelude::*;

use crate::style::Rgba;

verus! {

/// One channel moved toward the source channel by `t/255`, truncating.
pub open spec fn spec_blend_channel(d: u8, s: u8, t: int) -> int {
    if s >= d {
        d + ((s - d) * t) / 255
    } else {
        d - ((d - s) * t) / 255
    }
}

/// The blend factor: coverage weighted by the source color's alpha.
pub open spec fn spec_blend_factor(src: Rgba, coverage: u8) -> int {
    (coverage * src.a) / 255
}

/// A pixel after alpha blending: every channel, the alpha included, moves
/// toward the source channel in proportion to coverage times source alpha.
pub open spec fn spec_blend(dst: Rgba, src: Rgba, coverage: u8) -> Rgba {
    let t = spec_blend_factor(src, coverage);
    Rgba {
        r: spec_blend_channel(dst.r, src.r, t) as u8,
        g: spec_blend_channel(dst.g, src.g, t) as u8,
        b: spec_blend_channel(dst.b, src.b, t) as u8,
        a: spec_blend_channel(dst.a, src.a, t) as u8,
    }
}

proof fn lemma_blend_channel_in_range(d: u8, s: u8, t: int)
    requires
        0 <= t <= 255,
    ensures
        0 <= spec_blend_channel(d, s, t) <= 255,
{
    if s >= d {
        assert((s - d) * t <= (s - d) * 255) by (nonlinear_arith)
            requires
                0 <= s - d,
                0 <= t <= 255,
        ;
        assert(0 <= (s - d) * t) by (nonlinear_arith)
            requires
                0 <= s - d,
                0 <= t,
        ;
    } else {
        assert((d - s) * t <= (d - s) * 255) by (nonlinear_arith)
            requires
                0 <= d - s,
                0 <= t <= 255,
        ;
        assert(0 <= (d - s) * t) by (nonlinear_arith)
            requires
                0 <= d - s,
                0 <= t,
        ;
    }
}

/// One channel of the blend, executable.
fn blend_channel(d: u8, s: u8, t: u32) -> (r: u8)
    requires
        t <= 255,
    ensures
        r as int == spec_blend_channel(d, s, t as int),
{
    proof {
        lemma_blend_channel_in_range(d, s, t as int);
    }
    if s >= d {
        let delta = ((s - d) as u32 * t) / 255;
        proof {
            assert(((s - d) as u32 * t) as int == (s - d) * (t as int));
        }
        d + (delta as u8)
    } else {
        let delta = ((d - s) as u32 * t) / 255;
        d - (delta as u8)
    }
}

/// An RGBA pixel buffer of fixed size, row-major.
pub struct PixelBuffer {
    width: usize,
    height: usize,
    data: Vec<Rgba>,
}

impl PixelBuffer {
    /// The buffer's width in pixels.
    pub closed spec fn spec_width(&self) -> int {
        self.width as int
    }

    /// The buffer's height in pixels.
    pub closed spec fn spec_height(&self) -> int {
        self.height as int
    }

    /// The storage holds exactly one pixel per coordinate.
    pub closed spec fn wf(&self) -> bool {
        self.data@.len() == self.spec_width() * self.spec_height()
    }

    /// The pixel at `(x, y)`.
    pub closed spec fn spec_pixel(&self, x: int, y: int) -> Rgba {
        self.data@[y * self.spec_width() + x]
    }

    /// A buffer of the given size with every pixel the background color.
    /// The size bound is a machine limit on the storage length.
    pub fn new(width: usize, height: usize, background: Rgba) -> (b: PixelBuffer)
        requires
            width as int * height as int <= usize::MAX,
        ensures
            b.wf(),
            b.spec_width() == width,
            b.spec_height() == height,
            forall|x: int, y: int|
                0 <= x < width && 0 <= y < height ==> b.spec_pixel(x, y) == background,
    {
        let total = width * height;
        let mut data: Vec<Rgba> = Vec::new();
        let mut i: usize = 0;
        while i < total
            invariant
                i <= total,
                data@.len() == i,
                forall|t: int| 0 <= t < i ==> data@[t] == background,
            decreases total - i,
        {
            data.push(background);
            i = i + 1;
        }
        let b = PixelBuffer { width, height, data };
        proof {
            assert forall|x: int, y: int|
                0 <= x < width && 0 <= y < height implies b.spec_pixel(x, y) == background by {
                assert(0 <= y * width + x < width * height) by (nonlinear_arith)
                    requires
                        0 <= x < width,
                        0 <= y < height,
                ;
            }
        }
        b
    }

    /// Blends the color into the pixel at `(x, y)` with the given coverage;
    /// coordinates off the canvas are ignored and every other pixel keeps
    /// its value.
    pub fn blend_pixel(&mut self, x: i128, y: i128, color: Rgba, coverage: u8)
        requires
            old(self).wf(),
        ensures
            final(self).wf(),
            final(self).spec_width() == old(self).spec_width(),
            final(self).spec_height() == old(self).spec_height(),
            0 <= x < old(self).spec_width() && 0 <= y < old(self).spec_height()
                ==> final(self).spec_pixel(x as int, y as int) == spec_blend(
                old(self).spec_pixel(x as int, y as int),
                color,
                coverage,
            ),
            forall|a: int, b: int|
                0 <= a < old(self).spec_width() && 0 <= b < old(self).spec_height() && !(a == x
                    && b == y) ==> final(self).spec_pixel(a, b) == old(self).spec_pixel(a, b),
    {
        if x < 0 || y < 0 || x >= self.width as i128 || y >= self.height as i128 {
            proof {
                assert forall|a: int, b: int|
                    0 <= a < self.spec_width() && 0 <= b < self.spec_height() && !(a == x && b
                        == y) implies self.spec_pixel(a, b) == old(self).spec_pixel(a, b) by {}
            }
            return ;
        }
        let xu = x as usize;
        let yu = y as usize;
        let n = self.data.len();
        proof {
            assert(0 <= yu * self.width + xu < self.width * self.height) by (nonlinear_arith)
                requires
                    0 <= xu < self.width,
                    0 <= yu < self.height,
            ;
        }
        let idx = yu * self.width + xu;
        proof {
            let cv = coverage as int;
            let ca = color.a as int;
            assert(cv * ca <= 65025) by (nonlinear_arith)
                requires
                    0 <= cv <= 255,
                    0 <= ca <= 255,
            ;
            assert((cv * ca) / 255 <= 255) by (nonlinear_arith)
                requires
                    0 <= cv * ca <= 65025,
            ;
        }
        let t: u32 = (coverage as u32 * color.a as u32) / 255;
        let dst = self.data[idx];
        let px = Rgba {
            r: blend_channel(dst.r, color.r, t),
            g: blend_channel(dst.g, color.g, t),
            b: blend_channel(dst.b, color.b, t),
            a: blend_channel(dst.a, color.a, t),
        };
        self.data[idx] = px;
        proof {
            assert(final(self).spec_pixel(x as int, y as int) == spec_blend(
                old(self).spec_pixel(x as int, y as int),
                color,
                coverage,
            ));
            assert forall|a: int, b: int|
                0 <= a < old(self).spec_width() && 0 <= b < old(self).spec_height() && !(a == x
                    && b == y) implies final(self).spec_pixel(a, b) == old(self).spec_pixel(
                a,
                b,
            ) by {
                let wdt = old(self).spec_width();
                let hgt = old(self).spec_height();
                let xi = xu as int;
                let yi = yu as int;
                assert(0 <= b * wdt + a < wdt * hgt) by (nonlinear_arith)
                    requires
                        0 <= a < wdt,
                        0 <= b < hgt,
                ;
                assert(b * wdt + a != yi * wdt + xi) by (nonlinear_arith)
                    requires
                        0 <= a < wdt,
                        0 <= xi < wdt,
                        !(a == xi && b == yi),
                ;
            }
        }
    }

    /// The buffer's width in pixels.
    pub fn width(&self) -> (w: usize)
        ensures
            w as int == self.spec_width(),
    {
        self.width
    }

    /// The buffer's height in pixels.
    pub fn height(&self) -> (h: usize)
        ensures
            h as int == self.spec_height(),
    {
        self.height
    }

    /// Reads one pixel.
    pub fn pixel(&self, x: usize, y: usize) -> (p: Rgba)
        requires
            self.wf(),
            x < self.spec_width(),
            y < self.spec_height(),
        ensures
            p == self.spec_pixel(x as int, y as int),
    {
        let n = self.data.len();
        proof {
            assert(0 <= y * self.spec_width() + x < self.spec_width() * self.spec_height())
                by (nonlinear_arith)
                requires
                    0 <= x < self.spec_width(),
                    0 <= y < self.spec_height(),
            ;
        }
        self.data[y * self.width + x]
    }
}

} // verus!
