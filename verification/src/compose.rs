//! The compositor: sizes the output image from the finished lines, places
//! each line's glyphs with alignment, justification and caller-supplied
//! kerning, and tracks the sticky draw color — everything the painting pass
//! needs, as one flat list of draw commands in paint order.

use vstd::prelude::*;

use crate::layout::Line;
use crate::layout::LineV;
use crate::layout::PlacedChar;
use crate::layout::sum_adv;
use crate::layout::lemma_sum_adv_nonneg;
use crate::layout::lemma_sum_adv_concat;
use crate::style::Rgba;
use crate::style::TextAlign;
use crate::style::spec_is_can_line_break;
use crate::style::is_can_line_break;

verus! {

/// One glyph ready to paint: where its caret sits, in the caller's advance
/// unit, and with which sticky color.
#[derive(Clone, Copy, Debug)]
pub struct DrawCmd {
    pub chunk: usize,
    pub ch: char,
    pub glyph_id: u32,
    pub x: i128,
    pub y: i128,
    pub color: Rgba,
}

/// The sticky color glyphs are painted with before any chunk sets one.
pub open spec fn spec_default_color() -> Rgba {
    Rgba { r: 0, g: 0, b: 0, a: 255 }
}

/// Number of soft-break glyphs in a sequence (the justification targets).
pub open spec fn count_soft(s: Seq<PlacedChar>) -> int
    decreases s.len(),
{
    if s.len() == 0 {
        0
    } else {
        count_soft(s.drop_last()) + if spec_is_can_line_break(s.last().ch) {
            1int
        } else {
            0int
        }
    }
}

pub proof fn lemma_count_soft_bounds(s: Seq<PlacedChar>)
    ensures
        0 <= count_soft(s) <= s.len(),
    decreases s.len(),
{
    if s.len() > 0 {
        lemma_count_soft_bounds(s.drop_last());
    }
}

/// Truncating integer division, as the executable `/` rounds.
pub open spec fn div_trunc(a: int, b: int) -> int
    recommends
        b > 0,
{
    if a >= 0 {
        a / b
    } else {
        -((-a) / b)
    }
}

/// Widest line of the pass; zero when there is none. An unset image width
/// is computed as this maximum.
pub open spec fn spec_auto_width(lines: Seq<LineV>) -> int
    decreases lines.len(),
{
    if lines.len() == 0 {
        0
    } else {
        vstd::math::max(spec_auto_width(lines.drop_last()), lines.last().chars_width)
    }
}

/// Sum of all line heights.
pub open spec fn spec_height_sum(lines: Seq<LineV>) -> int
    decreases lines.len(),
{
    if lines.len() == 0 {
        0
    } else {
        spec_height_sum(lines.drop_last()) + lines.last().height
    }
}

/// An unset image height is the sum of the line heights extended by the
/// last line's (non-positive) descent, so below-baseline strokes of the
/// final line stay on the canvas.
pub open spec fn spec_auto_height(lines: Seq<LineV>) -> int
    recommends
        lines.len() >= 1,
{
    spec_height_sum(lines) - lines.last().descent
}

/// Where the caret starts on a line of width `cw` in an image of width `w`.
pub open spec fn spec_start_x(align: TextAlign, w: int, cw: int) -> int {
    match align {
        TextAlign::Left => 0,
        TextAlign::Right => w - cw,
        TextAlign::Center => div_trunc(w - cw, 2),
        TextAlign::Justify => 0,
    }
}

/// The extra advance paid out before each soft-break glyph of a justified
/// line; zero for a justified line without soft-break glyphs.
pub open spec fn spec_justify_inc(w: int, cw: int, nsoft: int) -> int {
    if nsoft == 0 {
        0
    } else {
        div_trunc(w - cw, nsoft)
    }
}

/// The caret after the first `n` glyphs of a line: each glyph contributes
/// its kerning against its predecessor, the justification increment when it
/// is a soft-break glyph of a justified line, and its own advance.
pub open spec fn spec_caret_after(
    glyphs: Seq<PlacedChar>,
    kerns: Seq<i32>,
    start: int,
    jinc: int,
    justify: bool,
    n: int,
) -> int
    decreases n,
{
    if n <= 0 {
        start
    } else {
        spec_caret_after(glyphs, kerns, start, jinc, justify, n - 1) + kern_term(kerns, n - 1)
            + j_term(glyphs, jinc, justify, n - 1) + glyphs[n - 1].advance
    }
}

/// Kerning applies between a glyph and its predecessor, so never to the
/// first glyph of a line.
pub open spec fn kern_term(kerns: Seq<i32>, i: int) -> int {
    if i > 0 {
        kerns[i] as int
    } else {
        0
    }
}

/// The justification increment, paid only before soft-break glyphs of a
/// justified line.
pub open spec fn j_term(glyphs: Seq<PlacedChar>, jinc: int, justify: bool, i: int) -> int {
    if justify && spec_is_can_line_break(glyphs[i].ch) {
        jinc
    } else {
        0
    }
}

/// Where glyph `i` of a line is drawn.
pub open spec fn spec_draw_x(
    glyphs: Seq<PlacedChar>,
    kerns: Seq<i32>,
    start: int,
    jinc: int,
    justify: bool,
    i: int,
) -> int {
    spec_caret_after(glyphs, kerns, start, jinc, justify, i) + kern_term(kerns, i) + j_term(
        glyphs,
        jinc,
        justify,
        i,
    )
}

/// The sticky color after painting `gs`, starting from `c`: the last color
/// any of them carries, or `c` when none does.
pub open spec fn spec_sticky_color(gs: Seq<PlacedChar>, c: Rgba) -> Rgba
    decreases gs.len(),
{
    if gs.len() == 0 {
        c
    } else {
        match gs.last().color {
            Some(o) => o,
            None => spec_sticky_color(gs.drop_last(), c),
        }
    }
}

/// Sum of the kerning values of glyphs `1 .. n`.
pub open spec fn spec_kern_sum(kerns: Seq<i32>, n: int) -> int
    decreases n,
{
    if n <= 0 {
        0
    } else {
        spec_kern_sum(kerns, n - 1) + kern_term(kerns, n - 1)
    }
}

/// Number of soft-break glyphs among the first `n`.
pub open spec fn spec_soft_before(glyphs: Seq<PlacedChar>, n: int) -> int {
    count_soft(glyphs.take(n))
}

/// The caret is start + advances + kernings + (softs seen) * increment.
pub proof fn lemma_caret_decomposed(
    glyphs: Seq<PlacedChar>,
    kerns: Seq<i32>,
    start: int,
    jinc: int,
    justify: bool,
    n: int,
)
    requires
        0 <= n <= glyphs.len(),
    ensures
        spec_caret_after(glyphs, kerns, start, jinc, justify, n) == start + sum_adv(
            glyphs.take(n),
        ) + spec_kern_sum(kerns, n) + (if justify {
            spec_soft_before(glyphs, n) * jinc
        } else {
            0
        }),
    decreases n,
{
    if n == 0 {
        assert(glyphs.take(0) =~= Seq::<PlacedChar>::empty());
    } else {
        lemma_caret_decomposed(glyphs, kerns, start, jinc, justify, n - 1);
        assert(glyphs.take(n).drop_last() =~= glyphs.take(n - 1));
        assert(glyphs.take(n).last() == glyphs[n - 1]);
        let c0 = spec_soft_before(glyphs, n - 1);
        let c1 = spec_soft_before(glyphs, n);
        assert(c1 == c0 + if spec_is_can_line_break(glyphs[n - 1].ch) {
            1int
        } else {
            0int
        });
        assert((c0 + 1) * jinc == c0 * jinc + jinc) by (nonlinear_arith);
    }
}

pub proof fn lemma_kern_sum_bound(kerns: Seq<i32>, n: int)
    requires
        0 <= n <= kerns.len(),
    ensures
        -(n * 0x8000_0000) <= spec_kern_sum(kerns, n) <= n * 0x8000_0000,
    decreases n,
{
    if n > 0 {
        lemma_kern_sum_bound(kerns, n - 1);
    }
}

pub proof fn lemma_sum_adv_take_le(s: Seq<PlacedChar>, n: int)
    requires
        0 <= n <= s.len(),
    ensures
        0 <= sum_adv(s.take(n)) <= sum_adv(s),
{
    assert(s =~= s.take(n) + s.subrange(n, s.len() as int));
    lemma_sum_adv_concat(s.take(n), s.subrange(n, s.len() as int));
    lemma_sum_adv_nonneg(s.take(n));
    lemma_sum_adv_nonneg(s.subrange(n, s.len() as int));
}

pub proof fn lemma_count_soft_take_le(s: Seq<PlacedChar>, n: int)
    requires
        0 <= n <= s.len(),
    ensures
        0 <= count_soft(s.take(n)) <= count_soft(s),
    decreases s.len() - n,
{
    lemma_count_soft_bounds(s.take(n));
    if n == s.len() {
        assert(s.take(n) =~= s);
    } else {
        lemma_count_soft_take_le(s, n + 1);
        assert(s.take(n + 1).drop_last() =~= s.take(n));
        lemma_count_soft_bounds(s.take(n + 1));
    }
}

/// Every caret of a line stays far inside the `i128` range: the start
/// offset, the advances, the kernings and the paid-out justification are
/// each bounded, so their sum is.
pub proof fn lemma_caret_bound(
    glyphs: Seq<PlacedChar>,
    kerns: Seq<i32>,
    start: int,
    jinc: int,
    justify: bool,
    n: int,
)
    requires
        0 <= n <= glyphs.len(),
        kerns.len() == glyphs.len(),
        glyphs.len() <= 0x1_0000_0000_0000_0000,
        -0x1_0000_0000_0000_0000 <= start <= 0x1_0000_0000_0000_0000,
        sum_adv(glyphs) <= 0xffff_ffff_ffff_ffff,
        -0x1_0000_0000_0000_0000 <= count_soft(glyphs) * jinc <= 0x1_0000_0000_0000_0000,
    ensures
        -0x1_0000_0000_0000_0000_0000_0000 <= spec_caret_after(
            glyphs,
            kerns,
            start,
            jinc,
            justify,
            n,
        ) <= 0x1_0000_0000_0000_0000_0000_0000,
{
    lemma_caret_decomposed(glyphs, kerns, start, jinc, justify, n);
    lemma_sum_adv_take_le(glyphs, n);
    lemma_kern_sum_bound(kerns, n);
    lemma_count_soft_take_le(glyphs, n);
    let c = count_soft(glyphs);
    let cn = count_soft(glyphs.take(n));
    assert(-0x1_0000_0000_0000_0000 <= cn * jinc <= 0x1_0000_0000_0000_0000) by (nonlinear_arith)
        requires
            0 <= cn <= c,
            -0x1_0000_0000_0000_0000 <= c * jinc <= 0x1_0000_0000_0000_0000,
    ;
}

/// Number of soft-break glyphs on a line, the justification targets.
pub fn count_soft_glyphs(glyphs: &Vec<PlacedChar>) -> (n: usize)
    ensures
        n as int == count_soft(glyphs@),
        n <= glyphs@.len(),
{
    let mut n: usize = 0;
    let mut i: usize = 0;
    while i < glyphs.len()
        invariant
            i <= glyphs@.len(),
            n <= i,
            n as int == count_soft(glyphs@.take(i as int)),
        decreases glyphs@.len() - i,
    {
        if is_can_line_break(glyphs[i].ch) {
            n = n + 1;
        }
        proof {
            assert(glyphs@.take(i + 1).drop_last() =~= glyphs@.take(i as int));
            assert(glyphs@.take(i + 1).last() == glyphs@[i as int]);
        }
        i = i + 1;
    }
    proof {
        assert(glyphs@.take(glyphs@.len() as int) =~= glyphs@);
    }
    n
}

/// The image size of a pass: explicit measures are honored verbatim, a
/// zero width becomes the widest line, a zero height the summed line
/// heights extended by the last line's descent. `None` exactly when that
/// auto height does not fit the result type.
pub fn image_size(lines: &Vec<Line>, cfg_width: u64, cfg_height: u64) -> (r: Option<(u64, u64)>)
    requires
        lines@.len() >= 1,
        lines@[lines@.len() - 1].descent <= 0,
    ensures
        ({
            let lv = lines@.map_values(|l: Line| l@);
            let w = if cfg_width != 0 {
                cfg_width as int
            } else {
                spec_auto_width(lv)
            };
            let h = if cfg_height != 0 {
                cfg_height as int
            } else {
                spec_auto_height(lv)
            };
            if h <= u64::MAX {
                r == Some((w as u64, h as u64))
            } else {
                r == None::<(u64, u64)>
            }
        }),
{
    let ghost lv = lines@.map_values(|l: Line| l@);
    let mut width: u64 = cfg_width;
    if cfg_width == 0 {
        let mut i: usize = 0;
        let mut best: u64 = 0;
        while i < lines.len()
            invariant
                i <= lines@.len(),
                lv == lines@.map_values(|l: Line| l@),
                best as int == spec_auto_width(lv.take(i as int)),
            decreases lines@.len() - i,
        {
            let cw = lines[i].chars_width;
            if cw > best {
                best = cw;
            }
            proof {
                assert(lv.take(i + 1).drop_last() =~= lv.take(i as int));
                assert(lv.take(i + 1).last() == lv[i as int]);
            }
            i = i + 1;
        }
        proof {
            assert(lv.take(lv.len() as int) =~= lv);
        }
        width = best;
    }
    let mut height: u64 = cfg_height;
    if cfg_height == 0 {
        let mut i: usize = 0;
        let mut sum: u128 = 0;
        while i < lines.len()
            invariant
                i <= lines@.len(),
                lv == lines@.map_values(|l: Line| l@),
                sum as int == spec_height_sum(lv.take(i as int)),
                sum <= (i as u128) * 0x1_0000_0000,
            decreases lines@.len() - i,
        {
            sum = sum + lines[i].height as u128;
            proof {
                assert(lv.take(i + 1).drop_last() =~= lv.take(i as int));
                assert(lv.take(i + 1).last() == lv[i as int]);
            }
            i = i + 1;
        }
        proof {
            assert(lv.take(lv.len() as int) =~= lv);
        }
        let last_descent = lines[lines.len() - 1].descent;
        let extended: u128 = sum + (-(last_descent as i64)) as u64 as u128;
        if extended > u64::MAX as u128 {
            return None;
        }
        height = extended as u64;
    }
    Some((width, height))
}

/// The draw commands of one line: glyph `i` at its caret, on the line's
/// baseline, with the sticky color after the glyphs up to and including it.
pub open spec fn spec_line_cmds(
    glyphs: Seq<PlacedChar>,
    kerns: Seq<i32>,
    start: int,
    jinc: int,
    justify: bool,
    y: int,
    c: Rgba,
) -> Seq<DrawCmd> {
    Seq::new(
        glyphs.len(),
        |i: int|
            DrawCmd {
                chunk: glyphs[i].chunk,
                ch: glyphs[i].ch,
                glyph_id: glyphs[i].glyph_id,
                x: spec_draw_x(glyphs, kerns, start, jinc, justify, i) as i128,
                y: y as i128,
                color: spec_sticky_color(glyphs.take(i + 1), c),
            },
    )
}

/// The justification increment of a line in an image of width `w`; zero off
/// justify mode and for a justified line without soft-break glyphs.
pub open spec fn spec_line_justify(line: LineV, w: int) -> int {
    if line.text_align is Justify {
        spec_justify_inc(w, line.chars_width, count_soft(line.glyphs))
    } else {
        0
    }
}

/// The draw commands of lines `l ..`, with the baseline carried down by
/// each line's height before its glyphs are placed, and the sticky color
/// carried across line boundaries.
pub open spec fn spec_compose_from(
    lines: Seq<LineV>,
    kerns: Seq<Seq<i32>>,
    w: int,
    l: int,
    y: int,
    c: Rgba,
) -> Seq<DrawCmd>
    decreases lines.len() - l,
{
    if l < 0 || l >= lines.len() {
        Seq::empty()
    } else {
        let line = lines[l];
        let y1 = y + line.height;
        let start = spec_start_x(line.text_align, w, line.chars_width);
        let jinc = spec_line_justify(line, w);
        let justify = line.text_align is Justify;
        spec_line_cmds(line.glyphs, kerns[l], start, jinc, justify, y1, c)
            + spec_compose_from(lines, kerns, w, l + 1, y1, spec_sticky_color(line.glyphs, c))
    }
}

/// Every glyph of every line in paint order: top line first, the caret
/// starting at the line's alignment offset, kerning and justification paid
/// out glyph by glyph, and the sticky color starting black.
pub open spec fn spec_compose(lines: Seq<LineV>, kerns: Seq<Seq<i32>>, w: int) -> Seq<DrawCmd> {
    spec_compose_from(lines, kerns, w, 0, 0, spec_default_color())
}

/// Places every glyph of the finished lines. `kerns[l][i]` is the kerning
/// the caller measured between glyphs `i - 1` and `i` of line `l`
/// (`kerns[l][0]` is ignored); each line's recorded width must tally with
/// its glyphs, as lines of the layout pass do.
pub fn compose(lines: &Vec<Line>, kerns: &Vec<Vec<i32>>, img_width: u64) -> (cmds: Vec<DrawCmd>)
    requires
        kerns@.len() == lines@.len(),
        forall|l: int|
            0 <= l < lines@.len() ==> (#[trigger] kerns@[l])@.len() == lines@[l].glyphs@.len(),
        forall|l: int|
            0 <= l < lines@.len() ==> sum_adv((#[trigger] lines@[l]).glyphs@) == lines@[
                l
            ].chars_width as int,
    ensures
        cmds@ == spec_compose(
            lines@.map_values(|l: Line| l@),
            kerns@.map_values(|k: Vec<i32>| k@),
            img_width as int,
        ),
{
    let ghost lv = lines@.map_values(|l: Line| l@);
    let ghost kv = kerns@.map_values(|k: Vec<i32>| k@);
    let ghost w = img_width as int;
    let mut cmds: Vec<DrawCmd> = Vec::new();
    let mut y: i128 = 0;
    let mut color = Rgba { r: 0, g: 0, b: 0, a: 255 };
    let mut l: usize = 0;
    while l < lines.len()
        invariant
            l <= lines@.len(),
            lv == lines@.map_values(|l2: Line| l2@),
            kv == kerns@.map_values(|k: Vec<i32>| k@),
            kerns@.len() == lines@.len(),
            forall|t: int|
                0 <= t < lines@.len() ==> (#[trigger] kerns@[t])@.len() == lines@[
                    t
                ].glyphs@.len(),
            forall|t: int|
                0 <= t < lines@.len() ==> sum_adv((#[trigger] lines@[t]).glyphs@) == lines@[
                    t
                ].chars_width as int,
            w == img_width as int,
            0 <= y <= (l as int) * 0x1_0000_0000,
            spec_compose(lv, kv, w) == cmds@ + spec_compose_from(lv, kv, w, l as int, y as int, color),
        decreases lines@.len() - l,
    {
        let line = &lines[l];
        let ghost col_in = color;
        let ghost y_in = y as int;
        y = y + line.height as i128;
        let justify = match line.text_align {
            TextAlign::Justify => true,
            _ => false,
        };
        let nsoft = count_soft_glyphs(&line.glyphs);
        let cw = line.chars_width;
        let (mag, neg) = if img_width >= cw {
            (img_width - cw, false)
        } else {
            (cw - img_width, true)
        };
        let start: i128 = match line.text_align {
            TextAlign::Left => 0,
            TextAlign::Justify => 0,
            TextAlign::Right => {
                if neg {
                    -((mag as i128))
                } else {
                    mag as i128
                }
            },
            TextAlign::Center => {
                let half = mag / 2;
                if neg {
                    -((half as i128))
                } else {
                    half as i128
                }
            },
        };
        let jinc: i128 = if justify && nsoft > 0 {
            let q = mag / (nsoft as u64);
            if neg {
                -((q as i128))
            } else {
                q as i128
            }
        } else {
            0
        };
        let kl = &kerns[l];
        let glen = line.glyphs.len();
        let ghost gl = line.glyphs@;
        proof {
            assert(lv[l as int] == lines@[l as int]@);
            assert(kv[l as int] == kerns@[l as int]@);
            assert(gl == lv[l as int].glyphs);
            assert(kv[l as int].len() == gl.len());
            assert(sum_adv(gl) == lines@[l as int].chars_width as int);
            assert(gl.len() == glen as int);
            assert(start as int == spec_start_x(lv[l as int].text_align, w, cw as int));
            if justify && nsoft > 0 {
                let q = mag as int / nsoft as int;
                vstd::arithmetic::div_mod::lemma_fundamental_div_mod(mag as int, nsoft as int);
                vstd::arithmetic::div_mod::lemma_mod_bound(mag as int, nsoft as int);
                assert(0 <= (nsoft as int) * q <= mag as int);
                assert((nsoft as int) * (-q) == -((nsoft as int) * q)) by (nonlinear_arith);
                assert(jinc as int == spec_line_justify(lv[l as int], w));
            } else {
                assert(jinc as int == spec_line_justify(lv[l as int], w));
            }
            assert(-0x1_0000_0000_0000_0000 <= count_soft(gl) * (jinc as int)
                <= 0x1_0000_0000_0000_0000);
        }
        let mut caret: i128 = start;
        let mut i: usize = 0;
        let ghost line_cmds = spec_line_cmds(gl, kv[l as int], start as int, jinc as int, justify, y as int, col_in);
        let ghost pre_cmds = cmds@;
        while i < line.glyphs.len()
            invariant
                i <= gl.len(),
                l < lines@.len(),
                line == &lines@[l as int],
                kl == &kerns@[l as int],
                gl == lv[l as int].glyphs,
                gl == line.glyphs@,
                kv[l as int] == kl@,
                kl@.len() == gl.len(),
                lv == lines@.map_values(|l2: Line| l2@),
                kv == kerns@.map_values(|k: Vec<i32>| k@),
                gl.len() <= 0x1_0000_0000_0000_0000,
                sum_adv(gl) <= 0xffff_ffff_ffff_ffff,
                -0x1_0000_0000_0000_0000 <= start as int <= 0x1_0000_0000_0000_0000,
                -0x1_0000_0000_0000_0000 <= count_soft(gl) * (jinc as int)
                    <= 0x1_0000_0000_0000_0000,
                -0x1_0000_0000_0000_0000 <= jinc as int <= 0x1_0000_0000_0000_0000,
                line_cmds == spec_line_cmds(gl, kv[l as int], start as int, jinc as int, justify, y as int, col_in),
                caret as int == spec_caret_after(gl, kv[l as int], start as int, jinc as int, justify, i as int),
                color == spec_sticky_color(gl.take(i as int), col_in),
                cmds@ == pre_cmds + line_cmds.take(i as int),
            decreases gl.len() - i,
        {
            let g = line.glyphs[i];
            proof {
                lemma_caret_bound(gl, kv[l as int], start as int, jinc as int, justify, i as int);
                lemma_caret_bound(
                    gl,
                    kv[l as int],
                    start as int,
                    jinc as int,
                    justify,
                    i as int + 1,
                );
            }
            let mut x = caret;
            if i > 0 {
                x = x + kl[i] as i128;
            }
            if justify && is_can_line_break(g.ch) {
                x = x + jinc;
            }
            if let Some(c) = g.color {
                color = c;
            }
            proof {
                assert(x as int == spec_draw_x(gl, kv[l as int], start as int, jinc as int, justify, i as int));
                assert(gl.take(i + 1).drop_last() =~= gl.take(i as int));
                assert(gl.take(i + 1).last() == gl[i as int]);
                assert(color == spec_sticky_color(gl.take(i as int + 1), col_in));
            }
            cmds.push(DrawCmd { chunk: g.chunk, ch: g.ch, glyph_id: g.glyph_id, x, y, color });
            proof {
                assert(cmds@.last() == line_cmds[i as int]);
                assert(line_cmds.take(i as int + 1) =~= line_cmds.take(i as int).push(
                    line_cmds[i as int],
                ));
                assert(cmds@ =~= pre_cmds + line_cmds.take(i as int + 1));
            }
            caret = x + g.advance as i128;
            i = i + 1;
        }
        proof {
            assert(gl.take(gl.len() as int) =~= gl);
            assert(line_cmds.take(line_cmds.len() as int) =~= line_cmds);
            assert(spec_compose_from(lv, kv, w, l as int, y_in, col_in) == line_cmds
                + spec_compose_from(lv, kv, w, l as int + 1, y as int, spec_sticky_color(gl, col_in)));
            assert(cmds@ + spec_compose_from(lv, kv, w, l as int + 1, y as int, color) =~= (pre_cmds
                + spec_compose_from(lv, kv, w, l as int, y_in, col_in)));
        }
        l = l + 1;
    }
    proof {
        assert(spec_compose_from(lv, kv, w, l as int, y as int, color) =~= Seq::<DrawCmd>::empty());
        assert(cmds@ + Seq::<DrawCmd>::empty() =~= cmds@);
    }
    cmds
}

} // verus!
