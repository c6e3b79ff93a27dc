//! The line builder: a character-level state machine that consumes measured
//! glyphs chunk by chunk and produces ordered lines.
//!
//! All horizontal measures are integers in the caller's advance unit. A
//! chunk's glyphs arrive already measured (character, advance, glyph
//! identifier); the machine decides where lines end, which is the part worth
//! proving. Its behaviour is pinned down by the spec-level reducer
//! [`spec_step`] and the whole pass by [`spec_layout`].

use vstd::prelude::*;

use crate::style::Rgba;
use crate::style::TextAlign;
use crate::style::spec_is_can_line_break;
use crate::style::spec_is_line_break;
use crate::style::is_can_line_break;
use crate::style::is_line_break;

verus! {

/// One glyph of a chunk, pre-measured by the caller's glyph service:
/// the source character, its horizontal advance, and an identifier the
/// caller can use for kerning lookups later.
#[derive(Clone, Copy, Debug)]
pub struct GlyphInfo {
    pub ch: char,
    pub advance: u32,
    pub glyph_id: u32,
}

/// Vertical measures a chunk contributes to each line it touches:
/// `span` is `(line gap + ascent)` scaled by the chunk's line-height
/// multiplier, `descent` the (non-positive) descent metric.
#[derive(Clone, Copy, Debug)]
pub struct LineMetrics {
    pub span: u32,
    pub descent: i32,
}

/// One styled run of measured text. `metrics` is present exactly when the
/// chunk sets both a font size and a line-height multiplier; `color` and
/// `text_align` are optional overrides that stick until overridden.
#[derive(Clone, Debug)]
pub struct MeasuredChunk {
    pub glyphs: Vec<GlyphInfo>,
    pub metrics: Option<LineMetrics>,
    pub color: Option<Rgba>,
    pub text_align: Option<TextAlign>,
}

/// A glyph as stored on a line: the measured glyph together with the index
/// of its originating chunk and that chunk's style overrides.
#[derive(Clone, Copy, Debug)]
pub struct PlacedChar {
    pub chunk: usize,
    pub ch: char,
    pub advance: u32,
    pub glyph_id: u32,
    pub color: Option<Rgba>,
    pub text_align: Option<TextAlign>,
}

/// A finished line: its glyphs in order, the sum of their advances after
/// trailing-whitespace trimming, the largest vertical span seen, the most
/// negative descent seen, and the alignment taken from its first glyph.
#[derive(Clone, Debug)]
pub struct Line {
    pub glyphs: Vec<PlacedChar>,
    pub chars_width: u64,
    pub height: u32,
    pub descent: i32,
    pub text_align: TextAlign,
}

/// Mathematical model of a finished [`Line`].
pub ghost struct LineV {
    pub glyphs: Seq<PlacedChar>,
    pub chars_width: int,
    pub height: int,
    pub descent: int,
    pub text_align: TextAlign,
}

impl View for Line {
    type V = LineV;

    open spec fn view(&self) -> LineV {
        LineV {
            glyphs: self.glyphs@,
            chars_width: self.chars_width as int,
            height: self.height as int,
            descent: self.descent as int,
            text_align: self.text_align,
        }
    }
}

/// Mathematical model of the builder's running state: finished lines, the
/// open line, the pending word (word mode only) and the running vertical
/// measures of the open line.
pub ghost struct StateV {
    pub lines: Seq<LineV>,
    pub cur: Seq<PlacedChar>,
    pub word: Seq<PlacedChar>,
    pub line_height: int,
    pub descent: int,
}

/// Sum of the advances of a glyph sequence.
pub open spec fn sum_adv(s: Seq<PlacedChar>) -> int
    decreases s.len(),
{
    if s.len() == 0 {
        0
    } else {
        sum_adv(s.drop_last()) + s.last().advance
    }
}

pub proof fn lemma_sum_adv_nonneg(s: Seq<PlacedChar>)
    ensures
        sum_adv(s) >= 0,
    decreases s.len(),
{
    if s.len() > 0 {
        lemma_sum_adv_nonneg(s.drop_last());
    }
}

pub proof fn lemma_sum_adv_push(s: Seq<PlacedChar>, g: PlacedChar)
    ensures
        sum_adv(s.push(g)) == sum_adv(s) + g.advance,
{
    assert(s.push(g).drop_last() =~= s);
}

pub proof fn lemma_sum_adv_concat(a: Seq<PlacedChar>, b: Seq<PlacedChar>)
    ensures
        sum_adv(a + b) == sum_adv(a) + sum_adv(b),
    decreases b.len(),
{
    if b.len() == 0 {
        assert(a + b =~= a);
    } else {
        lemma_sum_adv_concat(a, b.drop_last());
        assert((a + b).drop_last() =~= a + b.drop_last());
        assert((a + b).last() == b.last());
    }
}

/// The alignment a line gets when it is flushed: that of its first glyph's
/// chunk, or left when the line is empty or the chunk says nothing.
pub open spec fn spec_line_align(cur: Seq<PlacedChar>) -> TextAlign {
    if cur.len() == 0 {
        TextAlign::Left
    } else {
        match cur[0].text_align {
            Some(a) => a,
            None => TextAlign::Left,
        }
    }
}

/// Trailing-whitespace trimming: exactly one trailing soft-break glyph is
/// dropped when present, never a run.
pub open spec fn spec_trimmed(cur: Seq<PlacedChar>) -> Seq<PlacedChar> {
    if cur.len() > 0 && spec_is_can_line_break(cur.last().ch) {
        cur.drop_last()
    } else {
        cur
    }
}

/// Closing the open line: trim it, record its width as the advance sum of
/// the kept glyphs, push it, and reset the open line and its vertical
/// measures. The pending word survives a flush untouched.
pub open spec fn spec_flush(st: StateV) -> StateV {
    let glyphs = spec_trimmed(st.cur);
    StateV {
        lines: st.lines.push(
            LineV {
                glyphs,
                chars_width: sum_adv(glyphs),
                height: st.line_height,
                descent: st.descent,
                text_align: spec_line_align(st.cur),
            },
        ),
        cur: Seq::empty(),
        word: st.word,
        line_height: 0,
        descent: 0,
    }
}

/// A chunk's vertical measures raise the open line's height and deepen its
/// descent; a chunk without measures leaves them alone.
pub open spec fn spec_apply_metrics(st: StateV, m: Option<LineMetrics>) -> StateV {
    match m {
        None => st,
        Some(lm) => StateV {
            line_height: vstd::math::max(st.line_height, lm.span as int),
            descent: vstd::math::min(st.descent, lm.descent as int),
            ..st
        },
    }
}

/// One step of the line-breaking state machine on one glyph.
///
/// The vertical measures are applied first, then exactly one branch fires:
/// a hard break always closes the line; with a non-zero target width an
/// overflowing soft break closes the line and is itself dropped, an
/// overflowing ordinary glyph closes the line before itself (in word mode
/// the whole pending word moves onto the new line with it); otherwise the
/// glyph joins the line (character mode), or the pending word or line
/// (word mode). A target width of zero disables width-triggered wraps.
pub open spec fn spec_step(
    st0: StateV,
    g: PlacedChar,
    m: Option<LineMetrics>,
    width: int,
    break_word: bool,
) -> StateV {
    let st = spec_apply_metrics(st0, m);
    let lw = sum_adv(st.cur) + sum_adv(st.word) + g.advance;
    if width != 0 {
        if break_word {
            if spec_is_line_break(g.ch) {
                spec_flush(StateV { cur: st.cur + st.word, word: Seq::empty(), ..st })
            } else if lw > width {
                if spec_is_can_line_break(g.ch) {
                    spec_flush(StateV { cur: st.cur + st.word, word: Seq::empty(), ..st })
                } else {
                    let f = spec_flush(StateV { word: Seq::empty(), ..st });
                    StateV { cur: st.word.push(g), ..f }
                }
            } else {
                if spec_is_can_line_break(g.ch) {
                    StateV { cur: (st.cur + st.word).push(g), word: Seq::empty(), ..st }
                } else {
                    StateV { word: st.word.push(g), ..st }
                }
            }
        } else {
            if spec_is_line_break(g.ch) {
                spec_flush(st)
            } else if lw > width {
                let f = spec_flush(st);
                if spec_is_can_line_break(g.ch) {
                    f
                } else {
                    StateV { cur: seq![g], ..f }
                }
            } else {
                StateV { cur: st.cur.push(g), ..st }
            }
        }
    } else {
        if spec_is_line_break(g.ch) {
            spec_flush(st)
        } else {
            StateV { cur: st.cur.push(g), ..st }
        }
    }
}

/// The state after feeding a sequence of (glyph, chunk measures) events.
pub open spec fn spec_run(
    st: StateV,
    evs: Seq<(PlacedChar, Option<LineMetrics>)>,
    width: int,
    break_word: bool,
) -> StateV
    decreases evs.len(),
{
    if evs.len() == 0 {
        st
    } else {
        spec_step(
            spec_run(st, evs.drop_last(), width, break_word),
            evs.last().0,
            evs.last().1,
            width,
            break_word,
        )
    }
}

/// A measured glyph of chunk `k`, tagged with that chunk's overrides.
pub open spec fn spec_place(c: MeasuredChunk, k: int, g: GlyphInfo) -> PlacedChar {
    PlacedChar {
        chunk: k as usize,
        ch: g.ch,
        advance: g.advance,
        glyph_id: g.glyph_id,
        color: c.color,
        text_align: c.text_align,
    }
}

/// The event sequence one chunk contributes.
pub open spec fn spec_chunk_events(c: MeasuredChunk, k: int) -> Seq<(PlacedChar, Option<
    LineMetrics,
>)> {
    Seq::new(c.glyphs@.len(), |i: int| (spec_place(c, k, c.glyphs@[i]), c.metrics))
}

/// The event sequence of a whole document, chunks in order.
pub open spec fn spec_doc_events(doc: Seq<MeasuredChunk>) -> Seq<(PlacedChar, Option<
    LineMetrics,
>)>
    decreases doc.len(),
{
    if doc.len() == 0 {
        Seq::empty()
    } else {
        spec_doc_events(doc.drop_last()) + spec_chunk_events(doc.last(), doc.len() - 1)
    }
}

/// The builder's starting state.
pub open spec fn spec_init() -> StateV {
    StateV {
        lines: Seq::empty(),
        cur: Seq::empty(),
        word: Seq::empty(),
        line_height: 0,
        descent: 0,
    }
}

/// The lines a whole pass produces: every event in order, then one final
/// flush, so even an empty document of chunks yields at least one line.
/// A word still pending at the end is not carried onto the final line.
pub open spec fn spec_layout(doc: Seq<MeasuredChunk>, width: int, break_word: bool) -> Seq<
    LineV,
> {
    spec_flush(spec_run(spec_init(), spec_doc_events(doc), width, break_word)).lines
}

/// Chunk measures are well formed when the recorded descent is, as the
/// glyph service reports it, negative or zero.
pub open spec fn spec_wf_metrics(m: Option<LineMetrics>) -> bool {
    match m {
        None => true,
        Some(lm) => lm.descent <= 0,
    }
}

/// Total advance of every glyph of the document; line-width accumulators
/// never exceed it.
pub open spec fn spec_total_advance(doc: Seq<MeasuredChunk>) -> int {
    sum_adv(spec_doc_events(doc).map_values(|ev: (PlacedChar, Option<LineMetrics>)| ev.0))
}

/// The line-breaking state machine, fed one measured glyph at a time.
///
/// The target width (zero meaning "auto", no width-triggered wraps) and the
/// wrapping mode are fixed when the builder is made; the state evolves
/// exactly as [`spec_step`] says.
pub struct LineBuilder {
    target_width: u32,
    break_word: bool,
    lines: Vec<Line>,
    cur: Vec<PlacedChar>,
    word: Vec<PlacedChar>,
    line_width: u64,
    word_width: u64,
    line_height: u32,
    descent: i32,
}

impl LineBuilder {
    /// The abstract state of the machine.
    pub closed spec fn st(&self) -> StateV {
        StateV {
            lines: self.lines@.map_values(|l: Line| l@),
            cur: self.cur@,
            word: self.word@,
            line_height: self.line_height as int,
            descent: self.descent as int,
        }
    }

    /// The configured target width.
    pub closed spec fn cfg_width(&self) -> int {
        self.target_width as int
    }

    /// Whether word-atomic wrapping is configured.
    pub closed spec fn cfg_break_word(&self) -> bool {
        self.break_word
    }

    /// The cached width accumulators agree with the glyphs they tally and
    /// the running descent is non-positive.
    pub closed spec fn wf(&self) -> bool {
        &&& self.line_width as int == sum_adv(self.cur@) + sum_adv(self.word@)
        &&& self.word_width as int == sum_adv(self.word@)
        &&& self.descent <= 0
    }

    /// A fresh builder with no glyphs seen and no line finished.
    pub fn new(target_width: u32, break_word: bool) -> (b: LineBuilder)
        ensures
            b.wf(),
            b.st() == spec_init(),
            b.cfg_width() == target_width,
            b.cfg_break_word() == break_word,
    {
        let b = LineBuilder {
            target_width,
            break_word,
            lines: Vec::new(),
            cur: Vec::new(),
            word: Vec::new(),
            line_width: 0,
            word_width: 0,
            line_height: 0,
            descent: 0,
        };
        proof {
            assert(b.st().lines =~= spec_init().lines);
        }
        b
    }

    /// Closes the open line: trims one trailing soft-break glyph if present,
    /// records the line and resets the open line's measures. The pending
    /// word survives.
    pub fn flush_line(&mut self)
        requires
            old(self).wf(),
        ensures
            final(self).wf(),
            final(self).cfg_width() == old(self).cfg_width(),
            final(self).cfg_break_word() == old(self).cfg_break_word(),
            final(self).st() == spec_flush(old(self).st()),
    {
        proof {
            lemma_sum_adv_nonneg(self.cur@);
            lemma_sum_adv_nonneg(self.word@);
        }
        let text_align: TextAlign = if self.cur.len() == 0 {
            TextAlign::Left
        } else {
            match self.cur[0].text_align {
                Some(a) => a,
                None => TextAlign::Left,
            }
        };
        let mut w: u64 = self.line_width - self.word_width;
        if self.cur.len() > 0 {
            let last = self.cur[self.cur.len() - 1];
            if is_can_line_break(last.ch) {
                proof {
                    lemma_sum_adv_nonneg(self.cur@.drop_last());
                }
                self.cur.pop();
                w = w - last.advance as u64;
                proof {
                    assert(self.cur@ =~= spec_trimmed(old(self).st().cur));
                }
            }
        }
        let mut glyphs: Vec<PlacedChar> = Vec::new();
        core::mem::swap(&mut glyphs, &mut self.cur);
        let line = Line {
            glyphs,
            chars_width: w,
            height: self.line_height,
            descent: self.descent,
            text_align,
        };
        self.lines.push(line);
        self.line_width = self.word_width;
        self.line_height = 0;
        self.descent = 0;
        proof {
            assert(self.st().lines =~= spec_flush(old(self).st()).lines);
            assert(self.st() == spec_flush(old(self).st()));
        }
    }

    /// Feeds one glyph with its chunk's vertical measures to the machine.
    ///
    /// The width bound is a machine limit: the running line width plus this
    /// advance must still fit the accumulator.
    pub fn process_char(&mut self, g: PlacedChar, metrics: Option<LineMetrics>)
        requires
            old(self).wf(),
            spec_wf_metrics(metrics),
            sum_adv(old(self).st().cur) + sum_adv(old(self).st().word) + g.advance <= u64::MAX,
        ensures
            final(self).wf(),
            final(self).cfg_width() == old(self).cfg_width(),
            final(self).cfg_break_word() == old(self).cfg_break_word(),
            final(self).st() == spec_step(
                old(self).st(),
                g,
                metrics,
                old(self).cfg_width(),
                old(self).cfg_break_word(),
            ),
    {
        proof {
            lemma_sum_adv_nonneg(self.cur@);
            lemma_sum_adv_nonneg(self.word@);
        }
        if let Some(m) = metrics {
            if self.line_height < m.span {
                self.line_height = m.span;
            }
            if m.descent < self.descent {
                self.descent = m.descent;
            }
        }
        let ghost stm = spec_apply_metrics(old(self).st(), metrics);
        proof {
            assert(self.st() == stm);
        }
        let lw: u64 = self.line_width + g.advance as u64;
        let is_hard = is_line_break(g.ch);
        if self.target_width != 0 {
            if self.break_word {
                if is_hard {
                    self.cur.append(&mut self.word);
                    self.word_width = 0;
                    proof {
                        lemma_sum_adv_concat(stm.cur, stm.word);
                    }
                    self.flush_line();
                } else if lw > self.target_width as u64 {
                    if is_can_line_break(g.ch) {
                        self.cur.append(&mut self.word);
                        self.word_width = 0;
                        proof {
                            lemma_sum_adv_concat(stm.cur, stm.word);
                        }
                        self.flush_line();
                    } else {
                        self.word.push(g);
                        self.word_width = self.word_width + g.advance as u64;
                        self.line_width = lw;
                        proof {
                            lemma_sum_adv_push(stm.word, g);
                        }
                        self.flush_line();
                        self.cur.append(&mut self.word);
                        self.word_width = 0;
                        proof {
                            lemma_sum_adv_push(stm.word, g);
                            assert(self.cur@ =~= Seq::<PlacedChar>::empty() + stm.word.push(g));
                            assert(self.cur@ =~= stm.word.push(g));
                        }
                    }
                } else {
                    if is_can_line_break(g.ch) {
                        self.cur.append(&mut self.word);
                        self.cur.push(g);
                        self.word_width = 0;
                        self.line_width = lw;
                        proof {
                            lemma_sum_adv_concat(stm.cur, stm.word);
                            lemma_sum_adv_push(stm.cur + stm.word, g);
                        }
                    } else {
                        self.word.push(g);
                        self.word_width = self.word_width + g.advance as u64;
                        self.line_width = lw;
                        proof {
                            lemma_sum_adv_push(stm.word, g);
                        }
                    }
                }
            } else {
                if is_hard {
                    self.flush_line();
                } else if lw > self.target_width as u64 {
                    self.flush_line();
                    if !is_can_line_break(g.ch) {
                        proof {
                            lemma_sum_adv_nonneg(self.word@);
                        }
                        self.cur.push(g);
                        self.line_width = self.line_width + g.advance as u64;
                        proof {
                            lemma_sum_adv_push(Seq::<PlacedChar>::empty(), g);
                            assert(self.cur@ =~= seq![g]);
                        }
                    }
                } else {
                    self.cur.push(g);
                    self.line_width = lw;
                    proof {
                        lemma_sum_adv_push(stm.cur, g);
                    }
                }
            }
        } else {
            if is_hard {
                self.flush_line();
            } else {
                self.cur.push(g);
                self.line_width = lw;
                proof {
                    lemma_sum_adv_push(stm.cur, g);
                }
            }
        }
    }

    /// Hands the finished lines out, consuming the builder. The open line
    /// must have been flushed first.
    pub fn take_lines(self) -> (lines: Vec<Line>)
        ensures
            lines@.map_values(|l: Line| l@) == self.st().lines,
    {
        self.lines
    }
}

/// Every chunk's vertical measures are well formed.
pub open spec fn spec_wf_doc(doc: Seq<MeasuredChunk>) -> bool {
    forall|k: int| 0 <= k < doc.len() ==> spec_wf_metrics(#[trigger] doc[k].metrics)
}

/// Total advance of an event sequence.
pub open spec fn evs_adv(evs: Seq<(PlacedChar, Option<LineMetrics>)>) -> int {
    sum_adv(evs.map_values(|ev: (PlacedChar, Option<LineMetrics>)| ev.0))
}

pub proof fn lemma_evs_adv_push(evs: Seq<(PlacedChar, Option<LineMetrics>)>, e: (PlacedChar, Option<LineMetrics>))
    ensures
        evs_adv(evs.push(e)) == evs_adv(evs) + e.0.advance,
{
    let f = |ev: (PlacedChar, Option<LineMetrics>)| ev.0;
    assert(evs.push(e).map_values(f) =~= evs.map_values(f).push(e.0));
    lemma_sum_adv_push(evs.map_values(f), e.0);
}

pub proof fn lemma_evs_adv_concat(
    a: Seq<(PlacedChar, Option<LineMetrics>)>,
    b: Seq<(PlacedChar, Option<LineMetrics>)>,
)
    ensures
        evs_adv(a + b) == evs_adv(a) + evs_adv(b),
{
    let f = |ev: (PlacedChar, Option<LineMetrics>)| ev.0;
    assert((a + b).map_values(f) =~= a.map_values(f) + b.map_values(f));
    lemma_sum_adv_concat(a.map_values(f), b.map_values(f));
}

/// One step grows the open line and pending word by at most the glyph's
/// advance.
pub proof fn lemma_step_width_bound(
    st: StateV,
    g: PlacedChar,
    m: Option<LineMetrics>,
    width: int,
    break_word: bool,
)
    ensures
        ({
            let st1 = spec_step(st, g, m, width, break_word);
            sum_adv(st1.cur) + sum_adv(st1.word) <= sum_adv(st.cur) + sum_adv(st.word)
                + g.advance
        }),
{
    let stm = spec_apply_metrics(st, m);
    lemma_sum_adv_nonneg(st.cur);
    lemma_sum_adv_nonneg(st.word);
    lemma_sum_adv_concat(st.cur, st.word);
    lemma_sum_adv_push(st.word, g);
    lemma_sum_adv_push(st.cur, g);
    lemma_sum_adv_push(st.cur + st.word, g);
    lemma_sum_adv_push(Seq::<PlacedChar>::empty(), g);
    assert(sum_adv(Seq::<PlacedChar>::empty()) == 0);
}

/// After any number of steps from the start state, the open line and the
/// pending word together weigh no more than everything fed in.
pub proof fn lemma_run_width_bound(
    evs: Seq<(PlacedChar, Option<LineMetrics>)>,
    width: int,
    break_word: bool,
)
    ensures
        ({
            let st = spec_run(spec_init(), evs, width, break_word);
            sum_adv(st.cur) + sum_adv(st.word) <= evs_adv(evs)
        }),
    decreases evs.len(),
{
    if evs.len() == 0 {
    } else {
        let pre = evs.drop_last();
        let e = evs.last();
        lemma_run_width_bound(pre, width, break_word);
        lemma_step_width_bound(spec_run(spec_init(), pre, width, break_word), e.0, e.1, width, break_word);
        assert(pre.push(e) =~= evs);
        lemma_evs_adv_push(pre, e);
    }
}

pub proof fn lemma_run_snoc(
    st: StateV,
    evs: Seq<(PlacedChar, Option<LineMetrics>)>,
    e: (PlacedChar, Option<LineMetrics>),
    width: int,
    break_word: bool,
)
    ensures
        spec_run(st, evs.push(e), width, break_word) == spec_step(
            spec_run(st, evs, width, break_word),
            e.0,
            e.1,
            width,
            break_word,
        ),
{
    assert(evs.push(e).drop_last() =~= evs);
    assert(evs.push(e).last() == e);
}

pub proof fn lemma_doc_events_take(doc: Seq<MeasuredChunk>, k: int)
    requires
        0 <= k < doc.len(),
    ensures
        spec_doc_events(doc.take(k + 1)) == spec_doc_events(doc.take(k)) + spec_chunk_events(
            doc[k],
            k,
        ),
{
    let d1 = doc.take(k + 1);
    assert(d1.drop_last() =~= doc.take(k));
    assert(d1.last() == doc[k]);
}

pub proof fn lemma_chunk_events_take(c: MeasuredChunk, k: int, i: int)
    requires
        0 <= i < c.glyphs@.len(),
    ensures
        spec_chunk_events(c, k).take(i + 1) == spec_chunk_events(c, k).take(i).push(
            (spec_place(c, k, c.glyphs@[i]), c.metrics),
        ),
{
    assert(spec_chunk_events(c, k).take(i + 1) =~= spec_chunk_events(c, k).take(i).push(
        (spec_place(c, k, c.glyphs@[i]), c.metrics),
    ));
}

/// Lays a whole measured document out: every glyph of every chunk in order,
/// then one final flush, exactly as [`spec_layout`] says. The advance bound
/// is a machine limit on the width accumulator.
pub fn layout(doc: &Vec<MeasuredChunk>, target_width: u32, break_word: bool) -> (lines: Vec<
    Line,
>)
    requires
        spec_wf_doc(doc@),
        spec_total_advance(doc@) <= u64::MAX,
    ensures
        lines@.map_values(|l: Line| l@) == spec_layout(doc@, target_width as int, break_word),
        lines@.len() >= 1,
{
    let ghost w = target_width as int;
    let mut b = LineBuilder::new(target_width, break_word);
    let mut k: usize = 0;
    while k < doc.len()
        invariant
            k <= doc.len(),
            b.wf(),
            b.cfg_width() == w,
            b.cfg_break_word() == break_word,
            b.st() == spec_run(spec_init(), spec_doc_events(doc@.take(k as int)), w, break_word),
            spec_wf_doc(doc@),
            spec_total_advance(doc@) <= u64::MAX,
        decreases doc.len() - k,
    {
        let chunk = &doc[k];
        let ghost evs_pre = spec_doc_events(doc@.take(k as int));
        let mut i: usize = 0;
        while i < chunk.glyphs.len()
            invariant
                i <= chunk.glyphs.len(),
                k < doc.len(),
                chunk == &doc@[k as int],
                b.wf(),
                b.cfg_width() == w,
                b.cfg_break_word() == break_word,
                evs_pre == spec_doc_events(doc@.take(k as int)),
                b.st() == spec_run(
                    spec_init(),
                    evs_pre + spec_chunk_events(doc@[k as int], k as int).take(i as int),
                    w,
                    break_word,
                ),
                spec_wf_doc(doc@),
                spec_total_advance(doc@) <= u64::MAX,
            decreases chunk.glyphs.len() - i,
        {
            let gi = chunk.glyphs[i];
            let g = PlacedChar {
                chunk: k,
                ch: gi.ch,
                advance: gi.advance,
                glyph_id: gi.glyph_id,
                color: chunk.color,
                text_align: chunk.text_align,
            };
            let ghost evs_in = evs_pre + spec_chunk_events(doc@[k as int], k as int).take(i as int);
            proof {
                assert(g == spec_place(doc@[k as int], k as int, doc@[k as int].glyphs@[i as int]));
                // the machine limit: what is pending plus this advance fits u64
                lemma_run_width_bound(evs_in, w, break_word);
                lemma_events_prefix_bound(doc@, k as int, i as int);
            }
            b.process_char(g, chunk.metrics);
            proof {
                lemma_chunk_events_take(doc@[k as int], k as int, i as int);
                lemma_run_snoc(spec_init(), evs_in, (g, doc@[k as int].metrics), w, break_word);
                assert(evs_in.push((g, doc@[k as int].metrics)) =~= evs_pre + spec_chunk_events(
                    doc@[k as int],
                    k as int,
                ).take(i as int + 1));
            }
            i = i + 1;
        }
        proof {
            assert(spec_chunk_events(doc@[k as int], k as int).take(i as int)
                =~= spec_chunk_events(doc@[k as int], k as int));
            lemma_doc_events_take(doc@, k as int);
        }
        k = k + 1;
    }
    proof {
        assert(doc@.take(doc@.len() as int) =~= doc@);
    }
    b.flush_line();
    b.take_lines()
}

/// The advance of the events already fed, plus the next glyph's advance,
/// never exceeds the document's total advance.
pub proof fn lemma_events_prefix_bound(doc: Seq<MeasuredChunk>, k: int, i: int)
    requires
        0 <= k < doc.len(),
        0 <= i < doc[k].glyphs@.len(),
    ensures
        ({
            let evs_in = spec_doc_events(doc.take(k)) + spec_chunk_events(doc[k], k).take(i);
            evs_adv(evs_in) + doc[k].glyphs@[i].advance <= spec_total_advance(doc)
        }),
{
    let ce = spec_chunk_events(doc[k], k);
    let evs_in = spec_doc_events(doc.take(k)) + ce.take(i);
    lemma_doc_events_take(doc, k);
    // doc events of take(k + 1) are a prefix of the full event sequence
    lemma_doc_events_prefix(doc, k + 1);
    let rest = spec_doc_events(doc).subrange(
        spec_doc_events(doc.take(k + 1)).len() as int,
        spec_doc_events(doc).len() as int,
    );
    assert(spec_doc_events(doc) =~= spec_doc_events(doc.take(k + 1)) + rest);
    lemma_evs_adv_concat(spec_doc_events(doc.take(k + 1)), rest);
    lemma_evs_adv_concat(spec_doc_events(doc.take(k)), ce);
    // within the chunk: the events split as take(i) + [event i] + tail
    let tail = ce.subrange(i + 1, ce.len() as int);
    assert(ce =~= ce.take(i).push((spec_place(doc[k], k, doc[k].glyphs@[i]), doc[k].metrics))
        + tail);
    lemma_evs_adv_concat(
        ce.take(i).push((spec_place(doc[k], k, doc[k].glyphs@[i]), doc[k].metrics)),
        tail,
    );
    lemma_evs_adv_push(ce.take(i), (spec_place(doc[k], k, doc[k].glyphs@[i]), doc[k].metrics));
    lemma_evs_adv_concat(spec_doc_events(doc.take(k)), ce.take(i));
    lemma_evs_adv_nonneg(tail);
    lemma_evs_adv_nonneg(rest);
}

pub proof fn lemma_evs_adv_nonneg(evs: Seq<(PlacedChar, Option<LineMetrics>)>)
    ensures
        evs_adv(evs) >= 0,
{
    lemma_sum_adv_nonneg(evs.map_values(|ev: (PlacedChar, Option<LineMetrics>)| ev.0));
}

/// Every line of a pass is internally consistent: its recorded width is
/// the advance sum of its stored glyphs, and — when the document's
/// measures are well formed — its descent is non-positive.
pub open spec fn spec_lines_wf(lines: Seq<LineV>, descents: bool) -> bool {
    forall|l: int|
        0 <= l < lines.len() ==> ((#[trigger] lines[l]).chars_width == sum_adv(lines[l].glyphs)
            && (descents ==> lines[l].descent <= 0))
}

proof fn lemma_step_lines_wf(
    st: StateV,
    g: PlacedChar,
    m: Option<LineMetrics>,
    width: int,
    break_word: bool,
)
    requires
        spec_lines_wf(st.lines, true),
        st.descent <= 0,
        spec_wf_metrics(m),
    ensures
        spec_lines_wf(spec_step(st, g, m, width, break_word).lines, true),
        spec_step(st, g, m, width, break_word).descent <= 0,
{
}

proof fn lemma_run_lines_wf(
    doc: Seq<MeasuredChunk>,
    evs: Seq<(PlacedChar, Option<LineMetrics>)>,
    width: int,
    break_word: bool,
)
    requires
        forall|i: int| 0 <= i < evs.len() ==> spec_wf_metrics((#[trigger] evs[i]).1),
    ensures
        spec_lines_wf(spec_run(spec_init(), evs, width, break_word).lines, true),
        spec_run(spec_init(), evs, width, break_word).descent <= 0,
    decreases evs.len(),
{
    if evs.len() > 0 {
        let pre = evs.drop_last();
        lemma_run_lines_wf(doc, pre, width, break_word);
        lemma_step_lines_wf(
            spec_run(spec_init(), pre, width, break_word),
            evs.last().0,
            evs.last().1,
            width,
            break_word,
        );
    }
}

proof fn lemma_doc_events_wf_metrics(doc: Seq<MeasuredChunk>)
    requires
        spec_wf_doc(doc),
    ensures
        forall|i: int|
            0 <= i < spec_doc_events(doc).len() ==> spec_wf_metrics(
                (#[trigger] spec_doc_events(doc)[i]).1,
            ),
    decreases doc.len(),
{
    if doc.len() > 0 {
        let pre = doc.drop_last();
        assert(spec_wf_doc(pre));
        lemma_doc_events_wf_metrics(pre);
        let a = spec_doc_events(pre);
        let b = spec_chunk_events(doc.last(), doc.len() - 1);
        assert forall|i: int|
            0 <= i < spec_doc_events(doc).len() implies spec_wf_metrics(
            (#[trigger] spec_doc_events(doc)[i]).1,
        ) by {
            if i < a.len() {
                assert(spec_doc_events(doc)[i] == a[i]);
            } else {
                assert(spec_doc_events(doc)[i] == b[i - a.len()]);
                assert(b[i - a.len()].1 == doc.last().metrics);
            }
        }
    }
}

/// What a pass promises of every line it produces: the recorded width
/// tallies with the stored glyphs — which is what the compositor's
/// contracts ask of their input — and, for a document with well-formed
/// measures, the descent is non-positive, as the sizing pass asks of the
/// last line.
pub proof fn lemma_layout_lines_wf(doc: Seq<MeasuredChunk>, width: int, break_word: bool)
    requires
        spec_wf_doc(doc),
    ensures
        spec_lines_wf(spec_layout(doc, width, break_word), true),
        spec_layout(doc, width, break_word).len() >= 1,
{
    lemma_doc_events_wf_metrics(doc);
    lemma_run_lines_wf(doc, spec_doc_events(doc), width, break_word);
}

/// Whether every chunk's measures are well formed (a non-positive
/// descent), which is what [`layout`] requires of the document.
pub fn doc_metrics_wf(doc: &Vec<MeasuredChunk>) -> (b: bool)
    ensures
        b == spec_wf_doc(doc@),
{
    let mut k: usize = 0;
    while k < doc.len()
        invariant
            k <= doc.len(),
            forall|t: int| 0 <= t < k ==> spec_wf_metrics(#[trigger] doc@[t].metrics),
        decreases doc.len() - k,
    {
        match &doc[k].metrics {
            Some(m) => {
                if m.descent > 0 {
                    return false;
                }
            },
            None => {},
        }
        k = k + 1;
    }
    true
}

/// Whether the document's total advance fits the width accumulator, which
/// is what [`layout`] requires. A verified caller tests this first and
/// hands the document on only when it holds.
pub fn advance_total_fits(doc: &Vec<MeasuredChunk>) -> (b: bool)
    ensures
        b == (spec_total_advance(doc@) <= u64::MAX),
{
    let mut sum: u128 = 0;
    let mut k: usize = 0;
    while k < doc.len()
        invariant
            k <= doc.len(),
            sum <= u64::MAX,
            sum as int == evs_adv(spec_doc_events(doc@.take(k as int))),
        decreases doc.len() - k,
    {
        let chunk = &doc[k];
        let ghost evs_pre = spec_doc_events(doc@.take(k as int));
        let mut i: usize = 0;
        while i < chunk.glyphs.len()
            invariant
                i <= chunk.glyphs.len(),
                k < doc.len(),
                chunk == &doc@[k as int],
                sum <= u64::MAX,
                evs_pre == spec_doc_events(doc@.take(k as int)),
                sum as int == evs_adv(
                    evs_pre + spec_chunk_events(doc@[k as int], k as int).take(i as int),
                ),
            decreases chunk.glyphs.len() - i,
        {
            let adv = chunk.glyphs[i].advance;
            let ghost evs_in = evs_pre + spec_chunk_events(doc@[k as int], k as int).take(i as int);
            proof {
                lemma_chunk_events_take(doc@[k as int], k as int, i as int);
                lemma_evs_adv_push(
                    spec_chunk_events(doc@[k as int], k as int).take(i as int),
                    (spec_place(doc@[k as int], k as int, doc@[k as int].glyphs@[i as int]), doc@[k as int].metrics),
                );
                lemma_evs_adv_concat(
                    evs_pre,
                    spec_chunk_events(doc@[k as int], k as int).take(i as int),
                );
                lemma_evs_adv_concat(
                    evs_pre,
                    spec_chunk_events(doc@[k as int], k as int).take(i as int + 1),
                );
            }
            sum = sum + adv as u128;
            if sum > u64::MAX as u128 {
                proof {
                    lemma_events_prefix_bound(doc@, k as int, i as int);
                    lemma_evs_adv_concat(
                        evs_pre,
                        spec_chunk_events(doc@[k as int], k as int).take(i as int),
                    );
                }
                return false;
            }
            i = i + 1;
        }
        proof {
            assert(spec_chunk_events(doc@[k as int], k as int).take(i as int)
                =~= spec_chunk_events(doc@[k as int], k as int));
            lemma_doc_events_take(doc@, k as int);
            lemma_evs_adv_concat(
                spec_doc_events(doc@.take(k as int)),
                spec_chunk_events(doc@[k as int], k as int),
            );
        }
        k = k + 1;
    }
    proof {
        assert(doc@.take(doc@.len() as int) =~= doc@);
    }
    true
}

/// Each prefix of the chunks contributes a prefix of the whole document's
/// events.
pub proof fn lemma_doc_events_prefix(doc: Seq<MeasuredChunk>, k: int)
    requires
        0 <= k <= doc.len(),
    ensures
        spec_doc_events(doc.take(k)) == spec_doc_events(doc).take(
            spec_doc_events(doc.take(k)).len() as int,
        ),
        spec_doc_events(doc.take(k)).len() <= spec_doc_events(doc).len(),
    decreases doc.len() - k,
{
    if k == doc.len() {
        assert(doc.take(k) =~= doc);
        assert(spec_doc_events(doc).take(spec_doc_events(doc).len() as int) =~= spec_doc_events(
            doc,
        ));
    } else {
        lemma_doc_events_take(doc, k);
        lemma_doc_events_prefix(doc, k + 1);
        let a = spec_doc_events(doc.take(k));
        let b = spec_chunk_events(doc[k], k);
        let whole = spec_doc_events(doc);
        assert(a + b == whole.take((a + b).len() as int));
        assert(a =~= (a + b).take(a.len() as int));
        assert(a =~= whole.take(a.len() as int));
    }
}

} // verus!
