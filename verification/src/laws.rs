//! Laws of the layout and composition passes, each proved against the spec
//! model that the executable functions are verified to follow.

use vstd::prelude::*;

use crate::compose::count_soft;
use crate::compose::lemma_caret_decomposed;
use crate::compose::spec_caret_after;
use crate::compose::spec_justify_inc;
use crate::compose::spec_kern_sum;
use crate::layout::LineMetrics;
use crate::layout::MeasuredChunk;
use crate::layout::PlacedChar;
use crate::layout::StateV;
use crate::layout::evs_adv;
use crate::layout::lemma_evs_adv_push;
use crate::layout::lemma_sum_adv_nonneg;
use crate::layout::spec_doc_events;
use crate::layout::spec_flush;
use crate::layout::spec_init;
use crate::layout::spec_layout;
use crate::layout::spec_run;
use crate::layout::spec_step;
use crate::layout::spec_trimmed;
use crate::layout::sum_adv;
use crate::style::spec_is_can_line_break;
use crate::style::spec_is_line_break;

verus! {

/// Number of hard-break characters in an event sequence.
pub open spec fn count_hard(evs: Seq<(PlacedChar, Option<LineMetrics>)>) -> int
    decreases evs.len(),
{
    if evs.len() == 0 {
        0
    } else {
        count_hard(evs.drop_last()) + if spec_is_line_break(evs.last().0.ch) {
            1int
        } else {
            0int
        }
    }
}

proof fn lemma_run_line_count_auto(
    evs: Seq<(PlacedChar, Option<LineMetrics>)>,
    break_word: bool,
)
    ensures
        spec_run(spec_init(), evs, 0, break_word).lines.len() == count_hard(evs),
    decreases evs.len(),
{
    if evs.len() > 0 {
        lemma_run_line_count_auto(evs.drop_last(), break_word);
    }
}

/// With target width zero (auto), no width-triggered wrap ever fires: the
/// pass yields exactly one line per hard-break character, plus the final
/// flushed line.
pub proof fn lemma_auto_width_line_count(doc: Seq<MeasuredChunk>, break_word: bool)
    ensures
        spec_layout(doc, 0, break_word).len() == count_hard(spec_doc_events(doc)) + 1,
{
    lemma_run_line_count_auto(spec_doc_events(doc), break_word);
}

/// A hard-break character always closes the current line, whatever the
/// target width (zero included) and whatever the wrap mode, and the next
/// line starts empty.
pub proof fn lemma_hard_break_always_breaks(
    st: StateV,
    g: PlacedChar,
    m: Option<LineMetrics>,
    width: int,
    break_word: bool,
)
    requires
        spec_is_line_break(g.ch),
    ensures
        spec_step(st, g, m, width, break_word).lines.len() == st.lines.len() + 1,
        spec_step(st, g, m, width, break_word).cur == Seq::<PlacedChar>::empty(),
{
}

/// No two soft-break characters stand next to each other in the stream.
pub open spec fn no_adjacent_softs(evs: Seq<(PlacedChar, Option<LineMetrics>)>) -> bool {
    forall|i: int|
        0 <= i < evs.len() - 1 ==> !(spec_is_can_line_break(#[trigger] evs[i].0.ch)
            && spec_is_can_line_break(evs[i + 1].0.ch))
}

/// The pending word never holds a break character of either kind.
spec fn word_clean(word: Seq<PlacedChar>) -> bool {
    forall|i: int|
        0 <= i < word.len() ==> !spec_is_can_line_break(#[trigger] word[i].ch)
            && !spec_is_line_break(word[i].ch)
}

/// No two soft-break glyphs stand next to each other.
spec fn no_adjacent_softs_in(cur: Seq<PlacedChar>) -> bool {
    forall|i: int|
        0 <= i < cur.len() - 1 ==> !(spec_is_can_line_break(#[trigger] cur[i].ch)
            && spec_is_can_line_break(cur[i + 1].ch))
}

/// No stored line ends with a soft-break glyph.
pub open spec fn lines_trimmed(lines: Seq<crate::layout::LineV>) -> bool {
    forall|l: int|
        0 <= l < lines.len() ==> ((#[trigger] lines[l].glyphs).len() > 0
            ==> !spec_is_can_line_break(lines[l].glyphs.last().ch))
}

/// The induction invariant behind the trim law. Outside word mode (and
/// always at width zero, where the word-mode branches never run) the
/// pending word stays empty.
spec fn trim_inv(
    st: StateV,
    evs: Seq<(PlacedChar, Option<LineMetrics>)>,
    width: int,
    break_word: bool,
) -> bool {
    &&& lines_trimmed(st.lines)
    &&& no_adjacent_softs_in(st.cur)
    &&& word_clean(st.word)
    &&& ((!break_word || width == 0) ==> st.word.len() == 0)
    &&& (st.cur.len() > 0 && spec_is_can_line_break(st.cur.last().ch) ==> (st.word.len() > 0 || (
    evs.len() > 0 && spec_is_can_line_break(evs.last().0.ch))))
}

proof fn lemma_flush_trimmed(st: StateV)
    requires
        no_adjacent_softs_in(st.cur),
        lines_trimmed(st.lines),
    ensures
        lines_trimmed(spec_flush(st).lines),
        spec_flush(st).lines.len() == st.lines.len() + 1,
{
    let t = spec_trimmed(st.cur);
    if st.cur.len() > 0 && spec_is_can_line_break(st.cur.last().ch) {
        if t.len() > 0 {
            assert(t.last() == st.cur[st.cur.len() - 2]);
            assert(!(spec_is_can_line_break(st.cur[st.cur.len() - 2].ch)
                && spec_is_can_line_break(st.cur[st.cur.len() - 1].ch)));
        }
    }
    assert(spec_flush(st).lines.last().glyphs == t);
}

proof fn lemma_step_trim_inv(
    st: StateV,
    evs: Seq<(PlacedChar, Option<LineMetrics>)>,
    e: (PlacedChar, Option<LineMetrics>),
    width: int,
    break_word: bool,
)
    requires
        trim_inv(st, evs, width, break_word),
        no_adjacent_softs(evs.push(e)),
        evs.len() > 0 ==> evs.push(e)[evs.len() - 1] == evs.last(),
    ensures
        trim_inv(spec_step(st, e.0, e.1, width, break_word), evs.push(e), width, break_word),
{
    let g = e.0;
    let stm = crate::layout::spec_apply_metrics(st, e.1);
    let soft = spec_is_can_line_break(g.ch);
    let hard = spec_is_line_break(g.ch);
    // pushing a soft glyph onto a line that ends soft would need two
    // adjacent softs in the stream, which the premise rules out
    if soft && st.cur.len() > 0 && spec_is_can_line_break(st.cur.last().ch) && st.word.len()
        == 0 {
        assert(evs.len() > 0 && spec_is_can_line_break(evs.last().0.ch));
        assert(evs.push(e)[evs.len() - 1] == evs.last());
        assert(evs.push(e)[evs.len() as int] == e);
        assert(false);
    }
    let cw = stm.cur + stm.word;
    assert forall|i: int| 0 <= i < cw.len() - 1 implies !(spec_is_can_line_break(
        #[trigger] cw[i].ch,
    ) && spec_is_can_line_break(cw[i + 1].ch)) by {
        if i + 1 < stm.cur.len() {
            assert(cw[i] == stm.cur[i] && cw[i + 1] == stm.cur[i + 1]);
        } else if i >= stm.cur.len() {
            assert(cw[i + 1] == stm.word[i + 1 - stm.cur.len()]);
        } else {
            assert(cw[i + 1] == stm.word[i + 1 - stm.cur.len()]);
        }
    }
    if hard {
        let pre = if width != 0 && break_word {
            StateV { cur: cw, word: Seq::empty(), ..stm }
        } else {
            stm
        };
        lemma_flush_trimmed(pre);
    } else if width != 0 {
        let lw = sum_adv(stm.cur) + sum_adv(stm.word) + g.advance;
        if break_word {
            if lw > width {
                if soft {
                    lemma_flush_trimmed(StateV { cur: cw, word: Seq::empty(), ..stm });
                } else {
                    lemma_flush_trimmed(StateV { word: Seq::empty(), ..stm });
                    let nc = stm.word.push(g);
                    assert forall|i: int| 0 <= i < nc.len() - 1 implies !(spec_is_can_line_break(
                        #[trigger] nc[i].ch,
                    ) && spec_is_can_line_break(nc[i + 1].ch)) by {
                        assert(nc[i] == stm.word[i]);
                    }
                }
            } else {
                if soft {
                    let nc = cw.push(g);
                    assert forall|i: int| 0 <= i < nc.len() - 1 implies !(spec_is_can_line_break(
                        #[trigger] nc[i].ch,
                    ) && spec_is_can_line_break(nc[i + 1].ch)) by {
                        if i + 1 < cw.len() {
                        } else {
                            assert(nc[i + 1] == g);
                            assert(i == cw.len() - 1);
                            if cw.len() > 0 && spec_is_can_line_break(cw[i].ch) {
                                // the last of line-plus-word is soft, so the
                                // word is empty and the line itself ends soft
                                assert(stm.word.len() == 0);
                                assert(cw[i] == stm.cur[i]);
                                assert(false);
                            }
                        }
                    }
                } else {
                    let nw = stm.word.push(g);
                    assert forall|i: int| 0 <= i < nw.len() implies !spec_is_can_line_break(
                        (#[trigger] nw[i]).ch,
                    ) && !spec_is_line_break(nw[i].ch) by {
                        if i < stm.word.len() {
                            assert(nw[i] == stm.word[i]);
                        } else {
                            assert(nw[i] == g);
                        }
                    }
                }
            }
        } else {
            if lw > width {
                lemma_flush_trimmed(stm);
            } else {
                let nc = stm.cur.push(g);
                assert forall|i: int| 0 <= i < nc.len() - 1 implies !(spec_is_can_line_break(
                    #[trigger] nc[i].ch,
                ) && spec_is_can_line_break(nc[i + 1].ch)) by {
                    if i + 1 < stm.cur.len() {
                    } else {
                        assert(nc[i + 1] == g);
                        assert(i == stm.cur.len() - 1);
                        if soft && spec_is_can_line_break(stm.cur[i].ch) {
                            assert(st.word.len() == 0);
                            assert(false);
                        }
                    }
                }
            }
        }
    } else {
        let nc = stm.cur.push(g);
        assert forall|i: int| 0 <= i < nc.len() - 1 implies !(spec_is_can_line_break(
            #[trigger] nc[i].ch,
        ) && spec_is_can_line_break(nc[i + 1].ch)) by {
            if i + 1 < stm.cur.len() {
            } else {
                assert(nc[i + 1] == g);
                assert(i == stm.cur.len() - 1);
                if soft && spec_is_can_line_break(stm.cur[i].ch) {
                    assert(st.word.len() == 0);
                    assert(false);
                }
            }
        }
    }
}

proof fn lemma_run_trim_inv(evs: Seq<(PlacedChar, Option<LineMetrics>)>, width: int, break_word: bool)
    requires
        no_adjacent_softs(evs),
    ensures
        trim_inv(spec_run(spec_init(), evs, width, break_word), evs, width, break_word),
    decreases evs.len(),
{
    if evs.len() > 0 {
        let pre = evs.drop_last();
        assert(no_adjacent_softs(pre));
        lemma_run_trim_inv(pre, width, break_word);
        assert(pre.push(evs.last()) =~= evs);
        lemma_step_trim_inv(
            spec_run(spec_init(), pre, width, break_word),
            pre,
            evs.last(),
            width,
            break_word,
        );
    }
}

/// The trim invariant: when no two soft-break characters are adjacent in
/// the document, no stored line ends with a soft-break glyph. (A document
/// with a run of soft-break characters can defeat it, since exactly one
/// trailing soft glyph is trimmed per line: two trailing spaces leave one.)
pub proof fn lemma_no_trailing_soft(doc: Seq<MeasuredChunk>, width: int, break_word: bool)
    requires
        no_adjacent_softs(spec_doc_events(doc)),
    ensures
        lines_trimmed(spec_layout(doc, width, break_word)),
{
    let evs = spec_doc_events(doc);
    lemma_run_trim_inv(evs, width, break_word);
    let st = spec_run(spec_init(), evs, width, break_word);
    lemma_flush_trimmed(st);
}

/// An event stream that is one word (no break characters of either kind)
/// closed by a single hard break.
pub open spec fn is_terminated_word(evs: Seq<(PlacedChar, Option<LineMetrics>)>) -> bool {
    &&& evs.len() >= 1
    &&& spec_is_line_break(evs.last().0.ch)
    &&& forall|i: int|
        0 <= i < evs.len() - 1 ==> !spec_is_can_line_break(#[trigger] evs[i].0.ch)
            && !spec_is_line_break(evs[i].0.ch)
}

proof fn lemma_word_accumulates(
    evs: Seq<(PlacedChar, Option<LineMetrics>)>,
    width: int,
    break_word: bool,
)
    requires
        width != 0,
        break_word,
        forall|i: int|
            0 <= i < evs.len() ==> !spec_is_can_line_break(#[trigger] evs[i].0.ch)
                && !spec_is_line_break(evs[i].0.ch),
        evs_adv(evs) <= width,
    ensures
        ({
            let st = spec_run(spec_init(), evs, width, break_word);
            st.lines == Seq::<crate::layout::LineV>::empty() && st.cur == Seq::<
                PlacedChar,
            >::empty() && st.word == evs.map_values(
                |ev: (PlacedChar, Option<LineMetrics>)| ev.0,
            )
        }),
    decreases evs.len(),
{
    let f = |ev: (PlacedChar, Option<LineMetrics>)| ev.0;
    if evs.len() == 0 {
        assert(evs.map_values(f) =~= Seq::<PlacedChar>::empty());
    } else {
        let pre = evs.drop_last();
        let e = evs.last();
        lemma_evs_adv_push(pre, e);
        assert(pre.push(e) =~= evs);
        lemma_evs_adv_nonneg_local(pre);
        lemma_word_accumulates(pre, width, break_word);
        let st = spec_run(spec_init(), pre, width, break_word);
        crate::layout::lemma_sum_adv_push(st.word, e.0);
        lemma_map_adv(pre);
        lemma_map_adv(evs);
        assert(evs.map_values(f) =~= pre.map_values(f).push(e.0));
    }
}

proof fn lemma_map_adv(evs: Seq<(PlacedChar, Option<LineMetrics>)>)
    ensures
        sum_adv(evs.map_values(|ev: (PlacedChar, Option<LineMetrics>)| ev.0)) == evs_adv(evs),
{
}

proof fn lemma_evs_adv_nonneg_local(evs: Seq<(PlacedChar, Option<LineMetrics>)>)
    ensures
        evs_adv(evs) >= 0,
{
    lemma_sum_adv_nonneg(evs.map_values(|ev: (PlacedChar, Option<LineMetrics>)| ev.0));
}

/// Word mode keeps a word that fits the target width whole: a document
/// whose events are one word closed by a hard break comes out as that word
/// on the first line, unsplit, followed by the final empty line.
pub proof fn lemma_word_mode_keeps_fitting_word(
    doc: Seq<MeasuredChunk>,
    width: int,
)
    requires
        width != 0,
        is_terminated_word(spec_doc_events(doc)),
        evs_adv(spec_doc_events(doc).drop_last()) <= width,
    ensures
        ({
            let lines = spec_layout(doc, width, true);
            let word = spec_doc_events(doc).drop_last().map_values(
                |ev: (PlacedChar, Option<LineMetrics>)| ev.0,
            );
            lines.len() == 2 && lines[0].glyphs == word && lines[0].chars_width == sum_adv(word)
        }),
{
    let evs = spec_doc_events(doc);
    let pre = evs.drop_last();
    let e = evs.last();
    lemma_word_accumulates(pre, width, true);
    let st = spec_run(spec_init(), pre, width, true);
    assert(pre.push(e) =~= evs);
    let word = pre.map_values(|ev: (PlacedChar, Option<LineMetrics>)| ev.0);
    let stm = crate::layout::spec_apply_metrics(st, e.1);
    let merged = stm.cur + stm.word;
    assert(merged =~= word);
    let st2 = spec_step(st, e.0, e.1, width, true);
    // the closing hard break flushes line and word together; the word has
    // no soft-break glyph, so trimming keeps it whole
    assert forall|i: int| 0 <= i < word.len() implies !spec_is_can_line_break(
        (#[trigger] word[i]).ch,
    ) by {
        assert(word[i] == pre[i].0);
    }
    if word.len() > 0 {
        assert(!spec_is_can_line_break(word.last().ch));
    }
    assert(spec_trimmed(word) == word);
    assert(st2.lines.len() == 1 && st2.lines[0].glyphs == word);
    assert(st2.cur =~= Seq::<PlacedChar>::empty());
    let fin = spec_flush(st2);
    assert(spec_layout(doc, width, true) == fin.lines);
}

/// Events that are plain word characters: no break character of either
/// kind among them.
pub open spec fn all_plain(evs: Seq<(PlacedChar, Option<LineMetrics>)>) -> bool {
    forall|i: int|
        0 <= i < evs.len() ==> !spec_is_can_line_break((#[trigger] evs[i]).0.ch)
            && !spec_is_line_break(evs[i].0.ch)
}

/// Mid-word phases of the machine: either the word so far is wholly
/// pending (no wrap has fired inside it), or one wrap fired and the whole
/// word so far moved onto the fresh open line, a prefix of it open and the
/// rest pending.
spec fn word_whole(st0: StateV, st1: StateV, rg: Seq<PlacedChar>) -> bool {
    ||| (st1.lines == st0.lines && st1.cur == st0.cur && st1.word == rg)
    ||| (exists|m: int|
        0 <= m <= rg.len() && st1.cur == rg.take(m) && (#[trigger] rg.skip(m)) == st1.word
            && st1.lines.len() == st0.lines.len() + 1)
}

proof fn lemma_word_run_phases(
    st0: StateV,
    r: Seq<(PlacedChar, Option<LineMetrics>)>,
    width: int,
)
    requires
        width != 0,
        st0.word == Seq::<PlacedChar>::empty(),
        all_plain(r),
        evs_adv(r) <= width,
    ensures
        word_whole(
            st0,
            spec_run(st0, r, width, true),
            r.map_values(|ev: (PlacedChar, Option<LineMetrics>)| ev.0),
        ),
    decreases r.len(),
{
    let f = |ev: (PlacedChar, Option<LineMetrics>)| ev.0;
    let rg = r.map_values(f);
    if r.len() == 0 {
        assert(rg =~= Seq::<PlacedChar>::empty());
    } else {
        let pre = r.drop_last();
        let e = r.last();
        let pg = pre.map_values(f);
        lemma_evs_adv_push(pre, e);
        assert(pre.push(e) =~= r);
        lemma_evs_adv_nonneg_local(pre);
        lemma_word_run_phases(st0, pre, width);
        let stp = spec_run(st0, pre, width, true);
        let stm = crate::layout::spec_apply_metrics(stp, e.1);
        let st1 = spec_step(stp, e.0, e.1, width, true);
        assert(rg =~= pg.push(e.0));
        lemma_map_adv(pre);
        lemma_map_adv(r);
        if stp.lines == st0.lines && stp.cur == st0.cur && stp.word == pg {
            // first phase so far: the word is wholly pending
            crate::layout::lemma_sum_adv_push(pg, e.0);
            let lw = sum_adv(stm.cur) + sum_adv(stm.word) + e.0.advance;
            if lw > width {
                // the wrap: the open line is flushed without the word and
                // the whole word so far starts the fresh line
                let m = rg.len() as int;
                assert(st1.cur == pg.push(e.0));
                assert(st1.cur =~= rg.take(m));
                assert(rg.skip(m) =~= Seq::<PlacedChar>::empty());
                assert(rg.skip(m) == st1.word);
            } else {
                assert(st1.word == pg.push(e.0));
            }
        } else {
            // a wrap already fired: everything the machine holds is part
            // of the word, so its width is under the target and no second
            // wrap can fire inside this word
            let m = choose|m: int|
                0 <= m <= pg.len() && stp.cur == pg.take(m) && (#[trigger] pg.skip(m))
                    == stp.word && stp.lines.len() == st0.lines.len() + 1;
            assert(pg =~= pg.take(m) + pg.skip(m));
            crate::layout::lemma_sum_adv_concat(pg.take(m), pg.skip(m));
            lemma_map_adv(pre);
            let lw = sum_adv(stm.cur) + sum_adv(stm.word) + e.0.advance;
            assert(lw == evs_adv(r));
            assert(!(lw > width));
            assert(st1.word == pg.skip(m).push(e.0));
            assert(rg.take(m) =~= pg.take(m));
            assert(rg.skip(m) =~= pg.skip(m).push(e.0));
            assert(st1.cur == rg.take(m) && rg.skip(m) == st1.word);
            assert(st1.lines.len() == st0.lines.len() + 1);
        }
    }
}

/// `r` appears as one contiguous block of `s`.
pub open spec fn contiguous_in(r: Seq<PlacedChar>, s: Seq<PlacedChar>) -> bool {
    exists|off: int|
        0 <= off && off + r.len() <= s.len() && #[trigger] s.subrange(off, off + r.len()) == r
}

/// `r` sits contiguously on the open line or on some finished line.
pub open spec fn placed_somewhere(r: Seq<PlacedChar>, st: StateV) -> bool {
    ||| contiguous_in(r, st.cur)
    ||| exists|l: int|
        0 <= l < st.lines.len() && contiguous_in(r, (#[trigger] st.lines[l]).glyphs)
}

proof fn lemma_contiguous_prefix(r: Seq<PlacedChar>, a: Seq<PlacedChar>, b: Seq<PlacedChar>)
    requires
        contiguous_in(r, a),
    ensures
        contiguous_in(r, a + b),
{
    let off = choose|off: int|
        0 <= off && off + r.len() <= a.len() && #[trigger] a.subrange(off, off + r.len()) == r;
    assert((a + b).subrange(off, off + r.len()) =~= a.subrange(off, off + r.len()));
}

proof fn lemma_contiguous_push(r: Seq<PlacedChar>, a: Seq<PlacedChar>, g: PlacedChar)
    requires
        contiguous_in(r, a),
    ensures
        contiguous_in(r, a.push(g)),
{
    let off = choose|off: int|
        0 <= off && off + r.len() <= a.len() && #[trigger] a.subrange(off, off + r.len()) == r;
    assert(a.push(g).subrange(off, off + r.len()) =~= a.subrange(off, off + r.len()));
}

/// A block of plain glyphs survives the trailing trim whole: the one glyph
/// a trim can drop is a soft break, which a plain block cannot contain.
proof fn lemma_contiguous_trimmed(r: Seq<PlacedChar>, a: Seq<PlacedChar>)
    requires
        contiguous_in(r, a),
        word_clean(r),
    ensures
        contiguous_in(r, spec_trimmed(a)),
{
    let off = choose|off: int|
        0 <= off && off + r.len() <= a.len() && #[trigger] a.subrange(off, off + r.len()) == r;
    if a.len() > 0 && spec_is_can_line_break(a.last().ch) {
        assert(spec_trimmed(a) == a.drop_last());
        if r.len() > 0 {
            if off + r.len() == a.len() {
                assert(r[r.len() - 1] == a.subrange(off, off + r.len())[r.len() - 1]);
                assert(r[r.len() - 1] == a[a.len() - 1]);
                assert(!spec_is_can_line_break(r[r.len() - 1].ch));
                assert(false);
            }
            assert(a.drop_last().subrange(off, off + r.len()) =~= a.subrange(
                off,
                off + r.len(),
            ));
            assert(spec_trimmed(a).subrange(off, off + r.len()) == r);
            assert(0 <= off && off + r.len() <= spec_trimmed(a).len());
        } else {
            assert(spec_trimmed(a).subrange(0, 0 + r.len() as int) =~= r);
            assert(0 <= 0 && 0 + r.len() <= spec_trimmed(a).len());
        }
    } else {
        assert(spec_trimmed(a) == a);
    }
}

proof fn lemma_flush_preserves_placement(r: Seq<PlacedChar>, st: StateV)
    requires
        placed_somewhere(r, st),
        word_clean(r),
    ensures
        placed_somewhere(r, spec_flush(st)),
{
    let f = spec_flush(st);
    if contiguous_in(r, st.cur) {
        lemma_contiguous_trimmed(r, st.cur);
        let l = st.lines.len() as int;
        assert(f.lines[l].glyphs == spec_trimmed(st.cur));
        assert(0 <= l < f.lines.len() && contiguous_in(r, f.lines[l].glyphs));
    } else {
        let l = choose|l: int|
            0 <= l < st.lines.len() && contiguous_in(r, (#[trigger] st.lines[l]).glyphs);
        assert(f.lines[l] == st.lines[l]);
    }
}

/// One step never tears a plain block apart: the open line only ever grows
/// at its end or is flushed whole (minus one trailing soft glyph that a
/// plain block cannot contain), and finished lines are never touched.
proof fn lemma_step_preserves_placement(
    r: Seq<PlacedChar>,
    st: StateV,
    e: (PlacedChar, Option<LineMetrics>),
    width: int,
    break_word: bool,
)
    requires
        placed_somewhere(r, st),
        word_clean(r),
    ensures
        placed_somewhere(r, spec_step(st, e.0, e.1, width, break_word)),
{
    let g = e.0;
    let stm = crate::layout::spec_apply_metrics(st, e.1);
    assert(placed_somewhere(r, stm));
    let st1 = spec_step(st, g, e.1, width, break_word);
    let soft = spec_is_can_line_break(g.ch);
    let hard = spec_is_line_break(g.ch);
    let lw = sum_adv(stm.cur) + sum_adv(stm.word) + g.advance;
    if contiguous_in(r, stm.cur) {
        if width != 0 && break_word {
            if hard || (lw > width && soft) {
                lemma_contiguous_prefix(r, stm.cur, stm.word);
                lemma_flush_preserves_placement(
                    r,
                    StateV { cur: stm.cur + stm.word, word: Seq::empty(), ..stm },
                );
                assert(placed_somewhere(r, st1));
            } else if lw > width {
                lemma_flush_preserves_placement(r, StateV { word: Seq::empty(), ..stm });
                let f = spec_flush(StateV { word: Seq::<PlacedChar>::empty(), ..stm });
                assert(st1.lines == f.lines);
                if contiguous_in(r, f.cur) {
                    assert(r.len() == 0);
                    assert(st1.cur.subrange(0, 0 + r.len() as int) =~= r);
                    assert(contiguous_in(r, st1.cur));
                } else {
                    let l = choose|l: int|
                        0 <= l < f.lines.len() && contiguous_in(
                            r,
                            (#[trigger] f.lines[l]).glyphs,
                        );
                    assert(0 <= l < st1.lines.len() && contiguous_in(r, st1.lines[l].glyphs));
                }
                assert(placed_somewhere(r, st1));
            } else if soft {
                lemma_contiguous_prefix(r, stm.cur, stm.word);
                lemma_contiguous_push(r, stm.cur + stm.word, g);
                assert(placed_somewhere(r, st1));
            } else {
                assert(st1.cur == stm.cur);
                assert(placed_somewhere(r, st1));
            }
        } else if width != 0 {
            if hard {
                lemma_flush_preserves_placement(r, stm);
                assert(placed_somewhere(r, st1));
            } else if lw > width {
                lemma_flush_preserves_placement(r, stm);
                let f = spec_flush(stm);
                assert(st1.lines == f.lines);
                if contiguous_in(r, f.cur) {
                    assert(r.len() == 0);
                    assert(st1.cur.subrange(0, 0 + r.len() as int) =~= r);
                    assert(contiguous_in(r, st1.cur));
                } else {
                    let l = choose|l: int|
                        0 <= l < f.lines.len() && contiguous_in(
                            r,
                            (#[trigger] f.lines[l]).glyphs,
                        );
                    assert(0 <= l < st1.lines.len() && contiguous_in(r, st1.lines[l].glyphs));
                }
                assert(placed_somewhere(r, st1));
            } else {
                lemma_contiguous_push(r, stm.cur, g);
                assert(placed_somewhere(r, st1));
            }
        } else {
            if hard {
                lemma_flush_preserves_placement(r, stm);
                assert(placed_somewhere(r, st1));
            } else {
                lemma_contiguous_push(r, stm.cur, g);
                assert(placed_somewhere(r, st1));
            }
        }
    } else {
        let l = choose|l: int|
            0 <= l < stm.lines.len() && contiguous_in(r, (#[trigger] stm.lines[l]).glyphs);
        assert(st1.lines.len() >= stm.lines.len());
        assert(st1.lines[l] == stm.lines[l]);
        assert(0 <= l < st1.lines.len() && contiguous_in(r, st1.lines[l].glyphs));
        assert(placed_somewhere(r, st1));
    }
}

proof fn lemma_run_preserves_placement(
    r: Seq<PlacedChar>,
    st: StateV,
    evs: Seq<(PlacedChar, Option<LineMetrics>)>,
    width: int,
    break_word: bool,
)
    requires
        placed_somewhere(r, st),
        word_clean(r),
    ensures
        placed_somewhere(r, spec_run(st, evs, width, break_word)),
    decreases evs.len(),
{
    if evs.len() > 0 {
        lemma_run_preserves_placement(r, st, evs.drop_last(), width, break_word);
        lemma_step_preserves_placement(
            r,
            spec_run(st, evs.drop_last(), width, break_word),
            evs.last(),
            width,
            break_word,
        );
    }
}

proof fn lemma_run_append(
    st: StateV,
    a: Seq<(PlacedChar, Option<LineMetrics>)>,
    b: Seq<(PlacedChar, Option<LineMetrics>)>,
    width: int,
    break_word: bool,
)
    ensures
        spec_run(st, a + b, width, break_word) == spec_run(
            spec_run(st, a, width, break_word),
            b,
            width,
            break_word,
        ),
    decreases b.len(),
{
    if b.len() == 0 {
        assert(a + b =~= a);
    } else {
        lemma_run_append(st, a, b.drop_last(), width, break_word);
        assert((a + b).drop_last() =~= a + b.drop_last());
        assert((a + b).last() == b.last());
    }
}

/// In word mode, a break character of either kind empties the pending word.
proof fn lemma_break_empties_word(
    st: StateV,
    e: (PlacedChar, Option<LineMetrics>),
    width: int,
)
    requires
        width != 0,
        spec_is_can_line_break(e.0.ch) || spec_is_line_break(e.0.ch),
    ensures
        spec_step(st, e.0, e.1, width, true).word == Seq::<PlacedChar>::empty(),
{
}

/// A fitting word closed by a break character of either kind sits
/// contiguously in the machine: on the open line, or on the line the
/// break flushed.
proof fn lemma_word_terminated_placed(
    st0: StateV,
    r: Seq<(PlacedChar, Option<LineMetrics>)>,
    t: (PlacedChar, Option<LineMetrics>),
    width: int,
)
    requires
        width != 0,
        st0.word == Seq::<PlacedChar>::empty(),
        all_plain(r),
        evs_adv(r) <= width,
        spec_is_can_line_break(t.0.ch) || spec_is_line_break(t.0.ch),
    ensures
        placed_somewhere(
            r.map_values(|ev: (PlacedChar, Option<LineMetrics>)| ev.0),
            spec_run(st0, r.push(t), width, true),
        ),
{
    let f = |ev: (PlacedChar, Option<LineMetrics>)| ev.0;
    let rg = r.map_values(f);
    lemma_word_run_phases(st0, r, width);
    let stp = spec_run(st0, r, width, true);
    let stm = crate::layout::spec_apply_metrics(stp, t.1);
    assert(r.push(t).drop_last() =~= r);
    let st1 = spec_step(stp, t.0, t.1, width, true);
    assert(spec_run(st0, r.push(t), width, true) == st1);
    assert forall|i: int| 0 <= i < rg.len() implies !spec_is_can_line_break(
        (#[trigger] rg[i]).ch,
    ) && !spec_is_line_break(rg[i].ch) by {
        assert(rg[i] == r[i].0);
    }
    let merged = stm.cur + stm.word;
    if stp.lines == st0.lines && stp.cur == st0.cur && stp.word == rg {
        let off = stm.cur.len() as int;
        assert(merged.subrange(off, off + rg.len()) =~= rg);
        assert(contiguous_in(rg, merged));
    } else {
        let m = choose|m: int|
            0 <= m <= rg.len() && stp.cur == rg.take(m) && (#[trigger] rg.skip(m)) == stp.word
                && stp.lines.len() == st0.lines.len() + 1;
        assert(merged =~= rg);
        assert(merged.subrange(0, 0 + rg.len() as int) =~= rg);
        assert(contiguous_in(rg, merged));
    }
    let hard = spec_is_line_break(t.0.ch);
    let lw = sum_adv(stm.cur) + sum_adv(stm.word) + t.0.advance;
    if hard || lw > width {
        // the break flushes line and word together; trimming cannot take a
        // glyph of the word, which has no soft break in it
        lemma_contiguous_trimmed(rg, merged);
        let fl = spec_flush(StateV { cur: merged, word: Seq::empty(), ..stm });
        assert(st1.lines == fl.lines);
        let l = stm.lines.len() as int;
        assert(st1.lines[l].glyphs == spec_trimmed(merged));
        assert(0 <= l < st1.lines.len() && contiguous_in(rg, st1.lines[l].glyphs));
    } else {
        // the soft break joins the line after the word: still one block
        lemma_contiguous_push(rg, merged, t.0);
        assert(st1.cur == merged.push(t.0));
        assert(contiguous_in(rg, st1.cur));
    }
}

/// Word mode never splits a word that fits the target width — the
/// document-level statement. Take any maximal word of the document's
/// glyph stream: a block of plain characters that begins the stream or
/// follows a break character, and is closed by a break character (soft or
/// hard). If its total advance is at most the target width, its glyphs
/// appear contiguously on one line of the output, never across two.
/// (A word wider than the target is the documented exception: it wraps
/// mid-word. A word still pending when the input ends is dropped by
/// finalization, not split.)
pub proof fn lemma_word_mode_words_stay_whole(
    doc: Seq<MeasuredChunk>,
    i: int,
    j: int,
    width: int,
)
    requires
        width != 0,
        ({
            let evs = spec_doc_events(doc);
            &&& 0 <= i <= j < evs.len()
            &&& (i == 0 || spec_is_can_line_break(evs[i - 1].0.ch) || spec_is_line_break(
                evs[i - 1].0.ch,
            ))
            &&& all_plain(evs.subrange(i, j))
            &&& (spec_is_can_line_break(evs[j].0.ch) || spec_is_line_break(evs[j].0.ch))
            &&& evs_adv(evs.subrange(i, j)) <= width
        }),
    ensures
        ({
            let evs = spec_doc_events(doc);
            let rg = evs.subrange(i, j).map_values(
                |ev: (PlacedChar, Option<LineMetrics>)| ev.0,
            );
            let lines = spec_layout(doc, width, true);
            exists|l: int|
                0 <= l < lines.len() && contiguous_in(rg, (#[trigger] lines[l]).glyphs)
        }),
{
    let evs = spec_doc_events(doc);
    let a = evs.take(i);
    let r = evs.subrange(i, j);
    let t = evs[j];
    let b = evs.subrange(j + 1, evs.len() as int);
    let rg = r.map_values(|ev: (PlacedChar, Option<LineMetrics>)| ev.0);
    assert(r.push(t) =~= evs.subrange(i, j + 1));
    assert(a + r.push(t) =~= evs.take(j + 1));
    assert((a + r.push(t)) + b =~= evs);
    lemma_run_append(spec_init(), a + r.push(t), b, width, true);
    lemma_run_append(spec_init(), a, r.push(t), width, true);
    let st_a = spec_run(spec_init(), a, width, true);
    if i == 0 {
        assert(a =~= Seq::<(PlacedChar, Option<LineMetrics>)>::empty());
        assert(st_a == spec_init());
    } else {
        assert(a.drop_last() =~= evs.take(i - 1));
        assert(a.last() == evs[i - 1]);
        lemma_break_empties_word(
            spec_run(spec_init(), a.drop_last(), width, true),
            evs[i - 1],
            width,
        );
    }
    lemma_word_terminated_placed(st_a, r, t, width);
    let st_t = spec_run(st_a, r.push(t), width, true);
    assert forall|k: int| 0 <= k < rg.len() implies !spec_is_can_line_break(
        (#[trigger] rg[k]).ch,
    ) && !spec_is_line_break(rg[k].ch) by {
        assert(rg[k] == r[k].0);
    }
    lemma_run_preserves_placement(rg, st_t, b, width, true);
    let st_f = spec_run(st_t, b, width, true);
    assert(st_f == spec_run(spec_init(), evs, width, true));
    lemma_flush_preserves_placement(rg, st_f);
    let fin = spec_flush(st_f);
    assert(spec_layout(doc, width, true) == fin.lines);
    if contiguous_in(rg, fin.cur) {
        assert(rg.len() == 0);
        let l = fin.lines.len() - 1;
        assert(fin.lines[l].glyphs.subrange(0, 0 + rg.len() as int) =~= rg);
        assert(0 <= l < fin.lines.len() && contiguous_in(rg, fin.lines[l].glyphs));
    }
}

/// All-zero kerning contributes nothing to the caret.
pub proof fn lemma_kern_sum_zero(kerns: Seq<i32>, n: int)
    requires
        0 <= n <= kerns.len(),
        forall|i: int| 0 <= i < kerns.len() ==> #[trigger] kerns[i] == 0,
    ensures
        spec_kern_sum(kerns, n) == 0,
    decreases n,
{
    if n > 0 {
        lemma_kern_sum_zero(kerns, n - 1);
    }
}

/// Justification fills the line: without kerning, the caret after the last
/// glyph of a justified line that has at least one soft-break glyph and
/// fits the image lands within one truncated-division remainder of the
/// image width — more than `width - nsoft`, and never past `width`.
pub proof fn lemma_justify_fills_line(glyphs: Seq<PlacedChar>, kerns: Seq<i32>, w: int, cw: int)
    requires
        kerns.len() == glyphs.len(),
        forall|i: int| 0 <= i < kerns.len() ==> #[trigger] kerns[i] == 0,
        cw == sum_adv(glyphs),
        count_soft(glyphs) >= 1,
        0 <= cw <= w,
    ensures
        ({
            let nsoft = count_soft(glyphs);
            let jinc = spec_justify_inc(w, cw, nsoft);
            let end = spec_caret_after(glyphs, kerns, 0, jinc, true, glyphs.len() as int);
            w - nsoft < end <= w
        }),
{
    let n = glyphs.len() as int;
    let nsoft = count_soft(glyphs);
    let jinc = spec_justify_inc(w, cw, nsoft);
    lemma_caret_decomposed(glyphs, kerns, 0, jinc, true, n);
    lemma_kern_sum_zero(kerns, n);
    assert(glyphs.take(n) =~= glyphs);
    vstd::arithmetic::div_mod::lemma_fundamental_div_mod(w - cw, nsoft);
    vstd::arithmetic::div_mod::lemma_mod_bound(w - cw, nsoft);
    assert(jinc == (w - cw) / nsoft);
    assert(nsoft * jinc == (w - cw) - (w - cw) % nsoft);
}

} // verus!
