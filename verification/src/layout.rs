//! The layout engine: turns document blocks into positioned glyph instances
//! and closed redaction spans.
//!
//! Paragraph glyphs advance by a fixed letter spacing (a typewriter cadence
//! that deliberately ignores true glyph metrics); heading glyphs advance by
//! scaled font metrics with kerning and are centered on the page. A small
//! state machine tracks redaction spans: the reserved codepoint toggles a
//! span open or closed at the current caret, a span still open at a line
//! break is closed at the line's last caret and reopened at the next line's
//! start, and a span still open at paragraph end is closed at the final
//! caret. Every span handed to the renderer is therefore closed.

use vstd::prelude::*;

use crate::config::Config;
use crate::fonts::{
    advance_entry, kern_entry, lemma_advance_entry_bound, lemma_kern_entry_bound,
    lemma_scaled_bound, lemma_scaled_signed_bound, scale_metric, scale_metric_signed, scaled,
    scaled_signed, FontMetrics, FontTable,
};
use crate::outside::rng_in_range;
use crate::parser::{redaction_codepoint, Block};
use crate::textspec::char_at;

verus! {

/// A position on the page, in units.
#[derive(Debug, Clone, Copy, PartialEq, Eq)]
pub struct Point {
    /// Horizontal position, growing rightward.
    pub x: i64,
    /// Vertical position, growing downward.
    pub y: i64,
}

/// The font role a glyph is drawn with.
#[derive(Debug, Clone, Copy, PartialEq, Eq)]
pub enum FontKey {
    /// The paragraph font.
    Body,
    /// The heading font.
    Heading,
    /// The stamp font.
    Stamp,
}

/// A positioned glyph: a character, the font size it is drawn at, its
/// baseline position, and the font role to draw it with.
#[derive(Debug, Clone, Copy, PartialEq, Eq)]
pub struct GlyphInstance {
    /// The character to draw.
    pub ch: char,
    /// Font size in units.
    pub size: u32,
    /// Baseline position of the glyph.
    pub pos: Point,
    /// Which font role to draw with.
    pub font_key: FontKey,
}

/// A redaction span: a horizontal run to be concealed by a dense bar. While
/// the layout engine is working the end may still be unset; every span it
/// returns has `end` set.
#[derive(Debug, Clone, Copy, PartialEq, Eq)]
pub struct Redaction {
    /// Caret position where the span opened.
    pub start: Point,
    /// Caret position where the span closed, if it has closed.
    pub end: Option<Point>,
    /// Height of the concealed run, in units.
    pub thickness: u32,
}

impl Redaction {
    /// A new span, open, starting at `p`.
    pub fn new(p: Point, t: u32) -> (r: Redaction)
        ensures
            r.start == p,
            r.end is None,
            r.thickness == t,
    {
        Redaction { start: p, end: None, thickness: t }
    }

    /// Close the span at `p`; a span that is already closed is unchanged.
    pub fn close(&mut self, p: Point)
        ensures
            old(self).end is None ==> *final(self) == (Redaction {
                start: old(self).start,
                end: Some(p),
                thickness: old(self).thickness,
            }),
            old(self).end is Some ==> *final(self) == *old(self),
    {
        if self.end.is_none() {
            self.end = Some(p);
        }
    }

    /// Whether the span is still open.
    pub fn is_open(&self) -> (r: bool)
        ensures
            r == (self.end is None),
    {
        self.end.is_none()
    }
}

/// Whether the working span list has an open span (only its last span can
/// ever be open).
pub open spec fn spans_open(reds: Seq<Redaction>) -> bool {
    reds.len() > 0 && reds.last().end is None
}

/// The working span list with its last span closed at `p`.
pub open spec fn close_last(reds: Seq<Redaction>, p: Point) -> Seq<Redaction> {
    reds.update(
        reds.len() - 1,
        Redaction { start: reds.last().start, end: Some(p), thickness: reds.last().thickness },
    )
}

/// Every span but possibly an open last one is closed, and each closed span
/// runs rightward on a single baseline.
pub open spec fn spans_wf(reds: Seq<Redaction>) -> bool {
    &&& forall|j: int| 0 <= j < reds.len() - 1 ==> (#[trigger] reds[j]).end is Some
    &&& forall|j: int|
        0 <= j < reds.len() && (#[trigger] reds[j]).end is Some ==> reds[j].start.x
            <= reds[j].end->0.x && reds[j].start.y == reds[j].end->0.y
}

/// One step of the redaction state machine, at caret `p`: the reserved
/// codepoint closes an open span or opens a new one of height `thickness`.
pub open spec fn toggle_span(reds: Seq<Redaction>, p: Point, thickness: u32) -> Seq<Redaction> {
    if spans_open(reds) {
        close_last(reds, p)
    } else {
        reds.push(Redaction { start: p, end: None, thickness: thickness })
    }
}

/// The number of glyph-producing characters in a line: each character that
/// is not the reserved codepoint emits a glyph and advances the caret.
pub open spec fn glyph_chars(line: Seq<char>) -> int
    decreases line.len(),
{
    if line.len() == 0 {
        0
    } else {
        glyph_chars(line.drop_last()) + if line.last() == redaction_codepoint() {
            0int
        } else {
            1int
        }
    }
}

/// The number of glyph-producing characters never exceeds the line length.
pub proof fn lemma_glyph_chars_bound(line: Seq<char>)
    ensures
        0 <= glyph_chars(line) <= line.len(),
    decreases line.len(),
{
    if line.len() > 0 {
        lemma_glyph_chars_bound(line.drop_last());
    }
}

/// The layout of one paragraph line, processed from character `i` with the
/// caret at `x` on baseline `y`: glyphs of `size` in the paragraph font are
/// emitted at the caret, which advances by `spacing`; the reserved codepoint
/// toggles the span machine instead.
pub open spec fn line_model(
    gs: Seq<GlyphInstance>,
    reds: Seq<Redaction>,
    line: Seq<char>,
    i: int,
    x: int,
    y: int,
    size: u32,
    spacing: int,
    thickness: u32,
) -> (Seq<GlyphInstance>, Seq<Redaction>)
    decreases line.len() - i,
    when 0 <= i <= line.len()
{
    if i >= line.len() {
        (gs, reds)
    } else if line[i] == redaction_codepoint() {
        line_model(
            gs,
            toggle_span(reds, point_at(x, y), thickness),
            line,
            i + 1,
            x,
            y,
            size,
            spacing,
            thickness,
        )
    } else {
        line_model(
            gs.push(glyph_at(line[i], size, x, y)),
            reds,
            line,
            i + 1,
            x + spacing,
            y,
            size,
            spacing,
            thickness,
        )
    }
}

/// A point from mathematical coordinates; coordinates out of the machine
/// range are folded back, so callers keep coordinates in range.
pub open spec fn point_at(x: int, y: int) -> Point {
    Point { x: x as i64, y: y as i64 }
}

/// A paragraph glyph for character `c` at the given caret.
pub open spec fn glyph_at(c: char, size: u32, x: int, y: int) -> GlyphInstance {
    GlyphInstance { ch: c, size: size, pos: point_at(x, y), font_key: FontKey::Body }
}

/// A freshly opened span at the given caret.
pub open spec fn open_span_at(x: int, y: int, thickness: u32) -> Redaction {
    Redaction { start: point_at(x, y), end: None, thickness: thickness }
}

/// Lay out one paragraph line. The caret starts at `(x, y)`; glyphs are
/// pushed onto `glyphs` and the span machine acts on `reds`. Returns the
/// caret x position after the line.
pub fn layout_line(
    line: &str,
    x: i64,
    y: i64,
    size: u32,
    spacing: u32,
    thickness: u32,
    glyphs: &mut Vec<GlyphInstance>,
    reds: &mut Vec<Redaction>,
) -> (end_x: i64)
    requires
        line@.len() <= 100_000,
        spacing <= 16384,
        -0x1000_0000_0000_0000 <= x <= 0x1000_0000_0000_0000,
        -0x1000_0000_0000_0000 <= y <= 0x1000_0000_0000_0000,
    ensures
        (final(glyphs)@, final(reds)@) == line_model(
            old(glyphs)@,
            old(reds)@,
            line@,
            0,
            x as int,
            y as int,
            size,
            spacing as int,
            thickness,
        ),
        end_x == x + spacing * glyph_chars(line@),
{
    let n = line.unicode_len();
    let mut i: usize = 0;
    let mut cx: i64 = x;
    proof {
        assert(line@.take(0) =~= Seq::<char>::empty());
    }
    while i < n
        invariant
            0 <= i <= n,
            n == line@.len(),
            n <= 100_000,
            spacing <= 16384,
            -0x1000_0000_0000_0000 <= x <= 0x1000_0000_0000_0000,
            -0x1000_0000_0000_0000 <= y <= 0x1000_0000_0000_0000,
            cx == x + spacing * glyph_chars(line@.take(i as int)),
            line_model(
                old(glyphs)@,
                old(reds)@,
                line@,
                0,
                x as int,
                y as int,
                size,
                spacing as int,
                thickness,
            ) == line_model(
                glyphs@,
                reds@,
                line@,
                i as int,
                cx as int,
                y as int,
                size,
                spacing as int,
                thickness,
            ),
        decreases n - i,
    {
        proof {
            lemma_glyph_chars_bound(line@.take(i as int));
            lemma_glyph_chars_bound(line@.take(i + 1));
            assert(line@.take(i + 1).drop_last() =~= line@.take(i as int));
            assert(line@.take(i + 1).last() == line@[i as int]);
            assert(spacing * glyph_chars(line@.take(i as int)) <= 16384 * 100_000)
                by (nonlinear_arith)
                requires
                    0 <= spacing <= 16384,
                    0 <= glyph_chars(line@.take(i as int)) <= 100_000,
            ;
            assert(spacing * glyph_chars(line@.take(i as int)) >= 0) by (nonlinear_arith)
                requires
                    0 <= spacing,
                    0 <= glyph_chars(line@.take(i as int)),
            ;
        }
        let c = char_at(line, i);
        if c == '\u{20D2}' {
            proof {
                reveal_strlit("\u{20D2}");
            }
            let p = Point { x: cx, y };
            let ghost reds0 = reds@;
            let m = reds.len();
            if m > 0 && reds[m - 1].is_open() {
                let mut last = reds[m - 1];
                last.close(p);
                reds.set(m - 1, last);
                proof {
                    assert(reds@ =~= close_last(reds0, p));
                }
            } else {
                reds.push(Redaction::new(p, thickness));
            }
            proof {
                assert(point_at(cx as int, y as int) == p);
                assert(reds@ == toggle_span(reds0, p, thickness));
            }
        } else {
            glyphs.push(GlyphInstance { ch: c, size, pos: Point { x: cx, y }, font_key: FontKey::Body });
            proof {
                assert(point_at(cx as int, y as int) == Point { x: cx, y });
                let g = glyph_chars(line@.take(i as int));
                assert(spacing * (g + 1) == spacing * g + spacing) by (nonlinear_arith);
            }
            cx = cx + spacing as i64;
        }
        i += 1;
    }
    proof {
        assert(line@.take(n as int) =~= line@);
    }
    cx
}

/// Glyph-producing characters split across a concatenation.
pub proof fn lemma_glyph_chars_concat(a: Seq<char>, b: Seq<char>)
    ensures
        glyph_chars(a + b) == glyph_chars(a) + glyph_chars(b),
    decreases b.len(),
{
    if b.len() == 0 {
        assert(a + b =~= a);
    } else {
        assert((a + b).drop_last() =~= a + b.drop_last());
        lemma_glyph_chars_concat(a, b.drop_last());
    }
}

/// Whether the span machine is open after processing a line from character
/// `i` with the given entry state: each reserved codepoint flips the state.
pub open spec fn open_after(line: Seq<char>, i: int, open: bool) -> bool
    decreases line.len() - i,
    when 0 <= i <= line.len()
{
    if i >= line.len() {
        open
    } else if line[i] == redaction_codepoint() {
        open_after(line, i + 1, !open)
    } else {
        open_after(line, i + 1, open)
    }
}

/// How many spans the machine opens while processing a line from character
/// `i` with the given entry state.
pub open spec fn opens_count(line: Seq<char>, i: int, open: bool) -> int
    decreases line.len() - i,
    when 0 <= i <= line.len()
{
    if i >= line.len() {
        0
    } else if line[i] == redaction_codepoint() {
        if open {
            opens_count(line, i + 1, false)
        } else {
            1 + opens_count(line, i + 1, true)
        }
    } else {
        opens_count(line, i + 1, open)
    }
}

/// The number of opened spans is non-negative and at most the line length.
pub proof fn lemma_opens_count_bound(line: Seq<char>, i: int, open: bool)
    requires
        0 <= i <= line.len(),
    ensures
        0 <= opens_count(line, i, open) <= line.len() - i,
    decreases line.len() - i,
{
    if i < line.len() {
        lemma_opens_count_bound(line, i + 1, true);
        lemma_opens_count_bound(line, i + 1, false);
        lemma_opens_count_bound(line, i + 1, open);
    }
}

/// What one line does to the layout state, in full. Processing a line from
/// character `i`:
/// - appends exactly one glyph per non-codepoint character, leaving earlier
///   glyphs untouched;
/// - keeps every span well formed, leaves closed spans untouched, and opens
///   exactly `opens_count` new spans, each with the given thickness;
/// - ends open exactly when `open_after` says so, with the open span's start
///   no further right than the final caret, on the line's baseline.
pub proof fn lemma_line_model(
    gs: Seq<GlyphInstance>,
    reds: Seq<Redaction>,
    line: Seq<char>,
    i: int,
    x: int,
    y: int,
    size: u32,
    spacing: int,
    thickness: u32,
)
    requires
        0 <= i <= line.len(),
        line.len() <= 100_000,
        0 <= spacing <= 16384,
        -0x1000_0000_0000_0000 <= x,
        x + spacing * (line.len() - i) <= 0x1000_0000_0000_0000,
        -0x1000_0000_0000_0000 <= y <= 0x1000_0000_0000_0000,
        spans_wf(reds),
        spans_open(reds) ==> reds.last().start.x <= x && reds.last().start.y == y,
    ensures
        ({
            let (gs2, reds2) = line_model(gs, reds, line, i, x, y, size, spacing, thickness);
            let end_x = x + spacing * glyph_chars(line.skip(i));
            &&& gs2.len() == gs.len() + glyph_chars(line.skip(i))
            &&& forall|j: int| 0 <= j < gs.len() ==> gs2[j] == gs[j]
            &&& spans_wf(reds2)
            &&& reds2.len() == reds.len() + opens_count(line, i, spans_open(reds))
            &&& forall|j: int|
                0 <= j < reds.len() && (#[trigger] reds[j]).end is Some ==> reds2[j] == reds[j]
            &&& spans_open(reds2) == open_after(line, i, spans_open(reds))
            &&& spans_open(reds2) ==> reds2.last().start.x <= end_x && reds2.last().start.y == y
            &&& forall|j: int|
                reds.len() <= j < reds2.len() ==> (#[trigger] reds2[j]).thickness == thickness
            &&& spans_open(reds) ==> reds2[reds.len() - 1].start == reds[reds.len() - 1].start
                && reds2[reds.len() - 1].thickness == reds[reds.len() - 1].thickness
        }),
    decreases line.len() - i,
{
    assert(line.skip(i).len() == line.len() - i);
    lemma_glyph_chars_bound(line.skip(i));
    if i >= line.len() {
        assert(line_model(gs, reds, line, i, x, y, size, spacing, thickness) == (gs, reds));
        assert(line.skip(i) =~= Seq::<char>::empty());
        assert(glyph_chars(Seq::<char>::empty()) == 0);
        assert(spacing * 0 == 0);
        assert(opens_count(line, i, spans_open(reds)) == 0);
        assert(open_after(line, i, spans_open(reds)) == spans_open(reds));
    } else {
        assert(line.skip(i) =~= seq![line[i]] + line.skip(i + 1));
        lemma_glyph_chars_concat(seq![line[i]], line.skip(i + 1));
        assert(seq![line[i]].drop_last() =~= Seq::<char>::empty());
        assert(glyph_chars(Seq::<char>::empty()) == 0);
        assert(seq![line[i]].last() == line[i]);
        assert(glyph_chars(seq![line[i]]) == glyph_chars(Seq::<char>::empty()) + if line[i]
            == redaction_codepoint() {
            0int
        } else {
            1int
        });
        lemma_glyph_chars_bound(line.skip(i + 1));
        let p = point_at(x, y);
        assert(p.x as int == x && p.y as int == y);
        if line[i] == redaction_codepoint() {
            assert(glyph_chars(seq![line[i]]) == 0);
            let reds1 = toggle_span(reds, p, thickness);
            assert(line_model(gs, reds, line, i, x, y, size, spacing, thickness) == line_model(
                gs,
                reds1,
                line,
                i + 1,
                x,
                y,
                size,
                spacing,
                thickness,
            ));
            if spans_open(reds) {
                assert(reds1 == close_last(reds, p));
                assert(spans_wf(reds1));
                assert(!spans_open(reds1));
                assert(opens_count(line, i, true) == opens_count(line, i + 1, false));
            } else {
                assert(spans_wf(reds1));
                assert(spans_open(reds1));
                assert(reds1.last().start.x == x);
            }
            assert(spacing * (line.len() - i) == spacing + spacing * (line.len() - (i + 1)))
                by (nonlinear_arith);
            assert(spacing * (line.len() - (i + 1)) >= 0) by (nonlinear_arith)
                requires
                    spacing >= 0,
                    line.len() - (i + 1) >= 0,
            ;
            lemma_line_model(gs, reds1, line, i + 1, x, y, size, spacing, thickness);
            assert(spacing * glyph_chars(line.skip(i)) == spacing * glyph_chars(line.skip(i + 1)));
            let reds2 = line_model(gs, reds1, line, i + 1, x, y, size, spacing, thickness).1;
            assert forall|j: int|
                0 <= j < reds.len() && (#[trigger] reds[j]).end is Some implies reds2[j]
                == reds[j] by {
                assert(reds1[j] == reds[j]);
                assert(reds1[j].end is Some);
            }
            if spans_open(reds) {
                assert(reds1[reds.len() - 1].end is Some);
                assert(reds2[reds.len() - 1] == reds1[reds.len() - 1]);
            } else {
                assert(spans_open(reds1) && reds1.len() == reds.len() + 1);
                assert(reds2[reds1.len() - 1].thickness == reds1[reds1.len() - 1].thickness);
                assert(reds1[reds1.len() - 1].thickness == thickness);
            }
        } else {
            assert(glyph_chars(seq![line[i]]) == 1);
            let g = glyph_at(line[i], size, x, y);
            let gs1 = gs.push(g);
            assert(line_model(gs, reds, line, i, x, y, size, spacing, thickness) == line_model(
                gs1,
                reds,
                line,
                i + 1,
                x + spacing,
                y,
                size,
                spacing,
                thickness,
            ));
            assert(spacing * (line.len() - i) == spacing + spacing * (line.len() - (i + 1)))
                by (nonlinear_arith);
            assert(spacing * (line.len() - (i + 1)) >= 0) by (nonlinear_arith)
                requires
                    spacing >= 0,
                    line.len() - (i + 1) >= 0,
            ;
            lemma_line_model(gs1, reds, line, i + 1, x + spacing, y, size, spacing, thickness);
            let gs2 = line_model(gs1, reds, line, i + 1, x + spacing, y, size, spacing, thickness).0;
            assert forall|j: int| 0 <= j < gs.len() implies gs2[j] == gs[j] by {
                assert(gs1[j] == gs[j]);
            }
            assert(spacing * glyph_chars(line.skip(i)) == spacing * (1 + glyph_chars(
                line.skip(i + 1),
            )));
            assert(spacing * (1 + glyph_chars(line.skip(i + 1))) == spacing + spacing
                * glyph_chars(line.skip(i + 1))) by (nonlinear_arith);
        }
    }
}

/// The layout of a whole paragraph: lines are laid out in order, each on its
/// own baseline `line_spacing` below the last. A span still open at the end
/// of a line is closed at the line's last caret; if more lines follow, a new
/// span opens at the next line's start — redaction boxes never span lines —
/// and at the last line nothing reopens, so a span open at paragraph end is
/// closed at the final caret. Each line after the first starts at the
/// paragraph origin shifted by that line's jitter offset.
pub open spec fn para_model(
    gs: Seq<GlyphInstance>,
    reds: Seq<Redaction>,
    lines: Seq<Seq<char>>,
    cur_x: int,
    y: int,
    jit: Seq<int>,
    origin_x: int,
    size: u32,
    spacing: int,
    line_spacing: int,
    thickness: u32,
) -> (Seq<GlyphInstance>, Seq<Redaction>)
    decreases lines.len(),
{
    if lines.len() == 0 {
        (gs, reds)
    } else {
        let lm = line_model(gs, reds, lines[0], 0, cur_x, y, size, spacing, thickness);
        let end_x = cur_x + spacing * glyph_chars(lines[0]);
        let j0 = if jit.len() > 0 {
            jit[0]
        } else {
            0
        };
        let jtail = if jit.len() > 0 {
            jit.drop_first()
        } else {
            jit
        };
        let next_x = origin_x + j0;
        let next_y = y + line_spacing;
        let reds2 = if spans_open(lm.1) {
            let c = close_last(lm.1, point_at(end_x, y));
            if lines.len() > 1 {
                c.push(open_span_at(next_x, next_y, thickness))
            } else {
                c
            }
        } else {
            lm.1
        };
        para_model(
            lm.0,
            reds2,
            lines.drop_first(),
            next_x,
            next_y,
            jtail,
            origin_x,
            size,
            spacing,
            line_spacing,
            thickness,
        )
    }
}

/// How many spans a paragraph's line sequence produces, entering with the
/// given open state: the spans its markers open, plus one reopened span for
/// each line break crossed while a span is open.
pub open spec fn para_spans(lines: Seq<Seq<char>>, open: bool) -> int
    decreases lines.len(),
{
    if lines.len() == 0 {
        0
    } else {
        let o1 = open_after(lines[0], 0, open);
        opens_count(lines[0], 0, open) + (if o1 && lines.len() > 1 {
            1int
        } else {
            0int
        }) + para_spans(lines.drop_first(), o1 && lines.len() > 1)
    }
}

/// Total glyph-producing characters of a paragraph's lines.
pub open spec fn para_glyphs(lines: Seq<Seq<char>>) -> int
    decreases lines.len(),
{
    if lines.len() == 0 {
        0
    } else {
        glyph_chars(lines[0]) + para_glyphs(lines.drop_first())
    }
}

/// What a whole paragraph does to the layout state: glyph and span counts,
/// preservation of earlier output, well-formedness of every span, and —
/// once at least one line has been processed — no span left open.
pub proof fn lemma_para_model(
    gs: Seq<GlyphInstance>,
    reds: Seq<Redaction>,
    lines: Seq<Seq<char>>,
    cur_x: int,
    y: int,
    jit: Seq<int>,
    origin_x: int,
    size: u32,
    spacing: int,
    line_spacing: int,
    thickness: u32,
)
    requires
        spans_wf(reds),
        spans_open(reds) ==> reds.last().start.x <= cur_x && reds.last().start.y == y,
        0 <= spacing <= 16384,
        0 <= line_spacing <= 16384,
        lines.len() <= 200_000_000,
        forall|k: int| 0 <= k < lines.len() ==> (#[trigger] lines[k]).len() <= 20_000,
        forall|k: int| 0 <= k < jit.len() ==> -1 <= #[trigger] jit[k] <= 1,
        -0x1_0000_0000 <= origin_x <= 0x1_0000_0000,
        -0x1_0000_0001 <= cur_x <= 0x2_0000_0000,
        -0x100_0000_0000_0000 <= y,
        y + line_spacing * lines.len() <= 0x100_0000_0000_0000,
    ensures
        ({
            let (gs2, reds2) = para_model(
                gs,
                reds,
                lines,
                cur_x,
                y,
                jit,
                origin_x,
                size,
                spacing,
                line_spacing,
                thickness,
            );
            &&& gs2.len() == gs.len() + para_glyphs(lines)
            &&& forall|j: int| 0 <= j < gs.len() ==> gs2[j] == gs[j]
            &&& spans_wf(reds2)
            &&& reds2.len() == reds.len() + para_spans(lines, spans_open(reds))
            &&& forall|j: int|
                0 <= j < reds.len() && (#[trigger] reds[j]).end is Some ==> reds2[j] == reds[j]
            &&& spans_open(reds2) ==> lines.len() == 0 && spans_open(reds)
            &&& forall|j: int|
                reds.len() <= j < reds2.len() ==> (#[trigger] reds2[j]).thickness == thickness
            &&& spans_open(reds) ==> reds2[reds.len() - 1].start == reds[reds.len() - 1].start
                && reds2[reds.len() - 1].thickness == reds[reds.len() - 1].thickness
        }),
    decreases lines.len(),
{
    if lines.len() == 0 {
        assert(para_model(
            gs,
            reds,
            lines,
            cur_x,
            y,
            jit,
            origin_x,
            size,
            spacing,
            line_spacing,
            thickness,
        ) == (gs, reds));
    } else {
        let line = lines[0];
        let open_in = spans_open(reds);
        lemma_glyph_chars_bound(line);
        assert(spacing * glyph_chars(line) <= 16384 * 20_000) by (nonlinear_arith)
            requires
                0 <= spacing <= 16384,
                0 <= glyph_chars(line) <= 20_000,
        ;
        assert(spacing * glyph_chars(line) >= 0) by (nonlinear_arith)
            requires
                0 <= spacing,
                0 <= glyph_chars(line),
        ;
        assert(spacing * (line.len() - 0) <= 16384 * 20_000) by (nonlinear_arith)
            requires
                0 <= spacing <= 16384,
                0 <= line.len() <= 20_000,
        ;
        assert(line_spacing * lines.len() == line_spacing + line_spacing * (lines.len() - 1))
            by (nonlinear_arith);
        assert(line_spacing * (lines.len() - 1) >= 0) by (nonlinear_arith)
            requires
                line_spacing >= 0,
                lines.len() >= 1,
        ;
        lemma_line_model(gs, reds, line, 0, cur_x, y, size, spacing, thickness);
        assert(line.skip(0) =~= line);
        lemma_opens_count_bound(line, 0, open_in);
        let lm = line_model(gs, reds, line, 0, cur_x, y, size, spacing, thickness);
        let end_x = cur_x + spacing * glyph_chars(line);
        let o1 = open_after(line, 0, open_in);
        let j0 = if jit.len() > 0 {
            jit[0]
        } else {
            0
        };
        let jtail = if jit.len() > 0 {
            jit.drop_first()
        } else {
            jit
        };
        let next_x = origin_x + j0;
        let next_y = y + line_spacing;
        let ep = point_at(end_x, y);
        assert(ep.x as int == end_x && ep.y as int == y);
        let reds2 = if spans_open(lm.1) {
            let c = close_last(lm.1, ep);
            if lines.len() > 1 {
                c.push(open_span_at(next_x, next_y, thickness))
            } else {
                c
            }
        } else {
            lm.1
        };
        assert(spans_wf(reds2) && (spans_open(reds2) ==> lines.len() > 1)) by {
            if spans_open(lm.1) {
                let c = close_last(lm.1, ep);
                assert(lm.1.last().start.x <= end_x && lm.1.last().start.y == y);
                assert(spans_wf(c));
                assert(!spans_open(c));
            }
        }
        assert(spans_open(reds2) ==> reds2.last().start.x <= next_x && reds2.last().start.y
            == next_y);
        assert(reds2.len() == reds.len() + opens_count(line, 0, open_in) + (if o1 && lines.len()
            > 1 {
            1int
        } else {
            0int
        }));
        assert forall|k: int| 0 <= k < jtail.len() implies -1 <= #[trigger] jtail[k] <= 1 by {
            assert(jtail[k] == jit[k + 1]);
        }
        assert forall|k: int|
            0 <= k < lines.drop_first().len() implies (#[trigger] lines.drop_first()[k]).len()
            <= 20_000 by {
            assert(lines.drop_first()[k] == lines[k + 1]);
        }
        lemma_para_model(
            lm.0,
            reds2,
            lines.drop_first(),
            next_x,
            next_y,
            jtail,
            origin_x,
            size,
            spacing,
            line_spacing,
            thickness,
        );
        let fin = para_model(
            lm.0,
            reds2,
            lines.drop_first(),
            next_x,
            next_y,
            jtail,
            origin_x,
            size,
            spacing,
            line_spacing,
            thickness,
        );
        assert(para_model(
            gs,
            reds,
            lines,
            cur_x,
            y,
            jit,
            origin_x,
            size,
            spacing,
            line_spacing,
            thickness,
        ) == fin);
        // earlier glyphs survive both the line and the rest of the paragraph
        assert forall|j: int| 0 <= j < gs.len() implies fin.0[j] == gs[j] by {
            assert(lm.0[j] == gs[j]);
        }
        // closed spans survive the line, the line-end step, and the rest
        assert forall|j: int|
            0 <= j < reds.len() && (#[trigger] reds[j]).end is Some implies fin.1[j] == reds[j] by {
            assert(lm.1[j] == reds[j]);
            assert(reds2[j] == lm.1[j]);
            assert(fin.1[j] == reds2[j]);
        }
        // an open span entering the paragraph keeps its start and thickness
        if open_in {
            let j = reds.len() - 1;
            assert(lm.1[j].start == reds[j].start && lm.1[j].thickness == reds[j].thickness);
            if spans_open(lm.1) && j == lm.1.len() - 1 {
                assert(reds2[j].start == lm.1[j].start && reds2[j].thickness == lm.1[j].thickness);
            } else {
                assert(reds2[j].start == lm.1[j].start && reds2[j].thickness == lm.1[j].thickness);
            }
            if reds2[j].end is Some {
                assert(fin.1[j] == reds2[j]);
            } else {
                assert(spans_open(reds2) && j == reds2.len() - 1);
                assert(fin.1[j].start == reds2[j].start && fin.1[j].thickness
                    == reds2[j].thickness);
            }
        }
        // every span index new to this paragraph carries the given thickness
        assert forall|j: int| reds.len() <= j < fin.1.len() implies (#[trigger] fin.1[j]).thickness
            == thickness by {
            if j < reds2.len() {
                if j < lm.1.len() {
                    assert(lm.1[j].thickness == thickness);
                    if spans_open(lm.1) && j == lm.1.len() - 1 {
                        assert(reds2[j].thickness == lm.1[j].thickness);
                    } else {
                        assert(reds2[j] == lm.1[j]);
                    }
                } else {
                    assert(reds2[j].thickness == thickness);
                }
                if reds2[j].end is Some {
                    assert(fin.1[j] == reds2[j]);
                } else {
                    assert(spans_open(reds2) && j == reds2.len() - 1);
                    assert(fin.1[j].thickness == reds2[j].thickness);
                }
            }
        }
    }
}

/// The character sequences of a list of owned lines.
pub open spec fn line_views(lines: Seq<String>) -> Seq<Seq<char>> {
    lines.map_values(|s: String| s@)
}

/// Lay out one paragraph: each wrapped line in order, with the caret
/// starting `ascent` below the paragraph origin, each later line one
/// `line_spacing` further down and jittered horizontally by at most one unit
/// around the origin. Returns this paragraph's redaction spans, every one of
/// them closed; glyphs are appended to `target`.
///
/// The exact output is `para_model` for some jitter sequence drawn from the
/// randomness source; everything except the per-line start offsets is
/// pinned.
pub fn layout_paragraph(
    font: &FontMetrics,
    position: Point,
    lines: &Vec<String>,
    target: &mut Vec<GlyphInstance>,
    cfg: &Config,
    rng: &mut fastrand::Rng,
) -> (reds: Vec<Redaction>)
    requires
        font.wf(),
        cfg.wf(),
        lines@.len() <= 200_000_000,
        forall|k: int| 0 <= k < lines@.len() ==> (#[trigger] lines@[k])@.len() <= 20_000,
        -0x1_0000_0000 <= position.x <= 0x1_0000_0000,
        -0x80_0000_0000_0000 <= position.y <= 0x80_0000_0000_0000,
    ensures
        ({
            let y0 = position.y + scaled(font.ascent as int, cfg.font_size as int);
            let thick = scaled(font.height as int, cfg.font_size as int) as u32;
            &&& exists|jit: Seq<int>|
                {
                    &&& jit.len() == lines@.len()
                    &&& (forall|t: int| 0 <= t < jit.len() ==> -1 <= #[trigger] jit[t] <= 1)
                    &&& (final(target)@, reds@) == para_model(
                        old(target)@,
                        Seq::empty(),
                        line_views(lines@),
                        position.x as int,
                        y0,
                        jit,
                        position.x as int,
                        cfg.font_size,
                        cfg.letter_spacing as int,
                        cfg.line_spacing as int,
                        thick,
                    )
                }
            &&& reds@.len() == para_spans(line_views(lines@), false)
            &&& forall|j: int|
                0 <= j < reds@.len() ==> (#[trigger] reds@[j]).end is Some && reds@[j].start.x
                    <= reds@[j].end->0.x && reds@[j].start.y == reds@[j].end->0.y
                    && reds@[j].thickness == thick
            &&& final(target)@.len() == old(target)@.len() + para_glyphs(line_views(lines@))
            &&& forall|j: int|
                0 <= j < old(target)@.len() ==> final(target)@[j] == old(target)@[j]
        }),
{
    let size = cfg.font_size;
    let spacing = cfg.letter_spacing;
    let ls = cfg.line_spacing;
    let asc = scale_metric(font.ascent, size);
    let thick = scale_metric(font.height, size) as u32;
    let mut reds: Vec<Redaction> = Vec::new();
    let mut cur_x: i64 = position.x;
    let mut cur_y: i64 = position.y + asc as i64;
    let ghost gs0 = target@;
    let ghost y0 = cur_y as int;
    let ghost views = line_views(lines@);
    let ghost mut jdone: Seq<int> = Seq::empty();
    let n = lines.len();
    let mut k: usize = 0;
    proof {
        assert(views.len() == lines@.len());
        assert(views.skip(0) =~= views);
        assert forall|rest: Seq<int>|
            #[trigger] para_model(
                gs0,
                Seq::empty(),
                views,
                position.x as int,
                y0,
                jdone + rest,
                position.x as int,
                size,
                spacing as int,
                ls as int,
                thick,
            ) == para_model(
                target@,
                reds@,
                views.skip(k as int),
                cur_x as int,
                cur_y as int,
                rest,
                position.x as int,
                size,
                spacing as int,
                ls as int,
                thick,
            ) by {
            assert(jdone + rest =~= rest);
        }
    }
    while k < n
        invariant
            0 <= k <= n,
            n == lines@.len(),
            n <= 200_000_000,
            forall|t: int| 0 <= t < lines@.len() ==> (#[trigger] lines@[t])@.len() <= 20_000,
            views == line_views(lines@),
            views.len() == n,
            cfg.wf(),
            size == cfg.font_size,
            spacing == cfg.letter_spacing,
            ls == cfg.line_spacing,
            jdone.len() == k,
            forall|t: int| 0 <= t < jdone.len() ==> -1 <= #[trigger] jdone[t] <= 1,
            -0x1_0000_0000 <= position.x <= 0x1_0000_0000,
            -0x1_0000_0001 <= cur_x <= 0x1_0000_0001,
            -0x81_0000_0000_0000 <= y0 <= 0x81_0000_0000_0000,
            cur_y == y0 + ls * k,
            forall|rest: Seq<int>|
                #[trigger] para_model(
                    gs0,
                    Seq::empty(),
                    views,
                    position.x as int,
                    y0,
                    jdone + rest,
                    position.x as int,
                    size,
                    spacing as int,
                    ls as int,
                    thick,
                ) == para_model(
                    target@,
                    reds@,
                    views.skip(k as int),
                    cur_x as int,
                    cur_y as int,
                    rest,
                    position.x as int,
                    size,
                    spacing as int,
                    ls as int,
                    thick,
                ),
        decreases n - k,
    {
        proof {
            assert(ls * k >= 0) by (nonlinear_arith)
                requires
                    ls >= 0,
                    k >= 0,
            ;
            assert(ls * k <= 16384 * 200_000_000) by (nonlinear_arith)
                requires
                    0 <= ls <= 16384,
                    0 <= k <= 200_000_000,
            ;
            assert(views[k as int] == lines@[k as int]@);
        }
        let line = &lines[k];
        let ghost tgt_before = target@;
        let ghost reds_before = reds@;
        let end_x = layout_line(line.as_str(), cur_x, cur_y, size, spacing, thick, target, &mut reds);
        let j = rng_in_range(rng, -1, 1);
        let next_x = position.x + j;
        let next_y = cur_y + ls as i64;
        let ghost lm = line_model(
            tgt_before,
            reds_before,
            views[k as int],
            0,
            cur_x as int,
            cur_y as int,
            size,
            spacing as int,
            thick,
        );
        let ghost reds_mid = reds@;
        let m = reds.len();
        if m > 0 && reds[m - 1].is_open() {
            let mut last = reds[m - 1];
            last.close(Point { x: end_x, y: cur_y });
            reds.set(m - 1, last);
            proof {
                assert(reds@ =~= close_last(reds_mid, Point { x: end_x, y: cur_y }));
            }
            if k + 1 < n {
                reds.push(Redaction::new(Point { x: next_x, y: next_y }, thick));
            }
        }
        proof {
            let jv = j as int;
            let crest = views.skip(k as int);
            assert(crest[0] == views[k as int]);
            assert(crest.drop_first() =~= views.skip(k + 1));
            let ep = point_at(cur_x + spacing * glyph_chars(views[k as int]), cur_y as int);
            assert(ep == (Point { x: end_x, y: cur_y }));
            let np = point_at(next_x as int, next_y as int);
            assert(np == (Point { x: next_x, y: next_y }));
            assert forall|rest: Seq<int>|
                #[trigger] para_model(
                    gs0,
                    Seq::empty(),
                    views,
                    position.x as int,
                    y0,
                    jdone.push(jv) + rest,
                    position.x as int,
                    size,
                    spacing as int,
                    ls as int,
                    thick,
                ) == para_model(
                    target@,
                    reds@,
                    views.skip(k + 1),
                    next_x as int,
                    next_y as int,
                    rest,
                    position.x as int,
                    size,
                    spacing as int,
                    ls as int,
                    thick,
                ) by {
                let full = seq![jv] + rest;
                assert(jdone.push(jv) + rest =~= jdone + full);
                assert(full[0] == jv);
                assert(full.drop_first() =~= rest);
                assert(para_model(
                    gs0,
                    Seq::empty(),
                    views,
                    position.x as int,
                    y0,
                    jdone + full,
                    position.x as int,
                    size,
                    spacing as int,
                    ls as int,
                    thick,
                ) == para_model(
                    tgt_before,
                    reds_before,
                    crest,
                    cur_x as int,
                    cur_y as int,
                    full,
                    position.x as int,
                    size,
                    spacing as int,
                    ls as int,
                    thick,
                ));
                assert(spans_open(reds_mid) == (m > 0 && reds_mid[m - 1].end is None));
                if spans_open(lm.1) {
                    if k + 1 < n {
                        assert(reds@ =~= close_last(lm.1, ep).push(
                            open_span_at(next_x as int, next_y as int, thick),
                        ));
                    } else {
                        assert(reds@ =~= close_last(lm.1, ep));
                    }
                }
                assert(para_model(
                    tgt_before,
                    reds_before,
                    crest,
                    cur_x as int,
                    cur_y as int,
                    full,
                    position.x as int,
                    size,
                    spacing as int,
                    ls as int,
                    thick,
                ) == para_model(
                    target@,
                    reds@,
                    views.skip(k + 1),
                    next_x as int,
                    next_y as int,
                    rest,
                    position.x as int,
                    size,
                    spacing as int,
                    ls as int,
                    thick,
                ));
            }
            jdone = jdone.push(jv);
            assert(ls * (k + 1) == ls * k + ls) by (nonlinear_arith);
        }
        cur_x = next_x;
        cur_y = next_y;
        k += 1;
    }
    proof {
        assert(views.skip(n as int) =~= Seq::<Seq<char>>::empty());
        let empty_rest = Seq::<int>::empty();
        assert(jdone + empty_rest =~= jdone);
        assert(para_model(
            gs0,
            Seq::empty(),
            views,
            position.x as int,
            y0,
            jdone,
            position.x as int,
            size,
            spacing as int,
            ls as int,
            thick,
        ) == (target@, reds@));
        assert forall|t: int| 0 <= t < views.len() implies (#[trigger] views[t]).len()
            <= 20_000 by {
            assert(views[t] == lines@[t]@);
        }
        assert(ls * views.len() <= 16384 * 200_000_000) by (nonlinear_arith)
            requires
                0 <= ls <= 16384,
                0 <= views.len() <= 200_000_000,
        ;
        assert(ls * views.len() >= 0) by (nonlinear_arith)
            requires
                0 <= ls,
                0 <= views.len(),
        ;
        lemma_para_model(
            gs0,
            Seq::empty(),
            views,
            position.x as int,
            y0,
            jdone,
            position.x as int,
            size,
            spacing as int,
            ls as int,
            thick,
        );
        assert(!spans_open(Seq::<Redaction>::empty()));
        assert(spans_wf(Seq::<Redaction>::empty()));
    }
    reds
}

/// The per-level scale of a heading, in thousandths: level 1 is full size
/// and deeper levels shrink.
pub open spec fn heading_scale_milli(level: u32) -> int {
    if level == 1 {
        1000
    } else if level == 2 {
        850
    } else if level == 3 {
        650
    } else {
        550
    }
}

/// A heading glyph at the given position.
pub open spec fn heading_glyph_at(c: char, size: u32, x: int, y: int) -> GlyphInstance {
    GlyphInstance { ch: c, size: size, pos: point_at(x, y), font_key: FontKey::Heading }
}

/// The kerning adjustment between the previous character, if any, and the
/// current one, at the given font size.
pub open spec fn kern_delta(font: FontMetrics, prev: Option<char>, c: char, size: u32) -> int {
    match prev {
        Some(p) => scaled_signed(kern_entry(font.kerning@, p, c), size as int),
        None => 0,
    }
}

/// The horizontal extent one heading character adds: kerning against the
/// previous character, the side bearing, and the advance stretched by a
/// fifth for a looser heading fit.
pub open spec fn heading_delta(font: FontMetrics, prev: Option<char>, c: char, size: u32) -> int {
    kern_delta(font, prev, c, size) + scaled_signed(advance_entry(font.advances@, c).1, size as int)
        + scaled(advance_entry(font.advances@, c).0, size as int) * 6 / 5
}

/// The measured advance width of heading text from character `i`, with
/// kerning: the sum of each character's heading extent.
pub open spec fn measure_rec(
    font: FontMetrics,
    text: Seq<char>,
    i: int,
    prev: Option<char>,
    size: u32,
) -> int
    decreases text.len() - i,
    when 0 <= i <= text.len()
{
    if i >= text.len() {
        0
    } else {
        heading_delta(font, prev, text[i], size) + measure_rec(font, text, i + 1, Some(text[i]), size)
    }
}

/// Each heading character's extent is bounded for a well-formed font.
pub proof fn lemma_heading_delta_bound(font: FontMetrics, prev: Option<char>, c: char, size: u32)
    requires
        font.wf(),
        size <= 16384,
    ensures
        -0x1_0000_0000 <= heading_delta(font, prev, c, size) <= 0x1_0000_0000,
{
    lemma_advance_entry_bound(font.advances@, c);
    let e = advance_entry(font.advances@, c);
    lemma_scaled_bound(e.0, size as int);
    lemma_scaled_signed_bound(e.1, size as int);
    match prev {
        Some(p) => {
            lemma_kern_entry_bound(font.kerning@, p, c);
            lemma_scaled_signed_bound(kern_entry(font.kerning@, p, c), size as int);
        },
        None => {},
    }
}

/// The measured width is bounded by the text length.
pub proof fn lemma_measure_rec_bound(
    font: FontMetrics,
    text: Seq<char>,
    i: int,
    prev: Option<char>,
    size: u32,
)
    requires
        font.wf(),
        size <= 16384,
        0 <= i <= text.len(),
    ensures
        -(text.len() - i) * 0x1_0000_0000 <= measure_rec(font, text, i, prev, size) <= (text.len()
            - i) * 0x1_0000_0000,
    decreases text.len() - i,
{
    if i < text.len() {
        lemma_heading_delta_bound(font, prev, text[i], size);
        lemma_measure_rec_bound(font, text, i + 1, Some(text[i]), size);
        assert((text.len() - i) * 0x1_0000_0000 == 0x1_0000_0000 + (text.len() - (i + 1))
            * 0x1_0000_0000) by (nonlinear_arith);
    } else {
        assert((text.len() - i) * 0x1_0000_0000 == 0) by (nonlinear_arith)
            requires
                i == text.len(),
        ;
    }
}

/// Measure the advance width of heading text at the given font size,
/// kerning included.
pub fn measure_text_width(font: &FontMetrics, text: &str, size: u32) -> (w: i64)
    requires
        font.wf(),
        size <= 16384,
        text@.len() <= 20_000,
    ensures
        w == measure_rec(*font, text@, 0, None, size),
        -0x2_0000_0000_0000 <= w <= 0x2_0000_0000_0000,
{
    let n = text.unicode_len();
    let mut acc: i64 = 0;
    let mut prev: Option<char> = None;
    let mut i: usize = 0;
    proof {
        lemma_measure_rec_bound(*font, text@, 0, None, size);
        assert(20_000 * 0x1_0000_0000 <= 0x2_0000_0000_0000) by (nonlinear_arith);
    }
    while i < n
        invariant
            0 <= i <= n,
            n == text@.len(),
            n <= 20_000,
            font.wf(),
            size <= 16384,
            -0x1_0000_0000 * i <= acc <= 0x1_0000_0000 * i,
            measure_rec(*font, text@, 0, None, size) == acc + measure_rec(
                *font,
                text@,
                i as int,
                prev,
                size,
            ),
        decreases n - i,
    {
        let c = char_at(text, i);
        proof {
            lemma_heading_delta_bound(*font, prev, c, size);
            assert(0x1_0000_0000 * (i + 1) == 0x1_0000_0000 * i + 0x1_0000_0000)
                by (nonlinear_arith);
            assert(0x1_0000_0000 * i <= 0x1_0000_0000 * 20_000) by (nonlinear_arith)
                requires
                    0 <= i <= 20_000,
            ;
        }
        let kern = match prev {
            Some(p) => {
                proof {
                    lemma_kern_entry_bound(font.kerning@, p, c);
                }
                scale_metric_signed(font.lookup_kern(p, c), size)
            },
            None => 0,
        };
        let (adv, lsb) = font.lookup_advance(c);
        proof {
            lemma_advance_entry_bound(font.advances@, c);
        }
        let lsb_s = scale_metric_signed(lsb, size);
        let adv_s = scale_metric(adv, size);
        let delta = kern + lsb_s + (adv_s * 6 / 5) as i64;
        assert(delta == heading_delta(*font, prev, c, size));
        acc = acc + delta;
        prev = Some(c);
        i += 1;
    }
    acc
}

/// The glyphs of one centered heading line, processed from character `i`
/// with the pen at `x`: each character is kerned against the previous one,
/// shifted by its side bearing, placed, and the pen advances by the
/// stretched advance.
pub open spec fn heading_model(
    font: FontMetrics,
    text: Seq<char>,
    i: int,
    x: int,
    y: int,
    size: u32,
    prev: Option<char>,
    gs: Seq<GlyphInstance>,
) -> Seq<GlyphInstance>
    decreases text.len() - i,
    when 0 <= i <= text.len()
{
    if i >= text.len() {
        gs
    } else {
        let gx = x + kern_delta(font, prev, text[i], size) + scaled_signed(
            advance_entry(font.advances@, text[i]).1,
            size as int,
        );
        heading_model(
            font,
            text,
            i + 1,
            gx + scaled(advance_entry(font.advances@, text[i]).0, size as int) * 6 / 5,
            y,
            size,
            Some(text[i]),
            gs.push(heading_glyph_at(text[i], size, gx, y)),
        )
    }
}

/// The heading model appends one glyph per character and leaves earlier
/// glyphs untouched.
pub proof fn lemma_heading_model(
    font: FontMetrics,
    text: Seq<char>,
    i: int,
    x: int,
    y: int,
    size: u32,
    prev: Option<char>,
    gs: Seq<GlyphInstance>,
)
    requires
        0 <= i <= text.len(),
    ensures
        ({
            let gs2 = heading_model(font, text, i, x, y, size, prev, gs);
            &&& gs2.len() == gs.len() + (text.len() - i)
            &&& forall|j: int| 0 <= j < gs.len() ==> gs2[j] == gs[j]
        }),
    decreases text.len() - i,
{
    if i < text.len() {
        let gx = x + kern_delta(font, prev, text[i], size) + scaled_signed(
            advance_entry(font.advances@, text[i]).1,
            size as int,
        );
        let gs1 = gs.push(heading_glyph_at(text[i], size, gx, y));
        lemma_heading_model(
            font,
            text,
            i + 1,
            gx + scaled(advance_entry(font.advances@, text[i]).0, size as int) * 6 / 5,
            y,
            size,
            Some(text[i]),
            gs1,
        );
        let gs2 = heading_model(font, text, i, x, y, size, prev, gs);
        assert forall|j: int| 0 <= j < gs.len() implies gs2[j] == gs[j] by {
            assert(gs1[j] == gs[j]);
        }
    }
}

/// Half of a width, rounding toward zero.
pub open spec fn half_toward_zero(t: int) -> int {
    if t >= 0 {
        t / 2
    } else {
        -((-t) / 2)
    }
}

/// The font size of a heading at the given level.
pub open spec fn heading_size_at(cfg: Config, level: u32) -> u32 {
    scaled(cfg.heading_size as int, heading_scale_milli(level)) as u32
}

/// The pen x position where a centered heading starts: half the page width
/// less half the measured text width.
pub open spec fn heading_start_x(font: FontMetrics, cfg: Config, text: Seq<char>, level: u32) -> int {
    cfg.page_width as int / 2 - half_toward_zero(
        measure_rec(font, text, 0, None, heading_size_at(cfg, level)),
    )
}

/// Lay out one heading line, horizontally centered on the page with the
/// baseline at `cursor_y`. The font size is the configured heading size
/// scaled by the level. Returns the cursor moved below the line: the scaled
/// line height plus the configured line gap.
pub fn layout_heading(
    font: &FontMetrics,
    text: &str,
    level: u32,
    cfg: &Config,
    cursor_y: i64,
    target: &mut Vec<GlyphInstance>,
) -> (new_y: i64)
    requires
        font.wf(),
        cfg.wf(),
        text@.len() <= 20_000,
        -0x80_0000_0000_0000 <= cursor_y <= 0x80_0000_0000_0000,
    ensures
        final(target)@ == heading_model(
            *font,
            text@,
            0,
            heading_start_x(*font, *cfg, text@, level),
            cursor_y as int,
            heading_size_at(*cfg, level),
            None,
            old(target)@,
        ),
        final(target)@.len() == old(target)@.len() + text@.len(),
        forall|j: int| 0 <= j < old(target)@.len() ==> final(target)@[j] == old(target)@[j],
        new_y == cursor_y + heading_size_at(*cfg, level) + cfg.line_spacing,
{
    let scale_milli: u32 = if level == 1 {
        1000
    } else if level == 2 {
        850
    } else if level == 3 {
        650
    } else {
        550
    };
    proof {
        lemma_scaled_bound(cfg.heading_size as int, scale_milli as int);
        assert(cfg.heading_size * scale_milli <= 16384 * 1000) by (nonlinear_arith)
            requires
                0 <= cfg.heading_size <= 16384,
                0 <= scale_milli <= 1000,
        ;
    }
    let size = scale_metric(cfg.heading_size, scale_milli) as u32;
    assert(size == heading_size_at(*cfg, level));
    assert(size <= 16384);
    let total_w = measure_text_width(font, text, size);
    let half = if total_w >= 0 {
        total_w / 2
    } else {
        -((-total_w) / 2)
    };
    assert(half == half_toward_zero(measure_rec(*font, text@, 0, None, size)));
    let mut x: i64 = (cfg.page_width / 2) as i64 - half;
    let ghost x0 = x as int;
    assert(x0 == heading_start_x(*font, *cfg, text@, level));
    let n = text.unicode_len();
    let mut prev: Option<char> = None;
    let mut i: usize = 0;
    proof {
        lemma_heading_model(*font, text@, 0, x0, cursor_y as int, size, None, target@);
        lemma_measure_rec_bound(*font, text@, 0, None, size);
        assert(text@.len() * 0x1_0000_0000 <= 20_000 * 0x1_0000_0000) by (nonlinear_arith)
            requires
                0 <= text@.len() <= 20_000,
        ;
    }
    while i < n
        invariant
            0 <= i <= n,
            n == text@.len(),
            n <= 20_000,
            font.wf(),
            size <= 16384,
            -0x80_0000_0000_0000 <= cursor_y <= 0x80_0000_0000_0000,
            -0x3_0000_0000_0000 <= x0 <= 0x3_0000_0000_0000,
            x == x0 + measure_rec(*font, text@, 0, None, size) - measure_rec(
                *font,
                text@,
                i as int,
                prev,
                size,
            ),
            heading_model(*font, text@, 0, x0, cursor_y as int, size, None, old(target)@)
                == heading_model(
                *font,
                text@,
                i as int,
                x as int,
                cursor_y as int,
                size,
                prev,
                target@,
            ),
        decreases n - i,
    {
        let c = char_at(text, i);
        proof {
            lemma_heading_delta_bound(*font, prev, c, size);
            lemma_advance_entry_bound(font.advances@, c);
            lemma_measure_rec_bound(*font, text@, 0, None, size);
            lemma_measure_rec_bound(*font, text@, i as int, prev, size);
            lemma_measure_rec_bound(*font, text@, i + 1, Some(c), size);
            assert((text@.len() - i) * 0x1_0000_0000 <= 20_000 * 0x1_0000_0000)
                by (nonlinear_arith)
                requires
                    0 <= text@.len() - i <= 20_000,
            ;
            assert((text@.len() - (i + 1)) * 0x1_0000_0000 <= 20_000 * 0x1_0000_0000)
                by (nonlinear_arith)
                requires
                    0 <= text@.len() - (i + 1) <= 20_000,
            ;
            assert(text@.len() * 0x1_0000_0000 <= 20_000 * 0x1_0000_0000) by (nonlinear_arith)
                requires
                    0 <= text@.len() <= 20_000,
            ;
        }
        let kern = match prev {
            Some(p) => {
                proof {
                    lemma_kern_entry_bound(font.kerning@, p, c);
                }
                scale_metric_signed(font.lookup_kern(p, c), size)
            },
            None => 0,
        };
        let (adv, lsb) = font.lookup_advance(c);
        let lsb_s = scale_metric_signed(lsb, size);
        let adv_s = scale_metric(adv, size);
        let gx = x + kern + lsb_s;
        target.push(GlyphInstance { ch: c, size: size, pos: Point { x: gx, y: cursor_y }, font_key: FontKey::Heading });
        proof {
            assert(point_at(gx as int, cursor_y as int) == (Point { x: gx, y: cursor_y }));
        }
        proof {
            assert(kern + lsb_s + (adv_s * 6 / 5) == heading_delta(*font, prev, c, size));
        }
        x = gx + (adv_s * 6 / 5) as i64;
        prev = Some(c);
        i += 1;
    }
    proof {
        lemma_heading_model(
            *font,
            text@,
            0,
            x0,
            cursor_y as int,
            size,
            None,
            old(target)@,
        );
    }
    cursor_y + size as i64 + cfg.line_spacing as i64
}

/// The length of a block's text.
pub open spec fn block_len(b: Block) -> int {
    match b {
        Block::Heading { level, text } => text@.len() as int,
        Block::Paragraph(text) => text@.len() as int,
        Block::Stamp(text) => text@.len() as int,
    }
}

/// The final wrapped lines of a paragraph's text under a configuration: the
/// outside proposal re-broken to fit.
pub open spec fn para_lines(text: Seq<char>, cfg: Config) -> Seq<Seq<char>> {
    crate::wrap::flat_rebreak(
        crate::outside::wrap_of(text, cfg.spec_wrap_width(), ("    ")@),
        cfg.spec_wrap_width(),
    )
}

/// How many redaction spans one block yields: paragraphs count their
/// marker-delimited runs per wrapped line; headings and stamps none.
pub open spec fn block_spans(b: Block, cfg: Config) -> int {
    match b {
        Block::Paragraph(text) => para_spans(para_lines(text@, cfg), false),
        _ => 0,
    }
}

/// How many glyphs one block yields: headings one per character, paragraphs
/// one per non-marker character of their wrapped lines, stamps none.
pub open spec fn block_glyphs(b: Block, cfg: Config) -> int {
    match b {
        Block::Heading { level, text } => text@.len() as int,
        Block::Paragraph(text) => para_glyphs(para_lines(text@, cfg)),
        Block::Stamp(_) => 0,
    }
}

/// Total spans over a block sequence.
pub open spec fn total_spans(blocks: Seq<Block>, cfg: Config) -> int
    decreases blocks.len(),
{
    if blocks.len() == 0 {
        0
    } else {
        total_spans(blocks.drop_last(), cfg) + block_spans(blocks.last(), cfg)
    }
}

/// Total glyphs over a block sequence.
pub open spec fn total_glyphs(blocks: Seq<Block>, cfg: Config) -> int
    decreases blocks.len(),
{
    if blocks.len() == 0 {
        0
    } else {
        total_glyphs(blocks.drop_last(), cfg) + block_glyphs(blocks.last(), cfg)
    }
}


/// What one block does to the layout state, given that block's jitter
/// sequence (headings and stamps ignore it): the glyphs and spans after the
/// block, and the new cursor position.
pub open spec fn block_step(
    b: Block,
    gs: Seq<GlyphInstance>,
    reds: Seq<Redaction>,
    cursor_y: int,
    jit: Seq<int>,
    fonts: FontTable,
    cfg: Config,
) -> (Seq<GlyphInstance>, Seq<Redaction>, int) {
    match b {
        Block::Heading { level, text } => {
            let size = heading_size_at(cfg, level);
            let gs1 = heading_model(
                fonts.heading,
                text@,
                0,
                heading_start_x(fonts.heading, cfg, text@, level),
                cursor_y,
                size,
                None,
                gs,
            );
            (gs1, reds, cursor_y + size + cfg.line_spacing)
        },
        Block::Paragraph(text) => {
            let lines = para_lines(text@, cfg);
            let y0 = cursor_y + scaled(fonts.body.ascent as int, cfg.font_size as int);
            let thick = scaled(fonts.body.height as int, cfg.font_size as int) as u32;
            let pm = para_model(
                gs,
                Seq::empty(),
                lines,
                cfg.margin_left as int,
                y0,
                jit,
                cfg.margin_left as int,
                cfg.font_size,
                cfg.letter_spacing as int,
                cfg.line_spacing as int,
                thick,
            );
            (pm.0, reds + pm.1, y0 + cfg.line_spacing * lines.len())
        },
        Block::Stamp(text) => (gs, reds, cursor_y + cfg.stamp_size),
    }
}

/// The layout of a whole document, given one jitter sequence per block:
/// headings are centered at their level's scale and advance the cursor by
/// the scaled line height plus the line gap; paragraphs are wrapped into
/// their final lines, laid out from the left margin one ascent below the
/// cursor, and advance the cursor past their last line; stamps only advance
/// the cursor by the stamp line height.
pub open spec fn blocks_model(
    gs: Seq<GlyphInstance>,
    reds: Seq<Redaction>,
    blocks: Seq<Block>,
    cursor_y: int,
    jits: Seq<Seq<int>>,
    fonts: FontTable,
    cfg: Config,
) -> (Seq<GlyphInstance>, Seq<Redaction>)
    decreases blocks.len(),
{
    if blocks.len() == 0 {
        (gs, reds)
    } else {
        let j0: Seq<int> = if jits.len() > 0 {
            jits[0]
        } else {
            Seq::empty()
        };
        let jtail = if jits.len() > 0 {
            jits.drop_first()
        } else {
            jits
        };
        let st = block_step(blocks[0], gs, reds, cursor_y, j0, fonts, cfg);
        blocks_model(st.0, st.1, blocks.drop_first(), st.2, jtail, fonts, cfg)
    }
}

/// One laid-out block carries the document model one step forward.
proof fn lemma_blocks_chain(
    blocks: Seq<Block>,
    k: int,
    y_init: int,
    jdone: Seq<Seq<int>>,
    jnew: Seq<int>,
    insts0: Seq<GlyphInstance>,
    reds0: Seq<Redaction>,
    insts1: Seq<GlyphInstance>,
    reds1: Seq<Redaction>,
    y0: int,
    y1: int,
    fonts: FontTable,
    cfg: Config,
)
    requires
        0 <= k < blocks.len(),
        jdone.len() == k,
        (insts1, reds1, y1) == block_step(blocks[k], insts0, reds0, y0, jnew, fonts, cfg),
        forall|rest: Seq<Seq<int>>|
            #[trigger] blocks_model(
                Seq::empty(),
                Seq::empty(),
                blocks,
                y_init,
                jdone + rest,
                fonts,
                cfg,
            ) == blocks_model(insts0, reds0, blocks.skip(k), y0, rest, fonts, cfg),
    ensures
        forall|rest: Seq<Seq<int>>|
            #[trigger] blocks_model(
                Seq::empty(),
                Seq::empty(),
                blocks,
                y_init,
                jdone.push(jnew) + rest,
                fonts,
                cfg,
            ) == blocks_model(insts1, reds1, blocks.skip(k + 1), y1, rest, fonts, cfg),
{
    assert forall|rest: Seq<Seq<int>>|
        #[trigger] blocks_model(
            Seq::empty(),
            Seq::empty(),
            blocks,
            y_init,
            jdone.push(jnew) + rest,
            fonts,
            cfg,
        ) == blocks_model(insts1, reds1, blocks.skip(k + 1), y1, rest, fonts, cfg) by {
        let full = seq![jnew] + rest;
        assert(jdone.push(jnew) + rest =~= jdone + full);
        assert(blocks_model(Seq::empty(), Seq::empty(), blocks, y_init, jdone + full, fonts, cfg)
            == blocks_model(insts0, reds0, blocks.skip(k), y0, full, fonts, cfg));
        assert(blocks.skip(k).len() == blocks.len() - k);
        assert(blocks.skip(k)[0] == blocks[k]);
        assert(blocks.skip(k).drop_first() =~= blocks.skip(k + 1));
        assert(full[0] == jnew);
        assert(full.drop_first() =~= rest);
        assert(blocks_model(insts0, reds0, blocks.skip(k), y0, full, fonts, cfg) == blocks_model(
            insts1,
            reds1,
            blocks.skip(k + 1),
            y1,
            rest,
            fonts,
            cfg,
        ));
    }
}

/// Lay out and position glyphs for each block of the document.
///
/// Headings are centered at their level's scale; paragraphs are wrapped,
/// laid out with fixed letter spacing, and tracked by the redaction span
/// machine; stamps advance the cursor by the stamp line height without
/// emitting glyphs. The exact output is `blocks_model` for some per-block
/// jitter sequences drawn from the randomness source; in addition, every
/// returned redaction span is closed and runs rightward on a single
/// baseline, and the counts of glyphs and spans match the blocks exactly.
pub fn layout_blocks(
    blocks: &Vec<Block>,
    fonts: &FontTable,
    cfg: &Config,
    rng: &mut fastrand::Rng,
) -> (r: (Vec<GlyphInstance>, Vec<Redaction>))
    requires
        cfg.wf(),
        fonts.wf(),
        blocks@.len() <= 10_000,
        forall|k: int| 0 <= k < blocks@.len() ==> block_len(#[trigger] blocks@[k]) <= 10_000,
    ensures
        exists|jits: Seq<Seq<int>>|
            {
                &&& jits.len() == blocks@.len()
                &&& (forall|a: int, b: int|
                    0 <= a < jits.len() && 0 <= b < jits[a].len() ==> -1 <= #[trigger] jits[a][b]
                        <= 1)
                &&& (r.0@, r.1@) == blocks_model(
                    Seq::empty(),
                    Seq::empty(),
                    blocks@,
                    cfg.margin_top as int,
                    jits,
                    *fonts,
                    *cfg,
                )
            },
        r.0@.len() == total_glyphs(blocks@, *cfg),
        r.1@.len() == total_spans(blocks@, *cfg),
        forall|j: int|
            0 <= j < r.1@.len() ==> (#[trigger] r.1@[j]).end is Some && r.1@[j].start.x
                <= r.1@[j].end->0.x && r.1@[j].start.y == r.1@[j].end->0.y,
        blocks@.len() == 0 ==> r.0@.len() == 0 && r.1@.len() == 0,
{
    let mut instances: Vec<GlyphInstance> = Vec::new();
    let mut redactions: Vec<Redaction> = Vec::new();
    let mut cursor_y: i64 = cfg.margin_top as i64;
    let n = blocks.len();
    let mut k: usize = 0;
    let ghost mut jdone: Seq<Seq<int>> = Seq::empty();
    proof {
        assert(blocks@.take(0) =~= Seq::<Block>::empty());
        assert(blocks@.skip(0) =~= blocks@);
        assert forall|rest: Seq<Seq<int>>|
            #[trigger] blocks_model(
                Seq::empty(),
                Seq::empty(),
                blocks@,
                cfg.margin_top as int,
                jdone + rest,
                *fonts,
                *cfg,
            ) == blocks_model(
                instances@,
                redactions@,
                blocks@.skip(k as int),
                cursor_y as int,
                rest,
                *fonts,
                *cfg,
            ) by {
            assert(jdone + rest =~= rest);
        }
    }
    while k < n
        invariant
            0 <= k <= n,
            n == blocks@.len(),
            n <= 10_000,
            cfg.wf(),
            fonts.wf(),
            forall|t: int| 0 <= t < blocks@.len() ==> block_len(#[trigger] blocks@[t]) <= 10_000,
            instances@.len() == total_glyphs(blocks@.take(k as int), *cfg),
            redactions@.len() == total_spans(blocks@.take(k as int), *cfg),
            forall|j: int|
                0 <= j < redactions@.len() ==> (#[trigger] redactions@[j]).end is Some
                    && redactions@[j].start.x <= redactions@[j].end->0.x
                    && redactions@[j].start.y == redactions@[j].end->0.y,
            0 <= cursor_y,
            cursor_y <= 0x4000 + (k as int) * 0x200_0000_0000,
            jdone.len() == k,
            forall|a: int, b: int|
                0 <= a < jdone.len() && 0 <= b < jdone[a].len() ==> -1 <= #[trigger] jdone[a][b]
                    <= 1,
            forall|rest: Seq<Seq<int>>|
                #[trigger] blocks_model(
                    Seq::empty(),
                    Seq::empty(),
                    blocks@,
                    cfg.margin_top as int,
                    jdone + rest,
                    *fonts,
                    *cfg,
                ) == blocks_model(
                    instances@,
                    redactions@,
                    blocks@.skip(k as int),
                    cursor_y as int,
                    rest,
                    *fonts,
                    *cfg,
                ),
        decreases n - k,
    {
        let ghost insts0 = instances@;
        let ghost reds0 = redactions@;
        let ghost y_before = cursor_y as int;
        proof {
            assert(blocks@.take(k + 1).drop_last() =~= blocks@.take(k as int));
            assert(blocks@.take(k + 1).last() == blocks@[k as int]);
            assert((k as int) * 0x200_0000_0000 <= 10_000 * 0x200_0000_0000)
                by (nonlinear_arith)
                requires
                    0 <= k <= 10_000,
            ;
            assert(((k + 1) as int) * 0x200_0000_0000 == (k as int) * 0x200_0000_0000
                + 0x200_0000_0000) by (nonlinear_arith);
        }
        match &blocks[k] {
            Block::Heading { level, text } => {
                cursor_y = layout_heading(
                    &fonts.heading,
                    text.as_str(),
                    *level,
                    cfg,
                    cursor_y,
                    &mut instances,
                );
                proof {
                    assert(blocks@[k as int] == (Block::Heading { level: *level, text: *text }));
                    assert((instances@, redactions@, cursor_y as int) == block_step(
                        blocks@[k as int],
                        insts0,
                        reds0,
                        y_before,
                        Seq::<int>::empty(),
                        *fonts,
                        *cfg,
                    ));
                    lemma_blocks_chain(
                        blocks@,
                        k as int,
                        cfg.margin_top as int,
                        jdone,
                        Seq::empty(),
                        insts0,
                        reds0,
                        instances@,
                        redactions@,
                        y_before,
                        cursor_y as int,
                        *fonts,
                        *cfg,
                    );
                    jdone = jdone.push(Seq::empty());
                }
            },
            Block::Paragraph(text) => {
                let lines = crate::wrap::wrap_paragraph(text.as_str(), cfg);
                proof {
                    let fin = para_lines(text@, *cfg);
                    assert(line_views(lines@) =~= fin);
                    assert((text@.len() + 1) * (text@.len() + 5) <= 10_001 * 10_005)
                        by (nonlinear_arith)
                        requires
                            0 <= text@.len() <= 10_000,
                    ;
                    assert forall|t: int|
                        0 <= t < lines@.len() implies (#[trigger] lines@[t])@.len()
                        <= 20_000 by {}
                }
                let pos = Point { x: cfg.margin_left as i64, y: cursor_y };
                let mut new_reds = layout_paragraph(
                    &fonts.body,
                    pos,
                    &lines,
                    &mut instances,
                    cfg,
                    rng,
                );
                let ghost reds_old = redactions@;
                let ghost new_views = new_reds@;
                redactions.append(&mut new_reds);
                proof {
                    assert forall|j: int|
                        0 <= j < redactions@.len() implies (#[trigger] redactions@[j]).end
                        is Some && redactions@[j].start.x <= redactions@[j].end->0.x
                        && redactions@[j].start.y == redactions@[j].end->0.y by {
                        if j < reds_old.len() {
                            assert(redactions@[j] == reds_old[j]);
                        } else {
                            assert(redactions@[j] == new_views[j - reds_old.len()]);
                        }
                    }
                }
                let asc = scale_metric(fonts.body.ascent, cfg.font_size);
                let nl = lines.len();
                proof {
                    assert(nl <= 10_001 * 10_005);
                    assert((cfg.line_spacing as int) * (nl as int) <= 16384 * (10_001 * 10_005))
                        by (nonlinear_arith)
                        requires
                            0 <= cfg.line_spacing <= 16384,
                            0 <= nl <= 10_001 * 10_005,
                    ;
                    assert((cfg.line_spacing as int) * (nl as int) >= 0) by (nonlinear_arith)
                        requires
                            0 <= cfg.line_spacing,
                            0 <= nl,
                    ;
                }
                cursor_y = cursor_y + asc as i64 + (cfg.line_spacing as i64) * (nl as i64);
                proof {
                    let y0p = pos.y + scaled(fonts.body.ascent as int, cfg.font_size as int);
                    let thickp = scaled(fonts.body.height as int, cfg.font_size as int) as u32;
                    let jit_w = choose|jit: Seq<int>|
                        {
                            &&& jit.len() == lines@.len()
                            &&& (forall|t: int| 0 <= t < jit.len() ==> -1 <= #[trigger] jit[t] <= 1)
                            &&& (instances@, new_views) == para_model(
                                insts0,
                                Seq::empty(),
                                line_views(lines@),
                                pos.x as int,
                                y0p,
                                jit,
                                pos.x as int,
                                cfg.font_size,
                                cfg.letter_spacing as int,
                                cfg.line_spacing as int,
                                thickp,
                            )
                        };
                    assert(blocks@[k as int] == Block::Paragraph(*text));
                    assert(line_views(lines@) == para_lines(text@, *cfg));
                    assert(pos.x as int == cfg.margin_left as int);
                    assert(pos.y == y_before);
                    assert(redactions@ =~= reds0 + new_views);
                    assert((instances@, redactions@, cursor_y as int) == block_step(
                        blocks@[k as int],
                        insts0,
                        reds0,
                        y_before,
                        jit_w,
                        *fonts,
                        *cfg,
                    ));
                    lemma_blocks_chain(
                        blocks@,
                        k as int,
                        cfg.margin_top as int,
                        jdone,
                        jit_w,
                        insts0,
                        reds0,
                        instances@,
                        redactions@,
                        y_before,
                        cursor_y as int,
                        *fonts,
                        *cfg,
                    );
                    jdone = jdone.push(jit_w);
                }
            },
            Block::Stamp(text) => {
                cursor_y = cursor_y + cfg.stamp_size as i64;
                proof {
                    assert(blocks@[k as int] == Block::Stamp(*text));
                    assert((instances@, redactions@, cursor_y as int) == block_step(
                        blocks@[k as int],
                        insts0,
                        reds0,
                        y_before,
                        Seq::<int>::empty(),
                        *fonts,
                        *cfg,
                    ));
                    lemma_blocks_chain(
                        blocks@,
                        k as int,
                        cfg.margin_top as int,
                        jdone,
                        Seq::empty(),
                        insts0,
                        reds0,
                        instances@,
                        redactions@,
                        y_before,
                        cursor_y as int,
                        *fonts,
                        *cfg,
                    );
                    jdone = jdone.push(Seq::empty());
                }
            },
        }
        k += 1;
    }
    proof {
        assert(blocks@.take(n as int) =~= blocks@);
        assert(blocks@.skip(n as int) =~= Seq::<Block>::empty());
        let empty_rest = Seq::<Seq<int>>::empty();
        assert(jdone + empty_rest =~= jdone);
        assert(blocks_model(
            Seq::empty(),
            Seq::empty(),
            blocks@,
            cfg.margin_top as int,
            jdone,
            *fonts,
            *cfg,
        ) == (instances@, redactions@));
    }
    (instances, redactions)
}

/// The number of reserved marker codepoints in a line from character `i`.
pub open spec fn markers_from(line: Seq<char>, i: int) -> int
    decreases line.len() - i,
    when 0 <= i <= line.len()
{
    if i >= line.len() {
        0
    } else {
        (if line[i] == redaction_codepoint() {
            1int
        } else {
            0int
        }) + markers_from(line, i + 1)
    }
}

/// How the span machine relates to the marker count of a line: entering
/// closed it opens one span per started pair of markers, entering open it
/// opens one per completed pair, and it ends open exactly when the marker
/// count entering closed is odd.
pub proof fn lemma_line_opens(line: Seq<char>, i: int)
    requires
        0 <= i <= line.len(),
    ensures
        opens_count(line, i, false) == (markers_from(line, i) + 1) / 2,
        opens_count(line, i, true) == markers_from(line, i) / 2,
        open_after(line, i, false) == (markers_from(line, i) % 2 == 1),
        open_after(line, i, true) == (markers_from(line, i) % 2 == 0),
    decreases line.len() - i,
{
    if i < line.len() {
        lemma_line_opens(line, i + 1);
    }
}

/// The total marker count over a paragraph's lines.
pub open spec fn sum_markers(lines: Seq<Seq<char>>) -> int
    decreases lines.len(),
{
    if lines.len() == 0 {
        0
    } else {
        markers_from(lines[0], 0) + sum_markers(lines.drop_first())
    }
}

/// The span-count law: a paragraph whose redacted runs each close on the
/// line where they open — every line holds an even number of markers —
/// yields exactly one redaction span per marker pair, with no span carried
/// across a line break.
pub proof fn lemma_para_spans_even(lines: Seq<Seq<char>>)
    requires
        forall|k: int| 0 <= k < lines.len() ==> markers_from(#[trigger] lines[k], 0) % 2 == 0,
    ensures
        para_spans(lines, false) == sum_markers(lines) / 2,
    decreases lines.len(),
{
    if lines.len() > 0 {
        let m0 = markers_from(lines[0], 0);
        lemma_line_opens(lines[0], 0);
        assert(m0 % 2 == 0);
        assert((m0 + 1) / 2 == m0 / 2);
        assert(!open_after(lines[0], 0, false));
        assert forall|k: int|
            0 <= k < lines.drop_first().len() implies markers_from(
            #[trigger] lines.drop_first()[k],
            0,
        ) % 2 == 0 by {
            assert(lines.drop_first()[k] == lines[k + 1]);
        }
        lemma_para_spans_even(lines.drop_first());
        let rest = sum_markers(lines.drop_first());
        lemma_sum_markers_even(lines.drop_first());
        assert((m0 + rest) / 2 == m0 / 2 + rest / 2) by (nonlinear_arith)
            requires
                m0 % 2 == 0,
                rest % 2 == 0,
        ;
    }
}

/// The sum of even per-line marker counts is even.
pub proof fn lemma_sum_markers_even(lines: Seq<Seq<char>>)
    requires
        forall|k: int| 0 <= k < lines.len() ==> markers_from(#[trigger] lines[k], 0) % 2 == 0,
    ensures
        sum_markers(lines) % 2 == 0,
    decreases lines.len(),
{
    if lines.len() > 0 {
        assert forall|k: int|
            0 <= k < lines.drop_first().len() implies markers_from(
            #[trigger] lines.drop_first()[k],
            0,
        ) % 2 == 0 by {
            assert(lines.drop_first()[k] == lines[k + 1]);
        }
        lemma_sum_markers_even(lines.drop_first());
        let m0 = markers_from(lines[0], 0);
        let rest = sum_markers(lines.drop_first());
        assert((m0 + rest) % 2 == 0) by (nonlinear_arith)
            requires
                m0 % 2 == 0,
                rest % 2 == 0,
        ;
    }
}

/// The line-width law: a wrapped line that fits the wrap width in
/// characters is never drawn wider than the text body, because each of its
/// glyph-producing characters advances the caret by exactly the letter
/// spacing.
pub proof fn lemma_wrapped_line_fits(line: Seq<char>, cfg: Config)
    requires
        cfg.wf(),
        line.len() <= cfg.spec_wrap_width(),
    ensures
        glyph_chars(line) * cfg.letter_spacing <= cfg.spec_body_width(),
{
    lemma_glyph_chars_bound(line);
    let w = cfg.spec_wrap_width();
    let sp = cfg.letter_spacing as int;
    let body = cfg.spec_body_width();
    assert(glyph_chars(line) * sp <= w * sp) by (nonlinear_arith)
        requires
            0 <= glyph_chars(line) <= w,
            sp >= 0,
    ;
    assert(w * sp <= body) by (nonlinear_arith)
        requires
            w == body / sp,
            sp >= 1,
            body >= 0,
    ;
}

} // verus!
