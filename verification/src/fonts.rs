//! Integer font metrics. A font handle is modeled as a table of per-glyph
//! base metrics measured at a reference size of 1000 units per em; a metric
//! at a given font size is the base value scaled by `size / 1000`. The table
//! is built outside the library by querying a real font once per character.

use vstd::prelude::*;

verus! {

/// Base horizontal metrics of one glyph at the reference size.
#[derive(Debug, Clone, Copy)]
pub struct GlyphAdvance {
    /// The character this entry describes.
    pub ch: char,
    /// Horizontal advance at the reference size.
    pub advance: u32,
    /// Left side bearing at the reference size.
    pub side_bearing: i32,
}

/// Base kerning between an ordered pair of characters at the reference size.
#[derive(Debug, Clone, Copy)]
pub struct KernPair {
    /// Left character of the pair.
    pub left: char,
    /// Right character of the pair.
    pub right: char,
    /// Kerning adjustment at the reference size; usually negative.
    pub kern: i32,
}

/// Metrics of one font: vertical extents plus per-glyph advance and kerning
/// tables, all at the reference size of 1000 units per em.
#[derive(Debug, Clone)]
pub struct FontMetrics {
    /// Distance from the baseline to the top of the tallest glyph.
    pub ascent: u32,
    /// Line height of the font.
    pub height: u32,
    /// Per-glyph advance entries; the first entry for a character wins.
    pub advances: Vec<GlyphAdvance>,
    /// Kerning entries; the first entry for an ordered pair wins.
    pub kerning: Vec<KernPair>,
}

/// The three font roles of a document.
#[derive(Debug, Clone)]
pub struct FontTable {
    /// Font for paragraph text.
    pub body: FontMetrics,
    /// Font for headings.
    pub heading: FontMetrics,
    /// Font for stamps.
    pub stamp: FontMetrics,
}

impl FontMetrics {
    /// Bounded base metrics, so that every scaled metric fits comfortably in
    /// 64-bit arithmetic.
    pub open spec fn wf(self) -> bool {
        &&& self.ascent <= 65536
        &&& self.height <= 65536
        &&& forall|i: int|
            0 <= i < self.advances@.len() ==> (#[trigger] self.advances@[i]).advance <= 65536
                && -65536 <= self.advances@[i].side_bearing <= 65536
        &&& forall|i: int|
            0 <= i < self.kerning@.len() ==> -65536 <= (#[trigger] self.kerning@[i]).kern <= 65536
    }
}

impl FontTable {
    /// All three fonts are well formed.
    pub open spec fn wf(self) -> bool {
        self.body.wf() && self.heading.wf() && self.stamp.wf()
    }
}

/// A base value scaled to a font size: `base * size / 1000`.
pub open spec fn scaled(base: int, size: int) -> int {
    base * size / 1000
}

/// A signed base value scaled to a font size, rounding toward zero.
pub open spec fn scaled_signed(base: int, size: int) -> int {
    if base >= 0 {
        scaled(base, size)
    } else {
        -scaled(-base, size)
    }
}

/// A scaled non-negative metric keeps its bound.
pub proof fn lemma_scaled_bound(base: int, size: int)
    requires
        0 <= base <= 65536,
        0 <= size <= 16384,
    ensures
        0 <= scaled(base, size) <= 0x4000_0000,
{
    assert(base * size <= 65536 * 16384) by (nonlinear_arith)
        requires
            0 <= base <= 65536,
            0 <= size <= 16384,
    ;
    assert(base * size >= 0) by (nonlinear_arith)
        requires
            0 <= base,
            0 <= size,
    ;
}

/// A scaled signed metric keeps its magnitude bound.
pub proof fn lemma_scaled_signed_bound(base: int, size: int)
    requires
        -65536 <= base <= 65536,
        0 <= size <= 16384,
    ensures
        -0x4000_0000 <= scaled_signed(base, size) <= 0x4000_0000,
{
    if base >= 0 {
        lemma_scaled_bound(base, size);
    } else {
        lemma_scaled_bound(-base, size);
    }
}

/// The first advance entry for `ch`, or zero advance if none exists (an
/// unmapped character draws nothing but the caret logic still sees it).
pub open spec fn advance_entry(entries: Seq<GlyphAdvance>, ch: char) -> (r: (int, int))
    decreases entries.len(),
{
    if entries.len() == 0 {
        (0, 0)
    } else if entries[0].ch == ch {
        (entries[0].advance as int, entries[0].side_bearing as int)
    } else {
        advance_entry(entries.drop_first(), ch)
    }
}

/// The first kerning entry for the pair, or zero if none exists.
pub open spec fn kern_entry(entries: Seq<KernPair>, left: char, right: char) -> int
    decreases entries.len(),
{
    if entries.len() == 0 {
        0
    } else if entries[0].left == left && entries[0].right == right {
        entries[0].kern as int
    } else {
        kern_entry(entries.drop_first(), left, right)
    }
}

/// The advance entry is bounded for a well-formed font.
pub proof fn lemma_advance_entry_bound(entries: Seq<GlyphAdvance>, ch: char)
    requires
        forall|i: int|
            0 <= i < entries.len() ==> (#[trigger] entries[i]).advance <= 65536 && -65536
                <= entries[i].side_bearing <= 65536,
    ensures
        0 <= advance_entry(entries, ch).0 <= 65536,
        -65536 <= advance_entry(entries, ch).1 <= 65536,
    decreases entries.len(),
{
    if entries.len() > 0 && entries[0].ch != ch {
        assert(forall|i: int|
            0 <= i < entries.drop_first().len() ==> #[trigger] entries.drop_first()[i]
                == entries[i + 1]);
        lemma_advance_entry_bound(entries.drop_first(), ch);
    }
}

/// The kerning entry is bounded for a well-formed font.
pub proof fn lemma_kern_entry_bound(entries: Seq<KernPair>, left: char, right: char)
    requires
        forall|i: int| 0 <= i < entries.len() ==> -65536 <= (#[trigger] entries[i]).kern <= 65536,
    ensures
        -65536 <= kern_entry(entries, left, right) <= 65536,
    decreases entries.len(),
{
    if entries.len() > 0 && !(entries[0].left == left && entries[0].right == right) {
        assert(forall|i: int|
            0 <= i < entries.drop_first().len() ==> #[trigger] entries.drop_first()[i]
                == entries[i + 1]);
        lemma_kern_entry_bound(entries.drop_first(), left, right);
    }
}

impl FontMetrics {
    /// Look up the base advance and side bearing of `ch`.
    pub fn lookup_advance(&self, ch: char) -> (r: (u32, i32))
        ensures
            r.0 as int == advance_entry(self.advances@, ch).0,
            r.1 as int == advance_entry(self.advances@, ch).1,
    {
        let n = self.advances.len();
        let mut i: usize = 0;
        proof {
            assert(self.advances@.skip(0) =~= self.advances@);
        }
        while i < n
            invariant
                0 <= i <= n,
                n == self.advances@.len(),
                advance_entry(self.advances@, ch) == advance_entry(
                    self.advances@.skip(i as int),
                    ch,
                ),
            decreases n - i,
        {
            let e = self.advances[i];
            proof {
                let t = self.advances@.skip(i as int);
                assert(t[0] == self.advances@[i as int]);
                assert(t.drop_first() =~= self.advances@.skip(i + 1));
            }
            if e.ch == ch {
                return (e.advance, e.side_bearing);
            }
            i += 1;
        }
        (0, 0)
    }

    /// Look up the base kerning between `left` and `right`.
    pub fn lookup_kern(&self, left: char, right: char) -> (r: i32)
        ensures
            r as int == kern_entry(self.kerning@, left, right),
    {
        let n = self.kerning.len();
        let mut i: usize = 0;
        proof {
            assert(self.kerning@.skip(0) =~= self.kerning@);
        }
        while i < n
            invariant
                0 <= i <= n,
                n == self.kerning@.len(),
                kern_entry(self.kerning@, left, right) == kern_entry(
                    self.kerning@.skip(i as int),
                    left,
                    right,
                ),
            decreases n - i,
        {
            let e = self.kerning[i];
            proof {
                let t = self.kerning@.skip(i as int);
                assert(t[0] == self.kerning@[i as int]);
                assert(t.drop_first() =~= self.kerning@.skip(i + 1));
            }
            if e.left == left && e.right == right {
                return e.kern;
            }
            i += 1;
        }
        0
    }
}

/// Scale a non-negative base metric to a font size.
pub fn scale_metric(base: u32, size: u32) -> (r: u64)
    requires
        base <= 65536,
        size <= 16384,
    ensures
        r as int == scaled(base as int, size as int),
        r <= 0x4000_0000,
{
    proof {
        lemma_scaled_bound(base as int, size as int);
    }
    (base as u64) * (size as u64) / 1000
}

/// Scale a signed base metric to a font size, rounding toward zero.
pub fn scale_metric_signed(base: i32, size: u32) -> (r: i64)
    requires
        -65536 <= base <= 65536,
        size <= 16384,
    ensures
        r as int == scaled_signed(base as int, size as int),
        -0x4000_0000 <= r <= 0x4000_0000,
{
    proof {
        lemma_scaled_signed_bound(base as int, size as int);
    }
    if base >= 0 {
        scale_metric(base as u32, size) as i64
    } else {
        -(scale_metric((-base) as u32, size) as i64)
    }
}

} // verus!
