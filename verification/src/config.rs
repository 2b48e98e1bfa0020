//! Per-run configuration for the layout engine and the compositing renderer.

use vstd::prelude::*;

verus! {

/// Configuration for one render invocation.
///
/// Geometry (page size, margins, spacings, font sizes) is in integer page
/// units. Quantities that are conceptually fractions — the ink opacity and
/// the blur radius — are carried in thousandths, so `1000` stands for `1.0`.
#[derive(Debug, Clone)]
pub struct Config {
    /// Page width in units.
    pub page_width: u32,
    /// Page height in units.
    pub page_height: u32,
    /// Top margin in units.
    pub margin_top: u32,
    /// Bottom margin in units.
    pub margin_bottom: u32,
    /// Left margin in units.
    pub margin_left: u32,
    /// Right margin in units.
    pub margin_right: u32,
    /// Path of the font used for paragraph text.
    pub default_font: String,
    /// Path of the font used for headings.
    pub heading_font: String,
    /// Path of the font used for stamps.
    pub stamp_font: String,
    /// Paragraph font size in units.
    pub font_size: u32,
    /// Heading font size in units, before the per-level scale.
    pub heading_size: u32,
    /// Stamp line height in units.
    pub stamp_size: u32,
    /// Width of the vertical glyph jitter interval, in units.
    pub jitter_px: u32,
    /// Gaussian blur sigma for ink bleed, in thousandths of a unit.
    pub blur_sigma_milli: u32,
    /// Ink opacity in thousandths; `1000` is fully opaque ink.
    pub ink_opacity_milli: u32,
    /// Token that brackets redacted runs in raw input text.
    pub redaction_marker: String,
    /// Token that marks a stamp line in raw input text.
    pub stamp_marker: String,
    /// Path of the paper albedo texture.
    pub paper_albedo: String,
    /// Path of the paper normal texture.
    pub paper_normal: String,
    /// Path of the paper roughness texture.
    pub paper_roughness: String,
    /// Fixed horizontal advance per paragraph glyph, in units.
    pub letter_spacing: u32,
    /// Vertical advance between lines, in units.
    pub line_spacing: u32,
}

impl Config {
    /// A well-formed configuration: geometry fits the supported page range,
    /// the text body is at least one glyph wide, the opacity is a valid
    /// fraction, and the marker tokens are non-empty.
    pub open spec fn wf(self) -> bool {
        &&& 0 < self.page_width <= 16384
        &&& 0 < self.page_height <= 16384
        &&& self.margin_left + self.margin_right < self.page_width
        &&& self.margin_top <= self.page_height
        &&& self.margin_bottom <= self.page_height
        &&& 0 < self.font_size <= 16384
        &&& 0 < self.heading_size <= 16384
        &&& 0 < self.stamp_size <= 16384
        &&& self.jitter_px <= 16384
        &&& self.ink_opacity_milli <= 1000
        &&& 0 < self.letter_spacing <= 16384
        &&& self.line_spacing <= 16384
        &&& self.redaction_marker@.len() > 0
        &&& self.stamp_marker@.len() > 0
    }

    /// Width of the text body in units: the page minus both margins.
    pub open spec fn spec_body_width(self) -> int {
        self.page_width - self.margin_left - self.margin_right
    }

    /// Width of the text body in units: the page minus both margins.
    pub fn body_width(&self) -> (w: u32)
        requires
            self.wf(),
        ensures
            w == self.spec_body_width(),
            0 < w <= 16384,
    {
        self.page_width - self.margin_left - self.margin_right
    }

    /// Number of fixed-advance glyphs that fit in the text body; the width
    /// passed to the line breaker.
    pub open spec fn spec_wrap_width(self) -> int {
        self.spec_body_width() / self.letter_spacing as int
    }

    /// Number of fixed-advance glyphs that fit in the text body.
    pub fn wrap_width(&self) -> (w: usize)
        requires
            self.wf(),
        ensures
            w == self.spec_wrap_width(),
            w <= 16384,
    {
        (self.body_width() / self.letter_spacing) as usize
    }
}

} // verus!
