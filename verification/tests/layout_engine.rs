use docgen::config::Config;
use docgen::fonts::{FontMetrics, FontTable, GlyphAdvance, KernPair};
use docgen::layout::{
    layout_blocks, layout_heading, layout_paragraph, measure_text_width, FontKey, GlyphInstance,
    Point, Redaction,
};
use docgen::parser::parse_document;
use docgen::wrap::wrap_paragraph;

fn test_config() -> Config {
    Config {
        page_width: 2480,
        page_height: 3508,
        margin_top: 100,
        margin_bottom: 100,
        margin_left: 200,
        margin_right: 200,
        default_font: String::from("default.ttf"),
        heading_font: String::from("heading.ttf"),
        stamp_font: String::from("stamp.ttf"),
        font_size: 40,
        heading_size: 40,
        stamp_size: 80,
        jitter_px: 2,
        blur_sigma_milli: 1200,
        ink_opacity_milli: 850,
        redaction_marker: String::from("=="),
        stamp_marker: String::from("!"),
        paper_albedo: String::from("albedo.png"),
        paper_normal: String::from("normal.png"),
        paper_roughness: String::from("rough.png"),
        letter_spacing: 10,
        line_spacing: 50,
    }
}

fn plain_font() -> FontMetrics {
    // every printable character advances 1000 at the reference size
    let mut advances = Vec::new();
    for c in " abcdefghijklmnopqrstuvwxyzABCDEFGHIJKLMNOPQRSTUVWXYZ-".chars() {
        advances.push(GlyphAdvance { ch: c, advance: 1000, side_bearing: 0 });
    }
    FontMetrics { ascent: 800, height: 1000, advances, kerning: Vec::new() }
}

fn table() -> FontTable {
    FontTable { body: plain_font(), heading: plain_font(), stamp: plain_font() }
}

#[test]
fn one_marked_run_yields_one_closed_span() {
    let cfg = test_config();
    let font = plain_font();
    let lines = vec![String::from("Hello \u{20D2}SECRET-REDACTED\u{20D2} world")];
    let mut glyphs: Vec<GlyphInstance> = Vec::new();
    let mut rng = fastrand::Rng::with_seed(7);
    let pos = Point { x: 100, y: 50 };
    let reds = layout_paragraph(&font, pos, &lines, &mut glyphs, &cfg, &mut rng);
    assert_eq!(reds.len(), 1);
    let r = reds[0];
    // the span opens at the caret before the run and closes after it
    assert!(!r.is_open());
    // "Hello " is six glyphs of 10 units each from x = 100
    assert_eq!(r.start.x, 160);
    // "SECRET-REDACTED" is fifteen glyphs
    assert_eq!(r.end.unwrap().x, 160 + 15 * 10);
    assert_eq!(r.start.y, r.end.unwrap().y);
    // the span brackets exactly the glyphs of the hidden run
    for g in &glyphs {
        let inside = g.pos.x >= r.start.x && g.pos.x < r.end.unwrap().x;
        let hidden = "SECRET-REDACTED".contains(g.ch);
        if inside {
            assert!(hidden, "glyph {:?} sits inside the span", g.ch);
        }
    }
}

#[test]
fn span_open_at_paragraph_end_is_force_closed() {
    let cfg = test_config();
    let font = plain_font();
    // the second marker never comes
    let lines = vec![String::from("abc\u{20D2}def")];
    let mut glyphs: Vec<GlyphInstance> = Vec::new();
    let mut rng = fastrand::Rng::with_seed(7);
    let pos = Point { x: 100, y: 50 };
    let reds = layout_paragraph(&font, pos, &lines, &mut glyphs, &cfg, &mut rng);
    assert_eq!(reds.len(), 1);
    assert!(!reds[0].is_open());
    assert_eq!(reds[0].start.x, 130);
    // force-closed at the final caret: six glyphs emitted in all
    assert_eq!(reds[0].end.unwrap().x, 160);
}

#[test]
fn two_marked_runs_yield_two_spans() {
    let cfg = test_config();
    let font = plain_font();
    let lines = vec![String::from("\u{20D2}a\u{20D2} b \u{20D2}c\u{20D2}")];
    let mut glyphs: Vec<GlyphInstance> = Vec::new();
    let mut rng = fastrand::Rng::with_seed(7);
    let pos = Point { x: 0, y: 0 };
    let reds = layout_paragraph(&font, pos, &lines, &mut glyphs, &cfg, &mut rng);
    assert_eq!(reds.len(), 2);
    for r in &reds {
        assert!(!r.is_open());
        assert!(r.start.x <= r.end.unwrap().x);
    }
}

#[test]
fn span_crossing_a_line_break_closes_and_reopens() {
    let cfg = test_config();
    let font = plain_font();
    let lines = vec![String::from("ab\u{20D2}cd"), String::from("ef\u{20D2}gh")];
    let mut glyphs: Vec<GlyphInstance> = Vec::new();
    let mut rng = fastrand::Rng::with_seed(7);
    let pos = Point { x: 100, y: 50 };
    let reds = layout_paragraph(&font, pos, &lines, &mut glyphs, &cfg, &mut rng);
    // one span on each line: closed at the first line's end, reopened at
    // the second line's start, closed again at its marker
    assert_eq!(reds.len(), 2);
    assert!(!reds[0].is_open());
    assert!(!reds[1].is_open());
    assert_eq!(reds[0].start.x, 120);
    assert_eq!(reds[0].end.unwrap().x, 140);
    assert!(reds[1].start.y > reds[0].start.y);
}

#[test]
fn paragraph_glyphs_use_fixed_letter_spacing() {
    let cfg = test_config();
    let font = plain_font();
    let lines = vec![String::from("abcd")];
    let mut glyphs: Vec<GlyphInstance> = Vec::new();
    let mut rng = fastrand::Rng::with_seed(7);
    let pos = Point { x: 100, y: 50 };
    let _ = layout_paragraph(&font, pos, &lines, &mut glyphs, &cfg, &mut rng);
    assert_eq!(glyphs.len(), 4);
    // baseline sits one scaled ascent below the origin: 800 * 40 / 1000
    assert_eq!(glyphs[0].pos.y, 50 + 32);
    for (i, g) in glyphs.iter().enumerate() {
        assert_eq!(g.pos.x, 100 + (i as i64) * 10);
        assert_eq!(g.font_key, FontKey::Body);
        assert_eq!(g.size, 40);
    }
}

#[test]
fn measured_width_includes_kerning_and_stretch() {
    let mut font = plain_font();
    font.kerning.push(KernPair { left: 'A', right: 'V', kern: -100 });
    // each glyph advance is stretched by a fifth: 1000 * 40 / 1000 * 6 / 5
    let w = measure_text_width(&font, "AV", 40);
    let adv = 1000 * 40 / 1000 * 6 / 5; // 48
    let kern = -(100 * 40 / 1000); // -4
    assert_eq!(w, adv + kern + adv);
}

#[test]
fn level_one_heading_is_centered() {
    // heading "# Title" on a 2480-unit-wide page is centered to within one
    // glyph advance
    let cfg = test_config();
    let fonts = table();
    let mut rng = fastrand::Rng::with_seed(7);
    let blocks = parse_document("# Title", &cfg);
    let (glyphs, _reds) = layout_blocks(&blocks, &fonts, &cfg, &mut rng);
    assert_eq!(glyphs.len(), 6); // " Title"
    let advance = 1000 * 40 / 1000 * 6 / 5; // one stretched glyph advance
    let left = glyphs[0].pos.x;
    let right = glyphs[glyphs.len() - 1].pos.x + advance as i64;
    let center2 = left + right; // twice the text center
    let page2 = 2480;
    assert!((center2 - page2).abs() < 2 * advance as i64);
}

#[test]
fn heading_cursor_advances_by_scaled_height_and_gap() {
    let cfg = test_config();
    let font = plain_font();
    let mut glyphs: Vec<GlyphInstance> = Vec::new();
    let y = layout_heading(&font, "Hi", 2, &cfg, 100, &mut glyphs);
    // level 2 scale: 40 * 850 / 1000 = 34; plus the 50-unit line gap
    assert_eq!(y, 100 + 34 + 50);
    assert_eq!(glyphs.len(), 2);
    assert_eq!(glyphs[0].font_key, FontKey::Heading);
    assert_eq!(glyphs[0].size, 34);
}

#[test]
fn wrapped_lines_fit_or_hold_one_wide_word() {
    let mut cfg = test_config();
    cfg.letter_spacing = 208; // body width 2080 => wrap width 10 characters
    let text = "aa bb cc dd ee ff gg hh";
    let lines = wrap_paragraph(text, &cfg);
    assert!(lines.len() >= 2);
    for line in &lines {
        let n = line.chars().count();
        assert!(n <= 10 || !line.contains(' '), "line {:?} does not fit", line);
    }
    // no glyph is lost in the wrap
    let glyphs_in: usize = text.chars().filter(|c| *c != ' ').count();
    let glyphs_out: usize = lines
        .iter()
        .map(|l| l.chars().filter(|c| *c != ' ').count())
        .sum();
    assert_eq!(glyphs_in, glyphs_out);
}

#[test]
fn word_wider_than_line_is_placed_whole() {
    let mut cfg = test_config();
    cfg.letter_spacing = 208; // wrap width 10 characters
    let text = "tiny extraordinarily tiny";
    let lines = wrap_paragraph(text, &cfg);
    let whole = lines.iter().any(|l| l.contains("extraordinarily"));
    assert!(whole, "the wide word was split: {:?}", lines);
}

#[test]
fn first_line_carries_paragraph_indent() {
    let cfg = test_config(); // wrap width 208 characters: everything fits
    let lines = wrap_paragraph("hello", &cfg);
    assert_eq!(lines.len(), 1);
    assert_eq!(lines[0], "    hello");
}

#[test]
fn same_seed_gives_same_layout() {
    let cfg = test_config();
    let fonts = table();
    let blocks = parse_document("# H\npara one ==X== two\n!S!", &cfg);
    let mut rng1 = fastrand::Rng::with_seed(99);
    let mut rng2 = fastrand::Rng::with_seed(99);
    let (g1, r1) = layout_blocks(&blocks, &fonts, &cfg, &mut rng1);
    let (g2, r2) = layout_blocks(&blocks, &fonts, &cfg, &mut rng2);
    assert_eq!(g1, g2);
    assert_eq!(r1, r2);
}

#[test]
fn full_pipeline_emits_one_span_for_one_run() {
    let cfg = test_config();
    let fonts = table();
    let mut rng = fastrand::Rng::with_seed(5);
    let blocks = parse_document("Hello ==SECRET-REDACTED== world", &cfg);
    let (glyphs, reds) = layout_blocks(&blocks, &fonts, &cfg, &mut rng);
    assert_eq!(reds.len(), 1);
    assert!(!reds[0].is_open());
    assert!(reds[0].start.x <= reds[0].end.unwrap().x);
    assert!(glyphs.len() > 0);
}

#[test]
fn stamp_blocks_emit_no_glyphs() {
    let cfg = test_config();
    let fonts = table();
    let mut rng = fastrand::Rng::with_seed(5);
    let blocks = parse_document("!TOP!", &cfg);
    let (glyphs, reds) = layout_blocks(&blocks, &fonts, &cfg, &mut rng);
    assert_eq!(glyphs.len(), 0);
    assert_eq!(reds.len(), 0);
}

#[test]
fn redaction_span_operations() {
    let mut r = Redaction::new(Point { x: 3, y: 4 }, 12);
    assert!(r.is_open());
    assert_eq!(r.start, Point { x: 3, y: 4 });
    assert_eq!(r.thickness, 12);
    r.close(Point { x: 9, y: 4 });
    assert!(!r.is_open());
    assert_eq!(r.end, Some(Point { x: 9, y: 4 }));
    // closing again changes nothing
    r.close(Point { x: 100, y: 100 });
    assert_eq!(r.end, Some(Point { x: 9, y: 4 }));
}

#[test]
fn blocks_stack_down_the_page() {
    let cfg = test_config();
    let fonts = table();
    let mut rng = fastrand::Rng::with_seed(3);
    let blocks = parse_document("# Top\nbody text", &cfg);
    let (glyphs, _) = layout_blocks(&blocks, &fonts, &cfg, &mut rng);
    // the heading sits on the top-margin baseline; the paragraph baseline
    // sits below it by the scaled heading height, the line gap, and the
    // paragraph ascent
    let heading_y = glyphs[0].pos.y;
    assert_eq!(heading_y, 100);
    let para = glyphs.iter().find(|g| g.font_key == FontKey::Body).unwrap();
    assert_eq!(para.pos.y, 100 + 40 + 50 + 32);
}
