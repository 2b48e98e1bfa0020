use docgen::config::Config;
use docgen::parser::{parse_document, split_marked, Block, Segment};

fn test_config() -> Config {
    Config {
        page_width: 2480,
        page_height: 3508,
        margin_top: 100,
        margin_bottom: 100,
        margin_left: 200,
        margin_right: 200,
        default_font: String::from("default.ttf"),
        heading_font: String::from("heading.ttf"),
        stamp_font: String::from("stamp.ttf"),
        font_size: 40,
        heading_size: 60,
        stamp_size: 80,
        jitter_px: 2,
        blur_sigma_milli: 1200,
        ink_opacity_milli: 850,
        redaction_marker: String::from("=="),
        stamp_marker: String::from("!"),
        paper_albedo: String::from("albedo.png"),
        paper_normal: String::from("normal.png"),
        paper_roughness: String::from("rough.png"),
        letter_spacing: 20,
        line_spacing: 50,
    }
}

#[test]
fn heading_level_and_text() {
    let cfg = test_config();
    let blocks = parse_document("# Title", &cfg);
    assert_eq!(blocks.len(), 1);
    assert_eq!(
        blocks[0],
        Block::Heading { level: 1, text: String::from(" Title") }
    );
}

#[test]
fn deeper_heading_levels() {
    let cfg = test_config();
    let blocks = parse_document("### Annex", &cfg);
    assert_eq!(
        blocks[0],
        Block::Heading { level: 3, text: String::from(" Annex") }
    );
}

#[test]
fn stamp_line_strips_marker() {
    let cfg = test_config();
    let blocks = parse_document("!CONFIDENTIAL!", &cfg);
    assert_eq!(blocks[0], Block::Stamp(String::from("CONFIDENTIAL")));
}

#[test]
fn redaction_marker_becomes_codepoint() {
    let cfg = test_config();
    let blocks = parse_document("Hello ==SECRET-REDACTED== world", &cfg);
    assert_eq!(
        blocks[0],
        Block::Paragraph(String::from("Hello \u{20D2}SECRET-REDACTED\u{20D2} world"))
    );
}

#[test]
fn plain_paragraph_is_kept() {
    let cfg = test_config();
    let blocks = parse_document("nothing to hide", &cfg);
    assert_eq!(blocks[0], Block::Paragraph(String::from("nothing to hide")));
}

#[test]
fn lines_split_on_newline_and_crlf() {
    let cfg = test_config();
    let blocks = parse_document("one\r\ntwo\nthree\n", &cfg);
    assert_eq!(blocks.len(), 3);
    assert_eq!(blocks[0], Block::Paragraph(String::from("one")));
    assert_eq!(blocks[1], Block::Paragraph(String::from("two")));
    assert_eq!(blocks[2], Block::Paragraph(String::from("three")));
}

#[test]
fn empty_text_yields_no_blocks() {
    let cfg = test_config();
    let blocks = parse_document("", &cfg);
    assert_eq!(blocks.len(), 0);
}

#[test]
fn classifier_elements_around_one_redaction() {
    // input "Hello ==SECRET-REDACTED== world" classifies into three elements
    let segs = split_marked("Hello \u{20D2}SECRET-REDACTED\u{20D2} world");
    assert_eq!(segs.len(), 3);
    assert_eq!(segs[0], Segment::Text(String::from("Hello ")));
    assert_eq!(segs[1], Segment::Redaction(String::from("SECRET-REDACTED")));
    assert_eq!(segs[2], Segment::Text(String::from(" world")));
}

#[test]
fn classifier_elements_without_markers() {
    let segs = split_marked("plain prose");
    assert_eq!(segs.len(), 1);
    assert_eq!(segs[0], Segment::Text(String::from("plain prose")));
}
