use docgen::config::Config;
use docgen::layout::{Point, Redaction};
use docgen::raster::{
    blend_ink, clamp_coord, redaction_box, render_page, Canvas, Mask, PageTextures, PlacedMask,
};

fn test_config() -> Config {
    Config {
        page_width: 2480,
        page_height: 3508,
        margin_top: 100,
        margin_bottom: 100,
        margin_left: 200,
        margin_right: 200,
        default_font: String::from("default.ttf"),
        heading_font: String::from("heading.ttf"),
        stamp_font: String::from("stamp.ttf"),
        font_size: 40,
        heading_size: 60,
        stamp_size: 80,
        jitter_px: 0,
        blur_sigma_milli: 1200,
        ink_opacity_milli: 1000,
        redaction_marker: String::from("=="),
        stamp_marker: String::from("!"),
        paper_albedo: String::from("albedo.png"),
        paper_normal: String::from("normal.png"),
        paper_roughness: String::from("rough.png"),
        letter_spacing: 20,
        line_spacing: 50,
    }
}

fn flat_canvas(w: u32, h: u32, value: u8) -> Canvas {
    Canvas { width: w, height: h, data: vec![value; (4 * w * h) as usize] }
}

fn flat_mask(w: u32, h: u32, value: u8) -> Mask {
    Mask { width: w, height: h, data: vec![value; (w * h) as usize] }
}

#[test]
fn full_ink_blacks_out_covered_pixels() {
    let mut canvas = flat_canvas(2, 2, 200);
    let mask = flat_mask(1, 1, 255);
    let normal = flat_canvas(2, 2, 255);
    let rough = flat_mask(2, 2, 255);
    blend_ink(&mut canvas, &mask, &normal, &rough, 0, 0, 1000);
    // full opacity, full coverage, flat normal, full roughness: alpha one
    assert_eq!(canvas.data[0], 0);
    assert_eq!(canvas.data[1], 0);
    assert_eq!(canvas.data[2], 0);
    // the alpha channel is untouched
    assert_eq!(canvas.data[3], 200);
    // the uncovered pixel is untouched
    assert_eq!(canvas.data[4], 200);
}

#[test]
fn half_ink_halves_covered_channels() {
    let mut canvas = flat_canvas(1, 1, 200);
    let mask = flat_mask(1, 1, 255);
    let normal = flat_canvas(1, 1, 255);
    let rough = flat_mask(1, 1, 255);
    blend_ink(&mut canvas, &mask, &normal, &rough, 0, 0, 500);
    // alpha 500 of 1000: 200 * 500 / 1000
    assert_eq!(canvas.data[0], 100);
    assert_eq!(canvas.data[3], 200);
}

#[test]
fn blend_never_lightens_any_channel() {
    let mut canvas = Canvas {
        width: 2,
        height: 2,
        data: vec![13, 77, 255, 9, 200, 1, 50, 128, 90, 91, 92, 93, 7, 255, 0, 44],
    };
    let before = canvas.data.clone();
    let mask = flat_mask(2, 2, 173);
    let normal = flat_canvas(2, 2, 40);
    let rough = flat_mask(2, 2, 201);
    blend_ink(&mut canvas, &mask, &normal, &rough, 0, 0, 777);
    for i in 0..before.len() {
        assert!(canvas.data[i] <= before[i]);
        if i % 4 == 3 {
            assert_eq!(canvas.data[i], before[i]);
        }
    }
}

#[test]
fn out_of_bounds_mask_pixels_are_skipped() {
    let mut canvas = flat_canvas(2, 1, 180);
    let before = canvas.data.clone();
    let mask = flat_mask(3, 3, 255);
    let normal = flat_canvas(2, 1, 255);
    let rough = flat_mask(2, 1, 255);
    // placed so that most of the mask hangs off the canvas
    blend_ink(&mut canvas, &mask, &normal, &rough, 1, 0, 1000);
    // pixel 0 untouched, pixel 1 covered
    assert_eq!(canvas.data[0], before[0]);
    assert_eq!(canvas.data[4], 0);
}

#[test]
fn canvas_dimensions_always_match_the_paper() {
    let cfg = test_config();
    let paper = flat_canvas(7, 5, 210);
    let normal = flat_canvas(7, 5, 255);
    let rough = flat_mask(7, 5, 128);
    let glyphs = vec![PlacedMask { mask: flat_mask(3, 3, 200), x0: 2, y0: 1 }];
    let reds = vec![PlacedMask { mask: flat_mask(2, 2, 220), x0: 0, y0: 0 }];
    let canvas = render_page(&glyphs, &reds, &paper, &normal, &rough, &cfg);
    assert_eq!(canvas.width, paper.width);
    assert_eq!(canvas.height, paper.height);
    assert_eq!(canvas.data.len(), paper.data.len());
    for i in 0..paper.data.len() {
        assert!(canvas.data[i] <= paper.data[i]);
    }
}

#[test]
fn rendering_zero_blocks_returns_the_paper_unchanged() {
    let cfg = test_config();
    let paper = Canvas {
        width: 3,
        height: 2,
        data: (0..24).map(|i| (i * 11 % 251) as u8).collect(),
    };
    let normal = flat_canvas(3, 2, 77);
    let rough = flat_mask(3, 2, 66);
    let empty: Vec<PlacedMask> = Vec::new();
    let canvas = render_page(&empty, &empty, &paper, &normal, &rough, &cfg);
    assert_eq!(canvas.data, paper.data);
    assert_eq!(canvas.width, 3);
    assert_eq!(canvas.height, 2);
}

#[test]
fn redactions_are_heavier_than_a_single_pass() {
    let cfg = test_config();
    let paper = flat_canvas(4, 4, 240);
    let normal = flat_canvas(4, 4, 255);
    let rough = flat_mask(4, 4, 200);
    let m = PlacedMask { mask: flat_mask(2, 2, 128), x0: 0, y0: 0 };
    let one = render_page(&vec![m.clone()], &Vec::new(), &paper, &normal, &rough, &cfg);
    let four = render_page(&Vec::new(), &vec![m], &paper, &normal, &rough, &cfg);
    // four accumulation passes leave less light than one
    assert!(four.data[0] < one.data[0]);
}

#[test]
fn redaction_box_shape_and_noise() {
    let cfg = test_config(); // jitter 0: the corner is exact
    let mut rng = fastrand::Rng::with_seed(11);
    let red = Redaction {
        start: Point { x: 160, y: 82 },
        end: Some(Point { x: 310, y: 82 }),
        thickness: 40,
    };
    let (mask, cx, cy) = redaction_box(&red, &cfg, &mut rng);
    assert_eq!(mask.width, 150 + 10);
    assert_eq!(mask.height, 48 + 10);
    assert_eq!(cx, 160 - 5);
    assert_eq!(cy, 82 - 40 - 5);
    for y in 0..mask.height {
        for x in 0..mask.width {
            let v = mask.data[(y * mask.width + x) as usize];
            let interior = x >= 5 && x < mask.width - 5 && y >= 5 && y < mask.height - 5;
            if interior {
                assert!(v >= 100, "interior noise below floor at {},{}", x, y);
            } else {
                assert_eq!(v, 0, "margin not clear at {},{}", x, y);
            }
        }
    }
}

#[test]
fn clamping_folds_coordinates_into_the_raster() {
    assert_eq!(clamp_coord(-17), 0);
    assert_eq!(clamp_coord(0), 0);
    assert_eq!(clamp_coord(12345), 12345);
    assert_eq!(clamp_coord(0x1_0000_0000), 0xFFFF_FFFF);
}

#[test]
fn page_textures_bundle_shares_dimensions() {
    let t = PageTextures {
        albedo: flat_canvas(5, 4, 230),
        normal: flat_canvas(5, 4, 255),
        roughness: flat_mask(5, 4, 120),
    };
    assert_eq!(t.albedo.width, t.normal.width);
    assert_eq!(t.albedo.height, t.roughness.height);
}

#[test]
fn grazing_normals_catch_more_ink() {
    // a fully grazing normal raises the effective alpha by a fifth
    let mut canvas = flat_canvas(1, 1, 200);
    let mask = flat_mask(1, 1, 255);
    let normal = flat_canvas(1, 1, 0);
    let rough = flat_mask(1, 1, 255);
    blend_ink(&mut canvas, &mask, &normal, &rough, 0, 0, 500);
    // alpha: 500 * 255 * 1200 * 255 / 65_025_000 = 600 of 1000
    assert_eq!(canvas.data[0], 80);

    let mut flat = flat_canvas(1, 1, 200);
    let facing = flat_canvas(1, 1, 255);
    blend_ink(&mut flat, &mask, &facing, &rough, 0, 0, 500);
    assert!(canvas.data[0] < flat.data[0]);
}
