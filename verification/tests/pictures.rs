//! Pictures and text of the screens.
use checkpoint_explorer::img::{
    ansi_legend, base64_encode, glyph, heatmap_png, iterm2_escape, iterm2_inline,
    iterm2_multipart, passthrough, plan_canvas, scale_for, Bounds, Rgb,
};
use checkpoint_explorer::plain::{render, Sizing};
use checkpoint_explorer::progress::{
    compare_progress_block, draw_block, erase_block, format_elapsed, progress_bar, read_line,
    truncate_tail, ReadState,
};
use checkpoint_explorer::tui::buffer_to_string;
use std::time::Duration;

const MISSING: Rgb = Rgb { r: 0, g: 0, b: 0 };

/// A colour between blue and red.
fn shade(v: f64) -> Rgb {
    Rgb {
        r: (v * 255.0) as u8,
        g: 0,
        b: ((1.0 - v) * 255.0) as u8,
    }
}

fn shades(values: &[Vec<f64>]) -> Vec<Vec<Rgb>> {
    values
        .iter()
        .map(|r| r.iter().map(|v| shade(*v)).collect())
        .collect()
}

/// A heatmap with a legend for values between 0 and 1, or without.
fn picture(values: &[Vec<f64>], target_px: usize, legend: bool) -> Vec<u8> {
    let bounds = if legend {
        Some(Bounds {
            low: "0".to_string(),
            high: "1".to_string(),
        })
    } else {
        None
    };
    let cols = values.iter().map(|r| r.len()).max().unwrap_or(0);
    let bar = if legend && cols > 0 {
        let canvas = plan_canvas(values.len(), cols, target_px, &bounds);
        (0..canvas.bar)
            .map(|i| shade(i as f64 / canvas.bar as f64))
            .collect()
    } else {
        vec![]
    };
    heatmap_png(&shades(values), MISSING, target_px, &bounds, &bar)
}

#[test]
fn png_has_signature_and_scales_up() {
    // 2×3 grid → upscaled; valid 8-bit RGB PNG, taller than the bare grid
    // (the legend band sits on top) and at least as wide.
    let values = vec![vec![0.0, 0.5, 1.0], vec![1.0, 0.5, 0.0]];
    let png = picture(&values, 1600, true);
    assert_eq!(&png[..8], &[0x89, b'P', b'N', b'G', 0x0d, 0x0a, 0x1a, 0x0a]);
    let decoder = png::Decoder::new(std::io::Cursor::new(&png[..]));
    let reader = decoder.read_info().unwrap();
    let info = reader.info();
    let scale = scale_for(2, 3, 1600) as u32;
    assert!(info.width >= 3 * scale); // ≥ grid width (may widen for labels)
    assert!(info.height > 2 * scale); // grid + legend band
}

#[test]
fn no_legend_is_exactly_the_grid() {
    // Without the legend the canvas is just the upscaled grid — no band, no
    // widening for labels.
    let values = vec![vec![0.0, 0.5, 1.0], vec![1.0, 0.5, 0.0]];
    let png = picture(&values, 1600, false);
    let r = png::Decoder::new(std::io::Cursor::new(&png[..]))
        .read_info()
        .unwrap();
    let scale = scale_for(2, 3, 1600) as u32;
    assert_eq!((r.info().width, r.info().height), (3 * scale, 2 * scale));
}

#[test]
fn target_px_controls_size() {
    // A grid big enough that the target divides below the per-cell clamp, so
    // the upscale factor (hence image size) actually tracks the target.
    let values = vec![vec![0.5; 40]; 40];
    let dims = |target| {
        let png = picture(&values, target, true);
        let r = png::Decoder::new(std::io::Cursor::new(&png[..]))
            .read_info()
            .unwrap();
        (r.info().width, r.info().height)
    };
    let (w_small, h_small) = dims(400);
    let (w_big, h_big) = dims(1600);
    assert!(w_big > w_small && h_big > h_small); // larger target → larger image
}

#[test]
fn empty_grid_is_empty_png() {
    assert!(picture(&[], 1600, true).is_empty());
    assert!(picture(&[vec![]], 1600, true).is_empty());
}

#[test]
fn pictures_hold_the_colours_of_the_grid() {
    let red = Rgb { r: 255, g: 0, b: 0 };
    let blue = Rgb { r: 0, g: 0, b: 255 };
    let png = heatmap_png(&vec![vec![red, blue]], MISSING, 2, &None, &vec![]);
    let mut reader = png::Decoder::new(std::io::Cursor::new(&png[..]))
        .read_info()
        .unwrap();
    let mut pixels = vec![0; reader.output_buffer_size().unwrap()];
    let info = reader.next_frame(&mut pixels).unwrap();
    let scale = scale_for(1, 2, 2);
    assert_eq!(info.width as usize, 2 * scale);
    assert_eq!(&pixels[..3], &[255, 0, 0]);
    assert_eq!(&pixels[3 * scale..3 * scale + 3], &[0, 0, 255]);
}

#[test]
fn ansi_legend_has_gradient_and_bounds() {
    let ramp: Vec<Rgb> = (0..24).map(|i| shade(i as f64 / 23.0)).collect();
    let s = ansi_legend("-0.5", "1.25", &ramp);
    assert!(s.contains("-0.5") && s.contains("1.25"));
    assert!(s.contains("\u{2588}") && s.contains("\x1b[38;2;")); // colored blocks
    assert!(s.ends_with("1.25")); // max on the right
}

#[test]
fn iterm2_escape_shape() {
    let esc = iterm2_escape(b"\x89PNG", None, None);
    assert!(esc.starts_with("\x1b]1337;File=inline=1;"));
    assert!(esc.ends_with('\x07'));
    assert!(esc.contains(";size=4:")); // 4 bytes, then base64 payload
    assert!(!esc.contains("width=")); // no fit box requested
}

#[test]
fn iterm2_escape_fit_adds_cell_box() {
    // A fit box adds width/height in cells so iTerm2 scales to fill it.
    let esc = iterm2_escape(b"\x89PNG", None, Some((80, 20)));
    assert!(esc.contains("width=80;height=20"));
    assert!(esc.contains("preserveAspectRatio=1"));
}

#[test]
fn tmux_passthrough_doubles_esc_and_wraps() {
    let raw = "\x1b]1337;File=x\x07";
    // Outside tmux: untouched.
    assert_eq!(passthrough(raw, false), raw);
    // Inside tmux: wrapped in the DCS, every ESC doubled.
    let w = passthrough(raw, true);
    assert!(w.starts_with("\x1bPtmux;"));
    assert!(w.ends_with("\x1b\\"));
    assert!(w.contains("\x1b\x1b]1337;File=x\x07")); // inner ESC doubled
}

#[test]
fn multipart_splits_into_passthrough_wrapped_parts() {
    // A payload larger than one chunk → announce + ≥2 parts + end, each its
    // own passthrough DCS (so no single sequence overruns tmux).
    let png = vec![0u8; 4096]; // ~5464 base64 chars > 2 * CHUNK
    let seq = iterm2_multipart(&png, Some("t"), None);
    assert_eq!(seq.matches("MultipartFile=").count(), 1);
    assert!(seq.matches("FilePart=").count() >= 2);
    assert_eq!(seq.matches("FileEnd").count(), 1);
    // Every emitted OSC is wrapped, so parts stay individually small.
    assert_eq!(
        seq.matches("\x1bPtmux;").count(),
        seq.matches("\x1b\\").count()
    );
}

#[test]
fn inline_pictures_go_in_parts_under_tmux() {
    assert_eq!(
        iterm2_inline(b"x", None, None, false),
        iterm2_escape(b"x", None, None)
    );
    assert_eq!(
        iterm2_inline(b"x", None, None, true),
        iterm2_multipart(b"x", None, None)
    );
}

#[test]
fn base64_pads_the_last_group() {
    assert_eq!(base64_encode(b""), "");
    assert_eq!(base64_encode(b"M"), "TQ==");
    assert_eq!(base64_encode(b"Ma"), "TWE=");
    assert_eq!(base64_encode(b"Man"), "TWFu");
    assert_eq!(base64_encode(&[0xff, 0xef, 0xbe]), "/+++");
}

#[test]
fn digits_and_signs_can_be_drawn() {
    for c in "0123456789.-+e".chars() {
        assert!(glyph(c).is_some(), "{c}");
    }
    assert!(glyph('x').is_none());
}

#[test]
fn cursor_move_and_text() {
    // Write "B" at row 2 col 3 after a CUP, "A" at home.
    let s = render(b"A\x1b[3;4HB", 10, 5);
    assert_eq!(s, "A\n\n   B");
}

#[test]
fn erase_to_end_of_line() {
    let s = render(b"hello\x1b[3G\x1b[K", 10, 1);
    assert_eq!(s, "he");
}

#[test]
fn sgr_is_ignored() {
    let s = render(b"\x1b[31mred\x1b[0m", 10, 1);
    assert_eq!(s, "red");
}

#[test]
fn damaged_bytes_are_replaced() {
    assert_eq!(render(b"a\xffb", 10, 1), "a\u{fffd}b");
}

fn elapsed(d: Duration) -> String {
    format_elapsed(
        d.as_secs(),
        d.as_millis(),
        &format!("{:.1}", d.as_secs_f64()),
    )
}

#[test]
fn format_elapsed_scales() {
    assert_eq!(elapsed(Duration::from_millis(850)), "850ms");
    assert_eq!(elapsed(Duration::from_millis(1500)), "1.5s");
    assert_eq!(elapsed(Duration::from_secs(125)), "2m5s");
}

#[test]
fn truncate_tail_keeps_the_end() {
    assert_eq!(truncate_tail("short", 10), "short"); // fits
    assert_eq!(truncate_tail("abcdefgh", 8), "abcdefgh"); // exact
    assert_eq!(truncate_tail("abcdefgh", 4), "…fgh"); // …+tail, total == max
    assert_eq!(truncate_tail("abcdefgh", 1), "…");
    // A long tensor name keeps its most-specific tail within the budget.
    let name = "model.layers.0.block_sparse_moe.experts.down_proj.weight";
    let t = truncate_tail(name, 20);
    assert_eq!(t.chars().count(), 20);
    assert!(t.starts_with('…') && t.ends_with("down_proj.weight"), "{t}");
}

#[test]
fn progress_is_drawn_and_erased() {
    assert_eq!(progress_bar(1, 2, 4), "[##--]");
    assert_eq!(progress_bar(1, 0, 4), "[----]");
    let lines = compare_progress_block(0, 1, 3, &vec!["a".to_string()], 80, 10);
    assert!(lines.len() >= 2, "{lines:?}");
    assert!(lines[0].contains("1") && lines[0].contains("3"), "{lines:?}");
    assert!(draw_block(&lines, 0).contains("a"));
    assert!(!erase_block(2).is_empty());
    assert!(read_line(ReadState::Done, 0, "old", "1.2").contains("old"));
}

#[test]
fn wide_characters_take_two_columns() {
    let cells: Vec<String> = ["日", " ", "a", " ", " ", " "]
        .iter()
        .map(|s| s.to_string())
        .collect();
    assert_eq!(buffer_to_string(&cells, 3, 2).lines().next(), Some("日a"));
}

#[test]
fn styling_changes_nothing_wherever_it_stands() {
    let plain = render(b"ab\x1b[2;1Hcd", 4, 3);
    let styled = render(b"\x1b[1;31mab\x1b[0m\x1b[2;1H\x1b[4mcd\x1b[m", 4, 3);
    assert_eq!(plain, styled);
    // So it is where a wrap is pending.
    assert_eq!(render(b"abcd\x1b[31me", 4, 2), render(b"abcde", 4, 2));
    // At most as many lines and columns as the screen has, without blanks at the ends.
    let long = render("x \u{1b}[1m".repeat(40).as_bytes(), 7, 3);
    assert!(long.lines().count() <= 3);
    assert!(long.lines().all(|l| l.chars().count() <= 7 && !l.ends_with(' ')));
    // The cursor stays on the screen, whatever it is told.
    assert_eq!(render(b"\x1b[99;99Hx\x1b[99Ay", 3, 2), "  y\n  x");
}

#[test]
fn sizes_are_forced_until_lifted() {
    let mut s = Sizing::new();
    assert_eq!(s.term_size(Some((80, 24))), (80, 24));
    assert_eq!(s.term_size(None), (100, 40));
    s.force_size(120, 40);
    assert_eq!(s.term_size(Some((80, 24))), (120, 40));
    s.force_size(0, 0);
    assert_eq!(s.term_size(Some((80, 24))), (80, 24));
}
