//! Images in the terminal.
use std::collections::HashSet;
use std::sync::Arc;

use ffp::app::PreviewContent;
use ffp::flicker::analyze_writes;
use ffp::flicker::WriteRecorder;
use ffp::kitty::clear_kitty_image;
use ffp::kitty::clear_kitty_image_to;
use ffp::kitty::compose_kitty_render;
use ffp::kitty::kitty_layout;
use ffp::kitty::kitty_transmit_to;
use ffp::kitty::render_kitty_image;
use ffp::kitty::render_kitty_image_to;
use ffp::kitty::CachedImage;
use ffp::kitty::ImageFit;
use ffp::kitty::KittyDoubleBuffer;
use ffp::kitty::Rect;
use ffp::kitty::KITTY_IMAGE_ID_A;
use ffp::kitty::KITTY_IMAGE_ID_B;
use ffp::parts::render_in_parts;
use ffp::video::video_render_decision;
use ffp::view::preview_lines;

const KITTY_IMAGE_IDS: [u32; 2] = [KITTY_IMAGE_ID_A, KITTY_IMAGE_ID_B];

fn image(data: Vec<u8>, width: u32, height: u32, is_raw_rgb: bool) -> CachedImage {
    CachedImage { data: Arc::new(data), width, height, is_raw_rgb }
}

/// How an image fits an area whose cells are twice as high as wide.
fn fit(img: &CachedImage, area: Rect) -> ImageFit {
    let img_ratio = (img.width as f64 / img.height as f64) * 2.0;
    let area_ratio = area.width as f64 / area.height as f64;
    if img_ratio > area_ratio {
        ImageFit::Width { rows: (area.width as f64 / img_ratio).max(1.0) as u32 }
    } else {
        ImageFit::Height { cols: (area.height as f64 * img_ratio).max(1.0) as u32 }
    }
}

fn rendered(img: &CachedImage, area: Rect, id: u32) -> String {
    let mut out = String::new();
    render_kitty_image_to(img, fit(img, area), area, id, &mut out);
    out
}

fn parse_kitty_commands(data: &str) -> Vec<String> {
    let mut cmds = Vec::new();
    let mut i = 0;
    let bytes = data.as_bytes();
    while i < bytes.len() {
        if i + 1 < bytes.len() && bytes[i] == 0x1b && bytes[i + 1] == b'_' {
            let start = i;
            i += 2;
            while i < bytes.len() {
                if bytes[i] == 0x1b && i + 1 < bytes.len() && bytes[i + 1] == b'\\' {
                    cmds.push(data[start..i + 2].to_string());
                    i += 2;
                    break;
                }
                i += 1;
            }
        } else {
            i += 1;
        }
    }
    cmds
}

fn get_kitty_header(cmd: &str) -> &str {
    let inner = &cmd[2..cmd.len() - 2];
    if let Some(pos) = inner.find(';') {
        &inner[..pos]
    } else {
        inner
    }
}

#[test]
fn kitty_png_image_has_correct_format() {
    let img = image(vec![0u8; 100], 200, 100, false);
    let area = Rect { x: 0, y: 0, width: 80, height: 40 };
    let output = rendered(&img, area, 1);

    let cmds = parse_kitty_commands(&output);
    assert!(!cmds.is_empty(), "should emit at least one kitty command");

    let header = get_kitty_header(&cmds[0]);
    assert!(header.contains("a=t"), "first command transmits data only");
    assert!(header.contains("q=2"), "must have quiet mode to suppress responses");
    assert!(header.contains("i=1"), "must use image ID 1 for atomic replacement");
    assert!(header.contains("f=100"), "PNG data must use f=100");
    assert!(!header.contains("f=24"), "PNG data must not use f=24");

    let place = get_kitty_header(cmds.last().unwrap());
    assert!(place.contains("a=p"), "must end with a placement command");
    assert!(place.contains("i=1"), "placement must reference image ID 1");
}

#[test]
fn kitty_raw_rgb_has_correct_format() {
    let w = 160u32;
    let h = 90u32;
    let img = image(vec![0u8; (w * h * 3) as usize], w, h, true);
    let area = Rect { x: 0, y: 0, width: 80, height: 40 };
    let output = rendered(&img, area, 1);

    let cmds = parse_kitty_commands(&output);
    assert!(!cmds.is_empty());

    let header = get_kitty_header(&cmds[0]);
    assert!(header.contains("f=24"), "raw RGB must use f=24");
    assert!(header.contains(&format!("s={}", w)), "must specify pixel width");
    assert!(header.contains(&format!("v={}", h)), "must specify pixel height");
    assert!(header.contains("q=2"), "must have quiet mode");
    assert!(header.contains("i=1"), "must use image ID 1");
}

#[test]
fn kitty_multi_chunk_has_correct_continuation() {
    let img = image(vec![0xFFu8; 8192], 50, 50, false);
    let area = Rect { x: 0, y: 0, width: 40, height: 20 };
    let output = rendered(&img, area, 1);

    let cmds = parse_kitty_commands(&output);
    assert!(cmds.len() >= 2, "8KB data should produce multiple chunks, got {}", cmds.len());

    let first_header = get_kitty_header(&cmds[0]);
    assert!(first_header.contains("m=1"), "first chunk must signal more data (m=1)");

    // The final command is the placement (a=p); chunked transmit data
    // is everything before it.
    let place_header = get_kitty_header(cmds.last().unwrap());
    assert!(place_header.contains("a=p"), "must end with placement");
    let chunks = &cmds[..cmds.len() - 1];

    for cmd in &chunks[1..chunks.len() - 1] {
        let h = get_kitty_header(cmd);
        assert!(h.contains("m=1"), "middle chunk must have m=1");
        assert!(!h.contains("a="), "continuation chunks should not have action key");
    }

    let last_header = get_kitty_header(chunks.last().unwrap());
    assert!(last_header.contains("m=0"), "last transmit chunk must signal end (m=0)");
}

#[test]
fn kitty_render_to_does_not_toggle_cursor() {
    let img = image(vec![0u8; 10], 10, 10, false);
    let area = Rect { x: 5, y: 5, width: 20, height: 10 };
    let output = rendered(&img, area, 1);

    assert!(output.find("\x1b[?25l").is_none(), "render_kitty_image_to must NOT hide cursor");
    assert!(output.find("\x1b[?25h").is_none(), "render_kitty_image_to must NOT show cursor");
    assert!(output.find("\x1b_G").is_some(), "should still have kitty command");
}

/// A frame is: the bulky data (cursor untouched), then a short tail of hide, place,
/// delete old, reposition and show. The cursor is not hidden while the data is sent, so
/// that it does not strobe with each frame of a video.
#[test]
fn compose_kitty_render_is_atomic_hide_draw_restore() {
    let img = image(vec![0u8; 64 * 1024], 160, 90, true);
    let area = Rect { x: 60, y: 2, width: 40, height: 20 };
    let cursor_pos = (15u16, 1u16);

    let mut output = String::new();
    compose_kitty_render(&img, fit(&img, area), area, cursor_pos, 2, 1, &mut output);

    let transmit = output.find("a=t").expect("must transmit data first");
    let hide = output.find("\x1b[?25l").expect("must hide cursor");
    let place = output.find("a=p").expect("must place the new frame");
    let restore = output
        .find(&format!("\x1b[{};{}H\x1b[?25h", cursor_pos.1 + 1, cursor_pos.0 + 1))
        .expect("must move cursor back to input before showing it");

    assert!(transmit < hide, "transmit happens before the cursor hide");
    assert!(hide < place, "hide must precede the placement");
    assert!(place < restore, "reposition must follow the placement");
    assert_eq!(output.matches("\x1b[?25h").count(), 1, "exactly one cursor show");
    assert_eq!(output.matches("\x1b[?25l").count(), 1, "exactly one cursor hide");
    assert!(
        output.ends_with("\x1b[?25h"),
        "buffer must end with the cursor visible at the input field"
    );

    // The hidden-cursor window must be tiny: place + delete + restore
    // only, far below one transmit chunk.
    let hidden_window = output.len() - hide;
    assert!(hidden_window < 128, "cursor-hidden tail must be tiny, got {} bytes", hidden_window);

    // Double-buffer ordering: the new frame (i=2) must be placed before
    // the old frame (i=1) is deleted, so the area is never blank.
    let delete_old =
        output.find("\x1b_Ga=d,d=I,i=1,q=2\x1b\\").expect("must delete the old frame id");
    assert!(
        place < delete_old,
        "old frame must only be deleted after the new frame is placed"
    );
    assert!(
        delete_old < restore,
        "delete must happen inside the atomic tail before cursor restore"
    );
}

/// Frames alternate between the two ids, always deleting the id rendered before, never
/// the one just drawn.
#[test]
fn kitty_double_buffer_alternates_ids() {
    let mut dbuf = KittyDoubleBuffer::new();
    let (a_new, a_old) = dbuf.flip();
    let (b_new, b_old) = dbuf.flip();
    let (c_new, c_old) = dbuf.flip();

    assert_ne!(a_new, a_old, "new and old ids must differ");
    assert_eq!(b_old, a_new, "next flip deletes the previous frame");
    assert_eq!(c_new, a_new, "ids alternate with period two");
    assert_eq!(c_old, b_new);
    for id in [a_new, a_old, b_new, b_old] {
        assert!(KITTY_IMAGE_IDS.contains(&id));
    }
}

/// A full clear deletes both ids, otherwise one frame can survive.
#[test]
fn kitty_clear_removes_both_buffers() {
    let mut output = String::new();
    clear_kitty_image_to(&mut output);
    for id in KITTY_IMAGE_IDS {
        assert!(
            output.contains(&format!("\x1b_Ga=d,d=I,i={},q=2\x1b\\", id)),
            "clear must delete image id {}",
            id
        );
    }
    assert_eq!(clear_kitty_image(), output);
}

/// `C=1` tells the terminal not to move the cursor after drawing the image.
#[test]
fn kitty_image_does_not_move_cursor() {
    let img = image(vec![0u8; 32], 8, 8, true);
    let area = Rect { x: 0, y: 0, width: 10, height: 5 };
    let output = rendered(&img, area, 1);
    let cmds = parse_kitty_commands(&output);
    assert!(!cmds.is_empty());
    let place = get_kitty_header(cmds.last().unwrap());
    assert!(place.contains("a=p"), "last command must be the placement");
    assert!(place.contains("C=1"), "placement must use C=1 (do not move cursor)");
}

#[test]
fn kitty_render_no_cursor_toggle() {
    let img = image(vec![0u8; 100], 50, 50, false);
    let area = Rect { x: 5, y: 5, width: 20, height: 10 };
    let output = rendered(&img, area, 1);

    assert!(
        !output.contains("\x1b[?25l"),
        "kitty render must never hide cursor — no cursor toggling at all"
    );
    assert!(
        !output.contains("\x1b[?25h"),
        "kitty render must never show cursor — no cursor toggling at all"
    );
    assert!(output.contains("\x1b_G"), "must contain kitty graphics command");
}

#[test]
fn kitty_clear_uses_id_and_quiet() {
    let mut output = String::new();
    clear_kitty_image_to(&mut output);

    assert!(output.contains("a=d"), "clear must use delete action");
    assert!(output.contains("d=I"), "must delete by image ID");
    assert!(output.contains("i=1"), "must target image ID 1");
    assert!(output.contains("q=2"), "must use quiet mode");
    assert!(!output.contains("d=a"), "must NOT delete all images");
}

#[test]
fn kitty_no_response_triggers() {
    let img = image(vec![0u8; 100], 50, 50, false);
    let area = Rect { x: 0, y: 0, width: 40, height: 20 };
    let output = rendered(&img, area, 1);

    let cmds = parse_kitty_commands(&output);
    for cmd in &cmds {
        let header = get_kitty_header(cmd);
        if header.contains("a=") {
            assert!(
                header.contains("q=2"),
                "every command with an action must have q=2 to prevent stdin spam: {}",
                header
            );
        }
    }
}

#[test]
fn kitty_aspect_ratio_preserved() {
    let img = image(vec![0u8; 10], 1920, 1080, false);
    let area = Rect { x: 0, y: 0, width: 80, height: 40 };
    let output = rendered(&img, area, 1);

    let cmds = parse_kitty_commands(&output);
    // Scaling lives on the placement command (a=p), the last one.
    let header = get_kitty_header(cmds.last().unwrap());

    let c_val: u32 = header
        .split(',')
        .find(|s| s.starts_with("c="))
        .and_then(|s| s[2..].parse().ok())
        .expect("must have c= columns");
    let r_val: u32 = header
        .split(',')
        .find(|s| s.starts_with("r="))
        .and_then(|s| s[2..].parse().ok())
        .expect("must have r= rows");

    assert!(c_val <= 80, "cols {} must fit in area width 80", c_val);
    assert!(r_val <= 40, "rows {} must fit in area height 40", r_val);
    assert!(c_val > 0 && r_val > 0, "dimensions must be positive");

    let display_ratio = c_val as f64 / r_val as f64;
    let expected_ratio = (1920.0 / 1080.0) * 2.0;
    let diff = (display_ratio - expected_ratio).abs() / expected_ratio;
    assert!(
        diff < 0.15,
        "aspect ratio off by {:.0}%: display {}/{} = {:.2}, expected {:.2}",
        diff * 100.0,
        c_val,
        r_val,
        display_ratio,
        expected_ratio
    );
}

#[test]
fn cursor_never_shown_at_wrong_position() {
    let img = image(vec![0u8; 100], 200, 100, false);
    let area = Rect { x: 50, y: 5, width: 40, height: 20 };
    let output = rendered(&img, area, 1);

    assert!(!output.contains("\x1b[?25h"), "kitty render must never make cursor visible");
    assert!(
        !output.contains("\x1b[?25l"),
        "kitty render must never hide cursor either — no toggling at all"
    );
}

#[test]
fn video_rapid_frames_no_cursor_leak() {
    let frames: Vec<CachedImage> =
        (0..5).map(|i| image(vec![i as u8; 50], 10, 10, false)).collect();
    let area = Rect { x: 50, y: 5, width: 40, height: 20 };

    let mut output = String::new();
    for frame in &frames {
        render_kitty_image_to(frame, fit(frame, area), area, 1, &mut output);
    }

    assert!(!output.contains("\x1b[?25l"), "kitty render must never hide cursor");
    assert!(!output.contains("\x1b[?25h"), "kitty render must never show cursor");

    let kitty_count = output.matches("\x1b_G").count();
    assert!(
        kitty_count >= 5,
        "should have at least 5 kitty commands (one per frame), got {}",
        kitty_count
    );
}

#[test]
fn video_preview_text_stable_across_frames() {
    let frames: Vec<CachedImage> = (0..10).map(|i| image(vec![i; 100], 40, 30, false)).collect();
    let content = PreviewContent::Video(frames);

    let mut seen_lines: HashSet<String> = HashSet::new();
    for _video_frame in 0..10 {
        let (lines, _) = preview_lines(&content);
        let text: Vec<String> = lines
            .iter()
            .map(|l| l.spans.iter().map(|s| s.text.clone()).collect::<String>())
            .collect();
        seen_lines.insert(text.join("\n"));
    }

    assert_eq!(
        seen_lines.len(),
        1,
        "preview text must be identical across all video frames to prevent \
         redraws that flash text under the image. Got {} different texts: {:?}",
        seen_lines.len(),
        seen_lines
    );
}

/// A simulation of the playback of a video.
///
/// It collects every byte that would reach the terminal, and then checks that the cursor
/// is hidden whenever an image is placed: each placement stands behind a hide with no
/// show in between.
#[test]
fn end_to_end_render_loop_no_flicker() {
    let frames: Vec<CachedImage> =
        (0..10).map(|i| image(vec![i as u8; 200], 40, 30, false)).collect();
    let area = Rect { x: 60, y: 2, width: 50, height: 25 };
    let cursor_input = (15u16, 1u16);

    let mut output = String::new();
    let mut video_frame = 0usize;
    let mut video_frame_time = 0u64;
    let mut last_rendered_path = String::new();
    let preview_path = "/test/video.mp4";

    for cycle in 0..30u64 {
        output.push_str(&format!("\x1b[{};{}H", cursor_input.1 + 1, cursor_input.0 + 1));
        output.push_str("\x1b[?25h");

        let elapsed = cycle * 20 * 1_000_000;

        if let Some(idx) = video_render_decision(
            elapsed,
            elapsed,
            &mut video_frame,
            &mut video_frame_time,
            frames.len(),
            preview_path,
            &last_rendered_path,
        ) {
            if let Some(frame) = frames.get(idx) {
                let mut buf = String::new();
                compose_kitty_render(
                    frame,
                    fit(frame, area),
                    area,
                    cursor_input,
                    2,
                    1,
                    &mut buf,
                );
                output.push_str(&buf);
            }
            last_rendered_path = preview_path.to_string();
        }
    }

    // Transmit-only commands (a=t) are cursor-safe by design; only the
    // placements (a=p) actually draw, so only they require the cursor
    // to be hidden.
    let place_positions: Vec<usize> =
        output.match_indices("\x1b_Ga=p").map(|(pos, _)| pos).collect();

    for &kpos in &place_positions {
        let before = &output[..kpos];
        let last_show = before.rfind("\x1b[?25h");
        let last_hide = before.rfind("\x1b[?25l");

        let hide_pos = last_hide.expect("placement without a preceding cursor hide");
        if let Some(show_pos) = last_show {
            assert!(
                hide_pos > show_pos,
                "cursor was visible when a frame placement was written"
            );
        }
    }

    assert!(
        !place_positions.is_empty(),
        "should have rendered at least one kitty frame placement"
    );
    assert!(
        output.ends_with("\x1b[?25h") || output.contains("\x1b[?25h"),
        "cursor must be visible somewhere in output"
    );
}

#[test]
fn image_data_is_sent_in_base64() {
    let mut out = String::new();
    kitty_transmit_to(&image(b"Man, any".to_vec(), 1, 1, false), 7, &mut out);
    assert_eq!(out, "\x1b_Ga=t,q=2,i=7,f=100,m=0;TWFuLCBhbnk=\x1b\\");
    let mut none = String::new();
    kitty_transmit_to(&image(Vec::new(), 1, 1, false), 7, &mut none);
    assert_eq!(none, "");
}

#[test]
fn images_are_centred() {
    let area = Rect { x: 3, y: 4, width: 40, height: 20 };
    assert_eq!(kitty_layout(ImageFit::Width { rows: 10 }, area), (40, 10, 0, 5));
    assert_eq!(kitty_layout(ImageFit::Height { cols: 11 }, area), (11, 20, 14, 0));
    assert_eq!(kitty_layout(ImageFit::Width { rows: 99 }, area), (40, 20, 0, 0));
}

#[test]
fn a_frame_takes_the_place_of_the_one_before() {
    let mut dbuf = KittyDoubleBuffer::new();
    let img = image(vec![1, 2, 3], 1, 1, true);
    let area = Rect { x: 0, y: 0, width: 4, height: 2 };
    let first = render_kitty_image(&img, ImageFit::Width { rows: 2 }, area, (0, 0), &mut dbuf);
    let second = render_kitty_image(&img, ImageFit::Width { rows: 2 }, area, (0, 0), &mut dbuf);
    assert!(first.contains("a=p,q=2,i=2") && first.contains("a=d,d=I,i=1"));
    assert!(second.contains("a=p,q=2,i=1") && second.contains("a=d,d=I,i=2"));
}

#[test]
fn frames_never_flicker_and_bare_images_do() {
    let area = Rect { x: 60, y: 2, width: 50, height: 25 };
    let img = image(vec![5u8; 9000], 40, 30, false);
    let draw = "\x1b[2;16H\x1b[?25h".to_string();

    let mut recorder = WriteRecorder::new(0u8);
    let mut dbuf = KittyDoubleBuffer::new();
    for _ in 0..3 {
        recorder.record(draw.as_bytes(), draw.len());
        let frame = render_kitty_image(&img, fit(&img, area), area, (15, 1), &mut dbuf);
        recorder.record(frame.as_bytes(), frame.len());
    }
    let report = analyze_writes(&recorder.writes, (15, 1));
    assert_eq!(report.writes, 6);
    assert_eq!(report.terminal.renders, 3);
    assert_eq!(report.terminal.renders_visible, 0);
    assert_eq!(report.terminal.shown_astray, 0);
    assert_eq!(report.split_flushes, 0);
    assert_eq!(
        report.total_bytes,
        recorder.writes.iter().map(|w| w.len() as u128).sum::<u128>()
    );
    let (min, _, max) = report.sizes.unwrap();
    assert_eq!(min, draw.len());
    assert!(max > 12_000);

    let bare = rendered(&img, area, 1);
    let writes = vec![
        draw.into_bytes(),
        b"\x1b[?25l".to_vec(),
        b"\x1b[?25h".to_vec(),
        bare.into_bytes(),
        b"\x1b[?25h".to_vec(),
    ];
    let report = analyze_writes(&writes, (15, 1));
    assert_eq!(report.terminal.renders, 1);
    assert_eq!(report.terminal.renders_visible, 1);
    assert_eq!(report.terminal.shown_astray, 1);
    assert_eq!(report.split_flushes, 1);
}

#[test]
fn parts_are_written_one_by_one() {
    let area = Rect { x: 4, y: 2, width: 10, height: 5 };
    let fit = ImageFit::Width { rows: 3 };
    let png = CachedImage { data: Arc::new(vec![1, 2, 3]), width: 8, height: 4, is_raw_rgb: false };
    let parts = render_in_parts(&png, fit, area, 7);
    assert_eq!(
        parts,
        vec![
            "\x1b_Ga=t,q=2,i=", "7", ",f=100,m=", "0", ";", "AQID", "\x1b\\", "\x1b[", "4", ";",
            "5", "H", "\x1b_Ga=p,q=2,i=", "7", ",C=1,c=", "10", ",r=", "3", "\x1b\\",
        ]
    );
    let raw =
        CachedImage { data: Arc::new(vec![9; 4000]), width: 40, height: 33, is_raw_rgb: true };
    let parts = render_in_parts(&raw, fit, area, 1);
    assert_eq!(parts.len(), 11 + 5 + 12);
    assert_eq!(parts[3], "40");
    assert_eq!(parts[7], "1");
    assert_eq!(parts[9].len(), 4096);
    let mut whole = String::new();
    render_kitty_image_to(&raw, fit, area, 1, &mut whole);
    assert_eq!(parts.concat(), whole);
}
