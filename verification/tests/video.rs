//! Playing a video.
use std::sync::Arc;

use ffp::bench::average_size;
use ffp::bench::check_frames;
use ffp::bench::numbered_frame;
use ffp::bench::playback_step;
use ffp::bench::stream_news;
use ffp::bench::synthetic_frame;
use ffp::kitty::CachedImage;
use ffp::video::compress_frames;
use ffp::video::dimensions_in;
use ffp::video::frame_dimensions;
use ffp::video::frame_filter;
use ffp::video::get_video_dimensions;
use ffp::video::keep_frame;
use ffp::video::video_render_decision;
use ffp::video::FrameReader;
use ffp::video::VIDEO_FRAME_INTERVAL_MS;
use ffp::video::VIDEO_PREVIEW_FRAMES;

const MILLI: u64 = 1_000_000;

#[test]
fn video_first_frame_must_render() {
    let mut frame = 0usize;
    let mut time = 0u64;
    let result = video_render_decision(0, 0, &mut frame, &mut time, 10, "/videos/test.mp4", "");
    assert_eq!(result, Some(0), "first frame of a new video must always render");
}

#[test]
fn video_same_frame_same_path_skips() {
    let mut frame = 3usize;
    let mut time = 0u64;
    let result = video_render_decision(
        10 * MILLI,
        10 * MILLI,
        &mut frame,
        &mut time,
        10,
        "/videos/test.mp4",
        "/videos/test.mp4",
    );
    assert_eq!(result, None, "should skip render when frame unchanged and path matches");
    assert_eq!(frame, 3, "frame index should not change");
}

#[test]
fn video_advances_after_interval() {
    let mut frame = 3usize;
    let mut time = 0u64;
    let result = video_render_decision(
        100 * MILLI,
        100 * MILLI,
        &mut frame,
        &mut time,
        10,
        "/videos/test.mp4",
        "/videos/test.mp4",
    );
    assert_eq!(result, Some(4), "should advance and render next frame");
    assert_eq!(frame, 4);
    assert_eq!(time, 100 * MILLI);
}

#[test]
fn video_wraps_around() {
    let mut frame = 9usize;
    let mut time = 0u64;
    let result = video_render_decision(
        100 * MILLI,
        100 * MILLI,
        &mut frame,
        &mut time,
        10,
        "/videos/test.mp4",
        "/videos/test.mp4",
    );
    assert_eq!(result, Some(0), "should wrap to frame 0");
    assert_eq!(frame, 0);
}

#[test]
fn video_clamps_when_frames_shrink() {
    let mut frame = 8usize;
    let mut time = 0u64;
    let result = video_render_decision(
        0,
        0,
        &mut frame,
        &mut time,
        5,
        "/videos/test.mp4",
        "/videos/test.mp4",
    );
    assert_eq!(result, Some(0), "must clamp out-of-bounds frame and render");
    assert_eq!(frame, 0);
}

#[test]
fn video_empty_frames_never_renders() {
    let mut frame = 0usize;
    let mut time = 0u64;
    let result = video_render_decision(
        100 * MILLI,
        100 * MILLI,
        &mut frame,
        &mut time,
        0,
        "/videos/test.mp4",
        "",
    );
    assert_eq!(result, None, "must not render when there are no frames");
}

#[test]
fn video_path_change_triggers_render() {
    let mut frame = 0usize;
    let mut time = 0u64;
    let result = video_render_decision(
        0,
        0,
        &mut frame,
        &mut time,
        10,
        "/videos/new.mp4",
        "/videos/old.mp4",
    );
    assert_eq!(result, Some(0), "path change must trigger render");
}

#[test]
fn video_no_flicker_simulation() {
    // Twenty cycles of 16 ms for a video of ten frames. Every cycle must either render or
    // have a valid reason to skip.
    let mut frame = 0usize;
    let mut time = 0u64;
    let mut last_path = String::new();
    let path = "/videos/test.mp4";
    let mut render_count = 0;
    let mut gap = 0;
    let mut elapsed_since_render = 0u64;
    let max_gap = (VIDEO_FRAME_INTERVAL_MS as usize).div_ceil(16) + 1;

    for cycle in 0..20 {
        let fake_elapsed = if cycle == 0 { 0 } else { elapsed_since_render + 16 * MILLI };

        let result = video_render_decision(
            fake_elapsed,
            fake_elapsed,
            &mut frame,
            &mut time,
            10,
            path,
            &last_path,
        );

        if let Some(_idx) = result {
            render_count += 1;
            last_path = path.to_string();
            gap = 0;
            elapsed_since_render = 0;
        } else {
            gap += 1;
            elapsed_since_render = fake_elapsed;
            assert!(
                gap <= max_gap,
                "flicker detected: {} consecutive skipped renders at cycle {} (frame {})",
                gap,
                cycle,
                frame
            );
        }
    }

    assert!(render_count >= 1, "must render at least the first frame");
}

#[test]
fn dimensions_are_read_from_what_the_tool_prints() {
    assert_eq!(get_video_dimensions(b"1920x1080\n"), Some((1920, 1080)));
    assert_eq!(dimensions_in("640x480"), Some((640, 480)));
    assert_eq!(dimensions_in("640"), None);
    assert_eq!(get_video_dimensions(b""), None);
    assert_eq!(frame_dimensions(361, 203), (360, 202));
    assert_eq!(frame_dimensions(1, 0), (2, 2));
}

#[test]
fn frames_are_scaled_by_the_tool() {
    assert_eq!(
        frame_filter("15.0000", 360, 202),
        "fps=15.0000,scale=360:202:force_original_aspect_ratio=decrease,\
         pad=360:202:(ow-iw)/2:(oh-ih)/2"
    );
}

#[test]
fn frames_are_cut_out_of_a_stream() {
    let mut reader = FrameReader::new(2, 1);
    assert!(reader.feed(&[1, 2, 3]).is_empty());
    let frames = reader.feed(&[4, 5, 6, 7, 8, 9, 10, 11, 12, 13]);
    assert_eq!(frames.len(), 2);
    assert_eq!(*frames[0].data, vec![1, 2, 3, 4, 5, 6]);
    assert_eq!(*frames[1].data, vec![7, 8, 9, 10, 11, 12]);
    assert!(frames[0].is_raw_rgb);
    assert_eq!((frames[0].width, frames[0].height), (2, 1));
    assert!(!reader.is_done());
    let rest = reader.feed(&vec![0u8; 6 * 100]);
    assert_eq!(rest.len(), VIDEO_PREVIEW_FRAMES - 2);
    assert!(reader.is_done());
}

#[test]
fn kept_frames_are_png() {
    let raw = synthetic_frame(4, 2, true);
    let done = CachedImage { data: Arc::new(vec![9]), width: 1, height: 1, is_raw_rgb: false };
    let broken = CachedImage { data: Arc::new(vec![1]), width: 4, height: 2, is_raw_rgb: true };
    let long = CachedImage { data: Arc::new(vec![1; 4]), width: 1, height: 1, is_raw_rgb: true };
    let kept = compress_frames(&vec![raw, done, broken, long]);
    assert_eq!(kept.len(), 2);
    assert_eq!(kept[0].data[..4], [0x89, b'P', b'N', b'G']);
    assert_eq!((kept[0].width, kept[0].height, kept[0].is_raw_rgb), (4, 2, false));
    assert_eq!(*kept[1].data, vec![9]);
    assert!(keep_frame(&synthetic_frame(4, 2, true), None).is_none());
}

#[test]
fn frames_are_checked() {
    let good = numbered_frame(0, 20, 10);
    let same = numbered_frame(0, 20, 10);
    let other = numbered_frame(1, 20, 10);
    assert_eq!(other.data[0], 7);
    let bad = CachedImage { data: Arc::new(vec![0; 50]), width: 5, height: 5, is_raw_rgb: true };
    let report = check_frames(&vec![good, same, other, bad]);
    assert_eq!(report.total_bytes, 3 * 600 + 50);
    assert_eq!(report.bad, vec![3]);
    assert_eq!(report.duplicates, 1);
    assert_eq!(average_size(report.total_bytes, 4), 462);
    assert_eq!(average_size(0, 0), 0);
}

#[test]
fn made_up_frames_count_up() {
    let raw = synthetic_frame(10, 10, true);
    assert_eq!(raw.data.len(), 300);
    assert_eq!(raw.data[299], 43);
    let png = synthetic_frame(10, 10, false);
    assert_eq!(png.data.len(), 100);
}

#[test]
fn playback_never_leaves_the_frames() {
    let mut frame = 2usize;
    let mut since = 0u64;
    assert!(!playback_step(100 * MILLI, 5, &mut frame, &mut since, 3));
    assert_eq!((frame, since), (0, 5));
    frame = 7;
    assert!(playback_step(0, 6, &mut frame, &mut since, 3));
    assert_eq!((frame, since), (0, 5));
}

#[test]
fn news_of_a_stream_come_every_ten_frames() {
    assert_eq!(stream_news(1, 0, false, false), (true, false));
    assert_eq!(stream_news(20, 11, true, false), (false, true));
    assert_eq!(stream_news(23, 20, true, true), (false, true));
    assert_eq!(stream_news(23, 23, true, true), (false, false));
}
