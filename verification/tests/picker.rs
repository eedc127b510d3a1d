//! The state of the picker.
use std::sync::Arc;

use ffp::app::App;
use ffp::app::Column;
use ffp::app::LoadOrder;
use ffp::app::PoolId;
use ffp::app::PreviewContent;
use ffp::app::is_sound_result;
use ffp::clock::Timestamp;
use ffp::entry::FileEntry;
use ffp::entry::FileMetadata;
use ffp::incremental::SearchResult;
use ffp::incremental::answer_search;
use ffp::incremental::MatchSearchState;
use ffp::incremental::SearchScope;
use ffp::keys::handle_key_press;
use ffp::keys::ExitAction;
use ffp::keys::KeyCode;
use ffp::keys::KeyEffect;
use ffp::keys::KeyModifiers;
use ffp::kitty::CachedImage;
use ffp::kitty::Rect;
use ffp::rank::stand_for_entries;
use ffp::recency::RecencyIndex;
use ffp::search::MatchEntry;
use ffp::session::graphics_step;
use ffp::session::inner_area;
use ffp::session::is_input_recent;
use ffp::session::may_read_more;
use ffp::session::parse_arguments;
use ffp::session::poll_interval;
use ffp::session::selection_text;
use ffp::session::Graphics;
use ffp::session::GraphicsStep;
use ffp::session::Mode;
use ffp::viewer::KeptVideo;
use ffp::viewer::PreviewResult;
use ffp::viewer::PreviewResultContent;
use ffp::viewer::PreviewStep;
use ffp::viewer::VideoProgress;

fn entry(path: &str, secs: i128) -> FileEntry {
    let time = Timestamp { nanos: secs * 1_000_000_000 };
    let metadata = FileMetadata { is_dir: false, modified: Some(time), accessed: None };
    FileEntry::from_metadata(path.to_string(), Some(metadata), &RecencyIndex::default())
}

fn pool() -> Arc<Vec<FileEntry>> {
    Arc::new(vec![
        entry("/d/main.rs", 10),
        entry("/d/main.mp4", 30),
        entry("/d/main.png", 20),
    ])
}

/// Lets a search run its course.
fn search(app: &mut App, files: &Arc<Vec<FileEntry>>, version: u64) {
    let mut state = MatchSearchState::new(app.active_scope());
    if let Some(request) = app.update_matches(Vec::new(), Arc::clone(files), version) {
        let result = answer_search(request, &mut state);
        assert!(app.update_matches(vec![result], Arc::clone(files), version).is_none());
    }
}

fn press(app: &mut App, code: KeyCode, modifiers: KeyModifiers) -> (bool, KeyEffect) {
    let mut chosen = None;
    handle_key_press(code, modifiers, app, false, &mut chosen)
}

fn control(app: &mut App, c: char) -> KeyEffect {
    press(app, KeyCode::Char(c), KeyModifiers::Control).1
}

#[test]
fn a_new_picker_loads_a_pool() {
    let (app, order) = App::new(false, 7);
    assert_eq!(
        order,
        LoadOrder { pool: PoolId::Recent, dir_mode: false, recent_only: true, feeds_all: true }
    );
    assert_eq!(app.active_scope(), SearchScope::Recent);
    assert_eq!(app.files_for_scope(SearchScope::All), PoolId::All);
    let (app, order) = App::new(true, 7);
    assert_eq!(order.pool, PoolId::Directories);
    assert_eq!(app.active_scope(), SearchScope::All);
    assert_eq!(app.files_for_scope(SearchScope::Recent), PoolId::Directories);
}

#[test]
fn typing_asks_for_searches_once() {
    let (mut app, _) = App::new(false, 0);
    let files = pool();
    press(&mut app, KeyCode::Char('m'), KeyModifiers::Bare);
    let request = app.update_matches(Vec::new(), Arc::clone(&files), 1).unwrap();
    assert_eq!(request.id, 1);
    assert_eq!(request.query, "m");
    assert!(app.search_pending());
    assert!(app.update_matches(Vec::new(), Arc::clone(&files), 1).is_none());
    let again = app.update_matches(Vec::new(), Arc::clone(&files), 2).unwrap();
    assert_eq!(again.id, 2);

    // The outcome of the first search is too late, that of the second counts.
    let mut state = MatchSearchState::new(SearchScope::Recent);
    let late = answer_search(request, &mut state);
    assert!(app.update_matches(vec![late], Arc::clone(&files), 2).is_none());
    assert!(app.matches.is_empty());
    let result = answer_search(again, &mut state);
    app.update_matches(vec![result], Arc::clone(&files), 2);
    assert_eq!(app.matches.len(), 3);
    assert!(!app.search_pending());
    assert!(Arc::ptr_eq(&app.matches_files, &files));
}

#[test]
fn the_selection_stays_on_the_list() {
    let (mut app, _) = App::new(false, 0);
    let files = pool();
    search(&mut app, &files, 1);
    assert_eq!(app.selected_file().as_deref(), Some("/d/main.rs"));
    press(&mut app, KeyCode::Up, KeyModifiers::Bare);
    assert_eq!(app.selected, 0);
    control(&mut app, 'n');
    press(&mut app, KeyCode::Tab, KeyModifiers::Bare);
    press(&mut app, KeyCode::Down, KeyModifiers::Shift);
    assert_eq!(app.selected, 2);
    control(&mut app, 'k');
    assert_eq!(app.selected_file().as_deref(), Some("/d/main.mp4"));
    control(&mut app, 'l');
    assert_eq!(app.active_column, Column::Recent);
    assert_eq!(app.selected_file().as_deref(), Some("/d/main.png"));
    control(&mut app, 'h');
    assert_eq!(app.active_column, Column::Ranked);
    assert_eq!(app.active_matches().len(), 3);
}

#[test]
fn keys_edit_the_query() {
    let (mut app, _) = App::new(false, 0);
    for c in "foo  bar ".chars() {
        press(&mut app, KeyCode::Char(c), KeyModifiers::Bare);
    }
    press(&mut app, KeyCode::Char('X'), KeyModifiers::Shift);
    press(&mut app, KeyCode::Backspace, KeyModifiers::Bare);
    assert_eq!(app.query, "foo  bar ");
    control(&mut app, 'w');
    assert_eq!(app.query, "foo  ");
    press(&mut app, KeyCode::Backspace, KeyModifiers::Alt);
    assert_eq!(app.query, "");
    press(&mut app, KeyCode::Char('a'), KeyModifiers::Alt);
    assert_eq!(app.query, "");
    press(&mut app, KeyCode::Char('a'), KeyModifiers::Bare);
    control(&mut app, 'u');
    assert_eq!(app.query, "");
}

#[test]
fn keys_change_what_is_searched() {
    let (mut app, _) = App::new(false, 0);
    let files = pool();
    search(&mut app, &files, 1);
    let effect = control(&mut app, 'z');
    assert!(matches!(
        effect,
        KeyEffect::Load(LoadOrder {
            pool: PoolId::All,
            dir_mode: false,
            recent_only: false,
            feeds_all: false
        })
    ));
    assert_eq!(app.active_scope(), SearchScope::All);
    // What was found stays until something new is.
    assert_eq!(app.matches.len(), 3);
    assert!(matches!(control(&mut app, 'z'), KeyEffect::Nothing));

    let effect = control(&mut app, 'p');
    assert!(matches!(effect, KeyEffect::Load(LoadOrder { pool: PoolId::Directories, .. })));
    assert!(app.matches.is_empty() && app.matches_files.is_empty());
    assert!(matches!(control(&mut app, 'z'), KeyEffect::Nothing));
    let effect = control(&mut app, 'p');
    assert!(matches!(
        effect,
        KeyEffect::Load(LoadOrder { pool: PoolId::Recent, feeds_all: true, .. })
    ));
}

#[test]
fn leaving_says_what_comes_next() {
    let (mut app, _) = App::new(false, 0);
    let files = pool();
    let mut chosen = None;
    assert!(handle_key_press(KeyCode::Enter, KeyModifiers::Bare, &mut app, false, &mut chosen).0);
    assert!(chosen.is_none());
    search(&mut app, &files, 1);
    assert!(handle_key_press(KeyCode::Esc, KeyModifiers::Bare, &mut app, false, &mut chosen).0);
    assert!(chosen.is_none());
    handle_key_press(KeyCode::Enter, KeyModifiers::Bare, &mut app, false, &mut chosen);
    assert!(matches!(&chosen, Some(ExitAction::Open(p)) if p == "/d/main.rs"));
    handle_key_press(KeyCode::Enter, KeyModifiers::Bare, &mut app, true, &mut chosen);
    assert!(matches!(&chosen, Some(ExitAction::Choose(p)) if p == "/d/main.rs"));
    app.drag_mode = true;
    handle_key_press(KeyCode::Enter, KeyModifiers::Bare, &mut app, false, &mut chosen);
    assert!(matches!(&chosen, Some(ExitAction::Drag(p)) if p == "/d/main.rs"));
    app.drag_mode = false;
    chosen = None;
    let (left, _) =
        handle_key_press(KeyCode::Char('d'), KeyModifiers::Control, &mut app, false, &mut chosen);
    assert!(left);
    assert!(matches!(&chosen, Some(ExitAction::Drag(p)) if p == "/d/main.rs"));
    assert!(matches!(control(&mut app, 'y'), KeyEffect::CopyPath(p) if p == "/d/main.rs"));
}

fn small_image(byte: u8) -> CachedImage {
    CachedImage { data: Arc::new(vec![byte]), width: 1, height: 1, is_raw_rgb: false }
}

fn note_of(app: &App) -> String {
    match &app.preview_content {
        PreviewContent::Text(lines) => lines[0].spans[0].text.clone(),
        _ => panic!("no text is shown"),
    }
}

#[test]
fn previews_are_asked_for_and_late_ones_dropped() {
    let (mut app, _) = App::new(false, 0);
    let files = pool();
    search(&mut app, &files, 1);
    let step = app.update_preview(None, Vec::new(), None, 1);
    let request = match step {
        PreviewStep::Request(request) => request,
        _ => panic!("a preview is asked for"),
    };
    assert_eq!(request.path, "/d/main.rs");
    assert_eq!(note_of(&app), "Loading preview...");
    assert!(matches!(app.update_preview(None, Vec::new(), None, 2), PreviewStep::Nothing));

    let stale = PreviewResult {
        id: request.id - 1,
        path: request.path.clone(),
        content: PreviewResultContent::Image(None),
    };
    let other = PreviewResult {
        id: request.id,
        path: "/other".to_string(),
        content: PreviewResultContent::Image(None),
    };
    app.update_preview(None, vec![stale, other], None, 3);
    assert_eq!(note_of(&app), "Loading preview...");
    let result = PreviewResult {
        id: request.id,
        path: request.path,
        content: PreviewResultContent::Image(None),
    };
    app.update_preview(None, vec![result], None, 4);
    assert_eq!(note_of(&app), "[Cannot load image]");
}

#[test]
fn images_are_kept() {
    let (mut app, _) = App::new(false, 0);
    let files = pool();
    search(&mut app, &files, 1);
    app.selected = 2;
    let request = match app.update_preview(None, Vec::new(), None, 1) {
        PreviewStep::Request(request) => request,
        _ => panic!("a preview is asked for"),
    };
    assert_eq!(note_of(&app), "Loading image...");
    let result = PreviewResult {
        id: request.id,
        path: request.path,
        content: PreviewResultContent::Image(Some(small_image(5))),
    };
    app.update_preview(None, vec![result], None, 2);
    assert!(matches!(&app.preview_content, PreviewContent::Image(img) if img.data[0] == 5));
    app.selected = 0;
    app.update_preview(None, Vec::new(), None, 3);
    app.selected = 2;
    // No new request: the image is at hand.
    assert!(matches!(app.update_preview(None, Vec::new(), None, 4), PreviewStep::Nothing));
    assert!(matches!(&app.preview_content, PreviewContent::Image(_)));
}

#[test]
fn videos_are_loaded_played_and_kept() {
    let (mut app, _) = App::new(false, 0);
    let files = pool();
    search(&mut app, &files, 1);
    app.selected = 1;
    let step = app.update_preview(None, Vec::new(), None, 1);
    assert!(matches!(step, PreviewStep::LoadVideo(p) if p == "/d/main.mp4"));
    assert!(matches!(app.preview_content, PreviewContent::VideoLoading));
    assert!(app.video_loader);

    let progress = VideoProgress { frames: vec![small_image(1)], done: false };
    app.update_preview(None, Vec::new(), Some(progress), 2);
    assert!(matches!(&app.preview_content, PreviewContent::VideoStreaming(f) if f.len() == 1));

    let progress =
        VideoProgress { frames: vec![small_image(1), small_image(2)], done: true };
    let step = app.update_preview(None, Vec::new(), Some(progress), 3);
    let kept = match step {
        PreviewStep::KeepVideo(kept) => kept,
        _ => panic!("the frames are to be kept"),
    };
    assert_eq!(kept.path, "/d/main.mp4");
    assert_eq!(kept.frames.len(), 2);
    assert!(!app.video_loader);

    app.selected = 0;
    let back = KeptVideo { path: kept.path, frames: vec![small_image(7)] };
    app.update_preview(Some(back), Vec::new(), None, 4);
    app.selected = 1;
    app.video_frame = 5;
    assert!(matches!(app.update_preview(None, Vec::new(), None, 9), PreviewStep::Nothing));
    assert!(matches!(&app.preview_content, PreviewContent::Video(f) if f[0].data[0] == 7));
    assert_eq!((app.video_frame, app.video_frame_time), (0, 9));
}

#[test]
fn a_video_without_frames_is_told() {
    let (mut app, _) = App::new(false, 0);
    let files = pool();
    search(&mut app, &files, 1);
    app.selected = 1;
    app.update_preview(None, Vec::new(), None, 1);
    let progress = VideoProgress { frames: Vec::new(), done: true };
    app.update_preview(None, Vec::new(), Some(progress), 2);
    assert_eq!(note_of(&app), "[Cannot load video]");
}

#[test]
fn graphics_are_drawn_once_and_taken_away() {
    let (mut app, _) = App::new(false, 0);
    let area = Rect { x: 10, y: 5, width: 30, height: 1 };
    let inner = inner_area(area);
    assert_eq!(inner, Rect { x: 11, y: 6, width: 28, height: 0 });
    let mut graphics = Graphics { shown: false, rendered_path: String::new() };
    app.preview_path = "/d/main.png".to_string();
    app.preview_content = PreviewContent::Image(small_image(1));
    let step = graphics_step(&mut app, &mut graphics, Some(area), true, 0, 0);
    assert_eq!(step, GraphicsStep::Postpone);
    let step = graphics_step(&mut app, &mut graphics, Some(area), false, 0, 0);
    assert_eq!(step, GraphicsStep::DrawImage(inner));
    let step = graphics_step(&mut app, &mut graphics, Some(area), false, 0, 0);
    assert_eq!(step, GraphicsStep::Nothing);
    let step = graphics_step(&mut app, &mut graphics, None, false, 0, 0);
    assert_eq!(step, GraphicsStep::Clear);
    let step = graphics_step(&mut app, &mut graphics, None, false, 0, 0);
    assert_eq!(step, GraphicsStep::Nothing);

    app.preview_path = "/d/main.mp4".to_string();
    app.preview_content = PreviewContent::Video(vec![small_image(1), small_image(2)]);
    let step = graphics_step(&mut app, &mut graphics, Some(area), false, 0, 0);
    assert_eq!(step, GraphicsStep::DrawFrame(0, inner));
    let step = graphics_step(&mut app, &mut graphics, Some(area), false, 100_000_000, 8);
    assert_eq!(step, GraphicsStep::DrawFrame(1, inner));
    assert_eq!((app.video_frame, app.video_frame_time), (1, 8));
    assert_eq!(graphics.rendered_path, "/d/main.mp4");
}

#[test]
fn waits_are_short_while_something_moves() {
    let (mut app, _) = App::new(false, 0);
    assert_eq!(poll_interval(&app), 100);
    app.latest_search_id = 1;
    assert_eq!(poll_interval(&app), 8);
    app.preview_content = PreviewContent::VideoLoading;
    assert_eq!(poll_interval(&app), 50);
    app.preview_content = PreviewContent::Video(Vec::new());
    assert_eq!(poll_interval(&app), 16);
    assert!(is_input_recent(Some(89_999_999)));
    assert!(!is_input_recent(Some(90_000_000)));
    assert!(!is_input_recent(None));
    assert!(may_read_more(31, false));
    assert!(!may_read_more(32, false));
    assert!(!may_read_more(0, true));
}

#[test]
fn arguments_are_read() {
    let args: Vec<String> =
        ["ffp", "--drag", "--selection-path", "/tmp/x", "--dir"].map(String::from).to_vec();
    let options = parse_arguments(&args);
    assert_eq!(options.mode, Mode::Pick);
    assert!(options.drag_mode && options.dir_mode);
    assert_eq!(options.selection_path.as_deref(), Some("/tmp/x"));
    let options = parse_arguments(&vec!["ffp".to_string(), "--selection-path".to_string()]);
    assert_eq!(options.selection_path, None);
    let args: Vec<String> = ["ffp", "--test-video", "--profile"].map(String::from).to_vec();
    assert_eq!(parse_arguments(&args).mode, Mode::Profile);
    assert_eq!(selection_text("/tmp/x"), "/tmp/x\n");
}

#[test]
fn matches_stand_for_entries() {
    let matches = |index: usize| {
        vec![MatchEntry { index: 0, score: 1 }, MatchEntry { index, score: 0 }]
    };
    assert!(stand_for_entries(&matches(1), 2));
    assert!(!stand_for_entries(&matches(2), 2));
    assert!(stand_for_entries(&Vec::new(), 0));
    let result = |first: usize, second: usize| SearchResult {
        id: 1,
        query: String::new(),
        scope: SearchScope::Recent,
        files: Arc::new(vec![entry("/a", 1), entry("/b", 2)]),
        matches: matches(first),
        matches_by_time: matches(second),
    };
    assert!(is_sound_result(&result(1, 1)));
    assert!(!is_sound_result(&result(2, 1)));
    assert!(!is_sound_result(&result(1, 2)));
}
