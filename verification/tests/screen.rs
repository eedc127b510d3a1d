//! What is shown.
use std::sync::Arc;

use ffp::app::App;
use ffp::app::Column;
use ffp::app::PreviewContent;
use ffp::clock::Timestamp;
use ffp::entry::FileEntry;
use ffp::entry::FileMetadata;
use ffp::files::get_icon;
use ffp::files::is_image_file;
use ffp::files::is_text_extension;
use ffp::files::is_text_mime;
use ffp::files::is_video_file;
use ffp::highlight::MAX_COLORED;
use ffp::highlight::color_line;
use ffp::highlight::highlight_preview;
use ffp::highlight::load_preview_result_content;
use ffp::highlight::load_theme;
use ffp::highlight::source_kind;
use ffp::highlight::PreviewRead;
use ffp::highlight::SourceKind;
use ffp::highlight::Syntaxes;
use ffp::kitty::Rect;
use ffp::preview::plain_preview;
use ffp::preview::preview_of;
use ffp::preview::read_directory_preview;
use ffp::preview::read_preview;
use ffp::preview::DirItem;
use ffp::preview::PreviewSource;
use ffp::preview::reads_more;
use ffp::recency::RecencyIndex;
use ffp::search::MatchEntry;
use ffp::style::Color;
use ffp::style::StyledLine;
use ffp::thumbnail::load_thumbnail;
use ffp::thumbnail::Picture;
use ffp::view::build_file_items;
use ffp::view::cursor_position;
use ffp::view::help_line;
use ffp::view::preview_lines;
use ffp::view::screen_areas;
use ffp::view::split_name;
use ffp::view::ui;
use ffp::viewer::PreviewResultContent;
use syntect::highlighting::ThemeSet;

fn text_of(line: &StyledLine) -> String {
    line.spans.iter().map(|s| s.text.clone()).collect()
}

fn item(name: &str, is_dir: bool) -> DirItem {
    DirItem { name: name.as_bytes().to_vec(), is_dir }
}

fn strings(lines: &[&str]) -> Vec<String> {
    lines.iter().map(|l| l.to_string()).collect()
}

#[test]
fn read_preview_lists_directory_contents() {
    let items = vec![item("hello.txt", false), item("nested", true)];
    let preview = read_directory_preview("/tmp/dir-preview", &items, 10);
    assert!(!preview.is_empty());
    assert!(preview[0].starts_with("Directory: "));
    assert!(preview.iter().any(|line| line == "nested/"));
    assert!(preview.iter().any(|line| line == "hello.txt"));
}

#[test]
fn directories_are_listed_in_order_and_cut() {
    let items =
        vec![item("b.txt", false), item("z", true), item("a.txt", false), item("c.txt", false)];
    let preview = read_directory_preview("/d", &items, 10);
    assert_eq!(preview, strings(&["Directory: /d", "z/", "a.txt", "b.txt", "c.txt"]));
    let preview = read_directory_preview("/d", &items, 3);
    assert_eq!(preview, strings(&["Directory: /d", "z/", "a.txt", "\u{2026} 2 more"]));
    let preview = read_directory_preview("/d", &Vec::new(), 10);
    assert_eq!(preview, strings(&["Directory: /d", "[empty directory]"]));
    let odd = vec![DirItem { name: vec![b'a', 0xff], is_dir: false }];
    assert_eq!(read_directory_preview("/d", &odd, 10)[1], "a\u{fffd}");
}

#[test]
fn long_lines_are_cut() {
    let long = "x".repeat(61);
    let shown = read_preview(&vec!["a\tb".to_string(), long]);
    assert_eq!(shown[0], "a  b");
    assert_eq!(shown[1], format!("{}...", "x".repeat(57)));
    assert_eq!(plain_preview(&strings(&["a", "b"])).len(), 2);
}

#[test]
fn what_cannot_be_read_is_told() {
    assert_eq!(preview_of("", PreviewSource::Unreadable), strings(&["No file selected"]));
    assert_eq!(preview_of("/a", PreviewSource::Unreadable), strings(&["[Cannot read file]"]));
    assert_eq!(
        preview_of("/a", PreviewSource::ClosedDirectory),
        strings(&["[Cannot read directory]"])
    );
    let many: Vec<String> = (0..50).map(|i| format!("line {}", i)).collect();
    assert_eq!(preview_of("/a", PreviewSource::File(many)).len(), 40);
    assert_eq!(
        preview_of("/a", PreviewSource::File(Vec::new())),
        strings(&["[Empty file]"])
    );
    assert_eq!(
        preview_of("/a", PreviewSource::File(strings(&["a\0b"]))),
        strings(&["[Binary file]"])
    );
    assert_eq!(
        preview_of("/a", PreviewSource::Directory(vec![item("b", true)])),
        strings(&["Directory: /a", "b/"])
    );
}

/// A bitmap of two pixels by one.
fn bitmap() -> Vec<u8> {
    let mut bytes = b"BM".to_vec();
    bytes.extend(62u32.to_le_bytes());
    bytes.extend([0u8; 4]);
    bytes.extend(54u32.to_le_bytes());
    bytes.extend(40u32.to_le_bytes());
    bytes.extend(2i32.to_le_bytes());
    bytes.extend(1i32.to_le_bytes());
    bytes.extend(1u16.to_le_bytes());
    bytes.extend(24u16.to_le_bytes());
    bytes.extend([0u8; 24]);
    bytes.extend([255, 0, 0, 0, 0, 255, 0, 0]);
    bytes
}

#[test]
fn images_are_made_small() {
    let picture = Picture::read(&bitmap()).unwrap();
    assert_eq!(picture.dimensions(), (2, 1));
    let small = load_thumbnail(&picture, 1, 1).unwrap();
    assert_eq!((small.width, small.height, small.is_raw_rgb), (1, 1, false));
    assert_eq!(Picture::read(&small.data).unwrap().dimensions(), (1, 1));
    assert_eq!(small.data[..4], [0x89, b'P', b'N', b'G']);
    assert!(load_thumbnail(&picture, 1, 0).is_none());
    assert!(Picture::read(b"no image").is_none());
}

#[test]
fn names_tell_what_files_are() {
    assert!(is_image_file("/a/B.PNG"));
    assert!(!is_image_file("/a/png"));
    assert!(is_video_file("clip.mkv"));
    assert!(is_text_extension("notes.md"));
    assert!(!is_text_extension("photo.jpg"));
    assert!(is_text_mime("text/plain"));
    assert!(is_text_mime("application/json"));
    assert!(!is_text_mime("image/png"));
}

#[test]
fn icons_go_by_extension() {
    let (rust, _) = get_icon("main.rs");
    let (python, _) = get_icon("main.py");
    assert_ne!(rust, python);
    assert_eq!(get_icon("MAIN.RS"), get_icon("main.rs"));
}

#[test]
fn names_are_split_before_the_extension() {
    assert_eq!(split_name("a.tar.gz"), ("a.tar".to_string(), ".gz".to_string()));
    assert_eq!(split_name(".bashrc"), (".bashrc".to_string(), String::new()));
    assert_eq!(split_name("Makefile"), ("Makefile".to_string(), String::new()));
    assert_eq!(split_name(".."), ("..".to_string(), String::new()));
}

fn files() -> Arc<Vec<FileEntry>> {
    let time = Timestamp { nanos: 40_000_000_000 };
    let file = FileMetadata { is_dir: false, modified: Some(time), accessed: None };
    let dir = FileMetadata { is_dir: true, modified: Some(time), accessed: None };
    let index = RecencyIndex::default();
    Arc::new(vec![
        FileEntry::from_metadata("/d/main.rs".to_string(), Some(file), &index),
        FileEntry::from_metadata("/d/sub.d".to_string(), Some(dir), &index),
    ])
}

#[test]
fn entries_have_one_line_each() {
    let now = Timestamp { nanos: 100_000_000_000 };
    let matches = vec![
        MatchEntry { index: 1, score: 2 },
        MatchEntry { index: 9, score: 1 },
        MatchEntry { index: 0, score: 0 },
    ];
    let lines = build_file_items(&matches, &files(), now);
    assert_eq!(lines.len(), 2);
    assert_eq!(text_of(&lines[0]), "  \u{f115} sub.d 1m mod /d");
    assert_eq!(lines[0].spans[0].color, Color::Cyan);
    assert_eq!(lines[1].spans[1].text, "main");
    assert!(lines[1].spans[1].bold);
    assert_eq!(lines[1].spans[2].text, ".rs");
    assert_eq!(lines[1].spans[5].text, "/d");
}

#[test]
fn the_screen_is_shared_out_by_its_width() {
    let wide = screen_areas(Rect { x: 0, y: 0, width: 120, height: 40 });
    assert!(wide.recent.is_none());
    assert_eq!(wide.input, Rect { x: 0, y: 0, width: 60, height: 3 });
    assert_eq!(wide.preview, Rect { x: 60, y: 0, width: 60, height: 40 });
    assert_eq!(wide.status, Rect { x: 0, y: 38, width: 60, height: 1 });
    assert_eq!(wide.help, Rect { x: 0, y: 39, width: 60, height: 1 });
    let dual = screen_areas(Rect { x: 0, y: 0, width: 200, height: 40 });
    assert_eq!(dual.preview, Rect { x: 120, y: 0, width: 80, height: 40 });
    assert_eq!(dual.recent, Some(Rect { x: 60, y: 3, width: 60, height: 35 }));
    let narrow = screen_areas(Rect { x: 0, y: 0, width: 80, height: 40 });
    assert_eq!(narrow.input, Rect { x: 0, y: 0, width: 80, height: 3 });
    assert_eq!(narrow.help, Rect { x: 0, y: 39, width: 80, height: 1 });
    assert!(narrow.recent.is_none());
}

#[test]
fn the_cursor_stands_behind_the_query() {
    let input = Rect { x: 2, y: 3, width: 10, height: 3 };
    assert_eq!(cursor_position(input, "abc"), Some((6, 4)));
    assert_eq!(cursor_position(input, "é"), Some((5, 4)));
    let edge = Rect { x: u16::MAX, y: 3, width: 0, height: 3 };
    assert_eq!(cursor_position(edge, ""), None);
}

#[test]
fn the_screen_shows_the_state() {
    let (mut app, _) = App::new(false, 0);
    app.matches_files = files();
    app.matches = vec![MatchEntry { index: 0, score: 0 }];
    app.matches_by_time = vec![MatchEntry { index: 0, score: 0 }];
    app.query = "ma".to_string();
    let area = Rect { x: 0, y: 0, width: 120, height: 40 };
    let now = Timestamp { nanos: 0 };
    let screen = ui(&app, area, 7, true, now);
    assert_eq!(
        screen.status,
        "1 matches (loading...) | 7 files | pool: recent (9d) | ^Z pool | ^P mode"
    );
    assert_eq!(screen.input_title, " \u{f002} recent (9d) ");
    assert_eq!(screen.preview_title, " Preview ");
    assert_eq!(text_of(&screen.preview_lines[0]), "No file selected");
    assert_eq!(screen.ranked_row, Some(0));
    assert_eq!(screen.recent_row, None);
    assert_eq!(screen.image_area, None);
    assert_eq!(screen.cursor, Some((3, 1)));
    assert_eq!(screen.ranked_items.len(), 1);

    app.active_column = Column::Recent;
    app.preview_content = PreviewContent::Video(Vec::new());
    let screen = ui(&app, area, 7, false, now);
    assert_eq!(screen.preview_title, " Video ");
    assert_eq!(screen.image_area, Some(screen.areas.preview));
    assert_eq!(screen.recent_row, Some(0));
    app.dir_mode = true;
    let screen = ui(&app, area, 7, false, now);
    assert_eq!(screen.status, "1 matches | 7 dirs | pool: all | ^P mode");
    assert_eq!(screen.preview_title, " Directory ");
}

#[test]
fn help_tells_the_keys() {
    assert_eq!(
        text_of(&help_line(false, false)),
        "Enter open  ^P dirs  ^D drag  z pool  Esc cancel  \u{2191}\u{2193} nav  ^U clr"
    );
    assert_eq!(
        text_of(&help_line(true, true)),
        "Enter drag  ^P files  Esc cancel  \u{2191}\u{2193} nav  ^U clr"
    );
}

#[test]
fn previews_without_graphics_have_text() {
    let (lines, graphics) = preview_lines(&PreviewContent::VideoStreaming(Vec::new()));
    assert_eq!(text_of(&lines[0]), "Loading video...");
    assert!(!graphics);
    let (lines, graphics) = preview_lines(&PreviewContent::Video(Vec::new()));
    assert!(lines.is_empty());
    assert!(graphics);
}

#[test]
fn code_is_coloured_without_changing_it() {
    let syntaxes = Syntaxes::load();
    let theme = load_theme();
    let lines = strings(&["fn main() {", "    let x = 1;", "}"]);
    let shown = highlight_preview(&lines, "/a/main.rs", &syntaxes, &theme);
    assert_eq!(shown.len(), 3);
    for (line, colored) in lines.iter().zip(&shown) {
        assert_eq!(&text_of(colored), line);
    }
    assert!(shown[0].spans.len() > 1);
    assert!(matches!(shown[0].spans[0].color, Color::Rgb(_, _, _)));

    let unknown = highlight_preview(&lines, "/a/main.unknown-kind", &syntaxes, &theme);
    assert_eq!(text_of(&unknown[1]), lines[1]);

    let text = |path: &str, source: PreviewSource, is_dir: bool| -> Vec<StyledLine> {
        let read = PreviewRead::Lines { source, is_dir };
        match load_preview_result_content(path, read, &syntaxes, &theme) {
            PreviewResultContent::Text(lines) => lines,
            PreviewResultContent::Image(_) => panic!("lines give text"),
        }
    };
    let shown = text("/a/x.bin", PreviewSource::File(strings(&["a\0b"])), false);
    assert_eq!(text_of(&shown[0]), "[Binary file]");
    assert_eq!(shown[0].spans[0].color, Color::DarkGray);
    let shown = text("/a", PreviewSource::Directory(vec![item("b", true)]), true);
    assert_eq!(text_of(&shown[1]), "b/");
    assert_eq!(shown[1].spans[0].color, Color::Plain);
    let shown = text("/a/main.rs", PreviewSource::File(lines.clone()), false);
    assert_eq!(text_of(&shown[0]), lines[0]);

    assert_eq!(source_kind("/a/x.PNG"), SourceKind::Image);
    assert_eq!(source_kind("/a/x.rs"), SourceKind::Lines);
    let read = PreviewRead::Image(None);
    assert!(matches!(
        load_preview_result_content("/a/x.png", read, &syntaxes, &theme),
        PreviewResultContent::Image(None)
    ));
    assert_eq!(text_of(&color_line("plain", None)), "plain");
}

#[test]
fn lines_behind_those_shown_are_not_read() {
    assert!(reads_more(0, 0));
    assert!(reads_more(39, 16_384));
    assert!(!reads_more(40, 0));
    assert!(!reads_more(0, 16_385));
    let lines: Vec<String> = (0..60).map(|i| format!("{}{}", i, "x".repeat(1_000))).collect();
    for all in [lines, (0..60).map(|i| format!("line {}", i)).collect()] {
        let mut read: Vec<String> = Vec::new();
        let mut bytes = 0u64;
        while reads_more(read.len(), bytes) {
            bytes += all[read.len()].len() as u64;
            read.push(all[read.len()].clone());
        }
        assert!(read.len() < all.len());
        assert_eq!(
            preview_of("/a", PreviewSource::File(read)),
            preview_of("/a", PreviewSource::File(all))
        );
    }
}

#[test]
fn previews_have_the_dark_theme() {
    assert_eq!(load_theme(), ThemeSet::load_defaults().themes["base16-ocean.dark"]);
    assert!(load_theme() != ThemeSet::load_defaults().themes["base16-ocean.light"]);
}

#[test]
fn the_longest_lines_are_coloured() {
    let (syntaxes, theme) = (Syntaxes::load(), load_theme());
    let room = MAX_COLORED - 4;
    let brackets = vec![
        format!("--[{}[", "=".repeat(room)),
        "inside".to_string(),
        format!("]{}]", "=".repeat(room)),
    ];
    let heredoc = |start: &str, c: char| {
        let word = c.to_string().repeat(MAX_COLORED - start.len());
        vec![format!("{}{}", start, word), "inside".to_string(), word]
    };
    for (path, lines) in [
        ("/a.lua", brackets),
        ("/a.sh", heredoc("cat <<", 'E')),
        ("/a.rb", heredoc("x = <<", 'E')),
        ("/a.php", heredoc("<?php $x = <<<", 'E')),
        ("/a.pl", heredoc("print <<", 'E')),
        ("/a.md", heredoc("", '~')),
        ("/a.md", heredoc("~~~", '\u{17f}')),
        ("/a.cpp", vec![format!("R\"{}(", "x".repeat(16)), "inside".to_string()]),
        ("/a.rs", heredoc("r", '#')),
    ] {
        let shown = highlight_preview(&lines, path, &syntaxes, &theme);
        assert_eq!(shown.len(), lines.len());
        assert_eq!(text_of(&shown[1]), lines[1]);
    }
}

#[test]
fn what_is_too_long_for_colours_has_none() {
    let (syntaxes, theme) = (Syntaxes::load(), load_theme());
    let spans_of = |path: &str, source: PreviewSource| {
        let read = PreviewRead::Lines { source, is_dir: false };
        match load_preview_result_content(path, read, &syntaxes, &theme) {
            PreviewResultContent::Text(lines) => lines,
            PreviewResultContent::Image(_) => panic!("there is no image"),
        }
    };
    let items = || PreviewSource::Directory(vec![item("b", true)]);
    let long = spans_of(&format!("/{}.rs", "x".repeat(MAX_COLORED)), items());
    assert_eq!(long[1].spans[0].color, Color::Plain);
    let short = spans_of("/x.rs", items());
    assert!(short[1].spans[0].color != Color::Plain);
    let code = PreviewSource::File(vec!["\t".repeat(MAX_COLORED + 1), "let x = 1;".to_string()]);
    let file = spans_of(&format!("/{}.rs", "x".repeat(MAX_COLORED)), code);
    assert!(file[1].spans[0].color != Color::Plain);
}

#[test]
fn the_areas_lie_inside_the_screen() {
    for (x, y, width, height) in
        [(0, 0, 0, 0), (3, 5, 1, 1), (7, 2, 99, 3), (1, 1, 101, 4), (9, 9, 161, 200), (0, 0, 333, 7)]
    {
        let area = Rect { x, y, width, height };
        let areas = screen_areas(area);
        let mut parts =
            vec![areas.input, areas.ranked, areas.preview, areas.status, areas.help];
        parts.extend(areas.recent);
        for part in parts {
            assert!(part.x >= area.x && part.x + part.width <= area.x + area.width);
            assert!(part.y >= area.y && part.y + part.height <= area.y + area.height);
        }
    }
}
