//! What stands on the screen.
use ratatui::layout::Constraint;
use ratatui::layout::Direction;
use ratatui::layout::Layout;
use vstd::prelude::*;
use vstd::string::*;
use vstd::utf8::*;

use crate::app::App;
use crate::app::Column;
use crate::app::PreviewContent;
use crate::clock;
use crate::clock::time_ago;
use crate::clock::Timestamp;
use crate::encoding;
use crate::encoding::byte_length;
use crate::entry;
use crate::entry::FileEntry;
use crate::files;
use crate::files::get_icon;
use crate::incremental::SearchScope;
use crate::kitty::Rect;
use crate::number;
use crate::number::push_decimal;
use crate::paths;
use crate::paths::file_name_of;
use crate::rank;
use crate::search::MatchEntry;
use crate::style;
use crate::style::copy_lines;
use crate::style::Color;
use crate::style::StyledLine;
use crate::style::StyledSpan;
use crate::text;
use crate::text::chars_of;
use crate::text::last_index_of;
use crate::text::string_of;
use crate::text::sub_chars;
use crate::viewer;

verus! {

/// From this width on, the preview stands beside the list.
pub const WIDE_WIDTH: u16 = 100;

/// From this width on, both columns of matches are shown.
pub const DUAL_WIDTH: u16 = 140;

// ---------------------------------------------------------------------------
// The lists
// ---------------------------------------------------------------------------

/// The two parts of a name: what stands in front of its extension, and the extension
/// with its dot.
pub open spec fn name_parts(name: Seq<char>) -> (Seq<char>, Seq<char>) {
    match paths::file_name(name) {
        Some(file) => match text::last_index(file, '.') {
            Some(k) if k > 0 => (file.take(k), file.skip(k)),
            _ => (file, Seq::empty()),
        },
        None => (name, Seq::empty()),
    }
}

/// The two parts of a name.
pub fn split_name(name: &str) -> (r: (String, String))
    ensures
        (r.0@, r.1@) == name_parts(name@),
{
    let chars = chars_of(name);
    match file_name_of(&chars) {
        Some(file) => {
            proof {
                text::lemma_last_index(file@, '.');
            }
            let size: usize = file.len();
            match last_index_of(&file, '.') {
                Some(k) if k > 0 => {
                    let stem = sub_chars(&file, 0, k);
                    let rest = sub_chars(&file, k, size);
                    proof {
                        assert(stem@ =~= file@.take(k as int));
                        assert(rest@ =~= file@.skip(k as int));
                    }
                    (string_of(&stem), string_of(&rest))
                },
                _ => {
                    let r = (string_of(&file), String::new());
                    proof {
                        assert(r.1@ =~= Seq::<char>::empty());
                    }
                    r
                },
            }
        },
        None => {
            let r = (name.to_owned(), String::new());
            proof {
                assert(r.1@ =~= Seq::<char>::empty());
            }
            r
        },
    }
}

/// The icon of an entry, and its colour.
pub open spec fn entry_icon(e: entry::EntryView) -> (Seq<char>, Color) {
    if e.is_dir {
        ("\u{f115}"@, Color::Cyan)
    } else {
        files::icon_of(entry::name_of(e.path))
    }
}

/// The line of an entry: icon, name, extension, age and source, directory.
pub open spec fn entry_line(e: entry::EntryView, now: Timestamp) -> Seq<style::SpanView> {
    let name = entry::name_of(e.path);
    let (icon, color) = entry_icon(e);
    let (stem, ext) = if e.is_dir {
        (name, Seq::empty())
    } else {
        name_parts(name)
    };
    let age = clock::age_text(clock::elapsed(now, e.recency_time) / 1_000_000_000);
    seq![
        ("  "@ + icon + " "@, color, false),
        (stem, Color::Plain, true),
        (ext, color, false),
        (" "@ + age + " "@ + e.recency_source.name(), Color::Rgb(80, 80, 80), false),
        (" "@, Color::Plain, false),
        (entry::dir_of(e.path), Color::DarkGray, false),
    ]
}

/// The lines of some matches. One that stands for no entry has none.
pub open spec fn match_lines(
    matches: Seq<MatchEntry>,
    files: Seq<FileEntry>,
    now: Timestamp,
) -> Seq<Seq<style::SpanView>>
    decreases matches.len(),
{
    if matches.len() == 0 {
        Seq::empty()
    } else {
        let lines = match_lines(matches.drop_last(), files, now);
        if matches.last().index < files.len() {
            lines.push(entry_line(files[matches.last().index as int]@, now))
        } else {
            lines
        }
    }
}

fn line_of(e: &FileEntry, now: Timestamp) -> (r: StyledLine)
    ensures
        r@ == entry_line(e@, now),
{
    let name = e.name();
    let (icon, color) = if e.is_dir() {
        ("\u{f115}", Color::Cyan)
    } else {
        get_icon(name)
    };
    let (stem, ext) = if e.is_dir() {
        (name.to_owned(), String::new())
    } else {
        split_name(name)
    };
    let mut head = String::new();
    head.append("  ");
    head.append(icon);
    head.append(" ");
    let age = time_ago(now, e.recency_time());
    let mut label = String::new();
    label.append(" ");
    label.append(age.as_str());
    label.append(" ");
    label.append(e.recency_source().label());
    let mut line = StyledLine::new();
    line.push(StyledSpan::new(head, color));
    line.push(StyledSpan { text: stem, color: Color::Plain, bold: true });
    line.push(StyledSpan::new(ext, color));
    line.push(StyledSpan::new(label, Color::Rgb(80, 80, 80)));
    line.push(StyledSpan::literal(" ", Color::Plain));
    line.push(StyledSpan::literal(e.dir(), Color::DarkGray));
    proof {
        let want = entry_line(e@, now);
        assert(head@ =~= "  "@ + entry_icon(e@).0 + " "@);
        assert(label@ =~= want[3].0);
        assert(e@.is_dir ==> ext@ =~= Seq::<char>::empty());
        assert(line@ =~= want);
    }
    line
}

/// The lines of some matches.
pub fn build_file_items(matches: &Vec<MatchEntry>, files: &Vec<FileEntry>, now: Timestamp) -> (r: Vec<
    StyledLine,
>)
    ensures
        style::line_views(r@) == match_lines(matches@, files@, now),
{
    let mut r: Vec<StyledLine> = Vec::new();
    let mut i: usize = 0;
    proof {
        assert(style::line_views(r@) =~= Seq::<Seq<style::SpanView>>::empty());
    }
    while i < matches.len()
        invariant
            i <= matches@.len(),
            style::line_views(r@) == match_lines(matches@.take(i as int), files@, now),
        decreases matches.len() - i,
    {
        proof {
            assert(matches@.take(i + 1).drop_last() =~= matches@.take(i as int));
        }
        let index: usize = matches[i].index;
        if index < files.len() {
            let ghost before = r@;
            let line = line_of(&files[index], now);
            r.push(line);
            proof {
                assert(style::line_views(r@) =~= style::line_views(before).push(line@));
            }
        }
        i += 1;
    }
    proof {
        assert(matches@.take(matches@.len() as int) =~= matches@);
    }
    r
}

// ---------------------------------------------------------------------------
// The texts
// ---------------------------------------------------------------------------

/// The lines that stand in the preview, and whether graphics are drawn there.
pub open spec fn preview_text(content: viewer::ContentView) -> (Seq<Seq<style::SpanView>>, bool) {
    let note = |message: Seq<char>, color: Color| (seq![style::one_span(message, color)], false);
    match content {
        viewer::ContentView::Text(lines) => (lines, false),
        viewer::ContentView::Image(_) | viewer::ContentView::Video(_) => (Seq::empty(), true),
        viewer::ContentView::VideoStreaming(frames) => if frames.len() == 0 {
            note("Loading video..."@, Color::Yellow)
        } else {
            (Seq::empty(), true)
        },
        viewer::ContentView::VideoLoading => note("Loading video..."@, Color::Yellow),
        viewer::ContentView::Nothing => note("No file selected"@, Color::DarkGray),
    }
}

fn one_line(message: &str, color: Color) -> (r: Vec<StyledLine>)
    ensures
        style::line_views(r@) == seq![style::one_span(message@, color)],
{
    let mut r: Vec<StyledLine> = Vec::new();
    r.push(StyledLine::one(message.to_owned(), color));
    proof {
        assert(style::line_views(r@) =~= seq![style::one_span(message@, color)]);
    }
    r
}

fn no_lines() -> (r: Vec<StyledLine>)
    ensures
        style::line_views(r@) == Seq::<Seq<style::SpanView>>::empty(),
{
    let r: Vec<StyledLine> = Vec::new();
    proof {
        assert(style::line_views(r@) =~= Seq::<Seq<style::SpanView>>::empty());
    }
    r
}

/// The lines that stand in the preview, and whether graphics are drawn there.
pub fn preview_lines(content: &PreviewContent) -> (r: (Vec<StyledLine>, bool))
    ensures
        (style::line_views(r.0@), r.1) == preview_text(content@),
{
    match content {
        PreviewContent::Text(lines) => (copy_lines(lines), false),
        PreviewContent::Image(_) => (no_lines(), true),
        PreviewContent::Video(_) => (no_lines(), true),
        PreviewContent::VideoStreaming(frames) => {
            if frames.len() == 0 {
                (one_line("Loading video...", Color::Yellow), false)
            } else {
                (no_lines(), true)
            }
        },
        PreviewContent::VideoLoading => (one_line("Loading video...", Color::Yellow), false),
        PreviewContent::Nothing => (one_line("No file selected", Color::DarkGray), false),
    }
}

/// The title of the preview.
pub open spec fn title_of(app: App) -> Seq<char> {
    if app.dir_mode {
        " Directory "@
    } else {
        match app.preview_content {
            PreviewContent::Video(_)
            | PreviewContent::VideoStreaming(_)
            | PreviewContent::VideoLoading => " Video "@,
            PreviewContent::Image(_) => " Image "@,
            _ => " Preview "@,
        }
    }
}

/// The title of the preview.
pub fn preview_title(app: &App) -> (r: &'static str)
    ensures
        r@ == title_of(*app),
{
    if app.dir_mode {
        " Directory "
    } else {
        match &app.preview_content {
            PreviewContent::Video(_)
            | PreviewContent::VideoStreaming(_)
            | PreviewContent::VideoLoading => " Video ",
            PreviewContent::Image(_) => " Image ",
            _ => " Preview ",
        }
    }
}

/// The status line.
pub open spec fn status_of(app: App, loading: bool, file_count: nat) -> Seq<char> {
    number::decimal(app.matches@.len()) + " matches"@ + if loading {
        " (loading...)"@
    } else {
        ""@
    } + " | "@ + number::decimal(file_count) + " "@ + if app.dir_mode {
        "dirs"@
    } else {
        "files"@
    } + " | pool: "@ + app.scope().name() + if app.dir_mode {
        ""@
    } else {
        " | ^Z pool"@
    } + " | ^P mode"@
}

/// The status line.
pub fn status_text(app: &App, loading: bool, file_count: usize) -> (r: String)
    ensures
        r@ == status_of(*app, loading, file_count as nat),
{
    let mut r = String::new();
    push_decimal(&mut r, app.matches.len() as u128);
    r.append(" matches");
    r.append(
        if loading {
            " (loading...)"
        } else {
            ""
        },
    );
    r.append(" | ");
    push_decimal(&mut r, file_count as u128);
    r.append(" ");
    r.append(
        if app.dir_mode {
            "dirs"
        } else {
            "files"
        },
    );
    r.append(" | pool: ");
    r.append(app.active_scope().label());
    r.append(
        if app.dir_mode {
            ""
        } else {
            " | ^Z pool"
        },
    );
    r.append(" | ^P mode");
    proof {
        assert(r@ =~= status_of(*app, loading, file_count as nat));
    }
    r
}

/// A key and what it does, in the help line.
pub open spec fn help_pair(key: Seq<char>, color: Color, does: Seq<char>) -> Seq<style::SpanView> {
    seq![(key, color, false), (does, Color::Plain, false)]
}

/// The help line.
pub open spec fn help_of(drag_mode: bool, dir_mode: bool) -> Seq<style::SpanView> {
    let other = if dir_mode {
        " files  "@
    } else {
        " dirs  "@
    };
    let accept = if drag_mode {
        help_pair("Enter"@, Color::Yellow, " drag  "@)
    } else {
        help_pair(
            "Enter"@,
            Color::Cyan,
            if dir_mode {
                " open dir  "@
            } else {
                " open  "@
            },
        )
    };
    let drag = if drag_mode {
        Seq::empty()
    } else {
        help_pair("^D"@, Color::Yellow, " drag  "@)
    };
    let pool = if dir_mode {
        Seq::empty()
    } else {
        help_pair("z"@, Color::Yellow, " pool  "@)
    };
    accept + help_pair("^P"@, Color::Yellow, other) + drag + pool + help_pair(
        "Esc"@,
        Color::Cyan,
        " cancel  "@,
    ) + help_pair("\u{2191}\u{2193}"@, Color::Cyan, " nav  "@) + help_pair(
        "^U"@,
        Color::Cyan,
        " clr"@,
    )
}

fn push_help(line: &mut StyledLine, key: &str, color: Color, does: &str)
    ensures
        final(line)@ == old(line)@ + help_pair(key@, color, does@),
{
    let ghost before = line@;
    line.push(StyledSpan::literal(key, color));
    line.push(StyledSpan::literal(does, Color::Plain));
    proof {
        assert(line@ =~= before + help_pair(key@, color, does@));
    }
}

/// The help line.
pub fn help_line(drag_mode: bool, dir_mode: bool) -> (r: StyledLine)
    ensures
        r@ == help_of(drag_mode, dir_mode),
{
    let mut line = StyledLine::new();
    let other = if dir_mode {
        " files  "
    } else {
        " dirs  "
    };
    if drag_mode {
        push_help(&mut line, "Enter", Color::Yellow, " drag  ");
        push_help(&mut line, "^P", Color::Yellow, other);
    } else {
        push_help(
            &mut line,
            "Enter",
            Color::Cyan,
            if dir_mode {
                " open dir  "
            } else {
                " open  "
            },
        );
        push_help(&mut line, "^P", Color::Yellow, other);
        push_help(&mut line, "^D", Color::Yellow, " drag  ");
    }
    if !dir_mode {
        push_help(&mut line, "z", Color::Yellow, " pool  ");
    }
    push_help(&mut line, "Esc", Color::Cyan, " cancel  ");
    push_help(&mut line, "\u{2191}\u{2193}", Color::Cyan, " nav  ");
    push_help(&mut line, "^U", Color::Cyan, " clr");
    proof {
        assert(line@ =~= help_of(drag_mode, dir_mode));
    }
    line
}

/// The title of the search box: a magnifying glass and the active scope.
pub fn input_title(app: &App) -> (r: String)
    ensures
        r@ == " \u{f002} "@ + app.scope().name() + " "@,
{
    let mut r = String::new();
    r.append(" \u{f002} ");
    r.append(app.active_scope().label());
    r.append(" ");
    proof {
        assert(r@ =~= " \u{f002} "@ + app.scope().name() + " "@);
    }
    r
}

// ---------------------------------------------------------------------------
// The layout
// ---------------------------------------------------------------------------

/// The direction in which an area is split.
#[derive(Clone, Copy, Debug, PartialEq, Eq, Structural)]
pub enum Axis {
    Horizontal,
    Vertical,
}

/// How large a part of an area is to be.
#[derive(Clone, Copy, Debug, PartialEq, Eq, Structural)]
pub enum PartSize {
    Length(u16),
    Min(u16),
    Percentage(u16),
}

/// Whether a part has the full extent of an area across the direction of a split.
pub open spec fn is_across(axis: Axis, area: Rect, part: Rect) -> bool {
    match axis {
        Axis::Horizontal => part.y == area.y && part.height == area.height,
        Axis::Vertical => part.x == area.x && part.width == area.width,
    }
}

/// Whether a part lies inside an area.
pub open spec fn is_inside(area: Rect, part: Rect) -> bool {
    &&& area.x <= part.x && part.x + part.width <= area.x + area.width
    &&& area.y <= part.y && part.y + part.height <= area.y + area.height
}

/// Whether `Layout::split` may split an area, in a direction and with some sizes, into
/// these parts.
pub uninterp spec fn splits_into(
    axis: Axis,
    sizes: Seq<PartSize>,
    area: Rect,
    parts: Seq<Rect>,
) -> bool;

/// `Layout::split` of ratatui, with its default settings but for the direction and
/// the sizes. There is one part for each size. Each lies inside the area, and has its full
/// extent across the direction of the split. How the solver behind it shares the area
/// out along that direction is left open: it walks hash tables, and the parts are
/// only known to be such as it may find.
#[verifier::external_body]
fn split_area(axis: Axis, sizes: &Vec<PartSize>, area: Rect) -> (r: Vec<Rect>)
    ensures
        r@.len() == sizes@.len(),
        forall|i: int| 0 <= i < r@.len() ==> is_across(axis, area, #[trigger] r@[i]),
        forall|i: int| 0 <= i < r@.len() ==> is_inside(area, #[trigger] r@[i]),
        splits_into(axis, sizes@, area, r@),
{
    let direction = match axis {
        Axis::Horizontal => Direction::Horizontal,
        Axis::Vertical => Direction::Vertical,
    };
    let constraints = sizes.iter().map(|size| match *size {
        PartSize::Length(n) => Constraint::Length(n),
        PartSize::Min(n) => Constraint::Min(n),
        PartSize::Percentage(n) => Constraint::Percentage(n),
    });
    let Rect { x, y, width, height } = area;
    let whole = ratatui::layout::Rect { x, y, width, height };
    let parts = Layout::default().direction(direction).constraints(constraints).split(whole);
    parts.iter().map(|p| Rect { x: p.x, y: p.y, width: p.width, height: p.height }).collect()
}

/// The areas of the screen.
pub struct Areas {
    pub input: Rect,
    pub ranked: Rect,
    /// The column of matches by use, if it is shown.
    pub recent: Option<Rect>,
    pub preview: Rect,
    pub status: Rect,
    pub help: Rect,
}

/// The parts of a wide screen beside each other: the list, and the preview.
pub open spec fn side_sizes(width: u16) -> Seq<PartSize> {
    if width >= DUAL_WIDTH {
        seq![PartSize::Percentage(60), PartSize::Percentage(40)]
    } else {
        seq![PartSize::Percentage(50), PartSize::Percentage(50)]
    }
}

/// The parts of the left side of a wide screen: search box, list, status and help.
pub open spec fn list_sizes() -> Seq<PartSize> {
    seq![PartSize::Length(3), PartSize::Min(1), PartSize::Length(1), PartSize::Length(1)]
}

/// The parts of a narrow screen: search box, list, preview, status and help.
pub open spec fn narrow_sizes() -> Seq<PartSize> {
    seq![
        PartSize::Length(3),
        PartSize::Percentage(50),
        PartSize::Min(3),
        PartSize::Length(1),
        PartSize::Length(1),
    ]
}

/// The two columns of matches.
pub open spec fn column_sizes() -> Seq<PartSize> {
    seq![PartSize::Percentage(50), PartSize::Percentage(50)]
}

/// Whether the list area holds one column of matches, or two.
pub open spec fn columns_laid_out(width: u16, list: Rect, r: Areas) -> bool {
    if width >= DUAL_WIDTH {
        exists|columns: Seq<Rect>| #[trigger]
            splits_into(Axis::Horizontal, column_sizes(), list, columns) && r.ranked == columns[0]
                && r.recent == Some(columns[1])
    } else {
        r.ranked == list && r.recent is None
    }
}

/// Whether these are the areas of a screen.
pub open spec fn laid_out(area: Rect, r: Areas) -> bool {
    if area.width >= WIDE_WIDTH {
        exists|sides: Seq<Rect>, rows: Seq<Rect>|
            {
                &&& #[trigger] splits_into(Axis::Horizontal, side_sizes(area.width), area, sides)
                &&& #[trigger] splits_into(Axis::Vertical, list_sizes(), sides[0], rows)
                &&& r.input == rows[0]
                &&& columns_laid_out(area.width, rows[1], r)
                &&& r.preview == sides[1]
                &&& r.status == rows[2]
                &&& r.help == rows[3]
            }
    } else {
        exists|rows: Seq<Rect>|
            {
                &&& #[trigger] splits_into(Axis::Vertical, narrow_sizes(), area, rows)
                &&& r.input == rows[0]
                &&& columns_laid_out(area.width, rows[1], r)
                &&& r.preview == rows[2]
                &&& r.status == rows[3]
                &&& r.help == rows[4]
            }
    }
}

/// Whether all areas lie inside the screen.
pub open spec fn are_inside(area: Rect, r: Areas) -> bool {
    &&& is_inside(area, r.input)
    &&& is_inside(area, r.ranked)
    &&& r.recent matches Some(recent) ==> is_inside(area, recent)
    &&& is_inside(area, r.preview)
    &&& is_inside(area, r.status)
    &&& is_inside(area, r.help)
}

/// Shares out the screen. If it is wide the preview stands beside the list, else
/// below it. Only if it is very wide there are two columns of matches.
pub fn screen_areas(area: Rect) -> (r: Areas)
    ensures
        laid_out(area, r),
        are_inside(area, r),
        r.recent is Some == (area.width >= DUAL_WIDTH),
        r.recent is Some == (area.width >= 140),
        area.width >= 100 ==> is_across(Axis::Horizontal, area, r.preview),
        area.width < 100 ==> is_across(Axis::Vertical, area, r.preview),
        area.width >= WIDE_WIDTH ==> {
            &&& is_across(Axis::Horizontal, area, r.preview)
            &&& r.status.x == r.input.x && r.status.width == r.input.width
            &&& r.help.x == r.input.x && r.help.width == r.input.width
            &&& r.recent is None ==> r.ranked.x == r.input.x && r.ranked.width == r.input.width
            &&& r.recent matches Some(recent) ==> recent.y == r.ranked.y && recent.height
                == r.ranked.height
        },
        area.width < WIDE_WIDTH ==> {
            &&& is_across(Axis::Vertical, area, r.input)
            &&& is_across(Axis::Vertical, area, r.ranked)
            &&& is_across(Axis::Vertical, area, r.preview)
            &&& is_across(Axis::Vertical, area, r.status)
            &&& is_across(Axis::Vertical, area, r.help)
        },
{
    if area.width >= WIDE_WIDTH {
        let dual = area.width >= DUAL_WIDTH;
        let shares = if dual {
            vec![PartSize::Percentage(60), PartSize::Percentage(40)]
        } else {
            vec![PartSize::Percentage(50), PartSize::Percentage(50)]
        };
        let parts = vec![
            PartSize::Length(3),
            PartSize::Min(1),
            PartSize::Length(1),
            PartSize::Length(1),
        ];
        proof {
            assert(shares@ =~= side_sizes(area.width));
            assert(parts@ =~= list_sizes());
        }
        let sides = split_area(Axis::Horizontal, &shares, area);
        let rows = split_area(Axis::Vertical, &parts, sides[0]);
        let (ranked, recent) = if dual {
            let halves = vec![PartSize::Percentage(50), PartSize::Percentage(50)];
            proof {
                assert(halves@ =~= column_sizes());
            }
            let columns = split_area(Axis::Horizontal, &halves, rows[1]);
            (columns[0], Some(columns[1]))
        } else {
            (rows[1], None)
        };
        Areas { input: rows[0], ranked, recent, preview: sides[1], status: rows[2], help: rows[3] }
    } else {
        let parts = vec![
            PartSize::Length(3),
            PartSize::Percentage(50),
            PartSize::Min(3),
            PartSize::Length(1),
            PartSize::Length(1),
        ];
        proof {
            assert(parts@ =~= narrow_sizes());
        }
        let rows = split_area(Axis::Vertical, &parts, area);
        Areas {
            input: rows[0],
            ranked: rows[1],
            recent: None,
            preview: rows[2],
            status: rows[3],
            help: rows[4],
        }
    }
}

/// Where the cursor stands in the search box: behind as many columns as the query has
/// bytes. There is no such place if a coordinate would be too large.
pub open spec fn cursor_at(input: Rect, query: Seq<char>) -> Option<(u16, u16)> {
    let x = input.x + encoding::byte_len(query) % 0x1_0000 + 1;
    let y = input.y + 1;
    if x <= u16::MAX && y <= u16::MAX {
        Some((x as u16, y as u16))
    } else {
        None
    }
}

/// Where the cursor stands in the search box.
pub fn cursor_position(input: Rect, query: &str) -> (r: Option<(u16, u16)>)
    ensures
        r == cursor_at(input, query@),
{
    let length: usize = byte_length(query) % 0x1_0000;
    let x: u32 = input.x as u32 + length as u32 + 1;
    let y: u32 = input.y as u32 + 1;
    if x <= 0xffff && y <= 0xffff {
        Some((x as u16, y as u16))
    } else {
        None
    }
}

/// Everything that stands on the screen, and where.
pub struct Screen {
    pub areas: Areas,
    pub input_title: String,
    pub ranked_items: Vec<StyledLine>,
    pub recent_items: Vec<StyledLine>,
    /// The row that is marked in the column of matches by score.
    pub ranked_row: Option<usize>,
    /// The row that is marked in the column of matches by use.
    pub recent_row: Option<usize>,
    pub preview_title: &'static str,
    pub preview_lines: Vec<StyledLine>,
    pub status: String,
    pub help: StyledLine,
    /// The area in which graphics are drawn, if they are.
    pub image_area: Option<Rect>,
    pub cursor: Option<(u16, u16)>,
}

/// The directory that stands at the end of the marked line, if one is marked.
pub open spec fn marked_dir(screen: Screen) -> Option<Seq<char>> {
    match (screen.ranked_row, screen.recent_row) {
        (Some(row), None) => Some(screen.ranked_items@[row as int]@.last().0),
        (None, Some(row)) => Some(screen.recent_items@[row as int]@.last().0),
        _ => None,
    }
}

/// What stands on the screen.
pub fn ui(app: &App, area: Rect, file_count: usize, loading: bool, now: Timestamp) -> (r: Screen)
    ensures
        laid_out(area, r.areas),
        are_inside(area, r.areas),
        r.input_title@ == " \u{f002} "@ + app.scope().name() + " "@,
        style::line_views(r.ranked_items@) == match_lines(app.matches@, app.matches_files@, now),
        style::line_views(r.recent_items@) == match_lines(
            app.matches_by_time@,
            app.matches_files@,
            now,
        ),
        r.ranked_row == if app.active_column == Column::Ranked {
            Some(app.selected)
        } else {
            None
        },
        r.recent_row == if app.active_column == Column::Recent {
            Some(app.selected)
        } else {
            None
        },
        r.preview_title@ == title_of(*app),
        style::line_views(r.preview_lines@) == preview_text(app.preview_content@).0,
        r.status@ == status_of(*app, loading, file_count as nat),
        r.help@ == help_of(app.drag_mode, app.dir_mode),
        r.image_area == if preview_text(app.preview_content@).1 {
            Some(r.areas.preview)
        } else {
            None
        },
        r.cursor == cursor_at(r.areas.input, app.query@),
        app.wf() && app.chosen_path() is Some ==> marked_dir(r) == Some(
            entry::dir_of(app.chosen_path()->0),
        ),
{
    let areas = screen_areas(area);
    let (preview_lines, needs_graphics) = preview_lines(&app.preview_content);
    let (ranked_row, recent_row) = match app.active_column {
        Column::Ranked => (Some(app.selected), None),
        Column::Recent => (None, Some(app.selected)),
    };
    let image_area = if needs_graphics {
        Some(areas.preview)
    } else {
        None
    };
    let cursor = cursor_position(areas.input, app.query.as_str());
    let ranked_items = build_file_items(&app.matches, &*app.matches_files, now);
    let recent_items = build_file_items(&app.matches_by_time, &*app.matches_files, now);
    proof {
        if app.wf() && app.chosen_path() is Some {
            let k = app.selected as int;
            lemma_match_lines(app.matches@, app.matches_files@, now);
            lemma_match_lines(app.matches_by_time@, app.matches_files@, now);
            match app.active_column {
                Column::Ranked => {
                    assert(ranked_items@[k]@ == style::line_views(ranked_items@)[k]);
                },
                Column::Recent => {
                    assert(recent_items@[k]@ == style::line_views(recent_items@)[k]);
                },
            }
        }
    }
    Screen {
        areas,
        input_title: input_title(app),
        ranked_items,
        recent_items,
        ranked_row,
        recent_row,
        preview_title: preview_title(app),
        preview_lines,
        status: status_text(app, loading, file_count),
        help: help_line(app.drag_mode, app.dir_mode),
        image_area,
        cursor,
    }
}

/// While the matches stand for entries, every match has its line, in its place.
pub proof fn lemma_match_lines(matches: Seq<MatchEntry>, files: Seq<FileEntry>, now: Timestamp)
    requires
        rank::in_range(matches, files.len()),
    ensures
        match_lines(matches, files, now).len() == matches.len(),
        forall|i: int|
            0 <= i < matches.len() ==> #[trigger] match_lines(matches, files, now)[i] == entry_line(
                files[matches[i].index as int]@,
                now,
            ),
    decreases matches.len(),
{
    if matches.len() > 0 {
        lemma_match_lines(matches.drop_last(), files, now);
    }
}

// ---------------------------------------------------------------------------
// What holds of the screen
// ---------------------------------------------------------------------------

/// The two parts of a name make it up. The second is empty or starts with the only dot
/// that it has, and the first is not empty.
pub proof fn lemma_name_parts(name: Seq<char>)
    requires
        paths::is_plain(name),
    ensures
        name_parts(name).0 + name_parts(name).1 == name,
        name_parts(name).0.len() > 0,
        name_parts(name).1.len() > 0 ==> name_parts(name).1[0] == '.',
        forall|i: int| 1 <= i < name_parts(name).1.len() ==> #[trigger] name_parts(name).1[i] != '.',
        name_parts(name).1.len() == 0 ==> forall|i: int|
            1 <= i < name.len() ==> #[trigger] name[i] != '.',
{
    text::lemma_pieces_of_plain(name, '/');
    reveal_with_fuel(paths::last_name, 2);
    let parts = text::pieces(name, '/');
    assert(parts.last() == name);
    assert(paths::file_name(name) == Some(name));
    text::lemma_last_index(name, '.');
    match text::last_index(name, '.') {
        Some(k) if k > 0 => {
            assert(name.take(k) + name.skip(k) =~= name);
        },
        _ => {
            assert(name + Seq::<char>::empty() =~= name);
        },
    }
}

/// The line of an entry shows its name, and at the end the directory that it is in. The
/// name of a directory is not taken apart.
pub proof fn lemma_line_shows_entry(e: entry::EntryView, now: Timestamp)
    requires
        paths::is_plain(entry::name_of(e.path)),
    ensures
        entry_line(e, now)[1].0 + entry_line(e, now)[2].0 == entry::name_of(e.path),
        e.is_dir ==> entry_line(e, now)[1].0 == entry::name_of(e.path),
        entry_line(e, now).last().0 == entry::dir_of(e.path),
        entry_line(e, now)[3].0 == " "@ + clock::age_text(
            clock::elapsed(now, e.recency_time) / 1_000_000_000,
        ) + " "@ + e.recency_source.name(),
{
    let name = entry::name_of(e.path);
    lemma_name_parts(name);
    assert(name + Seq::<char>::empty() =~= name);
}

/// Where graphics are drawn there is no text, and where there are none there is some,
/// unless the text that is shown is empty.
pub proof fn lemma_text_or_graphics(content: viewer::ContentView)
    ensures
        preview_text(content).1 ==> preview_text(content).0.len() == 0,
        !preview_text(content).1 && !(content is Text) ==> preview_text(content).0.len() == 1,
        content matches viewer::ContentView::Text(lines) ==> preview_text(content) == (lines, false),
        content is Image ==> preview_text(content).1,
        content is Video ==> preview_text(content).1,
        content matches viewer::ContentView::VideoStreaming(frames) ==> preview_text(content).1 == (
        frames.len() > 0),
        content is VideoLoading || content is Nothing ==> !preview_text(content).1,
{
}

/// The status line starts with the number of matches and goes on with the number of
/// entries. In between it says if there are more to come.
pub proof fn lemma_status(app: App, file_count: nat)
    ensures
        (number::decimal(app.matches@.len()) + " matches | "@ + number::decimal(file_count)
            + " "@).is_prefix_of(status_of(app, false, file_count)),
        (number::decimal(app.matches@.len()) + " matches (loading...) | "@ + number::decimal(
            file_count,
        ) + " "@).is_prefix_of(status_of(app, true, file_count)),
{
    reveal_strlit("");
    reveal_strlit(" matches");
    reveal_strlit(" | ");
    reveal_strlit(" (loading...)");
    reveal_strlit(" matches | ");
    reveal_strlit(" matches (loading...) | ");
    let (count, files) = (number::decimal(app.matches@.len()), number::decimal(file_count));
    assert(" matches | "@ =~= " matches"@ + ""@ + " | "@);
    assert(" matches (loading...) | "@ =~= " matches"@ + " (loading...)"@ + " | "@);
    let done = count + " matches | "@ + files + " "@;
    let more = count + " matches (loading...) | "@ + files + " "@;
    assert(done =~= status_of(app, false, file_count).subrange(0, done.len() as int));
    assert(more =~= status_of(app, true, file_count).subrange(0, more.len() as int));
}

/// The cursor stands inside the border of the search box, and each character of ASCII
/// that is typed moves it by one column. It stays in its row.
pub proof fn lemma_cursor_follows_typing(input: Rect, query: Seq<char>, c: char)
    requires
        is_ascii_chars(query),
        c as u32 <= 127,
        query.len() + input.x < u16::MAX - 2,
        input.y < u16::MAX,
    ensures
        cursor_at(input, Seq::empty()) == Some(((input.x + 1) as u16, (input.y + 1) as u16)),
        cursor_at(input, query) == Some(
            ((input.x + 1 + query.len()) as u16, (input.y + 1) as u16),
        ),
        cursor_at(input, query.push(c)) == Some(
            ((input.x + 1 + query.len() + 1) as u16, (input.y + 1) as u16),
        ),
{
    let none = Seq::<char>::empty();
    assert(is_ascii_chars(none));
    encoding::lemma_byte_len_ascii(none);
    encoding::lemma_byte_len_ascii(query);
    assert(is_ascii_chars(query.push(c)));
    encoding::lemma_byte_len_ascii(query.push(c));
}

/// The help line tells of the pools if and only if there are some to choose from.
pub proof fn lemma_help(drag_mode: bool, dir_mode: bool)
    ensures
        help_of(drag_mode, dir_mode).len() == 14 - (if drag_mode {
            2int
        } else {
            0
        }) - (if dir_mode {
            2int
        } else {
            0
        }),
        help_of(drag_mode, dir_mode)[0].0 == "Enter"@,
        help_of(drag_mode, dir_mode)[2].0 == "^P"@,
        drag_mode ==> help_of(drag_mode, dir_mode)[1].0 == " drag  "@,
        !drag_mode && dir_mode ==> help_of(drag_mode, dir_mode)[1].0 == " open dir  "@,
        !drag_mode && !dir_mode ==> help_of(drag_mode, dir_mode)[1].0 == " open  "@,
        dir_mode ==> help_of(drag_mode, dir_mode)[3].0 == " files  "@,
        !dir_mode ==> help_of(drag_mode, dir_mode)[3].0 == " dirs  "@,
{
}

/// At its end the status line names what is searched. There is a key for the pool where there
/// are several.
pub proof fn lemma_status_names_pool(app: App, loading: bool, file_count: nat)
    ensures
        app.dir_mode ==> " dirs | pool: all | ^P mode"@.is_suffix_of(
            status_of(app, loading, file_count),
        ),
        !app.dir_mode && app.search_scope == SearchScope::All
            ==> " files | pool: all | ^Z pool | ^P mode"@.is_suffix_of(
            status_of(app, loading, file_count),
        ),
        !app.dir_mode && app.search_scope == SearchScope::Recent
            ==> " files | pool: recent (9d) | ^Z pool | ^P mode"@.is_suffix_of(
            status_of(app, loading, file_count),
        ),
{
    reveal_strlit("");
    reveal_strlit(" ");
    reveal_strlit("dirs");
    reveal_strlit("files");
    reveal_strlit(" | pool: ");
    reveal_strlit("all");
    reveal_strlit("recent (9d)");
    reveal_strlit(" | ^Z pool");
    reveal_strlit(" | ^P mode");
    reveal_strlit(" dirs | pool: all | ^P mode");
    reveal_strlit(" files | pool: all | ^Z pool | ^P mode");
    reveal_strlit(" files | pool: recent (9d) | ^Z pool | ^P mode");
    let s = status_of(app, loading, file_count);
    let end = if app.dir_mode {
        " dirs | pool: all | ^P mode"@
    } else {
        match app.search_scope {
            SearchScope::All => " files | pool: all | ^Z pool | ^P mode"@,
            SearchScope::Recent => " files | pool: recent (9d) | ^Z pool | ^P mode"@,
        }
    };
    let kind = if app.dir_mode {
        "dirs"@
    } else {
        "files"@
    };
    let key = if app.dir_mode {
        ""@
    } else {
        " | ^Z pool"@
    };
    let tail = " "@ + kind + " | pool: "@ + app.scope().name() + key + " | ^P mode"@;
    assert(end =~= tail);
    assert(tail =~= s.subrange(s.len() - tail.len(), s.len() as int));
}

/// A directory has the icon of directories, whatever its name. A file has that of its name.
pub proof fn lemma_entry_icon(e: entry::EntryView)
    ensures
        e.is_dir ==> entry_icon(e) == ("\u{f115}"@, Color::Cyan),
        !e.is_dir ==> entry_icon(e) == files::icon_of(entry::name_of(e.path)),
        entry_line(e, Timestamp { nanos: 0 })[0].1 == entry_icon(e).1,
        entry_line(e, Timestamp { nanos: 0 })[2].1 == entry_icon(e).1,
{
}

} // verus!
