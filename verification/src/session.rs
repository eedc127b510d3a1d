//! The course of a session.
use vstd::prelude::*;
use vstd::string::*;

use crate::app::App;
use crate::app::PreviewContent;
use crate::kitty::Rect;
use crate::text::same_text;
use crate::video;
use crate::video::video_render_decision;

verus! {

/// For how long after a key no graphics are drawn, in nanoseconds.
pub const INPUT_RENDER_GRACE: u64 = 90_000_000;

/// For how long after a key no graphics are drawn, in milliseconds.
pub const INPUT_RENDER_GRACE_MS: u64 = 90;

/// How many events are read in a row.
pub const INPUT_DRAIN_LIMIT: usize = 32;

// ---------------------------------------------------------------------------
// Arguments
// ---------------------------------------------------------------------------

/// What the program is to do.
#[derive(Clone, Copy, Debug, PartialEq, Eq, Structural)]
pub enum Mode {
    Pick,
    Profile,
    TestVideo,
    BenchFlicker,
    BenchResponsiveness,
}

/// What the arguments ask for.
pub struct Options {
    pub mode: Mode,
    pub drag_mode: bool,
    pub dir_mode: bool,
    /// The file to write the choice to.
    pub selection_path: Option<String>,
}

/// The first argument that is this one, at or after a place.
pub open spec fn argument_from(args: Seq<String>, name: Seq<char>, from: int) -> Option<int>
    decreases args.len() - from,
{
    if from < 0 || from >= args.len() {
        None
    } else if args[from]@ == name {
        Some(from)
    } else {
        argument_from(args, name, from + 1)
    }
}

/// Whether this is among the arguments.
pub open spec fn has_argument(args: Seq<String>, name: Seq<char>) -> bool {
    argument_from(args, name, 0) is Some
}

/// What the program is to do.
pub open spec fn mode_of(args: Seq<String>) -> Mode {
    if has_argument(args, "--profile"@) {
        Mode::Profile
    } else if has_argument(args, "--test-video"@) {
        Mode::TestVideo
    } else if has_argument(args, "--bench-flicker"@) {
        Mode::BenchFlicker
    } else if has_argument(args, "--bench-responsiveness"@) {
        Mode::BenchResponsiveness
    } else {
        Mode::Pick
    }
}

/// The argument behind the first one that is this one.
pub open spec fn argument_behind(args: Seq<String>, name: Seq<char>) -> Option<Seq<char>> {
    match argument_from(args, name, 0) {
        Some(i) => if i + 1 < args.len() {
            Some(args[i + 1]@)
        } else {
            None
        },
        None => None,
    }
}

fn find_argument(args: &Vec<String>, name: &str) -> (r: Option<usize>)
    ensures
        match r {
            Some(i) => argument_from(args@, name@, 0) == Some(i as int) && i < args@.len(),
            None => argument_from(args@, name@, 0) is None,
        },
{
    let mut i: usize = 0;
    while i < args.len()
        invariant
            i <= args@.len(),
            argument_from(args@, name@, 0) == argument_from(args@, name@, i as int),
        decreases args.len() - i,
    {
        if same_text(args[i].as_str(), name) {
            return Some(i);
        }
        i += 1;
    }
    None
}

/// Whether this is among the arguments.
pub fn is_argument(args: &Vec<String>, name: &str) -> (r: bool)
    ensures
        r == has_argument(args@, name@),
{
    find_argument(args, name).is_some()
}

/// What the arguments ask for.
pub fn parse_arguments(args: &Vec<String>) -> (r: Options)
    ensures
        r.mode == mode_of(args@),
        r.drag_mode == has_argument(args@, "--drag"@),
        r.dir_mode == has_argument(args@, "--dir"@),
        match r.selection_path {
            Some(path) => argument_behind(args@, "--selection-path"@) == Some(path@),
            None => argument_behind(args@, "--selection-path"@) is None,
        },
{
    let mode = if is_argument(args, "--profile") {
        Mode::Profile
    } else if is_argument(args, "--test-video") {
        Mode::TestVideo
    } else if is_argument(args, "--bench-flicker") {
        Mode::BenchFlicker
    } else if is_argument(args, "--bench-responsiveness") {
        Mode::BenchResponsiveness
    } else {
        Mode::Pick
    };
    let size: usize = args.len();
    let selection_path = match find_argument(args, "--selection-path") {
        Some(i) => {
            if i < size - 1 {
                Some(args[i + 1].clone())
            } else {
                None
            }
        },
        None => None,
    };
    Options {
        mode,
        drag_mode: is_argument(args, "--drag"),
        dir_mode: is_argument(args, "--dir"),
        selection_path,
    }
}

/// What is written to the file for the choice.
pub fn selection_text(path: &str) -> (r: String)
    ensures
        r@ == path@ + "\n"@,
{
    let mut r = path.to_owned();
    r.append("\n");
    r
}

// ---------------------------------------------------------------------------
// Graphics
// ---------------------------------------------------------------------------

/// What has been drawn.
pub struct Graphics {
    /// Whether there may be graphics on the screen.
    pub shown: bool,
    /// The path of which something was drawn last.
    pub rendered_path: String,
}

/// What is to be done about graphics.
#[derive(Clone, Copy, Debug, PartialEq, Eq, Structural)]
pub enum GraphicsStep {
    Nothing,
    /// Draw the image that is shown, in this area.
    DrawImage(Rect),
    /// Draw a frame of the video that is shown, in this area.
    DrawFrame(usize, Rect),
    /// Take all graphics away.
    Clear,
    /// Nothing, because a key was pressed.
    Postpone,
}

/// The inside of an area with a border.
pub open spec fn inside(area: Rect) -> Rect {
    Rect {
        x: (area.x + 1) as u16,
        y: (area.y + 1) as u16,
        width: if area.width < 2 {
            0
        } else {
            (area.width - 2) as u16
        },
        height: if area.height < 2 {
            0
        } else {
            (area.height - 2) as u16
        },
    }
}

/// The inside of an area with a border.
pub fn inner_area(area: Rect) -> (r: Rect)
    requires
        area.x < u16::MAX,
        area.y < u16::MAX,
    ensures
        r == inside(area),
{
    Rect {
        x: area.x + 1,
        y: area.y + 1,
        width: if area.width < 2 {
            0
        } else {
            area.width - 2
        },
        height: if area.height < 2 {
            0
        } else {
            area.height - 2
        },
    }
}

/// The frames that are played.
pub open spec fn frame_count(content: PreviewContent) -> nat {
    match content {
        PreviewContent::Video(frames) => frames@.len(),
        PreviewContent::VideoStreaming(frames) => frames@.len(),
        _ => 0,
    }
}

/// Whether a video is played.
pub open spec fn is_playing(content: PreviewContent) -> bool {
    content is Video || content is VideoStreaming
}

/// Whether the next frame of a video is due, or it has to be drawn for the first time.
pub open spec fn frame_due(app: App, rendered: Seq<char>, elapsed: u64) -> bool {
    &&& frame_count(app.preview_content) > 0
    &&& (elapsed >= video::VIDEO_FRAME_INTERVAL || app.video_frame >= frame_count(
        app.preview_content,
    ) || app.preview_path@ != rendered)
}

/// What is to be done about graphics.
pub open spec fn graphics_due(
    app: App,
    graphics: Graphics,
    image_area: Option<Rect>,
    busy: bool,
    elapsed: u64,
) -> GraphicsStep {
    let rendered = graphics.rendered_path@;
    match image_area {
        Some(area) => if busy {
            GraphicsStep::Postpone
        } else if app.preview_content is Image && app.preview_path@ != rendered {
            GraphicsStep::DrawImage(inside(area))
        } else if is_playing(app.preview_content) && frame_due(app, rendered, elapsed) {
            GraphicsStep::DrawFrame(
                video::next_frame(
                    elapsed,
                    app.video_frame as int,
                    frame_count(app.preview_content),
                ) as usize,
                inside(area),
            )
        } else {
            GraphicsStep::Nothing
        },
        None => if !busy && graphics.shown {
            GraphicsStep::Clear
        } else {
            GraphicsStep::Nothing
        },
    }
}

/// Decides what is to be done about graphics, given the area for them, whether a key
/// was pressed just now, and how long the current frame has been shown. An image is
/// drawn once, a frame when its time has come, and what was drawn is taken away when
/// there is no more area for it.
pub fn graphics_step(
    app: &mut App,
    graphics: &mut Graphics,
    image_area: Option<Rect>,
    busy: bool,
    elapsed: u64,
    now: u64,
) -> (r: GraphicsStep)
    requires
        old(app).wf(),
        old(app).video_frame < usize::MAX,
        image_area matches Some(area) ==> area.x < u16::MAX && area.y < u16::MAX,
    ensures
        final(app).wf(),
        r == graphics_due(*old(app), *old(graphics), image_area, busy, elapsed),
        ({
            let playing = !busy && image_area is Some && frame_count(old(app).preview_content) > 0;
            &&& playing ==> *final(app) == (App {
                video_frame: video::next_frame(
                    elapsed,
                    old(app).video_frame as int,
                    frame_count(old(app).preview_content),
                ) as usize,
                video_frame_time: if elapsed >= video::VIDEO_FRAME_INTERVAL {
                    now
                } else {
                    old(app).video_frame_time
                },
                ..*old(app)
            })
            &&& !playing ==> *final(app) == *old(app)
        }),
        final(graphics).rendered_path@ == match r {
            GraphicsStep::DrawImage(_) | GraphicsStep::DrawFrame(_, _) => old(app).preview_path@,
            GraphicsStep::Clear => Seq::<char>::empty(),
            _ => old(graphics).rendered_path@,
        },
        final(graphics).shown == if busy {
            old(graphics).shown
        } else if image_area is Some {
            old(graphics).shown || old(app).preview_content is Image || is_playing(
                old(app).preview_content,
            )
        } else {
            false
        },
        r matches GraphicsStep::DrawFrame(i, _) ==> i == final(app).video_frame,
        r is Clear ==> old(graphics).shown && !final(graphics).shown,
        !busy && image_area is None ==> !final(graphics).shown,
{
    if busy {
        return match image_area {
            Some(_) => GraphicsStep::Postpone,
            None => GraphicsStep::Nothing,
        };
    }
    let area = match image_area {
        Some(area) => inner_area(area),
        None => {
            if !graphics.shown {
                return GraphicsStep::Nothing;
            }
            graphics.shown = false;
            graphics.rendered_path = String::new();
            proof {
                assert(graphics.rendered_path@ =~= Seq::<char>::empty());
            }
            return GraphicsStep::Clear;
        },
    };
    let count: usize = match &app.preview_content {
        PreviewContent::Image(_) => {
            graphics.shown = true;
            if same_text(app.preview_path.as_str(), graphics.rendered_path.as_str()) {
                return GraphicsStep::Nothing;
            }
            graphics.rendered_path = app.preview_path.clone();
            return GraphicsStep::DrawImage(area);
        },
        PreviewContent::Video(frames) => frames.len(),
        PreviewContent::VideoStreaming(frames) => frames.len(),
        _ => {
            return GraphicsStep::Nothing;
        },
    };
    graphics.shown = true;
    let mut frame: usize = app.video_frame;
    let mut since: u64 = app.video_frame_time;
    let decision = video_render_decision(
        elapsed,
        now,
        &mut frame,
        &mut since,
        count,
        app.preview_path.as_str(),
        graphics.rendered_path.as_str(),
    );
    app.video_frame = frame;
    app.video_frame_time = since;
    match decision {
        Some(i) => {
            graphics.rendered_path = app.preview_path.clone();
            GraphicsStep::DrawFrame(i, area)
        },
        None => GraphicsStep::Nothing,
    }
}

// ---------------------------------------------------------------------------
// Waiting
// ---------------------------------------------------------------------------

/// How long is waited for an event, in milliseconds.
pub open spec fn wait_for(app: App) -> u64 {
    match app.preview_content {
        PreviewContent::Video(_) | PreviewContent::VideoStreaming(_) => 16,
        PreviewContent::VideoLoading => 50,
        _ => if app.last_result_search_id != app.latest_search_id {
            8
        } else {
            100
        },
    }
}

/// How long is waited for an event, in milliseconds: not long while a video is played,
/// and even less while a search goes on.
pub fn poll_interval(app: &App) -> (r: u64)
    ensures
        r == wait_for(*app),
{
    match &app.preview_content {
        PreviewContent::Video(_) => 16,
        PreviewContent::VideoStreaming(_) => 16,
        PreviewContent::VideoLoading => 50,
        _ => if app.search_pending() {
            8
        } else {
            100
        },
    }
}

/// Whether a key was pressed just now. No graphics are drawn then, so that typing is
/// not held up.
pub fn is_input_recent(since_input: Option<u64>) -> (r: bool)
    ensures
        r == (since_input matches Some(elapsed) && elapsed < INPUT_RENDER_GRACE),
        since_input is None ==> !r,
        since_input matches Some(elapsed) ==> r == (elapsed < 90_000_000),
{
    match since_input {
        Some(elapsed) => elapsed < INPUT_RENDER_GRACE,
        None => false,
    }
}

/// Whether one more event may be read in a row.
pub fn may_read_more(read: usize, should_exit: bool) -> (r: bool)
    ensures
        r == (!should_exit && read < INPUT_DRAIN_LIMIT),
        should_exit || read >= 32 ==> !r,
        !should_exit && read < 32 ==> r,
{
    !should_exit && read < INPUT_DRAIN_LIMIT
}

/// An image that has been drawn is not drawn again while it is shown.
pub proof fn lemma_image_drawn_once(app: App, graphics: Graphics, area: Rect, elapsed: u64)
    requires
        app.preview_content is Image,
        graphics.rendered_path@ == app.preview_path@,
    ensures
        graphics_due(app, graphics, Some(area), false, elapsed) == GraphicsStep::Nothing,
{
}

/// A frame that is to be drawn is one of those there are.
pub proof fn lemma_drawn_frame_exists(
    app: App,
    graphics: Graphics,
    image_area: Option<Rect>,
    busy: bool,
    elapsed: u64,
)
    ensures
        graphics_due(app, graphics, image_area, busy, elapsed) matches GraphicsStep::DrawFrame(
            i,
            _,
        ) ==> i < frame_count(app.preview_content),
{
    if frame_count(app.preview_content) > 0 {
        video::lemma_next_frame_in_range(
            elapsed,
            app.video_frame as int,
            frame_count(app.preview_content),
        );
        match app.preview_content {
            PreviewContent::Video(frames) | PreviewContent::VideoStreaming(frames) => {
                assert(frames@.len() == frames.len());
            },
            _ => {},
        }
    }
}

// ---------------------------------------------------------------------------
// What holds of a session
// ---------------------------------------------------------------------------

/// An argument is found where it stands first, and only if it is there.
pub proof fn lemma_first_argument(args: Seq<String>, name: Seq<char>, from: int)
    requires
        0 <= from <= args.len(),
    ensures
        match argument_from(args, name, from) {
            Some(i) => {
                &&& from <= i < args.len()
                &&& args[i]@ == name
                &&& forall|k: int| from <= k < i ==> (#[trigger] args[k])@ != name
            },
            None => forall|k: int| from <= k < args.len() ==> (#[trigger] args[k])@ != name,
        },
    decreases args.len() - from,
{
    if from < args.len() && args[from]@ != name {
        lemma_first_argument(args, name, from + 1);
    }
}

/// Whether this is one of the arguments.
pub open spec fn is_given(args: Seq<String>, name: Seq<char>) -> bool {
    exists|k: int| 0 <= k < args.len() && (#[trigger] args[k])@ == name
}

/// What the program does is said by an argument, wherever it stands. If none of these
/// is given, files are picked. With several of them, the first in this order counts.
pub proof fn lemma_mode(args: Seq<String>)
    ensures
        mode_of(args) == Mode::Profile <==> is_given(args, "--profile"@),
        mode_of(args) == Mode::TestVideo <==> is_given(args, "--test-video"@) && !is_given(
            args,
            "--profile"@,
        ),
        mode_of(args) == Mode::BenchFlicker <==> is_given(args, "--bench-flicker"@) && !is_given(
            args,
            "--test-video"@,
        ) && !is_given(args, "--profile"@),
        mode_of(args) == Mode::BenchResponsiveness <==> is_given(args, "--bench-responsiveness"@)
            && !is_given(args, "--bench-flicker"@) && !is_given(args, "--test-video"@) && !is_given(
            args,
            "--profile"@,
        ),
        forall|name: Seq<char>| #[trigger] has_argument(args, name) == is_given(args, name),
{
    assert forall|name: Seq<char>| #[trigger] has_argument(args, name) == is_given(args, name) by {
        lemma_first_argument(args, name, 0);
    }
    assert(has_argument(args, "--profile"@) == is_given(args, "--profile"@));
    assert(has_argument(args, "--test-video"@) == is_given(args, "--test-video"@));
    assert(has_argument(args, "--bench-flicker"@) == is_given(args, "--bench-flicker"@));
    assert(has_argument(args, "--bench-responsiveness"@) == is_given(
        args,
        "--bench-responsiveness"@,
    ));
}

/// A value is the argument behind the first one of its name. There is none without
/// that name, nor if it stands at the end.
pub proof fn lemma_value_of_argument(args: Seq<String>, name: Seq<char>, k: int)
    requires
        0 <= k < args.len(),
        args[k]@ == name,
        forall|i: int| 0 <= i < k ==> (#[trigger] args[i])@ != name,
    ensures
        k + 1 < args.len() ==> argument_behind(args, name) == Some(args[k + 1]@),
        k + 1 == args.len() ==> argument_behind(args, name) is None,
{
    lemma_first_argument(args, name, 0);
}

/// Without an argument of this name there is no value of it.
pub proof fn lemma_no_value_without_argument(args: Seq<String>, name: Seq<char>)
    requires
        !is_given(args, name),
    ensures
        argument_behind(args, name) is None,
{
    lemma_first_argument(args, name, 0);
}

/// Between an area and its inside there is one cell on each side.
pub proof fn lemma_border_is_one_cell(area: Rect)
    requires
        area.x < u16::MAX,
        area.y < u16::MAX,
        area.width >= 2,
        area.height >= 2,
    ensures
        inside(area).x == area.x + 1,
        inside(area).y == area.y + 1,
        inside(area).x + inside(area).width + 1 == area.x + area.width,
        inside(area).y + inside(area).height + 1 == area.y + area.height,
{
}

/// An area without room for more than its border has nothing inside.
pub proof fn lemma_border_without_inside(area: Rect)
    ensures
        area.width <= 2 ==> inside(area).width == 0,
        area.height <= 2 ==> inside(area).height == 0,
{
}

/// Just after a key nothing is drawn and nothing is taken away.
pub proof fn lemma_keys_come_first(
    app: App,
    graphics: Graphics,
    image_area: Option<Rect>,
    elapsed: u64,
)
    ensures
        !(graphics_due(app, graphics, image_area, true, elapsed) is DrawImage),
        !(graphics_due(app, graphics, image_area, true, elapsed) is DrawFrame),
        !(graphics_due(app, graphics, image_area, true, elapsed) is Clear),
        graphics_due(app, graphics, image_area, true, elapsed) is Postpone <==> image_area is Some,
{
}

/// An image that was not drawn last is drawn, inside its area. Without an area what is
/// drawn is taken away, and nothing is if there is nothing.
pub proof fn lemma_graphics_follow_preview(
    app: App,
    graphics: Graphics,
    area: Rect,
    elapsed: u64,
)
    ensures
        app.preview_content is Image && graphics.rendered_path@ != app.preview_path@
            ==> graphics_due(app, graphics, Some(area), false, elapsed) == GraphicsStep::DrawImage(
            inside(area),
        ),
        graphics_due(app, graphics, None, false, elapsed) is Clear <==> graphics.shown,
        !graphics.shown ==> graphics_due(app, graphics, None, false, elapsed) is Nothing,
        !(app.preview_content is Image) && !(app.preview_content is Video) && !(
        app.preview_content is VideoStreaming) ==> graphics_due(
            app,
            graphics,
            Some(area),
            false,
            elapsed,
        ) is Nothing,
{
}

/// The frames of a video are drawn one after the other: the next one once a tenth of a
/// second has gone by, and none before that, unless the video was not drawn last.
pub proof fn lemma_video_plays(app: App, graphics: Graphics, area: Rect, elapsed: u64)
    requires
        app.preview_content is Video || app.preview_content is VideoStreaming,
        app.video_frame < frame_count(app.preview_content),
    ensures
        ({
            let count = frame_count(app.preview_content);
            let due = graphics_due(app, graphics, Some(area), false, elapsed);
            &&& elapsed < 100_000_000 && graphics.rendered_path@ == app.preview_path@
                ==> due is Nothing
            &&& elapsed < 100_000_000 && graphics.rendered_path@ != app.preview_path@ ==> due
                == GraphicsStep::DrawFrame(app.video_frame, inside(area))
            &&& elapsed >= 100_000_000 && app.video_frame + 1 < count ==> due
                == GraphicsStep::DrawFrame((app.video_frame + 1) as usize, inside(area))
            &&& elapsed >= 100_000_000 && app.video_frame + 1 == count ==> due
                == GraphicsStep::DrawFrame(0, inside(area))
        }),
{
    video::lemma_frames_in_turn(
        elapsed,
        app.video_frame as int,
        frame_count(app.preview_content),
    );
}

/// No wait is longer than a tenth of a second. While a video is played, a wait is
/// shorter than a frame is shown. While a search goes on and no video is there, no
/// wait is shorter than this one.
pub proof fn lemma_waits(app: App, other: App)
    ensures
        0 < wait_for(app) <= 100,
        is_playing(app.preview_content) ==> 2 * wait_for(app) < video::VIDEO_FRAME_INTERVAL_MS,
        !is_playing(app.preview_content) && !(app.preview_content is VideoLoading)
            && app.last_result_search_id != app.latest_search_id ==> wait_for(app) <= wait_for(
            other,
        ),
        !is_playing(app.preview_content) && !(app.preview_content is VideoLoading)
            && app.last_result_search_id == app.latest_search_id ==> wait_for(app) >= wait_for(
            other,
        ),
        is_playing(app.preview_content) && other.preview_content is VideoLoading ==> wait_for(app)
            < wait_for(other),
        INPUT_RENDER_GRACE == INPUT_RENDER_GRACE_MS * 1_000_000,
{
}

} // verus!
