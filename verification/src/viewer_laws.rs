//! What the preview shows, over several steps.
use vstd::prelude::*;
use vstd::string::*;

use crate::app::App;
use crate::kitty::CachedImage;
use crate::lru;
use crate::lru::LruCache;
use crate::style;
use crate::style::Color;
use crate::viewer;
use crate::viewer::ContentView;
use crate::viewer::KeptVideo;
use crate::viewer::PreviewResult;
use crate::viewer::PreviewResultContent;
use crate::viewer::PreviewStep;
use crate::viewer::VideoProgress;

verus! {

// ---------------------------------------------------------------------------
// What is kept
// ---------------------------------------------------------------------------

/// A value that is put into a cache is found there. The others stay, but for the one
/// that has not been used for longest, and that one only if the cache is full.
pub proof fn lemma_put<T>(
    before: LruCache<T>,
    after: LruCache<T>,
    path: Seq<char>,
    value: T,
    other: Seq<char>,
)
    requires
        before.wf(),
        before.limit() > 0,
        viewer::put(before, after, path, value),
        other != path,
    ensures
        after.values().contains_key(path),
        after.values()[path] == value,
        after.used().last() == path,
        after.used().len() <= after.limit() == before.limit(),
        before.used().len() < before.limit() || before.used()[0] != other ==> {
            &&& after.values().contains_key(other) == before.values().contains_key(other)
            &&& before.values().contains_key(other) ==> after.values()[other]
                == before.values()[other]
        },
        before.used().len() == before.limit() && before.used()[0] == other
            ==> !after.values().contains_key(other),
{
    let n = lru::excess(before.used().len(), before.limit());
    lru::lemma_forget(before.values(), before.used().take(n), other);
    if n == 1 {
        assert(before.used().take(n)[0] == before.used()[0]);
    }
}

/// What has been looked up is the last to go. The values stay.
pub proof fn lemma_looked_up<T>(before: LruCache<T>, after: LruCache<T>, path: Seq<char>)
    requires
        viewer::looked_up(before, after, path),
    ensures
        after.values() == before.values(),
        before.values().contains_key(path) ==> {
            &&& after.used().last() == path
            &&& after.used().drop_last() == lru::others(before.used(), path)
        },
        !before.values().contains_key(path) ==> after.used() == before.used(),
{
    lru::lemma_without_is_rest(before.used(), path);
    assert(lru::without(before.used(), path).push(path).drop_last() =~= lru::without(
        before.used(),
        path,
    ));
}

// ---------------------------------------------------------------------------
// Requests
// ---------------------------------------------------------------------------

/// A path that is shown becomes the one of the preview. What is asked for is asked for
/// by this path, under an id that no earlier request had.
pub proof fn lemma_request_is_new(
    before: App,
    after: App,
    path: Seq<char>,
    now: u64,
    step: PreviewStep,
)
    requires
        viewer::path_opened(before, after, path, now, step),
        before.next_preview_id < u64::MAX,
    ensures
        after.preview_path@ == path,
        after.latest_preview_id > before.next_preview_id,
        step matches PreviewStep::Request(request) ==> request.path@ == path && request.id
            == after.latest_preview_id,
        step matches PreviewStep::LoadVideo(p) ==> p@ == path && viewer::names_video(path),
        !(step is KeepVideo),
        after.query == before.query,
        after.selected == before.selected,
        after.matches == before.matches,
{
}

/// For a path that is neither an image nor a video there is a request, and the text
/// that comes of it is shown.
pub proof fn lemma_text_comes(
    before: App,
    between: App,
    after: App,
    path: Seq<char>,
    now: u64,
    step: PreviewStep,
    result: PreviewResult,
)
    requires
        path.len() > 0,
        !viewer::names_image(path),
        !viewer::names_video(path),
        viewer::path_opened(before, between, path, now, step),
        step is Request ==> result.id == step->Request_0.id,
        result.path@ == path,
        result.content is Text,
        viewer::result_taken(between, after, result),
    ensures
        step is Request,
        between.preview_content@ == ContentView::Text(
            seq![style::one_span("Loading preview..."@, Color::Yellow)],
        ),
        after.preview_content@ == ContentView::Text(
            style::line_views(result.content->Text_0@),
        ),
        after.preview_path@ == path,
{
}

/// For an image that is not kept there is a request. The image that comes of it is
/// shown and kept: when the path is shown again, it is there at once.
pub proof fn lemma_image_comes(
    before: App,
    between: App,
    loaded: App,
    path: Seq<char>,
    now: u64,
    step: PreviewStep,
    result: PreviewResult,
    img: CachedImage,
    again: App,
    later: u64,
    other_step: PreviewStep,
)
    requires
        path.len() > 0,
        viewer::names_image(path),
        !viewer::names_video(path),
        !before.image_cache.values().contains_key(path),
        viewer::path_opened(before, between, path, now, step),
        step is Request ==> result.id == step->Request_0.id,
        result.path@ == path,
        result.content == PreviewResultContent::Image(Some(img)),
        viewer::result_taken(between, loaded, result),
        viewer::path_opened(loaded, again, path, later, other_step),
    ensures
        step is Request,
        between.preview_content@ == ContentView::Text(
            seq![style::one_span("Loading image..."@, Color::Yellow)],
        ),
        loaded.preview_content@ == ContentView::Image(img),
        again.preview_content@ == ContentView::Image(img),
        other_step is Nothing,
{
}

/// An image that cannot be loaded is not kept.
pub proof fn lemma_image_fails(before: App, after: App, result: PreviewResult)
    requires
        result.content == PreviewResultContent::Image(None),
        viewer::result_taken(before, after, result),
    ensures
        after.image_cache == before.image_cache,
        result.id == before.latest_preview_id && result.path@ == before.preview_path@
            ==> after.preview_content@ == ContentView::Text(
            seq![style::one_span("[Cannot load image]"@, Color::DarkGray)],
        ),
{
}

// ---------------------------------------------------------------------------
// Videos
// ---------------------------------------------------------------------------

/// A video that is not kept is loaded. Its frames are shown as they come; once all
/// have come they are shown as the video, and handed on to be kept.
pub proof fn lemma_video_comes(
    before: App,
    opened: App,
    path: Seq<char>,
    now: u64,
    step: PreviewStep,
    some: VideoProgress,
    streaming: App,
    some_step: PreviewStep,
    all: VideoProgress,
    loaded: App,
    all_step: PreviewStep,
)
    requires
        path.len() > 0,
        viewer::names_video(path),
        !before.video_cache.values().contains_key(path),
        viewer::path_opened(before, opened, path, now, step),
        !some.done,
        some.frames@.len() > 0,
        viewer::video_followed(opened, streaming, some, some_step),
        all.done,
        all.frames@.len() > 0,
        viewer::video_followed(streaming, loaded, all, all_step),
    ensures
        step matches PreviewStep::LoadVideo(p) && p@ == path,
        opened.preview_content is VideoLoading,
        opened.video_loader,
        opened.video_frame == 0,
        streaming.preview_content@ == ContentView::VideoStreaming(some.frames@),
        streaming.video_loader,
        some_step is Nothing,
        loaded.preview_content@ == ContentView::Video(all.frames@),
        !loaded.video_loader,
        all_step matches PreviewStep::KeepVideo(k) && k.path@ == path && k.frames@ == all.frames@,
{
}

/// A video whose frames are kept is shown from its first frame, without loading.
pub proof fn lemma_kept_video_is_shown(
    before: App,
    kept: KeptVideo,
    between: App,
    after: App,
    now: u64,
    step: PreviewStep,
)
    requires
        kept.path@.len() > 0,
        viewer::names_video(kept.path@),
        viewer::video_kept(before, between, Some(kept)),
        viewer::path_opened(between, after, kept.path@, now, step),
    ensures
        after.preview_content@ == ContentView::Video(kept.frames@),
        after.video_frame == 0,
        after.video_frame_time == now,
        step is Nothing,
{
}

/// While no further frames have come, what is shown of a video stays as it is.
pub proof fn lemma_no_new_frames(
    before: App,
    after: App,
    progress: VideoProgress,
    step: PreviewStep,
)
    requires
        !progress.done,
        progress.frames@.len() == before.video_loader_seen_frames || progress.frames@.len() == 0,
        viewer::video_followed(before, after, progress, step),
    ensures
        after == before,
        step is Nothing,
{
}

/// A video of which there are no frames in the end is not shown, and not kept.
pub proof fn lemma_video_fails(
    before: App,
    after: App,
    progress: VideoProgress,
    step: PreviewStep,
)
    requires
        progress.done,
        progress.frames@.len() == 0,
        viewer::video_followed(before, after, progress, step),
    ensures
        step is Nothing,
        !after.video_loader,
        after.video_cache == before.video_cache,
        after.preview_content@ == ContentView::Text(
            seq![style::one_span("[Cannot load video]"@, Color::DarkGray)],
        ),
{
}

/// Once another path is shown, a video is not loaded any more, unless that path is one
/// of a video itself.
pub proof fn lemma_loading_ends(
    before: App,
    after: App,
    path: Seq<char>,
    now: u64,
    step: PreviewStep,
)
    requires
        viewer::path_opened(before, after, path, now, step),
        before.video_loader_path@ != path,
    ensures
        after.video_loader ==> viewer::names_video(path) && after.video_loader_path@ == path,
        !after.video_loader ==> after.video_loader_path@.len() == 0,
        after.video_loader_seen_frames == 0,
{
}

// ---------------------------------------------------------------------------
// The selection
// ---------------------------------------------------------------------------

/// The preview is that of the selected path, and empty if there is none.
pub proof fn lemma_preview_follows_selection(
    before: App,
    after: App,
    progress: Option<VideoProgress>,
    now: u64,
    step: PreviewStep,
)
    requires
        viewer::selection_shown(before, after, progress, now, step),
    ensures
        before.chosen_path() matches Some(path) ==> after.preview_path@ == path,
        before.chosen_path() is None ==> after.preview_path@.len() == 0,
        before.chosen_path() is None && before.preview_path@.len() > 0
            ==> after.preview_content is Nothing && step is Nothing,
        after.chosen_path() == before.chosen_path(),
        before.chosen_path() == Some(before.preview_path@) && !before.video_loader ==> after
            == before && step is Nothing,
{
}

} // verus!
