//! What is shown of the selected file.
use vstd::prelude::*;
use vstd::string::*;

use crate::app::App;
use crate::app::PreviewContent;
use crate::files;
use crate::files::is_image_file;
use crate::files::is_video_file;
use crate::kitty::CachedImage;
use crate::lru;
use crate::order::Duplicate;
use crate::rank::is_empty_text;
use crate::style;
use crate::style::Color;
use crate::style::StyledLine;
use crate::text::same_text;

verus! {

/// A preview that is asked for.
pub struct PreviewRequest {
    pub id: u64,
    pub path: String,
}

/// What comes of such a request.
pub enum PreviewResultContent {
    Text(Vec<StyledLine>),
    Image(Option<CachedImage>),
}

/// The outcome of a request.
pub struct PreviewResult {
    pub id: u64,
    pub path: String,
    pub content: PreviewResultContent,
}

/// Frames of a video that are to be kept, in the form that they are kept in.
pub struct KeptVideo {
    pub path: String,
    pub frames: Vec<CachedImage>,
}

/// How far the loading of a video has come.
pub struct VideoProgress {
    pub frames: Vec<CachedImage>,
    pub done: bool,
}

/// What is to be done for the preview.
pub enum PreviewStep {
    Nothing,
    /// Ask for a preview.
    Request(PreviewRequest),
    /// Load the frames of the video at this path. Whatever was loaded before is of
    /// no more use.
    LoadVideo(String),
    /// Bring these frames into the form that they are kept in.
    KeepVideo(KeptVideo),
}

/// What is shown, by its views.
pub ghost enum ContentView {
    Text(Seq<Seq<style::SpanView>>),
    Image(CachedImage),
    Video(Seq<CachedImage>),
    VideoStreaming(Seq<CachedImage>),
    VideoLoading,
    Nothing,
}

impl View for PreviewContent {
    type V = ContentView;

    open spec fn view(&self) -> ContentView {
        match *self {
            PreviewContent::Text(lines) => ContentView::Text(style::line_views(lines@)),
            PreviewContent::Image(img) => ContentView::Image(img),
            PreviewContent::Video(frames) => ContentView::Video(frames@),
            PreviewContent::VideoStreaming(frames) => ContentView::VideoStreaming(frames@),
            PreviewContent::VideoLoading => ContentView::VideoLoading,
            PreviewContent::Nothing => ContentView::Nothing,
        }
    }
}

/// Whether a path names an image, by its extension.
pub open spec fn names_image(path: Seq<char>) -> bool {
    files::image_ext(files::lower_extension(path))
}

/// Whether a path names a video, by its extension.
pub open spec fn names_video(path: Seq<char>) -> bool {
    files::video_ext(files::lower_extension(path))
}

/// A single line of text in a colour.
pub open spec fn note(message: Seq<char>, color: Color) -> ContentView {
    ContentView::Text(seq![style::one_span(message, color)])
}

fn note_of(message: &str, color: Color) -> (r: PreviewContent)
    ensures
        r@ == note(message@, color),
{
    let mut lines: Vec<StyledLine> = Vec::new();
    lines.push(StyledLine::one(message.to_owned(), color));
    proof {
        assert(style::line_views(lines@) =~= seq![style::one_span(message@, color)]);
    }
    PreviewContent::Text(lines)
}

fn copy_frames(frames: &Vec<CachedImage>) -> (r: Vec<CachedImage>)
    ensures
        r@ == frames@,
{
    let mut r: Vec<CachedImage> = Vec::new();
    let mut i: usize = 0;
    while i < frames.len()
        invariant
            i <= frames@.len(),
            r@ == frames@.take(i as int),
        decreases frames.len() - i,
    {
        r.push(frames[i].duplicate());
        i += 1;
        proof {
            assert(frames@.take(i as int) =~= frames@.take(i - 1).push(frames@[i - 1]));
        }
    }
    proof {
        assert(frames@.take(frames@.len() as int) =~= frames@);
    }
    r
}

/// Whether a cache is another one into which a value has been put.
pub open spec fn put<T>(
    before: lru::LruCache<T>,
    after: lru::LruCache<T>,
    path: Seq<char>,
    value: T,
) -> bool {
    let n = lru::excess(before.used().len(), before.limit());
    &&& after.limit() == before.limit()
    &&& after.used() == before.used().skip(n).push(path)
    &&& after.values() == lru::forget(before.values(), before.used().take(n)).insert(path, value)
}

/// Whether a cache is another one in which a path has been looked up.
pub open spec fn looked_up<T>(
    before: lru::LruCache<T>,
    after: lru::LruCache<T>,
    path: Seq<char>,
) -> bool {
    &&& after.limit() == before.limit()
    &&& after.values() == before.values()
    &&& after.used() == if before.values().contains_key(path) {
        lru::without(before.used(), path).push(path)
    } else {
        before.used()
    }
}

/// What frames that have come into the form to keep do to the state.
pub open spec fn video_kept(before: App, after: App, kept: Option<KeptVideo>) -> bool {
    match kept {
        Some(k) => {
            &&& put(before.video_cache, after.video_cache, k.path@, k.frames)
            &&& after == App { video_cache: after.video_cache, ..before }
        },
        None => after == before,
    }
}

/// What the outcome of a request does to the state. An outcome for another request
/// than the latest, or for another path than the one shown, does nothing.
pub open spec fn result_taken(before: App, after: App, result: PreviewResult) -> bool {
    if result.id != before.latest_preview_id || result.path@ != before.preview_path@ {
        after == before
    } else {
        match result.content {
            PreviewResultContent::Image(Some(img)) => {
                &&& put(before.image_cache, after.image_cache, result.path@, img)
                &&& after == App {
                    image_cache: after.image_cache,
                    preview_content: PreviewContent::Image(img),
                    ..before
                }
            },
            PreviewResultContent::Image(None) => {
                &&& after.preview_content@ == note("[Cannot load image]"@, Color::DarkGray)
                &&& after == App { preview_content: after.preview_content, ..before }
            },
            PreviewResultContent::Text(lines) => after == (App {
                preview_content: PreviewContent::Text(lines),
                ..before
            }),
        }
    }
}

/// What the outcomes of some requests do to the state, one after the other.
pub open spec fn results_taken(before: App, after: App, results: Seq<PreviewResult>) -> bool
    decreases results.len(),
{
    if results.len() == 0 {
        after == before
    } else {
        exists|middle: App|
            #![trigger result_taken(middle, after, results.last())]
            results_taken(before, middle, results.drop_last()) && result_taken(
                middle,
                after,
                results.last(),
            )
    }
}

/// What the progress of the loading of a video does to the state, and what is to be
/// done then.
pub open spec fn video_followed(
    before: App,
    after: App,
    progress: VideoProgress,
    step: PreviewStep,
) -> bool {
    let frames = progress.frames@;
    if frames.len() > 0 && progress.done {
        &&& after.preview_content@ == ContentView::Video(frames)
        &&& after == App {
            video_loader: false,
            video_loader_seen_frames: 0,
            preview_content: after.preview_content,
            ..before
        }
        &&& step matches PreviewStep::KeepVideo(k) && k.path@ == before.preview_path@
            && k.frames@ == frames
    } else if frames.len() > 0 && frames.len() != before.video_loader_seen_frames {
        &&& after.preview_content@ == ContentView::VideoStreaming(frames)
        &&& after == App {
            video_loader_seen_frames: frames.len() as usize,
            preview_content: after.preview_content,
            ..before
        }
        &&& step is Nothing
    } else if frames.len() == 0 && progress.done {
        &&& after.preview_content@ == note("[Cannot load video]"@, Color::DarkGray)
        &&& after == App {
            video_loader: false,
            video_loader_seen_frames: 0,
            preview_content: after.preview_content,
            ..before
        }
        &&& step is Nothing
    } else {
        after == before && step is Nothing
    }
}

/// The state when another path is shown, before anything of it is: there is a new
/// request id, and a video of another path is not loaded any more.
pub open spec fn turned_to(before: App, path: Seq<char>) -> App {
    let id = (before.next_preview_id + 1) as u64;
    let shown = App { next_preview_id: id, latest_preview_id: id, ..before };
    if before.video_loader_path@ == path {
        shown
    } else {
        App { video_loader: false, video_loader_seen_frames: 0, ..shown }
    }
}

/// The path of the video that is loaded, when another path is shown. That of a video
/// that is not loaded any more is dropped.
pub open spec fn loader_path(before: App, path: Seq<char>) -> Seq<char> {
    if before.video_loader_path@ == path {
        path
    } else {
        Seq::empty()
    }
}

/// What showing another path does to the state, and what is to be done then.
pub open spec fn path_opened(
    before: App,
    after: App,
    path: Seq<char>,
    now: u64,
    step: PreviewStep,
) -> bool {
    let turned = turned_to(before, path);
    let asked = |message: Seq<char>|
        {
            &&& after.preview_content@ == note(message, Color::Yellow)
            &&& step matches PreviewStep::Request(request) && request.id
                == turned.latest_preview_id && request.path@ == path
        };
    &&& after.preview_path@ == path
    &&& if path.len() == 0 {
        &&& after.video_loader_path@ == loader_path(before, path)
        &&& after.preview_content is Nothing
        &&& step is Nothing
        &&& after == App {
            preview_path: after.preview_path,
            preview_content: after.preview_content,
            video_loader_path: after.video_loader_path,
            ..turned
        }
    } else if names_video(path) && before.video_cache.values().contains_key(path) {
        &&& after.video_loader_path@ == loader_path(before, path)
        &&& after.preview_content@ == ContentView::Video(before.video_cache.values()[path]@)
        &&& looked_up(before.video_cache, after.video_cache, path)
        &&& step is Nothing
        &&& after == App {
            preview_path: after.preview_path,
            preview_content: after.preview_content,
            video_loader_path: after.video_loader_path,
            video_cache: after.video_cache,
            video_frame: 0,
            video_frame_time: now,
            video_loader_seen_frames: 0,
            ..turned
        }
    } else if names_video(path) {
        &&& after.video_loader_path@ == path
        &&& after.preview_content is VideoLoading
        &&& looked_up(before.video_cache, after.video_cache, path)
        &&& step matches PreviewStep::LoadVideo(p) && p@ == path
        &&& after == App {
            preview_path: after.preview_path,
            preview_content: after.preview_content,
            video_loader_path: after.video_loader_path,
            video_cache: after.video_cache,
            video_frame: 0,
            video_loader: true,
            video_loader_seen_frames: 0,
            ..turned
        }
    } else if names_image(path) {
        &&& after.video_loader_path@ == loader_path(before, path)
        &&& looked_up(before.image_cache, after.image_cache, path)
        &&& if before.image_cache.values().contains_key(path) {
            &&& after.preview_content@ == ContentView::Image(before.image_cache.values()[path])
            &&& step is Nothing
        } else {
            asked("Loading image..."@)
        }
        &&& after == App {
            preview_path: after.preview_path,
            preview_content: after.preview_content,
            video_loader_path: after.video_loader_path,
            image_cache: after.image_cache,
            ..turned
        }
    } else {
        &&& after.video_loader_path@ == loader_path(before, path)
        &&& asked("Loading preview..."@)
        &&& after == App {
            preview_path: after.preview_path,
            preview_content: after.preview_content,
            video_loader_path: after.video_loader_path,
            ..turned
        }
    }
}

/// What is done once the outcomes have been taken: the selected path is shown, if it
/// is not shown yet; if it is, and it is a video that is being loaded, what has come
/// of it is shown.
pub open spec fn selection_shown(
    before: App,
    after: App,
    progress: Option<VideoProgress>,
    now: u64,
    step: PreviewStep,
) -> bool {
    let path = match before.chosen_path() {
        Some(p) => p,
        None => Seq::empty(),
    };
    if path != before.preview_path@ {
        path_opened(before, after, path, now, step)
    } else if before.video_loader && progress is Some {
        video_followed(before, after, progress->0, step)
    } else {
        after == before && step is Nothing
    }
}

impl App {
    /// Starts a new request for a preview: outcomes of earlier ones count no more.
    pub fn bump_preview_generation(&mut self) -> (r: u64)
        requires
            old(self).next_preview_id < u64::MAX,
        ensures
            r == old(self).next_preview_id + 1,
            *final(self) == (App { next_preview_id: r, latest_preview_id: r, ..*old(self) }),
    {
        self.next_preview_id = self.next_preview_id + 1;
        self.latest_preview_id = self.next_preview_id;
        self.latest_preview_id
    }

    /// Shows that something is being loaded.
    pub fn loading_preview(message: &str) -> (r: PreviewContent)
        ensures
            r@ == note(message@, Color::Yellow),
    {
        note_of(message, Color::Yellow)
    }

    /// Asks for a preview, and shows a message meanwhile.
    pub fn request_preview(&mut self, path: String, message: &str) -> (r: PreviewRequest)
        ensures
            r.id == old(self).latest_preview_id,
            r.path == path,
            final(self).preview_content@ == note(message@, Color::Yellow),
            *final(self) == (App { preview_content: final(self).preview_content, ..*old(self) }),
    {
        self.preview_content = App::loading_preview(message);
        PreviewRequest { id: self.latest_preview_id, path }
    }

    /// Takes the outcome of a request.
    pub fn take_preview_result(&mut self, result: PreviewResult)
        requires
            old(self).wf(),
        ensures
            final(self).wf(),
            result_taken(*old(self), *final(self), result),
    {
        if result.id != self.latest_preview_id || !same_text(
            result.path.as_str(),
            self.preview_path.as_str(),
        ) {
            return ;
        }
        match result.content {
            PreviewResultContent::Image(Some(img)) => {
                self.image_cache.insert(result.path, img.duplicate());
                self.preview_content = PreviewContent::Image(img);
            },
            PreviewResultContent::Image(None) => {
                self.preview_content = note_of("[Cannot load image]", Color::DarkGray);
            },
            PreviewResultContent::Text(lines) => {
                self.preview_content = PreviewContent::Text(lines);
            },
        }
    }

    /// Takes the outcomes of some requests.
    pub fn drain_preview_results(&mut self, results: Vec<PreviewResult>)
        requires
            old(self).wf(),
        ensures
            final(self).wf(),
            results_taken(*old(self), *final(self), results@),
            final(self).next_preview_id == old(self).next_preview_id,
            final(self).preview_path == old(self).preview_path,
            final(self).chosen_path() == old(self).chosen_path(),
    {
        let ghost all = results@;
        let mut left = results;
        let ghost mut n: int = 0;
        proof {
            assert(all.skip(0) =~= all);
            assert(all.take(0) =~= Seq::<PreviewResult>::empty());
        }
        while left.len() > 0
            invariant
                0 <= n <= all.len(),
                left@ == all.skip(n),
                self.wf(),
                results_taken(*old(self), *self, all.take(n)),
                self.next_preview_id == old(self).next_preview_id,
                self.preview_path == old(self).preview_path,
                self.chosen_path() == old(self).chosen_path(),
            decreases left.len(),
        {
            let ghost middle = *self;
            let result = left.remove(0);
            proof {
                assert(result == all[n]);
                assert(left@ =~= all.skip(n + 1));
                assert(all.take(n + 1).drop_last() =~= all.take(n));
                assert(all.take(n + 1).last() == result);
                n = n + 1;
            }
            self.take_preview_result(result);
            proof {
                assert(result_taken(middle, *self, all.take(n).last()));
            }
        }
        proof {
            assert(all.take(n) =~= all);
        }
    }

    /// Shows what has come of a video that is being loaded.
    pub fn follow_video(&mut self, progress: VideoProgress) -> (step: PreviewStep)
        requires
            old(self).wf(),
        ensures
            final(self).wf(),
            video_followed(*old(self), *final(self), progress, step),
    {
        let count: usize = progress.frames.len();
        if count > 0 {
            if !progress.done && count == self.video_loader_seen_frames {
                return PreviewStep::Nothing;
            }
            if progress.done {
                let kept = KeptVideo {
                    path: self.preview_path.clone(),
                    frames: copy_frames(&progress.frames),
                };
                self.video_loader = false;
                self.video_loader_seen_frames = 0;
                self.preview_content = PreviewContent::Video(progress.frames);
                PreviewStep::KeepVideo(kept)
            } else {
                self.video_loader_seen_frames = count;
                self.preview_content = PreviewContent::VideoStreaming(progress.frames);
                PreviewStep::Nothing
            }
        } else {
            if progress.done {
                self.video_loader = false;
                self.video_loader_seen_frames = 0;
                self.preview_content = note_of("[Cannot load video]", Color::DarkGray);
            }
            PreviewStep::Nothing
        }
    }

    /// Shows another path.
    pub fn open_path(&mut self, path: String, now: u64) -> (step: PreviewStep)
        requires
            old(self).wf(),
            old(self).next_preview_id < u64::MAX,
        ensures
            final(self).wf(),
            path_opened(*old(self), *final(self), path@, now, step),
    {
        self.preview_path = path.clone();
        let _ = self.bump_preview_generation();
        if !same_text(self.video_loader_path.as_str(), path.as_str()) {
            self.video_loader = false;
            self.video_loader_path = String::new();
            self.video_loader_seen_frames = 0;
        }
        if is_empty_text(path.as_str()) {
            self.preview_content = PreviewContent::Nothing;
            return PreviewStep::Nothing;
        }
        if is_video_file(path.as_str()) {
            if let Some(frames) = self.video_cache.get(path.as_str()) {
                let content = PreviewContent::Video(copy_frames(frames));
                self.video_frame = 0;
                self.video_frame_time = now;
                self.video_loader_seen_frames = 0;
                self.preview_content = content;
                return PreviewStep::Nothing;
            }
            self.video_loader = true;
            self.video_loader_path = path.clone();
            self.video_frame = 0;
            self.video_loader_seen_frames = 0;
            self.preview_content = PreviewContent::VideoLoading;
            PreviewStep::LoadVideo(path)
        } else if is_image_file(path.as_str()) {
            if let Some(img) = self.image_cache.get(path.as_str()) {
                let content = PreviewContent::Image(img.duplicate());
                self.preview_content = content;
                return PreviewStep::Nothing;
            }
            PreviewStep::Request(self.request_preview(path, "Loading image..."))
        } else {
            PreviewStep::Request(self.request_preview(path, "Loading preview..."))
        }
    }

    /// Brings what is shown up to date: takes the frames that have come to be kept and
    /// the outcomes of requests, and shows the selected path.
    pub fn update_preview(
        &mut self,
        kept: Option<KeptVideo>,
        results: Vec<PreviewResult>,
        progress: Option<VideoProgress>,
        now: u64,
    ) -> (step: PreviewStep)
        requires
            old(self).wf(),
            old(self).next_preview_id < u64::MAX,
        ensures
            final(self).wf(),
            exists|a: App, b: App|
                #![trigger results_taken(a, b, results@)]
                {
                    &&& video_kept(*old(self), a, kept)
                    &&& results_taken(a, b, results@)
                    &&& selection_shown(b, *final(self), progress, now, step)
                },
    {
        if let Some(k) = kept {
            self.video_cache.insert(k.path, k.frames);
        }
        let ghost a = *self;
        proof {
            assert(video_kept(*old(self), a, kept));
        }
        self.drain_preview_results(results);
        let ghost b = *self;
        let current = match self.selected_file() {
            Some(path) => path,
            None => String::new(),
        };
        if same_text(current.as_str(), self.preview_path.as_str()) {
            if self.video_loader {
                if let Some(p) = progress {
                    return self.follow_video(p);
                }
            }
            PreviewStep::Nothing
        } else {
            self.open_path(current, now)
        }
    }
}

/// An image that has come for the path that is shown is found when that path is
/// shown again, until it has to make room.
pub proof fn lemma_image_is_kept(before: App, after: App, result: PreviewResult, img: CachedImage)
    requires
        result_taken(before, after, result),
        result.id == before.latest_preview_id,
        result.path@ == before.preview_path@,
        result.content == PreviewResultContent::Image(Some(img)),
    ensures
        after.image_cache.values().contains_key(result.path@),
        after.image_cache.values()[result.path@] == img,
        after.preview_content@ == ContentView::Image(img),
{
}

/// Once the selected path is shown, nothing is left to be done for it until
/// something comes.
pub proof fn lemma_preview_settles(before: App, after: App, now: u64, step: PreviewStep)
    requires
        selection_shown(before, after, None, now, step),
    ensures
        forall|later: u64| #[trigger]
            selection_shown(after, after, None, later, PreviewStep::Nothing),
{
}

/// The outcome of a request made for one path is dropped once another is shown.
pub proof fn lemma_stale_result(
    before: App,
    after: App,
    path: Seq<char>,
    now: u64,
    step: PreviewStep,
    result: PreviewResult,
)
    requires
        path_opened(before, after, path, now, step),
        result.id <= before.next_preview_id < u64::MAX,
    ensures
        forall|end: App| #[trigger] result_taken(after, end, result) ==> end == after,
{
}

} // verus!
