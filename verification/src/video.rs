//! Playing a few frames of a video.
use std::sync::Arc;
use vstd::prelude::*;
use vstd::string::*;
use vstd::utf8::*;

use crate::kitty::CachedImage;
use crate::number;
use crate::number::parse_unsigned_text;
use crate::number::push_decimal;
use crate::order::Duplicate;
use crate::picture;
use crate::picture::image_of_pixels;
use crate::picture::png_of;
use crate::text;
use crate::text::chars_of;
use crate::text::same_text;
use crate::text::split_on;
use crate::text::text_from_bytes;
use crate::text::trimmed;
use crate::text_laws;

verus! {

/// How many frames of a video are shown.
pub const VIDEO_PREVIEW_FRAMES: usize = 75;

/// How long a frame is shown, in milliseconds.
pub const VIDEO_FRAME_INTERVAL_MS: u64 = 100;

/// How long a frame is shown, in nanoseconds.
pub const VIDEO_FRAME_INTERVAL: u64 = 100_000_000;

/// The frame that is shown next: the one behind it, or the first, when its time is
/// over or there are not so many.
pub open spec fn next_frame(elapsed: u64, frame: int, frame_count: nat) -> int {
    if elapsed >= VIDEO_FRAME_INTERVAL {
        (frame + 1) % frame_count as int
    } else if frame >= frame_count {
        0
    } else {
        frame
    }
}

/// Decides whether a frame is to be drawn, and which. It is if it is another one,
/// or if the video is another one than was drawn last. Without frames nothing is
/// drawn.
pub fn video_render_decision(
    elapsed: u64,
    now: u64,
    video_frame: &mut usize,
    video_frame_time: &mut u64,
    frame_count: usize,
    preview_path: &str,
    last_rendered_path: &str,
) -> (r: Option<usize>)
    requires
        *old(video_frame) < usize::MAX,
    ensures
        frame_count == 0 ==> r is None && *final(video_frame) == *old(video_frame)
            && *final(video_frame_time) == *old(video_frame_time),
        frame_count > 0 ==> {
            &&& *final(video_frame) == next_frame(
                elapsed,
                *old(video_frame) as int,
                frame_count as nat,
            )
            &&& *final(video_frame) < frame_count
            &&& *final(video_frame_time) == if elapsed >= VIDEO_FRAME_INTERVAL {
                now
            } else {
                *old(video_frame_time)
            }
            &&& r == if elapsed >= VIDEO_FRAME_INTERVAL || *old(video_frame) >= frame_count
                || preview_path@ != last_rendered_path@ {
                Some(*final(video_frame))
            } else {
                None
            }
        },
        r matches Some(i) ==> i == *final(video_frame) && i < frame_count,
        frame_count > 0 && preview_path@ != last_rendered_path@ ==> r is Some,
        frame_count > 0 && *final(video_frame) != *old(video_frame) ==> r is Some,
        elapsed < VIDEO_FRAME_INTERVAL && *old(video_frame) < frame_count && preview_path@
            == last_rendered_path@ ==> r is None,
{
    if frame_count == 0 {
        return None;
    }
    let mut frame_changed = false;
    if elapsed >= VIDEO_FRAME_INTERVAL {
        *video_frame = (*video_frame + 1) % frame_count;
        *video_frame_time = now;
        frame_changed = true;
    }
    if *video_frame >= frame_count {
        *video_frame = 0;
        frame_changed = true;
    }
    if frame_changed || !same_text(preview_path, last_rendered_path) {
        Some(*video_frame)
    } else {
        None
    }
}

/// The frame shown next is always one of those there are.
pub proof fn lemma_next_frame_in_range(elapsed: u64, frame: int, frame_count: nat)
    requires
        0 <= frame,
        frame_count > 0,
    ensures
        0 <= next_frame(elapsed, frame, frame_count) < frame_count,
{
}

// ---------------------------------------------------------------------------
// What the tools print
// ---------------------------------------------------------------------------

/// The width and height that are printed with an `x` between them.
pub open spec fn printed_dimensions(s: Seq<char>) -> Option<(int, int)> {
    let parts = text::pieces(text::trim(s), 'x');
    if parts.len() == 2 {
        match (
            number::parse_unsigned(parts[0], u32::MAX as int),
            number::parse_unsigned(parts[1], u32::MAX as int),
        ) {
            (Some(w), Some(h)) => Some((w, h)),
            _ => None,
        }
    } else {
        None
    }
}

/// Whether these are the width and height that are printed, if any are.
pub open spec fn are_printed(r: Option<(u32, u32)>, s: Seq<char>) -> bool {
    match r {
        Some((w, h)) => printed_dimensions(s) == Some((w as int, h as int)),
        None => printed_dimensions(s) is None,
    }
}

/// Reads the width and height of a video from what `ffprobe` prints.
pub fn get_video_dimensions(output: &[u8]) -> (r: Option<(u32, u32)>)
    ensures
        are_printed(r, text::lossy_text(output@)),
        valid_utf8(output@) ==> are_printed(r, decode_utf8(output@)),
{
    let text = text_from_bytes(output);
    dimensions_in(text.as_str())
}

/// Reads a width and a height with an `x` between them.
pub fn dimensions_in(text: &str) -> (r: Option<(u32, u32)>)
    ensures
        are_printed(r, text@),
{
    let chars = chars_of(text);
    let inner = trimmed(chars.as_slice());
    let parts = split_on(inner.as_slice(), 'x');
    if parts.len() != 2 {
        return None;
    }
    proof {
        assert(text::views(parts@)[0] == parts@[0]@);
        assert(text::views(parts@)[1] == parts@[1]@);
    }
    match (
        parse_unsigned_text(parts[0].as_slice(), u32::MAX as u64),
        parse_unsigned_text(parts[1].as_slice(), u32::MAX as u64),
    ) {
        (Some(w), Some(h)) => Some((w as u32, h as u32)),
        _ => None,
    }
}

// ---------------------------------------------------------------------------
// Frames out of a stream
// ---------------------------------------------------------------------------

/// A number made even, and at least two.
pub open spec fn even_size(n: int) -> int {
    if n < 2 {
        2
    } else {
        n - n % 2
    }
}

/// The size of frames from a size that has been scaled: even, as the encoder wants
/// it, and at least two each way.
pub fn frame_dimensions(scaled_w: u32, scaled_h: u32) -> (r: (u32, u32))
    ensures
        r.0 == even_size(scaled_w as int),
        r.1 == even_size(scaled_h as int),
{
    let w: u32 = if scaled_w < 2 {
        2
    } else {
        scaled_w - scaled_w % 2
    };
    let h: u32 = if scaled_h < 2 {
        2
    } else {
        scaled_h - scaled_h % 2
    };
    (w, h)
}

/// How the tool that reads a video is to scale its frames: to a rate, given as text, and a
/// size, with a border where the shape does not fit.
pub open spec fn filter_of(fps: Seq<char>, width: nat, height: nat) -> Seq<char> {
    let (w, h) = (number::decimal(width), number::decimal(height));
    "fps="@ + fps + ",scale="@ + w + ":"@ + h + ":force_original_aspect_ratio=decrease,pad="@ + w
        + ":"@ + h + ":(ow-iw)/2:(oh-ih)/2"@
}

/// How the tool that reads a video is to scale its frames.
pub fn frame_filter(fps: &str, width: u32, height: u32) -> (r: String)
    ensures
        r@ == filter_of(fps@, width as nat, height as nat),
{
    let mut r = String::new();
    r.append("fps=");
    r.append(fps);
    r.append(",scale=");
    push_decimal(&mut r, width as u128);
    r.append(":");
    push_decimal(&mut r, height as u128);
    r.append(":force_original_aspect_ratio=decrease,pad=");
    push_decimal(&mut r, width as u128);
    r.append(":");
    push_decimal(&mut r, height as u128);
    r.append(":(ow-iw)/2:(oh-ih)/2");
    proof {
        assert(r@ =~= filter_of(fps@, width as nat, height as nat));
    }
    r
}

/// The bytes of some frames, one behind the other.
pub open spec fn frame_bytes(frames: Seq<Seq<u8>>) -> Seq<u8>
    decreases frames.len(),
{
    if frames.len() == 0 {
        Seq::empty()
    } else {
        frame_bytes(frames.drop_last()) + frames.last()
    }
}

/// The bytes of each of some frames.
pub open spec fn frames_data(frames: Seq<CachedImage>) -> Seq<Seq<u8>> {
    frames.map_values(|f: CachedImage| f.data@)
}

/// Whether all frames are raw ones of a size.
pub open spec fn are_raw(frames: Seq<CachedImage>, width: u32, height: u32, size: nat) -> bool {
    forall|i: int|
        0 <= i < frames.len() ==> {
            let f = #[trigger] frames[i];
            f.data@.len() == size && f.width == width && f.height == height && f.is_raw_rgb
        }
}

/// Cuts the bytes of a stream into frames. What is left over waits for the next
/// bytes.
pub struct FrameReader {
    buffer: Vec<u8>,
    frame_size: usize,
    width: u32,
    height: u32,
    count: usize,
}

impl FrameReader {
    /// The bytes that wait.
    pub closed spec fn waiting(&self) -> Seq<u8> {
        self.buffer@
    }

    /// How many bytes a frame has.
    pub closed spec fn size(&self) -> nat {
        self.frame_size as nat
    }

    /// The width and height of a frame.
    pub closed spec fn dimensions(&self) -> (u32, u32) {
        (self.width, self.height)
    }

    /// How many frames have been cut.
    pub closed spec fn taken(&self) -> nat {
        self.count as nat
    }

    /// A reader of frames of a size, with three bytes for each pixel.
    pub fn new(width: u32, height: u32) -> (r: Self)
        requires
            width > 0,
            height > 0,
            width * height * 3 <= usize::MAX,
        ensures
            r.waiting().len() == 0,
            r.size() == width * height * 3,
            r.size() > 0,
            r.dimensions() == (width, height),
            r.taken() == 0,
    {
        proof {
            assert(width * height > 0) by (nonlinear_arith)
                requires
                    width > 0,
                    height > 0,
            ;
            assert(width * height <= u64::MAX) by (nonlinear_arith)
                requires
                    width <= u32::MAX,
                    height <= u32::MAX,
            ;
        }
        let area: u64 = width as u64 * height as u64;
        FrameReader {
            buffer: Vec::new(),
            frame_size: (area as u128 * 3) as usize,
            width,
            height,
            count: 0,
        }
    }

    /// Whether all frames that are wanted have been cut.
    pub fn is_done(&self) -> (r: bool)
        ensures
            r == (self.taken() >= VIDEO_PREVIEW_FRAMES),
    {
        self.count >= VIDEO_PREVIEW_FRAMES
    }

    /// Takes more bytes, and gives the frames that are complete with them, up to
    /// the number that is wanted.
    pub fn feed(&mut self, bytes: &[u8]) -> (r: Vec<CachedImage>)
        requires
            old(self).size() > 0,
            old(self).taken() < VIDEO_PREVIEW_FRAMES,
        ensures
            final(self).size() == old(self).size(),
            final(self).dimensions() == old(self).dimensions(),
            final(self).taken() == old(self).taken() + r@.len(),
            final(self).taken() <= VIDEO_PREVIEW_FRAMES,
            frame_bytes(frames_data(r@)) + final(self).waiting() == old(self).waiting() + bytes@,
            are_raw(
                r@,
                old(self).dimensions().0,
                old(self).dimensions().1,
                old(self).size(),
            ),
            final(self).waiting().len() < final(self).size() || final(self).taken()
                == VIDEO_PREVIEW_FRAMES,
    {
        let ghost all = self.buffer@ + bytes@;
        let mut i: usize = 0;
        let ghost before = self.buffer@;
        proof {
            assert(before + bytes@.take(0) =~= before);
        }
        while i < bytes.len()
            invariant
                i <= bytes@.len(),
                self.frame_size == old(self).frame_size,
                self.width == old(self).width,
                self.height == old(self).height,
                self.count == old(self).count,
                self.buffer@ == before + bytes@.take(i as int),
            decreases bytes.len() - i,
        {
            self.buffer.push(bytes[i]);
            i += 1;
            proof {
                assert(bytes@.take(i as int) =~= bytes@.take(i - 1).push(bytes@[i - 1]));
                assert(before + bytes@.take(i as int) =~= (before + bytes@.take(i - 1)).push(
                    bytes@[i - 1],
                ));
            }
        }
        proof {
            assert(bytes@.take(bytes@.len() as int) =~= bytes@);
        }
        let mut frames: Vec<CachedImage> = Vec::new();
        proof {
            assert(frames_data(frames@) =~= Seq::<Seq<u8>>::empty());
            assert(frame_bytes(frames_data(frames@)) + self.buffer@ =~= all);
        }
        while self.buffer.len() >= self.frame_size && self.count < VIDEO_PREVIEW_FRAMES
            invariant
                self.frame_size == old(self).frame_size,
                self.frame_size > 0,
                self.width == old(self).width,
                self.height == old(self).height,
                self.count == old(self).count + frames@.len(),
                self.count <= VIDEO_PREVIEW_FRAMES,
                frame_bytes(frames_data(frames@)) + self.buffer@ == all,
                are_raw(frames@, self.width, self.height, self.frame_size as nat),
            decreases self.buffer.len(),
        {
            let ghost held = self.buffer@;
            let ghost done = frames@;
            let rest = self.buffer.split_off(self.frame_size);
            let mut data: Vec<u8> = rest;
            std::mem::swap(&mut data, &mut self.buffer);
            let frame = CachedImage {
                data: Arc::new(data),
                width: self.width,
                height: self.height,
                is_raw_rgb: true,
            };
            proof {
                let size = self.frame_size as int;
                assert(held =~= held.take(size) + held.skip(size));
                assert(frame.data@ =~= held.take(size));
                assert(self.buffer@ =~= held.skip(size));
            }
            frames.push(frame);
            self.count += 1;
            proof {
                assert(frames_data(frames@).drop_last() =~= frames_data(done));
                assert(frame_bytes(frames_data(frames@)) + self.buffer@ =~= frame_bytes(
                    frames_data(done),
                ) + held);
            }
        }
        frames
    }
}

// ---------------------------------------------------------------------------
// Keeping frames
// ---------------------------------------------------------------------------

/// A frame as it is kept: its bytes, its size, and whether they are raw pixels.
pub type FrameView = (Seq<u8>, u32, u32, bool);

/// What a frame is.
pub open spec fn frame_view(f: CachedImage) -> FrameView {
    (f.data@, f.width, f.height, f.is_raw_rgb)
}

/// What some frames are.
pub open spec fn frame_views(frames: Seq<CachedImage>) -> Seq<FrameView> {
    frames.map_values(|f: CachedImage| frame_view(f))
}

/// Whether there are just the bytes that raw pixels of a size take.
pub open spec fn fills(len: nat, width: u32, height: u32) -> bool {
    3 * width <= usize::MAX && len == 3 * width * height
}

/// A frame as it is kept for later: as PNG, if that can be had. A raw frame with too few
/// bytes, or with too many, is not kept.
pub open spec fn kept_frame(f: FrameView) -> Option<FrameView> {
    if !f.3 {
        Some(f)
    } else if !fills(f.0.len(), f.1, f.2) {
        None
    } else {
        match picture::png_form(picture::rgb_image(f.0, f.1, f.2)) {
            Some(png) => Some((png, f.1, f.2, false)),
            None => None,
        }
    }
}

/// Frames as they are kept for later, without those that cannot be.
pub open spec fn kept_frames(frames: Seq<FrameView>) -> Seq<FrameView>
    decreases frames.len(),
{
    if frames.len() == 0 {
        Seq::empty()
    } else {
        let before = kept_frames(frames.drop_last());
        match kept_frame(frames.last()) {
            Some(f) => before.push(f),
            None => before,
        }
    }
}

/// The frame that is kept, given the PNG data that was had for it, if it was raw.
pub fn keep_frame(frame: &CachedImage, png: Option<Vec<u8>>) -> (r: Option<CachedImage>)
    ensures
        match r {
            Some(f) => if frame.is_raw_rgb {
                png is Some && frame_view(f) == (png->0@, frame.width, frame.height, false)
            } else {
                f == *frame
            },
            None => frame.is_raw_rgb && png is None,
        },
{
    if !frame.is_raw_rgb {
        return Some(frame.duplicate());
    }
    match png {
        Some(data) => Some(
            CachedImage {
                data: Arc::new(data),
                width: frame.width,
                height: frame.height,
                is_raw_rgb: false,
            },
        ),
        None => None,
    }
}

fn copy_bytes(data: &Vec<u8>) -> (r: Vec<u8>)
    ensures
        r@ == data@,
{
    let mut r: Vec<u8> = Vec::new();
    let mut i: usize = 0;
    while i < data.len()
        invariant
            i <= data@.len(),
            r@ == data@.take(i as int),
        decreases data.len() - i,
    {
        r.push(data[i]);
        i += 1;
        proof {
            assert(data@.take(i as int) =~= data@.take(i - 1).push(data@[i - 1]));
        }
    }
    proof {
        assert(data@.take(data@.len() as int) =~= data@);
    }
    r
}

/// The PNG data of a raw frame, if it can be had.
fn png_of_frame(frame: &CachedImage) -> (r: Option<Vec<u8>>)
    ensures
        match r {
            Some(png) => fills(frame.data@.len(), frame.width, frame.height) && picture::png_form(
                picture::rgb_image(frame.data@, frame.width, frame.height),
            ) == Some(png@),
            None => !fills(frame.data@.len(), frame.width, frame.height) || picture::png_form(
                picture::rgb_image(frame.data@, frame.width, frame.height),
            ) is None,
        },
{
    let (wide, high): (u128, u128) = (frame.width as u128, frame.height as u128);
    proof {
        assert(0 <= 3 * wide * high <= 3 * 0xffff_ffff * 0xffff_ffff) by (nonlinear_arith)
            requires
                0 <= wide <= 0xffff_ffff,
                0 <= high <= 0xffff_ffff,
        ;
    }
    if frame.data.len() as u128 > 3 * wide * high {
        return None;
    }
    match image_of_pixels(copy_bytes(&*frame.data), frame.width, frame.height) {
        Some(img) => png_of(&img),
        None => None,
    }
}

/// Turns raw frames into PNG, to keep them for later.
pub fn compress_frames(frames: &Vec<CachedImage>) -> (r: Vec<CachedImage>)
    ensures
        frame_views(r@) == kept_frames(frame_views(frames@)),
{
    let ghost all = frame_views(frames@);
    let mut r: Vec<CachedImage> = Vec::new();
    let mut i: usize = 0;
    proof {
        assert(frame_views(r@) =~= kept_frames(all.take(0)));
    }
    while i < frames.len()
        invariant
            i <= frames@.len(),
            all == frame_views(frames@),
            frame_views(r@) == kept_frames(all.take(i as int)),
        decreases frames.len() - i,
    {
        let frame = &frames[i];
        let ghost before = r@;
        proof {
            assert(all.take(i + 1).drop_last() =~= all.take(i as int));
            assert(all.take(i + 1).last() == frame_view(*frame));
        }
        let png = if frame.is_raw_rgb {
            png_of_frame(frame)
        } else {
            None
        };
        if let Some(f) = keep_frame(frame, png) {
            r.push(f);
            proof {
                assert(frame_views(r@) =~= frame_views(before).push(frame_view(f)));
            }
        }
        i += 1;
    }
    proof {
        assert(all.take(all.len() as int) =~= all);
    }
    r
}

/// No kept frame is raw.
pub proof fn lemma_kept_frames_not_raw(frames: Seq<FrameView>)
    ensures
        kept_frames(frames).len() <= frames.len(),
        forall|i: int| 0 <= i < kept_frames(frames).len() ==> !(#[trigger] kept_frames(frames)[i]).3,
    decreases frames.len(),
{
    if frames.len() > 0 {
        lemma_kept_frames_not_raw(frames.drop_last());
    }
}

/// Frames follow each other, and the first follows the last. None is left before a
/// tenth of a second.
pub proof fn lemma_frames_in_turn(elapsed: u64, frame: int, frame_count: nat)
    requires
        0 <= frame < frame_count,
    ensures
        elapsed < 100_000_000 ==> next_frame(elapsed, frame, frame_count) == frame,
        elapsed >= 100_000_000 && frame + 1 < frame_count ==> next_frame(
            elapsed,
            frame,
            frame_count,
        ) == frame + 1,
        elapsed >= 100_000_000 && frame + 1 == frame_count ==> next_frame(
            elapsed,
            frame,
            frame_count,
        ) == 0,
        VIDEO_FRAME_INTERVAL == VIDEO_FRAME_INTERVAL_MS * 1_000_000,
        VIDEO_PREVIEW_FRAMES * VIDEO_FRAME_INTERVAL_MS == 7_500,
{
    if frame + 1 < frame_count {
        vstd::arithmetic::div_mod::lemma_small_mod((frame + 1) as nat, frame_count);
    } else {
        vstd::arithmetic::div_mod::lemma_mod_self_0(frame_count as int);
    }
}

/// A width and a height with an `x` between them are read as they are written,
/// whatever whitespace stands around them.
pub proof fn lemma_dimensions_are_read(
    before: Seq<char>,
    width: u32,
    height: u32,
    behind: Seq<char>,
)
    requires
        forall|i: int| 0 <= i < before.len() ==> text::is_whitespace(#[trigger] before[i]),
        forall|i: int| 0 <= i < behind.len() ==> text::is_whitespace(#[trigger] behind[i]),
    ensures
        printed_dimensions(
            before + (number::decimal(width as nat) + seq!['x'] + number::decimal(height as nat))
                + behind,
        ) == Some((width as int, height as int)),
{
    let (w, h) = (number::decimal(width as nat), number::decimal(height as nat));
    let inner = w + seq!['x'] + h;
    number::lemma_decimal_digits(width as nat);
    number::lemma_decimal_digits(height as nat);
    assert(number::is_digit(w[0]) && inner[0] == w[0]);
    assert(number::is_digit(h[h.len() - 1]) && inner.last() == h[h.len() - 1]);
    text_laws::lemma_whitespace(inner[0]);
    text_laws::lemma_whitespace(inner.last());
    text_laws::lemma_trim_gives_back(before, inner, behind);
    assert(inner =~= w.push('x') + h);
    text::lemma_pieces_of_concat(w, h, 'x');
    assert(!w.contains('x'));
    assert(!h.contains('x'));
    text::lemma_pieces_of_plain(w, 'x');
    text::lemma_pieces_of_plain(h, 'x');
    number::lemma_decimal_round_trip(width as nat, u32::MAX as int);
    number::lemma_decimal_round_trip(height as nat, u32::MAX as int);
}

/// A size for frames is even and not zero. It is less than the size by one at most,
/// and never more but for sizes below two.
pub proof fn lemma_even_size(n: int)
    ensures
        even_size(n) % 2 == 0,
        even_size(n) >= 2,
        n >= 2 ==> n - 1 <= even_size(n) <= n,
        n < 2 ==> even_size(n) == 2,
        even_size(even_size(n)) == even_size(n),
{
}

/// The frames are scaled to the width and height, at the rate, and the border brings
/// them to that width and height too.
pub proof fn lemma_filter_names_size(fps: Seq<char>, width: nat, height: nat)
    ensures
        ({
            let size = number::decimal(width) + ":"@ + number::decimal(height);
            exists|middle: Seq<char>, end: Seq<char>|
                #![trigger middle + end]
                filter_of(fps, width, height) == "fps="@ + fps + ",scale="@ + size + middle
                    + "pad="@ + size + end
        }),
{
    let size = number::decimal(width) + ":"@ + number::decimal(height);
    reveal_strlit(":force_original_aspect_ratio=decrease,pad=");
    reveal_strlit(":force_original_aspect_ratio=decrease,");
    reveal_strlit("pad=");
    let (middle, end) = (":force_original_aspect_ratio=decrease,"@, ":(ow-iw)/2:(oh-ih)/2"@);
    assert(":force_original_aspect_ratio=decrease,pad="@ =~= middle + "pad="@);
    let whole = middle + end;
    assert(filter_of(fps, width, height) =~= "fps="@ + fps + ",scale="@ + size + middle + "pad="@
        + size + end);
}

/// Frames of a size that are put behind each other stand in their order: a byte of a
/// frame has the frames before it in front.
pub proof fn lemma_frames_stand_in_order(frames: Seq<Seq<u8>>, size: nat, k: int, j: int)
    requires
        forall|i: int| 0 <= i < frames.len() ==> (#[trigger] frames[i]).len() == size,
        0 <= k < frames.len(),
        0 <= j < size,
    ensures
        frame_bytes(frames).len() == frames.len() * size,
        0 <= k * size + j < frame_bytes(frames).len(),
        frame_bytes(frames)[k * size + j] == frames[k][j],
    decreases frames.len(),
{
    lemma_frame_bytes_len(frames, size);
    let init = frames.drop_last();
    lemma_frame_bytes_len(init, size);
    assert(k * size + j < frames.len() * size) by (nonlinear_arith)
        requires
            0 <= k < frames.len(),
            0 <= j < size,
    ;
    assert(0 <= k * size) by (nonlinear_arith)
        requires
            0 <= k,
    ;
    if k < frames.len() - 1 {
        assert(init[k] == frames[k]);
        lemma_frames_stand_in_order(init, size, k, j);
    }
}

proof fn lemma_frame_bytes_len(frames: Seq<Seq<u8>>, size: nat)
    requires
        forall|i: int| 0 <= i < frames.len() ==> (#[trigger] frames[i]).len() == size,
    ensures
        frame_bytes(frames).len() == frames.len() * size,
    decreases frames.len(),
{
    if frames.len() > 0 {
        lemma_frame_bytes_len(frames.drop_last(), size);
        assert(frames.last() == frames[frames.len() - 1]);
        assert((frames.len() - 1) * size + size == frames.len() * size) by (nonlinear_arith);
    }
}

/// However the bytes of a stream come, they are cut into the same frames: those of two
/// ways to cut them agree as far as both go.
pub proof fn lemma_one_way_to_cut(
    a: Seq<Seq<u8>>,
    a_rest: Seq<u8>,
    b: Seq<Seq<u8>>,
    b_rest: Seq<u8>,
    size: nat,
    k: int,
)
    requires
        size > 0,
        forall|i: int| 0 <= i < a.len() ==> (#[trigger] a[i]).len() == size,
        forall|i: int| 0 <= i < b.len() ==> (#[trigger] b[i]).len() == size,
        frame_bytes(a) + a_rest == frame_bytes(b) + b_rest,
        0 <= k < a.len(),
        k < b.len(),
    ensures
        a[k] == b[k],
{
    assert forall|j: int| 0 <= j < size implies a[k][j] == b[k][j] by {
        lemma_frames_stand_in_order(a, size, k, j);
        lemma_frames_stand_in_order(b, size, k, j);
        assert((frame_bytes(a) + a_rest)[k * size + j] == a[k][j]);
        assert((frame_bytes(b) + b_rest)[k * size + j] == b[k][j]);
    }
    assert(a[k].len() == size && b[k].len() == size);
    assert(a[k] =~= b[k]);
}

/// Frames that are not raw are kept as they are, all of them.
pub proof fn lemma_finished_frames_stay(frames: Seq<FrameView>)
    requires
        forall|i: int| 0 <= i < frames.len() ==> !(#[trigger] frames[i]).3,
    ensures
        kept_frames(frames) == frames,
    decreases frames.len(),
{
    if frames.len() > 0 {
        let init = frames.drop_last();
        assert(!frames[frames.len() - 1].3);
        assert forall|i: int| 0 <= i < init.len() implies !(#[trigger] init[i]).3 by {
            assert(init[i] == frames[i]);
        }
        lemma_finished_frames_stay(init);
        assert(init.push(frames.last()) =~= frames);
    } else {
        assert(kept_frames(frames) =~= frames);
    }
}

/// Raw frames of which a PNG can be had are kept, all of them and in their order, each
/// with its own size.
pub proof fn lemma_raw_frames_are_kept(frames: Seq<FrameView>, png: Seq<Seq<u8>>)
    requires
        png.len() == frames.len(),
        forall|i: int|
            0 <= i < frames.len() ==> {
                let f = #[trigger] frames[i];
                &&& f.3
                &&& f.0.len() == 3 * f.1 * f.2
                &&& 3 * f.1 <= usize::MAX
                &&& picture::png_form(picture::rgb_image(f.0, f.1, f.2)) == Some(png[i])
            },
    ensures
        kept_frames(frames).len() == frames.len(),
        forall|i: int|
            0 <= i < frames.len() ==> #[trigger] kept_frames(frames)[i] == (
                png[i],
                frames[i].1,
                frames[i].2,
                false,
            ),
    decreases frames.len(),
{
    if frames.len() > 0 {
        let init = frames.drop_last();
        let last = frames[frames.len() - 1];
        assert forall|i: int| 0 <= i < init.len() implies {
            let f = #[trigger] init[i];
            &&& f.3
            &&& f.0.len() == 3 * f.1 * f.2
            &&& 3 * f.1 <= usize::MAX
            &&& picture::png_form(picture::rgb_image(f.0, f.1, f.2)) == Some(png.drop_last()[i])
        } by {
            assert(init[i] == frames[i]);
        }
        lemma_raw_frames_are_kept(init, png.drop_last());
        assert(last.3);
        assert(kept_frame(last) is Some);
        assert forall|i: int| 0 <= i < frames.len() implies #[trigger] kept_frames(frames)[i] == (
            png[i],
            frames[i].1,
            frames[i].2,
            false,
        ) by {
            if i < init.len() {
                assert(kept_frames(init)[i] == (png[i], frames[i].1, frames[i].2, false));
            }
        }
    }
}

} // verus!
