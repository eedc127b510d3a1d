//! Measuring the program.
use std::sync::Arc;
use vstd::prelude::*;
use vstd::string::*;

use crate::entry::FileEntry;
use crate::files;
use crate::files::is_image_file;
use crate::files::is_text_extension;
use crate::files::is_video_file;
use crate::kitty::CachedImage;
use crate::number;
use crate::number::push_decimal;
use crate::order;
use crate::order::sort_items;
use crate::order::Duplicate;
use crate::order::Ranking;
use crate::text;
use crate::text::chars_of;
use crate::text::split_on;
use crate::text::string_of;
use crate::text::trimmed;
use crate::text_laws;
use crate::video;

verus! {

// ---------------------------------------------------------------------------
// Queries
// ---------------------------------------------------------------------------

/// The pieces that are left when they have been trimmed.
pub open spec fn trimmed_pieces(pieces: Seq<Seq<char>>) -> Seq<Seq<char>>
    decreases pieces.len(),
{
    if pieces.len() == 0 {
        Seq::empty()
    } else {
        let before = trimmed_pieces(pieces.drop_last());
        let piece = text::trim(pieces.last());
        if piece.len() > 0 {
            before.push(piece)
        } else {
            before
        }
    }
}

/// The queries in a list with commas.
pub fn split_queries(list: &str) -> (r: Vec<String>)
    ensures
        text::text_views(r@) == trimmed_pieces(text::pieces(list@, ',')),
{
    let parts = split_on(&chars_of(list), ',');
    let ghost all = text::views(parts@);
    let mut r: Vec<String> = Vec::new();
    let mut i: usize = 0;
    proof {
        assert(text::text_views(r@) =~= trimmed_pieces(all.take(0)));
    }
    while i < parts.len()
        invariant
            i <= parts@.len(),
            all == text::views(parts@),
            text::text_views(r@) == trimmed_pieces(all.take(i as int)),
        decreases parts.len() - i,
    {
        let piece = trimmed(&parts[i]);
        proof {
            assert(all.take(i + 1).drop_last() =~= all.take(i as int));
            assert(all.take(i + 1).last() == parts@[i as int]@);
        }
        if piece.len() > 0 {
            let ghost before = r@;
            r.push(string_of(&piece));
            proof {
                assert(text::text_views(r@) =~= text::text_views(before).push(piece@));
            }
        }
        i += 1;
    }
    proof {
        assert(all.take(i as int) =~= all);
    }
    r
}

// ---------------------------------------------------------------------------
// Samples
// ---------------------------------------------------------------------------

/// The order of numbers.
pub open spec fn ascending() -> spec_fn(u64, u64) -> bool {
    |a: u64, b: u64| a < b
}

struct Ascending;

impl Ranking<u64> for Ascending {
    closed spec fn accepts(&self, item: u64) -> bool {
        true
    }

    closed spec fn before(&self) -> spec_fn(u64, u64) -> bool {
        ascending()
    }

    proof fn strict_weak_order(&self) {
    }

    fn is_before(&self, a: &u64, b: &u64) -> (r: bool) {
        *a < *b
    }
}

impl Duplicate for u64 {
    fn duplicate(&self) -> (r: Self) {
        *self
    }
}

/// The sample of a rank among some durations, in nanoseconds: the last one if there are
/// not so many, and zero if there are none. The samples are sorted.
pub fn percentile_duration(samples: &mut Vec<u64>, rank: usize) -> (r: u64)
    ensures
        final(samples)@ == order::ranked(old(samples)@, ascending()),
        old(samples)@.len() == 0 ==> r == 0,
        old(samples)@.len() > 0 ==> r == final(samples)@[if rank < old(samples)@.len() {
            rank as int
        } else {
            old(samples)@.len() - 1
        }],
        final(samples)@.to_multiset() == old(samples)@.to_multiset(),
        forall|i: int, j: int|
            0 <= i < j < final(samples)@.len() ==> #[trigger] final(samples)@[i]
                <= #[trigger] final(samples)@[j],
{
    proof {
        assert(order::strict_weak(ascending()));
        assert(samples.len() <= usize::MAX);
        order::lemma_ranked(samples@, ascending());
    }
    let ghost all = samples@;
    let sorted = sort_items(&Ascending, samples);
    proof {
        assert forall|i: int, j: int| 0 <= i < j < sorted@.len() implies #[trigger] sorted@[i]
            <= #[trigger] sorted@[j] by {
            assert(!ascending()(order::ranked(all, ascending())[j], order::ranked(
                all,
                ascending(),
            )[i]));
        }
    }
    *samples = sorted;
    let size: usize = samples.len();
    if size == 0 {
        return 0;
    }
    if rank < size {
        samples[rank]
    } else {
        samples[size - 1]
    }
}

/// The largest of some durations, or zero.
pub fn longest(samples: &Vec<u64>) -> (r: u64)
    ensures
        forall|i: int| 0 <= i < samples@.len() ==> #[trigger] samples@[i] <= r,
        r == 0 || samples@.contains(r),
{
    let mut r: u64 = 0;
    let mut i: usize = 0;
    while i < samples.len()
        invariant
            i <= samples@.len(),
            forall|j: int| 0 <= j < i ==> #[trigger] samples@[j] <= r,
            r == 0 || samples@.contains(r),
        decreases samples.len() - i,
    {
        if samples[i] > r {
            r = samples[i];
            proof {
                assert(samples@[i as int] == r);
            }
        }
        i += 1;
    }
    r
}

// ---------------------------------------------------------------------------
// Made-up frames and entries
// ---------------------------------------------------------------------------

/// So many bytes that count up from a start, over and over.
pub open spec fn counting(start: int, size: nat) -> Seq<u8> {
    Seq::new(size, |j: int| ((start + j) % 256) as u8)
}

fn counting_bytes(start: u64, size: usize) -> (r: Vec<u8>)
    requires
        start + size <= u64::MAX,
    ensures
        r@ == counting(start as int, size as nat),
{
    let mut r: Vec<u8> = Vec::new();
    let mut j: usize = 0;
    while j < size
        invariant
            j <= size,
            start + size <= u64::MAX,
            r@ == counting(start as int, j as nat),
        decreases size - j,
    {
        let byte: u8 = ((start + j as u64) % 256) as u8;
        r.push(byte);
        j += 1;
        proof {
            assert(counting(start as int, j as nat) =~= counting(
                start as int,
                (j - 1) as nat,
            ).push(byte));
        }
    }
    proof {
        assert(r@ =~= counting(start as int, size as nat));
    }
    r
}

/// A frame of some size with bytes that count up: three to a pixel if it is raw, else
/// one.
pub fn synthetic_frame(width: u32, height: u32, is_raw_rgb: bool) -> (r: CachedImage)
    requires
        width * height * (if is_raw_rgb {
            3int
        } else {
            1
        }) <= u32::MAX,
    ensures
        r.data@ == counting(
            0,
            (width * height * (if is_raw_rgb {
                3int
            } else {
                1
            })) as nat,
        ),
        r.width == width,
        r.height == height,
        r.is_raw_rgb == is_raw_rgb,
{
    proof {
        assert(0 <= width * height) by (nonlinear_arith);
    }
    let pixels: u32 = width * height;
    let size: u32 = if is_raw_rgb {
        pixels * 3
    } else {
        pixels
    };
    CachedImage { data: Arc::new(counting_bytes(0, size as usize)), width, height, is_raw_rgb }
}

/// The raw frame of a number, of some size, with bytes that count up from seven times
/// the number.
pub fn numbered_frame(number: u32, width: u32, height: u32) -> (r: CachedImage)
    requires
        width * height * 3 <= u32::MAX,
    ensures
        r.data@ == counting(number * 7, (width * height * 3) as nat),
        r.width == width,
        r.height == height,
        r.is_raw_rgb,
{
    proof {
        assert(0 <= width * height) by (nonlinear_arith);
    }
    let size: u32 = width * height * 3;
    CachedImage {
        data: Arc::new(counting_bytes(number as u64 * 7, size as usize)),
        width,
        height,
        is_raw_rgb: true,
    }
}

/// A made-up path, the one of a number.
pub open spec fn numbered_path(i: nat) -> Seq<char> {
    "/home/user/project-"@ + number::decimal(i % 977) + "/src/module_"@ + number::decimal(i % 53)
        + "/file_"@ + number::decimal(i) + ".rs"@
}

/// A made-up path, the one of a number.
pub fn synthetic_path(i: u64) -> (r: String)
    ensures
        r@ == numbered_path(i as nat),
{
    let mut r = String::new();
    r.append("/home/user/project-");
    push_decimal(&mut r, (i % 977) as u128);
    r.append("/src/module_");
    push_decimal(&mut r, (i % 53) as u128);
    r.append("/file_");
    push_decimal(&mut r, i as u128);
    r.append(".rs");
    proof {
        assert(r@ =~= numbered_path(i as nat));
    }
    r
}

// ---------------------------------------------------------------------------
// Choosing files
// ---------------------------------------------------------------------------

/// A kind of file, by its name.
#[derive(Clone, Copy, Debug, PartialEq, Eq, Structural)]
pub enum FileKind {
    Image,
    Video,
    Text,
}

/// Whether an entry is of a kind. A directory is no text.
pub open spec fn is_kind(e: FileEntry, kind: FileKind) -> bool {
    match kind {
        FileKind::Image => files::image_ext(files::lower_extension(e@.path)),
        FileKind::Video => files::video_ext(files::lower_extension(e@.path)),
        FileKind::Text => !e@.is_dir && files::named_as_text(e@.path),
    }
}

/// The places of the entries of a kind, in order.
pub open spec fn places_of_kind(files: Seq<FileEntry>, kind: FileKind) -> Seq<usize>
    decreases files.len(),
{
    if files.len() == 0 {
        Seq::empty()
    } else {
        let before = places_of_kind(files.drop_last(), kind);
        if is_kind(files.last(), kind) {
            before.push((files.len() - 1) as usize)
        } else {
            before
        }
    }
}

/// The first places of a list, no more than a limit.
pub open spec fn first_of(places: Seq<usize>, limit: nat) -> Seq<usize> {
    places.take(if places.len() < limit {
        places.len() as int
    } else {
        limit as int
    })
}

proof fn lemma_places_grow(files: Seq<FileEntry>, kind: FileKind, n: int, limit: nat)
    requires
        0 <= n <= files.len(),
        places_of_kind(files.take(n), kind).len() >= limit,
    ensures
        first_of(places_of_kind(files, kind), limit) == first_of(
            places_of_kind(files.take(n), kind),
            limit,
        ),
        places_of_kind(files, kind).len() >= limit,
    decreases files.len(),
{
    if n < files.len() {
        assert(files.drop_last().take(n) =~= files.take(n));
        lemma_places_grow(files.drop_last(), kind, n, limit);
        assert(first_of(places_of_kind(files, kind), limit) =~= first_of(
            places_of_kind(files.drop_last(), kind),
            limit,
        ));
    } else {
        assert(files.take(n) =~= files);
    }
}

/// The places of the first entries of a kind, no more than a limit.
pub fn first_of_kind(files: &Vec<FileEntry>, kind: FileKind, limit: usize) -> (r: Vec<usize>)
    ensures
        r@ == first_of(places_of_kind(files@, kind), limit as nat),
{
    let mut r: Vec<usize> = Vec::new();
    let mut i: usize = 0;
    proof {
        assert(files@.take(0) =~= Seq::<FileEntry>::empty());
    }
    while i < files.len() && r.len() < limit
        invariant
            i <= files@.len(),
            r@ == places_of_kind(files@.take(i as int), kind),
            r@.len() <= limit,
        decreases files.len() - i,
    {
        let entry = &files[i];
        proof {
            assert(files@.take(i + 1).drop_last() =~= files@.take(i as int));
            assert(files@.take(i + 1).last() == *entry);
        }
        let wanted = match kind {
            FileKind::Image => is_image_file(entry.path()),
            FileKind::Video => is_video_file(entry.path()),
            FileKind::Text => !entry.is_dir() && is_text_extension(entry.path()),
        };
        if wanted {
            r.push(i);
        }
        i += 1;
    }
    proof {
        if i < files@.len() {
            lemma_places_grow(files@, kind, i as int, limit as nat);
        } else {
            assert(files@.take(i as int) =~= files@);
        }
        assert(r@ =~= first_of(places_of_kind(files@, kind), limit as nat));
    }
    r
}

// ---------------------------------------------------------------------------
// Checking frames
// ---------------------------------------------------------------------------

/// How many bytes some frames have together.
pub open spec fn frames_size(frames: Seq<CachedImage>) -> nat
    decreases frames.len(),
{
    if frames.len() == 0 {
        0
    } else {
        frames_size(frames.drop_last()) + frames.last().data@.len()
    }
}

/// Whether a frame cannot be right: it has next to no data, or no extent.
pub open spec fn is_bad(frame: CachedImage) -> bool {
    frame.data@.len() < 100 || frame.width == 0 || frame.height == 0
}

/// The places of the frames that cannot be right.
pub open spec fn bad_places(frames: Seq<CachedImage>) -> Seq<usize>
    decreases frames.len(),
{
    if frames.len() == 0 {
        Seq::empty()
    } else if is_bad(frames.last()) {
        bad_places(frames.drop_last()).push((frames.len() - 1) as usize)
    } else {
        bad_places(frames.drop_last())
    }
}

/// How many frames are the same as the one before.
pub open spec fn repeats(frames: Seq<CachedImage>) -> nat
    decreases frames.len(),
{
    if frames.len() < 2 {
        0
    } else {
        repeats(frames.drop_last()) + if frames.last().data@ == frames[frames.len() - 2].data@ {
            1nat
        } else {
            0
        }
    }
}

/// What can be said of some frames.
pub struct FrameReport {
    pub total_bytes: u128,
    pub bad: Vec<usize>,
    pub duplicates: usize,
}

fn same_bytes(a: &Vec<u8>, b: &Vec<u8>) -> (r: bool)
    ensures
        r == (a@ == b@),
{
    if a.len() != b.len() {
        return false;
    }
    let mut i: usize = 0;
    while i < a.len()
        invariant
            i <= a@.len(),
            a@.len() == b@.len(),
            forall|j: int| 0 <= j < i ==> a@[j] == b@[j],
        decreases a.len() - i,
    {
        if a[i] != b[i] {
            return false;
        }
        i += 1;
    }
    proof {
        assert(a@ =~= b@);
    }
    true
}

/// Checks some frames: their size, which cannot be right, and how many repeat the one
/// before.
pub fn check_frames(frames: &Vec<CachedImage>) -> (r: FrameReport)
    ensures
        r.total_bytes == frames_size(frames@),
        r.bad@ == bad_places(frames@),
        r.duplicates == repeats(frames@),
{
    let mut total_bytes: u128 = 0;
    let mut bad: Vec<usize> = Vec::new();
    let mut duplicates: usize = 0;
    let mut i: usize = 0;
    proof {
        assert(frames@.take(0) =~= Seq::<CachedImage>::empty());
    }
    while i < frames.len()
        invariant
            i <= frames@.len(),
            total_bytes == frames_size(frames@.take(i as int)),
            total_bytes <= i * 0xffff_ffff_ffff_ffff,
            bad@ == bad_places(frames@.take(i as int)),
            duplicates == repeats(frames@.take(i as int)),
            duplicates <= i,
        decreases frames.len() - i,
    {
        let frame = &frames[i];
        let size: usize = frame.data.len();
        proof {
            assert(frames@.take(i + 1).drop_last() =~= frames@.take(i as int));
            assert(frames@.take(i + 1).last() == *frame);
        }
        total_bytes = total_bytes + size as u128;
        if size < 100 || frame.width == 0 || frame.height == 0 {
            bad.push(i);
        }
        if i > 0 {
            proof {
                assert(frames@.take(i + 1)[i - 1] == frames@[i - 1]);
            }
            if same_bytes(&*frame.data, &*frames[i - 1].data) {
                duplicates = duplicates + 1;
            }
        }
        i += 1;
    }
    proof {
        assert(frames@.take(i as int) =~= frames@);
    }
    FrameReport { total_bytes, bad, duplicates }
}

/// The average size of a frame, zero if there are none.
pub fn average_size(total_bytes: u128, count: usize) -> (r: u128)
    ensures
        r == if count == 0 {
            0
        } else {
            total_bytes as int / count as int
        },
        count > 0 ==> r * count <= total_bytes < (r + 1) * count,
{
    proof {
        if count > 0 {
            vstd::arithmetic::div_mod::lemma_fundamental_div_mod(
                total_bytes as int,
                count as int,
            );
            let q = total_bytes as int / count as int;
            assert(q * count == count * q) by (nonlinear_arith);
            assert((q + 1) * count == q * count + count) by (nonlinear_arith);
        }
    }
    if count == 0 {
        0
    } else {
        total_bytes / count as u128
    }
}

/// What there is to report of frames that come in: whether there are first ones, and
/// whether their number is worth a line, which it is every ten frames and at the end.
pub fn stream_news(count: usize, last_count: usize, seen_any: bool, done: bool) -> (r: (bool, bool))
    ensures
        r.0 == (count != last_count && !seen_any),
        r.1 == (count != last_count && (count % 10 == 0 || done)),
{
    let changed = count != last_count;
    (changed && !seen_any, changed && (count % 10 == 0 || done))
}

/// Goes on with the playback of some frames, and says whether there was no such frame
/// as the one to show.
pub fn playback_step(elapsed: u64, now: u64, frame: &mut usize, since: &mut u64, count: usize) -> (r:
    bool)
    requires
        count > 0,
        *old(frame) < usize::MAX,
    ensures
        *final(frame) == video::next_frame(elapsed, *old(frame) as int, count as nat),
        *final(since) == if elapsed >= video::VIDEO_FRAME_INTERVAL {
            now
        } else {
            *old(since)
        },
        r == (elapsed < video::VIDEO_FRAME_INTERVAL && *old(frame) >= count),
{
    if elapsed >= video::VIDEO_FRAME_INTERVAL {
        *frame = (*frame + 1) % count;
        *since = now;
    }
    if *frame >= count {
        *frame = 0;
        true
    } else {
        false
    }
}

/// How long the first frame of a video is waited for, in nanoseconds.
pub const FIRST_FRAME_LIMIT: u64 = 30_000_000_000;

/// Whether the first frame of a video has been waited for too long.
pub fn gives_up(elapsed: u64) -> (r: bool)
    ensures
        r == (elapsed > FIRST_FRAME_LIMIT),
{
    elapsed > FIRST_FRAME_LIMIT
}

// ---------------------------------------------------------------------------
// The grace for input
// ---------------------------------------------------------------------------

/// How many drawings there would be without the grace for input, how many there are,
/// and how many are skipped.
pub struct GraceModel {
    pub without: usize,
    pub with: usize,
    pub skipped: usize,
}

impl GraceModel {
    /// Before the first cycle.
    pub fn new() -> (r: Self)
        ensures
            r.without == 0,
            r.with == 0,
            r.skipped == 0,
    {
        GraceModel { without: 0, with: 0, skipped: 0 }
    }

    /// Whether every drawing was made or skipped.
    pub open spec fn wf(&self) -> bool {
        self.without == self.with + self.skipped
    }

    /// Whether a key is pressed in a cycle: in every third.
    pub fn has_input(cycle: usize) -> (r: bool)
        ensures
            r == (cycle % 3 == 0),
    {
        cycle % 3 == 0
    }

    /// Goes through a cycle. There is a drawing in every fourth, which is skipped if a key
    /// was pressed just now.
    pub fn step(&mut self, cycle: usize, input_recent: bool)
        requires
            old(self).wf(),
            old(self).without < usize::MAX,
        ensures
            final(self).wf(),
            final(self).without == old(self).without + (if cycle % 4 == 0 {
                1int
            } else {
                0
            }),
            final(self).skipped == old(self).skipped + (if cycle % 4 == 0 && input_recent {
                1int
            } else {
                0
            }),
    {
        if cycle % 4 == 0 {
            self.without = self.without + 1;
            if input_recent {
                self.skipped = self.skipped + 1;
            } else {
                self.with = self.with + 1;
            }
        }
    }
}

// ---------------------------------------------------------------------------
// What holds of the measurements
// ---------------------------------------------------------------------------

proof fn lemma_trimmed_concat(a: Seq<Seq<char>>, b: Seq<Seq<char>>)
    ensures
        trimmed_pieces(a + b) == trimmed_pieces(a) + trimmed_pieces(b),
    decreases b.len(),
{
    if b.len() == 0 {
        assert(a + b =~= a);
        assert(trimmed_pieces(a) + trimmed_pieces(b) =~= trimmed_pieces(a));
    } else {
        assert((a + b).drop_last() =~= a + b.drop_last());
        assert((a + b).last() == b.last());
        lemma_trimmed_concat(a, b.drop_last());
        assert(trimmed_pieces(a + b) =~= trimmed_pieces(a) + trimmed_pieces(b));
    }
}

/// Queries are parted by commas: those of two lists with a comma between them are those
/// of the first and then those of the second. A query without a comma is one, without
/// the whitespace around it; if there is nothing else it is none.
pub proof fn lemma_queries(
    a: Seq<char>,
    b: Seq<char>,
    before: Seq<char>,
    query: Seq<char>,
    behind: Seq<char>,
)
    requires
        query.len() > 0,
        !query.contains(','),
        !text::is_whitespace(query[0]),
        !text::is_whitespace(query.last()),
        forall|i: int| 0 <= i < before.len() ==> text::is_whitespace(#[trigger] before[i]),
        forall|i: int| 0 <= i < behind.len() ==> text::is_whitespace(#[trigger] behind[i]),
    ensures
        trimmed_pieces(text::pieces(a.push(',') + b, ',')) == trimmed_pieces(text::pieces(a, ','))
            + trimmed_pieces(text::pieces(b, ',')),
        trimmed_pieces(text::pieces(before + query + behind, ',')) == seq![query],
        trimmed_pieces(text::pieces(Seq::empty(), ',')).len() == 0,
{
    text::lemma_pieces_of_concat(a, b, ',');
    lemma_trimmed_concat(text::pieces(a, ','), text::pieces(b, ','));
    let whole = before + query + behind;
    text_laws::lemma_whitespace(',');
    if whole.contains(',') {
        let k = whole.index_of(',');
        if k < before.len() {
            assert(text::is_whitespace(before[k]));
        } else if k < before.len() + query.len() {
            assert(query[k - before.len()] == ',');
        } else {
            assert(text::is_whitespace(behind[k - before.len() - query.len()]));
        }
    }
    text::lemma_pieces_of_plain(whole, ',');
    text_laws::lemma_trim_gives_back(before, query, behind);
    reveal_with_fuel(trimmed_pieces, 2);
    assert(seq![whole].drop_last() =~= Seq::<Seq<char>>::empty());
    assert(trimmed_pieces(seq![whole]) =~= seq![query]);
    let none = Seq::<char>::empty();
    text::lemma_pieces_of_plain(none, ',');
    text_laws::lemma_trim(none);
    assert(seq![none].drop_last() =~= Seq::<Seq<char>>::empty());
    assert(text::trim(none).len() == 0);
}

/// The places of the entries of a kind are just those, from the first to the last.
pub proof fn lemma_places_of_kind(files: Seq<FileEntry>, kind: FileKind)
    requires
        files.len() <= usize::MAX,
    ensures
        forall|i: int|
            0 <= i < files.len() ==> (is_kind(#[trigger] files[i], kind) <==> places_of_kind(
                files,
                kind,
            ).contains(i as usize)),
        forall|j: int|
            0 <= j < places_of_kind(files, kind).len() ==> #[trigger] places_of_kind(files, kind)[j]
                < files.len(),
        forall|j: int, k: int|
            0 <= j < k < places_of_kind(files, kind).len() ==> #[trigger] places_of_kind(
                files,
                kind,
            )[j] < #[trigger] places_of_kind(files, kind)[k],
    decreases files.len(),
{
    if files.len() > 0 {
        let init = files.drop_last();
        lemma_places_of_kind(init, kind);
        let (all, before) = (places_of_kind(files, kind), places_of_kind(init, kind));
        assert forall|i: int| 0 <= i < files.len() implies (is_kind(#[trigger] files[i], kind)
            <==> all.contains(i as usize)) by {
            if i < init.len() {
                assert(init[i] == files[i]);
                if before.contains(i as usize) {
                    let j = before.index_of(i as usize);
                    assert(all[j] == i as usize);
                }
                if all.contains(i as usize) {
                    let j = all.index_of(i as usize);
                    assert(j < before.len());
                    assert(before[j] == i as usize);
                }
            } else {
                if is_kind(files[i], kind) {
                    assert(all.last() == i as usize);
                }
                if all.contains(i as usize) && !is_kind(files[i], kind) {
                    let j = all.index_of(i as usize);
                    assert(before[j] < init.len());
                }
            }
        }
    }
}

/// The places of the frames that cannot be right are just those, in order.
pub proof fn lemma_bad_places(frames: Seq<CachedImage>)
    requires
        frames.len() <= usize::MAX,
    ensures
        forall|i: int|
            0 <= i < frames.len() ==> (bad_places(frames).contains(i as usize) <==> (
            #[trigger] frames[i]).data@.len() < 100 || frames[i].width == 0 || frames[i].height
                == 0),
        forall|j: int|
            0 <= j < bad_places(frames).len() ==> #[trigger] bad_places(frames)[j] < frames.len(),
        forall|j: int, k: int|
            0 <= j < k < bad_places(frames).len() ==> #[trigger] bad_places(frames)[j]
                < #[trigger] bad_places(frames)[k],
    decreases frames.len(),
{
    if frames.len() > 0 {
        let init = frames.drop_last();
        lemma_bad_places(init);
        let (all, before) = (bad_places(frames), bad_places(init));
        assert forall|i: int| 0 <= i < frames.len() implies (all.contains(i as usize) <==> (
        #[trigger] frames[i]).data@.len() < 100 || frames[i].width == 0 || frames[i].height == 0) by {
            if i < init.len() {
                assert(init[i] == frames[i]);
                if before.contains(i as usize) {
                    let j = before.index_of(i as usize);
                    assert(all[j] == i as usize);
                }
                if all.contains(i as usize) {
                    let j = all.index_of(i as usize);
                    assert(j < before.len());
                    assert(before[j] == i as usize);
                }
            } else {
                if is_bad(frames[i]) {
                    assert(all.last() == i as usize);
                }
                if all.contains(i as usize) && !is_bad(frames[i]) {
                    let j = all.index_of(i as usize);
                    assert(before[j] < init.len());
                }
            }
        }
    }
}

/// The sizes of frames add up, and so do the repetitions, but for that where two
/// stretches meet.
pub proof fn lemma_frames_add_up(a: Seq<CachedImage>, b: Seq<CachedImage>)
    ensures
        frames_size(a + b) == frames_size(a) + frames_size(b),
        repeats(a + b) == repeats(a) + repeats(b) + (if a.len() > 0 && b.len() > 0 && a.last().data@
            == b[0].data@ {
            1nat
        } else {
            0
        }),
    decreases b.len(),
{
    if b.len() == 0 {
        assert(a + b =~= a);
    } else {
        let init = b.drop_last();
        assert((a + b).drop_last() =~= a + init);
        assert((a + b).last() == b.last());
        lemma_frames_add_up(a, init);
        if b.len() == 1 {
            assert(init.len() == 0);
            assert(a + init =~= a);
            if a.len() > 0 {
                assert((a + b)[(a + b).len() - 2] == a.last());
            }
        } else {
            assert((a + b)[(a + b).len() - 2] == b[b.len() - 2]);
            assert(init[0] == b[0]);
        }
    }
}

} // verus!
