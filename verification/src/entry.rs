//! Files and directories that can be picked.
use std::cmp::Ordering;
use std::sync::Arc;
use vstd::prelude::*;
use vstd::string::*;

use crate::clock::Timestamp;
use crate::encoding;
use crate::encoding::byte_length;
use crate::encoding::split_text;
use crate::order::Duplicate;
use crate::order::Ranking;
use crate::recency;
use crate::recency::best_recency;
use crate::recency::RecencyIndex;
use crate::recency::RecencySource;
use crate::recency::RecencyView;
use crate::text;
use crate::text::chars_of;
use crate::text::last_index_of;
use crate::text::lowercase_of;
use crate::text::text_before;
use crate::typo::offset_of;

verus! {

/// What the file system says of a file, as far as it does.
#[derive(Clone, Copy, Debug, PartialEq, Eq, Structural)]
pub struct FileMetadata {
    pub is_dir: bool,
    pub modified: Option<Timestamp>,
    pub accessed: Option<Timestamp>,
}

/// A file or directory. The parts of its path and their lowercase forms are kept
/// at hand.
pub struct FileEntry {
    path: Arc<String>,
    path_lower: Arc<String>,
    name_start: usize,
    lower_name_start: usize,
    mtime: Timestamp,
    recency_time: Timestamp,
    recency_source: RecencySource,
    is_dir: bool,
}

/// What an entry says.
pub ghost struct EntryView {
    pub path: Seq<char>,
    pub mtime: Timestamp,
    pub recency_time: Timestamp,
    pub recency_source: RecencySource,
    pub is_dir: bool,
}

impl View for FileEntry {
    type V = EntryView;

    closed spec fn view(&self) -> EntryView {
        EntryView {
            path: self.path@,
            mtime: self.mtime,
            recency_time: self.recency_time,
            recency_source: self.recency_source,
            is_dir: self.is_dir,
        }
    }
}

/// Where the name of a file starts in its path: behind the last separator.
pub open spec fn name_index(path: Seq<char>) -> int {
    match text::last_index(path, '/') {
        Some(k) => k + 1,
        None => 0,
    }
}

/// The name of a file.
pub open spec fn name_of(path: Seq<char>) -> Seq<char> {
    path.skip(name_index(path))
}

/// The directory of a file, without a separator behind it unless it is the root.
pub open spec fn dir_of(path: Seq<char>) -> Seq<char> {
    let n = name_index(path);
    if n <= 1 {
        path.take(n)
    } else {
        path.take(n - 1)
    }
}

/// The lowercase form of the name of a file.
pub open spec fn lower_name_of(path: Seq<char>) -> Seq<char> {
    text::lowercase(name_of(path))
}

/// The lowercase form of a path: of its name, and of what stands in front.
pub open spec fn lower_path_of(path: Seq<char>) -> Seq<char> {
    text::lowercase(path.take(name_index(path))) + lower_name_of(path)
}

/// The directory, a separator unless the directory is empty or the root, and the
/// name make up the path.
pub proof fn lemma_dir_and_name(path: Seq<char>)
    ensures
        0 <= name_index(path) <= path.len(),
        name_index(path) <= 1 ==> path == dir_of(path) + name_of(path),
        name_index(path) > 1 ==> path == dir_of(path).push('/') + name_of(path),
        !name_of(path).contains('/'),
{
    text::lemma_last_index(path, '/');
    let n = name_index(path);
    if n <= 1 {
        assert(path =~= dir_of(path) + name_of(path));
    } else {
        assert(path =~= dir_of(path).push('/') + name_of(path));
    }
    assert forall|i: int| 0 <= i < name_of(path).len() implies name_of(path)[i] != '/' by {
        assert(path[n + i] != '/');
    }
}

/// The byte offset at which the name of a file starts.
pub fn basename_start(path: &str) -> (r: usize)
    ensures
        r == encoding::byte_offset(path@, name_index(path@)),
{
    let chars = chars_of(path);
    let size: usize = chars.len();
    proof {
        text::lemma_last_index(path@, '/');
        assert(path@.take(0).len() == 0);
    }
    match last_index_of(chars.as_slice(), '/') {
        Some(k) => offset_of(path, chars.as_slice(), k + 1),
        None => 0,
    }
}

/// The times of a file that the file system gives, or the epoch.
pub open spec fn file_times(metadata: Option<FileMetadata>) -> (Timestamp, Timestamp) {
    let epoch = Timestamp { nanos: 0 };
    match metadata {
        Some(m) => (
            match m.modified {
                Some(t) => t,
                None => epoch,
            },
            match m.accessed {
                Some(t) => t,
                None => epoch,
            },
        ),
        None => (epoch, epoch),
    }
}

/// The entry for a path.
pub open spec fn entry_for(
    path: Seq<char>,
    metadata: Option<FileMetadata>,
    index: RecencyView,
) -> EntryView {
    let (mtime, atime) = file_times(metadata);
    let (history_time, desktop_time) = recency::times_of(index, path);
    let (time, source) = recency::freshest(mtime, atime, history_time, desktop_time);
    EntryView {
        path,
        mtime,
        recency_time: time,
        recency_source: source,
        is_dir: metadata is Some && metadata->0.is_dir,
    }
}

impl FileEntry {
    #[verifier::type_invariant]
    spec fn wf(self) -> bool {
        let path = self.path@;
        let n = name_index(path);
        &&& self.path_lower@ == lower_path_of(path)
        &&& self.name_start == encoding::byte_offset(path, n)
        &&& self.lower_name_start == encoding::byte_len(text::lowercase(path.take(n)))
    }

    /// The path of the file.
    pub fn path(&self) -> (r: &str)
        ensures
            r@ == self@.path,
    {
        self.path.as_str()
    }

    /// The lowercase form of the path.
    pub fn path_lower(&self) -> (r: &str)
        ensures
            r@ == lower_path_of(self@.path),
    {
        proof {
            use_type_invariant(self);
        }
        self.path_lower.as_str()
    }

    /// When the file was modified.
    pub fn mtime(&self) -> (r: Timestamp)
        ensures
            r == self@.mtime,
    {
        self.mtime
    }

    /// When the file was last used.
    pub fn recency_time(&self) -> (r: Timestamp)
        ensures
            r == self@.recency_time,
    {
        self.recency_time
    }

    /// What the time of the last use was taken from.
    pub fn recency_source(&self) -> (r: RecencySource)
        ensures
            r == self@.recency_source,
    {
        self.recency_source
    }

    /// Whether it is a directory.
    pub fn is_dir(&self) -> (r: bool)
        ensures
            r == self@.is_dir,
    {
        self.is_dir
    }

    /// The name of the file.
    pub fn name(&self) -> (r: &str)
        ensures
            r@ == name_of(self@.path),
    {
        proof {
            use_type_invariant(self);
            text::lemma_last_index(self.path@, '/');
        }
        let (_, name) = split_text(
            self.path.as_str(),
            self.name_start,
            Ghost(name_index(self.path@)),
        );
        name
    }

    /// The lowercase form of the name.
    pub fn name_lower(&self) -> (r: &str)
        ensures
            r@ == lower_name_of(self@.path),
    {
        let ghost head = text::lowercase(self.path@.take(name_index(self.path@)));
        proof {
            use_type_invariant(self);
            assert(self.path_lower@.take(head.len() as int) =~= head);
            assert(self.path_lower@.skip(head.len() as int) =~= lower_name_of(self.path@));
        }
        let (_, name) = split_text(
            self.path_lower.as_str(),
            self.lower_name_start,
            Ghost(head.len() as int),
        );
        name
    }

    /// The directory of the file.
    pub fn dir(&self) -> (r: &str)
        ensures
            r@ == dir_of(self@.path),
    {
        let ghost path = self.path@;
        let ghost n = name_index(path);
        proof {
            use_type_invariant(self);
            text::lemma_last_index(path, '/');
            if n >= 1 {
                encoding::lemma_byte_offset_step(path, n - 1);
                encoding::lemma_byte_offset_monotone(path, 0, n - 1);
                assert(path.take(0).len() == 0);
                if n >= 2 {
                    encoding::lemma_byte_offset_monotone(path, 1, n - 1);
                    encoding::lemma_byte_offset_step(path, 0);
                }
            } else {
                assert(path.take(0).len() == 0);
            }
        }
        let start: usize = self.name_start;
        if start <= 1 {
            let (dir, _) = split_text(self.path.as_str(), start, Ghost(n));
            dir
        } else {
            let (dir, _) = split_text(self.path.as_str(), start - 1, Ghost(n - 1));
            dir
        }
    }

    /// The entry for a path, from what is known of the file.
    pub fn from_metadata(
        path: String,
        metadata: Option<FileMetadata>,
        recency_index: &RecencyIndex,
    ) -> (r: Self)
        ensures
            r@ == entry_for(path@, metadata, recency_index@),
    {
        let ghost n = name_index(path@);
        proof {
            text::lemma_last_index(path@, '/');
        }
        let name_start: usize = basename_start(path.as_str());
        // The directory and the name are put into lowercase apart, so that the
        // place of the name stays known where the number of bytes changes.
        let (head, tail) = split_text(path.as_str(), name_start, Ghost(n));
        let mut lower = lowercase_of(head);
        let lower_name_start: usize = byte_length(lower.as_str());
        let name = lowercase_of(tail);
        lower.append(name.as_str());
        let same = lower == path;
        let (history_time, desktop_time) = recency_index.recency_times(path.as_str());
        let shared = Arc::new(path);
        let path_lower = if same {
            Arc::clone(&shared)
        } else {
            Arc::new(lower)
        };
        let mut mtime = Timestamp::epoch();
        let mut atime = Timestamp::epoch();
        let mut is_dir = false;
        if let Some(m) = metadata {
            is_dir = m.is_dir;
            if let Some(t) = m.modified {
                mtime = t;
            }
            if let Some(t) = m.accessed {
                atime = t;
            }
        }
        let (recency_time, recency_source) = best_recency(
            mtime,
            atime,
            history_time,
            desktop_time,
        );
        FileEntry {
            path: shared,
            path_lower,
            name_start,
            lower_name_start,
            mtime,
            recency_time,
            recency_source,
            is_dir,
        }
    }

    /// The entry for a path, unless the file cannot be looked at.
    pub fn try_new_with_recency(
        path: String,
        metadata: Option<FileMetadata>,
        recency_index: &RecencyIndex,
    ) -> (r: Option<Self>)
        ensures
            match r {
                Some(e) => metadata is Some && e@ == entry_for(path@, metadata, recency_index@),
                None => metadata is None,
            },
    {
        if metadata.is_none() {
            return None;
        }
        Some(FileEntry::from_metadata(path, metadata, recency_index))
    }

    /// The entry for a path of which nothing else is known.
    pub fn new(path: String) -> (r: Self)
        ensures
            r@ == (EntryView {
                path: path@,
                mtime: Timestamp { nanos: 0 },
                recency_time: Timestamp { nanos: 0 },
                recency_source: RecencySource::Modified,
                is_dir: false,
            }),
    {
        FileEntry::from_metadata(path, None, &RecencyIndex::default())
    }
}

impl Duplicate for FileEntry {
    fn duplicate(&self) -> (r: Self) {
        proof {
            use_type_invariant(self);
        }
        FileEntry {
            path: Arc::clone(&self.path),
            path_lower: Arc::clone(&self.path_lower),
            name_start: self.name_start,
            lower_name_start: self.lower_name_start,
            mtime: self.mtime,
            recency_time: self.recency_time,
            recency_source: self.recency_source,
            is_dir: self.is_dir,
        }
    }
}

/// The order of a pool of entries: the latest used first, then the latest
/// modified, then by name without regard to case.
pub open spec fn recent_before(a: EntryView, b: EntryView) -> bool {
    ||| a.recency_time.nanos > b.recency_time.nanos
    ||| a.recency_time.nanos == b.recency_time.nanos && a.mtime.nanos > b.mtime.nanos
    ||| a.recency_time.nanos == b.recency_time.nanos && a.mtime.nanos == b.mtime.nanos
        && text::text_lt(lower_name_of(a.path), lower_name_of(b.path))
}

/// The order of a pool of entries.
pub open spec fn by_recency() -> spec_fn(FileEntry, FileEntry) -> bool {
    |a: FileEntry, b: FileEntry| recent_before(a@, b@)
}

/// The order of a pool of entries is a strict weak order.
pub proof fn lemma_recent_before(a: EntryView, b: EntryView, c: EntryView)
    ensures
        !(recent_before(a, b) && recent_before(b, a)),
        !recent_before(a, b) && !recent_before(b, c) ==> !recent_before(a, c),
{
    let (x, y, z) = (lower_name_of(a.path), lower_name_of(b.path), lower_name_of(c.path));
    text::lemma_text_lt_total(x, y);
    text::lemma_text_lt_total(y, z);
    text::lemma_text_lt_total(x, z);
    if text::text_lt(z, y) && text::text_lt(y, x) {
        text::lemma_text_lt_transitive(z, y, x);
    }
}

/// Compares two entries by their place in a pool.
pub fn compare_entries_by_recency(a: &FileEntry, b: &FileEntry) -> (r: Ordering)
    ensures
        r == if recent_before(a@, b@) {
            Ordering::Less
        } else if recent_before(b@, a@) {
            Ordering::Greater
        } else {
            Ordering::Equal
        },
{
    proof {
        text::lemma_text_lt_total(lower_name_of(a@.path), lower_name_of(b@.path));
    }
    if a.recency_time.nanos != b.recency_time.nanos {
        return if a.recency_time.nanos > b.recency_time.nanos {
            Ordering::Less
        } else {
            Ordering::Greater
        };
    }
    if a.mtime.nanos != b.mtime.nanos {
        return if a.mtime.nanos > b.mtime.nanos {
            Ordering::Less
        } else {
            Ordering::Greater
        };
    }
    if text_before(a.name_lower(), b.name_lower()) {
        Ordering::Less
    } else if text_before(b.name_lower(), a.name_lower()) {
        Ordering::Greater
    } else {
        Ordering::Equal
    }
}

/// The ranking of a pool of entries.
pub struct ByRecency;

impl Ranking<FileEntry> for ByRecency {
    open spec fn accepts(&self, item: FileEntry) -> bool {
        true
    }

    open spec fn before(&self) -> spec_fn(FileEntry, FileEntry) -> bool {
        by_recency()
    }

    proof fn strict_weak_order(&self) {
        let before = self.before();
        assert forall|a: FileEntry, b: FileEntry|
            #![trigger before(a, b)]
            !(before(a, b) && before(b, a)) by {
            lemma_recent_before(a@, b@, a@);
        }
        assert forall|a: FileEntry, b: FileEntry, c: FileEntry|
            #![trigger before(a, b), before(b, c)]
            !before(a, b) && !before(b, c) implies !before(a, c) by {
            lemma_recent_before(a@, b@, c@);
        }
    }

    fn is_before(&self, a: &FileEntry, b: &FileEntry) -> (r: bool) {
        match compare_entries_by_recency(a, b) {
            Ordering::Less => true,
            _ => false,
        }
    }
}

/// An entry is a directory if and only if the file is known to be one. It keeps its path, and
/// was modified when the file was, or at the epoch where that is not known.
pub proof fn lemma_entry_for(path: Seq<char>, metadata: Option<FileMetadata>, index: RecencyView)
    ensures
        entry_for(path, metadata, index).path == path,
        metadata is None ==> !entry_for(path, metadata, index).is_dir && entry_for(
            path,
            metadata,
            index,
        ).mtime.nanos == 0,
        metadata matches Some(m) ==> {
            &&& entry_for(path, metadata, index).is_dir == m.is_dir
            &&& m.modified matches Some(t) ==> entry_for(path, metadata, index).mtime == t
            &&& m.modified is None ==> entry_for(path, metadata, index).mtime.nanos == 0
        },
{
}

} // verus!
