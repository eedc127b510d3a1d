//! How recently files were used.
use vstd::prelude::*;
use vstd::string::*;

use crate::clock::Timestamp;
use crate::desktop;
use crate::desktop::load_desktop_recent;
use crate::history;
use crate::history::load_ffp_history;
use crate::history::TimeIndex;
use crate::history::TimedPath;
use crate::order;
use crate::order::sorted_places;
use crate::order::Ranking;
use crate::paths;
use crate::paths::normalized_path_key_with_cwd;
use crate::paths::path_is_normalized_absolute;
use crate::text;

verus! {

/// What a file's recency was taken from.
#[derive(Clone, Copy, Debug, PartialEq, Eq, Structural)]
pub enum RecencySource {
    Modified,
    Accessed,
    FfpHistory,
    DesktopRecent,
}

impl RecencySource {
    /// The short name of a source.
    pub open spec fn name(self) -> Seq<char> {
        match self {
            RecencySource::Modified => "mod"@,
            RecencySource::Accessed => "read"@,
            RecencySource::FfpHistory => "ffp"@,
            RecencySource::DesktopRecent => "desk"@,
        }
    }

    /// The short name of a source.
    pub fn label(self) -> (r: &'static str)
        ensures
            r@ == self.name(),
    {
        match self {
            RecencySource::Modified => "mod",
            RecencySource::Accessed => "read",
            RecencySource::FfpHistory => "ffp",
            RecencySource::DesktopRecent => "desk",
        }
    }
}

/// The later of a time found so far and another one, with its source. What was
/// found first stays where times are the same.
pub open spec fn fresher(
    best: (Timestamp, RecencySource),
    time: Option<Timestamp>,
    source: RecencySource,
) -> (Timestamp, RecencySource) {
    match time {
        Some(t) => if t.nanos > best.0.nanos {
            (t, source)
        } else {
            best
        },
        None => best,
    }
}

/// The latest time of a file. Where times are the same, modification counts
/// before access, then the desktop's list, then the history.
pub open spec fn freshest(
    mtime: Timestamp,
    atime: Timestamp,
    history_time: Option<Timestamp>,
    desktop_time: Option<Timestamp>,
) -> (Timestamp, RecencySource) {
    let modified = (mtime, RecencySource::Modified);
    let read = fresher(modified, Some(atime), RecencySource::Accessed);
    let listed = fresher(read, desktop_time, RecencySource::DesktopRecent);
    fresher(listed, history_time, RecencySource::FfpHistory)
}

fn pick_fresher(
    best: (Timestamp, RecencySource),
    time: Option<Timestamp>,
    source: RecencySource,
) -> (r: (Timestamp, RecencySource))
    ensures
        r == fresher(best, time, source),
{
    match time {
        Some(t) => if t.nanos > best.0.nanos {
            (t, source)
        } else {
            best
        },
        None => best,
    }
}

/// The latest time of a file, and what it was taken from.
pub fn best_recency(
    mtime: Timestamp,
    atime: Timestamp,
    history_time: Option<Timestamp>,
    desktop_time: Option<Timestamp>,
) -> (r: (Timestamp, RecencySource))
    ensures
        r == freshest(mtime, atime, history_time, desktop_time),
{
    let modified = (mtime, RecencySource::Modified);
    let read = pick_fresher(modified, Some(atime), RecencySource::Accessed);
    let listed = pick_fresher(read, desktop_time, RecencySource::DesktopRecent);
    pick_fresher(listed, history_time, RecencySource::FfpHistory)
}

/// No time of the file is later than the one chosen, which is one of them.
pub proof fn lemma_freshest_is_latest(
    mtime: Timestamp,
    atime: Timestamp,
    history_time: Option<Timestamp>,
    desktop_time: Option<Timestamp>,
)
    ensures
        ({
            let (best, source) = freshest(mtime, atime, history_time, desktop_time);
            &&& mtime.nanos <= best.nanos
            &&& atime.nanos <= best.nanos
            &&& history_time matches Some(t) ==> t.nanos <= best.nanos
            &&& desktop_time matches Some(t) ==> t.nanos <= best.nanos
            &&& match source {
                RecencySource::Modified => best == mtime,
                RecencySource::Accessed => best == atime,
                RecencySource::FfpHistory => history_time == Some(best),
                RecencySource::DesktopRecent => desktop_time == Some(best),
            }
        }),
{
}

/// When files were used, as far as this program and the desktop know.
pub struct RecencyIndex {
    ffp_history: TimeIndex,
    desktop_recent: TimeIndex,
    cwd: String,
}

/// What a recency index holds.
pub ghost struct RecencyView {
    pub history: Seq<(Seq<char>, Timestamp)>,
    pub desktop: Seq<(Seq<char>, Timestamp)>,
    pub cwd: Seq<char>,
}

impl View for RecencyIndex {
    type V = RecencyView;

    closed spec fn view(&self) -> RecencyView {
        RecencyView {
            history: self.ffp_history@,
            desktop: self.desktop_recent@,
            cwd: self.cwd@,
        }
    }
}

/// The times of a path in the history and in the desktop's list.
pub open spec fn times_of(index: RecencyView, path: Seq<char>) -> (
    Option<Timestamp>,
    Option<Timestamp>,
) {
    let key = paths::key_from(path, index.cwd);
    (history::time_in(index.history, key), history::time_in(index.desktop, key))
}

/// The order of paths by time, the latest first.
pub open spec fn newest_first() -> spec_fn(
    (Seq<char>, Timestamp),
    (Seq<char>, Timestamp),
) -> bool {
    |a: (Seq<char>, Timestamp), b: (Seq<char>, Timestamp)| a.1.nanos > b.1.nanos
}

/// The paths that an index knows, from the latest used on.
pub open spec fn known_paths(index: RecencyView) -> Seq<Seq<char>> {
    let list = history::latest_of(index.history + index.desktop);
    order::ranked(list, newest_first()).map_values(|e: (Seq<char>, Timestamp)| e.0)
}

struct NewestFirst;

impl Ranking<TimedPath> for NewestFirst {
    open spec fn accepts(&self, item: TimedPath) -> bool {
        true
    }

    open spec fn before(&self) -> spec_fn(TimedPath, TimedPath) -> bool {
        |a: TimedPath, b: TimedPath| (newest_first())(a@, b@)
    }

    proof fn strict_weak_order(&self) {
    }

    fn is_before(&self, a: &TimedPath, b: &TimedPath) -> (r: bool) {
        a.time.nanos > b.time.nanos
    }
}

impl RecencyIndex {
    #[verifier::type_invariant]
    spec fn wf(self) -> bool {
        self.ffp_history.wf() && self.desktop_recent.wf()
    }

    /// An index of these times, for paths seen from a directory.
    pub fn new(ffp_history: TimeIndex, desktop_recent: TimeIndex, cwd: String) -> (r: Self)
        requires
            ffp_history.wf(),
            desktop_recent.wf(),
        ensures
            r@ == (RecencyView {
                history: ffp_history@,
                desktop: desktop_recent@,
                cwd: cwd@,
            }),
    {
        RecencyIndex { ffp_history, desktop_recent, cwd }
    }

    /// The index of the times in the history and in the desktop's list.
    pub fn load(history: &str, desktop: &str, cwd: String) -> (r: Self)
        ensures
            r@ == (RecencyView {
                history: history::history_times(history@),
                desktop: desktop::bookmark_times(desktop::bookmark_tags(desktop@, 0), cwd@),
                cwd: cwd@,
            }),
    {
        let ffp_history = load_ffp_history(history);
        let desktop_recent = load_desktop_recent(desktop, cwd.as_str());
        RecencyIndex { ffp_history, desktop_recent, cwd }
    }

    /// The directory that relative paths are seen from.
    pub fn cwd(&self) -> (r: &str)
        ensures
            r@ == self@.cwd,
    {
        self.cwd.as_str()
    }

    /// The key of a path in the index.
    pub fn path_key(&self, path: &str) -> (r: String)
        ensures
            r@ == paths::key_from(path@, self@.cwd),
    {
        if path_is_normalized_absolute(path) {
            return path.to_owned();
        }
        normalized_path_key_with_cwd(path, self.cwd.as_str())
    }

    /// The times of a path in the history and in the desktop's list.
    pub fn recency_times(&self, path: &str) -> (r: (Option<Timestamp>, Option<Timestamp>))
        ensures
            r == times_of(self@, path@),
    {
        proof {
            use_type_invariant(self);
        }
        if self.ffp_history.is_empty() && self.desktop_recent.is_empty() {
            return (None, None);
        }
        let key = self.path_key(path);
        (self.ffp_history.get(key.as_str()), self.desktop_recent.get(key.as_str()))
    }

    /// The paths that the index knows, from the latest used on.
    pub fn candidate_paths(&self) -> (r: Vec<String>)
        ensures
            text::text_views(r@) == known_paths(self@),
    {
        proof {
            use_type_invariant(self);
        }
        let mut candidates = TimeIndex::new();
        note_all(&mut candidates, self.ffp_history.entries(), Ghost(Seq::empty()));
        proof {
            assert(Seq::<(Seq<char>, Timestamp)>::empty() + self@.history =~= self@.history);
        }
        note_all(&mut candidates, self.desktop_recent.entries(), Ghost(self@.history));
        let entries = candidates.into_entries();
        let ranking = NewestFirst;
        let order = sorted_places(&ranking, &entries);
        let ghost list = history::timed_views(entries@);
        let ghost sorted = order::ranked(entries@, ranking.before());
        proof {
            let size: usize = entries.len();
            order::lemma_ranked_map(
                entries@,
                |e: TimedPath| e@,
                ranking.before(),
                newest_first(),
            );
        }
        let ghost expected = known_paths(self@);
        let mut r: Vec<String> = Vec::new();
        let mut i: usize = 0;
        while i < order.len()
            invariant
                i <= order@.len(),
                order@.len() == entries@.len(),
                forall|k: int| 0 <= k < order@.len() ==> #[trigger] order@[k] < entries@.len(),
                sorted == order::at_places(entries@, order@),
                expected == sorted.map_values(|e: TimedPath| e@).map_values(
                    |e: (Seq<char>, Timestamp)| e.0,
                ),
                text::text_views(r@) == expected.take(i as int),
            decreases order.len() - i,
        {
            let ghost before = r@;
            let e = &entries[order[i]];
            r.push(e.path.clone());
            proof {
                assert(expected[i as int] == e.path@);
                assert(text::text_views(r@) =~= text::text_views(before).push(e.path@));
                assert(expected.take(i + 1) =~= expected.take(i as int).push(expected[i as int]));
            }
            i += 1;
        }
        proof {
            assert(expected.take(expected.len() as int) =~= expected);
        }
        r
    }
}

impl Default for RecencyIndex {
    fn default() -> (r: Self)
        ensures
            r@.history.len() == 0,
            r@.desktop.len() == 0,
            r@.cwd.len() == 0,
    {
        RecencyIndex {
            ffp_history: TimeIndex::new(),
            desktop_recent: TimeIndex::new(),
            cwd: String::new(),
        }
    }
}

fn note_all(
    index: &mut TimeIndex,
    entries: &Vec<TimedPath>,
    Ghost(before): Ghost<Seq<(Seq<char>, Timestamp)>>,
)
    requires
        old(index).wf(),
        old(index)@ == history::latest_of(before),
    ensures
        final(index).wf(),
        final(index)@ == history::latest_of(before + history::timed_views(entries@)),
{
    let ghost all = history::timed_views(entries@);
    let mut i: usize = 0;
    proof {
        assert(before + all.take(0) =~= before);
    }
    while i < entries.len()
        invariant
            i <= entries@.len(),
            all == history::timed_views(entries@),
            index.wf(),
            index@ == history::latest_of(before + all.take(i as int)),
        decreases entries.len() - i,
    {
        proof {
            let here = before + all.take(i + 1);
            assert(here.drop_last() =~= before + all.take(i as int));
            assert(here.last() == entries@[i as int]@);
        }
        index.note(entries[i].path.clone(), entries[i].time);
        i += 1;
    }
    proof {
        assert(all.take(all.len() as int) =~= all);
    }
}

} // verus!
