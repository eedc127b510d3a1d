//! What holds of the times of files, and of the order and contents of pools.
use vstd::prelude::*;
use vstd::seq_lib::*;

use crate::clock;
use crate::clock::Timestamp;
use crate::entry;
use crate::entry::FileEntry;
use crate::entry::FileMetadata;
use crate::history;
use crate::order;
use crate::paths;
use crate::pool;
use crate::pool::EntryLoad;
use crate::pool::LoadStep;
use crate::pool::ScanOptions;
use crate::recency;
use crate::recency::RecencySource;
use crate::recency::RecencyView;
use crate::text;

verus! {

// ---------------------------------------------------------------------------
// The time of a file
// ---------------------------------------------------------------------------

/// Where times are the same, the change of a file counts before its being read, that before the
/// desktop's list, and that before the history.
pub proof fn lemma_source_of_equal_times(
    mtime: Timestamp,
    atime: Timestamp,
    history_time: Option<Timestamp>,
    desktop_time: Option<Timestamp>,
)
    ensures
        ({
            let (best, source) = recency::freshest(mtime, atime, history_time, desktop_time);
            &&& source == RecencySource::Modified <==> best.nanos == mtime.nanos
            &&& source == RecencySource::Accessed <==> best.nanos == atime.nanos && mtime.nanos
                < best.nanos
            &&& source == RecencySource::DesktopRecent <==> (desktop_time matches Some(t)
                && t.nanos == best.nanos) && mtime.nanos < best.nanos && atime.nanos < best.nanos
        }),
{
}

/// An entry is dated by the latest of the times of its file: when it was changed, when it was
/// read, and when this program and the desktop say that it was used.
pub proof fn lemma_entry_has_latest_time(
    path: Seq<char>,
    metadata: FileMetadata,
    index: RecencyView,
)
    ensures
        ({
            let e = entry::entry_for(path, Some(metadata), index);
            let key = paths::key_from(path, index.cwd);
            &&& e.path == path
            &&& e.is_dir == metadata.is_dir
            &&& metadata.modified matches Some(t) ==> e.mtime == t && t.nanos
                <= e.recency_time.nanos
            &&& metadata.accessed matches Some(t) ==> t.nanos <= e.recency_time.nanos
            &&& history::time_in(index.history, key) matches Some(t) ==> t.nanos
                <= e.recency_time.nanos
            &&& history::time_in(index.desktop, key) matches Some(t) ==> t.nanos
                <= e.recency_time.nanos
            &&& match e.recency_source {
                RecencySource::Modified => e.recency_time == e.mtime,
                RecencySource::Accessed => match metadata.accessed {
                    Some(t) => e.recency_time == t,
                    None => e.recency_time.nanos == 0,
                },
                RecencySource::FfpHistory => history::time_in(index.history, key) == Some(
                    e.recency_time,
                ),
                RecencySource::DesktopRecent => history::time_in(index.desktop, key) == Some(
                    e.recency_time,
                ),
            }
        }),
{
    let (mtime, atime) = entry::file_times(Some(metadata));
    let (h, d) = recency::times_of(index, path);
    recency::lemma_freshest_is_latest(mtime, atime, h, d);
}

/// What was used within the last nine days is recent, to the nanosecond, and nothing before.
pub proof fn lemma_nine_days(now: Timestamp, time: Timestamp)
    ensures
        clock::within_window(now, time) <==> now.nanos <= time.nanos + 9 * 24 * 60 * 60
            * 1_000_000_000,
{
}

/// An age tells how many whole units of time have passed, in the largest unit of which there is
/// one.
pub proof fn lemma_age(now: Timestamp, time: Timestamp, n: nat)
    ensures
        clock::elapsed(now, time) >= 0,
        now.nanos >= time.nanos ==> time.nanos + clock::elapsed(now, time) == now.nanos,
        now.nanos <= time.nanos ==> clock::elapsed(now, time) == 0,
        n < 60 ==> clock::age_text(n as int) == crate::number::decimal(n).push('s'),
        1 <= n < 60 ==> forall|s: int|
            60 * n <= s < 60 * (n + 1) ==> #[trigger] clock::age_text(s) == crate::number::decimal(
                n,
            ).push('m'),
        1 <= n < 24 ==> forall|s: int|
            3600 * n <= s < 3600 * (n + 1) ==> #[trigger] clock::age_text(s)
                == crate::number::decimal(n).push('h'),
        1 <= n ==> forall|s: int|
            86400 * n <= s < 86400 * (n + 1) ==> #[trigger] clock::age_text(s)
                == crate::number::decimal(n).push('d'),
{
    let d = crate::number::decimal(n);
    assert(d + seq!['s'] =~= d.push('s'));
    assert(d + seq!['m'] =~= d.push('m'));
    assert(d + seq!['h'] =~= d.push('h'));
    assert(d + seq!['d'] =~= d.push('d'));
}

/// The paths that an index knows come from the latest used on, each once, and none is left out.
pub proof fn lemma_known_paths(index: RecencyView)
    requires
        index.history.len() + index.desktop.len() <= usize::MAX,
    ensures
        ({
            let all = index.history + index.desktop;
            let known = recency::known_paths(index);
            let times = history::latest_of(all);
            &&& known.no_duplicates()
            &&& forall|p: Seq<char>|
                #[trigger] known.contains(p) <==> exists|i: int|
                    0 <= i < all.len() && (#[trigger] all[i]).0 == p
            &&& forall|i: int, j: int|
                0 <= i < j < known.len() ==> (history::time_in(
                    times,
                    #[trigger] known[i],
                )->0).nanos >= (history::time_in(times, #[trigger] known[j])->0).nanos
        }),
{
    broadcast use group_to_multiset_ensures;

    let all = index.history + index.desktop;
    let times = history::latest_of(all);
    let before = recency::newest_first();
    let sorted = order::ranked(times, before);
    let known = recency::known_paths(index);
    history::lemma_latest_of(all, Seq::empty());
    lemma_latest_len(all);
    assert(order::strict_weak(before));
    order::lemma_ranked(times, before);
    let key = |e: (Seq<char>, Timestamp)| e.0;
    assert forall|i: int, j: int| 0 <= i < j < times.len() implies key(#[trigger] times[i]) != key(
        #[trigger] times[j],
    ) by {}
    order::lemma_ranked_distinct(times, before, key);
    assert forall|i: int, j: int|
        0 <= i < known.len() && 0 <= j < known.len() && i != j implies known[i] != known[j] by {
        if i < j {
            assert(key(sorted[i]) != key(sorted[j]));
        } else {
            assert(key(sorted[j]) != key(sorted[i]));
        }
    }
    assert forall|i: int| 0 <= i < sorted.len() implies history::time_in(
        times,
        (#[trigger] sorted[i]).0,
    ) == Some(sorted[i].1) by {
        let k = times.index_of(sorted[i]);
        history::lemma_slot_unique(times, sorted[i].0, k);
    }
    assert forall|p: Seq<char>| #[trigger] known.contains(p) <==> exists|i: int|
        0 <= i < all.len() && (#[trigger] all[i]).0 == p by {
        history::lemma_latest_of(all, p);
        history::lemma_slot(times, p);
        if known.contains(p) {
            let k = known.index_of(p);
            assert(sorted[k].0 == p);
            let t = sorted[k].1;
            let n = all.index_of((p, t));
            assert(all[n].0 == p);
        }
        if exists|i: int| 0 <= i < all.len() && (#[trigger] all[i]).0 == p {
            let s = history::slot(times, p)->0;
            assert(times.contains(times[s]));
            assert(sorted.to_multiset().count(times[s]) > 0);
            assert(sorted.contains(times[s]));
            let k = sorted.index_of(times[s]);
            assert(known[k] == p);
        }
    }
    assert forall|i: int, j: int| 0 <= i < j < known.len() implies (history::time_in(
        times,
        #[trigger] known[i],
    )->0).nanos >= (history::time_in(times, #[trigger] known[j])->0).nanos by {
        assert(!before(sorted[j], sorted[i]));
        assert(known[i] == sorted[i].0 && known[j] == sorted[j].0);
    }
}

proof fn lemma_latest_len(entries: Seq<(Seq<char>, Timestamp)>)
    ensures
        history::latest_of(entries).len() <= entries.len(),
    decreases entries.len(),
{
    if entries.len() > 0 {
        lemma_latest_len(entries.drop_last());
        history::lemma_slot(history::latest_of(entries.drop_last()), entries.last().0);
    }
}

// ---------------------------------------------------------------------------
// Pools
// ---------------------------------------------------------------------------

/// A pool stands from the latest used entry on; of those used at the same time the one changed
/// last stands first. It holds nothing but what was loaded, and all of it, unless it is the
/// recent one: that holds 20000 entries at most, and leaves out none that was used later than
/// one that it holds.
pub proof fn lemma_pool_is_by_recency(loaded: Seq<FileEntry>, cap_recent_pool: bool)
    requires
        loaded.len() <= usize::MAX,
    ensures
        ({
            let out = pool::settled(loaded, cap_recent_pool);
            &&& forall|i: int, j: int|
                0 <= i < j < out.len() ==> {
                    let (a, b) = ((#[trigger] out[i])@, (#[trigger] out[j])@);
                    &&& a.recency_time.nanos >= b.recency_time.nanos
                    &&& a.recency_time.nanos == b.recency_time.nanos ==> a.mtime.nanos
                        >= b.mtime.nanos
                }
            &&& !cap_recent_pool ==> out.to_multiset() == loaded.to_multiset()
            &&& cap_recent_pool ==> out.len() <= 20_000
            &&& out.len() == loaded.len() || (cap_recent_pool && out.len() == 20_000)
            &&& forall|k: int| 0 <= k < out.len() ==> loaded.contains(#[trigger] out[k])
            &&& forall|e: FileEntry|
                #[trigger] loaded.contains(e) ==> out.contains(e) || (cap_recent_pool && out.len()
                    == 20_000 && forall|k: int|
                    0 <= k < out.len() ==> (#[trigger] out[k])@.recency_time.nanos
                        >= e@.recency_time.nanos)
        }),
{
    broadcast use group_to_multiset_ensures;

    let before = entry::by_recency();
    assert(order::strict_weak(before)) by {
        assert forall|a: FileEntry, b: FileEntry|
            #![trigger before(a, b)]
            !(before(a, b) && before(b, a)) by {
            entry::lemma_recent_before(a@, b@, a@);
        }
        assert forall|a: FileEntry, b: FileEntry, c: FileEntry|
            #![trigger before(a, b), before(b, c)]
            !before(a, b) && !before(b, c) implies !before(a, c) by {
            entry::lemma_recent_before(a@, b@, c@);
        }
    }
    order::lemma_ranked(loaded, before);
    let sorted = order::ranked(loaded, before);
    let out = pool::settled(loaded, cap_recent_pool);
    assert forall|k: int| 0 <= k < out.len() implies out[k] == sorted[k] by {}
    assert forall|i: int, j: int| 0 <= i < j < out.len() implies {
        let (a, b) = ((#[trigger] out[i])@, (#[trigger] out[j])@);
        &&& a.recency_time.nanos >= b.recency_time.nanos
        &&& a.recency_time.nanos == b.recency_time.nanos ==> a.mtime.nanos >= b.mtime.nanos
    } by {
        assert(!before(sorted[j], sorted[i]));
    }
    assert forall|k: int| 0 <= k < out.len() implies loaded.contains(#[trigger] out[k]) by {
        assert(sorted.contains(sorted[k]));
        assert(loaded.to_multiset().count(sorted[k]) > 0);
    }
    assert forall|e: FileEntry| #[trigger] loaded.contains(e) implies out.contains(e) || (
    cap_recent_pool && out.len() == 20_000 && forall|k: int|
        0 <= k < out.len() ==> (#[trigger] out[k])@.recency_time.nanos
            >= e@.recency_time.nanos) by {
        assert(sorted.to_multiset().count(e) > 0);
        assert(sorted.contains(e));
        let p = sorted.index_of(e);
        if p < out.len() {
            assert(out[p] == e);
        } else {
            assert forall|k: int| 0 <= k < out.len() implies (
            #[trigger] out[k])@.recency_time.nanos >= e@.recency_time.nanos by {
                assert(!before(sorted[p], sorted[k]));
            }
        }
    }
}

/// Into the recent pool comes what was used within the last nine days and is not in it yet;
/// into the others comes whatever is not in them yet.
pub proof fn lemma_wanted_entries(
    e: entry::EntryView,
    seen: Map<Seq<char>, bool>,
    cwd: Seq<char>,
    recent_only: bool,
    now: Timestamp,
)
    ensures
        pool::is_wanted(e, seen, cwd, recent_only, now) <==> !seen.dom().contains(
            paths::key_from(e.path, cwd),
        ) && (recent_only ==> now.nanos <= e.recency_time.nanos + 9 * 24 * 60 * 60 * 1_000_000_000),
{
}

/// What a scan finds is kept: the entries that are loaded, with those that wait to be taken over,
/// become one more if the entry is wanted, and else stay as they are. Only a recent pool that
/// has grown to twice its size is cut.
pub proof fn lemma_found_entry_is_kept(
    before: EntryLoad,
    after: EntryLoad,
    e: FileEntry,
    cwd: Seq<char>,
    options: ScanOptions,
    now: Timestamp,
    tick: u64,
)
    requires
        pool::entry_taken(before, after, e, cwd, options, now, tick),
        before.loaded@.len() + before.buffer@.len() + 1 < 40_000 || !options.recent_only,
    ensures
        pool::is_wanted(e@, before.seen@, cwd, options.recent_only, now) ==> after.loaded@
            + after.buffer@ == (before.loaded@ + before.buffer@).push(e),
        !pool::is_wanted(e@, before.seen@, cwd, options.recent_only, now) ==> after.loaded@
            + after.buffer@ == before.loaded@ + before.buffer@,
{
    let batch = before.buffer@.push(e);
    assert(before.loaded@ + batch =~= (before.loaded@ + before.buffer@).push(e));
    if pool::is_wanted(e@, before.seen@, cwd, options.recent_only, now) {
        assert(after.loaded@ + after.buffer@ =~= (before.loaded@ + before.buffer@).push(e));
    }
}

/// Every load ends with a scan of everything, and the pool of all entries is only filled by such
/// a scan. The recent pool begins with the paths that are known to have been used, and takes
/// recent files alone; the others take all they find.
pub proof fn lemma_load_plan(dir_mode: bool, recent_only: bool, has_sink: bool, i: int)
    ensures
        ({
            let plan = pool::load_plan(dir_mode, recent_only, has_sink);
            &&& plan.len() > 0
            &&& plan.last() matches LoadStep::Scan { changed_recently, options, feeds_all }
                && !changed_recently && (feeds_all == (has_sink && recent_only && !dir_mode))
            &&& 0 <= i < plan.len() ==> (plan[i] matches LoadStep::Scan {
                changed_recently,
                options,
                feeds_all,
            } ==> (feeds_all ==> !changed_recently) && options.recent_only == (recent_only
                && !dir_mode))
            &&& recent_only && !dir_mode ==> plan[0] == LoadStep::KnownPaths
        }),
{
}

} // verus!
