//! Pools of entries, and how they are filled while the file system is scanned.
use std::sync::Arc;
use vstd::hash_map::StringHashMap;
use vstd::prelude::*;
use vstd::string::*;

use crate::clock;
use crate::clock::is_within_recent_window;
use crate::clock::Timestamp;
use crate::entry;
use crate::entry::ByRecency;
use crate::entry::FileEntry;
use crate::entry::FileMetadata;
use crate::history;
use crate::order;
use crate::order::sort_items;
use crate::order::Duplicate;
use crate::order::Ranking;
use crate::paths;
use crate::recency::RecencyIndex;
use crate::recency::RecencyView;

verus! {

/// After how many new entries those that are loaded are taken over.
pub const FILE_BATCH_SIZE: usize = 256;

/// How long loaded entries are held back at most, in nanoseconds.
pub const ENTRY_PUBLISH_INTERVAL: u64 = 100_000_000;

/// How many entries the recent pool keeps.
pub const RECENT_POOL_LIMIT: usize = 20_000;

/// The entries of a scope, how often they have changed, and whether they are being
/// loaded.
pub struct EntryPool {
    pub files: Arc<Vec<FileEntry>>,
    pub version: u64,
    pub loading: bool,
}

impl EntryPool {
    /// An empty pool.
    pub fn new() -> (r: Self)
        ensures
            r.files@.len() == 0,
            r.version == 0,
            !r.loading,
    {
        EntryPool { files: Arc::new(Vec::new()), version: 0, loading: false }
    }
}

/// Whether a pool can be claimed for loading.
pub open spec fn is_free(pool: EntryPool) -> bool {
    !pool.loading && pool.files@.len() == 0
}

/// Claims a pool for loading. It is not claimed if entries are loaded already or
/// being loaded, so that no two loads of a pool go on at once.
pub fn try_begin_load(pool: &mut EntryPool) -> (r: bool)
    ensures
        r == is_free(*old(pool)),
        final(pool).files == old(pool).files,
        final(pool).version == old(pool).version,
        final(pool).loading == (old(pool).loading || r),
        !is_free(*final(pool)),
{
    if pool.loading || pool.files.len() > 0 {
        return false;
    }
    pool.loading = true;
    true
}

/// The version after a change. It starts over at zero when it cannot go on.
pub open spec fn next_version(version: u64) -> u64 {
    if version == u64::MAX {
        0
    } else {
        (version + 1) as u64
    }
}

/// Notes that the entries of a pool have changed.
pub fn mark_entries_changed(pool: &mut EntryPool)
    ensures
        final(pool).files == old(pool).files,
        final(pool).loading == old(pool).loading,
        final(pool).version == next_version(old(pool).version),
        final(pool).version != old(pool).version,
{
    pool.version = if pool.version == u64::MAX {
        0
    } else {
        pool.version + 1
    };
}

/// Whether entries have been put into a pool.
pub open spec fn is_published(before: EntryPool, after: EntryPool, loaded: Seq<FileEntry>) -> bool {
    &&& after.files@ == loaded
    &&& after.version == next_version(before.version)
    &&& after.loading == before.loading
}

/// Puts entries into a pool.
pub fn publish_entries(pool: &mut EntryPool, loaded: &Vec<FileEntry>)
    ensures
        is_published(*old(pool), *final(pool), loaded@),
{
    pool.files = Arc::new(copy_entries(loaded));
    mark_entries_changed(pool);
}

fn copy_entries(list: &Vec<FileEntry>) -> (r: Vec<FileEntry>)
    ensures
        r@ == list@,
{
    let mut r: Vec<FileEntry> = Vec::new();
    let mut i: usize = 0;
    while i < list.len()
        invariant
            i <= list@.len(),
            r@ == list@.take(i as int),
        decreases list.len() - i,
    {
        r.push(list[i].duplicate());
        i += 1;
        proof {
            assert(list@.take(i as int) =~= list@.take(i - 1).push(list@[i - 1]));
        }
    }
    proof {
        assert(list@.take(list@.len() as int) =~= list@);
    }
    r
}

/// Loaded entries in the order of a pool, cut to the size of the recent pool if
/// they are for that.
pub open spec fn settled(loaded: Seq<FileEntry>, cap_recent_pool: bool) -> Seq<FileEntry> {
    let sorted = order::ranked(loaded, entry::by_recency());
    if cap_recent_pool {
        history::at_most(sorted, RECENT_POOL_LIMIT as nat)
    } else {
        sorted
    }
}

/// Whether entries are in the order of a pool.
pub open spec fn is_settled(loaded: Seq<FileEntry>) -> bool {
    forall|i: int, j: int|
        0 <= i < j < loaded.len() ==> !entry::recent_before(
            (#[trigger] loaded[j])@,
            (#[trigger] loaded[i])@,
        )
}

fn settle(loaded: &mut Vec<FileEntry>, cap_recent_pool: bool)
    ensures
        final(loaded)@ == settled(old(loaded)@, cap_recent_pool),
        is_settled(final(loaded)@),
        cap_recent_pool ==> final(loaded)@.len() <= RECENT_POOL_LIMIT,
        !cap_recent_pool ==> final(loaded)@.to_multiset() == old(loaded)@.to_multiset(),
{
    let ghost given = loaded@;
    let ranking = ByRecency;
    let size: usize = loaded.len();
    let mut sorted = sort_items(&ranking, &*loaded);
    proof {
        ranking.strict_weak_order();
        order::lemma_ranked(given, entry::by_recency());
        let out = sorted@;
        assert forall|i: int, j: int| 0 <= i < j < out.len() implies !entry::recent_before(
            (#[trigger] out[j])@,
            (#[trigger] out[i])@,
        ) by {
            assert(!(entry::by_recency())(out[j], out[i]));
        }
    }
    if cap_recent_pool && sorted.len() > RECENT_POOL_LIMIT {
        sorted.truncate(RECENT_POOL_LIMIT);
    }
    *loaded = sorted;
    proof {
        assert(loaded@ =~= settled(given, cap_recent_pool));
    }
}

/// Brings loaded entries into the order of a pool, cuts them to the size of the
/// recent pool if they are for that, and puts them into the pool.
pub fn sort_loaded_entries(
    pool: &mut EntryPool,
    loaded: &mut Vec<FileEntry>,
    cap_recent_pool: bool,
)
    ensures
        final(loaded)@ == settled(old(loaded)@, cap_recent_pool),
        is_settled(final(loaded)@),
        cap_recent_pool ==> final(loaded)@.len() <= RECENT_POOL_LIMIT,
        !cap_recent_pool ==> final(loaded)@.to_multiset() == old(loaded)@.to_multiset(),
        is_published(*old(pool), *final(pool), final(loaded)@),
{
    settle(loaded, cap_recent_pool);
    publish_entries(pool, &*loaded);
}

/// Whether so much time has passed that loaded entries are put into the pool.
pub open spec fn is_due(last_publish: u64, tick: u64) -> bool {
    tick - last_publish >= ENTRY_PUBLISH_INTERVAL
}

/// Whether a recent pool has grown so far that it is cut in between.
pub open spec fn overflows(count: nat, cap_recent_pool: bool) -> bool {
    cap_recent_pool && count >= 2 * RECENT_POOL_LIMIT
}

/// The loaded entries after a batch has been taken over.
pub open spec fn after_batch(
    loaded: Seq<FileEntry>,
    batch: Seq<FileEntry>,
    cap_recent_pool: bool,
) -> Seq<FileEntry> {
    let all = loaded + batch;
    if batch.len() > 0 && overflows(all.len(), cap_recent_pool) {
        settled(all, true)
    } else {
        all
    }
}

/// The recent pool holds the most recent of all the entries that were taken for it:
/// those that it was cut by in between would not be in it in the end either.
pub proof fn lemma_pool_holds_most_recent(
    loaded: Seq<FileEntry>,
    batch: Seq<FileEntry>,
    more: Seq<FileEntry>,
)
    requires
        loaded.len() + batch.len() + more.len() <= usize::MAX,
    ensures
        settled(settled(loaded, true) + more, true) == settled(loaded + more, true),
        settled(after_batch(loaded, batch, true) + more, true) == settled(
            loaded + batch + more,
            true,
        ),
{
    ByRecency.strict_weak_order();
    order::lemma_best_in_between(
        loaded,
        more,
        entry::by_recency(),
        RECENT_POOL_LIMIT as nat,
    );
    order::lemma_best_in_between(
        loaded + batch,
        more,
        entry::by_recency(),
        RECENT_POOL_LIMIT as nat,
    );
}

/// Whether a batch that has been taken over is put into the pool at once.
pub open spec fn publishes_batch(
    loaded: Seq<FileEntry>,
    batch: Seq<FileEntry>,
    cap_recent_pool: bool,
    last_publish: u64,
    tick: u64,
) -> bool {
    batch.len() > 0 && (overflows((loaded + batch).len(), cap_recent_pool) || is_due(
        last_publish,
        tick,
    ))
}

/// Takes a batch of entries over, and puts all that are loaded into the pool if it
/// is time to. `tick` is the time on a clock that never runs back.
pub fn flush_entry_buffer(
    pool: &mut EntryPool,
    loaded: &mut Vec<FileEntry>,
    buffer: &mut Vec<FileEntry>,
    cap_recent_pool: bool,
    last_publish: &mut u64,
    tick: u64,
)
    ensures
        final(buffer)@.len() == 0,
        old(loaded)@.len() + old(buffer)@.len() <= usize::MAX,
        final(loaded)@ == after_batch(old(loaded)@, old(buffer)@, cap_recent_pool),
        publishes_batch(old(loaded)@, old(buffer)@, cap_recent_pool, *old(last_publish), tick) ==> {
            &&& is_published(*old(pool), *final(pool), final(loaded)@)
            &&& *final(last_publish) == tick
        },
        !publishes_batch(old(loaded)@, old(buffer)@, cap_recent_pool, *old(last_publish), tick)
            ==> {
            &&& *final(pool) == *old(pool)
            &&& *final(last_publish) == *old(last_publish)
        },
{
    let ghost before = loaded@;
    let ghost batch = buffer@;
    if buffer.len() == 0 {
        proof {
            assert(before + batch =~= before);
            assert(loaded@.len() == loaded.len());
        }
        return ;
    }
    loaded.append(buffer);
    proof {
        assert(loaded@ =~= before + batch);
        assert(loaded@.len() == loaded.len());
    }
    if cap_recent_pool && loaded.len() >= RECENT_POOL_LIMIT * 2 {
        settle(loaded, true);
        publish_entries(pool, &*loaded);
        *last_publish = tick;
    } else if tick >= *last_publish && tick - *last_publish >= ENTRY_PUBLISH_INTERVAL {
        publish_entries(pool, &*loaded);
        *last_publish = tick;
    }
}

// ---------------------------------------------------------------------------
// Loading
// ---------------------------------------------------------------------------

/// The state of loading a pool: the paths that are known to be in it, the entries
/// loaded, those not yet taken over, and when the pool was last filled.
pub struct EntryLoad {
    pub seen: StringHashMap<bool>,
    pub loaded: Vec<FileEntry>,
    pub buffer: Vec<FileEntry>,
    pub last_publish: u64,
}

impl EntryLoad {
    /// Nothing is loaded yet.
    pub fn new(tick: u64) -> (r: Self)
        ensures
            r.seen@ == Map::<Seq<char>, bool>::empty(),
            r.loaded@.len() == 0,
            r.buffer@.len() == 0,
            r.last_publish == tick,
    {
        EntryLoad {
            seen: StringHashMap::new(),
            loaded: Vec::new(),
            buffer: Vec::new(),
            last_publish: tick,
        }
    }
}

/// Whether an entry is let into a pool: it is recent, if that matters, and its path
/// is not known to be in it.
pub open spec fn is_wanted(
    e: entry::EntryView,
    seen: Map<Seq<char>, bool>,
    cwd: Seq<char>,
    recent_only: bool,
    now: Timestamp,
) -> bool {
    &&& !recent_only || clock::within_window(now, e.recency_time)
    &&& !seen.contains_key(paths::key_from(e.path, cwd))
}

/// What taking a path that is known to have been used does: to the entries that wait, and
/// to the paths that are noted.
pub open spec fn path_taken(
    before: (Seq<FileEntry>, Map<Seq<char>, bool>),
    after: (Seq<FileEntry>, Map<Seq<char>, bool>),
    path: Seq<char>,
    metadata: Option<FileMetadata>,
    index: RecencyView,
    recent_only: bool,
    now: Timestamp,
) -> bool {
    let e = entry::entry_for(path, metadata, index);
    if metadata is Some && is_wanted(e, before.1, index.cwd, recent_only, now) {
        &&& after.0.len() == before.0.len() + 1
        &&& after.0.drop_last() == before.0
        &&& after.0.last()@ == e
        &&& after.1 == before.1.insert(paths::key_from(path, index.cwd), true)
    } else {
        after == before
    }
}

/// Takes a path that is known to have been used, unless it is known already, the
/// file cannot be looked at, or it is not recent though that matters.
pub fn push_entry_if_wanted(
    path: String,
    metadata: Option<FileMetadata>,
    buffer: &mut Vec<FileEntry>,
    seen: &mut StringHashMap<bool>,
    recency_index: &RecencyIndex,
    recent_only: bool,
    now: Timestamp,
)
    ensures
        path_taken(
            (old(buffer)@, old(seen)@),
            (final(buffer)@, final(seen)@),
            path@,
            metadata,
            recency_index@,
            recent_only,
            now,
        ),
{
    let ghost before = buffer@;
    let key = recency_index.path_key(path.as_str());
    if seen.contains_key(key.as_str()) {
        return ;
    }
    match FileEntry::try_new_with_recency(path, metadata, recency_index) {
        Some(e) => {
            if recent_only && !is_within_recent_window(now, e.recency_time()) {
                return ;
            }
            seen.insert(key, true);
            buffer.push(e);
            proof {
                assert(buffer@.drop_last() =~= before);
            }
        },
        None => {},
    }
}

/// A scan of the file system: whether entries must be recent, and whether the paths
/// that come are noted as known.
#[derive(Clone, Copy, Debug, PartialEq, Eq, Structural)]
pub struct ScanOptions {
    pub recent_only: bool,
    pub record_seen: bool,
}

/// Whether a batch that an entry fills is put into the pool at once.
pub open spec fn entry_publishes(
    load: EntryLoad,
    e: FileEntry,
    cwd: Seq<char>,
    options: ScanOptions,
    now: Timestamp,
    tick: u64,
) -> bool {
    let batch = load.buffer@.push(e);
    is_wanted(e@, load.seen@, cwd, options.recent_only, now) && batch.len() >= FILE_BATCH_SIZE
        && publishes_batch(load.loaded@, batch, options.recent_only, load.last_publish, tick)
}

/// What taking an entry that a scan found does to a load.
pub open spec fn entry_taken(
    before: EntryLoad,
    after: EntryLoad,
    e: FileEntry,
    cwd: Seq<char>,
    options: ScanOptions,
    now: Timestamp,
    tick: u64,
) -> bool {
    let wanted = is_wanted(e@, before.seen@, cwd, options.recent_only, now);
    let batch = before.buffer@.push(e);
    let full = batch.len() >= FILE_BATCH_SIZE;
    &&& after.seen@ == if wanted && options.record_seen {
        before.seen@.insert(paths::key_from(e@.path, cwd), true)
    } else {
        before.seen@
    }
    &&& after.last_publish == if entry_publishes(before, e, cwd, options, now, tick) {
        tick
    } else {
        before.last_publish
    }
    &&& !wanted ==> after.buffer@ == before.buffer@ && after.loaded@ == before.loaded@
    &&& wanted && !full ==> after.buffer@ == batch && after.loaded@ == before.loaded@
    &&& wanted && full ==> {
        &&& before.loaded@.len() + batch.len() <= usize::MAX
        &&& after.buffer@.len() == 0
        &&& after.loaded@ == after_batch(before.loaded@, batch, options.recent_only)
    }
}

/// Takes an entry that a scan found, if it is wanted. When a batch is full it is
/// taken over.
pub fn load_fd_entries(
    e: FileEntry,
    load: &mut EntryLoad,
    pool: &mut EntryPool,
    recency_index: &RecencyIndex,
    options: ScanOptions,
    now: Timestamp,
    tick: u64,
)
    ensures
        entry_taken(*old(load), *final(load), e, recency_index@.cwd, options, now, tick),
        if entry_publishes(*old(load), e, recency_index@.cwd, options, now, tick) {
            is_published(*old(pool), *final(pool), final(load).loaded@)
        } else {
            *final(pool) == *old(pool)
        },
{
    if options.recent_only && !is_within_recent_window(now, e.recency_time()) {
        return ;
    }
    if !load.seen.is_empty() || options.record_seen {
        let key = recency_index.path_key(e.path());
        if load.seen.contains_key(key.as_str()) {
            return ;
        }
        if options.record_seen {
            load.seen.insert(key, true);
        }
    }
    load.buffer.push(e);
    if load.buffer.len() >= FILE_BATCH_SIZE {
        flush_entry_buffer(
            pool,
            &mut load.loaded,
            &mut load.buffer,
            options.recent_only,
            &mut load.last_publish,
            tick,
        );
    }
}

/// Takes an entry that a scan found for the pool of all entries, which takes every
/// one, and fills the pool if it is time to.
pub fn feed_all_pool(
    e: &FileEntry,
    all_loaded: &mut Vec<FileEntry>,
    pool: &mut EntryPool,
    last_publish: &mut u64,
    tick: u64,
)
    ensures
        final(all_loaded)@ == old(all_loaded)@.push(*e),
        is_due(*old(last_publish), tick) ==> is_published(
            *old(pool),
            *final(pool),
            final(all_loaded)@,
        ) && *final(last_publish) == tick,
        !is_due(*old(last_publish), tick) ==> *final(pool) == *old(pool) && *final(last_publish)
            == *old(last_publish),
{
    all_loaded.push(e.duplicate());
    if tick >= *last_publish && tick - *last_publish >= ENTRY_PUBLISH_INTERVAL {
        publish_entries(pool, &*all_loaded);
        *last_publish = tick;
    }
}

/// A step of loading a pool. After each step the pool is brought into order.
#[derive(Clone, Copy, Debug, PartialEq, Eq, Structural)]
pub enum LoadStep {
    /// The paths that are known to have been used.
    KnownPaths,
    /// A scan: of what has changed recently or of everything, with these options,
    /// and whether it fills the pool of all entries too.
    Scan { changed_recently: bool, options: ScanOptions, feeds_all: bool },
}

/// Whether loading is for the recent pool.
pub open spec fn loads_recent(dir_mode: bool, recent_only: bool) -> bool {
    recent_only && !dir_mode
}

/// Whether a load is one of recent files, of which only the latest are kept.
pub fn is_recent_load(dir_mode: bool, recent_only: bool) -> (r: bool)
    ensures
        r == loads_recent(dir_mode, recent_only),
{
    recent_only && !dir_mode
}

/// The steps of loading a pool. The recent pool gets the paths that are known to
/// have been used, what has changed recently, and then whatever was used recently
/// at all; this last scan sees everything, so it can fill the pool of all entries
/// too. Other pools are filled by one scan of everything.
pub open spec fn load_plan(dir_mode: bool, recent_only: bool, has_sink: bool) -> Seq<LoadStep> {
    if loads_recent(dir_mode, recent_only) {
        seq![
            LoadStep::KnownPaths,
            LoadStep::Scan {
                changed_recently: true,
                options: ScanOptions { recent_only: true, record_seen: true },
                feeds_all: false,
            },
            LoadStep::Scan {
                changed_recently: false,
                options: ScanOptions { recent_only: true, record_seen: false },
                feeds_all: has_sink,
            },
        ]
    } else {
        seq![
            LoadStep::Scan {
                changed_recently: false,
                options: ScanOptions { recent_only: false, record_seen: false },
                feeds_all: false,
            },
        ]
    }
}

/// The steps of loading a pool.
pub fn load_entries(dir_mode: bool, recent_only: bool, has_sink: bool) -> (r: Vec<LoadStep>)
    ensures
        r@ == load_plan(dir_mode, recent_only, has_sink),
{
    let mut r: Vec<LoadStep> = Vec::new();
    if is_recent_load(dir_mode, recent_only) {
        r.push(LoadStep::KnownPaths);
        r.push(
            LoadStep::Scan {
                changed_recently: true,
                options: ScanOptions { recent_only: true, record_seen: true },
                feeds_all: false,
            },
        );
        r.push(
            LoadStep::Scan {
                changed_recently: false,
                options: ScanOptions { recent_only: true, record_seen: false },
                feeds_all: has_sink,
            },
        );
    } else {
        r.push(
            LoadStep::Scan {
                changed_recently: false,
                options: ScanOptions { recent_only: false, record_seen: false },
                feeds_all: false,
            },
        );
    }
    proof {
        assert(r@ =~= load_plan(dir_mode, recent_only, has_sink));
    }
    r
}

/// The steps of loading the recent pool alone.
pub fn load_files() -> (r: Vec<LoadStep>)
    ensures
        r@ == load_plan(false, true, false),
{
    load_entries(false, true, false)
}

/// What the end of a step does to a load: what is left is taken over, and all is brought
/// into order. The recent pool is cut to its size.
pub open spec fn step_ended(before: EntryLoad, after: EntryLoad, recent: bool, tick: u64) -> bool {
    &&& before.loaded@.len() + before.buffer@.len() <= usize::MAX
    &&& after.buffer@.len() == 0
    &&& after.seen@ == before.seen@
    &&& after.loaded@ == settled(after_batch(before.loaded@, before.buffer@, recent), recent)
    &&& after.last_publish == if publishes_batch(
        before.loaded@,
        before.buffer@,
        recent,
        before.last_publish,
        tick,
    ) {
        tick
    } else {
        before.last_publish
    }
}

/// The version of a pool after the end of a step.
pub open spec fn version_after_step(load: EntryLoad, version: u64, recent: bool, tick: u64) -> u64 {
    next_version(
        if publishes_batch(load.loaded@, load.buffer@, recent, load.last_publish, tick) {
            next_version(version)
        } else {
            version
        },
    )
}

/// Ends a step of loading: what is left is taken over, and the pool is brought into
/// order. The recent pool is cut to its size.
pub fn finish_step(
    load: &mut EntryLoad,
    pool: &mut EntryPool,
    recent: bool,
    tick: u64,
)
    ensures
        step_ended(*old(load), *final(load), recent, tick),
        is_settled(final(load).loaded@),
        recent ==> final(load).loaded@.len() <= RECENT_POOL_LIMIT,
        final(pool).files@ == final(load).loaded@,
        final(pool).loading == old(pool).loading,
        final(pool).version == version_after_step(*old(load), old(pool).version, recent, tick),
{
    flush_entry_buffer(
        pool,
        &mut load.loaded,
        &mut load.buffer,
        recent,
        &mut load.last_publish,
        tick,
    );
    sort_loaded_entries(pool, &mut load.loaded, recent);
}

/// Ends a load: the last step ends, and with it, if it was fed, the loading of the pool of
/// all entries, which are brought into order too. Neither pool is being loaded any more.
pub fn finish_load(
    load: &mut EntryLoad,
    pool: &mut EntryPool,
    recent: bool,
    all_loaded: &mut Vec<FileEntry>,
    all: &mut EntryPool,
    feeds_all: bool,
    tick: u64,
)
    ensures
        step_ended(*old(load), *final(load), recent, tick),
        is_settled(final(load).loaded@),
        recent ==> final(load).loaded@.len() <= RECENT_POOL_LIMIT,
        final(pool).files@ == final(load).loaded@,
        !final(pool).loading,
        final(pool).version == version_after_step(*old(load), old(pool).version, recent, tick),
        feeds_all ==> {
            &&& final(all_loaded)@ == settled(old(all_loaded)@, false)
            &&& final(all).files@ == final(all_loaded)@
            &&& !final(all).loading
            &&& final(all).version == next_version(old(all).version)
        },
        !feeds_all ==> *final(all) == *old(all) && *final(all_loaded) == *old(all_loaded),
{
    if feeds_all {
        sort_loaded_entries(all, all_loaded, false);
        all.loading = false;
    }
    finish_step(load, pool, recent, tick);
    pool.loading = false;
}

/// Claims a pool for loading, and with it the pool of all entries if a load of the
/// recent pool is to fill that too. Says whether loading is to begin, and then
/// whether the pool of all entries is filled with it.
pub fn begin_loading(
    pool: &mut EntryPool,
    all: &mut EntryPool,
    has_sink: bool,
    dir_mode: bool,
    recent_only: bool,
) -> (r: Option<bool>)
    ensures
        r == if is_free(*old(pool)) {
            Some(has_sink && loads_recent(dir_mode, recent_only) && is_free(*old(all)))
        } else {
            None
        },
        r is Some ==> final(pool).loading && final(pool).files@.len() == 0 && final(pool).version
            == next_version(old(pool).version),
        r is None ==> *final(pool) == *old(pool),
        !is_free(*final(pool)),
        final(all).files == old(all).files,
        final(all).version == old(all).version,
        final(all).loading == (old(all).loading || r == Some(true)),
{
    if !try_begin_load(pool) {
        return None;
    }
    let mut with_all = false;
    if has_sink && is_recent_load(dir_mode, recent_only) {
        with_all = try_begin_load(all);
    }
    let none: Vec<FileEntry> = Vec::new();
    publish_entries(pool, &none);
    Some(with_all)
}

// ---------------------------------------------------------------------------
// A whole load
// ---------------------------------------------------------------------------

/// What can happen in a load: a path that is known is taken, a scan finds an entry, or a
/// step ends.
pub ghost enum LoadEvent {
    Known { path: Seq<char>, metadata: Option<FileMetadata>, recent_only: bool, now: Timestamp },
    Found { e: FileEntry, options: ScanOptions, now: Timestamp, tick: u64 },
    StepEnd { recent: bool, tick: u64 },
}

/// What an event does to a load.
pub open spec fn event_done(
    before: EntryLoad,
    after: EntryLoad,
    event: LoadEvent,
    index: RecencyView,
) -> bool {
    match event {
        LoadEvent::Known { path, metadata, recent_only, now } => {
            &&& path_taken(
                (before.buffer@, before.seen@),
                (after.buffer@, after.seen@),
                path,
                metadata,
                index,
                recent_only,
                now,
            )
            &&& after.loaded@ == before.loaded@
            &&& after.last_publish == before.last_publish
        },
        LoadEvent::Found { e, options, now, tick } => entry_taken(
            before,
            after,
            e,
            index.cwd,
            options,
            now,
            tick,
        ),
        LoadEvent::StepEnd { recent, tick } => step_ended(before, after, recent, tick),
    }
}

/// What some events do to a load, one after the other.
pub open spec fn events_done(
    before: EntryLoad,
    after: EntryLoad,
    events: Seq<LoadEvent>,
    index: RecencyView,
) -> bool
    decreases events.len(),
{
    if events.len() == 0 {
        after == before
    } else {
        exists|middle: EntryLoad|
            #![trigger event_done(middle, after, events.last(), index)]
            events_done(before, middle, events.drop_last(), index) && event_done(
                middle,
                after,
                events.last(),
                index,
            )
    }
}

/// The key of an entry, for paths seen from a directory.
pub open spec fn entry_key(e: FileEntry, cwd: Seq<char>) -> Seq<char> {
    paths::key_from(e@.path, cwd)
}

/// Whether no two entries have the same key.
pub open spec fn distinct_keys(list: Seq<FileEntry>, cwd: Seq<char>) -> bool {
    forall|i: int, j: int|
        0 <= i < j < list.len() ==> entry_key(#[trigger] list[i], cwd) != entry_key(
            #[trigger] list[j],
            cwd,
        )
}

/// Whether the keys of all entries are noted, or among those that a scan has found.
pub open spec fn keys_known(
    list: Seq<FileEntry>,
    cwd: Seq<char>,
    seen: Map<Seq<char>, bool>,
    found: Set<Seq<char>>,
) -> bool {
    forall|i: int|
        0 <= i < list.len() ==> seen.contains_key(entry_key(#[trigger] list[i], cwd))
            || found.contains(entry_key(list[i], cwd))
}

/// Whether no path is in a load twice: the keys of its entries differ, and each is noted or
/// among those that the last scan has found.
pub open spec fn no_path_twice(load: EntryLoad, cwd: Seq<char>, found: Set<Seq<char>>) -> bool {
    let list = load.loaded@ + load.buffer@;
    distinct_keys(list, cwd) && keys_known(list, cwd, load.seen@, found)
}

/// Whether an event is one of those before the last scan: every path that is taken is noted.
pub open spec fn is_noting(event: LoadEvent) -> bool {
    match event {
        LoadEvent::Known { .. } => true,
        LoadEvent::Found { e, options, now, tick } => options.record_seen,
        LoadEvent::StepEnd { .. } => true,
    }
}

/// Whether an event is one of the last scan, which notes no paths.
pub open spec fn is_of_last_scan(event: LoadEvent) -> bool {
    event matches LoadEvent::Found { e, options, now, tick } && !options.record_seen
}

/// The keys of the entries that some events have found.
pub open spec fn found_keys(events: Seq<LoadEvent>, cwd: Seq<char>) -> Set<Seq<char>>
    decreases events.len(),
{
    if events.len() == 0 {
        Set::empty()
    } else {
        let before = found_keys(events.drop_last(), cwd);
        match events.last() {
            LoadEvent::Found { e, options, now, tick } => before.insert(entry_key(e, cwd)),
            _ => before,
        }
    }
}

/// Whether no two of some events have found entries with the same key.
pub open spec fn finds_differ(events: Seq<LoadEvent>, cwd: Seq<char>) -> bool
    decreases events.len(),
{
    events.len() == 0 || (finds_differ(events.drop_last(), cwd) && (events.last()
        matches LoadEvent::Found { e, options, now, tick } ==> !found_keys(
        events.drop_last(),
        cwd,
    ).contains(entry_key(e, cwd))))
}

proof fn lemma_settled_keys(
    list: Seq<FileEntry>,
    cap_recent_pool: bool,
    cwd: Seq<char>,
    seen: Map<Seq<char>, bool>,
    found: Set<Seq<char>>,
)
    requires
        list.len() <= usize::MAX,
        distinct_keys(list, cwd),
        keys_known(list, cwd, seen, found),
    ensures
        settled(list, cap_recent_pool).len() <= list.len(),
        distinct_keys(settled(list, cap_recent_pool), cwd),
        keys_known(settled(list, cap_recent_pool), cwd, seen, found),
{
    let key = |e: FileEntry| entry_key(e, cwd);
    let sorted = order::ranked(list, entry::by_recency());
    let kept = settled(list, cap_recent_pool);
    ByRecency.strict_weak_order();
    assert forall|i: int, j: int| 0 <= i < j < list.len() implies key(#[trigger] list[i]) != key(
        #[trigger] list[j],
    ) by {
        assert(entry_key(list[i], cwd) != entry_key(list[j], cwd));
    }
    order::lemma_ranked_distinct(list, entry::by_recency(), key);
    assert forall|i: int| 0 <= i < kept.len() implies seen.contains_key(
        entry_key(#[trigger] kept[i], cwd),
    ) || found.contains(entry_key(kept[i], cwd)) by {
        assert(list.contains(sorted[i]));
        let k = list.index_of(sorted[i]);
        assert(list[k] == kept[i]);
    }
    assert forall|i: int, j: int| 0 <= i < j < kept.len() implies entry_key(
        #[trigger] kept[i],
        cwd,
    ) != entry_key(#[trigger] kept[j], cwd) by {
        assert(key(sorted[i]) != key(sorted[j]));
    }
}

proof fn lemma_batch_keys(
    loaded: Seq<FileEntry>,
    batch: Seq<FileEntry>,
    recent: bool,
    cwd: Seq<char>,
    seen: Map<Seq<char>, bool>,
    found: Set<Seq<char>>,
)
    requires
        loaded.len() + batch.len() <= usize::MAX,
        distinct_keys(loaded + batch, cwd),
        keys_known(loaded + batch, cwd, seen, found),
    ensures
        after_batch(loaded, batch, recent).len() <= loaded.len() + batch.len(),
        distinct_keys(after_batch(loaded, batch, recent), cwd),
        keys_known(after_batch(loaded, batch, recent), cwd, seen, found),
{
    lemma_settled_keys(loaded + batch, true, cwd, seen, found);
}

/// One more entry whose key is new leaves the keys distinct.
proof fn lemma_new_key(
    list: Seq<FileEntry>,
    e: FileEntry,
    cwd: Seq<char>,
    seen: Map<Seq<char>, bool>,
    found: Set<Seq<char>>,
    seen2: Map<Seq<char>, bool>,
    found2: Set<Seq<char>>,
)
    requires
        distinct_keys(list, cwd),
        keys_known(list, cwd, seen, found),
        !seen.contains_key(entry_key(e, cwd)),
        !found.contains(entry_key(e, cwd)),
        seen2 == seen || seen2 == seen.insert(entry_key(e, cwd), true),
        found2 == found || found2 == found.insert(entry_key(e, cwd)),
        seen2.contains_key(entry_key(e, cwd)) || found2.contains(entry_key(e, cwd)),
    ensures
        distinct_keys(list.push(e), cwd),
        keys_known(list.push(e), cwd, seen2, found2),
{
    let longer = list.push(e);
    assert forall|i: int, j: int| 0 <= i < j < longer.len() implies entry_key(
        #[trigger] longer[i],
        cwd,
    ) != entry_key(#[trigger] longer[j], cwd) by {
        assert(longer[i] == list[i]);
        if j < list.len() {
            assert(entry_key(list[i], cwd) != entry_key(list[j], cwd));
        }
    }
    assert forall|i: int| 0 <= i < longer.len() implies seen2.contains_key(
        entry_key(#[trigger] longer[i], cwd),
    ) || found2.contains(entry_key(longer[i], cwd)) by {
        if i < list.len() {
            assert(longer[i] == list[i]);
        }
    }
}

/// No event puts a path into a load twice. Before the last scan every path is noted; in
/// the last scan, which notes none, this takes that no path is found twice.
pub proof fn lemma_event_keeps_paths_apart(
    before: EntryLoad,
    after: EntryLoad,
    event: LoadEvent,
    index: RecencyView,
    found: Set<Seq<char>>,
)
    requires
        event_done(before, after, event, index),
        no_path_twice(before, index.cwd, found),
        is_noting(event) ==> found == Set::<Seq<char>>::empty(),
        event matches LoadEvent::Found { e, options, now, tick } ==> !found.contains(
            entry_key(e, index.cwd),
        ),
    ensures
        no_path_twice(
            after,
            index.cwd,
            match event {
                LoadEvent::Found { e, options, now, tick } => if options.record_seen {
                    found
                } else {
                    found.insert(entry_key(e, index.cwd))
                },
                _ => found,
            },
        ),
{
    let cwd = index.cwd;
    let list = before.loaded@ + before.buffer@;
    match event {
        LoadEvent::Known { path, metadata, recent_only, now } => {
            let made = entry::entry_for(path, metadata, index);
            if metadata is Some && is_wanted(made, before.seen@, cwd, recent_only, now) {
                let e = after.buffer@.last();
                assert(after.buffer@ =~= before.buffer@.push(e));
                assert(after.loaded@ + after.buffer@ =~= list.push(e));
                lemma_new_key(list, e, cwd, before.seen@, found, after.seen@, found);
            }
        },
        LoadEvent::Found { e, options, now, tick } => {
            let found2 = if options.record_seen {
                found
            } else {
                found.insert(entry_key(e, cwd))
            };
            if is_wanted(e@, before.seen@, cwd, options.recent_only, now) {
                let batch = before.buffer@.push(e);
                assert(before.loaded@ + batch =~= list.push(e));
                lemma_new_key(list, e, cwd, before.seen@, found, after.seen@, found2);
                if batch.len() >= FILE_BATCH_SIZE {
                    lemma_batch_keys(
                        before.loaded@,
                        batch,
                        options.recent_only,
                        cwd,
                        after.seen@,
                        found2,
                    );
                    assert(after.loaded@ + after.buffer@ =~= after.loaded@);
                }
            } else {
                assert(keys_known(list, cwd, after.seen@, found2));
            }
        },
        LoadEvent::StepEnd { recent, tick } => {
            lemma_batch_keys(before.loaded@, before.buffer@, recent, cwd, before.seen@, found);
            lemma_settled_keys(
                after_batch(before.loaded@, before.buffer@, recent),
                recent,
                cwd,
                before.seen@,
                found,
            );
            assert(after.loaded@ + after.buffer@ =~= after.loaded@);
        },
    }
}

proof fn lemma_noting_events(
    before: EntryLoad,
    after: EntryLoad,
    events: Seq<LoadEvent>,
    index: RecencyView,
)
    requires
        events_done(before, after, events, index),
        no_path_twice(before, index.cwd, Set::empty()),
        forall|i: int| 0 <= i < events.len() ==> is_noting(#[trigger] events[i]),
    ensures
        no_path_twice(after, index.cwd, Set::empty()),
    decreases events.len(),
{
    if events.len() > 0 {
        let middle = choose|middle: EntryLoad|
            #![trigger event_done(middle, after, events.last(), index)]
            events_done(before, middle, events.drop_last(), index) && event_done(
                middle,
                after,
                events.last(),
                index,
            );
        lemma_noting_events(before, middle, events.drop_last(), index);
        assert(is_noting(events[events.len() - 1]));
        lemma_event_keeps_paths_apart(middle, after, events.last(), index, Set::empty());
    }
}

proof fn lemma_scan_events(
    before: EntryLoad,
    after: EntryLoad,
    events: Seq<LoadEvent>,
    index: RecencyView,
)
    requires
        events_done(before, after, events, index),
        no_path_twice(before, index.cwd, Set::empty()),
        forall|i: int| 0 <= i < events.len() ==> is_of_last_scan(#[trigger] events[i]),
        finds_differ(events, index.cwd),
    ensures
        no_path_twice(after, index.cwd, found_keys(events, index.cwd)),
    decreases events.len(),
{
    if events.len() > 0 {
        let middle = choose|middle: EntryLoad|
            #![trigger event_done(middle, after, events.last(), index)]
            events_done(before, middle, events.drop_last(), index) && event_done(
                middle,
                after,
                events.last(),
                index,
            );
        lemma_scan_events(before, middle, events.drop_last(), index);
        assert(is_of_last_scan(events[events.len() - 1]));
        lemma_event_keeps_paths_apart(
            middle,
            after,
            events.last(),
            index,
            found_keys(events.drop_last(), index.cwd),
        );
    }
}

/// A whole load of the recent pool leaves no two entries in it that lead to the same path,
/// if its last scan finds none twice: whatever steps note paths come first, then that scan,
/// and then the end of the load. The pool is in order, and not too large.
pub proof fn lemma_load_has_no_path_twice(
    start: EntryLoad,
    scanned: EntryLoad,
    last: EntryLoad,
    end: EntryLoad,
    first_events: Seq<LoadEvent>,
    scan_events: Seq<LoadEvent>,
    index: RecencyView,
    tick: u64,
)
    requires
        start.loaded@.len() == 0,
        start.buffer@.len() == 0,
        events_done(start, scanned, first_events, index),
        forall|i: int| 0 <= i < first_events.len() ==> is_noting(#[trigger] first_events[i]),
        events_done(scanned, last, scan_events, index),
        forall|i: int| 0 <= i < scan_events.len() ==> is_of_last_scan(#[trigger] scan_events[i]),
        finds_differ(scan_events, index.cwd),
        step_ended(last, end, true, tick),
    ensures
        distinct_keys(end.loaded@, index.cwd),
        is_settled(end.loaded@),
        end.loaded@.len() <= RECENT_POOL_LIMIT,
{
    let cwd = index.cwd;
    let found = found_keys(scan_events, cwd);
    assert(no_path_twice(start, cwd, Set::empty()));
    lemma_noting_events(start, scanned, first_events, index);
    lemma_scan_events(scanned, last, scan_events, index);
    let batch = after_batch(last.loaded@, last.buffer@, true);
    lemma_batch_keys(last.loaded@, last.buffer@, true, cwd, last.seen@, found);
    lemma_settled_keys(batch, true, cwd, last.seen@, found);
    ByRecency.strict_weak_order();
    order::lemma_ranked(batch, entry::by_recency());
}

/// What is loaded is put into the pool no more than ten times a second, and as soon as a
/// tenth of a second has gone by.
pub proof fn lemma_due(last_publish: u64, tick: u64)
    ensures
        tick >= last_publish + 100_000_000 ==> is_due(last_publish, tick),
        tick < last_publish + 100_000_000 ==> !is_due(last_publish, tick),
{
}

/// What is put into a pool replaces what was there, and can be told from it by the version.
pub proof fn lemma_published(before: EntryPool, after: EntryPool, loaded: Seq<FileEntry>)
    requires
        is_published(before, after, loaded),
    ensures
        after.files@ == loaded,
        after.version != before.version,
        before.version < u64::MAX ==> after.version == before.version + 1,
        after.loading == before.loading,
{
}

/// The recent pool holds 20000 entries at most, and all of them while there are no more. Other
/// pools hold all.
pub proof fn lemma_pool_is_bounded(loaded: Seq<FileEntry>)
    requires
        loaded.len() <= usize::MAX,
    ensures
        loaded.len() <= 20_000 ==> settled(loaded, true).len() == loaded.len(),
        loaded.len() > 20_000 ==> settled(loaded, true).len() == 20_000,
        settled(loaded, false).len() == loaded.len(),
{
    ByRecency.strict_weak_order();
    order::lemma_ranked(loaded, entry::by_recency());
}

} // verus!
