//! The state of the picker, and what keys and searches do to it.
use std::sync::Arc;
use vstd::prelude::*;
use vstd::string::*;

use crate::entry::FileEntry;
use crate::incremental::SearchRequest;
use crate::incremental::SearchResult;
use crate::incremental::SearchScope;
use crate::kitty::CachedImage;
use crate::lru::LruCache;
use crate::rank;
use crate::rank::stand_for_entries;
use crate::search::MatchEntry;
use crate::style::StyledLine;
use crate::text::same_text;

verus! {

/// How many images are kept.
pub const IMAGE_CACHE_SIZE: usize = 10;

/// Of how many videos the frames are kept.
pub const VIDEO_CACHE_SIZE: usize = 5;

/// What is shown of the selected file.
pub enum PreviewContent {
    Text(Vec<StyledLine>),
    Image(CachedImage),
    Video(Vec<CachedImage>),
    VideoStreaming(Vec<CachedImage>),
    VideoLoading,
    Nothing,
}

/// A pool of entries.
#[derive(Clone, Copy, Debug, PartialEq, Eq, Structural)]
pub enum PoolId {
    Recent,
    All,
    Directories,
}

/// An order to load a pool: whether it is one of directories, whether its entries
/// must be recent, and whether the pool of all entries is to be filled with it.
/// Nothing is done if the pool is loaded already or being loaded.
#[derive(Clone, Copy, Debug, PartialEq, Eq, Structural)]
pub struct LoadOrder {
    pub pool: PoolId,
    pub dir_mode: bool,
    pub recent_only: bool,
    pub feeds_all: bool,
}

/// One of the two columns of matches: by score, or by use.
#[derive(Clone, Copy, Debug, PartialEq, Eq, Structural)]
pub enum Column {
    Ranked,
    Recent,
}

/// The state of the picker.
pub struct App {
    pub query: String,
    pub matches: Vec<MatchEntry>,
    pub matches_by_time: Vec<MatchEntry>,
    /// The entries that the matches stand for.
    pub matches_files: Arc<Vec<FileEntry>>,
    pub next_search_id: u64,
    pub latest_search_id: u64,
    pub last_result_search_id: u64,
    pub selected: usize,
    pub active_column: Column,
    pub search_scope: SearchScope,
    pub last_query: String,
    pub last_file_count: usize,
    pub last_file_version: u64,
    pub last_scope: SearchScope,
    pub preview_path: String,
    pub preview_content: PreviewContent,
    pub next_preview_id: u64,
    pub latest_preview_id: u64,
    pub image_cache: LruCache<CachedImage>,
    pub video_cache: LruCache<Vec<CachedImage>>,
    pub video_frame: usize,
    pub video_frame_time: u64,
    /// Whether the frames of a video are being loaded.
    pub video_loader: bool,
    pub video_loader_path: String,
    pub video_loader_seen_frames: usize,
    pub drag_mode: bool,
    pub dir_mode: bool,
}

/// The order to load the recent pool, and with it the pool of all entries.
pub open spec fn recent_order() -> LoadOrder {
    LoadOrder { pool: PoolId::Recent, dir_mode: false, recent_only: true, feeds_all: true }
}

/// The order to load the pool of all entries.
pub open spec fn all_order() -> LoadOrder {
    LoadOrder { pool: PoolId::All, dir_mode: false, recent_only: false, feeds_all: false }
}

/// The order to load the pool of directories.
pub open spec fn directory_order() -> LoadOrder {
    LoadOrder { pool: PoolId::Directories, dir_mode: true, recent_only: false, feeds_all: false }
}

/// What going over to the other scope does.
pub open spec fn scope_toggled(before: App, after: App) -> bool {
    if before.dir_mode {
        after == before
    } else {
        &&& after.preview_path@.len() == 0
        &&& after == App {
            search_scope: before.search_scope.other(),
            selected: 0,
            preview_path: after.preview_path,
            last_file_version: u64::MAX,
            ..before
        }
    }
}

/// Whether going over to this scope calls for the pool of all entries.
pub open spec fn loads_all(after: App) -> bool {
    !after.dir_mode && after.search_scope == SearchScope::All
}

/// What going over from files to directories, or back, does.
pub open spec fn entries_toggled(before: App, after: App) -> bool {
    &&& after.preview_path@.len() == 0
    &&& after.matches@.len() == 0
    &&& after.matches_by_time@.len() == 0
    &&& after.matches_files@.len() == 0
    &&& after.last_query@.len() == 0
    &&& after == App {
        dir_mode: !before.dir_mode,
        selected: 0,
        preview_path: after.preview_path,
        preview_content: PreviewContent::Nothing,
        matches: after.matches,
        matches_by_time: after.matches_by_time,
        matches_files: after.matches_files,
        last_query: after.last_query,
        last_file_count: 0,
        last_file_version: u64::MAX,
        ..before
    }
}

/// Whether the matches that a search gives stand for entries that it gives.
pub open spec fn is_sound(result: SearchResult) -> bool {
    &&& rank::in_range(result.matches@, result.files@.len())
    &&& rank::in_range(result.matches_by_time@, result.files@.len())
}

/// Whether the matches that a search gives stand for entries that it gives.
pub fn is_sound_result(result: &SearchResult) -> (r: bool)
    ensures
        r == is_sound(*result),
{
    stand_for_entries(&result.matches, result.files.len()) && stand_for_entries(
        &result.matches_by_time,
        result.files.len(),
    )
}

impl App {
    /// Whether the caches are well formed and the matches stand for entries.
    pub open spec fn wf(&self) -> bool {
        &&& self.image_cache.wf()
        &&& self.image_cache.limit() == IMAGE_CACHE_SIZE
        &&& self.video_cache.wf()
        &&& self.video_cache.limit() == VIDEO_CACHE_SIZE
        &&& rank::in_range(self.matches@, self.matches_files@.len())
        &&& rank::in_range(self.matches_by_time@, self.matches_files@.len())
    }

    /// The start: nothing is found yet, and a pool is to be loaded.
    pub fn new(dir_mode: bool, now: u64) -> (r: (Self, LoadOrder))
        ensures
            r.0.wf(),
            r.0.query@.len() == 0,
            r.0.matches@.len() == 0,
            r.0.matches_by_time@.len() == 0,
            r.0.matches_files@.len() == 0,
            r.0.next_search_id == 0,
            r.0.latest_search_id == 0,
            r.0.last_result_search_id == 0,
            r.0.selected == 0,
            r.0.active_column == Column::Ranked,
            r.0.search_scope == if dir_mode {
                SearchScope::All
            } else {
                SearchScope::Recent
            },
            r.0.last_query@.len() == 0,
            r.0.last_file_count == 0,
            r.0.last_file_version == u64::MAX,
            r.0.last_scope == r.0.search_scope,
            r.0.preview_path@.len() == 0,
            r.0.preview_content is Nothing,
            r.0.next_preview_id == 0,
            r.0.latest_preview_id == 0,
            r.0.image_cache.values() == Map::<Seq<char>, CachedImage>::empty(),
            r.0.video_cache.values() == Map::<Seq<char>, Vec<CachedImage>>::empty(),
            r.0.image_cache.used().len() == 0,
            r.0.video_cache.used().len() == 0,
            r.0.video_frame == 0,
            r.0.video_frame_time == now,
            !r.0.video_loader,
            r.0.video_loader_path@.len() == 0,
            r.0.video_loader_seen_frames == 0,
            !r.0.drag_mode,
            r.0.dir_mode == dir_mode,
            r.1 == if dir_mode {
                directory_order()
            } else {
                recent_order()
            },
            r.1 == r.0.order_for_mode(),
            r.0.image_cache.limit() == 10,
            r.0.video_cache.limit() == 5,
            r.0.chosen_path() is None,
    {
        let search_scope = if dir_mode {
            SearchScope::All
        } else {
            SearchScope::Recent
        };
        let order = if dir_mode {
            LoadOrder {
                pool: PoolId::Directories,
                dir_mode: true,
                recent_only: false,
                feeds_all: false,
            }
        } else {
            // The scan for the recent pool sees everything in the end, so it fills
            // the pool of all entries with it.
            LoadOrder { pool: PoolId::Recent, dir_mode: false, recent_only: true, feeds_all: true }
        };
        let app = App {
            query: String::new(),
            matches: Vec::new(),
            matches_by_time: Vec::new(),
            matches_files: Arc::new(Vec::new()),
            next_search_id: 0,
            latest_search_id: 0,
            last_result_search_id: 0,
            selected: 0,
            active_column: Column::Ranked,
            search_scope,
            last_query: String::new(),
            last_file_count: 0,
            last_file_version: u64::MAX,
            last_scope: search_scope,
            preview_path: String::new(),
            preview_content: PreviewContent::Nothing,
            next_preview_id: 0,
            latest_preview_id: 0,
            image_cache: LruCache::new(IMAGE_CACHE_SIZE),
            video_cache: LruCache::new(VIDEO_CACHE_SIZE),
            video_frame: 0,
            video_frame_time: now,
            video_loader: false,
            video_loader_path: String::new(),
            video_loader_seen_frames: 0,
            drag_mode: false,
            dir_mode,
        };
        (app, order)
    }

    /// The pool for a scope. With directories there is one pool for both.
    pub open spec fn pool_of(&self, scope: SearchScope) -> PoolId {
        if self.dir_mode {
            PoolId::Directories
        } else {
            match scope {
                SearchScope::Recent => PoolId::Recent,
                SearchScope::All => PoolId::All,
            }
        }
    }

    /// The pool for a scope.
    pub fn files_for_scope(&self, scope: SearchScope) -> (r: PoolId)
        ensures
            r == self.pool_of(scope),
    {
        if self.dir_mode {
            return PoolId::Directories;
        }
        match scope {
            SearchScope::Recent => PoolId::Recent,
            SearchScope::All => PoolId::All,
        }
    }

    /// The scope that is searched. With directories it is all of them.
    pub open spec fn scope(&self) -> SearchScope {
        if self.dir_mode {
            SearchScope::All
        } else {
            self.search_scope
        }
    }

    /// The scope that is searched.
    pub fn active_scope(&self) -> (r: SearchScope)
        ensures
            r == self.scope(),
    {
        if self.dir_mode {
            SearchScope::All
        } else {
            self.search_scope
        }
    }

    /// Goes over to the other scope, unless there are directories. The matches stay
    /// until new ones come, which are asked for at once.
    pub fn toggle_search_scope(&mut self) -> (r: Option<LoadOrder>)
        requires
            old(self).wf(),
        ensures
            final(self).wf(),
            scope_toggled(*old(self), *final(self)),
            r == if loads_all(*final(self)) {
                Some(all_order())
            } else {
                None
            },
            r matches Some(order) ==> order == final(self).order_for_mode(),
            !old(self).dir_mode ==> final(self).scope() != old(self).scope(),
    {
        if self.dir_mode {
            return None;
        }
        self.search_scope = self.search_scope.toggle();
        self.selected = 0;
        self.preview_path = String::new();
        self.last_file_version = u64::MAX;
        if self.search_scope == SearchScope::All {
            Some(
                LoadOrder {
                    pool: PoolId::All,
                    dir_mode: false,
                    recent_only: false,
                    feeds_all: false,
                },
            )
        } else {
            None
        }
    }

    /// The order to load the pool that is searched.
    pub open spec fn order_for_mode(&self) -> LoadOrder {
        if self.dir_mode {
            directory_order()
        } else {
            match self.search_scope {
                SearchScope::Recent => recent_order(),
                SearchScope::All => all_order(),
            }
        }
    }

    /// Goes over from files to directories, or back. Nothing is shown until new
    /// matches come.
    pub fn toggle_entry_mode(&mut self) -> (r: LoadOrder)
        requires
            old(self).wf(),
        ensures
            final(self).wf(),
            entries_toggled(*old(self), *final(self)),
            r == final(self).order_for_mode(),
    {
        self.dir_mode = !self.dir_mode;
        self.selected = 0;
        self.preview_path = String::new();
        self.preview_content = PreviewContent::Nothing;
        self.clear_matches();
        self.last_query = String::new();
        self.last_file_count = 0;
        self.last_file_version = u64::MAX;
        if self.dir_mode {
            LoadOrder {
                pool: PoolId::Directories,
                dir_mode: true,
                recent_only: false,
                feeds_all: false,
            }
        } else {
            match self.search_scope {
                SearchScope::Recent => LoadOrder {
                    pool: PoolId::Recent,
                    dir_mode: false,
                    recent_only: true,
                    feeds_all: true,
                },
                SearchScope::All => LoadOrder {
                    pool: PoolId::All,
                    dir_mode: false,
                    recent_only: false,
                    feeds_all: false,
                },
            }
        }
    }

    /// Drops the matches together with the entries that they stand for.
    pub fn clear_matches(&mut self)
        ensures
            final(self).matches@.len() == 0,
            final(self).matches_by_time@.len() == 0,
            final(self).matches_files@.len() == 0,
            *final(self) == (App {
                matches: final(self).matches,
                matches_by_time: final(self).matches_by_time,
                matches_files: final(self).matches_files,
                ..*old(self)
            }),
    {
        self.matches = Vec::new();
        self.matches_by_time = Vec::new();
        self.matches_files = Arc::new(Vec::new());
    }

    // -----------------------------------------------------------------------
    // Searches
    // -----------------------------------------------------------------------

    /// Whether the outcome of a search is that of the latest one, for the query
    /// and the scope as they are.
    pub open spec fn accepts(&self, result: SearchResult) -> bool {
        &&& result.id == self.latest_search_id
        &&& result.query@ == self.query@
        &&& result.scope == self.scope()
    }

    /// The selection when there are so many matches.
    pub open spec fn clamped(selected: usize, count: nat) -> usize {
        if selected < count {
            selected
        } else if count == 0 {
            0
        } else {
            (count - 1) as usize
        }
    }

    /// The state once the outcome of a search has come. If it is the one that is
    /// waited for, the matches are shown, with the entries that they stand for.
    pub open spec fn with_result(self, result: SearchResult) -> App {
        if self.accepts(result) {
            App {
                matches: result.matches,
                matches_by_time: result.matches_by_time,
                matches_files: result.files,
                last_result_search_id: result.id,
                selected: App::clamped(self.selected, result.matches@.len()),
                ..self
            }
        } else {
            self
        }
    }

    /// The state once the outcomes of some searches have come.
    pub open spec fn with_results(self, results: Seq<SearchResult>) -> App
        decreases results.len(),
    {
        if results.len() == 0 {
            self
        } else {
            self.with_results(results.drop_last()).with_result(results.last())
        }
    }

    /// Takes the outcome of a search.
    pub fn take_search_result(&mut self, result: SearchResult)
        requires
            old(self).wf(),
            is_sound(result),
        ensures
            final(self).wf(),
            *final(self) == old(self).with_result(result),
    {
        if result.id != self.latest_search_id || !same_text(
            result.query.as_str(),
            self.query.as_str(),
        ) || result.scope != self.active_scope() {
            return ;
        }
        self.matches = result.matches;
        self.matches_by_time = result.matches_by_time;
        self.matches_files = result.files;
        self.last_result_search_id = result.id;
        let count: usize = self.matches.len();
        if self.selected >= count {
            self.selected = if count > 0 {
                count - 1
            } else {
                0
            };
        }
    }

    /// Whether a search has to be made: the query, the scope or the entries are not
    /// those of the last one.
    pub open spec fn needs_search(&self, file_count: nat, file_version: u64) -> bool {
        ||| self.query@ != self.last_query@
        ||| file_count != self.last_file_count
        ||| file_version != self.last_file_version
        ||| self.scope() != self.last_scope
    }

    /// The state once a search of some entries has been asked for.
    pub open spec fn with_request(self, file_count: nat, file_version: u64) -> App {
        App {
            next_search_id: (self.next_search_id + 1) as u64,
            latest_search_id: (self.next_search_id + 1) as u64,
            last_query: self.query,
            last_file_count: file_count as usize,
            last_file_version: file_version,
            last_scope: self.scope(),
            ..self
        }
    }

    /// Takes the outcomes of searches, and asks for a search of these entries of the
    /// active scope if one has to be made. The same one is not asked for again.
    pub fn update_matches(
        &mut self,
        results: Vec<SearchResult>,
        files: Arc<Vec<FileEntry>>,
        file_version: u64,
    ) -> (r: Option<SearchRequest>)
        requires
            old(self).wf(),
            old(self).next_search_id < u64::MAX,
            forall|i: int| 0 <= i < results@.len() ==> #[trigger] is_sound(results@[i]),
        ensures
            final(self).wf(),
            r is Some == old(self).needs_search(files@.len(), file_version),
            r is None ==> *final(self) == old(self).with_results(results@),
            r matches Some(request) ==> {
                &&& request.id == old(self).next_search_id + 1
                &&& request.query == old(self).query
                &&& request.scope == old(self).scope()
                &&& request.file_version == file_version
                &&& request.files == files
                &&& *final(self) == old(self).with_results(results@).with_request(
                    files@.len(),
                    file_version,
                )
            },
            !final(self).needs_search(files@.len(), file_version),
    {
        let ghost all = results@;
        let mut left = results;
        let ghost mut n: int = 0;
        proof {
            assert(all.skip(0) =~= all);
            assert(all.take(0) =~= Seq::<SearchResult>::empty());
        }
        while left.len() > 0
            invariant
                0 <= n <= all.len(),
                left@ == all.skip(n),
                forall|i: int| 0 <= i < all.len() ==> #[trigger] is_sound(all[i]),
                self.wf(),
                *self == old(self).with_results(all.take(n)),
                self.next_search_id == old(self).next_search_id,
                self.query == old(self).query,
                self.last_query == old(self).last_query,
                self.last_file_count == old(self).last_file_count,
                self.last_file_version == old(self).last_file_version,
                self.last_scope == old(self).last_scope,
                self.scope() == old(self).scope(),
            decreases left.len(),
        {
            let result = left.remove(0);
            proof {
                assert(result == all[n]);
                assert(left@ =~= all.skip(n + 1));
                assert(all.take(n + 1).drop_last() =~= all.take(n));
                n = n + 1;
            }
            self.take_search_result(result);
        }
        proof {
            assert(all.take(n) =~= all);
        }
        let scope = self.active_scope();
        let file_count: usize = files.len();
        let query_changed = !same_text(self.query.as_str(), self.last_query.as_str());
        let files_changed = file_count != self.last_file_count || file_version
            != self.last_file_version;
        let scope_changed = scope != self.last_scope;
        if !query_changed && !files_changed && !scope_changed {
            return None;
        }
        let id: u64 = self.next_search_id + 1;
        self.next_search_id = id;
        self.latest_search_id = id;
        self.last_query = self.query.clone();
        self.last_file_count = file_count;
        self.last_file_version = file_version;
        self.last_scope = scope;
        Some(SearchRequest { id, query: self.query.clone(), scope, file_version, files })
    }

    /// Whether the outcome of the latest search is still waited for.
    pub fn search_pending(&self) -> (r: bool)
        ensures
            r == (self.last_result_search_id != self.latest_search_id),
    {
        self.last_result_search_id != self.latest_search_id
    }

    // -----------------------------------------------------------------------
    // The selection
    // -----------------------------------------------------------------------

    /// The matches of the active column.
    pub open spec fn shown_matches(&self) -> Seq<MatchEntry> {
        match self.active_column {
            Column::Ranked => self.matches@,
            Column::Recent => self.matches_by_time@,
        }
    }

    /// The matches of the active column.
    pub fn active_matches(&self) -> (r: &Vec<MatchEntry>)
        ensures
            r@ == self.shown_matches(),
    {
        match self.active_column {
            Column::Ranked => &self.matches,
            Column::Recent => &self.matches_by_time,
        }
    }

    /// The path of the selected entry.
    pub open spec fn chosen_path(&self) -> Option<Seq<char>> {
        let list = self.shown_matches();
        if self.selected < list.len() && list[self.selected as int].index
            < self.matches_files@.len() {
            Some(self.matches_files@[list[self.selected as int].index as int]@.path)
        } else {
            None
        }
    }

    /// The path of the selected entry.
    pub fn selected_file(&self) -> (r: Option<String>)
        ensures
            match r {
                Some(path) => self.chosen_path() == Some(path@),
                None => self.chosen_path() is None,
            },
    {
        let list = self.active_matches();
        if self.selected < list.len() {
            let index: usize = list[self.selected].index;
            if index < self.matches_files.len() {
                return Some(self.matches_files[index].path().to_owned());
            }
        }
        None
    }
}

/// Once the outcome of the latest search has come, the selection points to a match,
/// if there is one. (The two columns hold the same matches.)
pub proof fn lemma_selection_after_result(app: App, result: SearchResult)
    requires
        app.accepts(result),
        result.matches@.to_multiset() == result.matches_by_time@.to_multiset(),
    ensures
        ({
            let after = app.with_result(result);
            after.selected < after.shown_matches().len() || after.shown_matches().len() == 0
        }),
{
    result.matches@.to_multiset_ensures();
    result.matches_by_time@.to_multiset_ensures();
}

} // verus!
