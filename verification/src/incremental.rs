//! Searching again while a query is being typed.
use std::sync::Arc;
use vstd::prelude::*;
use vstd::string::*;

use crate::entry::FileEntry;
use crate::lru;
use crate::lru::LruCache;
use crate::order;
use crate::order::sort_items;
use crate::order::Ranking;
use crate::rank;
use crate::rank::fuzzy_match_with_candidates;
use crate::rank::is_empty_text;
use crate::rank::leading_matches;
use crate::rank::leading_places;
use crate::rank::lesser;
use crate::rank::score_candidate_indexes;
use crate::search;
use crate::search::MatchEntry;
use crate::search::MATCH_CANDIDATE_LIMIT;
use crate::search::MATCH_LIMIT;
use crate::search_laws;
use crate::text::begins_with;
use crate::text::chars_of;

verus! {

/// For how many queries the candidates are remembered.
pub const MATCH_QUERY_CACHE_SIZE: usize = 32;

/// How long a query must be for its candidates to be used for a longer one.
pub const INCREMENTAL_QUERY_MIN_CHARS: usize = 3;

/// How many matches among candidates are enough.
pub const INCREMENTAL_ACCEPT_MIN_MATCHES: usize = 8;

/// Which entries are searched: those used recently, or all.
#[derive(Clone, Copy, Debug, PartialEq, Eq, Structural)]
pub enum SearchScope {
    Recent,
    All,
}

impl SearchScope {
    /// The name of a scope. That of the recent one tells how far back it goes.
    pub open spec fn name(self) -> Seq<char> {
        match self {
            SearchScope::Recent => "recent (9d)"@,
            SearchScope::All => "all"@,
        }
    }

    /// The name of a scope.
    pub fn label(self) -> (r: &'static str)
        ensures
            r@ == self.name(),
    {
        match self {
            SearchScope::Recent => "recent (9d)",
            SearchScope::All => "all",
        }
    }

    /// The other scope.
    pub open spec fn other(self) -> SearchScope {
        match self {
            SearchScope::Recent => SearchScope::All,
            SearchScope::All => SearchScope::Recent,
        }
    }

    /// The other scope.
    pub fn toggle(self) -> (r: Self)
        ensures
            r == self.other(),
    {
        match self {
            SearchScope::Recent => SearchScope::All,
            SearchScope::All => SearchScope::Recent,
        }
    }
}

/// Toggling the scope twice leads back to it, toggling it once does not.
pub proof fn lemma_toggle_twice(scope: SearchScope)
    ensures
        scope.other().other() == scope,
        scope.other() != scope,
{
}

/// The name of the recent scope tells how far back it goes.
pub proof fn lemma_recent_name_tells_window()
    ensures
        SearchScope::Recent.name() == "recent ("@ + crate::clock::FILE_LOOKBACK_WINDOW@ + ")"@,
{
    reveal_strlit("recent (9d)");
    reveal_strlit("recent (");
    reveal_strlit("9d");
    reveal_strlit(")");
    assert("recent (9d)"@ =~= "recent ("@ + "9d"@ + ")"@);
}

/// What is remembered of earlier searches.
pub struct MatchSearchState {
    cache: LruCache<Vec<usize>>,
    last_query: String,
    last_scope: SearchScope,
    last_file_version: u64,
    last_file_count: usize,
    last_candidates: Vec<usize>,
}

impl MatchSearchState {
    /// The candidates remembered, by query.
    pub closed spec fn remembered(&self) -> Map<Seq<char>, Vec<usize>> {
        self.cache.values()
    }

    /// The queries remembered, in the order of their use, the latest last.
    pub closed spec fn queries(&self) -> Seq<Seq<char>> {
        self.cache.used()
    }

    /// The last query.
    pub closed spec fn query(&self) -> Seq<char> {
        self.last_query@
    }

    /// The candidates that the last query left.
    pub closed spec fn candidates(&self) -> Seq<usize> {
        self.last_candidates@
    }

    /// What was searched: the scope, and the version and number of its entries.
    pub closed spec fn searched(&self) -> (SearchScope, u64, usize) {
        (self.last_scope, self.last_file_version, self.last_file_count)
    }

    /// Whether the cache of candidates is well formed.
    pub closed spec fn wf(&self) -> bool {
        self.cache.wf() && self.cache.limit() == MATCH_QUERY_CACHE_SIZE
    }

    /// Nothing is remembered.
    pub fn new(scope: SearchScope) -> (r: Self)
        ensures
            r.wf(),
            r.remembered() == Map::<Seq<char>, Vec<usize>>::empty(),
            r.queries().len() == 0,
            r.query().len() == 0,
            r.candidates().len() == 0,
            r.searched() == (scope, u64::MAX, 0usize),
    {
        MatchSearchState {
            cache: LruCache::new(MATCH_QUERY_CACHE_SIZE),
            last_query: String::new(),
            last_scope: scope,
            last_file_version: u64::MAX,
            last_file_count: 0,
            last_candidates: Vec::new(),
        }
    }

    /// The last query.
    pub fn last_query(&self) -> (r: &str)
        ensures
            r@ == self.query(),
    {
        self.last_query.as_str()
    }

    /// The candidates that the last query left.
    pub fn last_candidates(&self) -> (r: &Vec<usize>)
        ensures
            r@ == self.candidates(),
    {
        &self.last_candidates
    }

    /// Forgets everything if other entries are searched than before.
    pub fn reset_if_stale(&mut self, scope: SearchScope, file_version: u64, file_count: usize)
        requires
            old(self).wf(),
        ensures
            final(self).wf(),
            final(self).searched() == (scope, file_version, file_count),
            old(self).searched() == (scope, file_version, file_count) ==> *final(self) == *old(
                self,
            ),
            old(self).searched() != (scope, file_version, file_count) ==> {
                &&& final(self).remembered() == Map::<Seq<char>, Vec<usize>>::empty()
                &&& final(self).queries().len() == 0
                &&& final(self).query().len() == 0
                &&& final(self).candidates().len() == 0
            },
    {
        if self.last_scope != scope || self.last_file_version != file_version
            || self.last_file_count != file_count {
            self.cache.clear();
            self.last_query = String::new();
            self.last_candidates = Vec::new();
            self.last_scope = scope;
            self.last_file_version = file_version;
            self.last_file_count = file_count;
        }
    }

    /// Remembers the candidates of a query.
    pub fn remember(&mut self, query: &str, candidates: Vec<usize>)
        requires
            old(self).wf(),
        ensures
            final(self).wf(),
            remembers(*old(self), *final(self), query@, candidates@),
    {
        let copy = copy_places(&candidates);
        self.cache.insert(query.to_owned(), copy);
        self.last_query = query.to_owned();
        self.last_candidates = candidates;
    }
}

fn copy_places(list: &Vec<usize>) -> (r: Vec<usize>)
    ensures
        r@ == list@,
{
    let mut r: Vec<usize> = Vec::new();
    let mut i: usize = 0;
    while i < list.len()
        invariant
            i <= list@.len(),
            r@ == list@.take(i as int),
        decreases list.len() - i,
    {
        r.push(list[i]);
        i += 1;
        proof {
            assert(list@.take(i as int) =~= list@.take(i - 1).push(list@[i - 1]));
        }
    }
    proof {
        assert(list@.take(list@.len() as int) =~= list@);
    }
    r
}

/// Whether the candidates of a query have been remembered, as the last ones, and
/// those of the queries not used for longest forgotten as far as room was needed.
pub open spec fn remembers(
    before: MatchSearchState,
    after: MatchSearchState,
    query: Seq<char>,
    candidates: Seq<usize>,
) -> bool {
    let n = lru::excess(before.queries().len(), MATCH_QUERY_CACHE_SIZE as nat);
    &&& after.searched() == before.searched()
    &&& after.query() == query
    &&& after.candidates() == candidates
    &&& after.queries() == before.queries().skip(n).push(query)
    &&& after.remembered().contains_key(query)
    &&& after.remembered()[query]@ == candidates
    &&& after.remembered() == lru::forget(before.remembered(), before.queries().take(n)).insert(
        query,
        after.remembered()[query],
    )
}

/// Whether the last candidates may be used for a query: it makes the last one
/// longer, and that was long enough.
pub open spec fn extends_last(state: MatchSearchState, query: Seq<char>) -> bool {
    &&& query.len() >= INCREMENTAL_QUERY_MIN_CHARS
    &&& state.query().len() >= INCREMENTAL_QUERY_MIN_CHARS
    &&& state.query().is_prefix_of(query)
    &&& state.candidates().len() > 0
}

/// What the last candidates give for a query.
pub open spec fn from_last(
    state: MatchSearchState,
    query: Seq<char>,
    files: Seq<FileEntry>,
    limit: nat,
    candidate_limit: nat,
) -> (Seq<MatchEntry>, Seq<usize>) {
    rank::candidate_matches(
        search::terms(query),
        files,
        state.candidates(),
        limit,
        candidate_limit,
    )
}

/// Whether a query is answered from what is remembered.
pub open spec fn reuses(
    state: MatchSearchState,
    query: Seq<char>,
    files: Seq<FileEntry>,
    limit: nat,
    candidate_limit: nat,
) -> bool {
    ||| limit == 0
    ||| query.len() == 0
    ||| state.remembered().contains_key(query)
    ||| extends_last(state, query) && from_last(state, query, files, limit, candidate_limit).0.len()
        >= INCREMENTAL_ACCEPT_MIN_MATCHES
}

/// The matches for a query, given what is remembered.
pub open spec fn incremental_matches(
    state: MatchSearchState,
    query: Seq<char>,
    files: Seq<FileEntry>,
    limit: nat,
    candidate_limit: nat,
) -> Seq<MatchEntry> {
    if limit == 0 || query.len() == 0 {
        rank::query_matches(query, files, limit, candidate_limit).0
    } else if state.remembered().contains_key(query) {
        rank::candidate_matches(
            search::terms(query),
            files,
            state.remembered()[query]@,
            limit,
            candidate_limit,
        ).0
    } else if reuses(state, query, files, limit, candidate_limit) {
        from_last(state, query, files, limit, candidate_limit).0
    } else {
        rank::query_matches(query, files, limit, candidate_limit).0
    }
}

/// What is remembered after a query.
pub open spec fn incremental_step(
    before: MatchSearchState,
    after: MatchSearchState,
    query: Seq<char>,
    files: Seq<FileEntry>,
    limit: nat,
    candidate_limit: nat,
) -> bool {
    if limit == 0 {
        after == before
    } else if query.len() == 0 {
        &&& after.searched() == before.searched()
        &&& after.remembered() == before.remembered()
        &&& after.queries() == before.queries()
        &&& after.query().len() == 0
        &&& after.candidates() == rank::query_matches(query, files, limit, candidate_limit).1
    } else if before.remembered().contains_key(query) {
        &&& after.searched() == before.searched()
        &&& after.remembered() == before.remembered()
        &&& after.queries() == lru::without(before.queries(), query).push(query)
        &&& after.query() == query
        &&& after.candidates() == before.remembered()[query]@
    } else if reuses(before, query, files, limit, candidate_limit) {
        remembers(before, after, query, from_last(before, query, files, limit, candidate_limit).1)
    } else {
        remembers(
            before,
            after,
            query,
            rank::query_matches(query, files, limit, candidate_limit).1,
        )
    }
}

/// Answers a query from what is remembered, if it can be. Else nothing is changed,
/// and all entries have to be searched.
pub fn reuse_candidates(
    query: &str,
    files: &Vec<FileEntry>,
    limit: usize,
    candidate_limit: usize,
    state: &mut MatchSearchState,
) -> (r: Option<Vec<MatchEntry>>)
    requires
        old(state).wf(),
    ensures
        final(state).wf(),
        match r {
            Some(matches) => {
                &&& reuses(*old(state), query@, files@, limit as nat, candidate_limit as nat)
                &&& rank::is_ordered(matches@)
                &&& matches@.len() <= limit
                &&& rank::in_range(matches@, files@.len())
                &&& matches@ == incremental_matches(
                    *old(state),
                    query@,
                    files@,
                    limit as nat,
                    candidate_limit as nat,
                )
                &&& incremental_step(
                    *old(state),
                    *final(state),
                    query@,
                    files@,
                    limit as nat,
                    candidate_limit as nat,
                )
            },
            None => !reuses(*old(state), query@, files@, limit as nat, candidate_limit as nat)
                && *final(state) == *old(state),
        },
{
    if limit == 0 {
        return Some(Vec::new());
    }
    if is_empty_text(query) {
        let count: usize = files.len();
        state.last_query = String::new();
        state.last_candidates = leading_places(lesser(count, candidate_limit));
        return Some(leading_matches(lesser(count, limit)));
    }
    let mut known: Option<Vec<usize>> = None;
    if state.cache.has(query) {
        if let Some(cached) = state.cache.get(query) {
            known = Some(copy_places(cached));
        }
    }
    if let Some(cached) = known {
        let (matches, _) = score_candidate_indexes(query, files, &cached, limit, candidate_limit);
        state.last_query = query.to_owned();
        state.last_candidates = cached;
        return Some(matches);
    }
    let q = chars_of(query);
    let last = chars_of(state.last_query.as_str());
    if q.len() >= INCREMENTAL_QUERY_MIN_CHARS && last.len() >= INCREMENTAL_QUERY_MIN_CHARS
        && begins_with(q.as_slice(), last.as_slice()) && state.last_candidates.len() > 0 {
        let (matches, candidates) = score_candidate_indexes(
            query,
            files,
            &state.last_candidates,
            limit,
            candidate_limit,
        );
        if matches.len() >= INCREMENTAL_ACCEPT_MIN_MATCHES {
            state.remember(query, candidates);
            return Some(matches);
        }
    }
    None
}

/// Finds the entries that match a query, with the help of what is remembered of
/// earlier searches.
pub fn fuzzy_match_incremental(
    query: &str,
    files: &Vec<FileEntry>,
    limit: usize,
    candidate_limit: usize,
    state: &mut MatchSearchState,
) -> (r: Vec<MatchEntry>)
    requires
        old(state).wf(),
    ensures
        final(state).wf(),
        rank::is_ordered(r@),
        r@.len() <= limit,
        rank::in_range(r@, files@.len()),
        r@ == incremental_matches(
            *old(state),
            query@,
            files@,
            limit as nat,
            candidate_limit as nat,
        ),
        incremental_step(
            *old(state),
            *final(state),
            query@,
            files@,
            limit as nat,
            candidate_limit as nat,
        ),
{
    match reuse_candidates(query, files, limit, candidate_limit, state) {
        Some(matches) => matches,
        None => {
            let (matches, candidates) = fuzzy_match_with_candidates(
                query,
                files,
                limit,
                candidate_limit,
            );
            state.remember(query, candidates);
            matches
        },
    }
}

/// With nothing remembered, a query finds what a search of all entries finds.
pub proof fn lemma_fresh_search(
    state: MatchSearchState,
    query: Seq<char>,
    files: Seq<FileEntry>,
    limit: nat,
    candidate_limit: nat,
)
    requires
        state.remembered() == Map::<Seq<char>, Vec<usize>>::empty(),
        state.query().len() == 0,
    ensures
        incremental_matches(state, query, files, limit, candidate_limit) == rank::query_matches(
            query,
            files,
            limit,
            candidate_limit,
        ).0,
{
}

// ---------------------------------------------------------------------------
// Requests
// ---------------------------------------------------------------------------

/// A search that is asked for.
pub struct SearchRequest {
    pub id: u64,
    pub query: String,
    pub scope: SearchScope,
    pub file_version: u64,
    pub files: Arc<Vec<FileEntry>>,
}

/// The outcome of a search. The matches stand for entries of `files`, and of no
/// other list.
pub struct SearchResult {
    pub id: u64,
    pub query: String,
    pub scope: SearchScope,
    pub files: Arc<Vec<FileEntry>>,
    pub matches: Vec<MatchEntry>,
    pub matches_by_time: Vec<MatchEntry>,
}

/// Whether one match comes before another in the order of use: the entry used
/// last first, then the better score.
pub open spec fn used_before(files: Seq<FileEntry>, a: MatchEntry, b: MatchEntry) -> bool {
    let s = files[a.index as int]@.recency_time.nanos;
    let t = files[b.index as int]@.recency_time.nanos;
    s > t || (s == t && a.score > b.score)
}

/// The order of matches by use.
pub open spec fn by_time(files: Seq<FileEntry>) -> spec_fn(MatchEntry, MatchEntry) -> bool {
    |a: MatchEntry, b: MatchEntry| used_before(files, a, b)
}

/// Whether matches stand by the times at which their entries were used: none in front of one
/// that was used later, and of those used at the same time none in front of a better one.
pub open spec fn latest_first(matches: Seq<MatchEntry>, files: Seq<FileEntry>) -> bool {
    forall|i: int, j: int|
        0 <= i < j < matches.len() ==> {
            let s = files[(#[trigger] matches[i]).index as int]@.recency_time.nanos;
            let t = files[(#[trigger] matches[j]).index as int]@.recency_time.nanos;
            s >= t && (s == t ==> matches[i].score >= matches[j].score)
        }
}

/// The matches by use are the matches of the query, the latest used first.
pub proof fn lemma_latest_first(matches: Seq<MatchEntry>, files: Seq<FileEntry>)
    requires
        matches.len() <= usize::MAX,
    ensures
        latest_first(order::ranked(matches, by_time(files)), files),
        order::ranked(matches, by_time(files)).to_multiset() == matches.to_multiset(),
{
    let before = by_time(files);
    assert(order::strict_weak(before));
    order::lemma_ranked(matches, before);
    let sorted = order::ranked(matches, before);
    assert forall|i: int, j: int| 0 <= i < j < sorted.len() implies {
        let s = files[(#[trigger] sorted[i]).index as int]@.recency_time.nanos;
        let t = files[(#[trigger] sorted[j]).index as int]@.recency_time.nanos;
        s >= t && (s == t ==> sorted[i].score >= sorted[j].score)
    } by {
        assert(!before(sorted[j], sorted[i]));
    }
}

struct ByTime<'a> {
    files: &'a Vec<FileEntry>,
}

impl<'a> Ranking<MatchEntry> for ByTime<'a> {
    closed spec fn accepts(&self, item: MatchEntry) -> bool {
        item.index < self.files@.len()
    }

    closed spec fn before(&self) -> spec_fn(MatchEntry, MatchEntry) -> bool {
        by_time(self.files@)
    }

    proof fn strict_weak_order(&self) {
    }

    fn is_before(&self, a: &MatchEntry, b: &MatchEntry) -> (r: bool) {
        let s = self.files[a.index].recency_time();
        let t = self.files[b.index].recency_time();
        s.nanos > t.nanos || (s.nanos == t.nanos && a.score > b.score)
    }
}

/// The outcome of a search that found some matches: these, and the same by use.
pub fn finish_search(request: SearchRequest, matches: Vec<MatchEntry>) -> (r: SearchResult)
    requires
        rank::in_range(matches@, request.files@.len()),
    ensures
        r.id == request.id,
        r.query == request.query,
        r.scope == request.scope,
        r.files == request.files,
        r.matches == matches,
        rank::in_range(r.matches_by_time@, request.files@.len()),
        r.matches_by_time@ == order::ranked(matches@, by_time(request.files@)),
        r.matches_by_time@.to_multiset() == matches@.to_multiset(),
        latest_first(r.matches_by_time@, request.files@),
{
    let ranking = ByTime { files: &*request.files };
    let matches_by_time = sort_items(&ranking, &matches);
    proof {
        let size: usize = matches.len();
        ranking.strict_weak_order();
        order::lemma_ranked(matches@, ranking.before());
        lemma_latest_first(matches@, request.files@);
        let sorted = matches_by_time@;
        assert forall|i: int| 0 <= i < sorted.len() implies (#[trigger] sorted[i]).index
            < request.files@.len() by {
            matches@.to_multiset_ensures();
            sorted.to_multiset_ensures();
            assert(sorted.to_multiset() =~= matches@.to_multiset());
            assert(sorted.contains(sorted[i]));
            assert(matches@.to_multiset().count(sorted[i]) > 0);
            assert(matches@.contains(sorted[i]));
        }
    }
    SearchResult {
        id: request.id,
        query: request.query,
        scope: request.scope,
        files: request.files,
        matches,
        matches_by_time,
    }
}

/// Whether nothing is remembered.
pub open spec fn is_blank(state: MatchSearchState) -> bool {
    &&& state.remembered() == Map::<Seq<char>, Vec<usize>>::empty()
    &&& state.queries().len() == 0
    &&& state.query().len() == 0
    &&& state.candidates().len() == 0
}

/// Carries out a search. What is remembered is dropped first if it is about other
/// entries.
pub fn answer_search(request: SearchRequest, state: &mut MatchSearchState) -> (r: SearchResult)
    requires
        old(state).wf(),
    ensures
        final(state).wf(),
        final(state).searched() == (
            request.scope,
            request.file_version,
            request.files@.len() as usize,
        ),
        r.id == request.id,
        r.query == request.query,
        r.scope == request.scope,
        r.files == request.files,
        rank::in_range(r.matches@, r.files@.len()),
        rank::in_range(r.matches_by_time@, r.files@.len()),
        rank::is_ordered(r.matches@),
        r.matches@.len() <= MATCH_LIMIT,
        r.matches_by_time@ == order::ranked(r.matches@, by_time(r.files@)),
        r.matches_by_time@.to_multiset() == r.matches@.to_multiset(),
        latest_first(r.matches_by_time@, r.files@),
        old(state).searched() == final(state).searched() ==> r.matches@ == incremental_matches(
            *old(state),
            request.query@,
            request.files@,
            MATCH_LIMIT as nat,
            MATCH_CANDIDATE_LIMIT as nat,
        ) && incremental_step(
            *old(state),
            *final(state),
            request.query@,
            request.files@,
            MATCH_LIMIT as nat,
            MATCH_CANDIDATE_LIMIT as nat,
        ),
        old(state).searched() != final(state).searched() ==> r.matches@ == rank::query_matches(
            request.query@,
            request.files@,
            MATCH_LIMIT as nat,
            MATCH_CANDIDATE_LIMIT as nat,
        ).0 && exists|blank: MatchSearchState|
            is_blank(blank) && blank.searched() == final(state).searched()
                && #[trigger] incremental_step(
                blank,
                *final(state),
                request.query@,
                request.files@,
                MATCH_LIMIT as nat,
                MATCH_CANDIDATE_LIMIT as nat,
            ),
{
    let count: usize = request.files.len();
    state.reset_if_stale(request.scope, request.file_version, count);
    let ghost fresh = *state;
    let matches = fuzzy_match_incremental(
        request.query.as_str(),
        &*request.files,
        MATCH_LIMIT,
        MATCH_CANDIDATE_LIMIT,
        state,
    );
    proof {
        assert(old(state).searched() != state.searched() ==> is_blank(fresh));
    }
    finish_search(request, matches)
}

// ---------------------------------------------------------------------------
// The same query again
// ---------------------------------------------------------------------------

/// A query that is asked again, while its candidates are still remembered, gives the matches
/// that it gave before, all of them and in the same order.
pub proof fn lemma_same_query_again(
    before: MatchSearchState,
    after: MatchSearchState,
    later: MatchSearchState,
    query: Seq<char>,
    files: Seq<FileEntry>,
    limit: nat,
    candidate_limit: nat,
)
    requires
        query.len() > 0,
        files.len() <= usize::MAX,
        0 < limit <= candidate_limit,
        before.candidates().no_duplicates(),
        incremental_step(before, after, query, files, limit, candidate_limit),
        later.remembered().contains_key(query),
        later.remembered()[query]@ == after.remembered()[query]@,
    ensures
        incremental_matches(later, query, files, limit, candidate_limit) == incremental_matches(
            before,
            query,
            files,
            limit,
            candidate_limit,
        ),
{
    search_laws::lemma_candidates_give_the_same(query, files, limit, candidate_limit);
    search_laws::lemma_fewer_candidates_give_the_same(
        query,
        files,
        before.candidates(),
        limit,
        candidate_limit,
    );
}

/// To ask something else in between, such as a longer query, and then to go back to the first
/// one gives its matches again, as long as there is room to remember both.
pub proof fn lemma_back_to_the_query(
    before: MatchSearchState,
    after: MatchSearchState,
    last: MatchSearchState,
    query: Seq<char>,
    other: Seq<char>,
    files: Seq<FileEntry>,
    limit: nat,
    candidate_limit: nat,
)
    requires
        query.len() > 0,
        other != query,
        files.len() <= usize::MAX,
        0 < limit <= candidate_limit,
        before.candidates().no_duplicates(),
        incremental_step(before, after, query, files, limit, candidate_limit),
        incremental_step(after, last, other, files, limit, candidate_limit),
        after.queries().len() < 32,
    ensures
        incremental_matches(last, query, files, limit, candidate_limit) == incremental_matches(
            before,
            query,
            files,
            limit,
            candidate_limit,
        ),
{
    assert(after.queries().take(0) =~= Seq::<Seq<char>>::empty());
    lru::lemma_forget(after.remembered(), after.queries().take(0), query);
    lemma_same_query_again(before, after, last, query, files, limit, candidate_limit);
}

/// What is remembered of a query are its candidates, and they stay such that no place comes
/// twice.
pub proof fn lemma_candidates_stay_apart(
    before: MatchSearchState,
    after: MatchSearchState,
    query: Seq<char>,
    files: Seq<FileEntry>,
    limit: nat,
    candidate_limit: nat,
)
    requires
        files.len() <= usize::MAX,
        0 < limit <= candidate_limit,
        before.candidates().no_duplicates(),
        before.remembered().contains_key(query) ==> before.remembered()[query]@.no_duplicates(),
        incremental_step(before, after, query, files, limit, candidate_limit),
    ensures
        after.candidates().no_duplicates(),
        query.len() > 0 ==> after.remembered().contains_key(query)
            && after.remembered()[query]@.no_duplicates() && after.query() == query
            && after.candidates() == after.remembered()[query]@,
{
    if query.len() > 0 {
        search_laws::lemma_candidates_give_the_same(query, files, limit, candidate_limit);
        search_laws::lemma_fewer_candidates_give_the_same(
            query,
            files,
            before.candidates(),
            limit,
            candidate_limit,
        );
    }
}

/// A query that is not remembered, and is answered with fewer than eight matches, is answered as
/// by a search of all entries.
pub proof fn lemma_few_matches_are_all(
    state: MatchSearchState,
    query: Seq<char>,
    files: Seq<FileEntry>,
    limit: nat,
    candidate_limit: nat,
)
    requires
        !state.remembered().contains_key(query),
        incremental_matches(state, query, files, limit, candidate_limit).len() < 8,
    ensures
        incremental_matches(state, query, files, limit, candidate_limit) == rank::query_matches(
            query,
            files,
            limit,
            candidate_limit,
        ).0,
{
}

/// A query of fewer than three characters, one after such a query, and one that does not go on
/// from the last one, are answered as by a search of all entries, unless they are remembered.
pub proof fn lemma_other_queries_search_all(
    state: MatchSearchState,
    query: Seq<char>,
    files: Seq<FileEntry>,
    limit: nat,
    candidate_limit: nat,
)
    requires
        !state.remembered().contains_key(query),
        query.len() < 3 || state.query().len() < 3 || !(exists|more: Seq<char>|
            state.query() + more == query),
    ensures
        incremental_matches(state, query, files, limit, candidate_limit) == rank::query_matches(
            query,
            files,
            limit,
            candidate_limit,
        ).0,
{
    if state.query().is_prefix_of(query) {
        let more = query.skip(state.query().len() as int);
        assert(state.query() + more =~= query);
    }
}

/// Whatever is remembered, each match that is shown is one of an entry that the query finds, and
/// no entry is shown twice; better matches stand first.
pub proof fn lemma_incremental_matches_are_found(
    state: MatchSearchState,
    query: Seq<char>,
    files: Seq<FileEntry>,
    limit: nat,
    candidate_limit: nat,
    k: int,
)
    requires
        query.len() > 0,
        limit > 0,
        files.len() <= usize::MAX,
        state.candidates().no_duplicates(),
        state.remembered().contains_key(query) ==> state.remembered()[query]@.no_duplicates(),
        0 <= k < incremental_matches(state, query, files, limit, candidate_limit).len(),
    ensures
        ({
            let shown = incremental_matches(state, query, files, limit, candidate_limit);
            let t = search::terms(query);
            &&& shown[k].index < files.len()
            &&& search_laws::found_score(t, files, true, shown[k].index as int) == Some(
                shown[k].score,
            )
            &&& forall|j: int|
                k < j < shown.len() ==> (#[trigger] shown[j]).index != shown[k].index
                    && shown[j].score <= shown[k].score
        }),
{
    search_laws::lemma_search_shows_best(query, files, limit, candidate_limit);
    search_laws::lemma_candidates_show_best(
        query,
        files,
        state.candidates(),
        limit,
        candidate_limit,
    );
    if state.remembered().contains_key(query) {
        search_laws::lemma_candidates_show_best(
            query,
            files,
            state.remembered()[query]@,
            limit,
            candidate_limit,
        );
    }
    let shown = incremental_matches(state, query, files, limit, candidate_limit);
    assert(shown[k].index < files.len());
}

/// The candidates of the last query are used for one that it is the start of, from three
/// characters on, and only if they give eight matches or more.
pub proof fn lemma_when_candidates_are_used(
    state: MatchSearchState,
    query: Seq<char>,
    files: Seq<FileEntry>,
    limit: nat,
    candidate_limit: nat,
)
    requires
        limit > 0,
        query.len() > 0,
        !state.remembered().contains_key(query),
    ensures
        query.len() < 3 || state.query().len() < 3 ==> !reuses(
            state,
            query,
            files,
            limit,
            candidate_limit,
        ),
        state.query().len() >= 3 && state.query().is_prefix_of(query) && state.candidates().len()
            > 0 ==> (reuses(state, query, files, limit, candidate_limit) <==> from_last(
            state,
            query,
            files,
            limit,
            candidate_limit,
        ).0.len() >= 8),
{
}

/// What was remembered stays so while there are fewer than 32 queries.
pub proof fn lemma_queries_stay_remembered(
    before: MatchSearchState,
    after: MatchSearchState,
    query: Seq<char>,
    candidates: Seq<usize>,
    other: Seq<char>,
)
    requires
        remembers(before, after, query, candidates),
        other != query,
        before.remembered().contains_key(other),
        before.queries().len() < 32 || (before.queries().len() == 32 && before.queries()[0]
            != other),
    ensures
        after.remembered().contains_key(other),
        after.remembered()[other] == before.remembered()[other],
        after.remembered().contains_key(query),
        after.remembered()[query]@ == candidates,
{
    let n = lru::excess(before.queries().len(), MATCH_QUERY_CACHE_SIZE as nat);
    let gone = before.queries().take(n);
    lru::lemma_forget(before.remembered(), gone, other);
    if gone.contains(other) {
        assert(gone[0] == before.queries()[0]);
    }
}

} // verus!
