//! Ranking matches, and the candidates for a longer query.
use std::cmp::Ordering;
use std::collections::HashSet;
use vstd::prelude::*;
use vstd::string::*;

use crate::entry::FileEntry;
use crate::history;
use crate::order;
use crate::order::sort_items;
use crate::order::Ranking;
use crate::search;
use crate::search::scan_chunk;
use crate::search::score_in_pass;
use crate::search::MatchEntry;
use crate::search::QueryTerms;
use crate::search::Scan;
use crate::search::ScanPass;
use crate::search::Terms;
use crate::text::chars_of;

verus! {

/// Whether one match is shown before another: the better score first, then the
/// earlier entry.
pub open spec fn match_before(a: MatchEntry, b: MatchEntry) -> bool {
    a.score > b.score || (a.score == b.score && a.index < b.index)
}

/// The order in which matches are shown.
pub open spec fn best_first() -> spec_fn(MatchEntry, MatchEntry) -> bool {
    |a: MatchEntry, b: MatchEntry| match_before(a, b)
}

/// Compares two matches by the order in which they are shown.
pub fn compare_match_entries(a: &MatchEntry, b: &MatchEntry) -> (r: Ordering)
    ensures
        r == if match_before(*a, *b) {
            Ordering::Less
        } else if match_before(*b, *a) {
            Ordering::Greater
        } else {
            Ordering::Equal
        },
{
    if a.score > b.score {
        Ordering::Less
    } else if a.score < b.score {
        Ordering::Greater
    } else if a.index < b.index {
        Ordering::Less
    } else if a.index > b.index {
        Ordering::Greater
    } else {
        Ordering::Equal
    }
}

struct BestFirst;

impl Ranking<MatchEntry> for BestFirst {
    open spec fn accepts(&self, item: MatchEntry) -> bool {
        true
    }

    open spec fn before(&self) -> spec_fn(MatchEntry, MatchEntry) -> bool {
        best_first()
    }

    proof fn strict_weak_order(&self) {
    }

    fn is_before(&self, a: &MatchEntry, b: &MatchEntry) -> (r: bool) {
        match compare_match_entries(a, b) {
            Ordering::Less => true,
            _ => false,
        }
    }
}

pub open spec fn max2(a: nat, b: nat) -> nat {
    if a >= b {
        a
    } else {
        b
    }
}

/// The matches that are kept: the best ones, as many as are shown or can be
/// candidates.
pub open spec fn kept_matches(results: Seq<MatchEntry>, limit: nat, candidate_limit: nat) -> Seq<
    MatchEntry,
> {
    let sorted = order::ranked(results, best_first());
    let keep = max2(candidate_limit, limit);
    if keep > 0 {
        history::at_most(sorted, keep)
    } else {
        sorted
    }
}

/// The places of the entries of some matches.
pub open spec fn indexes_of(matches: Seq<MatchEntry>) -> Seq<usize> {
    matches.map_values(|m: MatchEntry| m.index)
}

fn indexes_in(matches: &Vec<MatchEntry>) -> (r: Vec<usize>)
    ensures
        r@ == indexes_of(matches@),
{
    let mut r: Vec<usize> = Vec::new();
    let mut i: usize = 0;
    while i < matches.len()
        invariant
            i <= matches@.len(),
            r@ == indexes_of(matches@).take(i as int),
        decreases matches.len() - i,
    {
        r.push(matches[i].index);
        i += 1;
        proof {
            assert(indexes_of(matches@).take(i as int) =~= indexes_of(matches@).take(i - 1).push(
                matches@[i - 1].index,
            ));
        }
    }
    proof {
        assert(indexes_of(matches@).take(matches@.len() as int) =~= indexes_of(matches@));
    }
    r
}

/// Sorts matches, and keeps the best of them to show and as candidates.
pub fn trim_sort_matches(results: Vec<MatchEntry>, limit: usize, candidate_limit: usize) -> (r: (
    Vec<MatchEntry>,
    Vec<usize>,
))
    ensures
        r.0@ == history::at_most(
            kept_matches(results@, limit as nat, candidate_limit as nat),
            limit as nat,
        ),
        r.1@ == indexes_of(kept_matches(results@, limit as nat, candidate_limit as nat)),
{
    let ranking = BestFirst;
    let mut sorted = sort_items(&ranking, &results);
    let keep: usize = if candidate_limit >= limit {
        candidate_limit
    } else {
        limit
    };
    if keep > 0 && sorted.len() > keep {
        sorted.truncate(keep);
    }
    let ghost kept = kept_matches(results@, limit as nat, candidate_limit as nat);
    proof {
        assert(sorted@ =~= kept);
    }
    let candidates = indexes_in(&sorted);
    if sorted.len() > limit {
        sorted.truncate(limit);
        proof {
            assert(sorted@ =~= kept.take(limit as int));
        }
    }
    (sorted, candidates)
}

/// A pool of candidates with more of them, none twice, until it is full.
pub open spec fn filled_pool(candidates: Seq<usize>, more: Seq<usize>, limit: nat) -> Seq<usize>
    decreases more.len(),
{
    if more.len() == 0 {
        candidates
    } else {
        let pool = filled_pool(candidates, more.drop_last(), limit);
        if pool.len() >= limit || pool.contains(more.last()) {
            pool
        } else {
            pool.push(more.last())
        }
    }
}

/// The candidates, cut to the limit, or filled up from others where they are
/// fewer.
pub open spec fn merged_pool(candidates: Seq<usize>, fallback: Seq<usize>, limit: nat) -> Seq<
    usize,
> {
    if candidates.len() >= limit {
        candidates.take(limit as int)
    } else {
        filled_pool(candidates, fallback, limit)
    }
}

/// Once a pool is full, more candidates change nothing.
proof fn lemma_full_pool(candidates: Seq<usize>, more: Seq<usize>, limit: nat, i: int)
    requires
        0 <= i <= more.len(),
        filled_pool(candidates, more.take(i), limit).len() >= limit,
    ensures
        filled_pool(candidates, more, limit) == filled_pool(candidates, more.take(i), limit),
    decreases more.len(),
{
    if i < more.len() {
        assert(more.drop_last().take(i) =~= more.take(i));
        lemma_full_pool(candidates, more.drop_last(), limit, i);
    } else {
        assert(more.take(i) =~= more);
    }
}

/// A pool never has more candidates than the limit, and those it had come first.
pub proof fn lemma_merged_pool(candidates: Seq<usize>, fallback: Seq<usize>, limit: nat)
    ensures
        merged_pool(candidates, fallback, limit).len() <= limit,
        history::at_most(candidates, limit).is_prefix_of(
            merged_pool(candidates, fallback, limit),
        ),
        forall|x: usize|
            #![trigger merged_pool(candidates, fallback, limit).contains(x)]
            merged_pool(candidates, fallback, limit).contains(x) ==> candidates.contains(x)
                || fallback.contains(x),
    decreases fallback.len(),
{
    if candidates.len() >= limit {
        let cut = candidates.take(limit as int);
        assert(history::at_most(candidates, limit) =~= cut);
        assert forall|x: usize| cut.contains(x) implies candidates.contains(x) by {
            let k = choose|k: int| 0 <= k < cut.len() && cut[k] == x;
            assert(candidates[k] == x);
        }
    } else if fallback.len() > 0 {
        let init = fallback.drop_last();
        lemma_merged_pool(candidates, init, limit);
        let before = merged_pool(candidates, init, limit);
        let after = merged_pool(candidates, fallback, limit);
        assert forall|x: usize| #[trigger] after.contains(x) implies candidates.contains(x)
            || fallback.contains(x) by {
            let k = choose|k: int| 0 <= k < after.len() && after[k] == x;
            if k < before.len() {
                assert(before[k] == x);
                assert(before.contains(x));
                if init.contains(x) {
                    let m = choose|m: int| 0 <= m < init.len() && init[m] == x;
                    assert(fallback[m] == x);
                }
            } else {
                assert(fallback[fallback.len() - 1] == x);
            }
        }
    }
}

fn set_of(list: &Vec<usize>) -> (r: HashSet<usize>)
    ensures
        forall|x: usize| #[trigger] r@.contains(x) <==> list@.contains(x),
{
    broadcast use vstd::std_specs::hash::group_hash_axioms;

    let mut r: HashSet<usize> = HashSet::new();
    let mut i: usize = 0;
    while i < list.len()
        invariant
            i <= list@.len(),
            forall|x: usize| #[trigger] r@.contains(x) <==> list@.take(i as int).contains(x),
        decreases list.len() - i,
    {
        let ghost before = r@;
        r.insert(list[i]);
        proof {
            let here = list@.take(i + 1);
            let earlier = list@.take(i as int);
            assert(here =~= earlier.push(list@[i as int]));
            assert forall|x: usize| #[trigger] r@.contains(x) <==> here.contains(x) by {
                if earlier.contains(x) {
                    let k = choose|k: int| 0 <= k < earlier.len() && earlier[k] == x;
                    assert(here[k] == x);
                }
                if here.contains(x) && x != list@[i as int] {
                    let k = choose|k: int| 0 <= k < here.len() && here[k] == x;
                    assert(earlier[k] == x);
                }
                assert(here[i as int] == list@[i as int]);
            }
        }
        i += 1;
    }
    proof {
        assert(list@.take(list@.len() as int) =~= list@);
    }
    r
}

/// Fills a pool of candidates up from others, until it is full.
pub fn merge_candidate_pool(
    candidates: Vec<usize>,
    fallback: &Vec<usize>,
    candidate_limit: usize,
) -> (r: Vec<usize>)
    ensures
        r@ == merged_pool(candidates@, fallback@, candidate_limit as nat),
{
    broadcast use vstd::std_specs::hash::group_hash_axioms;

    let ghost given = candidates@;
    let mut pool = candidates;
    if pool.len() >= candidate_limit {
        pool.truncate(candidate_limit);
        proof {
            assert(pool@ =~= given.take(candidate_limit as int));
        }
        return pool;
    }
    let mut seen = set_of(&pool);
    let mut i: usize = 0;
    while i < fallback.len()
        invariant
            i <= fallback@.len(),
            given == candidates@,
            given.len() < candidate_limit,
            pool@.len() < candidate_limit,
            pool@ == filled_pool(given, fallback@.take(i as int), candidate_limit as nat),
            forall|x: usize| #[trigger] seen@.contains(x) <==> pool@.contains(x),
        decreases fallback.len() - i,
    {
        let x: usize = fallback[i];
        let ghost before = pool@;
        let ghost seen_before = seen@;
        proof {
            assert(fallback@.take(i + 1).drop_last() =~= fallback@.take(i as int));
        }
        if seen.insert(x) {
            pool.push(x);
            proof {
                assert forall|y: usize| #[trigger] seen@.contains(y) <==> pool@.contains(y) by {
                    if before.contains(y) {
                        let k = choose|k: int| 0 <= k < before.len() && before[k] == y;
                        assert(pool@[k] == y);
                    }
                    if pool@.contains(y) && y != x {
                        let k = choose|k: int| 0 <= k < pool@.len() && pool@[k] == y;
                        assert(before[k] == y);
                    }
                    assert(pool@[before.len() as int] == x);
                    assert(seen_before.contains(y) <==> before.contains(y));
                }
            }
            if pool.len() >= candidate_limit {
                proof {
                    lemma_full_pool(given, fallback@, candidate_limit as nat, i + 1);
                }
                return pool;
            }
        } else {
            proof {
                assert(seen@ =~= seen_before);
            }
        }
        i += 1;
    }
    proof {
        assert(fallback@.take(fallback@.len() as int) =~= fallback@);
    }
    pool
}

/// What is shown of some results, and the candidates for a longer query.
pub open spec fn concluded(
    results: Seq<MatchEntry>,
    fallback: Seq<usize>,
    limit: nat,
    candidate_limit: nat,
) -> (Seq<MatchEntry>, Seq<usize>) {
    let kept = kept_matches(results, limit, candidate_limit);
    (
        history::at_most(kept, limit),
        merged_pool(indexes_of(kept), fallback, candidate_limit),
    )
}

/// Whether an entry has a score in a pass.
pub open spec fn has_score(t: Terms, path: Seq<char>, pass: ScanPass, score: i128) -> bool {
    match search::pass_score(t, path, pass) {
        Some(v) => score == v as i128,
        None => false,
    }
}

/// Whether a match stands for an entry and has a score that the entry has for the
/// query, with typos or without.
pub open spec fn is_sound(t: Terms, files: Seq<FileEntry>, m: MatchEntry) -> bool {
    &&& m.index < files.len()
    &&& has_score(t, files[m.index as int]@.path, ScanPass::Plain, m.score) || has_score(
        t,
        files[m.index as int]@.path,
        ScanPass::Typo,
        m.score,
    )
}

/// Whether all matches stand for entries and have scores that these have.
pub open spec fn all_sound(t: Terms, files: Seq<FileEntry>, matches: Seq<MatchEntry>) -> bool {
    forall|i: int| 0 <= i < matches.len() ==> is_sound(t, files, #[trigger] matches[i])
}

/// Whether no match is shown before a better one.
pub open spec fn is_ordered(matches: Seq<MatchEntry>) -> bool {
    forall|i: int, j: int|
        0 <= i < j < matches.len() ==> !match_before(
            #[trigger] matches[j],
            #[trigger] matches[i],
        )
}

/// Whether all matches stand for entries.
pub open spec fn in_range(matches: Seq<MatchEntry>, count: nat) -> bool {
    forall|i: int| 0 <= i < matches.len() ==> (#[trigger] matches[i]).index < count
}

/// Whether all matches stand for entries.
pub fn stand_for_entries(matches: &Vec<MatchEntry>, count: usize) -> (r: bool)
    ensures
        r == in_range(matches@, count as nat),
{
    let mut i: usize = 0;
    while i < matches.len()
        invariant
            i <= matches@.len(),
            forall|k: int| 0 <= k < i ==> (#[trigger] matches@[k]).index < count,
        decreases matches.len() - i,
    {
        if matches[i].index >= count {
            return false;
        }
        i += 1;
    }
    true
}

/// What holds of the outcome of every search: no match is shown before a better
/// one, and there are no more matches and candidates than asked for.
pub open spec fn is_presentable(
    found: (Seq<MatchEntry>, Seq<usize>),
    limit: nat,
    candidate_limit: nat,
) -> bool {
    &&& is_ordered(found.0)
    &&& found.0.len() <= limit
    &&& found.1.len() <= candidate_limit
}

proof fn lemma_concluded(
    results: Seq<MatchEntry>,
    fallback: Seq<usize>,
    limit: nat,
    candidate_limit: nat,
)
    requires
        results.len() <= usize::MAX,
    ensures
        is_presentable(
            concluded(results, fallback, limit, candidate_limit),
            limit,
            candidate_limit,
        ),
        forall|i: int|
            0 <= i < concluded(results, fallback, limit, candidate_limit).0.len()
                ==> results.contains(
                #[trigger] concluded(results, fallback, limit, candidate_limit).0[i],
            ),
{
    broadcast use vstd::seq_lib::group_to_multiset_ensures;

    let ranking = BestFirst;
    ranking.strict_weak_order();
    order::lemma_ranked(results, best_first());
    let sorted = order::ranked(results, best_first());
    let shown = concluded(results, fallback, limit, candidate_limit).0;
    assert forall|i: int| 0 <= i < shown.len() implies results.contains(#[trigger] shown[i]) by {
        assert(shown[i] == sorted[i]);
        assert(sorted.contains(sorted[i]));
        assert(sorted.to_multiset().count(sorted[i]) > 0);
        assert(results.to_multiset().count(sorted[i]) > 0);
    }
    assert forall|i: int, j: int| 0 <= i < j < shown.len() implies !match_before(
        #[trigger] shown[j],
        #[trigger] shown[i],
    ) by {
        assert(!(best_first())(sorted[j], sorted[i]));
    }
    lemma_merged_pool(
        indexes_of(kept_matches(results, limit, candidate_limit)),
        fallback,
        candidate_limit,
    );
}

proof fn lemma_scan_sound(t: Terms, files: Seq<FileEntry>, pass: ScanPass, to: int)
    requires
        0 <= to <= files.len() <= usize::MAX,
    ensures
        all_sound(t, files, search::scan_results(t, files, pass, 0, to)),
    decreases to,
{
    if to > 0 {
        lemma_scan_sound(t, files, pass, to - 1);
    }
}

proof fn lemma_with_others_sound(
    t: Terms,
    files: Seq<FileEntry>,
    matches: Seq<MatchEntry>,
    others: Seq<MatchEntry>,
)
    requires
        all_sound(t, files, matches),
        all_sound(t, files, others),
    ensures
        all_sound(t, files, with_others(matches, others)),
    decreases others.len(),
{
    if others.len() > 0 {
        let init = others.drop_last();
        assert forall|i: int| 0 <= i < init.len() implies is_sound(t, files, #[trigger] init[i]) by {
            assert(init[i] == others[i]);
        }
        lemma_with_others_sound(t, files, matches, init);
        assert(is_sound(t, files, others[others.len() - 1]));
    }
}

proof fn lemma_candidates_sound(t: Terms, files: Seq<FileEntry>, indexes: Seq<usize>)
    ensures
        all_sound(t, files, candidate_results(t, files, indexes)),
    decreases indexes.len(),
{
    if indexes.len() > 0 {
        lemma_candidates_sound(t, files, indexes.drop_last());
    }
}

proof fn lemma_candidate_typos_sound(
    t: Terms,
    files: Seq<FileEntry>,
    indexes: Seq<usize>,
    matches: Seq<MatchEntry>,
)
    requires
        all_sound(t, files, matches),
    ensures
        all_sound(t, files, with_candidate_typos(t, files, indexes, matches)),
    decreases indexes.len(),
{
    if indexes.len() > 0 {
        lemma_candidate_typos_sound(t, files, indexes.drop_last(), matches);
    }
}

proof fn lemma_shown_sound(
    t: Terms,
    files: Seq<FileEntry>,
    results: Seq<MatchEntry>,
    shown: Seq<MatchEntry>,
)
    requires
        all_sound(t, files, results),
        forall|i: int| 0 <= i < shown.len() ==> results.contains(#[trigger] shown[i]),
    ensures
        all_sound(t, files, shown),
{
    assert forall|i: int| 0 <= i < shown.len() implies is_sound(t, files, #[trigger] shown[i]) by {
        assert(results.contains(shown[i]));
        let k = choose|k: int| 0 <= k < results.len() && results[k] == shown[i];
        assert(is_sound(t, files, results[k]));
    }
}

fn conclude(
    results: Vec<MatchEntry>,
    fallback: &Vec<usize>,
    limit: usize,
    candidate_limit: usize,
) -> (r: (Vec<MatchEntry>, Vec<usize>))
    ensures
        (r.0@, r.1@) == concluded(results@, fallback@, limit as nat, candidate_limit as nat),
        is_presentable((r.0@, r.1@), limit as nat, candidate_limit as nat),
        forall|i: int| 0 <= i < r.0@.len() ==> results@.contains(#[trigger] r.0@[i]),
{
    let size: usize = results.len();
    proof {
        lemma_concluded(results@, fallback@, limit as nat, candidate_limit as nat);
    }
    let (matches, candidates) = trim_sort_matches(results, limit, candidate_limit);
    (matches, merge_candidate_pool(candidates, fallback, candidate_limit))
}

/// Whether the pass without typos is enough: it fills what is shown, or there are
/// several words and they match something.
pub open spec fn is_enough(match_count: nat, limit: nat, word_count: nat) -> bool {
    match_count >= limit || (word_count > 1 && match_count > 0)
}

/// Whether the pass without typos is enough.
pub fn should_accept_fast_match_pass(
    match_count: usize,
    limit: usize,
    word_count: usize,
) -> (r: bool)
    ensures
        r == is_enough(match_count as nat, limit as nat, word_count as nat),
{
    match_count >= limit || (word_count > 1 && match_count > 0)
}

// ---------------------------------------------------------------------------
// All entries
// ---------------------------------------------------------------------------

/// Whether an entry is among some matches.
pub open spec fn has_index(matches: Seq<MatchEntry>, index: usize) -> bool {
    indexes_of(matches).contains(index)
}

/// Matches with those of others whose entries are not among them.
pub open spec fn with_others(matches: Seq<MatchEntry>, others: Seq<MatchEntry>) -> Seq<MatchEntry>
    decreases others.len(),
{
    if others.len() == 0 {
        matches
    } else {
        let before = with_others(matches, others.drop_last());
        if has_index(matches, others.last().index) {
            before
        } else {
            before.push(others.last())
        }
    }
}

/// What a search of all entries finds, and the candidates for a longer query.
/// Typos are allowed if the pass without them is not enough.
pub open spec fn all_matches(
    t: Terms,
    files: Seq<FileEntry>,
    limit: nat,
    candidate_limit: nat,
) -> (Seq<MatchEntry>, Seq<usize>) {
    let n = files.len() as int;
    let plain = search::scan_results(t, files, ScanPass::Plain, 0, n);
    let warm = search::scan_warm(t, files, ScanPass::Plain, candidate_limit, 0, n);
    if limit == 0 {
        (Seq::empty(), Seq::empty())
    } else if is_enough(plain.len(), limit, t.words.len()) {
        concluded(plain, warm, limit, candidate_limit)
    } else {
        concluded(
            with_others(plain, search::scan_results(t, files, ScanPass::Typo, 0, n)),
            warm,
            limit,
            candidate_limit,
        )
    }
}

/// Ends a search after the pass without typos, if that is enough. Else the pass is
/// handed back.
pub fn finish_plain(
    query: &QueryTerms,
    plain: Scan,
    limit: usize,
    candidate_limit: usize,
) -> (r: Result<(Vec<MatchEntry>, Vec<usize>), Scan>)
    ensures
        match r {
            Ok(found) => is_enough(plain.results@.len(), limit as nat, query@.words.len()) && (
                found.0@,
                found.1@,
            ) == concluded(plain.results@, plain.warm@, limit as nat, candidate_limit as nat)
                && is_presentable((found.0@, found.1@), limit as nat, candidate_limit as nat) && (
            forall|i: int| 0 <= i < found.0@.len() ==> plain.results@.contains(#[trigger] found.0@[i])),
            Err(back) => back == plain && !is_enough(
                plain.results@.len(),
                limit as nat,
                query@.words.len(),
            ),
        },
{
    if should_accept_fast_match_pass(plain.results.len(), limit, query.word_count()) {
        Ok(conclude(plain.results, &plain.warm, limit, candidate_limit))
    } else {
        Err(plain)
    }
}

/// Ends a search after both passes.
pub fn finish_typos(
    plain: Scan,
    typos: Vec<MatchEntry>,
    limit: usize,
    candidate_limit: usize,
) -> (r: (Vec<MatchEntry>, Vec<usize>))
    ensures
        (r.0@, r.1@) == concluded(
            with_others(plain.results@, typos@),
            plain.warm@,
            limit as nat,
            candidate_limit as nat,
        ),
        is_presentable((r.0@, r.1@), limit as nat, candidate_limit as nat),
        forall|i: int|
            0 <= i < r.0@.len() ==> with_others(plain.results@, typos@).contains(
                #[trigger] r.0@[i],
            ),
{
    let mut results = plain.results;
    let ghost given = results@;
    let indexes = indexes_in(&results);
    let seen = set_of(&indexes);
    let mut i: usize = 0;
    while i < typos.len()
        invariant
            i <= typos@.len(),
            results@ == with_others(given, typos@.take(i as int)),
            forall|x: usize| #[trigger] seen@.contains(x) <==> has_index(given, x),
        decreases typos.len() - i,
    {
        broadcast use vstd::std_specs::hash::group_hash_axioms;

        let m = typos[i];
        proof {
            assert(typos@.take(i + 1).drop_last() =~= typos@.take(i as int));
        }
        if !seen.contains(&m.index) {
            results.push(m);
        }
        i += 1;
    }
    proof {
        assert(typos@.take(typos@.len() as int) =~= typos@);
    }
    conclude(results, &plain.warm, limit, candidate_limit)
}

/// Searches all entries.
pub fn score_all_files(
    query: &str,
    files: &Vec<FileEntry>,
    limit: usize,
    candidate_limit: usize,
) -> (r: (Vec<MatchEntry>, Vec<usize>))
    ensures
        (r.0@, r.1@) == all_matches(
            search::terms(query@),
            files@,
            limit as nat,
            candidate_limit as nat,
        ),
        is_presentable((r.0@, r.1@), limit as nat, candidate_limit as nat),
        all_sound(search::terms(query@), files@, r.0@),
{
    if limit == 0 {
        return (Vec::new(), Vec::new());
    }
    let terms = QueryTerms::new(query);
    let count: usize = files.len();
    let plain = scan_chunk(&terms, files, ScanPass::Plain, candidate_limit, 0, count);
    let ghost results = plain.results@;
    proof {
        lemma_scan_sound(terms@, files@, ScanPass::Plain, count as int);
        lemma_scan_sound(terms@, files@, ScanPass::Typo, count as int);
    }
    match finish_plain(&terms, plain, limit, candidate_limit) {
        Ok(found) => {
            proof {
                lemma_shown_sound(terms@, files@, results, found.0@);
            }
            found
        },
        Err(plain) => {
            let typos = scan_chunk(&terms, files, ScanPass::Typo, 0, 0, count);
            let ghost others = typos.results@;
            let found = finish_typos(plain, typos.results, limit, candidate_limit);
            proof {
                lemma_with_others_sound(terms@, files@, results, others);
                lemma_shown_sound(terms@, files@, with_others(results, others), found.0@);
            }
            found
        },
    }
}

/// The places of the first entries.
pub open spec fn first_places(n: nat) -> Seq<usize> {
    Seq::new(n, |i: int| i as usize)
}

/// The first entries as matches.
pub open spec fn first_matches(n: nat) -> Seq<MatchEntry> {
    Seq::new(n, |i: int| MatchEntry { index: i as usize, score: search::EMPTY_QUERY_SCORE })
}

pub open spec fn least(a: nat, b: nat) -> nat {
    if a <= b {
        a
    } else {
        b
    }
}

/// What a query finds, and the candidates for a longer one. An empty query finds
/// the first entries.
pub open spec fn query_matches(
    query: Seq<char>,
    files: Seq<FileEntry>,
    limit: nat,
    candidate_limit: nat,
) -> (Seq<MatchEntry>, Seq<usize>) {
    if limit == 0 {
        (Seq::empty(), Seq::empty())
    } else if query.len() == 0 {
        (
            first_matches(least(files.len(), limit)),
            first_places(least(files.len(), candidate_limit)),
        )
    } else {
        all_matches(search::terms(query), files, limit, candidate_limit)
    }
}

pub(crate) fn leading_matches(n: usize) -> (r: Vec<MatchEntry>)
    ensures
        r@ == first_matches(n as nat),
{
    let mut r: Vec<MatchEntry> = Vec::new();
    let mut i: usize = 0;
    while i < n
        invariant
            i <= n,
            r@ == first_matches(i as nat),
        decreases n - i,
    {
        r.push(MatchEntry { index: i, score: search::EMPTY_QUERY_SCORE });
        i += 1;
        proof {
            assert(r@ =~= first_matches(i as nat));
        }
    }
    r
}

pub(crate) fn leading_places(n: usize) -> (r: Vec<usize>)
    ensures
        r@ == first_places(n as nat),
{
    let mut r: Vec<usize> = Vec::new();
    let mut i: usize = 0;
    while i < n
        invariant
            i <= n,
            r@ == first_places(i as nat),
        decreases n - i,
    {
        r.push(i);
        i += 1;
        proof {
            assert(r@ =~= first_places(i as nat));
        }
    }
    r
}

pub(crate) fn lesser(a: usize, b: usize) -> (r: usize)
    ensures
        r == least(a as nat, b as nat),
{
    if a <= b {
        a
    } else {
        b
    }
}

/// Finds the entries that match a query, and the candidates for a longer one.
pub fn fuzzy_match_with_candidates(
    query: &str,
    files: &Vec<FileEntry>,
    limit: usize,
    candidate_limit: usize,
) -> (r: (Vec<MatchEntry>, Vec<usize>))
    ensures
        (r.0@, r.1@) == query_matches(query@, files@, limit as nat, candidate_limit as nat),
        is_presentable((r.0@, r.1@), limit as nat, candidate_limit as nat),
        in_range(r.0@, files@.len()),
        query@.len() > 0 ==> all_sound(search::terms(query@), files@, r.0@),
{
    if limit == 0 {
        return (Vec::new(), Vec::new());
    }
    if is_empty_text(query) {
        let count: usize = files.len();
        return (
            leading_matches(lesser(count, limit)),
            leading_places(lesser(count, candidate_limit)),
        );
    }
    score_all_files(query, files, limit, candidate_limit)
}

/// Whether a text is empty.
pub(crate) fn is_empty_text(s: &str) -> (r: bool)
    ensures
        r == (s@.len() == 0),
{
    chars_of(s).len() == 0
}

/// Finds the entries that match a query.
pub fn fuzzy_match(query: &str, files: &Vec<FileEntry>, limit: usize) -> (r: Vec<MatchEntry>)
    ensures
        r@ == query_matches(query@, files@, limit as nat, limit as nat).0,
        is_ordered(r@),
        r@.len() <= limit,
        in_range(r@, files@.len()),
        query@.len() > 0 ==> all_sound(search::terms(query@), files@, r@),
{
    fuzzy_match_with_candidates(query, files, limit, limit).0
}

// ---------------------------------------------------------------------------
// Some entries
// ---------------------------------------------------------------------------

/// The candidates that match without typos, in their order.
pub open spec fn candidate_results(t: Terms, files: Seq<FileEntry>, indexes: Seq<usize>) -> Seq<
    MatchEntry,
>
    decreases indexes.len(),
{
    if indexes.len() == 0 {
        Seq::empty()
    } else {
        let before = candidate_results(t, files, indexes.drop_last());
        let index = indexes.last();
        if index < files.len() {
            match search::pass_score(t, files[index as int]@.path, ScanPass::Plain) {
                Some(score) => before.push(MatchEntry { index, score: score as i128 }),
                None => before,
            }
        } else {
            before
        }
    }
}

/// Matches with the candidates that match with typos and are not among them.
pub open spec fn with_candidate_typos(
    t: Terms,
    files: Seq<FileEntry>,
    indexes: Seq<usize>,
    matches: Seq<MatchEntry>,
) -> Seq<MatchEntry>
    decreases indexes.len(),
{
    if indexes.len() == 0 {
        matches
    } else {
        let before = with_candidate_typos(t, files, indexes.drop_last(), matches);
        let index = indexes.last();
        if index < files.len() && !has_index(before, index) {
            match search::pass_score(t, files[index as int]@.path, ScanPass::Typo) {
                Some(score) => before.push(MatchEntry { index, score: score as i128 }),
                None => before,
            }
        } else {
            before
        }
    }
}

/// What a search of some candidates finds, and the candidates for a longer query.
pub open spec fn candidate_matches(
    t: Terms,
    files: Seq<FileEntry>,
    indexes: Seq<usize>,
    limit: nat,
    candidate_limit: nat,
) -> (Seq<MatchEntry>, Seq<usize>) {
    let plain = candidate_results(t, files, indexes);
    if limit == 0 {
        (Seq::empty(), Seq::empty())
    } else if is_enough(plain.len(), limit, t.words.len()) {
        concluded(plain, indexes, limit, candidate_limit)
    } else {
        concluded(with_candidate_typos(t, files, indexes, plain), indexes, limit, candidate_limit)
    }
}

proof fn lemma_has_index_push(matches: Seq<MatchEntry>, m: MatchEntry, x: usize)
    ensures
        has_index(matches.push(m), x) <==> has_index(matches, x) || x == m.index,
{
    let before = indexes_of(matches);
    let after = indexes_of(matches.push(m));
    assert(after =~= before.push(m.index));
    if before.contains(x) {
        let k = choose|k: int| 0 <= k < before.len() && before[k] == x;
        assert(after[k] == x);
    }
    if after.contains(x) && x != m.index {
        let k = choose|k: int| 0 <= k < after.len() && after[k] == x;
        assert(before[k] == x);
    }
    assert(after[before.len() as int] == m.index);
}

/// Searches some candidates, given by their places. Places beyond the entries are
/// passed over.
pub fn score_candidate_indexes(
    query: &str,
    files: &Vec<FileEntry>,
    indexes: &Vec<usize>,
    limit: usize,
    candidate_limit: usize,
) -> (r: (Vec<MatchEntry>, Vec<usize>))
    ensures
        (r.0@, r.1@) == candidate_matches(
            search::terms(query@),
            files@,
            indexes@,
            limit as nat,
            candidate_limit as nat,
        ),
        is_presentable((r.0@, r.1@), limit as nat, candidate_limit as nat),
        all_sound(search::terms(query@), files@, r.0@),
{
    if limit == 0 {
        return (Vec::new(), Vec::new());
    }
    let terms = QueryTerms::new(query);
    let mut results: Vec<MatchEntry> = Vec::new();
    let mut i: usize = 0;
    while i < indexes.len()
        invariant
            i <= indexes@.len(),
            results@ == candidate_results(terms@, files@, indexes@.take(i as int)),
        decreases indexes.len() - i,
    {
        proof {
            assert(indexes@.take(i + 1).drop_last() =~= indexes@.take(i as int));
        }
        let index: usize = indexes[i];
        if index < files.len() {
            if let Some(score) = score_in_pass(&terms, &files[index], ScanPass::Plain) {
                results.push(MatchEntry { index, score });
            }
        }
        i += 1;
    }
    proof {
        assert(indexes@.take(indexes@.len() as int) =~= indexes@);
    }
    proof {
        lemma_candidates_sound(terms@, files@, indexes@);
    }
    if !should_accept_fast_match_pass(results.len(), limit, terms.word_count()) {
        let ghost plain = results@;
        let found = indexes_in(&results);
        let mut seen = set_of(&found);
        let mut j: usize = 0;
        while j < indexes.len()
            invariant
                j <= indexes@.len(),
                results@ == with_candidate_typos(
                    terms@,
                    files@,
                    indexes@.take(j as int),
                    plain,
                ),
                forall|x: usize| #[trigger] seen@.contains(x) <==> has_index(results@, x),
            decreases indexes.len() - j,
        {
            broadcast use vstd::std_specs::hash::group_hash_axioms;

            proof {
                assert(indexes@.take(j + 1).drop_last() =~= indexes@.take(j as int));
            }
            let index: usize = indexes[j];
            if !seen.contains(&index) && index < files.len() {
                if let Some(score) = score_in_pass(&terms, &files[index], ScanPass::Typo) {
                    let ghost before = results@;
                    let m = MatchEntry { index, score };
                    seen.insert(index);
                    results.push(m);
                    proof {
                        assert forall|x: usize| #[trigger]
                            seen@.contains(x) <==> has_index(results@, x) by {
                            lemma_has_index_push(before, m, x);
                        }
                    }
                }
            }
            j += 1;
        }
        proof {
            assert(indexes@.take(indexes@.len() as int) =~= indexes@);
            lemma_candidate_typos_sound(terms@, files@, indexes@, plain);
        }
    }
    let ghost all = results@;
    let found = conclude(results, indexes, limit, candidate_limit);
    proof {
        lemma_shown_sound(terms@, files@, all, found.0@);
    }
    found
}

} // verus!
