//! What holds of a search: which entries are found, and in which order.
use vstd::prelude::*;
use vstd::relations::*;
use vstd::seq_lib::*;
use vstd::utf8::*;

use crate::encoding;
use crate::entry;
use crate::entry::FileEntry;
use crate::fuzzy;
use crate::history;
use crate::match_laws;
use crate::order;
use crate::rank;
use crate::search;
use crate::search::MatchEntry;
use crate::search::ScanPass;
use crate::search::Terms;
use crate::text;

verus! {

// ---------------------------------------------------------------------------
// One entry
// ---------------------------------------------------------------------------

/// Whether every word of a list matches a text.
pub open spec fn all_match(words: Seq<Seq<char>>, text: Seq<char>, allow_typos: bool) -> bool {
    forall|i: int|
        0 <= i < words.len() ==> fuzzy::fuzzy_word(#[trigger] words[i], text, allow_typos) is Some
}

/// An entry is found only if all words match its name, or all match its path. It is found if
/// all match its name, and also if all match its path where that is looked at and there are
/// several words, or one that the name does not match.
pub proof fn lemma_entry_is_found(
    lower: Seq<char>,
    words: Seq<Seq<char>>,
    path: Seq<char>,
    allow_typos: bool,
    include_path: bool,
)
    requires
        words.len() > 0,
    ensures
        ({
            let found = search::entry_score(lower, words, path, allow_typos, include_path);
            let name = entry::lower_name_of(path);
            let whole = entry::lower_path_of(path);
            &&& found is Some ==> all_match(words, name, allow_typos) || (include_path
                && all_match(words, whole, allow_typos))
            &&& all_match(words, name, allow_typos) ==> found is Some
            &&& include_path && words.len() > 1 && all_match(words, whole, allow_typos)
                ==> found is Some
            &&& include_path && all_match(words, whole, false) ==> found is Some
        }),
{
    let name = entry::lower_name_of(path);
    let whole = entry::lower_path_of(path);
    let base = search::PATH_BASE as int;
    match_laws::lemma_every_word_has_to_match(words, name, search::NAME_BASE as int, allow_typos);
    match_laws::lemma_every_word_has_to_match(words, whole, base, allow_typos);
    match_laws::lemma_every_word_has_to_match(words, whole, base, false);
    if all_match(words, whole, false) {
        assert forall|i: int| 0 <= i < words.len() implies fuzzy::fuzzy_word(
            #[trigger] words[i],
            whole,
            allow_typos,
        ) is Some by {
            match_laws::lemma_typos_only_add(words[i], whole);
        }
    }
    if search::entry_score(lower, words, path, allow_typos, include_path) is Some {
        if !allow_typos || words.len() == 1 {
            assert forall|i: int|
                0 <= i < words.len() && fuzzy::fuzzy_word(
                    #[trigger] words[i],
                    whole,
                    false,
                ) is Some implies fuzzy::fuzzy_word(words[i], whole, allow_typos) is Some by {
                match_laws::lemma_typos_only_add(words[i], whole);
            }
        }
    }
}

/// The score of an entry is that of its name or that of its path, and never below that of its
/// name.
pub proof fn lemma_entry_score(
    lower: Seq<char>,
    words: Seq<Seq<char>>,
    path: Seq<char>,
    allow_typos: bool,
    include_path: bool,
)
    ensures
        ({
            let by_name = fuzzy::text_score(
                words,
                entry::lower_name_of(path),
                50_000,
                allow_typos,
            );
            let with_typos = fuzzy::text_score(
                words,
                entry::lower_path_of(path),
                30_000,
                allow_typos,
            );
            let plain = fuzzy::text_score(words, entry::lower_path_of(path), 30_000, false);
            let found = search::entry_score(lower, words, path, allow_typos, include_path);
            &&& words.len() > 0 && by_name is Some ==> found is Some && found->0 >= by_name->0
            &&& found is Some ==> found == by_name || found == with_typos || found == plain
            &&& !include_path && words.len() > 0 ==> found == by_name
            &&& words.len() == 0 ==> found is None
        }),
{
}

/// Whether two ASCII texts are the same but for the case of letters.
pub open spec fn differ_in_case(a: Seq<char>, b: Seq<char>) -> bool {
    &&& is_ascii_chars(a)
    &&& is_ascii_chars(b)
    &&& a.len() == b.len()
    &&& forall|i: int|
        0 <= i < a.len() ==> text::ascii_lower(#[trigger] a[i]) == text::ascii_lower(b[i])
}

proof fn lemma_lowercase_same(a: Seq<char>, b: Seq<char>)
    requires
        differ_in_case(a, b),
    ensures
        text::lowercase(a) == text::lowercase(b),
{
    assert(text::lowercase(a) =~= text::lowercase(b));
}

proof fn lemma_parts_differ_in_case(a: Seq<char>, b: Seq<char>)
    requires
        differ_in_case(a, b),
    ensures
        entry::lower_name_of(a) == entry::lower_name_of(b),
        entry::lower_path_of(a) == entry::lower_path_of(b),
{
    let n = entry::name_index(a);
    text::lemma_last_index(a, '/');
    text::lemma_last_index(b, '/');
    assert forall|i: int| 0 <= i < a.len() implies (#[trigger] a[i] == '/') == (b[i] == '/') by {
        assert(text::ascii_lower(a[i]) == text::ascii_lower(b[i]));
    }
    assert(entry::name_index(b) == n) by {
        let (k, m) = (entry::name_index(a) - 1, entry::name_index(b) - 1);
        if k >= 0 {
            assert(b[k] == '/');
        }
        if m >= 0 {
            assert(a[m] == '/');
        }
    }
    assert forall|i: int| 0 <= i < a.skip(n).len() implies text::ascii_lower(
        #[trigger] a.skip(n)[i],
    ) == text::ascii_lower(b.skip(n)[i]) by {
        assert(text::ascii_lower(a[n + i]) == text::ascii_lower(b[n + i]));
    }
    assert forall|i: int| 0 <= i < a.take(n).len() implies text::ascii_lower(
        #[trigger] a.take(n)[i],
    ) == text::ascii_lower(b.take(n)[i]) by {
        assert(text::ascii_lower(a[i]) == text::ascii_lower(b[i]));
    }
    lemma_lowercase_same(a.skip(n), b.skip(n));
    lemma_lowercase_same(a.take(n), b.take(n));
}

/// In a search capitals and small letters are the same: a query looks for the same in whichever
/// case its letters are written, and finds entries alike in whichever case theirs are.
pub proof fn lemma_case_does_not_count(
    query: Seq<char>,
    other: Seq<char>,
    path: Seq<char>,
    path2: Seq<char>,
    pass: ScanPass,
)
    requires
        differ_in_case(query, other),
        differ_in_case(path, path2),
    ensures
        search::terms(query) == search::terms(other),
        search::pass_score(search::terms(query), path, pass) == search::pass_score(
            search::terms(other),
            path2,
            pass,
        ),
{
    lemma_lowercase_same(query, other);
    lemma_parts_differ_in_case(path, path2);
}

/// The query in lowercase, its words, and its characters without whitespace are looked for.
pub proof fn lemma_terms(query: Seq<char>)
    ensures
        search::terms(query).lower == text::lowercase(query),
        search::terms(query).words == text::words(text::lowercase(query)),
        search::terms(query).compact == text::lowercase(query).filter(
            |c: char| !text::is_whitespace(c),
        ),
{
    lemma_compacted(text::lowercase(query));
}

proof fn lemma_compacted(s: Seq<char>)
    ensures
        search::compacted(s) == s.filter(|c: char| !text::is_whitespace(c)),
    decreases s.len(),
{
    reveal(Seq::filter);
    if s.len() > 0 {
        lemma_compacted(s.drop_last());
    }
}

// ---------------------------------------------------------------------------
// Many entries
// ---------------------------------------------------------------------------

/// The score that an entry is found with, if it is: without typos, or else, where they are
/// allowed, with them.
pub open spec fn found_score(t: Terms, files: Seq<FileEntry>, typos: bool, i: int) -> Option<i128> {
    match search::pass_score(t, files[i]@.path, ScanPass::Plain) {
        Some(v) => Some(v as i128),
        None => if typos {
            match search::pass_score(t, files[i]@.path, ScanPass::Typo) {
                Some(v) => Some(v as i128),
                None => None,
            }
        } else {
            None
        },
    }
}

/// Whether no two matches stand for the same entry.
pub open spec fn no_entry_twice(matches: Seq<MatchEntry>) -> bool {
    forall|i: int, j: int|
        0 <= i < j < matches.len() ==> (#[trigger] matches[i]).index != (
        #[trigger] matches[j]).index
}

/// Whether some matches are those of the entries in a part, each with the score it is found
/// with, and no others.
pub open spec fn are_found(
    t: Terms,
    files: Seq<FileEntry>,
    typos: bool,
    part: spec_fn(usize) -> bool,
    matches: Seq<MatchEntry>,
) -> bool {
    &&& no_entry_twice(matches)
    &&& forall|m: MatchEntry|
        #[trigger] matches.contains(m) <==> m.index < files.len() && part(m.index) && found_score(
            t,
            files,
            typos,
            m.index as int,
        ) == Some(m.score)
}

proof fn lemma_pushed(matches: Seq<MatchEntry>, x: MatchEntry, m: MatchEntry)
    ensures
        matches.push(x).contains(m) <==> matches.contains(m) || m == x,
{
    let all = matches.push(x);
    if matches.contains(m) {
        let k = matches.index_of(m);
        assert(all[k] == m);
    }
    if all.contains(m) && m != x {
        let k = all.index_of(m);
        assert(matches[k] == m);
    }
    assert(all[matches.len() as int] == x);
}

proof fn lemma_scanned(t: Terms, files: Seq<FileEntry>, pass: ScanPass, to: int)
    requires
        0 <= to <= files.len() <= usize::MAX,
    ensures
        no_entry_twice(search::scan_results(t, files, pass, 0, to)),
        forall|m: MatchEntry|
            #[trigger] search::scan_results(t, files, pass, 0, to).contains(m) <==> m.index < to && (
            search::pass_score(t, files[m.index as int]@.path, pass) matches Some(v) && m.score
                == v as i128),
    decreases to,
{
    let all = search::scan_results(t, files, pass, 0, to);
    if to > 0 {
        lemma_scanned(t, files, pass, to - 1);
        let before = search::scan_results(t, files, pass, 0, to - 1);
        assert forall|k: int| 0 <= k < before.len() implies (#[trigger] before[k]).index < to - 1 by {
            assert(before.contains(before[k]));
        }
        if let Some(v) = search::pass_score(t, files[to - 1]@.path, pass) {
            let x = MatchEntry { index: (to - 1) as usize, score: v as i128 };
            assert(all == before.push(x));
            assert forall|m: MatchEntry| #[trigger] all.contains(m) <==> m.index < to && (
            search::pass_score(t, files[m.index as int]@.path, pass) matches Some(v) && m.score
                == v as i128) by {
                lemma_pushed(before, x, m);
                assert(before.contains(m) || !before.contains(m));
            }
        } else {
            assert(all == before);
            assert forall|m: MatchEntry| #[trigger] all.contains(m) <==> m.index < to && (
            search::pass_score(t, files[m.index as int]@.path, pass) matches Some(v) && m.score
                == v as i128) by {
                assert(before.contains(m) || !before.contains(m));
            }
        }
    }
}

proof fn lemma_has_index(matches: Seq<MatchEntry>, index: usize)
    ensures
        rank::has_index(matches, index) <==> exists|k: int|
            0 <= k < matches.len() && (#[trigger] matches[k]).index == index,
{
    let list = rank::indexes_of(matches);
    if list.contains(index) {
        let k = list.index_of(index);
        assert(matches[k].index == index);
    }
    if exists|k: int| 0 <= k < matches.len() && (#[trigger] matches[k]).index == index {
        let k = choose|k: int| 0 <= k < matches.len() && (#[trigger] matches[k]).index == index;
        assert(list[k] == index);
    }
}

proof fn lemma_with_others(matches: Seq<MatchEntry>, others: Seq<MatchEntry>)
    requires
        no_entry_twice(matches),
        no_entry_twice(others),
    ensures
        no_entry_twice(rank::with_others(matches, others)),
        forall|m: MatchEntry|
            #[trigger] rank::with_others(matches, others).contains(m) <==> matches.contains(m) || (
            others.contains(m) && !rank::has_index(matches, m.index)),
    decreases others.len(),
{
    let all = rank::with_others(matches, others);
    if others.len() > 0 {
        let init = others.drop_last();
        let x = others.last();
        assert(no_entry_twice(init)) by {
            assert forall|i: int, j: int| 0 <= i < j < init.len() implies (
            #[trigger] init[i]).index != (#[trigger] init[j]).index by {
                assert(init[i] == others[i] && init[j] == others[j]);
            }
        }
        lemma_with_others(matches, init);
        let before = rank::with_others(matches, init);
        assert(others =~= init.push(x));
        assert forall|m: MatchEntry| #[trigger] all.contains(m) <==> matches.contains(m) || (
        others.contains(m) && !rank::has_index(matches, m.index)) by {
            lemma_pushed(init, x, m);
            lemma_pushed(before, x, m);
            assert(before.contains(m) || !before.contains(m));
        }
        if !rank::has_index(matches, x.index) {
            assert forall|k: int| 0 <= k < before.len() implies (#[trigger] before[k]).index
                != x.index by {
                assert(before.contains(before[k]));
                if matches.contains(before[k]) {
                    let n = matches.index_of(before[k]);
                    lemma_has_index(matches, x.index);
                    assert(matches[n].index != x.index);
                } else {
                    let n = init.index_of(before[k]);
                    assert(others[n] == before[k]);
                    assert(others[n].index != others[others.len() - 1].index);
                }
            }
        }
    }
}

/// A search of all entries: the matches before they are ranked are just the entries that are
/// found.
proof fn lemma_all_found(t: Terms, files: Seq<FileEntry>, typos: bool)
    requires
        files.len() <= usize::MAX,
    ensures
        ({
            let n = files.len() as int;
            let plain = search::scan_results(t, files, ScanPass::Plain, 0, n);
            are_found(
                t,
                files,
                typos,
                |i: usize| true,
                if typos {
                    rank::with_others(plain, search::scan_results(t, files, ScanPass::Typo, 0, n))
                } else {
                    plain
                },
            )
        }),
{
    let n = files.len() as int;
    let plain = search::scan_results(t, files, ScanPass::Plain, 0, n);
    let others = search::scan_results(t, files, ScanPass::Typo, 0, n);
    lemma_scanned(t, files, ScanPass::Plain, n);
    lemma_scanned(t, files, ScanPass::Typo, n);
    lemma_with_others(plain, others);
    let part = |i: usize| true;
    let all = if typos {
        rank::with_others(plain, others)
    } else {
        plain
    };
    assert forall|m: MatchEntry| #[trigger] all.contains(m) <==> m.index < files.len() && part(
        m.index,
    ) && found_score(t, files, typos, m.index as int) == Some(m.score) by {
        assert(plain.contains(m) || !plain.contains(m));
        assert(others.contains(m) || !others.contains(m));
        lemma_has_index(plain, m.index);
        if m.index < files.len() {
            if let Some(v) = search::pass_score(t, files[m.index as int]@.path, ScanPass::Plain) {
                let own = MatchEntry { index: m.index, score: v as i128 };
                assert(plain.contains(own));
                let k = plain.index_of(own);
                assert(plain[k].index == m.index);
            } else if rank::has_index(plain, m.index) {
                let k = choose|k: int| 0 <= k < plain.len() && (#[trigger] plain[k]).index
                    == m.index;
                assert(plain.contains(plain[k]));
            }
        }
    }
}

proof fn lemma_best_first()
    ensures
        order::strict_weak(rank::best_first()),
{
}

proof fn lemma_sorted(results: Seq<MatchEntry>)
    requires
        results.len() <= usize::MAX,
    ensures
        ({
            let sorted = order::ranked(results, rank::best_first());
            &&& sorted.len() == results.len()
            &&& sorted.to_multiset() == results.to_multiset()
            &&& forall|m: MatchEntry| #[trigger] sorted.contains(m) <==> results.contains(m)
            &&& no_entry_twice(results) ==> no_entry_twice(sorted)
            &&& forall|i: int, j: int|
                0 <= i < j < sorted.len() ==> !rank::match_before(
                    #[trigger] sorted[j],
                    #[trigger] sorted[i],
                )
        }),
{
    broadcast use group_to_multiset_ensures;

    lemma_best_first();
    order::lemma_ranked(results, rank::best_first());
    let sorted = order::ranked(results, rank::best_first());
    assert forall|m: MatchEntry| #[trigger] sorted.contains(m) <==> results.contains(m) by {
        assert(sorted.to_multiset().count(m) == results.to_multiset().count(m));
    }
    assert forall|i: int, j: int| 0 <= i < j < sorted.len() implies !rank::match_before(
        #[trigger] sorted[j],
        #[trigger] sorted[i],
    ) by {
        assert(!(rank::best_first())(sorted[j], sorted[i]));
    }
    if no_entry_twice(results) {
        let key = |m: MatchEntry| m.index;
        assert forall|i: int, j: int| 0 <= i < j < results.len() implies key(
            #[trigger] results[i],
        ) != key(#[trigger] results[j]) by {}
        order::lemma_ranked_distinct(results, rank::best_first(), key);
        assert forall|i: int, j: int| 0 <= i < j < sorted.len() implies (
        #[trigger] sorted[i]).index != (#[trigger] sorted[j]).index by {
            assert(key(sorted[i]) != key(sorted[j]));
        }
    }
}

/// Whether a list shows the best of what is found, up to a number of entries: only what is
/// found, no entry twice, a better score in front of a worse one, the earlier entry in front
/// where scores are equal, and nothing left out unless the list is full of what is better.
pub open spec fn shows_best(
    shown: Seq<MatchEntry>,
    limit: nat,
    is_found: spec_fn(MatchEntry) -> bool,
) -> bool {
    &&& shown.len() <= limit
    &&& forall|k: int| 0 <= k < shown.len() ==> is_found(#[trigger] shown[k])
    &&& forall|i: int, j: int|
        0 <= i < j < shown.len() ==> {
            let (a, b) = (#[trigger] shown[i], #[trigger] shown[j]);
            a.index != b.index && (a.score > b.score || (a.score == b.score && a.index < b.index))
        }
    &&& forall|m: MatchEntry|
        #[trigger] is_found(m) ==> shown.contains(m) || (shown.len() == limit && forall|k: int|
            0 <= k < shown.len() ==> (#[trigger] shown[k]).score > m.score || (shown[k].score
                == m.score && shown[k].index < m.index))
}

proof fn lemma_concluded_shows_best(
    results: Seq<MatchEntry>,
    fallback: Seq<usize>,
    limit: nat,
    candidate_limit: nat,
    is_found: spec_fn(MatchEntry) -> bool,
)
    requires
        limit > 0,
        results.len() <= usize::MAX,
        no_entry_twice(results),
        forall|m: MatchEntry| #[trigger] results.contains(m) <==> is_found(m),
    ensures
        shows_best(
            rank::concluded(results, fallback, limit, candidate_limit).0,
            limit,
            is_found,
        ),
{
    lemma_sorted(results);
    let sorted = order::ranked(results, rank::best_first());
    let shown = rank::concluded(results, fallback, limit, candidate_limit).0;
    assert forall|k: int| 0 <= k < shown.len() implies shown[k] == sorted[k] by {}
    assert forall|k: int| 0 <= k < shown.len() implies is_found(#[trigger] shown[k]) by {
        assert(sorted.contains(sorted[k]));
        assert(results.contains(shown[k]));
    }
    assert forall|m: MatchEntry| #[trigger] is_found(m) implies shown.contains(m) || (shown.len()
        == limit && forall|k: int|
        0 <= k < shown.len() ==> (#[trigger] shown[k]).score > m.score || (shown[k].score
            == m.score && shown[k].index < m.index)) by {
        assert(results.contains(m));
        assert(sorted.contains(m));
        let p = sorted.index_of(m);
        if p < shown.len() {
            assert(shown[p] == m);
        } else {
            assert forall|k: int| 0 <= k < shown.len() implies (#[trigger] shown[k]).score
                > m.score || (shown[k].score == m.score && shown[k].index < m.index) by {
                assert(!rank::match_before(sorted[p], sorted[k]));
                assert(sorted[k].index != sorted[p].index);
            }
        }
    }
}

/// Whether a search goes on with typos: fewer entries are found without them than are shown,
/// and, for several words, none.
pub open spec fn goes_on(t: Terms, files: Seq<FileEntry>, limit: nat) -> bool {
    let count = search::scan_results(t, files, ScanPass::Plain, 0, files.len() as int).len();
    count < limit && (t.words.len() > 1 ==> count == 0)
}

/// A search shows the best of the entries that are found, up to a number of them. Typos count
/// if without them too few are found.
pub proof fn lemma_search_shows_best(
    query: Seq<char>,
    files: Seq<FileEntry>,
    limit: nat,
    candidate_limit: nat,
)
    requires
        query.len() > 0,
        limit > 0,
        files.len() <= usize::MAX,
    ensures
        ({
            let t = search::terms(query);
            shows_best(
                rank::query_matches(query, files, limit, candidate_limit).0,
                limit,
                |m: MatchEntry|
                    m.index < files.len() && found_score(
                        t,
                        files,
                        goes_on(t, files, limit),
                        m.index as int,
                    ) == Some(m.score),
            )
        }),
{
    let t = search::terms(query);
    let n = files.len() as int;
    let plain = search::scan_results(t, files, ScanPass::Plain, 0, n);
    let typos = goes_on(t, files, limit);
    let results = if typos {
        rank::with_others(plain, search::scan_results(t, files, ScanPass::Typo, 0, n))
    } else {
        plain
    };
    let warm = search::scan_warm(t, files, ScanPass::Plain, candidate_limit, 0, n);
    let is_found = |m: MatchEntry|
        m.index < files.len() && found_score(t, files, typos, m.index as int) == Some(m.score);
    lemma_all_found(t, files, typos);
    lemma_found_count(files.len(), results);
    assert forall|m: MatchEntry| #[trigger] results.contains(m) <==> is_found(m) by {}
    lemma_concluded_shows_best(results, warm, limit, candidate_limit, is_found);
}

proof fn lemma_found_count(count: nat, matches: Seq<MatchEntry>)
    requires
        count <= usize::MAX,
        no_entry_twice(matches),
        forall|m: MatchEntry| #[trigger] matches.contains(m) ==> m.index < count,
    ensures
        matches.len() <= count,
    decreases count,
{
    let indexes = matches.map_values(|m: MatchEntry| m.index as int);
    assert(indexes.no_duplicates()) by {
        assert forall|i: int, j: int|
            0 <= i < indexes.len() && 0 <= j < indexes.len() && i != j implies indexes[i]
            != indexes[j] by {
            if i < j {
                assert(matches[i].index != matches[j].index);
            } else {
                assert(matches[j].index != matches[i].index);
            }
        }
    }
    let range = vstd::set_lib::set_int_range(0, count as int);
    vstd::set_lib::lemma_int_range(0, count as int);
    indexes.unique_seq_to_set();
    assert(indexes.to_set().subset_of(range)) by {
        assert forall|x: int| indexes.to_set().contains(x) implies range.contains(x) by {
            let k = indexes.index_of(x);
            assert(matches.contains(matches[k]));
        }
    }
    vstd::set_lib::lemma_len_subset(indexes.to_set(), range);
}

/// An empty query shows the first entries, as they stand, and every one if they are not more
/// than are shown.
pub proof fn lemma_empty_query_shows_first(
    files: Seq<FileEntry>,
    limit: nat,
    candidate_limit: nat,
)
    requires
        files.len() <= usize::MAX,
    ensures
        ({
            let shown = rank::query_matches(Seq::empty(), files, limit, candidate_limit).0;
            &&& shown.len() <= limit
            &&& shown.len() == files.len() || shown.len() == limit
            &&& shown.len() <= files.len()
            &&& forall|k: int| 0 <= k < shown.len() ==> (#[trigger] shown[k]).index == k
            &&& forall|k: int| 0 <= k < shown.len() ==> (#[trigger] shown[k]).score == 500
        }),
{
}

/// A query of whitespace alone finds nothing.
pub proof fn lemma_blank_query_finds_nothing(
    query: Seq<char>,
    files: Seq<FileEntry>,
    limit: nat,
    candidate_limit: nat,
)
    requires
        query.len() > 0,
        text::words(text::lowercase(query)).len() == 0,
        files.len() <= usize::MAX,
        limit > 0,
    ensures
        rank::query_matches(query, files, limit, candidate_limit).0.len() == 0,
{
    lemma_search_shows_best(query, files, limit, candidate_limit);
    let shown = rank::query_matches(query, files, limit, candidate_limit).0;
    if shown.len() > 0 {
        assert(shown[0].index < files.len());
    }
}

/// Every entry that a search shows has a name or a path that all words of the query match.
pub proof fn lemma_shown_entries_match(
    query: Seq<char>,
    files: Seq<FileEntry>,
    limit: nat,
    candidate_limit: nat,
    k: int,
)
    requires
        query.len() > 0,
        limit > 0,
        files.len() <= usize::MAX,
        0 <= k < rank::query_matches(query, files, limit, candidate_limit).0.len(),
    ensures
        ({
            let m = rank::query_matches(query, files, limit, candidate_limit).0[k];
            let words = text::words(text::lowercase(query));
            let path = files[m.index as int]@.path;
            &&& m.index < files.len()
            &&& words.len() > 0
            &&& all_match(words, entry::lower_name_of(path), true) || all_match(
                words,
                entry::lower_path_of(path),
                true,
            )
        }),
{
    lemma_search_shows_best(query, files, limit, candidate_limit);
    let t = search::terms(query);
    let m = rank::query_matches(query, files, limit, candidate_limit).0[k];
    let path = files[m.index as int]@.path;
    assert(m.index < files.len());
    lemma_plain_or_typo(t, path);
}

proof fn lemma_plain_or_typo(t: Terms, path: Seq<char>)
    ensures
        search::pass_score(t, path, ScanPass::Plain) is Some || search::pass_score(
            t,
            path,
            ScanPass::Typo,
        ) is Some ==> t.words.len() > 0 && (all_match(t.words, entry::lower_name_of(path), true)
            || all_match(t.words, entry::lower_path_of(path), true)),
{
    if t.words.len() > 0 {
        lemma_entry_is_found(t.lower, t.words, path, false, t.words.len() > 1);
        lemma_entry_is_found(t.lower, t.words, path, true, true);
        let (name, whole) = (entry::lower_name_of(path), entry::lower_path_of(path));
        if all_match(t.words, name, false) {
            assert forall|i: int| 0 <= i < t.words.len() implies fuzzy::fuzzy_word(
                #[trigger] t.words[i],
                name,
                true,
            ) is Some by {
                match_laws::lemma_typos_only_add(t.words[i], name);
            }
        }
        if all_match(t.words, whole, false) {
            assert forall|i: int| 0 <= i < t.words.len() implies fuzzy::fuzzy_word(
                #[trigger] t.words[i],
                whole,
                true,
            ) is Some by {
                match_laws::lemma_typos_only_add(t.words[i], whole);
            }
        }
    }
}

/// With room for all entries, a search misses no entry whose name all words match, or whose path
/// several words match. One word finds a path that it matches, and a name that it matches with
/// typos, too; several words find those with typos if they find nothing without.
pub proof fn lemma_matching_entries_are_shown(
    query: Seq<char>,
    files: Seq<FileEntry>,
    limit: nat,
    candidate_limit: nat,
    i: int,
)
    requires
        query.len() > 0,
        files.len() <= usize::MAX,
        limit > files.len(),
        0 <= i < files.len(),
        ({
            let words = text::words(text::lowercase(query));
            let name = entry::lower_name_of(files[i]@.path);
            let path = entry::lower_path_of(files[i]@.path);
            &&& words.len() > 0
            &&& {
                ||| all_match(words, name, false)
                ||| words.len() > 1 && all_match(words, path, false)
                ||| words.len() == 1 && (all_match(words, path, false) || all_match(
                    words,
                    name,
                    true,
                ))
                ||| goes_on(search::terms(query), files, limit) && (all_match(words, path, true)
                    && words.len() > 1 || all_match(words, name, true))
            }
        }),
    ensures
        exists|k: int|
            0 <= k < rank::query_matches(query, files, limit, candidate_limit).0.len() && (
            #[trigger] rank::query_matches(query, files, limit, candidate_limit).0[k]).index == i,
{
    let t = search::terms(query);
    let path = files[i]@.path;
    lemma_search_shows_best(query, files, limit, candidate_limit);
    lemma_entry_is_found(t.lower, t.words, path, false, t.words.len() > 1);
    lemma_entry_is_found(t.lower, t.words, path, true, true);
    let n = files.len() as int;
    let plain = search::scan_results(t, files, ScanPass::Plain, 0, n);
    lemma_scanned(t, files, ScanPass::Plain, n);
    lemma_found_count(files.len(), plain);
    let shown = rank::query_matches(query, files, limit, candidate_limit).0;
    let typos = goes_on(t, files, limit);
    let is_found = |m: MatchEntry|
        m.index < files.len() && found_score(t, files, typos, m.index as int) == Some(m.score);
    let m = MatchEntry { index: i as usize, score: found_score(t, files, typos, i)->0 };
    assert(is_found(m));
    assert(no_entry_twice(shown));
    assert forall|x: MatchEntry| #[trigger] shown.contains(x) implies x.index < files.len() by {
        let k = shown.index_of(x);
        assert(is_found(shown[k]));
    }
    lemma_found_count(files.len(), shown);
    assert(shown.contains(m));
    let k = shown.index_of(m);
    assert(shown[k].index == i);
}

// ---------------------------------------------------------------------------
// Some entries
// ---------------------------------------------------------------------------

proof fn lemma_listed(list: Seq<usize>, x: usize, i: usize)
    ensures
        list.push(x).contains(i) <==> list.contains(i) || i == x,
{
    let all = list.push(x);
    if list.contains(i) {
        let k = list.index_of(i);
        assert(all[k] == i);
    }
    if all.contains(i) && i != x {
        let k = all.index_of(i);
        assert(list[k] == i);
    }
    assert(all[list.len() as int] == x);
}

proof fn lemma_candidates_scanned(t: Terms, files: Seq<FileEntry>, indexes: Seq<usize>)
    requires
        indexes.no_duplicates(),
    ensures
        are_found(
            t,
            files,
            false,
            |i: usize| indexes.contains(i),
            rank::candidate_results(t, files, indexes),
        ),
    decreases indexes.len(),
{
    let all = rank::candidate_results(t, files, indexes);
    let part = |i: usize| indexes.contains(i);
    if indexes.len() > 0 {
        let init = indexes.drop_last();
        let index = indexes.last();
        lemma_candidates_scanned(t, files, init);
        let before = rank::candidate_results(t, files, init);
        assert(indexes =~= init.push(index));
        assert(!init.contains(index)) by {
            if init.contains(index) {
                let k = init.index_of(index);
                assert(indexes[k] == indexes[indexes.len() - 1]);
            }
        }
        assert forall|k: int| 0 <= k < before.len() implies (#[trigger] before[k]).index
            != index by {
            assert(before.contains(before[k]));
        }
        assert forall|m: MatchEntry| #[trigger] all.contains(m) <==> m.index < files.len() && part(
            m.index,
        ) && found_score(t, files, false, m.index as int) == Some(m.score) by {
            lemma_listed(init, index, m.index);
            assert(before.contains(m) || !before.contains(m));
            if index < files.len() {
                if let Some(v) = search::pass_score(t, files[index as int]@.path, ScanPass::Plain) {
                    lemma_pushed(before, MatchEntry { index, score: v as i128 }, m);
                }
            }
        }
    }
}

proof fn lemma_candidates_with_typos(t: Terms, files: Seq<FileEntry>, indexes: Seq<usize>, n: int)
    requires
        indexes.no_duplicates(),
        0 <= n <= indexes.len(),
    ensures
        ({
            let plain = rank::candidate_results(t, files, indexes);
            let all = rank::with_candidate_typos(t, files, indexes.take(n), plain);
            &&& no_entry_twice(all)
            &&& forall|m: MatchEntry|
                #[trigger] all.contains(m) <==> plain.contains(m) || (m.index < files.len()
                    && indexes.take(n).contains(m.index) && !rank::has_index(plain, m.index)
                    && found_score(t, files, true, m.index as int) == Some(m.score))
        }),
    decreases n,
{
    let plain = rank::candidate_results(t, files, indexes);
    let list = indexes.take(n);
    let all = rank::with_candidate_typos(t, files, list, plain);
    lemma_candidates_scanned(t, files, indexes);
    if n > 0 {
        let init = indexes.take(n - 1);
        let index = indexes[n - 1];
        assert(list.drop_last() =~= init);
        assert(list =~= init.push(index));
        lemma_candidates_with_typos(t, files, indexes, n - 1);
        let before = rank::with_candidate_typos(t, files, init, plain);
        assert(!init.contains(index)) by {
            if init.contains(index) {
                let k = init.index_of(index);
                assert(indexes[k] == indexes[n - 1]);
            }
        }
        lemma_has_index(before, index);
        lemma_has_index(plain, index);
        assert(rank::has_index(before, index) == rank::has_index(plain, index)) by {
            if rank::has_index(plain, index) {
                let k = choose|k: int| 0 <= k < plain.len() && (#[trigger] plain[k]).index == index;
                assert(plain.contains(plain[k]));
                assert(before.contains(plain[k]));
                let j = before.index_of(plain[k]);
                assert(before[j].index == index);
            }
            if rank::has_index(before, index) {
                let k = choose|k: int|
                    0 <= k < before.len() && (#[trigger] before[k]).index == index;
                assert(before.contains(before[k]));
                assert(plain.contains(before[k]));
                let j = plain.index_of(before[k]);
                assert(plain[j].index == index);
            }
        }
        assert(index < files.len() && !rank::has_index(plain, index) ==> search::pass_score(
            t,
            files[index as int]@.path,
            ScanPass::Plain,
        ) is None) by {
            if index < files.len() && !rank::has_index(plain, index) {
                if let Some(v) = search::pass_score(t, files[index as int]@.path, ScanPass::Plain) {
                    let own = MatchEntry { index, score: v as i128 };
                    assert(indexes.contains(index));
                    assert(plain.contains(own));
                    let j = plain.index_of(own);
                    assert(plain[j].index == index);
                }
            }
        }
        assert forall|m: MatchEntry| #[trigger] all.contains(m) <==> plain.contains(m) || (m.index
            < files.len() && list.contains(m.index) && !rank::has_index(plain, m.index)
            && found_score(t, files, true, m.index as int) == Some(m.score)) by {
            lemma_listed(init, index, m.index);
            assert(before.contains(m) || !before.contains(m));
            if index < files.len() && !rank::has_index(before, index) {
                if let Some(v) = search::pass_score(t, files[index as int]@.path, ScanPass::Typo) {
                    lemma_pushed(before, MatchEntry { index, score: v as i128 }, m);
                }
            }
        }
        if !rank::has_index(before, index) {
            assert forall|k: int| 0 <= k < before.len() implies (#[trigger] before[k]).index
                != index by {}
        }
    }
}

/// A search of some candidates: the matches before they are ranked are just those of the
/// candidates that are found.
proof fn lemma_candidates_found(t: Terms, files: Seq<FileEntry>, indexes: Seq<usize>, typos: bool)
    requires
        indexes.no_duplicates(),
    ensures
        ({
            let plain = rank::candidate_results(t, files, indexes);
            are_found(
                t,
                files,
                typos,
                |i: usize| indexes.contains(i),
                if typos {
                    rank::with_candidate_typos(t, files, indexes, plain)
                } else {
                    plain
                },
            )
        }),
{
    let plain = rank::candidate_results(t, files, indexes);
    lemma_candidates_scanned(t, files, indexes);
    if typos {
        let part = |i: usize| indexes.contains(i);
        assert(indexes.take(indexes.len() as int) =~= indexes);
        lemma_candidates_with_typos(t, files, indexes, indexes.len() as int);
        let all = rank::with_candidate_typos(t, files, indexes, plain);
        assert forall|m: MatchEntry| #[trigger] all.contains(m) <==> m.index < files.len() && part(
            m.index,
        ) && found_score(t, files, true, m.index as int) == Some(m.score) by {
            assert(plain.contains(m) || !plain.contains(m));
            lemma_has_index(plain, m.index);
            if m.index < files.len() && part(m.index) {
                if let Some(v) = search::pass_score(
                    t,
                    files[m.index as int]@.path,
                    ScanPass::Plain,
                ) {
                    let own = MatchEntry { index: m.index, score: v as i128 };
                    assert(plain.contains(own));
                    let k = plain.index_of(own);
                    assert(plain[k].index == m.index);
                } else if rank::has_index(plain, m.index) {
                    let k = choose|k: int|
                        0 <= k < plain.len() && (#[trigger] plain[k]).index == m.index;
                    assert(plain.contains(plain[k]));
                }
            }
        }
    }
}

proof fn lemma_same_sorted(a: Seq<MatchEntry>, b: Seq<MatchEntry>)
    requires
        no_entry_twice(a),
        no_entry_twice(b),
        rank::is_ordered(a),
        rank::is_ordered(b),
        forall|m: MatchEntry| #[trigger] a.contains(m) <==> b.contains(m),
    ensures
        a == b,
{
    broadcast use group_to_multiset_ensures;

    let le = |x: MatchEntry, y: MatchEntry| x == y || rank::match_before(x, y);
    assert(total_ordering(le));
    assert(a.no_duplicates()) by {
        assert forall|i: int, j: int| 0 <= i < a.len() && 0 <= j < a.len() && i != j implies a[i]
            != a[j] by {
            if i < j {
                assert(a[i].index != a[j].index);
            } else {
                assert(a[j].index != a[i].index);
            }
        }
    }
    assert(b.no_duplicates()) by {
        assert forall|i: int, j: int| 0 <= i < b.len() && 0 <= j < b.len() && i != j implies b[i]
            != b[j] by {
            if i < j {
                assert(b[i].index != b[j].index);
            } else {
                assert(b[j].index != b[i].index);
            }
        }
    }
    assert forall|i: int, j: int| 0 <= i < j < a.len() implies #[trigger] le(a[i], a[j]) by {
        assert(!rank::match_before(a[j], a[i]));
        assert(a[i].index != a[j].index);
    }
    assert forall|i: int, j: int| 0 <= i < j < b.len() implies #[trigger] le(b[i], b[j]) by {
        assert(!rank::match_before(b[j], b[i]));
        assert(b[i].index != b[j].index);
    }
    a.lemma_multiset_has_no_duplicates();
    b.lemma_multiset_has_no_duplicates();
    assert(a.to_multiset() =~= b.to_multiset()) by {
        assert forall|m: MatchEntry| a.to_multiset().count(m) == b.to_multiset().count(m) by {
            assert(a.contains(m) <==> b.contains(m));
            assert(a.to_multiset().contains(m) <==> a.contains(m));
            assert(b.to_multiset().contains(m) <==> b.contains(m));
        }
    }
    lemma_sorted_unique(a, b, le);
}

proof fn lemma_filled_pool(candidates: Seq<usize>, more: Seq<usize>, limit: nat)
    requires
        candidates.no_duplicates(),
    ensures
        rank::filled_pool(candidates, more, limit).no_duplicates(),
        candidates.len() <= rank::filled_pool(candidates, more, limit).len(),
        candidates.len() >= limit ==> rank::filled_pool(candidates, more, limit) == candidates,
        forall|x: usize|
            candidates.contains(x) ==> #[trigger] rank::filled_pool(
                candidates,
                more,
                limit,
            ).contains(x),
    decreases more.len(),
{
    if more.len() > 0 {
        lemma_filled_pool(candidates, more.drop_last(), limit);
        let pool = rank::filled_pool(candidates, more.drop_last(), limit);
        assert forall|x: usize| candidates.contains(x) implies #[trigger] rank::filled_pool(
            candidates,
            more,
            limit,
        ).contains(x) by {
            assert(pool.contains(x));
            lemma_listed(pool, more.last(), x);
        }
    }
}

/// The candidates that are kept of some results, in a pool that has room for all that is shown:
/// no place comes twice, the best results are among them, and others only where there is room
/// for every result.
proof fn lemma_kept_candidates(
    results: Seq<MatchEntry>,
    fallback: Seq<usize>,
    limit: nat,
    candidate_limit: nat,
)
    requires
        results.len() <= usize::MAX,
        no_entry_twice(results),
        0 < limit <= candidate_limit,
    ensures
        ({
            let kept = rank::kept_matches(results, limit, candidate_limit);
            let pool = rank::concluded(results, fallback, limit, candidate_limit).1;
            &&& no_entry_twice(kept)
            &&& rank::is_ordered(kept)
            &&& kept.len() <= candidate_limit
            &&& kept.len() <= results.len()
            &&& kept.len() == results.len() || kept.len() == candidate_limit
            &&& forall|m: MatchEntry| #[trigger] kept.contains(m) ==> results.contains(m)
            &&& kept.len() == results.len() ==> forall|m: MatchEntry|
                #[trigger] results.contains(m) ==> kept.contains(m)
            &&& pool.no_duplicates()
            &&& forall|m: MatchEntry| #[trigger] kept.contains(m) ==> pool.contains(m.index)
            &&& forall|i: usize|
                #[trigger] pool.contains(i) ==> rank::has_index(kept, i) || (kept.len()
                    == results.len() && fallback.contains(i))
        }),
{
    lemma_sorted(results);
    let sorted = order::ranked(results, rank::best_first());
    let kept = rank::kept_matches(results, limit, candidate_limit);
    let list = rank::indexes_of(kept);
    let pool = rank::concluded(results, fallback, limit, candidate_limit).1;
    assert(kept =~= sorted.take(kept.len() as int));
    assert forall|m: MatchEntry| #[trigger] kept.contains(m) implies results.contains(m) by {
        let k = kept.index_of(m);
        assert(sorted[k] == m);
        assert(sorted.contains(m));
    }
    if kept.len() == results.len() {
        assert(kept =~= sorted);
        assert forall|m: MatchEntry| #[trigger] results.contains(m) implies kept.contains(m) by {
            assert(sorted.contains(m));
        }
    }
    assert(list.no_duplicates()) by {
        assert forall|i: int, j: int|
            0 <= i < list.len() && 0 <= j < list.len() && i != j implies list[i] != list[j] by {
            if i < j {
                assert(kept[i].index != kept[j].index);
            } else {
                assert(kept[j].index != kept[i].index);
            }
        }
    }
    rank::lemma_merged_pool(list, fallback, candidate_limit);
    lemma_filled_pool(list, fallback, candidate_limit);
    if list.len() >= candidate_limit {
        assert(pool =~= list);
    }
    assert forall|m: MatchEntry| #[trigger] kept.contains(m) implies pool.contains(m.index) by {
        let k = kept.index_of(m);
        assert(list[k] == m.index);
        assert(list.contains(m.index));
    }
    assert forall|i: usize| #[trigger] pool.contains(i) implies rank::has_index(kept, i) || (
    kept.len() == results.len() && fallback.contains(i)) by {
        assert(rank::merged_pool(list, fallback, candidate_limit).contains(i));
    }
}

proof fn lemma_fewer(a: Seq<MatchEntry>, b: Seq<MatchEntry>)
    requires
        no_entry_twice(a),
        forall|m: MatchEntry| #[trigger] a.contains(m) ==> b.contains(m),
    ensures
        a.len() <= b.len(),
{
    assert(a.no_duplicates()) by {
        assert forall|i: int, j: int| 0 <= i < a.len() && 0 <= j < a.len() && i != j implies a[i]
            != a[j] by {
            if i < j {
                assert(a[i].index != a[j].index);
            } else {
                assert(a[j].index != a[i].index);
            }
        }
    }
    a.unique_seq_to_set();
    b.lemma_cardinality_of_set();
    assert(a.to_set().subset_of(b.to_set())) by {
        assert forall|m: MatchEntry| a.to_set().contains(m) implies b.to_set().contains(m) by {
            assert(a.contains(m));
        }
    }
    seq_to_set_is_finite(b);
    vstd::set_lib::lemma_len_subset(a.to_set(), b.to_set());
}

/// To search among the candidates that a search has left gives the same matches again.
proof fn lemma_again(
    t: Terms,
    files: Seq<FileEntry>,
    part: spec_fn(usize) -> bool,
    plain: Seq<MatchEntry>,
    results: Seq<MatchEntry>,
    fallback: Seq<usize>,
    limit: nat,
    candidate_limit: nat,
)
    requires
        files.len() <= usize::MAX,
        0 < limit <= candidate_limit,
        are_found(t, files, false, part, plain),
        ({
            let typos = !rank::is_enough(plain.len(), limit, t.words.len());
            are_found(t, files, typos, part, results) && (!typos ==> results == plain)
        }),
        forall|i: usize| #[trigger] fallback.contains(i) ==> part(i),
    ensures
        ({
            let found = rank::concluded(results, fallback, limit, candidate_limit);
            rank::candidate_matches(t, files, found.1, limit, candidate_limit).0 == found.0
        }),
{
    let enough = rank::is_enough(plain.len(), limit, t.words.len());
    let typos = !enough;
    let (shown, pool) = rank::concluded(results, fallback, limit, candidate_limit);
    let kept = rank::kept_matches(results, limit, candidate_limit);
    assert forall|m: MatchEntry| #[trigger] results.contains(m) implies m.index
        < files.len() by {}
    lemma_found_count(files.len(), results);
    lemma_kept_candidates(results, fallback, limit, candidate_limit);
    lemma_candidates_found(t, files, pool, false);
    lemma_candidates_found(t, files, pool, true);
    let plain2 = rank::candidate_results(t, files, pool);
    let part2 = |i: usize| pool.contains(i);
    assert forall|i: usize| #[trigger] pool.contains(i) implies part(i) by {
        if rank::has_index(kept, i) {
            lemma_has_index(kept, i);
            let k = choose|k: int| 0 <= k < kept.len() && (#[trigger] kept[k]).index == i;
            assert(kept.contains(kept[k]));
            assert(results.contains(kept[k]));
        } else {
            assert(fallback.contains(i));
        }
    }
    assert forall|m: MatchEntry| #[trigger] plain2.contains(m) implies plain.contains(m) by {
        assert(part2(m.index));
        assert(pool.contains(m.index));
    }
    lemma_fewer(plain2, plain);
    if enough {
        assert forall|m: MatchEntry| #[trigger] kept.contains(m) implies plain2.contains(m) by {
            assert(results.contains(m));
            assert(part2(m.index));
        }
        lemma_fewer(kept, plain2);
    }
    assert(rank::is_enough(plain2.len(), limit, t.words.len()) == enough);
    let results2 = if typos {
        rank::with_candidate_typos(t, files, pool, plain2)
    } else {
        plain2
    };
    assert forall|m: MatchEntry| #[trigger] results2.contains(m) <==> kept.contains(m) by {
        if results2.contains(m) {
            assert(part2(m.index));
            assert(pool.contains(m.index));
            assert(results.contains(m));
            if kept.len() < results.len() {
                assert(rank::has_index(kept, m.index));
                lemma_has_index(kept, m.index);
                let k = choose|k: int| 0 <= k < kept.len() && (#[trigger] kept[k]).index == m.index;
                assert(kept.contains(kept[k]));
                assert(results.contains(kept[k]));
                assert(kept[k] == m);
            }
            assert(kept.contains(m));
        }
        if kept.contains(m) {
            assert(results.contains(m));
            assert(pool.contains(m.index));
            assert(part2(m.index));
            assert(results2.contains(m));
        }
    }
    assert forall|m: MatchEntry| #[trigger] results2.contains(m) implies m.index
        < files.len() by {}
    lemma_found_count(files.len(), results2);
    lemma_sorted(results2);
    let sorted2 = order::ranked(results2, rank::best_first());
    assert forall|m: MatchEntry| #[trigger] sorted2.contains(m) <==> kept.contains(m) by {
        assert(results2.contains(m) <==> kept.contains(m));
    }
    lemma_same_sorted(sorted2, kept);
    assert(rank::kept_matches(results2, limit, candidate_limit) =~= kept);
}

proof fn lemma_warm_in_range(
    t: Terms,
    files: Seq<FileEntry>,
    pass: ScanPass,
    limit: nat,
    to: int,
)
    requires
        0 <= to <= files.len() <= usize::MAX,
    ensures
        forall|i: usize| #[trigger] search::scan_warm(t, files, pass, limit, 0, to).contains(i)
            ==> i < to,
    decreases to,
{
    if to > 0 {
        lemma_warm_in_range(t, files, pass, limit, to - 1);
        let before = search::scan_warm(t, files, pass, limit, 0, to - 1);
        let all = search::scan_warm(t, files, pass, limit, 0, to);
        assert forall|i: usize| #[trigger] all.contains(i) implies i < to by {
            lemma_listed(before, (to - 1) as usize, i);
            assert(before.contains(i) || !before.contains(i));
        }
    }
}

/// The candidates that a search of all entries leaves give the same matches for the same query
/// again.
pub proof fn lemma_candidates_give_the_same(
    query: Seq<char>,
    files: Seq<FileEntry>,
    limit: nat,
    candidate_limit: nat,
)
    requires
        query.len() > 0,
        files.len() <= usize::MAX,
        0 < limit <= candidate_limit,
    ensures
        ({
            let found = rank::query_matches(query, files, limit, candidate_limit);
            &&& rank::candidate_matches(
                search::terms(query),
                files,
                found.1,
                limit,
                candidate_limit,
            ).0 == found.0
            &&& found.1.no_duplicates()
        }),
{
    let t = search::terms(query);
    let n = files.len() as int;
    let plain = search::scan_results(t, files, ScanPass::Plain, 0, n);
    let warm = search::scan_warm(t, files, ScanPass::Plain, candidate_limit, 0, n);
    let typos = !rank::is_enough(plain.len(), limit, t.words.len());
    let results = if typos {
        rank::with_others(plain, search::scan_results(t, files, ScanPass::Typo, 0, n))
    } else {
        plain
    };
    lemma_all_found(t, files, false);
    lemma_all_found(t, files, typos);
    assert forall|m: MatchEntry| #[trigger] results.contains(m) implies m.index
        < files.len() by {}
    lemma_found_count(files.len(), results);
    lemma_kept_candidates(results, warm, limit, candidate_limit);
    let part = |i: usize| true;
    lemma_again(t, files, part, plain, results, warm, limit, candidate_limit);
}

/// So do the candidates that a search of some candidates leaves.
pub proof fn lemma_fewer_candidates_give_the_same(
    query: Seq<char>,
    files: Seq<FileEntry>,
    indexes: Seq<usize>,
    limit: nat,
    candidate_limit: nat,
)
    requires
        files.len() <= usize::MAX,
        indexes.no_duplicates(),
        0 < limit <= candidate_limit,
    ensures
        ({
            let t = search::terms(query);
            let found = rank::candidate_matches(t, files, indexes, limit, candidate_limit);
            &&& rank::candidate_matches(t, files, found.1, limit, candidate_limit).0 == found.0
            &&& found.1.no_duplicates()
        }),
{
    let t = search::terms(query);
    let plain = rank::candidate_results(t, files, indexes);
    let typos = !rank::is_enough(plain.len(), limit, t.words.len());
    let results = if typos {
        rank::with_candidate_typos(t, files, indexes, plain)
    } else {
        plain
    };
    lemma_candidates_found(t, files, indexes, false);
    lemma_candidates_found(t, files, indexes, typos);
    assert forall|m: MatchEntry| #[trigger] results.contains(m) implies m.index
        < files.len() by {}
    lemma_found_count(files.len(), results);
    lemma_kept_candidates(results, indexes, limit, candidate_limit);
    let part = |i: usize| indexes.contains(i);
    lemma_again(t, files, part, plain, results, indexes, limit, candidate_limit);
}

/// A search of some candidates shows the best of those that are found, and nothing that is no
/// candidate.
pub proof fn lemma_candidates_show_best(
    query: Seq<char>,
    files: Seq<FileEntry>,
    indexes: Seq<usize>,
    limit: nat,
    candidate_limit: nat,
)
    requires
        files.len() <= usize::MAX,
        indexes.no_duplicates(),
        limit > 0,
    ensures
        ({
            let t = search::terms(query);
            let count = rank::candidate_results(t, files, indexes).len();
            let typos = count < limit && (t.words.len() > 1 ==> count == 0);
            shows_best(
                rank::candidate_matches(t, files, indexes, limit, candidate_limit).0,
                limit,
                |m: MatchEntry|
                    m.index < files.len() && indexes.contains(m.index) && found_score(
                        t,
                        files,
                        typos,
                        m.index as int,
                    ) == Some(m.score),
            )
        }),
{
    let t = search::terms(query);
    let plain = rank::candidate_results(t, files, indexes);
    let typos = plain.len() < limit && (t.words.len() > 1 ==> plain.len() == 0);
    let results = if typos {
        rank::with_candidate_typos(t, files, indexes, plain)
    } else {
        plain
    };
    let is_found = |m: MatchEntry|
        m.index < files.len() && indexes.contains(m.index) && found_score(
            t,
            files,
            typos,
            m.index as int,
        ) == Some(m.score);
    lemma_candidates_found(t, files, indexes, typos);
    assert forall|m: MatchEntry| #[trigger] results.contains(m) <==> is_found(m) by {}
    assert forall|m: MatchEntry| #[trigger] results.contains(m) implies m.index
        < files.len() by {}
    lemma_found_count(files.len(), results);
    lemma_concluded_shows_best(results, indexes, limit, candidate_limit, is_found);
}

// ---------------------------------------------------------------------------
// Names, paths and candidates
// ---------------------------------------------------------------------------

/// Without typos, a single word is looked for in the name alone: entries of the same name have
/// the same score, wherever they are.
pub proof fn lemma_single_word_by_name(t: Terms, path: Seq<char>, other: Seq<char>)
    requires
        t.words.len() == 1,
        entry::lower_name_of(path) == entry::lower_name_of(other),
    ensures
        search::pass_score(t, path, ScanPass::Plain) == search::pass_score(
            t,
            other,
            ScanPass::Plain,
        ),
{
}

/// A single word is found with typos in the name alone. In the path it has to match without.
pub proof fn lemma_single_word_with_typos(t: Terms, path: Seq<char>)
    requires
        t.words.len() == 1,
        search::pass_score(t, path, ScanPass::Typo) is Some,
    ensures
        fuzzy::fuzzy_word(t.words[0], entry::lower_name_of(path), true) is Some
            || fuzzy::fuzzy_word(t.words[0], entry::lower_path_of(path), false) is Some,
{
    let (name, whole) = (entry::lower_name_of(path), entry::lower_path_of(path));
    match_laws::lemma_every_word_has_to_match(t.words, name, search::NAME_BASE as int, true);
    match_laws::lemma_every_word_has_to_match(t.words, whole, search::PATH_BASE as int, false);
    assert(t.words[0] == t.words[t.words.len() - 1]);
}

/// Several words may be spread over the path, with or without typos.
pub proof fn lemma_several_words_by_path(t: Terms, path: Seq<char>)
    requires
        t.words.len() > 1,
    ensures
        all_match(t.words, entry::lower_path_of(path), false) ==> search::pass_score(
            t,
            path,
            ScanPass::Plain,
        ) is Some,
        all_match(t.words, entry::lower_path_of(path), true) ==> search::pass_score(
            t,
            path,
            ScanPass::Typo,
        ) is Some,
{
    lemma_entry_is_found(t.lower, t.words, path, false, true);
    lemma_entry_is_found(t.lower, t.words, path, true, true);
}

/// A word that stands in the path as it is, but not in the name, counts by the path too: the
/// score is not below that of the path.
pub proof fn lemma_word_in_directory(
    lower: Seq<char>,
    word: Seq<char>,
    path: Seq<char>,
    allow_typos: bool,
)
    requires
        text::trim(lower) == word,
        encoding::byte_len(word) >= 2,
        text::contains(entry::lower_path_of(path), word),
        !text::contains(entry::lower_name_of(path), word),
        fuzzy::text_score(seq![word], entry::lower_path_of(path), 30_000, false) is Some,
    ensures
        search::entry_score(lower, seq![word], path, allow_typos, true) matches Some(score)
            && score >= fuzzy::text_score(
            seq![word],
            entry::lower_path_of(path),
            30_000,
            false,
        )->0,
{
}

/// Whether the characters of a text can be found in another one, in their order.
pub open spec fn is_spelled(word: Seq<char>, text: Seq<char>) -> bool {
    exists|places: Seq<int>| fuzzy::spells(places, word, text, 0)
}

/// Up to six characters, an entry whose name or path has them in their order stays a candidate.
/// With more than two, so does one that has a word of two characters or more in it. A query
/// without characters leaves all.
pub proof fn lemma_candidates_stay_warm(
    compact: Seq<char>,
    words: Seq<Seq<char>>,
    path: Seq<char>,
    k: int,
)
    ensures
        compact.len() == 0 ==> search::is_warm(compact, compact.len(), words, path),
        compact.len() <= 6 && (is_spelled(compact, entry::lower_name_of(path)) || is_spelled(
            compact,
            entry::lower_path_of(path),
        )) ==> search::is_warm(compact, compact.len(), words, path),
        compact.len() > 2 && 0 <= k < words.len() && words[k].len() >= 2 && (text::contains(
            entry::lower_name_of(path),
            words[k],
        ) || text::contains(entry::lower_path_of(path), words[k])) ==> search::is_warm(
            compact,
            compact.len(),
            words,
            path,
        ),
        compact.len() > 6 && (forall|i: int|
            0 <= i < words.len() ==> !text::contains(
                entry::lower_name_of(path),
                #[trigger] words[i],
            ) && !text::contains(entry::lower_path_of(path), words[i])) ==> !search::is_warm(
            compact,
            compact.len(),
            words,
            path,
        ),
{
    let (name, whole) = (entry::lower_name_of(path), entry::lower_path_of(path));
    if is_spelled(compact, name) {
        let places = choose|places: Seq<int>| fuzzy::spells(places, compact, name, 0);
        fuzzy::lemma_chain_complete(places, compact, name, 0);
    }
    if is_spelled(compact, whole) {
        let places = choose|places: Seq<int>| fuzzy::spells(places, compact, whole, 0);
        fuzzy::lemma_chain_complete(places, compact, whole, 0);
    }
}

} // verus!
