//! Finding the entries that match a query.
use vstd::prelude::*;
use vstd::string::*;

use crate::encoding;
use crate::encoding::byte_length;
use crate::entry;
use crate::entry::FileEntry;
use crate::fuzzy;
use crate::fuzzy::chars_in_order;
use crate::fuzzy::fuzzy_match_text_score;
use crate::history;
use crate::order::Duplicate;
use crate::text;
use crate::text::chars_of;
use crate::text::contains_chars;
use crate::text::lowercase_of;
use crate::text::same_text;
use crate::text::split_words;
use crate::text::string_of;
use crate::text::trimmed;
use crate::text::whitespace;

verus! {

/// How many matches are shown.
pub const MATCH_LIMIT: usize = 50;

/// How many entries are kept as candidates for a longer query.
pub const MATCH_CANDIDATE_LIMIT: usize = 1024;

/// How many threads search at most.
pub const SEARCH_WORKER_MAX: usize = 8;

/// The number of entries below which one thread searches.
pub const PARALLEL_SCORE_MIN_FILES: usize = 8_192;

/// What a match by name starts from, in fifths of a point.
pub const NAME_BASE: i64 = 50_000;

/// What a match by path starts from, in fifths of a point.
pub const PATH_BASE: i64 = 30_000;

/// The score of every entry for an empty query, in fifths of a point.
pub const EMPTY_QUERY_SCORE: i128 = 500;

/// An entry that matches, by its place among the entries, and its score in fifths
/// of a point.
#[derive(Clone, Copy, Debug, PartialEq, Eq, Structural)]
pub struct MatchEntry {
    pub index: usize,
    pub score: i128,
}

impl Duplicate for MatchEntry {
    fn duplicate(&self) -> (r: Self) {
        *self
    }
}

// ---------------------------------------------------------------------------
// Queries
// ---------------------------------------------------------------------------

/// What is looked for: the query in lowercase, its words, and its characters that
/// are not whitespace.
pub ghost struct Terms {
    pub lower: Seq<char>,
    pub words: Seq<Seq<char>>,
    pub compact: Seq<char>,
}

/// The characters of a text that are not whitespace.
pub open spec fn compacted(s: Seq<char>) -> Seq<char>
    decreases s.len(),
{
    if s.len() == 0 {
        s
    } else if text::is_whitespace(s.last()) {
        compacted(s.drop_last())
    } else {
        compacted(s.drop_last()).push(s.last())
    }
}

/// What is looked for with a query.
pub open spec fn terms(query: Seq<char>) -> Terms {
    let lower = text::lowercase(query);
    Terms { lower, words: text::words(lower), compact: compacted(lower) }
}

/// What is looked for with a query.
pub struct QueryTerms {
    lower: String,
    words: Vec<String>,
    compact: String,
    compact_count: usize,
}

impl View for QueryTerms {
    type V = Terms;

    closed spec fn view(&self) -> Terms {
        Terms {
            lower: self.lower@,
            words: text::text_views(self.words@),
            compact: self.compact@,
        }
    }
}

impl QueryTerms {
    #[verifier::type_invariant]
    spec fn wf(self) -> bool {
        &&& text::char_total(text::text_views(self.words@)) <= usize::MAX
        &&& self.compact_count == self.compact@.len()
    }

    /// What is looked for with a query.
    pub fn new(query: &str) -> (r: Self)
        ensures
            r@ == terms(query@),
    {
        let lower = lowercase_of(query);
        let chars = chars_of(lower.as_str());
        let size: usize = chars.len();
        let lists = split_words(chars.as_slice());
        let ghost all = text::views(lists@);
        let mut words: Vec<String> = Vec::new();
        let mut i: usize = 0;
        proof {
            assert(text::text_views(words@) =~= all.take(0));
        }
        while i < lists.len()
            invariant
                i <= lists@.len(),
                all == text::views(lists@),
                text::text_views(words@) == all.take(i as int),
            decreases lists.len() - i,
        {
            let ghost before = words@;
            let word = string_of(lists[i].as_slice());
            words.push(word);
            proof {
                assert(text::text_views(words@) =~= text::text_views(before).push(word@));
                assert(all.take(i + 1) =~= all.take(i as int).push(all[i as int]));
            }
            i += 1;
        }
        let mut compact = String::new();
        let mut compact_count: usize = 0;
        let mut j: usize = 0;
        while j < size
            invariant
                j <= size == chars@.len(),
                compact_count == compact@.len(),
                compact_count <= j,
                compact@ == compacted(chars@.take(j as int)),
            decreases size - j,
        {
            proof {
                assert(chars@.take(j + 1).drop_last() =~= chars@.take(j as int));
            }
            if !whitespace(chars[j]) {
                compact.push(chars[j]);
                compact_count += 1;
            }
            j += 1;
        }
        proof {
            assert(all.take(all.len() as int) =~= all);
            assert(chars@.take(chars@.len() as int) =~= chars@);
            text::lemma_words_total(chars@);
        }
        QueryTerms { lower, words, compact, compact_count }
    }

    /// How many words there are.
    pub fn word_count(&self) -> (r: usize)
        ensures
            r == self@.words.len(),
    {
        self.words.len()
    }
}

// ---------------------------------------------------------------------------
// One entry
// ---------------------------------------------------------------------------

/// Whether the path of an entry is looked at besides its name: if there are
/// several words or the name does not match, or else if the query stands in the
/// path alone.
pub open spec fn scores_path(
    lower: Seq<char>,
    words: Seq<Seq<char>>,
    name_matches: bool,
    path: Seq<char>,
) -> bool {
    let compact = text::trim(lower);
    words.len() > 1 || !name_matches || (encoding::byte_len(compact) >= 2 && !text::contains(
        entry::lower_name_of(path),
        compact,
    ) && text::contains(entry::lower_path_of(path), compact))
}

/// The better of two scores.
pub open spec fn better_score(a: Option<int>, b: Option<int>) -> Option<int> {
    match (a, b) {
        (Some(x), Some(y)) => if x <= y {
            b
        } else {
            a
        },
        (Some(_), None) => a,
        (None, _) => b,
    }
}

/// The score of an entry for a query: by its name, or by its path if that is
/// better and is looked at.
pub open spec fn entry_score(
    lower: Seq<char>,
    words: Seq<Seq<char>>,
    path: Seq<char>,
    allow_typos: bool,
    include_path: bool,
) -> Option<int> {
    if words.len() == 0 {
        None
    } else {
        let by_name = fuzzy::text_score(
            words,
            entry::lower_name_of(path),
            NAME_BASE as int,
            allow_typos,
        );
        let by_path = if include_path && entry::lower_path_of(path) != entry::lower_name_of(path)
            && scores_path(lower, words, by_name is Some, path) {
            fuzzy::text_score(
                words,
                entry::lower_path_of(path),
                PATH_BASE as int,
                allow_typos && words.len() > 1,
            )
        } else {
            None
        };
        better_score(by_name, by_path)
    }
}

/// Whether the path of an entry is looked at besides its name.
pub fn should_score_path(
    query_lower: &str,
    query_words: &Vec<String>,
    name_score: Option<i128>,
    entry: &FileEntry,
) -> (r: bool)
    ensures
        r == scores_path(
            query_lower@,
            text::text_views(query_words@),
            name_score is Some,
            entry@.path,
        ),
{
    if query_words.len() > 1 || name_score.is_none() {
        return true;
    }
    let chars = chars_of(query_lower);
    let compact = trimmed(chars.as_slice());
    let whole = string_of(compact.as_slice());
    if byte_length(whole.as_str()) < 2 {
        return false;
    }
    let name = chars_of(entry.name_lower());
    if contains_chars(name.as_slice(), compact.as_slice()) {
        return false;
    }
    let path = chars_of(entry.path_lower());
    contains_chars(path.as_slice(), compact.as_slice())
}

/// Scores an entry for a query, in fifths of a point.
pub fn file_match_score(
    query_lower: &str,
    query_words: &Vec<String>,
    entry: &FileEntry,
    allow_typos: bool,
    include_path: bool,
) -> (r: Option<i128>)
    requires
        text::char_total(text::text_views(query_words@)) <= usize::MAX,
    ensures
        match r {
            Some(v) => entry_score(
                query_lower@,
                text::text_views(query_words@),
                entry@.path,
                allow_typos,
                include_path,
            ) == Some(v as int),
            None => entry_score(
                query_lower@,
                text::text_views(query_words@),
                entry@.path,
                allow_typos,
                include_path,
            ) is None,
        },
{
    if query_words.len() == 0 {
        return None;
    }
    let name_score = fuzzy_match_text_score(
        query_words,
        entry.name_lower(),
        NAME_BASE,
        allow_typos,
    );
    let path_score = if !include_path || same_text(entry.path_lower(), entry.name_lower())
        || !should_score_path(query_lower, query_words, name_score, entry) {
        None
    } else {
        fuzzy_match_text_score(
            query_words,
            entry.path_lower(),
            PATH_BASE,
            allow_typos && query_words.len() > 1,
        )
    };
    match (name_score, path_score) {
        (Some(a), Some(b)) => if a <= b {
            Some(b)
        } else {
            Some(a)
        },
        (Some(a), None) => Some(a),
        (None, b) => b,
    }
}

/// Whether a word of two characters or more stands in a text.
pub open spec fn has_word(words: Seq<Seq<char>>, path: Seq<char>) -> bool {
    exists|i: int|
        #![trigger words[i]]
        0 <= i < words.len() && words[i].len() >= 2 && (text::contains(
            entry::lower_name_of(path),
            words[i],
        ) || text::contains(entry::lower_path_of(path), words[i]))
}

/// Whether the characters of a query stand in order in the name or the path.
pub open spec fn has_chars(compact: Seq<char>, path: Seq<char>) -> bool {
    fuzzy::chain_end(compact, entry::lower_name_of(path), 0) is Some || fuzzy::chain_end(
        compact,
        entry::lower_path_of(path),
        0,
    ) is Some
}

/// Whether an entry is worth keeping in mind while a query is being typed: it has
/// one of the words, or, for a query of up to six characters, those characters in
/// order. A query of one or two characters goes by these alone.
pub open spec fn is_warm(
    compact: Seq<char>,
    count: nat,
    words: Seq<Seq<char>>,
    path: Seq<char>,
) -> bool {
    if compact.len() == 0 {
        true
    } else if count <= 2 {
        has_chars(compact, path)
    } else {
        has_word(words, path) || (count <= 6 && has_chars(compact, path))
    }
}

fn holds_chars(query_compact: &str, entry: &FileEntry) -> (r: bool)
    ensures
        r == has_chars(query_compact@, entry@.path),
{
    chars_in_order(query_compact, entry.name_lower()) || chars_in_order(
        query_compact,
        entry.path_lower(),
    )
}

/// Whether an entry is worth keeping in mind while a query is being typed.
pub fn is_incremental_warm_candidate(
    query_compact: &str,
    query_char_count: usize,
    query_words: &Vec<String>,
    entry: &FileEntry,
) -> (r: bool)
    ensures
        r == is_warm(
            query_compact@,
            query_char_count as nat,
            text::text_views(query_words@),
            entry@.path,
        ),
{
    if chars_of(query_compact).len() == 0 {
        return true;
    }
    if query_char_count <= 2 {
        return holds_chars(query_compact, entry);
    }
    let ghost words = text::text_views(query_words@);
    let name = chars_of(entry.name_lower());
    let path = chars_of(entry.path_lower());
    let mut i: usize = 0;
    while i < query_words.len()
        invariant
            i <= query_words@.len(),
            query_compact@.len() > 0,
            query_char_count > 2,
            words == text::text_views(query_words@),
            name@ == entry::lower_name_of(entry@.path),
            path@ == entry::lower_path_of(entry@.path),
            forall|k: int|
                #![trigger words[k]]
                0 <= k < i ==> !(words[k].len() >= 2 && (text::contains(name@, words[k])
                    || text::contains(path@, words[k]))),
        decreases query_words.len() - i,
    {
        let word = chars_of(query_words[i].as_str());
        proof {
            assert(words[i as int] == word@);
        }
        if word.len() >= 2 && (contains_chars(name.as_slice(), word.as_slice()) || contains_chars(
            path.as_slice(),
            word.as_slice(),
        )) {
            return true;
        }
        i += 1;
    }
    query_char_count <= 6 && holds_chars(query_compact, entry)
}

// ---------------------------------------------------------------------------
// Many entries
// ---------------------------------------------------------------------------

/// A pass over the entries: without typos, or with them.
#[derive(Clone, Copy, Debug, PartialEq, Eq, Structural)]
pub enum ScanPass {
    Plain,
    Typo,
}

/// The score of an entry in a pass. Without typos the path counts only for
/// several words.
pub open spec fn pass_score(t: Terms, path: Seq<char>, pass: ScanPass) -> Option<int> {
    match pass {
        ScanPass::Plain => entry_score(t.lower, t.words, path, false, t.words.len() > 1),
        ScanPass::Typo => entry_score(t.lower, t.words, path, true, true),
    }
}

/// Whether a pass keeps an entry in mind.
pub open spec fn pass_warm(t: Terms, path: Seq<char>, pass: ScanPass) -> bool {
    pass == ScanPass::Plain && is_warm(t.compact, t.compact.len(), t.words, path)
}

/// The entries from `from` up to `to` that match, in their order.
pub open spec fn scan_results(
    t: Terms,
    files: Seq<FileEntry>,
    pass: ScanPass,
    from: int,
    to: int,
) -> Seq<MatchEntry>
    decreases to - from,
{
    if to <= from {
        Seq::empty()
    } else {
        let before = scan_results(t, files, pass, from, to - 1);
        match pass_score(t, files[to - 1]@.path, pass) {
            Some(score) => before.push(
                MatchEntry { index: (to - 1) as usize, score: score as i128 },
            ),
            None => before,
        }
    }
}

/// The first entries from `from` up to `to` that are kept in mind, up to a number
/// of them, in their order.
pub open spec fn scan_warm(
    t: Terms,
    files: Seq<FileEntry>,
    pass: ScanPass,
    limit: nat,
    from: int,
    to: int,
) -> Seq<usize>
    decreases to - from,
{
    if to <= from {
        Seq::empty()
    } else {
        let before = scan_warm(t, files, pass, limit, from, to - 1);
        if pass_warm(t, files[to - 1]@.path, pass) && before.len() < limit {
            before.push((to - 1) as usize)
        } else {
            before
        }
    }
}

/// What a pass over some entries found: those that match, and those to keep in
/// mind.
pub struct Scan {
    pub results: Vec<MatchEntry>,
    pub warm: Vec<usize>,
}

/// Scores an entry in a pass, in fifths of a point.
pub fn score_in_pass(query: &QueryTerms, entry: &FileEntry, pass: ScanPass) -> (r: Option<i128>)
    ensures
        match r {
            Some(v) => pass_score(query@, entry@.path, pass) == Some(v as int),
            None => pass_score(query@, entry@.path, pass) is None,
        },
{
    proof {
        use_type_invariant(query);
    }
    match pass {
        ScanPass::Plain => file_match_score(
            query.lower.as_str(),
            &query.words,
            entry,
            false,
            query.words.len() > 1,
        ),
        ScanPass::Typo => file_match_score(query.lower.as_str(), &query.words, entry, true, true),
    }
}

/// Makes a pass over the entries from `from` up to `to`.
pub fn scan_chunk(
    query: &QueryTerms,
    files: &Vec<FileEntry>,
    pass: ScanPass,
    warm_limit: usize,
    from: usize,
    to: usize,
) -> (r: Scan)
    requires
        from <= to <= files@.len(),
    ensures
        r.results@ == scan_results(query@, files@, pass, from as int, to as int),
        r.warm@ == scan_warm(query@, files@, pass, warm_limit as nat, from as int, to as int),
{
    proof {
        use_type_invariant(query);
    }
    let mut results: Vec<MatchEntry> = Vec::new();
    let mut warm: Vec<usize> = Vec::new();
    let mut i: usize = from;
    while i < to
        invariant
            from <= i <= to <= files@.len(),
            query.compact_count == query@.compact.len(),
            results@ == scan_results(query@, files@, pass, from as int, i as int),
            warm@ == scan_warm(query@, files@, pass, warm_limit as nat, from as int, i as int),
        decreases to - i,
    {
        let entry = &files[i];
        if let Some(score) = score_in_pass(query, entry, pass) {
            results.push(MatchEntry { index: i, score });
        }
        let keep = match pass {
            ScanPass::Plain => is_incremental_warm_candidate(
                query.compact.as_str(),
                query.compact_count,
                &query.words,
                entry,
            ),
            ScanPass::Typo => false,
        };
        if keep && warm.len() < warm_limit {
            warm.push(i);
        }
        i += 1;
    }
    Scan { results, warm }
}

/// Two lists one behind the other, cut to a number of items.
pub open spec fn joined_to(a: Seq<usize>, b: Seq<usize>, limit: nat) -> Seq<usize> {
    history::at_most(a + b, limit)
}

/// A pass over consecutive stretches of entries finds what a pass over all of
/// them finds.
pub proof fn lemma_scan_split(
    t: Terms,
    files: Seq<FileEntry>,
    pass: ScanPass,
    limit: nat,
    from: int,
    mid: int,
    to: int,
)
    requires
        from <= mid <= to,
    ensures
        scan_results(t, files, pass, from, to) == scan_results(t, files, pass, from, mid)
            + scan_results(t, files, pass, mid, to),
        scan_warm(t, files, pass, limit, from, to) == joined_to(
            scan_warm(t, files, pass, limit, from, mid),
            scan_warm(t, files, pass, limit, mid, to),
            limit,
        ),
    decreases to - mid,
{
    lemma_warm_bounded(t, files, pass, limit, from, mid);
    let a = scan_warm(t, files, pass, limit, from, mid);
    let b = scan_warm(t, files, pass, limit, mid, to);
    if mid == to {
        assert(scan_results(t, files, pass, from, to) =~= scan_results(t, files, pass, from, mid)
            + scan_results(t, files, pass, mid, to));
        assert(a + b =~= a);
    } else {
        lemma_scan_split(t, files, pass, limit, from, mid, to - 1);
        lemma_warm_bounded(t, files, pass, limit, mid, to - 1);
        lemma_warm_bounded(t, files, pass, limit, from, to - 1);
        let b0 = scan_warm(t, files, pass, limit, mid, to - 1);
        assert(scan_results(t, files, pass, from, to) =~= scan_results(t, files, pass, from, mid)
            + scan_results(t, files, pass, mid, to));
        assert(scan_warm(t, files, pass, limit, from, to) =~= joined_to(a, b, limit));
    }
}

proof fn lemma_warm_bounded(
    t: Terms,
    files: Seq<FileEntry>,
    pass: ScanPass,
    limit: nat,
    from: int,
    to: int,
)
    ensures
        scan_warm(t, files, pass, limit, from, to).len() <= limit,
    decreases to - from,
{
    if from < to {
        lemma_warm_bounded(t, files, pass, limit, from, to - 1);
    }
}

/// Adds what a pass over the next stretch of entries found.
pub fn extend_scan(found: &mut Scan, next: Scan, warm_limit: usize)
    requires
        old(found).warm@.len() <= warm_limit,
    ensures
        final(found).results@ == old(found).results@ + next.results@,
        final(found).warm@ == joined_to(old(found).warm@, next.warm@, warm_limit as nat),
{
    let ghost before = found.warm@;
    let mut results = next.results;
    found.results.append(&mut results);
    let warm = next.warm;
    let mut i: usize = 0;
    proof {
        assert(before + warm@.take(0) =~= before);
    }
    while i < warm.len() && found.warm.len() < warm_limit
        invariant
            i <= warm@.len(),
            found.results@ == old(found).results@ + next.results@,
            found.warm@ == before + warm@.take(i as int),
            found.warm@.len() <= warm_limit,
        decreases warm.len() - i,
    {
        found.warm.push(warm[i]);
        i += 1;
        proof {
            assert(warm@.take(i as int) =~= warm@.take(i - 1).push(warm@[i - 1]));
            assert(before + warm@.take(i as int) =~= (before + warm@.take(i - 1)).push(
                warm@[i - 1],
            ));
        }
    }
    proof {
        assert(found.warm@ =~= joined_to(before, warm@, warm_limit as nat));
    }
}

/// How many threads search that many entries, if the machine can run `available`
/// of them at once.
pub fn search_worker_count(file_count: usize, available: usize) -> (r: usize)
    ensures
        r == if file_count < PARALLEL_SCORE_MIN_FILES || available < 1 {
            1
        } else if available > SEARCH_WORKER_MAX {
            SEARCH_WORKER_MAX
        } else {
            available
        },
{
    if file_count < PARALLEL_SCORE_MIN_FILES || available < 1 {
        1
    } else if available > SEARCH_WORKER_MAX {
        SEARCH_WORKER_MAX
    } else {
        available
    }
}

/// How many entries each of some threads searches: the least number with which
/// they search all.
pub fn search_chunk_size(file_count: usize, workers: usize) -> (r: usize)
    requires
        workers > 0,
    ensures
        r * workers >= file_count,
        file_count > 0 ==> (r - 1) * workers < file_count,
{
    let whole: usize = file_count / workers;
    let rest: usize = file_count % workers;
    proof {
        vstd::arithmetic::div_mod::lemma_fundamental_div_mod(file_count as int, workers as int);
        vstd::arithmetic::div_mod::lemma_mod_bound(file_count as int, workers as int);
        vstd::arithmetic::mul::lemma_mul_is_commutative(whole as int, workers as int);
    }
    if rest == 0 {
        proof {
            assert((whole - 1) * workers == whole * workers - workers) by (nonlinear_arith);
        }
        whole
    } else {
        proof {
            assert((whole + 1) * workers == whole * workers + workers) by (nonlinear_arith);
            assert(whole < file_count) by (nonlinear_arith)
                requires
                    file_count == whole * workers + rest,
                    rest > 0,
                    workers > 0,
                    whole >= 0,
            ;
        }
        whole + 1
    }
}

} // verus!
