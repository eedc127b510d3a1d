//! Scoring how well the words of a query match a text.
use vstd::prelude::*;
use vstd::string::*;

use crate::encoding;
use crate::encoding::byte_length;
use crate::text;
use crate::text::chars_of;
use crate::text::find_chars;
use crate::text::next_place;
use crate::typo;
use crate::typo::is_match_boundary;
use crate::typo::offset_of;
use crate::typo::typo_match_word_segmented;

verus! {

/// How a word was found in a text.
#[derive(Clone, Copy, Debug, PartialEq, Eq, Structural)]
pub enum FuzzyWordMatchKind {
    Exact,
    Subsequence,
    Typo,
}

/// Where and how a word was found in a text.
#[derive(Clone, Copy, Debug, PartialEq, Eq, Structural)]
pub struct FuzzyWordMatch {
    pub kind: FuzzyWordMatchKind,
    pub cost: usize,
    pub start: usize,
    pub span_len: usize,
}

// ---------------------------------------------------------------------------
// Characters in order
// ---------------------------------------------------------------------------

/// Where the characters of a word end in a text when each is taken, in order,
/// at its first place behind the one before it.
pub open spec fn chain_end(word: Seq<char>, text: Seq<char>, from: int) -> Option<int>
    decreases word.len(),
{
    if word.len() == 0 {
        Some(from)
    } else {
        match text::next_index(text, word[0], from) {
            None => None,
            Some(k) => chain_end(word.drop_first(), text, k + 1),
        }
    }
}

/// The chain lies behind its start, within the text, and is as long as the word
/// at least.
pub proof fn lemma_chain_end(word: Seq<char>, text: Seq<char>, from: int)
    requires
        0 <= from <= text.len(),
    ensures
        chain_end(word, text, from) matches Some(e) ==> from + word.len() <= e <= text.len(),
    decreases word.len(),
{
    if word.len() > 0 {
        text::lemma_next_index(text, word[0], from);
        if let Some(k) = text::next_index(text, word[0], from) {
            lemma_chain_end(word.drop_first(), text, k + 1);
        }
    }
}

/// Whether `places` are rising places of a text, from `from` on, that hold the
/// characters of a word.
pub open spec fn spells(places: Seq<int>, word: Seq<char>, text: Seq<char>, from: int) -> bool {
    &&& places.len() == word.len()
    &&& forall|i: int|
        0 <= i < places.len() ==> from <= #[trigger] places[i] < text.len() && text[places[i]]
            == word[i]
    &&& forall|i: int, j: int| 0 <= i < j < places.len() ==> places[i] < places[j]
}

/// Taking each character at its first place loses nothing: if the word can be
/// spelled by rising places at all, the chain reaches its end.
pub proof fn lemma_chain_complete(places: Seq<int>, word: Seq<char>, text: Seq<char>, from: int)
    requires
        0 <= from,
        spells(places, word, text, from),
    ensures
        chain_end(word, text, from) is Some,
    decreases word.len(),
{
    if word.len() > 0 {
        text::lemma_next_index(text, word[0], from);
        assert(text[places[0]] == word[0]);
        let k = text::next_index(text, word[0], from)->0;
        assert(k <= places[0]);
        let rest = places.drop_first();
        assert forall|i: int| 0 <= i < rest.len() implies k + 1 <= #[trigger] rest[i] < text.len()
            && text[rest[i]] == word.drop_first()[i] by {
            assert(rest[i] == places[i + 1]);
            assert(places[0] < places[i + 1]);
        }
        lemma_chain_complete(rest, word.drop_first(), text, k + 1);
    }
}

fn chain_end_of(word: &[char], text: &[char]) -> (r: Option<usize>)
    ensures
        match r {
            Some(k) => chain_end(word@, text@, 0) == Some(k as int),
            None => chain_end(word@, text@, 0) is None,
        },
{
    let size: usize = text.len();
    let mut i: usize = 0;
    let mut from: usize = 0;
    proof {
        assert(word@.skip(0) =~= word@);
    }
    while i < word.len()
        invariant
            i <= word@.len(),
            from <= size == text@.len(),
            chain_end(word@, text@, 0) == chain_end(word@.skip(i as int), text@, from as int),
        decreases word.len() - i,
    {
        proof {
            text::lemma_next_index(text@, word@[i as int], from as int);
            assert(word@.skip(i as int).drop_first() =~= word@.skip(i + 1));
        }
        match next_place(text, word[i], from) {
            Some(k) => {
                from = k + 1;
            },
            None => {
                return None;
            },
        }
        i += 1;
    }
    Some(from)
}

/// Whether the characters of one text stand in another in the same order.
pub fn chars_in_order(needle: &str, haystack: &str) -> (r: bool)
    ensures
        r == chain_end(needle@, haystack@, 0) is Some,
{
    let n = chars_of(needle);
    let h = chars_of(haystack);
    chain_end_of(n.as_slice(), h.as_slice()).is_some()
}

// ---------------------------------------------------------------------------
// Words
// ---------------------------------------------------------------------------

/// How long a stretch of text the characters of a word may be spread over.
pub open spec fn max_span(n: nat) -> nat {
    if 4 * n >= 12 {
        4 * n
    } else {
        12
    }
}

/// The match of a word by its characters in order, if they are not spread too
/// far. It starts at the first place of the first character.
pub open spec fn subsequence(word: Seq<char>, text: Seq<char>, count: nat) -> Option<
    FuzzyWordMatch,
> {
    if word.len() == 0 {
        None
    } else {
        match (text::next_index(text, word[0], 0), chain_end(word, text, 0)) {
            (Some(s), Some(e)) => if e - s <= max_span(count) {
                Some(
                    FuzzyWordMatch {
                        kind: FuzzyWordMatchKind::Subsequence,
                        cost: (e - s - word.len()) as usize,
                        start: encoding::byte_offset(text, s) as usize,
                        span_len: (e - s) as usize,
                    },
                )
            } else {
                None
            },
            _ => None,
        }
    }
}

/// Matches a word by its characters in order.
pub fn subsequence_match_word(word: &str, text: &str, word_char_count: usize) -> (r: Option<
    FuzzyWordMatch,
>)
    ensures
        r == subsequence(word@, text@, word_char_count as nat),
{
    let w = chars_of(word);
    if w.len() == 0 {
        return None;
    }
    let t = chars_of(text);
    proof {
        text::lemma_next_index(text@, word@[0], 0);
        lemma_chain_end(word@, text@, 0);
        if let Some(k) = text::next_index(text@, word@[0], 0) {
            lemma_chain_end(word@.drop_first(), text@, k + 1);
        }
    }
    let first = match next_place(t.as_slice(), w[0], 0) {
        Some(k) => k,
        None => {
            return None;
        },
    };
    let end = match chain_end_of(w.as_slice(), t.as_slice()) {
        Some(e) => e,
        None => {
            return None;
        },
    };
    let span_len: usize = end - first;
    if span_len > 12 && (span_len as u128) > 4 * (word_char_count as u128) {
        return None;
    }
    let start: usize = offset_of(text, t.as_slice(), first);
    Some(
        FuzzyWordMatch {
            kind: FuzzyWordMatchKind::Subsequence,
            cost: span_len - w.len(),
            start,
            span_len,
        },
    )
}

/// The match of a word in a text: exact, or else by its characters in order, or
/// else, if allowed, with typos in one segment.
pub open spec fn fuzzy_word(word: Seq<char>, text: Seq<char>, allow_typos: bool) -> Option<
    FuzzyWordMatch,
> {
    if word.len() == 0 {
        Some(FuzzyWordMatch { kind: FuzzyWordMatchKind::Exact, cost: 0, start: 0, span_len: 0 })
    } else {
        match text::find(text, word) {
            Some(k) => Some(
                FuzzyWordMatch {
                    kind: FuzzyWordMatchKind::Exact,
                    cost: 0,
                    start: encoding::byte_offset(text, k) as usize,
                    span_len: word.len() as usize,
                },
            ),
            None => if word.len() >= 2 && subsequence(word, text, word.len()) is Some {
                subsequence(word, text, word.len())
            } else if allow_typos && word.len() > 2 {
                match typo::typo_word_segmented(word, text) {
                    Some(m) => Some(
                        FuzzyWordMatch {
                            kind: FuzzyWordMatchKind::Typo,
                            cost: m.cost,
                            start: m.start,
                            span_len: m.span_len,
                        },
                    ),
                    None => None,
                }
            } else {
                None
            },
        }
    }
}

/// Matches a word against a text.
pub fn fuzzy_match_word(word: &str, text: &str, allow_typos: bool) -> (r: Option<FuzzyWordMatch>)
    ensures
        r == fuzzy_word(word@, text@, allow_typos),
{
    let w = chars_of(word);
    let count: usize = w.len();
    if count == 0 {
        return Some(
            FuzzyWordMatch { kind: FuzzyWordMatchKind::Exact, cost: 0, start: 0, span_len: 0 },
        );
    }
    let t = chars_of(text);
    if let Some(k) = find_chars(t.as_slice(), w.as_slice()) {
        proof {
            text::lemma_find_from(text@, word@, 0);
        }
        let start: usize = offset_of(text, t.as_slice(), k);
        return Some(
            FuzzyWordMatch { kind: FuzzyWordMatchKind::Exact, cost: 0, start, span_len: count },
        );
    }
    if count >= 2 {
        let matched = subsequence_match_word(word, text, count);
        if matched.is_some() {
            return matched;
        }
    }
    if allow_typos && count > 2 {
        if let Some(m) = typo_match_word_segmented(word, text) {
            return Some(
                FuzzyWordMatch {
                    kind: FuzzyWordMatchKind::Typo,
                    cost: m.cost,
                    start: m.start,
                    span_len: m.span_len,
                },
            );
        }
    }
    None
}

// ---------------------------------------------------------------------------
// Scores
// ---------------------------------------------------------------------------

/// What the place of a match adds to its score: 180 points at the start of the
/// text, 140 at the start of a segment, and four fifths of a point less for
/// each byte in front of it, up to 160. Scores are counted in fifths of a point.
pub open spec fn place_score(text: Seq<char>, start: int) -> int {
    let prefix: int = if start == 0 {
        900
    } else {
        0
    };
    let boundary: int = if typo::starts_segment(text, start) {
        700
    } else {
        0
    };
    let penalty: int = if start <= 160 {
        4 * start
    } else {
        640
    };
    prefix + boundary - penalty
}

pub open spec fn distance(a: int, b: int) -> int {
    if a <= b {
        b - a
    } else {
        a - b
    }
}

/// The score of a match of a word, in fifths of a point.
pub open spec fn word_score(word: Seq<char>, text: Seq<char>, m: FuzzyWordMatch) -> int {
    let n = word.len() as int;
    let place = place_score(text, m.start as int);
    match m.kind {
        FuzzyWordMatchKind::Exact => 3500 + 180 * n + place,
        FuzzyWordMatchKind::Subsequence => 2300 + 150 * n + place - 175 * m.cost,
        FuzzyWordMatchKind::Typo => 2800 + 160 * n + place - 650 * m.cost - 300 * distance(
            m.span_len as int,
            n,
        ),
    }
}

/// The score of a match of a word, in fifths of a point.
pub fn score_fuzzy_word_match(word: &str, text: &str, matched: FuzzyWordMatch) -> (r: i128)
    ensures
        r == word_score(word@, text@, matched),
{
    let count: usize = chars_of(word).len();
    let n: i128 = count as i128;
    let prefix: i128 = if matched.start == 0 {
        900
    } else {
        0
    };
    let boundary: i128 = if is_match_boundary(text, matched.start) {
        700
    } else {
        0
    };
    let penalty: i128 = if matched.start <= 160 {
        4 * (matched.start as i128)
    } else {
        640
    };
    let place: i128 = prefix + boundary - penalty;
    match matched.kind {
        FuzzyWordMatchKind::Exact => 3500 + 180 * n + place,
        FuzzyWordMatchKind::Subsequence => 2300 + 150 * n + place - 175 * (matched.cost as i128),
        FuzzyWordMatchKind::Typo => {
            let apart: usize = if matched.span_len <= count {
                count - matched.span_len
            } else {
                matched.span_len - count
            };
            2800 + 160 * n + place - 650 * (matched.cost as i128) - 300 * (apart as i128)
        },
    }
}

/// The score of a text for some words, in fifths of a point: the base and the
/// scores of the words, all of which must match.
pub open spec fn text_score(
    words: Seq<Seq<char>>,
    text: Seq<char>,
    base: int,
    allow_typos: bool,
) -> Option<int>
    decreases words.len(),
{
    if words.len() == 0 {
        Some(base)
    } else {
        match (
            text_score(words.drop_last(), text, base, allow_typos),
            fuzzy_word(words.last(), text, allow_typos),
        ) {
            (Some(score), Some(m)) => Some(score + word_score(words.last(), text, m)),
            _ => None,
        }
    }
}

/// A match is bounded by the length of the word.
proof fn lemma_best_segment_bounds(word: Seq<char>, text: Seq<char>, list: Seq<(int, int)>)
    requires
        encoding::byte_len(text) <= usize::MAX,
        forall|i: int|
            0 <= i < list.len() ==> 0 <= (#[trigger] list[i]).0 < list[i].1 <= text.len(),
    ensures
        typo::best_segment(word, text, list) matches Some(m) ==> {
            &&& m.cost <= 2
            &&& m.span_len <= word.len() + 2
            &&& word.len() <= m.span_len + 2
        },
    decreases list.len(),
{
    if list.len() > 0 {
        let rest = list.drop_last();
        assert forall|i: int| 0 <= i < rest.len() implies 0 <= (#[trigger] rest[i]).0 < rest[i].1
            <= text.len() by {
            assert(rest[i] == list[i]);
        }
        lemma_best_segment_bounds(word, text, rest);
        let (s, e) = list.last();
        assert(list[list.len() - 1] == (s, e));
        encoding::lemma_char_index(text, s);
        encoding::lemma_char_index(text, e);
        let segment = text.subrange(s, e);
        assert(text =~= text.take(s) + segment + text.skip(e));
        encoding::lemma_byte_len_concat(text.take(s) + segment, text.skip(e));
        encoding::lemma_byte_len_concat(text.take(s), segment);
        typo::lemma_typo_word_bounds(word, segment);
    }
}

proof fn lemma_segment_state(text: Seq<char>)
    ensures
        forall|i: int|
            0 <= i < typo::segment_state(text).0.len() ==> 0 <= (#[trigger] typo::segment_state(
                text,
            ).0[i]).0 < typo::segment_state(text).0[i].1 <= text.len(),
        typo::segment_state(text).1 matches Some(s) ==> 0 <= s < text.len(),
    decreases text.len(),
{
    if text.len() > 0 {
        lemma_segment_state(text.drop_last());
    }
}

/// The score of a match is bounded by the length of the word.
proof fn lemma_word_score_bounds(word: Seq<char>, text: Seq<char>, allow_typos: bool)
    requires
        encoding::byte_len(text) <= usize::MAX,
        word.len() <= usize::MAX,
    ensures
        fuzzy_word(word, text, allow_typos) matches Some(m) ==> -6000 - 1000 * word.len()
            <= word_score(word, text, m) <= 6000 + 1000 * word.len(),
{
    lemma_segment_state(text);
    lemma_best_segment_bounds(word, text, typo::segments(text));
    if word.len() > 0 {
        text::lemma_next_index(text, word[0], 0);
        lemma_chain_end(word, text, 0);
        encoding::lemma_byte_offset_monotone(text, 0, text.len() as int);
        assert(text.take(text.len() as int) =~= text);
        if let Some(k) = text::next_index(text, word[0], 0) {
            lemma_chain_end(word.drop_first(), text, k + 1);
        }
    }
}

proof fn lemma_text_score_bounds(
    words: Seq<Seq<char>>,
    text: Seq<char>,
    base: int,
    allow_typos: bool,
)
    requires
        encoding::byte_len(text) <= usize::MAX,
        text::char_total(words) <= usize::MAX,
    ensures
        text_score(words, text, base, allow_typos) matches Some(v) ==> distance(v, base) <= 6000
            * words.len() + 1000 * text::char_total(words),
    decreases words.len(),
{
    if words.len() > 0 {
        lemma_text_score_bounds(words.drop_last(), text, base, allow_typos);
        lemma_word_score_bounds(words.last(), text, allow_typos);
    }
}

proof fn lemma_char_total_prefix(words: Seq<Seq<char>>, i: int)
    requires
        0 <= i <= words.len(),
    ensures
        text::char_total(words.take(i)) <= text::char_total(words),
    decreases words.len(),
{
    if i < words.len() {
        assert(words.drop_last().take(i) =~= words.take(i));
        lemma_char_total_prefix(words.drop_last(), i);
    } else {
        assert(words.take(i) =~= words);
    }
}

proof fn lemma_text_score_none(
    words: Seq<Seq<char>>,
    text: Seq<char>,
    base: int,
    allow_typos: bool,
    i: int,
)
    requires
        0 <= i <= words.len(),
        text_score(words.take(i), text, base, allow_typos) is None,
    ensures
        text_score(words, text, base, allow_typos) is None,
    decreases words.len(),
{
    if i < words.len() {
        assert(words.drop_last().take(i) =~= words.take(i));
        lemma_text_score_none(words.drop_last(), text, base, allow_typos, i);
    } else {
        assert(words.take(i) =~= words);
    }
}

/// Scores a text for some words, in fifths of a point, starting from a base.
pub fn fuzzy_match_text_score(
    words: &Vec<String>,
    text: &str,
    base_score: i64,
    allow_typos: bool,
) -> (r: Option<i128>)
    requires
        text::char_total(text::text_views(words@)) <= usize::MAX,
    ensures
        match r {
            Some(v) => text_score(
                text::text_views(words@),
                text@,
                base_score as int,
                allow_typos,
            ) == Some(v as int),
            None => text_score(
                text::text_views(words@),
                text@,
                base_score as int,
                allow_typos,
            ) is None,
        },
{
    let ghost all = text::text_views(words@);
    let size: usize = byte_length(text);
    let count: usize = words.len();
    let mut score: i128 = base_score as i128;
    let mut i: usize = 0;
    while i < count
        invariant
            i <= count,
            count == words@.len(),
            all == text::text_views(words@),
            text::char_total(all) <= usize::MAX,
            size == encoding::byte_len(text@),
            text_score(all.take(i as int), text@, base_score as int, allow_typos) == Some(
                score as int,
            ),
        decreases count - i,
    {
        proof {
            let here = all.take(i + 1);
            assert(here.drop_last() =~= all.take(i as int));
            lemma_char_total_prefix(all, i as int);
            lemma_char_total_prefix(all, i + 1);
            lemma_text_score_bounds(all.take(i as int), text@, base_score as int, allow_typos);
            lemma_word_score_bounds(here.last(), text@, allow_typos);
        }
        let word = words[i].as_str();
        match fuzzy_match_word(word, text, allow_typos) {
            Some(m) => {
                score = score + score_fuzzy_word_match(word, text, m);
            },
            None => {
                proof {
                    lemma_text_score_none(all, text@, base_score as int, allow_typos, i + 1);
                }
                return None;
            },
        }
        i += 1;
    }
    proof {
        assert(all.take(all.len() as int) =~= all);
    }
    Some(score)
}

} // verus!
