//! What holds of matching words against a text.
use vstd::prelude::*;

use crate::encoding;
use crate::fuzzy;
use crate::fuzzy::FuzzyWordMatch;
use crate::fuzzy::FuzzyWordMatchKind;
use crate::text;
use crate::typo;

verus! {

// ---------------------------------------------------------------------------
// Several words
// ---------------------------------------------------------------------------

/// A text has a score for some words only if each of them has a match in the text, and it has
/// one if each has.
pub proof fn lemma_every_word_has_to_match(
    words: Seq<Seq<char>>,
    text: Seq<char>,
    base: int,
    allow_typos: bool,
)
    ensures
        fuzzy::text_score(words, text, base, allow_typos) is Some <==> forall|i: int|
            0 <= i < words.len() ==> fuzzy::fuzzy_word(#[trigger] words[i], text, allow_typos)
                is Some,
    decreases words.len(),
{
    if words.len() > 0 {
        let init = words.drop_last();
        lemma_every_word_has_to_match(init, text, base, allow_typos);
        if fuzzy::text_score(words, text, base, allow_typos) is Some {
            assert forall|i: int| 0 <= i < words.len() implies fuzzy::fuzzy_word(
                #[trigger] words[i],
                text,
                allow_typos,
            ) is Some by {
                if i < init.len() {
                    assert(init[i] == words[i]);
                }
            }
        } else if forall|i: int|
            0 <= i < words.len() ==> fuzzy::fuzzy_word(#[trigger] words[i], text, allow_typos)
                is Some {
            assert forall|i: int| 0 <= i < init.len() implies fuzzy::fuzzy_word(
                #[trigger] init[i],
                text,
                allow_typos,
            ) is Some by {
                assert(words[i] == init[i]);
            }
            assert(fuzzy::fuzzy_word(words[words.len() - 1], text, allow_typos) is Some);
        }
    }
}

/// The scores of some words that match a text, one by one.
pub open spec fn single_scores(words: Seq<Seq<char>>, text: Seq<char>, allow_typos: bool) -> Seq<
    int,
> {
    Seq::new(
        words.len(),
        |i: int|
            fuzzy::word_score(
                words[i],
                text,
                fuzzy::fuzzy_word(words[i], text, allow_typos)->0,
            ),
    )
}

/// The score of a text is the base and the scores of all words added up.
pub proof fn lemma_score_is_sum(
    words: Seq<Seq<char>>,
    text: Seq<char>,
    base: int,
    allow_typos: bool,
)
    ensures
        fuzzy::text_score(words, text, base, allow_typos) matches Some(score) ==> score
            == single_scores(words, text, allow_typos).fold_left(base, |a: int, b: int| a + b),
    decreases words.len(),
{
    if words.len() > 0 {
        let init = words.drop_last();
        lemma_score_is_sum(init, text, base, allow_typos);
        assert(single_scores(words, text, allow_typos).drop_last() =~= single_scores(
            init,
            text,
            allow_typos,
        ));
    }
}

/// In whichever order the words stand, a text has the same score.
pub proof fn lemma_word_order_is_free(
    words: Seq<Seq<char>>,
    text: Seq<char>,
    base: int,
    allow_typos: bool,
    i: int,
)
    requires
        0 <= i < words.len(),
    ensures
        fuzzy::text_score(words, text, base, allow_typos) == fuzzy::text_score(
            words.remove(i).push(words[i]),
            text,
            base,
            allow_typos,
        ),
    decreases words.len(),
{
    let moved = words.remove(i).push(words[i]);
    assert(moved.drop_last() =~= words.remove(i));
    if i == words.len() - 1 {
        assert(moved =~= words);
    } else {
        let init = words.drop_last();
        reveal_with_fuel(fuzzy::text_score, 3);
        lemma_word_order_is_free(init, text, base, allow_typos, i);
        assert(init[i] == words[i]);
        assert(init.remove(i).push(init[i]).drop_last() =~= init.remove(i));
        assert(words.remove(i).drop_last() =~= init.remove(i));
        assert(words.remove(i).last() == words.last());
    }
}

/// More words never find more: what matches some words with others matches these alone.
pub proof fn lemma_more_words_find_less(
    words: Seq<Seq<char>>,
    more: Seq<Seq<char>>,
    text: Seq<char>,
    base: int,
    allow_typos: bool,
)
    ensures
        fuzzy::text_score(words + more, text, base, allow_typos) is Some ==> fuzzy::text_score(
            words,
            text,
            base,
            allow_typos,
        ) is Some && fuzzy::text_score(more, text, base, allow_typos) is Some,
{
    let all = words + more;
    lemma_every_word_has_to_match(all, text, base, allow_typos);
    lemma_every_word_has_to_match(words, text, base, allow_typos);
    lemma_every_word_has_to_match(more, text, base, allow_typos);
    if fuzzy::text_score(all, text, base, allow_typos) is Some {
        assert forall|i: int| 0 <= i < words.len() implies fuzzy::fuzzy_word(
            #[trigger] words[i],
            text,
            allow_typos,
        ) is Some by {
            assert(all[i] == words[i]);
        }
        assert forall|i: int| 0 <= i < more.len() implies fuzzy::fuzzy_word(
            #[trigger] more[i],
            text,
            allow_typos,
        ) is Some by {
            assert(all[words.len() + i] == more[i]);
        }
    }
}

// ---------------------------------------------------------------------------
// One word
// ---------------------------------------------------------------------------

/// A word that stands in a text matches exactly, at its first place: none before it holds the
/// word. A word that does not stand in the text never matches exactly.
pub proof fn lemma_exact_match(word: Seq<char>, text: Seq<char>, allow_typos: bool)
    requires
        word.len() > 0,
        encoding::byte_len(text) <= usize::MAX,
    ensures
        (exists|k: int| text::occurs_at(text, word, k)) <==> (fuzzy::fuzzy_word(
            word,
            text,
            allow_typos,
        ) matches Some(m) && m.kind == FuzzyWordMatchKind::Exact),
        forall|k: int|
            #![trigger text::occurs_at(text, word, k)]
            text::occurs_at(text, word, k) && (forall|j: int|
                0 <= j < k ==> !text::occurs_at(text, word, j)) ==> fuzzy::fuzzy_word(
                word,
                text,
                allow_typos,
            ) == Some(
                FuzzyWordMatch {
                    kind: FuzzyWordMatchKind::Exact,
                    cost: 0,
                    start: encoding::byte_offset(text, k) as usize,
                    span_len: word.len() as usize,
                },
            ),
{
    text::lemma_find_from(text, word, 0);
}

/// Places that spell a word end no earlier than the chain does.
proof fn lemma_chain_is_first(places: Seq<int>, word: Seq<char>, text: Seq<char>, from: int)
    requires
        0 <= from,
        word.len() > 0,
        fuzzy::spells(places, word, text, from),
    ensures
        fuzzy::chain_end(word, text, from) matches Some(e) && e <= places.last() + 1,
    decreases word.len(),
{
    text::lemma_next_index(text, word[0], from);
    assert(text[places[0]] == word[0]);
    let k = text::next_index(text, word[0], from)->0;
    assert(k <= places[0]);
    if word.len() > 1 {
        let rest = places.drop_first();
        assert forall|i: int| 0 <= i < rest.len() implies k + 1 <= #[trigger] rest[i] < text.len()
            && text[rest[i]] == word.drop_first()[i] by {
            assert(rest[i] == places[i + 1]);
            assert(places[0] < places[i + 1]);
        }
        lemma_chain_is_first(rest, word.drop_first(), text, k + 1);
        assert(rest.last() == places.last());
    } else {
        assert(word.drop_first().len() == 0);
        assert(places.last() == places[0]);
    }
}

/// The places of a chain.
proof fn lemma_chain_places(word: Seq<char>, text: Seq<char>, from: int) -> (places: Seq<int>)
    requires
        0 <= from,
        word.len() > 0,
        fuzzy::chain_end(word, text, from) is Some,
    ensures
        fuzzy::spells(places, word, text, from),
        text::next_index(text, word[0], from) == Some(places[0]),
        fuzzy::chain_end(word, text, from) == Some(places.last() + 1),
    decreases word.len(),
{
    text::lemma_next_index(text, word[0], from);
    let k = text::next_index(text, word[0], from)->0;
    if word.len() == 1 {
        assert(word.drop_first().len() == 0);
        seq![k]
    } else {
        let rest = lemma_chain_places(word.drop_first(), text, k + 1);
        let places = seq![k] + rest;
        assert forall|i: int| 0 <= i < places.len() implies from <= #[trigger] places[i]
            < text.len() && text[places[i]] == word[i] by {
            if i > 0 {
                assert(places[i] == rest[i - 1]);
                assert(word[i] == word.drop_first()[i - 1]);
            }
        }
        assert forall|i: int, j: int| 0 <= i < j < places.len() implies places[i] < places[j] by {
            assert(places[j] == rest[j - 1]);
            if i > 0 {
                assert(places[i] == rest[i - 1]);
            }
        }
        assert(places.last() == rest.last());
        places
    }
}

/// Whether some places spell a word in a text: they rise, hold its characters, begin at the
/// first place of its first character, and are not spread over more than twelve characters,
/// or four times those of the word.
pub open spec fn spells_closely(places: Seq<int>, word: Seq<char>, text: Seq<char>) -> bool {
    &&& places.len() == word.len()
    &&& forall|i: int|
        0 <= i < places.len() ==> 0 <= #[trigger] places[i] < text.len() && text[places[i]]
            == word[i]
    &&& forall|i: int, j: int| 0 <= i < j < places.len() ==> places[i] < places[j]
    &&& forall|j: int| 0 <= j < places[0] ==> text[j] != word[0]
    &&& places.last() + 1 - places[0] <= 12 || places.last() + 1 - places[0] <= 4 * word.len()
}

/// A word matches by its characters in order exactly if close places spell it. No close places
/// are closer than those of the match, whose cost is the number of characters left out
/// between them.
pub proof fn lemma_subsequence_match(word: Seq<char>, text: Seq<char>)
    requires
        word.len() > 0,
        encoding::byte_len(text) <= usize::MAX,
        text.len() <= usize::MAX,
    ensures
        fuzzy::subsequence(word, text, word.len()) is Some <==> exists|places: Seq<int>|
            spells_closely(places, word, text),
        fuzzy::subsequence(word, text, word.len()) matches Some(m) ==> {
            &&& m.kind == FuzzyWordMatchKind::Subsequence
            &&& m.cost + word.len() == m.span_len
            &&& exists|places: Seq<int>|
                spells_closely(places, word, text) && m.start == encoding::byte_offset(
                    text,
                    places[0],
                ) && m.span_len == places.last() + 1 - places[0]
            &&& forall|places: Seq<int>|
                #[trigger] spells_closely(places, word, text) ==> m.span_len <= places.last() + 1
                    - places[0]
        },
{
    let found = fuzzy::subsequence(word, text, word.len());
    assert forall|places: Seq<int>| #[trigger] spells_closely(places, word, text) implies found
        is Some && found->0.span_len <= places.last() + 1 - places[0] by {
        assert(fuzzy::spells(places, word, text, 0));
        lemma_chain_is_first(places, word, text, 0);
        lemma_one_chain(word, text);
        text::lemma_next_index(text, word[0], 0);
        assert(text[places[0]] == word[0]);
        let s = text::next_index(text, word[0], 0)->0;
        assert(s == places[0]);
    }
    if let Some(m) = found {
        lemma_one_chain(word, text);
        let places = lemma_chain_places(word, text, 0);
        text::lemma_next_index(text, word[0], 0);
        encoding::lemma_byte_offset_bounds(text, places[0]);
        encoding::lemma_byte_offset_monotone(text, places[0], text.len() as int);
        assert(text.take(text.len() as int) =~= text);
        assert(spells_closely(places, word, text));
    }
}

proof fn lemma_one_chain(word: Seq<char>, text: Seq<char>)
    requires
        word.len() > 0,
    ensures
        fuzzy::chain_end(word, text, 0) matches Some(e) ==> e <= text.len() && (text::next_index(
            text,
            word[0],
            0,
        ) matches Some(s) && 0 <= s && s + word.len() <= e),
{
    fuzzy::lemma_chain_end(word, text, 0);
    text::lemma_next_index(text, word[0], 0);
    if let Some(k) = text::next_index(text, word[0], 0) {
        fuzzy::lemma_chain_end(word.drop_first(), text, k + 1);
    }
}

/// Without typos a word of two characters or more matches exactly if it stands in the text or
/// its characters do, in order and closely. A single character has to stand there.
pub proof fn lemma_plain_match(word: Seq<char>, text: Seq<char>)
    requires
        word.len() > 0,
        encoding::byte_len(text) <= usize::MAX,
        text.len() <= usize::MAX,
    ensures
        fuzzy::fuzzy_word(word, text, false) is Some <==> (exists|k: int|
            text::occurs_at(text, word, k)) || (word.len() >= 2 && exists|places: Seq<int>|
            spells_closely(places, word, text)),
{
    lemma_exact_match(word, text, false);
    lemma_subsequence_match(word, text);
    text::lemma_find_from(text, word, 0);
}

/// To allow typos never loses a match, nor changes one that needs none.
pub proof fn lemma_typos_only_add(word: Seq<char>, text: Seq<char>)
    ensures
        fuzzy::fuzzy_word(word, text, false) is Some ==> fuzzy::fuzzy_word(word, text, true)
            == fuzzy::fuzzy_word(word, text, false),
        fuzzy::fuzzy_word(word, text, true) matches Some(m) ==> m.kind == FuzzyWordMatchKind::Typo
            || fuzzy::fuzzy_word(word, text, false) == Some(m),
        fuzzy::fuzzy_word(word, text, true) matches Some(m) ==> (m.kind
            == FuzzyWordMatchKind::Typo ==> word.len() >= 3),
{
}

// ---------------------------------------------------------------------------
// Which match is better
// ---------------------------------------------------------------------------

/// At the same place an exact match of a word is worth more than any other.
pub proof fn lemma_exact_is_best(word: Seq<char>, text: Seq<char>, m: FuzzyWordMatch, span: usize)
    requires
        word.len() > 0,
        m.kind != FuzzyWordMatchKind::Exact,
    ensures
        fuzzy::word_score(word, text, m) < fuzzy::word_score(
            word,
            text,
            FuzzyWordMatch {
                kind: FuzzyWordMatchKind::Exact,
                cost: 0,
                start: m.start,
                span_len: span,
            },
        ),
{
}

/// Of two matches of the same kind and place the one that leaves out fewer characters, or needs
/// fewer edits, is worth more.
pub proof fn lemma_cheaper_is_better(
    word: Seq<char>,
    text: Seq<char>,
    a: FuzzyWordMatch,
    b: FuzzyWordMatch,
)
    requires
        a.kind == b.kind,
        a.kind != FuzzyWordMatchKind::Exact,
        a.start == b.start,
        a.span_len == b.span_len,
        a.cost < b.cost,
    ensures
        fuzzy::word_score(word, text, b) < fuzzy::word_score(word, text, a),
{
}

/// Of two matches that differ in their place alone, the one at the start of the text is worth
/// more than any other, and so is one at the start of a segment than one inside; of two that
/// both start a segment, or both do not, the later one is not worth more.
pub proof fn lemma_earlier_is_better(
    word: Seq<char>,
    text: Seq<char>,
    a: FuzzyWordMatch,
    b: FuzzyWordMatch,
)
    requires
        a.kind == b.kind,
        a.cost == b.cost,
        a.span_len == b.span_len,
    ensures
        a.start == 0 && b.start > 0 ==> fuzzy::word_score(word, text, b) < fuzzy::word_score(
            word,
            text,
            a,
        ),
        crate::typo::starts_segment(text, a.start as int) && !crate::typo::starts_segment(
            text,
            b.start as int,
        ) ==> fuzzy::word_score(word, text, b) < fuzzy::word_score(word, text, a),
        a.start <= b.start && crate::typo::starts_segment(text, a.start as int)
            == crate::typo::starts_segment(text, b.start as int) ==> fuzzy::word_score(
            word,
            text,
            b,
        ) <= fuzzy::word_score(word, text, a),
        0 < a.start < b.start <= 160 && crate::typo::starts_segment(text, a.start as int)
            == crate::typo::starts_segment(text, b.start as int) ==> fuzzy::word_score(
            word,
            text,
            a,
        ) - fuzzy::word_score(word, text, b) == 4 * (b.start - a.start),
{
}

/// A longer word that matches in the same way is worth more.
pub proof fn lemma_longer_is_better(
    short: Seq<char>,
    long: Seq<char>,
    text: Seq<char>,
    m: FuzzyWordMatch,
)
    requires
        short.len() < long.len(),
        m.kind != FuzzyWordMatchKind::Typo,
    ensures
        fuzzy::word_score(short, text, m) < fuzzy::word_score(long, text, m),
{
}

/// A word that a text starts with scores the same, whatever follows it: 1020 points, and 36
/// for each of its characters. (Scores are counted in fifths of a point.)
pub proof fn lemma_score_at_start(word: Seq<char>, rest: Seq<char>, base: int, allow_typos: bool)
    requires
        word.len() > 0,
        encoding::byte_len(word + rest) <= usize::MAX,
    ensures
        fuzzy::text_score(seq![word], word + rest, base, allow_typos) == Some(
            base + 5 * (1020 + 36 * word.len()),
        ),
{
    let text = word + rest;
    assert(text.subrange(0, word.len() as int) =~= word);
    assert(text::occurs_at(text, word, 0));
    lemma_exact_match(word, text, allow_typos);
    encoding::lemma_byte_offset_bounds(text, 0);
    reveal_with_fuel(fuzzy::text_score, 2);
    reveal_with_fuel(encoding::byte_len, 2);
    assert(text.take(0) =~= Seq::<char>::empty());
    assert(encoding::byte_offset(text, 0) == 0);
    assert(seq![word].drop_last() =~= Seq::<Seq<char>>::empty());
}

/// At the same place, characters that are spread out score 240 points less than the word
/// itself, and 6 less for each character and 35 for each gap. With typos it is 140 points
/// less, 4 for each character, 130 for each typo and 60 for each character that what stands
/// there is longer or shorter by.
pub proof fn lemma_score_differences(
    word: Seq<char>,
    text: Seq<char>,
    exact: FuzzyWordMatch,
    spread: FuzzyWordMatch,
    typo: FuzzyWordMatch,
)
    requires
        exact.kind == FuzzyWordMatchKind::Exact,
        spread.kind == FuzzyWordMatchKind::Subsequence,
        typo.kind == FuzzyWordMatchKind::Typo,
        exact.start == spread.start == typo.start,
    ensures
        ({
            let n = word.len() as int;
            let best = fuzzy::word_score(word, text, exact);
            let longer = if typo.span_len >= n {
                typo.span_len - n
            } else {
                n - typo.span_len
            };
            &&& best - fuzzy::word_score(word, text, spread) == 5 * (240 + 6 * n + 35 * spread.cost)
            &&& best - fuzzy::word_score(word, text, typo) == 5 * (140 + 4 * n + 130 * typo.cost
                + 60 * longer)
        }),
{
}

/// With typos allowed, a word matches that matches without, and one of three characters or
/// more that stands there with typos. No other does.
pub proof fn lemma_typos_count_from_three(word: Seq<char>, text: Seq<char>)
    requires
        word.len() > 0,
    ensures
        fuzzy::fuzzy_word(word, text, true) is Some <==> fuzzy::fuzzy_word(word, text, false) is Some
            || (word.len() >= 3 && typo::typo_word_segmented(word, text) is Some),
{
}

} // verus!
