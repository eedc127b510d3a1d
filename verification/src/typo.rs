//! Matching a word against a text in spite of typos.
use vstd::prelude::*;
use vstd::string::*;
use vstd::utf8::*;

use crate::edit;
use crate::edit::typo_match_word_osa_substring;
use crate::edit::typo_match_word_osa_substring_ascii;
use crate::edit::TypoWordMatch;
use crate::encoding;
use crate::encoding::byte_length;
use crate::encoding::split_text;
use crate::encoding::width_of;
use crate::text;
use crate::text::ascii_lower_of;
use crate::text::chars_of;
use crate::text::find_chars;

verus! {

/// How often the copies of one ASCII letter in a text are counted.
pub const COPY_LIMIT: u8 = 255;

/// How many edits are allowed in a word of `n` characters.
pub open spec fn allowed_typos(n: nat) -> nat {
    if n <= 4 {
        1
    } else {
        2
    }
}

fn typos_allowed(n: usize) -> (r: usize)
    ensures
        r == allowed_typos(n as nat),
{
    if n <= 4 {
        1
    } else {
        2
    }
}

// ---------------------------------------------------------------------------
// Overlap
// ---------------------------------------------------------------------------

/// How many copies of a character a text has.
pub open spec fn copies(s: Seq<char>, c: char) -> nat {
    s.to_multiset().count(c)
}

/// How many characters of the word find a copy of their own in the text, of
/// which at most `cap` copies of each are used.
pub open spec fn shared(word: Seq<char>, text: Seq<char>, cap: nat) -> nat
    decreases word.len(),
{
    if word.len() == 0 {
        0
    } else {
        let earlier = word.drop_last();
        let c = word.last();
        shared(earlier, text, cap) + if copies(earlier, c) < edit::min2(copies(text, c), cap) {
            1nat
        } else {
            0
        }
    }
}

/// A text with its ASCII capitals made small.
pub open spec fn ascii_folded(s: Seq<char>) -> Seq<char> {
    s.map_values(|c: char| text::ascii_lower(c))
}

/// Whether the text has enough of the characters of the word for the word to
/// be found in it with `max_dist` edits. ASCII letters are taken in either case,
/// up to the limit on copies.
pub open spec fn overlaps(word: Seq<char>, text: Seq<char>, max_dist: nat) -> bool {
    let have = if is_ascii_chars(word) && is_ascii_chars(text) {
        shared(ascii_folded(word), ascii_folded(text), COPY_LIMIT as nat)
    } else {
        shared(word, text, text.len())
    };
    have + max_dist >= word.len()
}

/// A longer word shares at least as many characters.
proof fn lemma_shared_monotone(word: Seq<char>, text: Seq<char>, cap: nat, i: int)
    requires
        0 <= i <= word.len(),
    ensures
        shared(word.take(i), text, cap) <= shared(word, text, cap),
        shared(word, text, cap) <= word.len(),
    decreases word.len(),
{
    if word.len() > 0 {
        if i < word.len() {
            assert(word.drop_last().take(i) =~= word.take(i));
            lemma_shared_monotone(word.drop_last(), text, cap, i);
        } else {
            assert(word.take(i) =~= word);
            lemma_shared_monotone(word.drop_last(), text, cap, 0);
        }
    } else {
        assert(word.take(i) =~= word);
    }
}

proof fn lemma_shared_step(word: Seq<char>, text: Seq<char>, cap: nat, i: int)
    requires
        0 <= i < word.len(),
    ensures
        shared(word.take(i + 1), text, cap) == shared(word.take(i), text, cap) + if copies(
            word.take(i),
            word[i],
        ) < edit::min2(copies(text, word[i]), cap) {
            1nat
        } else {
            0
        },
        forall|c: char| #[trigger]
            copies(word.take(i + 1), c) == copies(word.take(i), c) + if c == word[i] {
                1nat
            } else {
                0
            },
{
    broadcast use vstd::seq_lib::group_to_multiset_ensures;
    broadcast use vstd::multiset::group_multiset_axioms;

    assert(word.take(i + 1).drop_last() =~= word.take(i));
    assert(word.take(i + 1) =~= word.take(i).push(word[i]));
}

proof fn lemma_copies_bound(s: Seq<char>, c: char)
    ensures
        copies(s, c) <= s.len(),
        s.len() == 0 ==> copies(s, c) == 0,
        copies(s, c) > 0 <==> s.contains(c),
    decreases s.len(),
{
    broadcast use vstd::seq_lib::group_to_multiset_ensures;
    broadcast use vstd::multiset::group_multiset_axioms;

    if s.len() > 0 {
        assert(s =~= s.drop_last().push(s.last()));
        lemma_copies_bound(s.drop_last(), c);
    }
}

proof fn lemma_code_injective(a: char, b: char)
    ensures
        a as u32 == b as u32 ==> a == b,
{
}

fn folded_ascii(s: &str) -> (v: Vec<char>)
    requires
        is_ascii_chars(s@),
    ensures
        v@ == ascii_folded(s@),
        forall|i: int| 0 <= i < v@.len() ==> (#[trigger] v@[i] as u32) < 128,
{
    let mut v = chars_of(s);
    let mut i: usize = 0;
    while i < v.len()
        invariant
            i <= v@.len(),
            v@.len() == s@.len(),
            is_ascii_chars(s@),
            forall|k: int| 0 <= k < i ==> #[trigger] v@[k] == text::ascii_lower(s@[k]),
            forall|k: int| 0 <= k < i ==> (#[trigger] v@[k] as u32) < 128,
            forall|k: int| i <= k < v@.len() ==> #[trigger] v@[k] == s@[k],
        decreases v.len() - i,
    {
        let c = v[i];
        v.set(i, ascii_lower_of(c));
        i += 1;
    }
    proof {
        assert(v@ =~= ascii_folded(s@));
    }
    v
}

fn count_copies(text: &[char]) -> (counts: Vec<u8>)
    requires
        forall|i: int| 0 <= i < text@.len() ==> (#[trigger] text@[i] as u32) < 128,
    ensures
        counts@.len() == 128,
        forall|c: char|
            (c as u32) < 128 ==> counts@[c as u32 as int] as nat == edit::min2(
                #[trigger] copies(text@, c),
                COPY_LIMIT as nat,
            ),
{
    let mut counts: Vec<u8> = Vec::new();
    let mut i: usize = 0;
    while i < 128
        invariant
            i <= 128,
            counts@.len() == i,
            forall|k: int| 0 <= k < i ==> counts@[k] == 0,
        decreases 128 - i,
    {
        counts.push(0);
        i += 1;
    }
    let mut j: usize = 0;
    proof {
        assert forall|c: char| (c as u32) < 128 implies counts@[c as u32 as int] as nat == edit::min2(
            #[trigger] copies(text@.take(0), c),
            COPY_LIMIT as nat,
        ) by {
            lemma_copies_bound(text@.take(0), c);
        }
    }
    while j < text.len()
        invariant
            j <= text@.len(),
            counts@.len() == 128,
            forall|i: int| 0 <= i < text@.len() ==> (#[trigger] text@[i] as u32) < 128,
            forall|c: char|
                (c as u32) < 128 ==> counts@[c as u32 as int] as nat == edit::min2(
                    #[trigger] copies(text@.take(j as int), c),
                    COPY_LIMIT as nat,
                ),
        decreases text.len() - j,
    {
        proof {
            lemma_shared_step(text@, text@, 0, j as int);
        }
        let c = text[j];
        let slot: usize = c as u32 as usize;
        let n: u8 = counts[slot];
        let ghost before = counts@;
        assert(n as nat == edit::min2(copies(text@.take(j as int), c), COPY_LIMIT as nat));
        if n < COPY_LIMIT {
            counts.set(slot, n + 1);
        }
        proof {
            assert forall|d: char| (d as u32) < 128 implies counts@[d as u32 as int] as nat == edit::min2(
                #[trigger] copies(text@.take(j + 1), d),
                COPY_LIMIT as nat,
            ) by {
                lemma_code_injective(c, d);
                assert(before[d as u32 as int] as nat == edit::min2(
                    copies(text@.take(j as int), d),
                    COPY_LIMIT as nat,
                ));
            }
        }
        j += 1;
    }
    proof {
        assert(text@.take(text@.len() as int) =~= text@);
    }
    counts
}

/// Whether enough ASCII characters of the word are in the text.
fn ascii_overlap(word: &[char], text: &[char], min_overlap: usize) -> (r: bool)
    requires
        forall|i: int| 0 <= i < text@.len() ==> (#[trigger] text@[i] as u32) < 128,
        forall|i: int| 0 <= i < word@.len() ==> (#[trigger] word@[i] as u32) < 128,
        min_overlap > 0,
    ensures
        r == (shared(word@, text@, COPY_LIMIT as nat) >= min_overlap),
{
    let mut counts = count_copies(text);
    let ghost cap = COPY_LIMIT as nat;
    let mut overlap: usize = 0;
    let mut i: usize = 0;
    proof {
        assert forall|c: char| #[trigger] copies(word@.take(0), c) == 0 by {
            lemma_copies_bound(word@.take(0), c);
        }
    }
    while i < word.len()
        invariant
            i <= word@.len(),
            overlap <= i,
            overlap < min_overlap,
            cap == COPY_LIMIT as nat,
            counts@.len() == 128,
            overlap == shared(word@.take(i as int), text@, cap),
            forall|i: int| 0 <= i < word@.len() ==> (#[trigger] word@[i] as u32) < 128,
            forall|c: char|
                #![trigger copies(text@, c)]
                (c as u32) < 128 ==> counts@[c as u32 as int] as int == ({
                    let have = edit::min2(copies(text@, c), cap) as int;
                    let used = copies(word@.take(i as int), c) as int;
                    if have > used {
                        have - used
                    } else {
                        0
                    }
                }),
        decreases word.len() - i,
    {
        proof {
            lemma_shared_step(word@, text@, cap, i as int);
            lemma_shared_monotone(word@, text@, cap, i + 1);
        }
        let c = word[i];
        let slot: usize = c as u32 as usize;
        let n: u8 = counts[slot];
        assert(copies(text@, c) >= 0);
        let ghost before = counts@;
        if n > 0 {
            counts.set(slot, n - 1);
            overlap += 1;
            if overlap >= min_overlap {
                return true;
            }
        }
        proof {
            assert forall|d: char|
                #![trigger copies(text@, d)]
                (d as u32) < 128 implies counts@[d as u32 as int] as int == ({
                let have = edit::min2(copies(text@, d), cap) as int;
                let used = copies(word@.take(i + 1), d) as int;
                if have > used {
                    have - used
                } else {
                    0
                }
            }) by {
                lemma_code_injective(c, d);
                assert(copies(word@.take(i + 1), d) == copies(word@.take(i as int), d) + if d == c {
                    1nat
                } else {
                    0
                });
            }
        }
        i += 1;
    }
    proof {
        assert(word@.take(word@.len() as int) =~= word@);
    }
    false
}

/// Whether enough characters of the word are in the text.
fn char_overlap(word: &[char], text: Vec<char>, min_overlap: usize) -> (r: bool)
    requires
        min_overlap > 0,
    ensures
        r == (shared(word@, text@, text@.len()) >= min_overlap),
{
    let ghost all = text@;
    let ghost cap = all.len();
    let mut left = text;
    let mut overlap: usize = 0;
    let mut i: usize = 0;
    proof {
        assert forall|c: char| #[trigger] copies(word@.take(0), c) == 0 by {
            lemma_copies_bound(word@.take(0), c);
        }
    }
    while i < word.len()
        invariant
            i <= word@.len(),
            overlap <= i,
            overlap < min_overlap,
            cap == all.len(),
            all == text@,
            overlap == shared(word@.take(i as int), all, cap),
            forall|c: char|
                #![trigger copies(all, c)]
                copies(left@, c) as int == ({
                    let have = copies(all, c) as int;
                    let used = copies(word@.take(i as int), c) as int;
                    if have > used {
                        have - used
                    } else {
                        0
                    }
                }),
        decreases word.len() - i,
    {
        proof {
            lemma_shared_step(word@, all, cap, i as int);
            lemma_shared_monotone(word@, all, cap, i + 1);
            lemma_copies_bound(all, word@[i as int]);
            lemma_copies_bound(left@, word@[i as int]);
        }
        let c = word[i];
        let ghost before = left@;
        let mut pos: usize = 0;
        while pos < left.len() && left[pos] != c
            invariant
                pos <= left@.len(),
                forall|k: int| 0 <= k < pos ==> left@[k] != c,
            decreases left.len() - pos,
        {
            pos += 1;
        }
        if pos < left.len() {
            assert(left@.contains(c));
            left.remove(pos);
            overlap += 1;
            if overlap >= min_overlap {
                return true;
            }
        } else {
            assert(!left@.contains(c));
        }
        proof {
            broadcast use vstd::seq_lib::group_to_multiset_ensures;
            broadcast use vstd::multiset::group_multiset_axioms;

            assert forall|d: char|
                #![trigger copies(all, d)]
                copies(left@, d) as int == ({
                    let have = copies(all, d) as int;
                    let used = copies(word@.take(i + 1), d) as int;
                    if have > used {
                        have - used
                    } else {
                        0
                    }
                }) by {
                assert(copies(word@.take(i + 1), d) == copies(word@.take(i as int), d) + if d == c {
                    1nat
                } else {
                    0
                });
                assert(copies(before, d) >= 0);
                if pos < before.len() {
                    assert(left@ == before.remove(pos as int));
                    assert(left@.to_multiset() == before.to_multiset().remove(before[pos as int]));
                }
            }
        }
        i += 1;
    }
    proof {
        assert(word@.take(word@.len() as int) =~= word@);
    }
    false
}

/// Whether the text has enough of the characters of the word for the word to
/// be found in it with `max_dist` edits.
pub fn has_typo_candidate_overlap(word: &str, text: &str, max_dist: usize) -> (r: bool)
    ensures
        r == overlaps(word@, text@, max_dist as nat),
{
    let word_chars = chars_of(word);
    let count: usize = word_chars.len();
    if count <= max_dist {
        return true;
    }
    let min_overlap: usize = count - max_dist;
    if word.is_ascii() && text.is_ascii() {
        let w = folded_ascii(word);
        let t = folded_ascii(text);
        return ascii_overlap(w.as_slice(), t.as_slice(), min_overlap);
    }
    let text_chars = chars_of(text);
    char_overlap(word_chars.as_slice(), text_chars, min_overlap)
}

// ---------------------------------------------------------------------------
// Words
// ---------------------------------------------------------------------------

/// The best match of a word in a text within a number of edits, looked for without the test
/// for overlap. ASCII letters are taken in either case.
pub open spec fn closest_within(word: Seq<char>, text: Seq<char>, max_dist: nat) -> Option<
    TypoWordMatch,
> {
    if is_ascii_chars(word) && is_ascii_chars(text) {
        edit::closest_part(
            edit::lower_bytes(encode_utf8(word)),
            edit::lower_bytes(encode_utf8(text)),
            max_dist,
        )
    } else {
        edit::closest_part(word, text, max_dist)
    }
}

/// The match of a word in a text: where it stands, or else, for a word of three
/// characters or more that is not too long, the closest part of the text.
pub open spec fn typo_word(word: Seq<char>, text: Seq<char>) -> Option<TypoWordMatch> {
    if word.len() == 0 {
        Some(TypoWordMatch { cost: 0, start: 0, span_len: 0 })
    } else {
        match text::find(text, word) {
            Some(k) => Some(
                TypoWordMatch {
                    cost: 0,
                    start: encoding::byte_offset(text, k) as usize,
                    span_len: word.len() as usize,
                },
            ),
            None => {
                let max_dist = allowed_typos(word.len());
                if word.len() <= 2 || !overlaps(word, text, max_dist) || encoding::byte_len(word)
                    > edit::MAX_WORD_LEN {
                    None
                } else {
                    closest_within(word, text, max_dist)
                }
            },
        }
    }
}

/// A match lies within the text, needs no more edits than are allowed, and is
/// about as long as the word.
pub proof fn lemma_typo_word_bounds(word: Seq<char>, text: Seq<char>)
    requires
        encoding::byte_len(text) <= usize::MAX,
    ensures
        typo_word(word, text) matches Some(m) ==> {
            &&& m.start <= encoding::byte_len(text)
            &&& m.cost <= 2
            &&& m.span_len <= word.len() + 2
            &&& word.len() <= m.span_len + 2
        },
{
    encoding::lemma_byte_offset_bounds(text, 0);
    text::lemma_find_from(text, word, 0);
    if let Some(k) = text::find(text, word) {
        encoding::lemma_byte_offset_bounds(text, k);
        encoding::lemma_byte_offset_monotone(text, 0, text.len() as int);
        assert(text.take(text.len() as int) =~= text);
    } else if word.len() > 0 {
        let d = allowed_typos(word.len());
        encoding::lemma_byte_offset_monotone(text, 0, text.len() as int);
        assert(text.take(text.len() as int) =~= text);
        let p = edit::lower_bytes(encode_utf8(word));
        let t = edit::lower_bytes(encode_utf8(text));
        encoding::lemma_byte_len_encoding(text);
        encoding::lemma_byte_len_encoding(word);
        edit::lemma_closest_part_is_best(word, text, d);
        if let Some(m) = edit::closest_part(word, text, d) {
            edit::lemma_osa_length(word, text.subrange(m.start as int, m.start + m.span_len));
        }
        if is_ascii_chars(word) && is_ascii_chars(text) {
            encoding::lemma_byte_len_ascii(word);
            edit::lemma_closest_part_is_best(p, t, d);
            if let Some(m) = edit::closest_part(p, t, d) {
                edit::lemma_osa_length(p, t.subrange(m.start as int, m.start + m.span_len));
            }
        }
    }
}

/// Matches a word against a text, with typos.
pub fn typo_match_word(word: &str, text: &str) -> (r: Option<TypoWordMatch>)
    ensures
        r == typo_word(word@, text@),
{
    let word_chars = chars_of(word);
    let count: usize = word_chars.len();
    if count == 0 {
        return Some(TypoWordMatch { cost: 0, start: 0, span_len: 0 });
    }
    let text_chars = chars_of(text);
    if let Some(k) = find_chars(text_chars.as_slice(), word_chars.as_slice()) {
        proof {
            text::lemma_find_from(text@, word@, 0);
        }
        let start: usize = offset_of(text, text_chars.as_slice(), k);
        return Some(TypoWordMatch { cost: 0, start, span_len: count });
    }
    // Very short words would match nearly everything.
    if count <= 2 {
        return None;
    }
    let max_dist: usize = typos_allowed(count);
    if !has_typo_candidate_overlap(word, text, max_dist) {
        return None;
    }
    if byte_length(word) > edit::MAX_WORD_LEN {
        return None;
    }
    proof {
        encoding::lemma_byte_len_encoding(word@);
        encoding::lemma_byte_offset_monotone(word@, 0, word@.len() as int);
        assert(word@.take(word@.len() as int) =~= word@);
    }
    if word.is_ascii() && text.is_ascii() {
        typo_match_word_osa_substring_ascii(word.as_bytes(), text.as_bytes(), max_dist)
    } else {
        typo_match_word_osa_substring(word_chars.as_slice(), text_chars.as_slice(), max_dist)
    }
}

/// The byte offset of a character of a text.
pub(crate) fn offset_of(text: &str, chars: &[char], k: usize) -> (r: usize)
    requires
        chars@ == text@,
        k <= chars@.len(),
    ensures
        r == encoding::byte_offset(text@, k as int),
{
    let total: usize = byte_length(text);
    let mut offset: usize = 0;
    let mut i: usize = 0;
    proof {
        assert(text@.take(text@.len() as int) =~= text@);
    }
    while i < k
        invariant
            i <= k <= chars@.len(),
            chars@ == text@,
            total == encoding::byte_len(text@),
            text@.take(text@.len() as int) == text@,
            offset == encoding::byte_offset(text@, i as int),
        decreases k - i,
    {
        proof {
            encoding::lemma_byte_offset_step(text@, i as int);
            encoding::lemma_byte_offset_monotone(text@, i + 1, text@.len() as int);
        }
        offset += width_of(chars[i]);
        i += 1;
    }
    offset
}

// ---------------------------------------------------------------------------
// Segments
// ---------------------------------------------------------------------------

/// The characters that part the segments of a path.
pub open spec fn is_separator(c: char) -> bool {
    ||| c == '/'
    ||| c == '\\'
    ||| c == '-'
    ||| c == '_'
    ||| c == '.'
    ||| c == ' '
    ||| c == ':'
    ||| c == ';'
    ||| c == ','
    ||| c == '('
    ||| c == ')'
    ||| c == '['
    ||| c == ']'
    ||| c == '{'
    ||| c == '}'
}

/// Whether a character parts the segments of a path.
pub fn is_match_separator(ch: char) -> (r: bool)
    ensures
        r == is_separator(ch),
{
    ch == '/' || ch == '\\' || ch == '-' || ch == '_' || ch == '.' || ch == ' ' || ch == ':' || ch
        == ';' || ch == ',' || ch == '(' || ch == ')' || ch == '[' || ch == ']' || ch == '{' || ch
        == '}'
}

/// Whether a byte offset is where a segment can start: the start of the text,
/// or the place behind a separator.
pub open spec fn starts_segment(text: Seq<char>, start: int) -> bool {
    start == 0 || exists|k: int|
        #![trigger encoding::byte_offset(text, k)]
        0 < k <= text.len() && encoding::byte_offset(text, k) == start && is_separator(text[k - 1])
}

/// Whether a byte offset is where a segment can start. An offset inside a
/// character or beyond the text is none.
pub fn is_match_boundary(text: &str, start: usize) -> (r: bool)
    ensures
        r == starts_segment(text@, start as int),
{
    if start == 0 {
        return true;
    }
    let chars = chars_of(text);
    let total: usize = byte_length(text);
    let mut offset: usize = 0;
    let mut i: usize = 0;
    proof {
        assert(text@.take(text@.len() as int) =~= text@);
    }
    while i < chars.len() && offset < start
        invariant
            i <= chars@.len(),
            chars@ == text@,
            start > 0,
            total == encoding::byte_len(text@),
            text@.take(text@.len() as int) == text@,
            offset == encoding::byte_offset(text@, i as int),
            forall|k: int|
                #![trigger encoding::byte_offset(text@, k)]
                0 <= k < i ==> encoding::byte_offset(text@, k) < start,
        decreases chars.len() - i,
    {
        proof {
            encoding::lemma_byte_offset_step(text@, i as int);
            encoding::lemma_byte_offset_monotone(text@, i + 1, text@.len() as int);
        }
        offset += width_of(chars[i]);
        i += 1;
    }
    proof {
        assert forall|k: int| i < k <= text@.len() implies #[trigger] encoding::byte_offset(text@, k)
            > offset by {
            encoding::lemma_byte_offset_monotone(text@, i as int, k);
        }
    }
    if offset == start && i > 0 {
        let r = is_match_separator(chars[i - 1]);
        proof {
            assert(encoding::byte_offset(text@, i as int) == start);
        }
        r
    } else {
        false
    }
}

/// Whether one match is to be preferred to another: fewer edits, then an
/// earlier start, then a shorter span.
pub open spec fn preferred(a: TypoWordMatch, b: TypoWordMatch) -> bool {
    ||| a.cost < b.cost
    ||| a.cost == b.cost && a.start < b.start
    ||| a.cost == b.cost && a.start == b.start && a.span_len < b.span_len
}

/// The best match when the segment between two byte offsets is taken into
/// account. A segment whose length differs too much from the word's is not.
pub open spec fn with_segment(
    word: Seq<char>,
    text: Seq<char>,
    start: int,
    end: int,
    best: Option<TypoWordMatch>,
) -> Option<TypoWordMatch> {
    if start >= end {
        best
    } else {
        let segment = text.subrange(
            encoding::char_index(text, start),
            encoding::char_index(text, end),
        );
        let max_dist = allowed_typos(word.len());
        if segment.len() + max_dist < word.len() || word.len() + max_dist < segment.len() {
            best
        } else {
            match typo_word(word, segment) {
                None => best,
                Some(m) => {
                    let found = TypoWordMatch { start: (m.start + start) as usize, ..m };
                    match best {
                        Some(current) => if preferred(found, current) {
                            Some(found)
                        } else {
                            best
                        },
                        None => Some(found),
                    }
                },
            }
        }
    }
}

/// Takes the segment between two byte offsets into account for the best match.
pub fn consider_typo_segment(
    word: &str,
    text: &str,
    start: usize,
    end: usize,
    best: &mut Option<TypoWordMatch>,
)
    requires
        start < end ==> encoding::is_boundary(text@, start as int) && encoding::is_boundary(
            text@,
            end as int,
        ),
    ensures
        *final(best) == with_segment(word@, text@, start as int, end as int, *old(best)),
{
    if start >= end {
        return ;
    }
    let ghost s = encoding::char_index(text@, start as int);
    let ghost e = encoding::char_index(text@, end as int);
    proof {
        if e < s {
            encoding::lemma_byte_offset_monotone(text@, e, s);
        }
        lemma_offset_in_rest(text@, s, e);
    }
    let (_, rest) = split_text(text, start, Ghost(s));
    let (segment, _) = split_text(rest, end - start, Ghost(e - s));
    proof {
        assert(text@.skip(s).take(e - s) =~= text@.subrange(s, e));
    }
    let word_len: usize = chars_of(word).len();
    let segment_len: usize = chars_of(segment).len();
    let max_dist: usize = typos_allowed(word_len);
    if segment_len < word_len && word_len - segment_len > max_dist {
        return ;
    }
    if word_len < segment_len && segment_len - word_len > max_dist {
        return ;
    }
    let size: usize = byte_length(segment);
    let total: usize = byte_length(text);
    proof {
        lemma_typo_word_bounds(word@, segment@);
        encoding::lemma_byte_offset_monotone(text@, e, text@.len() as int);
        assert(text@.take(text@.len() as int) =~= text@);
        assert(text@.take(e) =~= text@.take(s) + segment@);
        encoding::lemma_byte_len_concat(text@.take(s), segment@);
    }
    if let Some(m) = typo_match_word(word, segment) {
        let found = TypoWordMatch { cost: m.cost, start: m.start + start, span_len: m.span_len };
        let replace = match *best {
            Some(current) => found.cost < current.cost || (found.cost == current.cost && (
            found.start < current.start || (found.start == current.start && found.span_len
                < current.span_len))),
            None => true,
        };
        if replace {
            *best = Some(found);
        }
    }
}

proof fn lemma_offset_in_rest(text: Seq<char>, s: int, e: int)
    requires
        0 <= s <= e <= text.len(),
    ensures
        encoding::byte_offset(text.skip(s), e - s) == encoding::byte_offset(text, e)
            - encoding::byte_offset(text, s),
{
    assert(text.take(e) =~= text.take(s) + text.skip(s).take(e - s));
    encoding::lemma_byte_len_concat(text.take(s), text.skip(s).take(e - s));
}

/// The segments of a text before its end is reached: those that are complete,
/// and where the one that is not starts. A segment is given by the places of
/// its first character and of the separator behind it.
pub open spec fn segment_state(text: Seq<char>) -> (Seq<(int, int)>, Option<int>)
    decreases text.len(),
{
    if text.len() == 0 {
        (Seq::empty(), None)
    } else {
        let here = text.len() - 1;
        let (done, open) = segment_state(text.drop_last());
        match open {
            Some(s) => if is_separator(text.last()) {
                (done.push((s, here)), None)
            } else {
                (done, open)
            },
            None => if is_separator(text.last()) {
                (done, None)
            } else {
                (done, Some(here))
            },
        }
    }
}

/// The segments of a text: its longest runs without a separator, in order.
pub open spec fn segments(text: Seq<char>) -> Seq<(int, int)> {
    let (done, open) = segment_state(text);
    match open {
        Some(s) => done.push((s, text.len() as int)),
        None => done,
    }
}

/// The best match of a word among some segments of a text.
pub open spec fn best_segment(
    word: Seq<char>,
    text: Seq<char>,
    list: Seq<(int, int)>,
) -> Option<TypoWordMatch>
    decreases list.len(),
{
    if list.len() == 0 {
        None
    } else {
        with_segment(
            word,
            text,
            encoding::byte_offset(text, list.last().0) as int,
            encoding::byte_offset(text, list.last().1) as int,
            best_segment(word, text, list.drop_last()),
        )
    }
}

/// The best match of a word among the segments of a text.
pub open spec fn typo_word_segmented(word: Seq<char>, text: Seq<char>) -> Option<TypoWordMatch> {
    if overlaps(word, text, allowed_typos(word.len())) {
        best_segment(word, text, segments(text))
    } else {
        None
    }
}

/// Matches a word, with typos, against each segment of a text.
pub fn typo_match_word_segmented(word: &str, text: &str) -> (r: Option<TypoWordMatch>)
    ensures
        r == typo_word_segmented(word@, text@),
{
    let word_len: usize = chars_of(word).len();
    let max_dist: usize = typos_allowed(word_len);
    if !has_typo_candidate_overlap(word, text, max_dist) {
        return None;
    }
    let chars = chars_of(text);
    let total: usize = byte_length(text);
    let mut best: Option<TypoWordMatch> = None;
    let mut segment_start: Option<usize> = None;
    let ghost mut open: Option<int> = None;
    let mut offset: usize = 0;
    let mut i: usize = 0;
    proof {
        assert(text@.take(text@.len() as int) =~= text@);
    }
    while i < chars.len()
        invariant
            i <= chars@.len(),
            chars@ == text@,
            total == encoding::byte_len(text@),
            text@.take(text@.len() as int) == text@,
            offset == encoding::byte_offset(text@, i as int),
            segment_state(text@.take(i as int)).1 == open,
            best == best_segment(word@, text@, segment_state(text@.take(i as int)).0),
            match open {
                Some(s) => 0 <= s < i && segment_start == Some(
                    encoding::byte_offset(text@, s) as usize,
                ),
                None => segment_start is None,
            },
        decreases chars.len() - i,
    {
        proof {
            assert(text@.take(i + 1).drop_last() =~= text@.take(i as int));
            encoding::lemma_byte_offset_step(text@, i as int);
            encoding::lemma_byte_offset_monotone(text@, i + 1, text@.len() as int);
            encoding::lemma_char_index(text@, i as int);
            if let Some(s) = open {
                encoding::lemma_char_index(text@, s);
                encoding::lemma_byte_offset_monotone(text@, s, i as int);
            }
        }
        let c = chars[i];
        if is_match_separator(c) {
            if let Some(start) = segment_start {
                let ghost done = segment_state(text@.take(i as int)).0;
                consider_typo_segment(word, text, start, offset, &mut best);
                segment_start = None;
                proof {
                    assert(done.push((open->0, i as int)).drop_last() =~= done);
                    open = None;
                }
            }
        } else if segment_start.is_none() {
            segment_start = Some(offset);
            proof {
                open = Some(i as int);
            }
        }
        offset += width_of(c);
        i += 1;
    }
    if let Some(start) = segment_start {
        proof {
            let done = segment_state(text@).0;
            encoding::lemma_char_index(text@, text@.len() as int);
            encoding::lemma_char_index(text@, open->0);
            encoding::lemma_byte_offset_monotone(text@, open->0, text@.len() as int);
            assert(done.push((open->0, text@.len() as int)).drop_last() =~= done);
        }
        consider_typo_segment(word, text, start, offset, &mut best);
    }
    best
}

// ---------------------------------------------------------------------------
// The test for overlap loses nothing
// ---------------------------------------------------------------------------

proof fn lemma_copies_push(s: Seq<char>, d: char, c: char)
    ensures
        copies(s.push(d), c) == copies(s, c) + if c == d {
            1nat
        } else {
            0
        },
{
    broadcast use vstd::seq_lib::group_to_multiset_ensures;
    broadcast use vstd::multiset::group_multiset_axioms;

}

/// One more character in the text makes up for one that the word has in excess.
proof fn lemma_shared_text_push(word: Seq<char>, text: Seq<char>, cap: nat, c: char)
    requires
        word.len() <= cap,
    ensures
        shared(word, text.push(c), cap) == shared(word, text, cap) + if copies(word, c) > copies(
            text,
            c,
        ) {
            1nat
        } else {
            0
        },
    decreases word.len(),
{
    lemma_copies_bound(word, c);
    if word.len() > 0 {
        let earlier = word.drop_last();
        let d = word.last();
        assert(word =~= earlier.push(d));
        lemma_shared_text_push(earlier, text, cap, c);
        lemma_copies_push(earlier, d, c);
        lemma_copies_push(text, c, d);
        lemma_copies_bound(earlier, d);
    }
}

/// A text with more characters shares at least as many with a word.
proof fn lemma_shared_more(word: Seq<char>, a: Seq<char>, b: Seq<char>, cap: nat)
    requires
        forall|c: char| #[trigger] copies(a, c) <= copies(b, c),
    ensures
        shared(word, a, cap) <= shared(word, b, cap),
    decreases word.len(),
{
    if word.len() > 0 {
        lemma_shared_more(word.drop_last(), a, b, cap);
        assert(copies(a, word.last()) <= copies(b, word.last()));
    }
}

/// A word shares all of its characters with a text but for one an edit.
proof fn lemma_edits_leave_shared(word: Seq<char>, part: Seq<char>, cap: nat)
    requires
        word.len() <= cap,
    ensures
        shared(word, part, cap) + edit::osa(word, part) >= word.len(),
    decreases word.len() + part.len(),
{
    if word.len() > 0 && part.len() > 0 {
        let w = word.drop_last();
        let p = part.drop_last();
        let (x, y) = (word.last(), part.last());
        assert(word =~= w.push(x));
        assert(part =~= p.push(y));
        lemma_edits_leave_shared(w, part, cap);
        lemma_edits_leave_shared(word, p, cap);
        lemma_edits_leave_shared(w, p, cap);
        lemma_shared_text_push(word, p, cap, y);
        lemma_shared_text_push(w, p, cap, y);
        lemma_copies_push(p, y, x);
        lemma_copies_bound(w, x);
        if edit::swapped_ends(word, part) {
            let (w2, p2) = (w.drop_last(), p.drop_last());
            let (x2, y2) = (w.last(), p.last());
            assert(w =~= w2.push(x2));
            assert(p =~= p2.push(y2));
            lemma_edits_leave_shared(w2, p2, cap);
            lemma_shared_text_push(w2, p2, cap, y2);
            lemma_shared_text_push(w2, p, cap, y);
            lemma_shared_text_push(w, p, cap, y);
            lemma_copies_push(p, y, x2);
            lemma_copies_bound(w2, x2);
        }
    }
}

proof fn lemma_copies_in_part(text: Seq<char>, s: int, e: int, c: char)
    requires
        0 <= s <= e <= text.len(),
    ensures
        copies(text.subrange(s, e), c) <= copies(text, c),
    decreases text.len(),
{
    if e < text.len() {
        let front = text.drop_last();
        assert(text =~= front.push(text.last()));
        assert(front.subrange(s, e) =~= text.subrange(s, e));
        lemma_copies_in_part(front, s, e, c);
        lemma_copies_push(front, text.last(), c);
    } else if s < e {
        let front = text.drop_last();
        assert(text =~= front.push(text.last()));
        assert(text.subrange(s, e) =~= front.subrange(s, e - 1).push(text.last()));
        lemma_copies_in_part(front, s, e - 1, c);
        lemma_copies_push(front, text.last(), c);
        lemma_copies_push(front.subrange(s, e - 1), text.last(), c);
    } else {
        lemma_copies_bound(text.subrange(s, e), c);
    }
}

/// A text shares enough characters with a word that one of its parts is close to.
proof fn lemma_close_part_shares(word: Seq<char>, text: Seq<char>, s: int, e: int, cap: nat)
    requires
        0 <= s <= e <= text.len(),
        word.len() <= cap,
    ensures
        shared(word, text, cap) + edit::part_distance(word, text, s, e) >= word.len(),
{
    let part = text.subrange(s, e);
    lemma_edits_leave_shared(word, part, cap);
    assert forall|c: char| #[trigger] copies(part, c) <= copies(text, c) by {
        lemma_copies_in_part(text, s, e, c);
    }
    lemma_shared_more(word, part, text, cap);
}

/// The number of copies that are used does not matter if it is not below those there
/// are.
proof fn lemma_shared_cap(word: Seq<char>, text: Seq<char>, cap: nat, other: nat)
    requires
        text.len() <= cap,
        text.len() <= other,
    ensures
        shared(word, text, cap) == shared(word, text, other),
    decreases word.len(),
{
    if word.len() > 0 {
        lemma_shared_cap(word.drop_last(), text, cap, other);
        lemma_copies_bound(text, word.last());
    }
}

/// Distances stay the same when every character is replaced by a byte of its own.
proof fn lemma_osa_of_bytes(p: Seq<char>, t: Seq<char>, q: Seq<u8>, u: Seq<u8>)
    requires
        p.len() == q.len(),
        t.len() == u.len(),
        forall|i: int| 0 <= i < p.len() ==> (#[trigger] p[i]) as u32 == q[i] as u32,
        forall|i: int| 0 <= i < t.len() ==> (#[trigger] t[i]) as u32 == u[i] as u32,
    ensures
        edit::osa(p, t) == edit::osa(q, u),
    decreases p.len() + t.len(),
{
    if p.len() > 0 && t.len() > 0 {
        let (p1, t1, q1, u1) = (p.drop_last(), t.drop_last(), q.drop_last(), u.drop_last());
        lemma_osa_of_bytes(p1, t, q1, u);
        lemma_osa_of_bytes(p, t1, q, u1);
        lemma_osa_of_bytes(p1, t1, q1, u1);
        lemma_code_injective(p.last(), t.last());
        assert(p[p.len() - 1] as u32 == q[q.len() - 1] as u32);
        assert(t[t.len() - 1] as u32 == u[u.len() - 1] as u32);
        if p.len() > 1 && t.len() > 1 {
            lemma_osa_of_bytes(p1.drop_last(), t1.drop_last(), q1.drop_last(), u1.drop_last());
            lemma_code_injective(p[p.len() - 2], t.last());
            lemma_code_injective(t[t.len() - 2], p.last());
            assert(p[p.len() - 2] as u32 == q[q.len() - 2] as u32);
            assert(t[t.len() - 2] as u32 == u[u.len() - 2] as u32);
        }
    }
}

proof fn lemma_lower_bytes_of(s: Seq<char>)
    requires
        is_ascii_chars(s),
    ensures
        edit::lower_bytes(encode_utf8(s)).len() == s.len(),
        forall|i: int|
            0 <= i < s.len() ==> (#[trigger] ascii_folded(s)[i]) as u32 == edit::lower_bytes(
                encode_utf8(s),
            )[i] as u32,
{
    is_ascii_chars_encode_utf8(s);
}

/// No edit becomes more when letters are taken in either case.
proof fn lemma_osa_folded(p: Seq<char>, t: Seq<char>)
    ensures
        edit::osa(ascii_folded(p), ascii_folded(t)) <= edit::osa(p, t),
    decreases p.len() + t.len(),
{
    if p.len() > 0 && t.len() > 0 {
        let (fp, ft) = (ascii_folded(p), ascii_folded(t));
        let (p1, t1) = (p.drop_last(), t.drop_last());
        assert(ascii_folded(p1) =~= fp.drop_last());
        assert(ascii_folded(t1) =~= ft.drop_last());
        lemma_osa_folded(p1, t);
        lemma_osa_folded(p, t1);
        lemma_osa_folded(p1, t1);
        if edit::swapped_ends(p, t) {
            assert(ascii_folded(p1.drop_last()) =~= fp.drop_last().drop_last());
            assert(ascii_folded(t1.drop_last()) =~= ft.drop_last().drop_last());
            lemma_osa_folded(p1.drop_last(), t1.drop_last());
            assert(edit::swapped_ends(fp, ft));
        }
    }
}

/// The test for overlap loses nothing, however many edits are allowed: a word that has a
/// match in a text, with ASCII letters taken in either case or as they are, passes it. (The
/// limit on copies can only count where there are more characters than that.)
pub proof fn lemma_overlap_loses_nothing(word: Seq<char>, text: Seq<char>, max_dist: nat)
    requires
        word.len() <= COPY_LIMIT,
        closest_within(word, text, max_dist) is Some || edit::closest_part(
            word,
            text,
            max_dist,
        ) is Some,
    ensures
        overlaps(word, text, max_dist),
{
    if word.len() == 0 {
    } else if is_ascii_chars(word) && is_ascii_chars(text) {
        let (w, t) = (ascii_folded(word), ascii_folded(text));
        let p = edit::lower_bytes(encode_utf8(word));
        let u = edit::lower_bytes(encode_utf8(text));
        lemma_lower_bytes_of(word);
        lemma_lower_bytes_of(text);
        if closest_within(word, text, max_dist) is Some {
            let (s, e) = choose|s: int, e: int|
                #![trigger edit::part_distance(p, u, s, e)]
                edit::is_part(u, s, e) && edit::part_distance(p, u, s, e) <= max_dist;
            lemma_close_part_shares(w, t, s, e, COPY_LIMIT as nat);
            assert forall|i: int| 0 <= i < e - s implies (#[trigger] t.subrange(s, e)[i]) as u32
                == u.subrange(s, e)[i] as u32 by {
                assert(t[s + i] as u32 == u[s + i] as u32);
            }
            lemma_osa_of_bytes(w, t.subrange(s, e), p, u.subrange(s, e));
        } else {
            let (s, e) = choose|s: int, e: int|
                #![trigger edit::part_distance(word, text, s, e)]
                edit::is_part(text, s, e) && edit::part_distance(word, text, s, e) <= max_dist;
            lemma_close_part_shares(w, t, s, e, COPY_LIMIT as nat);
            lemma_osa_folded(word, text.subrange(s, e));
            assert(ascii_folded(text.subrange(s, e)) =~= t.subrange(s, e));
        }
    } else {
        let (s, e) = choose|s: int, e: int|
            #![trigger edit::part_distance(word, text, s, e)]
            edit::is_part(text, s, e) && edit::part_distance(word, text, s, e) <= max_dist;
        let cap = word.len() + text.len();
        lemma_close_part_shares(word, text, s, e, cap);
        lemma_shared_cap(word, text, cap, text.len());
    }
}

// ---------------------------------------------------------------------------
// Which typos are found
// ---------------------------------------------------------------------------

/// Whether the characters from `s` up to `e` are one of the longest runs without a separator.
pub open spec fn is_run(text: Seq<char>, s: int, e: int) -> bool {
    &&& 0 <= s < e <= text.len()
    &&& forall|i: int| s <= i < e ==> !is_separator(#[trigger] text[i])
    &&& s == 0 || is_separator(text[s - 1])
    &&& e == text.len() || is_separator(text[e])
}

proof fn lemma_open_segment(text: Seq<char>)
    ensures
        match segment_state(text).1 {
            Some(s) => 0 <= s < text.len() && (s == 0 || is_separator(text[s - 1])) && (forall|
                i: int,
            |
                s <= i < text.len() ==> !is_separator(#[trigger] text[i])),
            None => text.len() == 0 || is_separator(text.last()),
        },
    decreases text.len(),
{
    if text.len() > 0 {
        let init = text.drop_last();
        lemma_open_segment(init);
        if let Some(s) = segment_state(text).1 {
            assert forall|i: int| s <= i < text.len() implies !is_separator(#[trigger] text[i]) by {
                if i < init.len() {
                    assert(init[i] == text[i]);
                }
            }
            if s > 0 {
                assert(text[s - 1] == init[s - 1]);
            }
        }
    }
}

proof fn lemma_done_segments(text: Seq<char>, s: int, e: int)
    ensures
        segment_state(text).0.contains((s, e)) <==> is_run(text, s, e) && e < text.len(),
    decreases text.len(),
{
    if text.len() > 0 {
        let init = text.drop_last();
        lemma_done_segments(init, s, e);
        lemma_open_segment(init);
        let (done, open) = segment_state(init);
        let (after, _) = segment_state(text);
        let here = init.len() as int;
        if is_run(text, s, e) && e < text.len() {
            assert forall|i: int| s <= i < e implies !is_separator(#[trigger] init[i]) by {
                assert(text[i] == init[i]);
            }
            if e < here {
                assert(is_run(init, s, e));
                let k = done.index_of((s, e));
                assert(after[k] == (s, e));
            } else {
                assert(is_separator(text[e]));
                assert(open is Some);
                let o = open->0;
                if o < s {
                    assert(!is_separator(init[s - 1]));
                } else if s < o {
                    assert(!is_separator(init[o - 1]));
                }
                assert(after.last() == (s, e));
                assert(after.contains(after.last()));
            }
        }
        if after.contains((s, e)) {
            if done.contains((s, e)) {
                assert forall|i: int| s <= i < e implies !is_separator(#[trigger] text[i]) by {
                    assert(text[i] == init[i]);
                }
                if s > 0 {
                    assert(text[s - 1] == init[s - 1]);
                }
                assert(text[e] == init[e]);
                assert(is_run(text, s, e));
            } else {
                let k = after.index_of((s, e));
                if k < done.len() {
                    assert(done[k] == (s, e));
                }
                assert(open == Some(s) && e == here);
                assert forall|i: int| s <= i < e implies !is_separator(#[trigger] text[i]) by {
                    assert(text[i] == init[i]);
                }
                if s > 0 {
                    assert(text[s - 1] == init[s - 1]);
                }
                assert(is_run(text, s, e));
            }
        }
    }
}

/// The segments of a text are its longest runs without a separator, and nothing else.
pub proof fn lemma_segments_are_runs(text: Seq<char>, s: int, e: int)
    ensures
        segments(text).contains((s, e)) <==> is_run(text, s, e),
{
    lemma_done_segments(text, s, e);
    lemma_open_segment(text);
    let (done, open) = segment_state(text);
    let all = segments(text);
    if is_run(text, s, e) {
        if e < text.len() {
            let k = done.index_of((s, e));
            assert(all[k] == (s, e));
        } else {
            assert(!is_separator(text[e - 1]));
            let o = open->0;
            if o < s {
                assert(!is_separator(text[s - 1]));
            } else if s < o {
                assert(!is_separator(text[o - 1]));
            }
            assert(all.last() == (s, e));
            assert(all.contains(all.last()));
        }
    }
    if all.contains((s, e)) {
        let k = all.index_of((s, e));
        if k < done.len() {
            assert(done[k] == (s, e));
            assert(done.contains((s, e)));
        } else {
            assert(open == Some(s) && e == text.len());
        }
    }
}

proof fn lemma_close_word_is_found(word: Seq<char>, text: Seq<char>)
    requires
        3 <= word.len(),
        encoding::byte_len(word) <= edit::MAX_WORD_LEN,
        encoding::byte_len(text) <= usize::MAX,
        text.len() > 0,
        edit::osa(word, text) <= allowed_typos(word.len()),
    ensures
        typo_word(word, text) matches Some(m) && m.cost <= edit::osa(word, text),
{
    let d = allowed_typos(word.len());
    encoding::lemma_byte_offset_monotone(word, 0, word.len() as int);
    assert(word.take(word.len() as int) =~= word);
    encoding::lemma_byte_offset_bounds(word, word.len() as int);
    encoding::lemma_byte_offset_bounds(text, text.len() as int);
    assert(text.take(text.len() as int) =~= text);
    assert(text.subrange(0, text.len() as int) =~= text);
    assert(edit::part_distance(word, text, 0, text.len() as int) <= d);
    assert(edit::is_part(text, 0, text.len() as int));
    edit::lemma_closest_part_is_best(word, text, d);
    assert(edit::closest_part(word, text, d) is Some);
    lemma_overlap_loses_nothing(word, text, d);
    if text::find(text, word) is None && is_ascii_chars(word) && is_ascii_chars(text) {
        let p = edit::lower_bytes(encode_utf8(word));
        let u = edit::lower_bytes(encode_utf8(text));
        lemma_lower_bytes_of(word);
        lemma_lower_bytes_of(text);
        lemma_osa_of_bytes(ascii_folded(word), ascii_folded(text), p, u);
        lemma_osa_folded(word, text);
        assert(u.subrange(0, u.len() as int) =~= u);
        assert(edit::part_distance(p, u, 0, u.len() as int) <= d);
        assert(edit::is_part(u, 0, u.len() as int));
        encoding::lemma_byte_len_encoding(text);
        edit::lemma_closest_part_is_best(p, u, d);
    }
}

proof fn lemma_best_of_segments(
    word: Seq<char>,
    text: Seq<char>,
    list: Seq<(int, int)>,
    s: int,
    e: int,
)
    requires
        3 <= word.len(),
        encoding::byte_len(word) <= edit::MAX_WORD_LEN,
        encoding::byte_len(text) <= usize::MAX,
        0 <= s < e <= text.len(),
        list.contains((s, e)),
        edit::osa(word, text.subrange(s, e)) <= allowed_typos(word.len()),
    ensures
        best_segment(word, text, list) matches Some(m) && m.cost <= edit::osa(
            word,
            text.subrange(s, e),
        ),
    decreases list.len(),
{
    let k = list.index_of((s, e));
    if list.last() == (s, e) {
        let segment = text.subrange(s, e);
        encoding::lemma_char_index(text, s);
        encoding::lemma_char_index(text, e);
        encoding::lemma_byte_offset_monotone(text, s, e);
        edit::lemma_osa_length(word, segment);
        assert(text =~= text.take(s) + segment + text.skip(e));
        encoding::lemma_byte_len_concat(text.take(s) + segment, text.skip(e));
        encoding::lemma_byte_len_concat(text.take(s), segment);
        lemma_close_word_is_found(word, segment);
    } else {
        let init = list.drop_last();
        assert(init[k] == (s, e));
        assert(init.contains((s, e)));
        lemma_best_of_segments(word, text, init, s, e);
    }
}

/// A word of three characters or more is found by each of the longest runs without a separator
/// that it can be turned into with the edits it is allowed: one if it has up to four
/// characters, else two. No match that is found takes more edits than such a run.
pub proof fn lemma_typos_are_found(word: Seq<char>, text: Seq<char>, s: int, e: int)
    requires
        3 <= word.len(),
        encoding::byte_len(word) <= edit::MAX_WORD_LEN,
        encoding::byte_len(text) <= usize::MAX,
        is_run(text, s, e),
        edit::osa(word, text.subrange(s, e)) <= if word.len() <= 4 {
            1nat
        } else {
            2
        },
    ensures
        typo_word_segmented(word, text) matches Some(m) && m.cost <= edit::osa(
            word,
            text.subrange(s, e),
        ),
{
    let d = allowed_typos(word.len());
    lemma_segments_are_runs(text, s, e);
    lemma_best_of_segments(word, text, segments(text), s, e);
    encoding::lemma_byte_offset_monotone(word, 0, word.len() as int);
    assert(word.take(word.len() as int) =~= word);
    encoding::lemma_byte_offset_bounds(word, word.len() as int);
    assert(edit::part_distance(word, text, s, e) <= d);
    assert(edit::is_part(text, s, e));
    assert(edit::closest_part(word, text, d) is Some);
    lemma_overlap_loses_nothing(word, text, d);
}

/// Whether a match in a text is that of a word in its characters from `s` up to `e`.
pub open spec fn is_match_between(
    word: Seq<char>,
    text: Seq<char>,
    m: TypoWordMatch,
    s: int,
    e: int,
) -> bool {
    typo_word(word, text.subrange(s, e)) matches Some(found) && m.cost == found.cost && m.span_len
        == found.span_len && m.start == found.start + encoding::byte_offset(text, s)
}

proof fn lemma_best_segment_is_one(word: Seq<char>, text: Seq<char>, list: Seq<(int, int)>)
    requires
        word.len() > 0,
        encoding::byte_len(text) <= usize::MAX,
        forall|i: int|
            0 <= i < list.len() ==> 0 <= (#[trigger] list[i]).0 < list[i].1 <= text.len(),
    ensures
        best_segment(word, text, list) matches Some(m) ==> exists|s: int, e: int|
            list.contains((s, e)) && #[trigger] is_match_between(word, text, m, s, e),
    decreases list.len(),
{
    if list.len() > 0 {
        let init = list.drop_last();
        assert forall|i: int| 0 <= i < init.len() implies 0 <= (#[trigger] init[i]).0 < init[i].1
            <= text.len() by {
            assert(init[i] == list[i]);
        }
        lemma_best_segment_is_one(word, text, init);
        let (s, e) = list.last();
        assert(list[list.len() - 1] == (s, e));
        let segment = text.subrange(s, e);
        encoding::lemma_char_index(text, s);
        encoding::lemma_char_index(text, e);
        encoding::lemma_byte_offset_monotone(text, s, e);
        assert(text =~= text.take(s) + segment + text.skip(e));
        encoding::lemma_byte_len_concat(text.take(s) + segment, text.skip(e));
        encoding::lemma_byte_len_concat(text.take(s), segment);
        lemma_typo_word_bounds(word, segment);
        if let Some(m) = best_segment(word, text, list) {
            if best_segment(word, text, init) == Some(m) {
                let (s2, e2) = choose|s: int, e: int|
                    init.contains((s, e)) && #[trigger] is_match_between(word, text, m, s, e);
                let k = init.index_of((s2, e2));
                assert(list[k] == (s2, e2));
                assert(list.contains((s2, e2)) && is_match_between(word, text, m, s2, e2));
            } else {
                assert(list.contains((s, e)) && is_match_between(word, text, m, s, e));
            }
        }
    }
}

/// What is found with typos stands in one of the longest runs without a separator: it never
/// reaches over a separator, and takes no more edits than the word is allowed.
pub proof fn lemma_typos_stay_in_a_run(word: Seq<char>, text: Seq<char>)
    requires
        word.len() > 0,
        encoding::byte_len(text) <= usize::MAX,
    ensures
        typo_word_segmented(word, text) matches Some(m) ==> {
            &&& m.cost <= if word.len() <= 4 {
                1nat
            } else {
                2
            }
            &&& exists|s: int, e: int|
                is_run(text, s, e) && #[trigger] is_match_between(word, text, m, s, e)
        },
{
    let list = segments(text);
    assert forall|i: int| 0 <= i < list.len() implies 0 <= (#[trigger] list[i]).0 < list[i].1
        <= text.len() by {
        assert(list.contains(list[i]));
        lemma_segments_are_runs(text, list[i].0, list[i].1);
    }
    lemma_best_segment_is_one(word, text, list);
    if let Some(m) = typo_word_segmented(word, text) {
        let (s, e) = choose|s: int, e: int|
            list.contains((s, e)) && #[trigger] is_match_between(word, text, m, s, e);
        lemma_segments_are_runs(text, s, e);
        let segment = text.subrange(s, e);
        assert(text =~= text.take(s) + segment + text.skip(e));
        encoding::lemma_byte_len_concat(text.take(s) + segment, text.skip(e));
        encoding::lemma_byte_len_concat(text.take(s), segment);
        lemma_edits_allowed(word, segment);
    }
}

proof fn lemma_edits_allowed(word: Seq<char>, text: Seq<char>)
    requires
        word.len() > 0,
        encoding::byte_len(text) <= usize::MAX,
    ensures
        typo_word(word, text) matches Some(m) ==> m.cost <= allowed_typos(word.len()),
{
    let d = allowed_typos(word.len());
    encoding::lemma_byte_offset_bounds(text, text.len() as int);
    assert(text.take(text.len() as int) =~= text);
    edit::lemma_closest_part_is_best(word, text, d);
    if is_ascii_chars(word) && is_ascii_chars(text) {
        lemma_lower_bytes_of(word);
        lemma_lower_bytes_of(text);
        edit::lemma_closest_part_is_best(
            edit::lower_bytes(encode_utf8(word)),
            edit::lower_bytes(encode_utf8(text)),
            d,
        );
    }
}

/// Slashes, dashes, underscores, dots, spaces, colons, semicolons, commas and brackets part a
/// text into its segments. Letters and digits do not.
pub proof fn lemma_separators(c: char)
    ensures
        is_separator(c) <==> "/\\-_. :;,()[]{}"@.contains(c),
        ('a' <= c && c <= 'z') || ('A' <= c && c <= 'Z') || ('0' <= c && c <= '9')
            ==> !is_separator(c),
{
    reveal_strlit("/\\-_. :;,()[]{}");
    let all = "/\\-_. :;,()[]{}"@;
    assert(all[0] == '/' && all[1] == '\\' && all[2] == '-' && all[3] == '_' && all[4] == '.');
    assert(all[5] == ' ' && all[6] == ':' && all[7] == ';' && all[8] == ',' && all[9] == '(');
    assert(all[10] == ')' && all[11] == '[' && all[12] == ']' && all[13] == '{' && all[14] == '}');
}

proof fn lemma_first_of_segments(
    word: Seq<char>,
    text: Seq<char>,
    list: Seq<(int, int)>,
    s: int,
    e: int,
    found: TypoWordMatch,
)
    requires
        encoding::byte_len(text) <= usize::MAX,
        list.contains((s, e)),
        0 <= s < e <= text.len(),
        e - s <= word.len() + allowed_typos(word.len()),
        word.len() <= e - s + allowed_typos(word.len()),
        typo_word(word, text.subrange(s, e)) == Some(found),
    ensures
        best_segment(word, text, list) matches Some(m) && (m.cost < found.cost || (m.cost
            == found.cost && m.start <= found.start + encoding::byte_offset(text, s))),
    decreases list.len(),
{
    let k = list.index_of((s, e));
    if list.last() == (s, e) {
        let segment = text.subrange(s, e);
        encoding::lemma_char_index(text, s);
        encoding::lemma_char_index(text, e);
        encoding::lemma_byte_offset_monotone(text, s, e);
        assert(text =~= text.take(s) + segment + text.skip(e));
        encoding::lemma_byte_len_concat(text.take(s) + segment, text.skip(e));
        encoding::lemma_byte_len_concat(text.take(s), segment);
        lemma_typo_word_bounds(word, segment);
    } else {
        let init = list.drop_last();
        assert(init[k] == (s, e));
        assert(init.contains((s, e)));
        lemma_first_of_segments(word, text, init, s, e, found);
    }
}

/// Of the matches in the segments, the one with the fewest typos counts, and of several with as
/// few the one that stands first.
pub proof fn lemma_fewest_typos_count(
    word: Seq<char>,
    text: Seq<char>,
    s: int,
    e: int,
    found: TypoWordMatch,
)
    requires
        encoding::byte_len(text) <= usize::MAX,
        is_run(text, s, e),
        e - s <= word.len() + allowed_typos(word.len()),
        word.len() <= e - s + allowed_typos(word.len()),
        typo_word(word, text.subrange(s, e)) == Some(found),
    ensures
        typo_word_segmented(word, text) matches Some(m) ==> m.cost < found.cost || (m.cost
            == found.cost && m.start <= found.start + encoding::byte_offset(text, s)),
{
    lemma_segments_are_runs(text, s, e);
    lemma_first_of_segments(word, text, segments(text), s, e, found);
}

} // verus!
