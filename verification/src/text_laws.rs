//! What holds of taking texts apart.
use vstd::prelude::*;

use crate::text;

verus! {

/// Whether a text has no whitespace.
pub open spec fn is_solid(s: Seq<char>) -> bool {
    forall|i: int| 0 <= i < s.len() ==> !text::is_whitespace(#[trigger] s[i])
}

/// Spaces, tabs and ends of lines are whitespace. Letters, digits and the visible signs of
/// ASCII are not.
pub proof fn lemma_whitespace(c: char)
    ensures
        c == ' ' || c == '\t' || c == '\n' || c == '\r' ==> text::is_whitespace(c),
        '!' <= c && c <= '~' ==> !text::is_whitespace(c),
{
}

proof fn lemma_word_state_of_concat(a: Seq<char>, w: char, b: Seq<char>)
    requires
        text::is_whitespace(w),
    ensures
        text::word_state(a.push(w) + b) == (
            text::words(a) + text::word_state(b).0,
            text::word_state(b).1,
        ),
    decreases b.len(),
{
    let whole = a.push(w) + b;
    if b.len() == 0 {
        assert(whole =~= a.push(w));
        assert(whole.drop_last() =~= a);
        assert(text::word_state(whole).0 =~= text::words(a) + text::word_state(b).0);
        assert(text::word_state(whole).1 =~= text::word_state(b).1);
    } else {
        let init = b.drop_last();
        lemma_word_state_of_concat(a, w, init);
        assert(whole.drop_last() =~= a.push(w) + init);
        assert(text::word_state(whole).0 =~= text::words(a) + text::word_state(b).0);
    }
}

proof fn lemma_word_state_of_solid(s: Seq<char>)
    requires
        is_solid(s),
    ensures
        text::word_state(s) == (Seq::<Seq<char>>::empty(), s),
    decreases s.len(),
{
    if s.len() > 0 {
        let init = s.drop_last();
        assert forall|i: int| 0 <= i < init.len() implies !text::is_whitespace(
            #[trigger] init[i],
        ) by {
            assert(init[i] == s[i]);
        }
        lemma_word_state_of_solid(init);
        assert(!text::is_whitespace(s[s.len() - 1]));
        assert(init.push(s.last()) =~= s);
    } else {
        assert(s =~= Seq::<char>::empty());
    }
}

/// Whitespace parts words, and nothing else does: the words of two texts with whitespace
/// between them are those of the first and then those of the second, and a text without
/// whitespace is one word, if it is not empty.
pub proof fn lemma_words(a: Seq<char>, w: char, b: Seq<char>, s: Seq<char>)
    requires
        text::is_whitespace(w),
        is_solid(s),
    ensures
        text::words(a.push(w) + b) == text::words(a) + text::words(b),
        s.len() > 0 ==> text::words(s) == seq![s],
        s.len() == 0 ==> text::words(s).len() == 0,
{
    lemma_word_state_of_concat(a, w, b);
    assert(text::words(a.push(w) + b) =~= text::words(a) + text::words(b));
    lemma_word_state_of_solid(s);
    if s.len() > 0 {
        assert(text::words(s) =~= seq![s]);
    }
}

proof fn lemma_word_state_solid(s: Seq<char>)
    ensures
        forall|i: int|
            0 <= i < text::word_state(s).0.len() ==> is_solid(#[trigger] text::word_state(s).0[i]),
        is_solid(text::word_state(s).1),
    decreases s.len(),
{
    if s.len() > 0 {
        lemma_word_state_solid(s.drop_last());
    }
}

/// No word holds whitespace.
pub proof fn lemma_words_are_solid(s: Seq<char>)
    ensures
        forall|i: int| 0 <= i < text::words(s).len() ==> is_solid(#[trigger] text::words(s)[i]),
{
    lemma_word_state_solid(s);
}

proof fn lemma_trim_start(s: Seq<char>)
    ensures
        exists|k: int|
            0 <= k <= s.len() && text::trim_start(s) == #[trigger] s.skip(k) && (forall|i: int|
                0 <= i < k ==> text::is_whitespace(#[trigger] s[i])),
        text::trim_start(s).len() > 0 ==> !text::is_whitespace(text::trim_start(s)[0]),
    decreases s.len(),
{
    if s.len() > 0 && text::is_whitespace(s[0]) {
        let rest = s.drop_first();
        lemma_trim_start(rest);
        let k = choose|k: int|
            0 <= k <= rest.len() && text::trim_start(rest) == #[trigger] rest.skip(k) && (forall|
                i: int,
            |
                0 <= i < k ==> text::is_whitespace(#[trigger] rest[i]));
        assert(s.skip(k + 1) =~= rest.skip(k));
        assert forall|i: int| 0 <= i < k + 1 implies text::is_whitespace(#[trigger] s[i]) by {
            if i > 0 {
                assert(s[i] == rest[i - 1]);
            }
        }
    } else {
        assert(s.skip(0) =~= s);
    }
}

proof fn lemma_trim_end(s: Seq<char>)
    ensures
        exists|k: int|
            0 <= k <= s.len() && text::trim_end(s) == #[trigger] s.take(k) && (forall|i: int|
                k <= i < s.len() ==> text::is_whitespace(#[trigger] s[i])),
        text::trim_end(s).len() > 0 ==> !text::is_whitespace(text::trim_end(s).last()),
    decreases s.len(),
{
    if s.len() > 0 && text::is_whitespace(s.last()) {
        let rest = s.drop_last();
        lemma_trim_end(rest);
        let k = choose|k: int|
            0 <= k <= rest.len() && text::trim_end(rest) == #[trigger] rest.take(k) && (forall|
                i: int,
            |
                k <= i < rest.len() ==> text::is_whitespace(#[trigger] rest[i]));
        assert(s.take(k) =~= rest.take(k));
        assert forall|i: int| k <= i < s.len() implies text::is_whitespace(#[trigger] s[i]) by {
            if i < rest.len() {
                assert(s[i] == rest[i]);
            }
        }
    } else {
        assert(s.take(s.len() as int) =~= s);
    }
}

/// A text without the whitespace around it is a part of the text: what stands in front of it
/// and behind it is whitespace, and it neither begins nor ends with any.
pub proof fn lemma_trim(s: Seq<char>)
    ensures
        exists|i: int, j: int|
            0 <= i <= j <= s.len() && text::trim(s) == #[trigger] s.subrange(i, j) && (forall|k: int|
                0 <= k < i || j <= k < s.len() ==> text::is_whitespace(#[trigger] s[k])),
        text::trim(s).len() > 0 ==> !text::is_whitespace(text::trim(s)[0])
            && !text::is_whitespace(text::trim(s).last()),
{
    let front = text::trim_start(s);
    lemma_trim_start(s);
    lemma_trim_end(front);
    let i = choose|k: int|
        0 <= k <= s.len() && text::trim_start(s) == #[trigger] s.skip(k) && (forall|i: int|
            0 <= i < k ==> text::is_whitespace(#[trigger] s[i]));
    let n = choose|k: int|
        0 <= k <= front.len() && text::trim_end(front) == #[trigger] front.take(k) && (forall|i: int|
            k <= i < front.len() ==> text::is_whitespace(#[trigger] front[i]));
    assert(s.subrange(i, i + n) =~= front.take(n));
    assert forall|k: int| 0 <= k < i || i + n <= k < s.len() implies text::is_whitespace(
        #[trigger] s[k],
    ) by {
        if k >= i {
            assert(front[k - i] == s[k]);
        }
    }
}

proof fn lemma_starts_with_char(s: Seq<char>, c: char)
    requires
        s.len() > 0,
    ensures
        seq![c].is_prefix_of(s) <==> s[0] == c,
{
    if s[0] == c {
        assert(seq![c] =~= s.subrange(0, 1));
    } else if seq![c].is_prefix_of(s) {
        assert(seq![c][0] == s.subrange(0, 1)[0]);
    }
}

/// To replace a character goes character by character: what it stands for takes its place, and
/// all others stay.
pub proof fn lemma_replace_char(a: Seq<char>, x: char, b: Seq<char>, c: char, by: Seq<char>)
    ensures
        text::replace(a.push(x) + b, seq![c], by) == text::replace(a, seq![c], by) + (if x == c {
            by
        } else {
            seq![x]
        }) + text::replace(b, seq![c], by),
    decreases a.len(),
{
    let whole = a.push(x) + b;
    let pat = seq![c];
    let middle = if x == c {
        by
    } else {
        seq![x]
    };
    lemma_starts_with_char(whole, c);
    assert(whole.skip(1) =~= whole.drop_first());
    if a.len() == 0 {
        assert(a.push(x) =~= seq![x]);
        assert(whole.drop_first() =~= b);
        assert(text::replace(a, pat, by) =~= Seq::<char>::empty());
        assert(text::replace(whole, pat, by) =~= text::replace(a, pat, by) + middle
            + text::replace(b, pat, by));
    } else {
        let rest = a.drop_first();
        assert(whole.drop_first() =~= rest.push(x) + b);
        lemma_replace_char(rest, x, b, c, by);
        lemma_starts_with_char(a, c);
        assert(a.skip(1) =~= rest);
        assert(text::replace(whole, pat, by) =~= text::replace(a, pat, by) + middle
            + text::replace(b, pat, by));
    }
}

/// A text that does not hold a character stays as it is when that is replaced.
pub proof fn lemma_replace_nothing(s: Seq<char>, c: char, by: Seq<char>)
    requires
        !s.contains(c),
    ensures
        text::replace(s, seq![c], by) == s,
    decreases s.len(),
{
    if s.len() > 0 {
        let rest = s.drop_first();
        assert(s[0] != c);
        assert(!rest.contains(c)) by {
            if rest.contains(c) {
                let k = rest.index_of(c);
                assert(s[k + 1] == c);
            }
        }
        lemma_replace_nothing(rest, c, by);
        lemma_starts_with_char(s, c);
        assert(seq![s[0]] + rest =~= s);
    }
}

/// A line feed ends a line, and nothing else does: the first line of a text is what stands in
/// front of its first line feed, without the carriage return at its end. What stands behind
/// the last line feed is a line if it is not empty.
pub proof fn lemma_lines(line: Seq<char>, rest: Seq<char>)
    requires
        !line.contains('\n'),
    ensures
        text::lines(line.push('\n') + rest) == seq![text::without_return(line)] + text::lines(rest),
        line.len() > 0 ==> text::lines(line) == seq![line],
        line.len() == 0 ==> text::lines(line).len() == 0,
{
    text::lemma_pieces_of_plain(line, '\n');
    text::lemma_pieces_of_concat(line, rest, '\n');
    text::lemma_pieces_nonempty(rest, '\n');
    let whole = text::pieces(line.push('\n') + rest, '\n');
    let p = text::pieces(rest, '\n');
    assert(whole.drop_last() =~= seq![line] + p.drop_last());
    assert(text::lines(line.push('\n') + rest) =~= seq![text::without_return(line)] + text::lines(
        rest,
    ));
    if line.len() > 0 {
        assert(text::lines(line) =~= seq![line]);
    }
}

/// A carriage return at the end of a line is left out, and nothing else.
pub proof fn lemma_without_return(line: Seq<char>)
    ensures
        text::without_return(line.push('\r')) == line,
        !line.contains('\r') ==> text::without_return(line) == line,
{
    assert(line.push('\r').drop_last() =~= line);
    if line.len() > 0 && !line.contains('\r') {
        assert(line[line.len() - 1] != '\r');
    }
}

/// Letters are the same in either case, and only letters change: the small form of a capital
/// letter is the one that stands at the same place of the alphabet.
pub proof fn lemma_ascii_lower(c: char)
    ensures
        text::ascii_lower('A') == 'a',
        text::ascii_lower('Z') == 'z',
        'A' <= c && c <= 'Z' ==> text::ascii_lower(c) as u32 - 'a' as u32 == c as u32 - 'A' as u32,
        !('A' <= c && c <= 'Z') ==> text::ascii_lower(c) == c,
{
}

/// Texts stand in the order of their first different characters, and a text stands in front of
/// those that go on from it.
pub proof fn lemma_text_order(start: Seq<char>, a: char, x: Seq<char>, b: char, y: Seq<char>)
    ensures
        a < b ==> text::text_lt(start.push(a) + x, start.push(b) + y),
        text::text_lt(start, start.push(a) + x),
    decreases start.len(),
{
    let (s, t) = (start.push(a) + x, start.push(b) + y);
    if start.len() > 0 {
        let rest = start.drop_first();
        lemma_text_order(rest, a, x, b, y);
        assert(s.drop_first() =~= rest.push(a) + x);
        assert(t.drop_first() =~= rest.push(b) + y);
    }
}

/// A text with whitespace before and behind it is what trimming gives back, if it
/// neither starts nor ends with whitespace itself.
pub proof fn lemma_trim_gives_back(before: Seq<char>, s: Seq<char>, behind: Seq<char>)
    requires
        s.len() > 0,
        !text::is_whitespace(s[0]),
        !text::is_whitespace(s.last()),
        forall|i: int| 0 <= i < before.len() ==> text::is_whitespace(#[trigger] before[i]),
        forall|i: int| 0 <= i < behind.len() ==> text::is_whitespace(#[trigger] behind[i]),
    ensures
        text::trim(before + s + behind) == s,
{
    let whole = before + s + behind;
    lemma_trim(whole);
    let (i, j) = choose|i: int, j: int|
        0 <= i <= j <= whole.len() && text::trim(whole) == #[trigger] whole.subrange(i, j) && (
        forall|k: int|
            0 <= k < i || j <= k < whole.len() ==> text::is_whitespace(#[trigger] whole[k]));
    let (first, last) = (before.len() as int, before.len() + s.len() - 1);
    assert(whole[first] == s[0]);
    assert(whole[last] == s.last());
    assert(i <= first && last < j);
    if i < first {
        assert(whole[i] == before[i]);
        assert(text::trim(whole)[0] == whole[i]);
    }
    if j > last + 1 {
        assert(whole[j - 1] == behind[j - 1 - last - 1]);
        assert(text::trim(whole).last() == whole[j - 1]);
    }
    assert(whole.subrange(i, j) =~= s);
}

} // verus!
