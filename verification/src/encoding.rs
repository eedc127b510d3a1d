//! Byte lengths and byte offsets of text.
use vstd::prelude::*;
use vstd::string::*;
use vstd::utf8::*;

verus! {

/// How many bytes the UTF-8 form of a character takes.
pub open spec fn char_width(c: char) -> nat {
    if (c as u32) < 0x80 {
        1
    } else if (c as u32) < 0x800 {
        2
    } else if (c as u32) < 0x10000 {
        3
    } else {
        4
    }
}

/// How many bytes the UTF-8 form of a text takes.
pub open spec fn byte_len(s: Seq<char>) -> nat
    decreases s.len(),
{
    if s.len() == 0 {
        0
    } else {
        byte_len(s.drop_last()) + char_width(s.last())
    }
}

/// The byte offset at which character `k` of a text starts.
pub open spec fn byte_offset(s: Seq<char>, k: int) -> nat {
    byte_len(s.take(k))
}

pub proof fn lemma_byte_len_concat(a: Seq<char>, b: Seq<char>)
    ensures
        byte_len(a + b) == byte_len(a) + byte_len(b),
    decreases b.len(),
{
    if b.len() == 0 {
        assert(a + b =~= a);
    } else {
        assert((a + b).drop_last() =~= a + b.drop_last());
        lemma_byte_len_concat(a, b.drop_last());
    }
}

proof fn lemma_byte_len_one(c: char)
    ensures
        byte_len(seq![c]) == char_width(c),
{
    reveal_with_fuel(byte_len, 2);
    assert(seq![c].drop_last() =~= Seq::<char>::empty());
}

pub proof fn lemma_byte_offset_step(s: Seq<char>, k: int)
    requires
        0 <= k < s.len(),
    ensures
        byte_offset(s, k + 1) == byte_offset(s, k) + char_width(s[k]),
{
    assert(s.take(k + 1).drop_last() =~= s.take(k));
}

pub proof fn lemma_byte_offset_monotone(s: Seq<char>, i: int, j: int)
    requires
        0 <= i <= j <= s.len(),
    ensures
        byte_offset(s, i) + (j - i) <= byte_offset(s, j),
    decreases j - i,
{
    if i < j {
        lemma_byte_offset_monotone(s, i, j - 1);
        lemma_byte_offset_step(s, j - 1);
    }
}

/// The offset of the end of a text is its byte length, and no character
/// starts beyond it.
pub proof fn lemma_byte_offset_bounds(s: Seq<char>, k: int)
    requires
        0 <= k <= s.len(),
    ensures
        k <= byte_offset(s, k) <= byte_len(s),
        byte_offset(s, s.len() as int) == byte_len(s),
        byte_offset(s, 0) == 0,
{
    lemma_byte_offset_monotone(s, 0, k);
    lemma_byte_offset_monotone(s, k, s.len() as int);
    assert(s.take(s.len() as int) =~= s);
    assert(s.take(0) =~= Seq::<char>::empty());
}

pub proof fn lemma_byte_len_ascii(s: Seq<char>)
    requires
        is_ascii_chars(s),
    ensures
        byte_len(s) == s.len(),
    decreases s.len(),
{
    if s.len() > 0 {
        lemma_byte_len_ascii(s.drop_last());
    }
}

pub proof fn lemma_byte_len_encoding(s: Seq<char>)
    ensures
        encode_utf8(s).len() == byte_len(s),
    decreases s.len(),
{
    if s.len() > 0 {
        lemma_byte_len_encoding(s.drop_first());
        let head = seq![s[0]];
        assert(s =~= head + s.drop_first());
        lemma_byte_len_concat(head, s.drop_first());
        lemma_byte_len_one(s[0]);
        char_is_scalar(s[0]);
        assert(encode_scalar(s[0] as u32).len() == char_width(s[0]));
    }
}

pub proof fn lemma_encode_concat(a: Seq<char>, b: Seq<char>)
    ensures
        encode_utf8(a + b) =~= encode_utf8(a) + encode_utf8(b),
    decreases a.len(),
{
    if a.len() == 0 {
        assert(a + b =~= b);
    } else {
        assert((a + b).drop_first() =~= a.drop_first() + b);
        lemma_encode_concat(a.drop_first(), b);
    }
}

pub proof fn lemma_encode_injective(a: Seq<char>, b: Seq<char>)
    requires
        encode_utf8(a) == encode_utf8(b),
    ensures
        a == b,
{
    encode_utf8_decode_utf8(a);
    encode_utf8_decode_utf8(b);
}

proof fn lemma_boundary_at_char(s: Seq<char>, k: int)
    requires
        0 <= k <= s.len(),
    ensures
        is_char_boundary(encode_utf8(s), byte_offset(s, k) as int),
    decreases k,
{
    encode_utf8_valid_utf8(s);
    lemma_byte_len_encoding(s);
    lemma_byte_offset_bounds(s, k);
    if k > 0 {
        let rest = s.drop_first();
        lemma_boundary_at_char(rest, k - 1);
        encode_utf8_first_scalar(s);
        assert(pop_first_scalar(encode_utf8(s)) =~= encode_utf8(rest));
        let head = seq![s[0]];
        assert(s.take(k) =~= head + rest.take(k - 1));
        lemma_byte_len_concat(head, rest.take(k - 1));
        lemma_byte_len_one(s[0]);
        lemma_byte_offset_monotone(s, 0, k);
    }
}

/// Whether a character of the text, or its end, is at a byte offset.
pub open spec fn is_boundary(s: Seq<char>, offset: int) -> bool {
    exists|k: int| 0 <= k <= s.len() && #[trigger] byte_offset(s, k) == offset
}

/// The character that starts at a byte offset of the text.
pub open spec fn char_index(s: Seq<char>, offset: int) -> int {
    choose|k: int| 0 <= k <= s.len() && #[trigger] byte_offset(s, k) == offset
}

/// The character at the offset of character `k` is `k`.
pub proof fn lemma_char_index(s: Seq<char>, k: int)
    requires
        0 <= k <= s.len(),
    ensures
        is_boundary(s, byte_offset(s, k) as int),
        char_index(s, byte_offset(s, k) as int) == k,
{
    let j = char_index(s, byte_offset(s, k) as int);
    assert(byte_offset(s, k) == byte_offset(s, k));
    if j < k {
        lemma_byte_offset_monotone(s, j, k);
    } else if k < j {
        lemma_byte_offset_monotone(s, k, j);
    }
}

/// The byte length of a text.
pub fn byte_length(s: &str) -> (r: usize)
    ensures
        r == byte_len(s@),
{
    proof {
        lemma_byte_len_encoding(s@);
    }
    s.as_bytes().len()
}

/// The byte length of a character.
pub fn width_of(c: char) -> (r: usize)
    ensures
        r == char_width(c),
{
    let v: u32 = c as u32;
    if v < 0x80 {
        1
    } else if v < 0x800 {
        2
    } else if v < 0x10000 {
        3
    } else {
        4
    }
}

/// Splits a text in front of character `k`, given the byte offset of that
/// character.
pub(crate) fn split_text<'a>(s: &'a str, offset: usize, Ghost(k): Ghost<int>) -> (r: (
    &'a str,
    &'a str,
))
    requires
        0 <= k <= s@.len(),
        offset == byte_offset(s@, k),
    ensures
        r.0@ == s@.take(k),
        r.1@ == s@.skip(k),
{
    proof {
        lemma_boundary_at_char(s@, k);
        lemma_byte_len_encoding(s@.take(k));
        assert(s@ =~= s@.take(k) + s@.skip(k));
        lemma_encode_concat(s@.take(k), s@.skip(k));
    }
    let r = s.split_at(offset);
    proof {
        assert(s.spec_bytes().subrange(0, offset as int) =~= encode_utf8(s@.take(k)));
        assert(s.spec_bytes().subrange(offset as int, s.spec_bytes().len() as int) =~= encode_utf8(
            s@.skip(k),
        ));
        lemma_encode_injective(r.0@, s@.take(k));
        lemma_encode_injective(r.1@, s@.skip(k));
    }
    r
}

/// The characters between two byte offsets, if characters start at both.
pub open spec fn byte_slice(s: Seq<char>, from: int, to: int) -> Option<Seq<char>> {
    if from <= to && is_boundary(s, from) && is_boundary(s, to) {
        Some(s.subrange(char_index(s, from), char_index(s, to)))
    } else {
        None
    }
}

/// The character that starts at a byte offset of a text, if one does.
pub fn char_at_offset(chars: &[char], offset: usize) -> (r: Option<usize>)
    requires
        byte_len(chars@) <= usize::MAX,
    ensures
        match r {
            Some(k) => is_boundary(chars@, offset as int) && k == char_index(chars@, offset as int)
                && k <= chars@.len() && byte_offset(chars@, k as int) == offset,
            None => !is_boundary(chars@, offset as int),
        },
{
    let mut here: usize = 0;
    let mut i: usize = 0;
    proof {
        assert(chars@.take(chars@.len() as int) =~= chars@);
    }
    while i < chars.len() && here < offset
        invariant
            i <= chars@.len(),
            byte_len(chars@) <= usize::MAX,
            chars@.take(chars@.len() as int) == chars@,
            here == byte_offset(chars@, i as int),
            forall|k: int|
                #![trigger byte_offset(chars@, k)]
                0 <= k < i ==> byte_offset(chars@, k) < offset,
        decreases chars.len() - i,
    {
        proof {
            lemma_byte_offset_step(chars@, i as int);
            lemma_byte_offset_monotone(chars@, i + 1, chars@.len() as int);
        }
        here += width_of(chars[i]);
        i += 1;
    }
    if here == offset {
        proof {
            lemma_char_index(chars@, i as int);
        }
        Some(i)
    } else {
        proof {
            assert forall|k: int| 0 <= k <= chars@.len() implies #[trigger] byte_offset(chars@, k)
                != offset by {
                if k > i {
                    lemma_byte_offset_monotone(chars@, i as int, k);
                }
            }
        }
        None
    }
}

} // verus!
