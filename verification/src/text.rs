//! Searching, splitting and comparing text.
use vstd::prelude::*;
use vstd::string::*;
use vstd::utf8::*;

use crate::encoding;

verus! {

/// `String::push` appends one character.
pub assume_specification[ String::push ](s: &mut String, c: char)
    ensures
        final(s)@ == old(s)@.push(c),
;

/// `String::pop` removes and returns the last character, if there is one.
pub assume_specification[ String::pop ](s: &mut String) -> (r: Option<char>)
    ensures
        old(s)@.len() == 0 ==> r is None && final(s)@ == old(s)@,
        old(s)@.len() > 0 ==> r == Some(old(s)@.last()) && final(s)@ == old(s)@.drop_last(),
;

/// The text that `str::to_lowercase` gives for a text.
pub uninterp spec fn unicode_lowercase(s: Seq<char>) -> Seq<char>;

/// `str::to_lowercase`, a function of the text alone: the Unicode lowercase
/// mapping.
#[verifier::external_body]
fn to_unicode_lowercase(s: &str) -> (r: String)
    ensures
        r@ == unicode_lowercase(s@),
{
    s.to_lowercase()
}

/// The text that `String::from_utf8_lossy` gives for some bytes.
pub uninterp spec fn lossy_text(bytes: Seq<u8>) -> Seq<char>;

/// `String::from_utf8_lossy`, a function of the bytes alone. Bytes that are valid
/// UTF-8 give the text they encode.
#[verifier::external_body]
pub(crate) fn text_from_bytes(bytes: &[u8]) -> (r: String)
    ensures
        r@ == lossy_text(bytes@),
        valid_utf8(bytes@) ==> r@ == decode_utf8(bytes@),
{
    String::from_utf8_lossy(bytes).into_owned()
}

// ---------------------------------------------------------------------------
// Characters
// ---------------------------------------------------------------------------

/// The ASCII lowercase form of a character.
pub open spec fn ascii_lower(c: char) -> char {
    if 'A' <= c && c <= 'Z' {
        ((c as u8) + 32) as u8 as char
    } else {
        c
    }
}

/// The ASCII lowercase form of a character.
pub fn ascii_lower_of(c: char) -> (r: char)
    ensures
        r == ascii_lower(c),
{
    if 'A' <= c && c <= 'Z' {
        (c as u8 + 32) as char
    } else {
        c
    }
}

/// The Unicode `White_Space` property.
pub open spec fn is_whitespace(c: char) -> bool {
    let v = c as u32;
    ||| 0x09 <= v <= 0x0d
    ||| v == 0x20
    ||| v == 0x85
    ||| v == 0xa0
    ||| v == 0x1680
    ||| 0x2000 <= v <= 0x200a
    ||| v == 0x2028
    ||| v == 0x2029
    ||| v == 0x202f
    ||| v == 0x205f
    ||| v == 0x3000
}

/// Whether a character has the Unicode `White_Space` property.
pub fn whitespace(c: char) -> (r: bool)
    ensures
        r == is_whitespace(c),
{
    let v: u32 = c as u32;
    (0x09 <= v && v <= 0x0d) || v == 0x20 || v == 0x85 || v == 0xa0 || v == 0x1680 || (0x2000 <= v
        && v <= 0x200a) || v == 0x2028 || v == 0x2029 || v == 0x202f || v == 0x205f || v == 0x3000
}

// ---------------------------------------------------------------------------
// Conversion and comparison
// ---------------------------------------------------------------------------

/// The characters of a text.
pub fn chars_of(s: &str) -> (v: Vec<char>)
    ensures
        v@ == s@,
{
    let mut v: Vec<char> = Vec::new();
    for c in it: s.chars()
        invariant
            v@ == s@.take(it.index() as int),
            it.seq() == s@,
    {
        v.push(c);
    }
    proof {
        assert(s@.take(s@.len() as int) =~= s@);
    }
    v
}

/// The text made of some characters.
pub fn string_of(v: &[char]) -> (s: String)
    ensures
        s@ == v@,
{
    let mut s = String::new();
    let mut i: usize = 0;
    while i < v.len()
        invariant
            i <= v@.len(),
            s@ == v@.take(i as int),
        decreases v.len() - i,
    {
        s.push(v[i]);
        i += 1;
    }
    proof {
        assert(v@.take(v@.len() as int) =~= v@);
    }
    s
}

/// A copy of the characters from `from` up to `to`.
pub fn sub_chars(v: &[char], from: usize, to: usize) -> (r: Vec<char>)
    requires
        from <= to <= v@.len(),
    ensures
        r@ == v@.subrange(from as int, to as int),
{
    let mut r: Vec<char> = Vec::new();
    let mut i: usize = from;
    while i < to
        invariant
            from <= i <= to <= v@.len(),
            r@ == v@.subrange(from as int, i as int),
        decreases to - i,
    {
        r.push(v[i]);
        i += 1;
        proof {
            assert(v@.subrange(from as int, i as int) =~= v@.subrange(from as int, i - 1).push(
                v@[i - 1],
            ));
        }
    }
    r
}

/// Whether two runs of characters are the same.
pub fn same_chars(a: &[char], b: &[char]) -> (r: bool)
    ensures
        r == (a@ == b@),
{
    if a.len() != b.len() {
        return false;
    }
    let mut i: usize = 0;
    while i < a.len()
        invariant
            i <= a@.len(),
            a@.len() == b@.len(),
            a@.take(i as int) == b@.take(i as int),
        decreases a.len() - i,
    {
        if a[i] != b[i] {
            return false;
        }
        proof {
            assert(a@.take(i + 1) =~= a@.take(i as int).push(a@[i as int]));
            assert(b@.take(i + 1) =~= b@.take(i as int).push(b@[i as int]));
        }
        i += 1;
    }
    proof {
        assert(a@.take(a@.len() as int) =~= a@);
        assert(b@.take(b@.len() as int) =~= b@);
    }
    true
}

/// Whether two texts are the same.
pub fn same_text(a: &str, b: &str) -> (r: bool)
    ensures
        r == (a@ == b@),
{
    let x = a.as_bytes();
    let y = b.as_bytes();
    if x.len() != y.len() {
        return false;
    }
    let mut i: usize = 0;
    while i < x.len()
        invariant
            i <= x@.len(),
            x@.len() == y@.len(),
            x@ == encode_utf8(a@),
            y@ == encode_utf8(b@),
            forall|j: int| 0 <= j < i ==> x@[j] == y@[j],
        decreases x.len() - i,
    {
        if x[i] != y[i] {
            return false;
        }
        i += 1;
    }
    proof {
        assert(x@ =~= y@);
        encoding::lemma_encode_injective(a@, b@);
    }
    true
}

/// Whether one text comes before another: at the first difference it has the
/// smaller character, or it is a proper prefix.
pub open spec fn text_lt(a: Seq<char>, b: Seq<char>) -> bool
    decreases a.len(),
{
    if b.len() == 0 {
        false
    } else if a.len() == 0 {
        true
    } else if a[0] != b[0] {
        a[0] < b[0]
    } else {
        text_lt(a.drop_first(), b.drop_first())
    }
}

/// Texts are strictly and totally ordered.
pub proof fn lemma_text_lt_total(a: Seq<char>, b: Seq<char>)
    ensures
        text_lt(a, b) || text_lt(b, a) || a == b,
        !(text_lt(a, b) && text_lt(b, a)),
        a == b ==> !text_lt(a, b),
    decreases a.len(),
{
    if a.len() > 0 && b.len() > 0 {
        lemma_text_lt_total(a.drop_first(), b.drop_first());
        if a[0] == b[0] && a.drop_first() == b.drop_first() {
            assert(a =~= seq![a[0]] + a.drop_first());
            assert(b =~= seq![b[0]] + b.drop_first());
        }
    } else if a.len() == 0 && b.len() == 0 {
        assert(a =~= b);
    }
}

pub proof fn lemma_text_lt_transitive(a: Seq<char>, b: Seq<char>, c: Seq<char>)
    requires
        text_lt(a, b),
        text_lt(b, c),
    ensures
        text_lt(a, c),
    decreases a.len(),
{
    if a.len() > 0 && b.len() > 0 && c.len() > 0 && a[0] == b[0] && b[0] == c[0] {
        lemma_text_lt_transitive(a.drop_first(), b.drop_first(), c.drop_first());
    }
}

/// Whether one run of characters comes before another.
pub fn chars_before(a: &[char], b: &[char]) -> (r: bool)
    ensures
        r == text_lt(a@, b@),
{
    let mut i: usize = 0;
    proof {
        assert(a@.skip(0) =~= a@);
        assert(b@.skip(0) =~= b@);
    }
    while i < a.len() && i < b.len()
        invariant
            i <= a@.len(),
            i <= b@.len(),
            text_lt(a@, b@) == text_lt(a@.skip(i as int), b@.skip(i as int)),
        decreases a.len() - i,
    {
        if a[i] != b[i] {
            return a[i] < b[i];
        }
        proof {
            assert(a@.skip(i as int).drop_first() =~= a@.skip(i + 1));
            assert(b@.skip(i as int).drop_first() =~= b@.skip(i + 1));
        }
        i += 1;
    }
    i < b.len()
}

/// Whether one text comes before another.
pub fn text_before(a: &str, b: &str) -> (r: bool)
    ensures
        r == text_lt(a@, b@),
{
    let x = chars_of(a);
    let y = chars_of(b);
    chars_before(x.as_slice(), y.as_slice())
}

/// The views of a list of character runs.
pub open spec fn views(v: Seq<Vec<char>>) -> Seq<Seq<char>> {
    v.map_values(|w: Vec<char>| w@)
}

/// The views of a list of texts.
pub open spec fn text_views(v: Seq<String>) -> Seq<Seq<char>> {
    v.map_values(|w: String| w@)
}

/// The views of a list of borrowed texts.
pub open spec fn str_views(v: Seq<&str>) -> Seq<Seq<char>> {
    v.map_values(|w: &str| w@)
}

// ---------------------------------------------------------------------------
// Lowercase
// ---------------------------------------------------------------------------

/// The lowercase form of a text: the Unicode mapping, which on ASCII text
/// replaces each capital letter by its small one.
pub open spec fn lowercase(s: Seq<char>) -> Seq<char> {
    if is_ascii_chars(s) {
        s.map_values(|c: char| ascii_lower(c))
    } else {
        unicode_lowercase(s)
    }
}

/// The lowercase form of a text.
pub fn lowercase_of(s: &str) -> (r: String)
    ensures
        r@ == lowercase(s@),
{
    if s.is_ascii() {
        let mut r = String::new();
        for c in it: s.chars()
            invariant
                r@ == s@.take(it.index() as int).map_values(|c: char| ascii_lower(c)),
                it.seq() == s@,
        {
            proof {
                let k = it.index() as int;
                assert(s@.take(k + 1) =~= s@.take(k).push(s@[k]));
                assert(s@.take(k + 1).map_values(|c: char| ascii_lower(c)) =~= s@.take(
                    k,
                ).map_values(|c: char| ascii_lower(c)).push(ascii_lower(s@[k])));
            }
            r.push(ascii_lower_of(c));
        }
        proof {
            assert(s@.take(s@.len() as int) =~= s@);
        }
        r
    } else {
        to_unicode_lowercase(s)
    }
}

// ---------------------------------------------------------------------------
// Searching
// ---------------------------------------------------------------------------

/// Whether `pat` stands in `text` at character `k`.
pub open spec fn occurs_at(text: Seq<char>, pat: Seq<char>, k: int) -> bool {
    &&& 0 <= k
    &&& k + pat.len() <= text.len()
    &&& text.subrange(k, k + pat.len()) == pat
}

/// The first character at or after `from` at which `pat` stands in `text`.
pub open spec fn find_from(text: Seq<char>, pat: Seq<char>, from: int) -> Option<int>
    decreases text.len() - from,
{
    if from < 0 || from + pat.len() > text.len() {
        None
    } else if occurs_at(text, pat, from) {
        Some(from)
    } else if from < text.len() {
        find_from(text, pat, from + 1)
    } else {
        None
    }
}

/// The first character at which `pat` stands in `text`.
pub open spec fn find(text: Seq<char>, pat: Seq<char>) -> Option<int> {
    find_from(text, pat, 0)
}

/// The search finds the first place where the pattern stands, if there is one.
pub proof fn lemma_find_from(text: Seq<char>, pat: Seq<char>, from: int)
    requires
        0 <= from,
    ensures
        find_from(text, pat, from) matches Some(k) ==> from <= k && occurs_at(text, pat, k) && (
        forall|j: int| from <= j < k ==> !occurs_at(text, pat, j)),
        find_from(text, pat, from) is None ==> forall|j: int|
            from <= j ==> !occurs_at(text, pat, j),
    decreases text.len() - from,
{
    if from + pat.len() <= text.len() && !occurs_at(text, pat, from) && from < text.len() {
        lemma_find_from(text, pat, from + 1);
    }
}

fn stands_at(text: &[char], pat: &[char], k: usize) -> (r: bool)
    requires
        k + pat@.len() <= text@.len(),
    ensures
        r == occurs_at(text@, pat@, k as int),
{
    let size: usize = text.len();
    let mut i: usize = 0;
    while i < pat.len()
        invariant
            i <= pat@.len(),
            size == text@.len(),
            k + pat@.len() <= size,
            forall|j: int| 0 <= j < i ==> text@[k + j] == #[trigger] pat@[j],
        decreases pat.len() - i,
    {
        if text[k + i] != pat[i] {
            proof {
                assert(text@.subrange(k as int, k + pat@.len())[i as int] != pat@[i as int]);
            }
            return false;
        }
        i += 1;
    }
    proof {
        assert(text@.subrange(k as int, k + pat@.len()) =~= pat@);
    }
    true
}

/// Whether `pat` stands in `text` at character `k`.
pub fn occurs(text: &[char], pat: &[char], k: usize) -> (r: bool)
    ensures
        r == occurs_at(text@, pat@, k as int),
{
    k <= text.len() && pat.len() <= text.len() - k && stands_at(text, pat, k)
}

/// The first character at or after `from` at which `pat` stands in `text`.
pub fn find_chars_from(text: &[char], pat: &[char], from: usize) -> (r: Option<usize>)
    ensures
        match r {
            Some(k) => find_from(text@, pat@, from as int) == Some(k as int),
            None => find_from(text@, pat@, from as int) is None,
        },
{
    if from > text.len() || pat.len() > text.len() - from {
        return None;
    }
    let mut k: usize = from;
    while k <= text.len() - pat.len()
        invariant
            from <= k <= text@.len(),
            pat@.len() <= text@.len(),
            k <= text@.len() - pat@.len() + 1,
            find_from(text@, pat@, from as int) == find_from(text@, pat@, k as int),
        decreases text.len() - k,
    {
        if stands_at(text, pat, k) {
            return Some(k);
        }
        if k == text.len() {
            return None;
        }
        k += 1;
    }
    None
}

/// The first character at which `pat` stands in `text`.
pub fn find_chars(text: &[char], pat: &[char]) -> (r: Option<usize>)
    ensures
        match r {
            Some(k) => find(text@, pat@) == Some(k as int),
            None => find(text@, pat@) is None,
        },
{
    find_chars_from(text, pat, 0)
}

/// Whether `pat` stands anywhere in `text`.
pub open spec fn contains(text: Seq<char>, pat: Seq<char>) -> bool {
    find(text, pat) is Some
}

/// Whether `pat` stands anywhere in `text`.
pub fn contains_chars(text: &[char], pat: &[char]) -> (r: bool)
    ensures
        r == contains(text@, pat@),
{
    find_chars(text, pat).is_some()
}

/// Whether a text begins with `pat`.
pub fn begins_with(text: &[char], pat: &[char]) -> (r: bool)
    ensures
        r == pat@.is_prefix_of(text@),
{
    if pat.len() > text.len() {
        return false;
    }
    stands_at(text, pat, 0)
}

/// Whether a text ends with `pat`.
pub fn ends_in(text: &[char], pat: &[char]) -> (r: bool)
    ensures
        r == pat@.is_suffix_of(text@),
{
    if pat.len() > text.len() {
        return false;
    }
    let r = stands_at(text, pat, text.len() - pat.len());
    r
}

/// The last character of `text` that is `c`.
pub open spec fn last_index(text: Seq<char>, c: char) -> Option<int>
    decreases text.len(),
{
    if text.len() == 0 {
        None
    } else if text.last() == c {
        Some(text.len() - 1)
    } else {
        last_index(text.drop_last(), c)
    }
}

pub proof fn lemma_last_index(text: Seq<char>, c: char)
    ensures
        last_index(text, c) matches Some(k) ==> 0 <= k < text.len() && text[k] == c && (forall|
            j: int,
        |
            k < j < text.len() ==> text[j] != c),
        last_index(text, c) is None ==> forall|j: int| 0 <= j < text.len() ==> text[j] != c,
    decreases text.len(),
{
    if text.len() > 0 && text.last() != c {
        lemma_last_index(text.drop_last(), c);
        assert forall|j: int| 0 <= j < text.len() - 1 implies text[j] == text.drop_last()[j] by {}
    }
}

/// The last character of `text` that is `c`.
pub fn last_index_of(text: &[char], c: char) -> (r: Option<usize>)
    ensures
        match r {
            Some(k) => last_index(text@, c) == Some(k as int),
            None => last_index(text@, c) is None,
        },
{
    let mut n: usize = text.len();
    proof {
        assert(text@.take(n as int) =~= text@);
    }
    while n > 0
        invariant
            n <= text@.len(),
            last_index(text@, c) == last_index(text@.take(n as int), c),
        decreases n,
    {
        if text[n - 1] == c {
            return Some(n - 1);
        }
        proof {
            assert(text@.take(n as int).drop_last() =~= text@.take(n - 1));
        }
        n -= 1;
    }
    None
}

/// The first place at or after `from` that holds a character.
pub open spec fn next_index(text: Seq<char>, c: char, from: int) -> Option<int>
    decreases text.len() - from,
{
    if from < 0 || from >= text.len() {
        None
    } else if text[from] == c {
        Some(from)
    } else {
        next_index(text, c, from + 1)
    }
}

/// The place found holds the character and none before it does.
pub proof fn lemma_next_index(text: Seq<char>, c: char, from: int)
    requires
        0 <= from,
    ensures
        next_index(text, c, from) matches Some(k) ==> from <= k < text.len() && text[k] == c && (
        forall|j: int| from <= j < k ==> text[j] != c),
        next_index(text, c, from) is None ==> forall|j: int| from <= j < text.len() ==> text[j]
            != c,
    decreases text.len() - from,
{
    if from < text.len() && text[from] != c {
        lemma_next_index(text, c, from + 1);
    }
}

/// The first place at or after `from` that holds a character.
pub fn next_place(text: &[char], c: char, from: usize) -> (r: Option<usize>)
    ensures
        match r {
            Some(k) => next_index(text@, c, from as int) == Some(k as int),
            None => next_index(text@, c, from as int) is None,
        },
{
    let mut k: usize = from;
    while k < text.len()
        invariant
            from <= k,
            k <= text@.len() || k == from,
            next_index(text@, c, from as int) == next_index(text@, c, k as int),
        decreases text.len() - k,
    {
        if text[k] == c {
            return Some(k);
        }
        k += 1;
    }
    None
}

// ---------------------------------------------------------------------------
// Replacing
// ---------------------------------------------------------------------------

/// `text` with every occurrence of `pat`, taken from the left and without
/// overlap, replaced by `by`.
pub open spec fn replace(text: Seq<char>, pat: Seq<char>, by: Seq<char>) -> Seq<char>
    decreases text.len(),
{
    if text.len() == 0 || pat.len() == 0 {
        text
    } else if pat.is_prefix_of(text) {
        by + replace(text.skip(pat.len() as int), pat, by)
    } else {
        seq![text[0]] + replace(text.drop_first(), pat, by)
    }
}

/// `text` with every occurrence of `pat` replaced by `by`.
pub fn replace_chars(text: &[char], pat: &[char], by: &[char]) -> (r: Vec<char>)
    requires
        pat@.len() > 0,
    ensures
        r@ == replace(text@, pat@, by@),
{
    let mut r: Vec<char> = Vec::new();
    let mut i: usize = 0;
    proof {
        assert(text@.skip(0) =~= text@);
        assert(r@ + replace(text@, pat@, by@) =~= replace(text@, pat@, by@));
    }
    while i < text.len()
        invariant
            i <= text@.len(),
            pat@.len() > 0,
            replace(text@, pat@, by@) == r@ + replace(text@.skip(i as int), pat@, by@),
        decreases text.len() - i,
    {
        let ghost rest = text@.skip(i as int);
        if pat.len() <= text.len() - i && stands_at(text, pat, i) {
            proof {
                assert(text@.subrange(i as int, i + pat@.len()) =~= rest.subrange(
                    0,
                    pat@.len() as int,
                ));
                assert(rest.skip(pat@.len() as int) =~= text@.skip(i + pat@.len()));
                assert(r@ + (by@ + replace(rest.skip(pat@.len() as int), pat@, by@)) =~= (r@ + by@)
                    + replace(rest.skip(pat@.len() as int), pat@, by@));
            }
            push_chars(&mut r, by);
            i += pat.len();
        } else {
            proof {
                if pat@.is_prefix_of(rest) {
                    assert(text@.subrange(i as int, i + pat@.len()) =~= rest.subrange(
                        0,
                        pat@.len() as int,
                    ));
                }
                assert(rest.drop_first() =~= text@.skip(i + 1));
                assert(r@ + (seq![rest[0]] + replace(rest.drop_first(), pat@, by@)) =~= r@.push(
                    rest[0],
                ) + replace(rest.drop_first(), pat@, by@));
            }
            r.push(text[i]);
            i += 1;
        }
    }
    proof {
        assert(r@ + replace(text@.skip(i as int), pat@, by@) =~= r@);
    }
    r
}

/// Appends characters to a run of characters.
pub fn push_chars(out: &mut Vec<char>, s: &[char])
    ensures
        final(out)@ == old(out)@ + s@,
{
    let ghost start = out@;
    let mut i: usize = 0;
    proof {
        assert(start + s@.take(0) =~= start);
    }
    while i < s.len()
        invariant
            i <= s@.len(),
            out@ == start + s@.take(i as int),
        decreases s.len() - i,
    {
        out.push(s[i]);
        i += 1;
        proof {
            assert(s@.take(i as int) =~= s@.take(i - 1).push(s@[i - 1]));
            assert(start + s@.take(i as int) =~= (start + s@.take(i - 1)).push(s@[i - 1]));
        }
    }
    proof {
        assert(s@.take(s@.len() as int) =~= s@);
    }
}

// ---------------------------------------------------------------------------
// Splitting
// ---------------------------------------------------------------------------

/// A text without the whitespace in front.
pub open spec fn trim_start(s: Seq<char>) -> Seq<char>
    decreases s.len(),
{
    if s.len() > 0 && is_whitespace(s[0]) {
        trim_start(s.drop_first())
    } else {
        s
    }
}

/// A text without the whitespace behind.
pub open spec fn trim_end(s: Seq<char>) -> Seq<char>
    decreases s.len(),
{
    if s.len() > 0 && is_whitespace(s.last()) {
        trim_end(s.drop_last())
    } else {
        s
    }
}

/// A text without the whitespace around it.
pub open spec fn trim(s: Seq<char>) -> Seq<char> {
    trim_end(trim_start(s))
}

/// A text without the whitespace around it.
pub fn trimmed(s: &[char]) -> (r: Vec<char>)
    ensures
        r@ == trim(s@),
{
    let mut i: usize = 0;
    proof {
        assert(s@.skip(0) =~= s@);
    }
    while i < s.len() && whitespace(s[i])
        invariant
            i <= s@.len(),
            trim_start(s@) == trim_start(s@.skip(i as int)),
        decreases s.len() - i,
    {
        proof {
            assert(s@.skip(i as int).drop_first() =~= s@.skip(i + 1));
        }
        i += 1;
    }
    let mut j: usize = s.len();
    proof {
        assert(s@.subrange(i as int, j as int) =~= s@.skip(i as int));
    }
    while i < j && whitespace(s[j - 1])
        invariant
            i <= j <= s@.len(),
            trim(s@) == trim_end(s@.subrange(i as int, j as int)),
        decreases j,
    {
        proof {
            assert(s@.subrange(i as int, j as int).drop_last() =~= s@.subrange(i as int, j - 1));
        }
        j -= 1;
    }
    sub_chars(s, i, j)
}

/// The words of a text before its end is reached: those that are complete, and
/// the characters of the one that is not.
pub open spec fn word_state(s: Seq<char>) -> (Seq<Seq<char>>, Seq<char>)
    decreases s.len(),
{
    if s.len() == 0 {
        (Seq::empty(), Seq::empty())
    } else {
        let (done, open) = word_state(s.drop_last());
        if !is_whitespace(s.last()) {
            (done, open.push(s.last()))
        } else if open.len() > 0 {
            (done.push(open), Seq::empty())
        } else {
            (done, open)
        }
    }
}

/// The words of a text: its longest runs without whitespace, in order.
pub open spec fn words(s: Seq<char>) -> Seq<Seq<char>> {
    let (done, open) = word_state(s);
    if open.len() > 0 {
        done.push(open)
    } else {
        done
    }
}

/// How many characters a list of words holds in all.
pub open spec fn char_total(words: Seq<Seq<char>>) -> nat
    decreases words.len(),
{
    if words.len() == 0 {
        0
    } else {
        char_total(words.drop_last()) + words.last().len()
    }
}

proof fn lemma_word_state_total(s: Seq<char>)
    ensures
        char_total(word_state(s).0) + word_state(s).1.len() <= s.len(),
        forall|i: int| 0 <= i < word_state(s).0.len() ==> #[trigger] word_state(s).0[i].len() > 0,
    decreases s.len(),
{
    if s.len() > 0 {
        lemma_word_state_total(s.drop_last());
        let (done, open) = word_state(s.drop_last());
        assert(done.push(open).drop_last() =~= done);
    }
}

/// The words of a text hold no more characters than the text, and none of them
/// is empty.
pub proof fn lemma_words_total(s: Seq<char>)
    ensures
        char_total(words(s)) <= s.len(),
        forall|i: int| 0 <= i < words(s).len() ==> #[trigger] words(s)[i].len() > 0,
{
    lemma_word_state_total(s);
    let (done, open) = word_state(s);
    assert(done.push(open).drop_last() =~= done);
}

/// The words of a text.
pub fn split_words(s: &[char]) -> (r: Vec<Vec<char>>)
    ensures
        views(r@) == words(s@),
{
    let mut done: Vec<Vec<char>> = Vec::new();
    let mut open: Vec<char> = Vec::new();
    let mut i: usize = 0;
    proof {
        assert(views(done@) =~= Seq::<Seq<char>>::empty());
    }
    while i < s.len()
        invariant
            i <= s@.len(),
            word_state(s@.take(i as int)) == (views(done@), open@),
        decreases s.len() - i,
    {
        proof {
            assert(s@.take(i + 1).drop_last() =~= s@.take(i as int));
        }
        let c = s[i];
        if !whitespace(c) {
            open.push(c);
        } else if open.len() > 0 {
            let ghost before = done@;
            let ghost word = open;
            done.push(open);
            open = Vec::new();
            proof {
                assert(views(done@) =~= views(before).push(word@));
            }
        }
        i += 1;
    }
    proof {
        assert(s@.take(s@.len() as int) =~= s@);
    }
    if open.len() > 0 {
        let ghost before = done@;
        let ghost word = open;
        done.push(open);
        proof {
            assert(views(done@) =~= views(before).push(word@));
        }
    }
    done
}

/// The pieces between the separators of a text. There is always one more piece
/// than there are separators.
pub open spec fn pieces(s: Seq<char>, sep: char) -> Seq<Seq<char>>
    decreases s.len(),
{
    if s.len() == 0 {
        seq![Seq::<char>::empty()]
    } else {
        let p = pieces(s.drop_last(), sep);
        if s.last() == sep {
            p.push(Seq::empty())
        } else {
            p.drop_last().push(p.last().push(s.last()))
        }
    }
}

pub proof fn lemma_pieces_nonempty(s: Seq<char>, sep: char)
    ensures
        pieces(s, sep).len() >= 1,
    decreases s.len(),
{
    if s.len() > 0 {
        lemma_pieces_nonempty(s.drop_last(), sep);
    }
}

/// No piece holds the separator.
pub proof fn lemma_pieces_free(s: Seq<char>, sep: char)
    ensures
        forall|i: int| 0 <= i < pieces(s, sep).len() ==> !(#[trigger] pieces(s, sep)[i]).contains(
            sep,
        ),
    decreases s.len(),
{
    lemma_pieces_nonempty(s, sep);
    if s.len() > 0 {
        lemma_pieces_nonempty(s.drop_last(), sep);
        lemma_pieces_free(s.drop_last(), sep);
        let p = pieces(s.drop_last(), sep);
        let q = pieces(s, sep);
        assert forall|i: int| 0 <= i < q.len() implies !(#[trigger] q[i]).contains(sep) by {
            if i < q.len() - 1 {
                assert(q[i] == p[i]);
            } else if s.last() != sep {
                assert(q[i] == p.last().push(s.last()));
                assert(!p[p.len() - 1].contains(sep));
                if q[i].contains(sep) {
                    let k = choose|k: int| 0 <= k < q[i].len() && q[i][k] == sep;
                    assert(p.last()[k] == sep);
                }
            }
        }
    }
}

/// The pieces between the separators of a text.
pub fn split_on(s: &[char], sep: char) -> (r: Vec<Vec<char>>)
    ensures
        views(r@) == pieces(s@, sep),
        r@.len() >= 1,
{
    let mut done: Vec<Vec<char>> = Vec::new();
    let mut open: Vec<char> = Vec::new();
    let mut i: usize = 0;
    proof {
        assert(views(done@).push(open@) =~= seq![Seq::<char>::empty()]);
    }
    while i < s.len()
        invariant
            i <= s@.len(),
            pieces(s@.take(i as int), sep) == views(done@).push(open@),
        decreases s.len() - i,
    {
        proof {
            assert(s@.take(i + 1).drop_last() =~= s@.take(i as int));
            assert(views(done@).push(open@).drop_last() =~= views(done@));
        }
        let c = s[i];
        if c == sep {
            let ghost before = done@;
            let ghost piece = open;
            done.push(open);
            open = Vec::new();
            proof {
                assert(views(done@) =~= views(before).push(piece@));
            }
        } else {
            open.push(c);
        }
        i += 1;
    }
    proof {
        assert(s@.take(s@.len() as int) =~= s@);
    }
    let ghost before = done@;
    let ghost piece = open;
    done.push(open);
    proof {
        assert(views(done@) =~= views(before).push(piece@));
    }
    done
}

/// The pieces of two texts with a separator between them.
pub proof fn lemma_pieces_of_concat(a: Seq<char>, b: Seq<char>, sep: char)
    ensures
        pieces(a.push(sep) + b, sep) == pieces(a, sep) + pieces(b, sep),
    decreases b.len(),
{
    let whole = a.push(sep) + b;
    let pa = pieces(a, sep);
    if b.len() == 0 {
        assert(whole =~= a.push(sep));
        assert(a.push(sep).drop_last() =~= a);
        assert(pieces(whole, sep) =~= pa + pieces(b, sep));
    } else {
        let init = b.drop_last();
        assert(whole.drop_last() =~= a.push(sep) + init);
        lemma_pieces_of_concat(a, init, sep);
        lemma_pieces_nonempty(init, sep);
        let pi = pieces(init, sep);
        assert((pa + pi).drop_last() =~= pa + pi.drop_last());
        assert(pieces(whole, sep) =~= pa + pieces(b, sep));
    }
}

/// A text without separators is one piece.
pub proof fn lemma_pieces_of_plain(s: Seq<char>, sep: char)
    requires
        !s.contains(sep),
    ensures
        pieces(s, sep) == seq![s],
    decreases s.len(),
{
    if s.len() > 0 {
        assert(s[s.len() - 1] != sep);
        assert forall|i: int| 0 <= i < s.drop_last().len() implies s.drop_last()[i] != sep by {
            assert(s[i] != sep);
        }
        assert(!s.drop_last().contains(sep));
        lemma_pieces_of_plain(s.drop_last(), sep);
        assert(s.drop_last().push(s.last()) =~= s);
        assert(pieces(s, sep) =~= seq![s]);
    } else {
        assert(s =~= Seq::<char>::empty());
        assert(pieces(s, sep) =~= seq![s]);
    }
}

/// A line without the carriage return that may stand at its end.
pub open spec fn without_return(line: Seq<char>) -> Seq<char> {
    if line.len() > 0 && line.last() == '\r' {
        line.drop_last()
    } else {
        line
    }
}

/// The lines of a text. A line ends with a line feed, or with a carriage return
/// and a line feed. What stands behind the last line feed is a line if it is not
/// empty.
pub open spec fn lines(s: Seq<char>) -> Seq<Seq<char>> {
    let p = pieces(s, '\n');
    let ended = p.drop_last().map_values(|line: Seq<char>| without_return(line));
    if p.last().len() > 0 {
        ended.push(p.last())
    } else {
        ended
    }
}

/// The lines of a text.
pub fn split_lines(s: &[char]) -> (r: Vec<Vec<char>>)
    ensures
        views(r@) == lines(s@),
{
    let parts = split_on(s, '\n');
    let ghost p = views(parts@);
    let ghost ended = p.drop_last().map_values(|line: Seq<char>| without_return(line));
    let count: usize = parts.len();
    let mut r: Vec<Vec<char>> = Vec::new();
    let mut i: usize = 0;
    proof {
        assert(views(r@) =~= ended.take(0));
    }
    while i < count - 1
        invariant
            1 <= count == parts@.len(),
            i <= count - 1,
            p == views(parts@),
            ended == p.drop_last().map_values(|line: Seq<char>| without_return(line)),
            views(r@) == ended.take(i as int),
        decreases count - i,
    {
        let line = parts[i].as_slice();
        let n: usize = line.len();
        let ghost before = r@;
        let out = if n > 0 && line[n - 1] == '\r' {
            sub_chars(line, 0, n - 1)
        } else {
            sub_chars(line, 0, n)
        };
        proof {
            assert(out@ =~= without_return(p[i as int]));
            assert(ended[i as int] == without_return(p[i as int]));
        }
        r.push(out);
        proof {
            assert(views(r@) =~= views(before).push(out@));
            assert(ended.take(i + 1) =~= ended.take(i as int).push(ended[i as int]));
        }
        i += 1;
    }
    proof {
        assert(ended.take(ended.len() as int) =~= ended);
    }
    let last = parts[count - 1].as_slice();
    if last.len() > 0 {
        let ghost before = r@;
        let out = sub_chars(last, 0, last.len());
        proof {
            assert(out@ =~= p.last());
        }
        r.push(out);
        proof {
            assert(views(r@) =~= views(before).push(out@));
        }
    }
    r
}

} // verus!
