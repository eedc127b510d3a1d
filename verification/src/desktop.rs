//! The list of recently used files that the desktop keeps.
use vstd::prelude::*;
use vstd::string::*;
use vstd::utf8::*;

use crate::clock::Timestamp;
use crate::history;
use crate::history::TimeIndex;
use crate::paths;
use crate::paths::normalized_path_key_with_cwd;
use crate::rfc3339;
use crate::rfc3339::parse_rfc3339_to_system_time;
use crate::text;
use crate::text::begins_with;
use crate::text::chars_of;
use crate::text::find_chars_from;
use crate::text::next_place;
use crate::text::push_chars;
use crate::text::replace_chars;
use crate::text::string_of;
use crate::text::sub_chars;
use crate::text::text_from_bytes;

verus! {

// ---------------------------------------------------------------------------
// Percent encoding
// ---------------------------------------------------------------------------

/// The value of a hexadecimal digit.
pub open spec fn hex_digit(byte: u8) -> Option<u8> {
    if 48 <= byte <= 57 {
        Some((byte - 48) as u8)
    } else if 97 <= byte <= 102 {
        Some((byte - 97 + 10) as u8)
    } else if 65 <= byte <= 70 {
        Some((byte - 65 + 10) as u8)
    } else {
        None
    }
}

/// The value of a hexadecimal digit.
pub fn hex_value(byte: u8) -> (r: Option<u8>)
    ensures
        r == hex_digit(byte),
{
    if 48 <= byte && byte <= 57 {
        Some(byte - 48)
    } else if 97 <= byte && byte <= 102 {
        Some(byte - 97 + 10)
    } else if 65 <= byte && byte <= 70 {
        Some(byte - 65 + 10)
    } else {
        None
    }
}

/// Whether bytes start with a percent sign and two hexadecimal digits.
pub open spec fn starts_escape(bytes: Seq<u8>) -> bool {
    &&& bytes.len() > 2
    &&& bytes[0] == 37
    &&& hex_digit(bytes[1]) is Some
    &&& hex_digit(bytes[2]) is Some
}

/// Bytes with each percent sign and two hexadecimal digits replaced by the byte
/// they stand for.
pub open spec fn percent_decoded(bytes: Seq<u8>) -> Seq<u8>
    decreases bytes.len(),
{
    if bytes.len() == 0 {
        Seq::empty()
    } else if starts_escape(bytes) {
        seq![(hex_digit(bytes[1])->0 * 16 + hex_digit(bytes[2])->0) as u8] + percent_decoded(
            bytes.skip(3),
        )
    } else {
        seq![bytes[0]] + percent_decoded(bytes.drop_first())
    }
}

/// Undoes percent encoding. Bytes that are no text then are replaced as
/// `String::from_utf8_lossy` does.
pub fn percent_decode(value: &str) -> (r: String)
    ensures
        r@ == text::lossy_text(percent_decoded(encode_utf8(value@))),
        valid_utf8(percent_decoded(encode_utf8(value@))) ==> r@ == decode_utf8(
            percent_decoded(encode_utf8(value@)),
        ),
{
    let bytes = value.as_bytes();
    let size: usize = bytes.len();
    let ghost all = bytes@;
    let mut decoded: Vec<u8> = Vec::new();
    let mut i: usize = 0;
    proof {
        assert(all.skip(0) =~= all);
        assert(decoded@ + percent_decoded(all) =~= percent_decoded(all));
    }
    while i < size
        invariant
            i <= size == bytes@.len(),
            all == bytes@,
            percent_decoded(all) == decoded@ + percent_decoded(all.skip(i as int)),
        decreases size - i,
    {
        let ghost before = decoded@;
        let ghost rest = all.skip(i as int);
        let b = bytes[i];
        let mut value: Option<u8> = None;
        if b == 37 && size - i > 2 {
            if let (Some(hi), Some(lo)) = (hex_value(bytes[i + 1]), hex_value(bytes[i + 2])) {
                value = Some(hi * 16 + lo);
            }
        }
        match value {
            Some(v) => {
                decoded.push(v);
                proof {
                    assert(starts_escape(rest));
                    assert(rest.skip(3) =~= all.skip(i + 3));
                    assert(decoded@ + percent_decoded(all.skip(i + 3)) =~= before + (seq![v]
                        + percent_decoded(rest.skip(3))));
                }
                i += 3;
            },
            None => {
                decoded.push(b);
                proof {
                    assert(!starts_escape(rest));
                    assert(rest.drop_first() =~= all.skip(i + 1));
                    assert(decoded@ + percent_decoded(all.skip(i + 1)) =~= before + (seq![b]
                        + percent_decoded(rest.drop_first())));
                }
                i += 1;
            },
        }
    }
    proof {
        assert(decoded@ + percent_decoded(all.skip(i as int)) =~= decoded@);
    }
    text_from_bytes(decoded.as_slice())
}

/// The path of a `file` URI on this machine, before percent encoding is undone.
pub open spec fn uri_path(uri: Seq<char>) -> Option<Seq<char>> {
    if !"file://"@.is_prefix_of(uri) {
        None
    } else {
        let rest = uri.skip("file://"@.len() as int);
        if "localhost/"@.is_prefix_of(rest) {
            Some(seq!['/'] + rest.skip("localhost/"@.len() as int))
        } else if rest.len() > 0 && rest[0] == '/' {
            Some(rest)
        } else {
            None
        }
    }
}

/// The path of a `file` URI on this machine.
pub open spec fn uri_target(uri: Seq<char>) -> Option<Seq<char>> {
    match uri_path(uri) {
        Some(path) => Some(text::lossy_text(percent_decoded(encode_utf8(path)))),
        None => None,
    }
}

/// The path of a `file` URI on this machine.
pub fn file_uri_to_path(uri: &str) -> (r: Option<String>)
    ensures
        match r {
            Some(path) => uri_target(uri@) == Some(path@),
            None => uri_target(uri@) is None,
        },
        r matches Some(path) ==> ({
            let bytes = percent_decoded(encode_utf8(uri_path(uri@)->0));
            valid_utf8(bytes) ==> path@ == decode_utf8(bytes)
        }),
{
    let chars = chars_of(uri);
    let scheme = chars_of("file://");
    if !begins_with(chars.as_slice(), scheme.as_slice()) {
        return None;
    }
    let rest = sub_chars(chars.as_slice(), scheme.len(), chars.len());
    proof {
        assert(rest@ =~= uri@.skip("file://"@.len() as int));
    }
    let host = chars_of("localhost/");
    if begins_with(rest.as_slice(), host.as_slice()) {
        let tail = sub_chars(rest.as_slice(), host.len(), rest.len());
        let mut path: Vec<char> = Vec::new();
        path.push('/');
        push_chars(&mut path, tail.as_slice());
        proof {
            assert(path@ =~= seq!['/'] + rest@.skip("localhost/"@.len() as int));
        }
        let whole = string_of(path.as_slice());
        Some(percent_decode(whole.as_str()))
    } else if rest.len() > 0 && rest[0] == '/' {
        let whole = string_of(rest.as_slice());
        Some(percent_decode(whole.as_str()))
    } else {
        None
    }
}

// ---------------------------------------------------------------------------
// Markup
// ---------------------------------------------------------------------------

/// A text with the named character entities of XML replaced, one kind after the
/// other, the ampersand last.
pub open spec fn entities_decoded(s: Seq<char>) -> Seq<char> {
    let a = text::replace(s, "&quot;"@, seq!['"']);
    let b = text::replace(a, "&apos;"@, seq!['\'']);
    let c = text::replace(b, "&lt;"@, seq!['<']);
    let d = text::replace(c, "&gt;"@, seq!['>']);
    text::replace(d, "&amp;"@, seq!['&'])
}

fn replace_entity(s: &[char], entity: &str, c: char) -> (r: Vec<char>)
    requires
        entity@.len() > 0,
    ensures
        r@ == text::replace(s@, entity@, seq![c]),
{
    let pat = chars_of(entity);
    let mut by: Vec<char> = Vec::new();
    by.push(c);
    proof {
        assert(by@ =~= seq![c]);
    }
    replace_chars(s, pat.as_slice(), by.as_slice())
}

/// Replaces the named character entities of XML.
pub fn decode_xml_entities(value: &str) -> (r: String)
    ensures
        r@ == entities_decoded(value@),
{
    proof {
        reveal_strlit("&quot;");
        reveal_strlit("&apos;");
        reveal_strlit("&lt;");
        reveal_strlit("&gt;");
        reveal_strlit("&amp;");
    }
    let s = chars_of(value);
    let a = replace_entity(s.as_slice(), "&quot;", '"');
    let b = replace_entity(a.as_slice(), "&apos;", '\'');
    let c = replace_entity(b.as_slice(), "&lt;", '<');
    let d = replace_entity(c.as_slice(), "&gt;", '>');
    let e = replace_entity(d.as_slice(), "&amp;", '&');
    string_of(e.as_slice())
}

/// The value of an attribute of a tag: what stands in quotes behind the first
/// place where its name and an equals sign stand.
pub open spec fn attribute(tag: Seq<char>, name: Seq<char>) -> Option<Seq<char>> {
    let needle = name.push('=');
    match text::find(tag, needle) {
        Some(k) => {
            let at = k + needle.len();
            if at < tag.len() && (tag[at] == '\'' || tag[at] == '"') {
                match text::next_index(tag, tag[at], at + 1) {
                    Some(end) => Some(entities_decoded(tag.subrange(at + 1, end))),
                    None => None,
                }
            } else {
                None
            }
        },
        None => None,
    }
}

/// The value of an attribute of a tag.
pub fn xml_attr(tag: &str, name: &str) -> (r: Option<String>)
    ensures
        match r {
            Some(v) => attribute(tag@, name@) == Some(v@),
            None => attribute(tag@, name@) is None,
        },
{
    let t = chars_of(tag);
    let mut needle = chars_of(name);
    needle.push('=');
    let size: usize = t.len();
    proof {
        text::lemma_find_from(tag@, name@.push('='), 0);
    }
    match find_chars_from(t.as_slice(), needle.as_slice(), 0) {
        Some(k) => {
            let at: usize = k + needle.len();
            if at < size && (t[at] == '\'' || t[at] == '"') {
                proof {
                    text::lemma_next_index(tag@, tag@[at as int], at + 1);
                }
                match next_place(t.as_slice(), t[at], at + 1) {
                    Some(end) => {
                        let value = sub_chars(t.as_slice(), at + 1, end);
                        let whole = string_of(value.as_slice());
                        Some(decode_xml_entities(whole.as_str()))
                    },
                    None => None,
                }
            } else {
                None
            }
        },
        None => None,
    }
}

/// The bookmark tags of a text from a place on.
pub open spec fn bookmark_tags(s: Seq<char>, from: int) -> Seq<Seq<char>>
    decreases s.len() - from,
{
    match text::find_from(s, "<bookmark"@, from) {
        Some(a) => match text::next_index(s, '>', a) {
            Some(e) => if from <= a <= e < s.len() {
                seq![s.subrange(a, e + 1)] + bookmark_tags(s, e + 1)
            } else {
                Seq::empty()
            },
            None => Seq::empty(),
        },
        None => Seq::empty(),
    }
}

/// The later of two times.
pub open spec fn later(a: Option<int>, b: Option<int>) -> Option<int> {
    match (a, b) {
        (Some(x), Some(y)) => if x < y {
            b
        } else {
            a
        },
        (Some(_), None) => a,
        (None, _) => b,
    }
}

/// The time in an attribute, in seconds since the Unix epoch.
pub open spec fn attribute_secs(tag: Seq<char>, name: Seq<char>) -> Option<int> {
    match attribute(tag, name) {
        Some(value) => rfc3339::rfc3339_secs(value),
        None => None,
    }
}

/// The latest of the times that a bookmark has, in seconds since the Unix epoch,
/// or the epoch.
pub open spec fn bookmark_secs(tag: Seq<char>) -> int {
    match later(
        later(attribute_secs(tag, "visited"@), attribute_secs(tag, "modified"@)),
        attribute_secs(tag, "added"@),
    ) {
        Some(secs) => secs,
        None => 0,
    }
}

/// The path and time of a bookmark, if it leads to a file on this machine.
pub open spec fn bookmark_entry(tag: Seq<char>, cwd: Seq<char>) -> Option<(Seq<char>, Timestamp)> {
    match attribute(tag, "href"@) {
        Some(href) => match uri_target(href) {
            Some(path) => Some(
                (
                    paths::key_from(path, cwd),
                    Timestamp { nanos: (bookmark_secs(tag) * 1_000_000_000) as i128 },
                ),
            ),
            None => None,
        },
        None => None,
    }
}

/// The latest time of each path among some bookmarks.
pub open spec fn bookmark_times(tags: Seq<Seq<char>>, cwd: Seq<char>) -> Seq<
    (Seq<char>, Timestamp),
>
    decreases tags.len(),
{
    if tags.len() == 0 {
        Seq::empty()
    } else {
        let before = bookmark_times(tags.drop_last(), cwd);
        match bookmark_entry(tags.last(), cwd) {
            Some(e) => history::with_latest(before, e.0, e.1),
            None => before,
        }
    }
}

fn attribute_time(tag: &str, name: &str) -> (r: Option<Timestamp>)
    ensures
        match r {
            Some(t) => attribute_secs(tag@, name@) matches Some(secs) && t.nanos == secs
                * 1_000_000_000,
            None => attribute_secs(tag@, name@) is None,
        },
{
    match xml_attr(tag, name) {
        Some(value) => parse_rfc3339_to_system_time(value.as_str()),
        None => None,
    }
}

fn later_time(a: Option<Timestamp>, b: Option<Timestamp>) -> (r: Option<Timestamp>)
    ensures
        r == match (a, b) {
            (Some(x), Some(y)) => if x.nanos < y.nanos {
                b
            } else {
                a
            },
            (Some(_), None) => a,
            (None, _) => b,
        },
{
    match (a, b) {
        (Some(x), Some(y)) => if x.nanos < y.nanos {
            b
        } else {
            a
        },
        (Some(_), None) => a,
        (None, _) => b,
    }
}

fn read_bookmark(tag: &str, cwd: &str) -> (r: Option<(String, Timestamp)>)
    ensures
        match r {
            Some(e) => bookmark_entry(tag@, cwd@) == Some((e.0@, e.1)),
            None => bookmark_entry(tag@, cwd@) is None,
        },
{
    let href = match xml_attr(tag, "href") {
        Some(href) => href,
        None => {
            return None;
        },
    };
    let path = match file_uri_to_path(href.as_str()) {
        Some(path) => path,
        None => {
            return None;
        },
    };
    let visited = attribute_time(tag, "visited");
    let modified = attribute_time(tag, "modified");
    let added = attribute_time(tag, "added");
    let latest = later_time(later_time(visited, modified), added);
    let time = match latest {
        Some(t) => t,
        None => Timestamp::epoch(),
    };
    proof {
        assert(time.nanos == bookmark_secs(tag@) * 1_000_000_000);
    }
    Some((normalized_path_key_with_cwd(path.as_str(), cwd), time))
}

/// Reads the latest time of each path in the list that the desktop keeps.
pub fn load_desktop_recent(contents: &str, cwd: &str) -> (r: TimeIndex)
    ensures
        r.wf(),
        r@ == bookmark_times(bookmark_tags(contents@, 0), cwd@),
{
    let chars = chars_of(contents);
    let open = chars_of("<bookmark");
    let size: usize = chars.len();
    let ghost all = bookmark_tags(contents@, 0);
    let ghost mut seen: Seq<Seq<char>> = Seq::empty();
    let mut recent = TimeIndex::new();
    let mut offset: usize = 0;
    proof {
        reveal_strlit("<bookmark");
        assert(seen + all =~= all);
    }
    loop
        invariant_except_break
            offset <= size,
            all == seen + bookmark_tags(chars@, offset as int),
        invariant
            size == chars@.len(),
            open@ == "<bookmark"@,
            open@.len() == 9,
            recent.wf(),
            recent@ == bookmark_times(seen, cwd@),
        ensures
            all == seen,
        decreases size - offset,
    {
        proof {
            text::lemma_find_from(chars@, open@, offset as int);
        }
        let start = match find_chars_from(chars.as_slice(), open.as_slice(), offset) {
            Some(k) => k,
            None => {
                proof {
                    assert(seen + Seq::<Seq<char>>::empty() =~= seen);
                }
                break ;
            },
        };
        proof {
            text::lemma_next_index(chars@, '>', start as int);
        }
        let end = match next_place(chars.as_slice(), '>', start) {
            Some(k) => k,
            None => {
                proof {
                    assert(seen + Seq::<Seq<char>>::empty() =~= seen);
                }
                break ;
            },
        };
        let tag_chars = sub_chars(chars.as_slice(), start, end + 1);
        let tag = string_of(tag_chars.as_slice());
        let ghost before = seen;
        proof {
            seen = seen.push(tag@);
            assert(seen.drop_last() =~= before);
            assert(before + (seq![tag@] + bookmark_tags(chars@, end + 1)) =~= seen + bookmark_tags(
                chars@,
                end + 1,
            ));
        }
        offset = end + 1;
        if let Some((path, time)) = read_bookmark(tag.as_str(), cwd) {
            recent.note(path, time);
        }
    }
    recent
}

// ---------------------------------------------------------------------------
// What the desktop's list says
// ---------------------------------------------------------------------------

/// The time of a bookmark is the latest of its three: none of them is later, and it is one of
/// them, or the epoch if it has none.
pub proof fn lemma_bookmark_time_is_latest(tag: Seq<char>)
    ensures
        attribute_secs(tag, "visited"@) matches Some(t) ==> t <= bookmark_secs(tag),
        attribute_secs(tag, "modified"@) matches Some(t) ==> t <= bookmark_secs(tag),
        attribute_secs(tag, "added"@) matches Some(t) ==> t <= bookmark_secs(tag),
        attribute_secs(tag, "visited"@) == Some(bookmark_secs(tag)) || attribute_secs(
            tag,
            "modified"@,
        ) == Some(bookmark_secs(tag)) || attribute_secs(tag, "added"@) == Some(bookmark_secs(tag))
            || (bookmark_secs(tag) == 0 && attribute_secs(tag, "visited"@) is None
            && attribute_secs(tag, "modified"@) is None && attribute_secs(tag, "added"@) is None),
{
}

/// A bookmark dates the file that its address leads to.
pub proof fn lemma_bookmark_dates_its_file(tag: Seq<char>, cwd: Seq<char>)
    ensures
        bookmark_entry(tag, cwd) matches Some(e) ==> (attribute(tag, "href"@) matches Some(href)
            && (uri_target(href) matches Some(path) && e.0 == paths::key_from(path, cwd))),
        attribute(tag, "href"@) matches Some(href) ==> (uri_target(href) is Some
            ==> bookmark_entry(tag, cwd) is Some),
        bookmark_entry(tag, cwd) matches Some(e) ==> e.1.nanos == (bookmark_secs(tag)
            * 1_000_000_000) as i128,
{
}

proof fn lemma_bookmark_times_distinct(tags: Seq<Seq<char>>, cwd: Seq<char>)
    ensures
        history::distinct_paths(bookmark_times(tags, cwd)),
    decreases tags.len(),
{
    if tags.len() > 0 {
        lemma_bookmark_times_distinct(tags.drop_last(), cwd);
        if let Some(e) = bookmark_entry(tags.last(), cwd) {
            history::lemma_with_time(bookmark_times(tags.drop_last(), cwd), e.0, e.1, e.0);
        }
    }
}

/// Of several bookmarks of a file the latest counts, and no bookmark is passed over.
pub proof fn lemma_latest_bookmark_counts(tags: Seq<Seq<char>>, cwd: Seq<char>, path: Seq<char>)
    ensures
        forall|i: int|
            0 <= i < tags.len() ==> (bookmark_entry(#[trigger] tags[i], cwd) matches Some(e) ==> (
            e.0 == path ==> (history::time_in(bookmark_times(tags, cwd), path) matches Some(t)
                && e.1.nanos <= t.nanos))),
        history::time_in(bookmark_times(tags, cwd), path) matches Some(t) ==> exists|i: int|
            0 <= i < tags.len() && bookmark_entry(#[trigger] tags[i], cwd) == Some((path, t)),
    decreases tags.len(),
{
    if tags.len() > 0 {
        let init = tags.drop_last();
        let before = bookmark_times(init, cwd);
        let after = bookmark_times(tags, cwd);
        lemma_latest_bookmark_counts(init, cwd, path);
        lemma_bookmark_times_distinct(init, cwd);
        if let Some(e) = bookmark_entry(tags.last(), cwd) {
            history::lemma_with_time(before, e.0, e.1, path);
        }
        assert forall|i: int| 0 <= i < tags.len() implies (bookmark_entry(
            #[trigger] tags[i],
            cwd,
        ) matches Some(e) ==> (e.0 == path ==> (history::time_in(after, path) matches Some(t)
            && e.1.nanos <= t.nanos))) by {
            if i < init.len() {
                assert(init[i] == tags[i]);
            }
        }
        if let Some(t) = history::time_in(after, path) {
            if history::time_in(before, path) == Some(t) {
                let k = choose|i: int|
                    0 <= i < init.len() && bookmark_entry(#[trigger] init[i], cwd) == Some(
                        (path, t),
                    );
                assert(tags[k] == init[k]);
            } else {
                assert(bookmark_entry(tags[tags.len() - 1], cwd) == Some((path, t)));
            }
        }
    }
}

/// Every tag is a part of the list that begins as a bookmark does and ends with the first angle
/// bracket behind that. No bookmark is passed over: wherever one begins, and is closed, it
/// stands in one of the tags.
pub proof fn lemma_bookmark_tags(s: Seq<char>, from: int)
    requires
        0 <= from,
    ensures
        forall|i: int|
            0 <= i < bookmark_tags(s, from).len() ==> {
                let tag = #[trigger] bookmark_tags(s, from)[i];
                &&& "<bookmark"@.is_prefix_of(tag)
                &&& tag.len() > 0 && tag.last() == '>'
                &&& forall|k: int| 0 <= k < tag.len() - 1 ==> #[trigger] tag[k] != '>'
                &&& exists|a: int| from <= a && #[trigger] text::occurs_at(s, tag, a)
            },
        forall|a: int, e: int|
            #![trigger text::occurs_at(s, "<bookmark"@, a), s[e]]
            from <= a <= e < s.len() && text::occurs_at(s, "<bookmark"@, a) && s[e] == '>'
                ==> exists|i: int, b: int|
                #![trigger text::occurs_at(s, bookmark_tags(s, from)[i], b)]
                0 <= i < bookmark_tags(s, from).len() && text::occurs_at(
                    s,
                    bookmark_tags(s, from)[i],
                    b,
                ) && b <= a < b + bookmark_tags(s, from)[i].len(),
    decreases s.len() - from,
{
    let open = "<bookmark"@;
    let tags = bookmark_tags(s, from);
    reveal_strlit("<bookmark");
    text::lemma_find_from(s, open, from);
    if let Some(a) = text::find_from(s, open, from) {
        text::lemma_next_index(s, '>', a);
        if let Some(e) = text::next_index(s, '>', a) {
            let tag = s.subrange(a, e + 1);
            let rest = bookmark_tags(s, e + 1);
            assert(tags == seq![tag] + rest);
            lemma_bookmark_tags(s, e + 1);
            assert(text::occurs_at(s, tag, a));
            assert(open.is_prefix_of(tag)) by {
                assert forall|k: int| 0 <= k < open.len() implies open[k] == s[a + k] by {
                    assert(s.subrange(a, a + open.len())[k] == open[k]);
                }
                assert(e >= a + open.len()) by {
                    if e < a + open.len() {
                        assert(open[e - a] == '>');
                    }
                }
                assert(open =~= tag.subrange(0, open.len() as int));
            }
            assert forall|k: int| 0 <= k < tag.len() - 1 implies #[trigger] tag[k] != '>' by {
                assert(tag[k] == s[a + k]);
            }
            assert forall|i: int| 0 <= i < tags.len() implies {
                let tag = #[trigger] tags[i];
                &&& open.is_prefix_of(tag)
                &&& tag.len() > 0 && tag.last() == '>'
                &&& forall|k: int| 0 <= k < tag.len() - 1 ==> #[trigger] tag[k] != '>'
                &&& exists|a: int| from <= a && #[trigger] text::occurs_at(s, tag, a)
            } by {
                if i > 0 {
                    assert(tags[i] == rest[i - 1]);
                }
            }
            assert forall|a2: int, e2: int|
                #![trigger text::occurs_at(s, open, a2), s[e2]]
                from <= a2 <= e2 < s.len() && text::occurs_at(s, open, a2) && s[e2]
                    == '>' implies exists|i: int, b: int|
                #![trigger text::occurs_at(s, tags[i], b)]
                0 <= i < tags.len() && text::occurs_at(s, tags[i], b) && b <= a2 < b
                    + tags[i].len() by {
                if a2 <= e {
                    assert(a <= a2);
                    assert(text::occurs_at(s, tags[0], a));
                } else {
                    let (i, b) = choose|i: int, b: int|
                        #![trigger text::occurs_at(s, rest[i], b)]
                        0 <= i < rest.len() && text::occurs_at(s, rest[i], b) && b <= a2 < b
                            + rest[i].len();
                    assert(tags[i + 1] == rest[i]);
                    assert(text::occurs_at(s, tags[i + 1], b));
                }
            }
        }
    }
}

/// The value of an attribute is what stands between the quotes behind its name: of the first
/// place that has the name and an equals sign.
pub proof fn lemma_attribute(
    before: Seq<char>,
    name: Seq<char>,
    quote: char,
    value: Seq<char>,
    rest: Seq<char>,
)
    requires
        quote == '"' || quote == '\'',
        !value.contains(quote),
        forall|j: int|
            0 <= j < before.len() ==> !text::occurs_at(
                before + name.push('=').push(quote) + value.push(quote) + rest,
                name.push('='),
                j,
            ),
    ensures
        attribute(before + name.push('=').push(quote) + value.push(quote) + rest, name) == Some(
            entities_decoded(value),
        ),
{
    let needle = name.push('=');
    let tag = before + name.push('=').push(quote) + value.push(quote) + rest;
    let at: int = before.len() + needle.len() as int;
    assert(tag.subrange(before.len() as int, at) =~= needle);
    assert(text::occurs_at(tag, needle, before.len() as int));
    text::lemma_find_from(tag, needle, 0);
    let k = text::find(tag, needle)->0;
    if k < before.len() {
        assert(!text::occurs_at(tag, needle, k));
    }
    assert(k == before.len());
    assert(tag[at] == quote);
    let end: int = at + 1 + value.len();
    text::lemma_next_index(tag, quote, at + 1);
    assert(tag[end] == quote);
    assert forall|j: int| at + 1 <= j < end implies tag[j] != quote by {
        assert(tag[j] == value[j - at - 1]);
    }
    assert(text::next_index(tag, quote, at + 1) == Some(end));
    assert(tag.subrange(at + 1, end) =~= value);
}

proof fn lemma_replace_absent(s: Seq<char>, pat: Seq<char>, by: Seq<char>)
    requires
        pat.len() > 0,
        forall|j: int| 0 <= j < s.len() ==> #[trigger] s[j] != pat[0],
    ensures
        text::replace(s, pat, by) == s,
    decreases s.len(),
{
    if s.len() > 0 {
        let rest = s.drop_first();
        assert forall|j: int| 0 <= j < rest.len() implies #[trigger] rest[j] != pat[0] by {
            assert(rest[j] == s[j + 1]);
        }
        lemma_replace_absent(rest, pat, by);
        assert(s[0] != pat[0]);
        assert(!pat.is_prefix_of(s));
        assert(seq![s[0]] + rest =~= s);
    }
}

proof fn lemma_replace_one(
    a: Seq<char>,
    x: Seq<char>,
    b: Seq<char>,
    pat: Seq<char>,
    by: Seq<char>,
)
    requires
        pat.len() > 0,
        x.len() > 0,
        forall|j: int| 0 <= j < a.len() ==> #[trigger] a[j] != pat[0],
        forall|j: int| 0 <= j < b.len() ==> #[trigger] b[j] != pat[0],
        forall|j: int| 0 < j < x.len() ==> #[trigger] x[j] != pat[0],
        x == pat || (x.len() > 1 && pat.len() > 1 && x[1] != pat[1]) || x[0] != pat[0],
    ensures
        text::replace(a + x + b, pat, by) == a + (if x == pat {
            by
        } else {
            x
        }) + b,
    decreases a.len(),
{
    let whole = a + x + b;
    let out = if x == pat {
        by
    } else {
        x
    };
    if a.len() > 0 {
        let rest = a.drop_first();
        assert forall|j: int| 0 <= j < rest.len() implies #[trigger] rest[j] != pat[0] by {
            assert(rest[j] == a[j + 1]);
        }
        assert(whole[0] == a[0]);
        assert(!pat.is_prefix_of(whole));
        assert(whole.drop_first() =~= rest + x + b);
        lemma_replace_one(rest, x, b, pat, by);
        assert(text::replace(whole, pat, by) =~= a + out + b);
    } else {
        assert(whole =~= x + b);
        if x == pat {
            assert(pat =~= whole.subrange(0, pat.len() as int));
            assert(whole.skip(pat.len() as int) =~= b);
            lemma_replace_absent(b, pat, by);
            assert(text::replace(whole, pat, by) =~= a + out + b);
        } else {
            assert(!pat.is_prefix_of(whole)) by {
                if pat.is_prefix_of(whole) {
                    assert(whole.subrange(0, pat.len() as int)[0] == x[0]);
                    if pat.len() > 1 && x.len() > 1 {
                        assert(whole.subrange(0, pat.len() as int)[1] == x[1]);
                    }
                }
            }
            let rest = x.drop_first() + b;
            assert(whole.drop_first() =~= rest);
            assert forall|j: int| 0 <= j < rest.len() implies #[trigger] rest[j] != pat[0] by {
                if j < x.len() - 1 {
                    assert(rest[j] == x[j + 1]);
                } else {
                    assert(rest[j] == b[j - (x.len() - 1)]);
                }
            }
            lemma_replace_absent(rest, pat, by);
            assert(text::replace(whole, pat, by) =~= a + out + b);
        }
    }
}

/// A text without an ampersand has no entities.
pub proof fn lemma_no_entities(s: Seq<char>)
    requires
        forall|j: int| 0 <= j < s.len() ==> #[trigger] s[j] != '&',
    ensures
        entities_decoded(s) == s,
{
    reveal_strlit("&quot;");
    reveal_strlit("&apos;");
    reveal_strlit("&lt;");
    reveal_strlit("&gt;");
    reveal_strlit("&amp;");
    lemma_replace_absent(s, "&quot;"@, seq!['"']);
    lemma_replace_absent(s, "&apos;"@, seq!['\'']);
    lemma_replace_absent(s, "&lt;"@, seq!['<']);
    lemma_replace_absent(s, "&gt;"@, seq!['>']);
    lemma_replace_absent(s, "&amp;"@, seq!['&']);
}

/// Whether a text has no ampersand.
pub open spec fn has_no_ampersand(s: Seq<char>) -> bool {
    forall|j: int| 0 <= j < s.len() ==> #[trigger] s[j] != '&'
}

/// An ampersand that is written as an entity is one, wherever it stands.
pub proof fn lemma_ampersand_entity(a: Seq<char>, b: Seq<char>)
    requires
        has_no_ampersand(a),
        has_no_ampersand(b),
    ensures
        entities_decoded(a + "&amp;"@ + b) == a + "&"@ + b,
{
    reveal_strlit("&quot;");
    reveal_strlit("&apos;");
    reveal_strlit("&lt;");
    reveal_strlit("&gt;");
    reveal_strlit("&amp;");
    reveal_strlit("&");
    let x = "&amp;"@;
    lemma_replace_one(a, x, b, "&quot;"@, seq!['"']);
    lemma_replace_step(a, x, b, "&apos;"@, '\'');
    lemma_replace_one(a, x, b, "&lt;"@, seq!['<']);
    lemma_replace_one(a, x, b, "&gt;"@, seq!['>']);
    lemma_replace_one(a, x, b, "&amp;"@, seq!['&']);
    assert("&"@ =~= seq!['&']);
}

proof fn lemma_no_ampersand_around(a: Seq<char>, c: char, b: Seq<char>)
    requires
        has_no_ampersand(a),
        has_no_ampersand(b),
        c != '&',
    ensures
        has_no_ampersand(a + seq![c] + b),
{
    let whole = a + seq![c] + b;
    assert forall|j: int| 0 <= j < whole.len() implies #[trigger] whole[j] != '&' by {
        if j < a.len() {
            assert(whole[j] == a[j]);
        } else if j > a.len() {
            assert(whole[j] == b[j - a.len() - 1]);
        }
    }
}

/// A quote or an angle bracket that is written as an entity is one, wherever it stands.
pub proof fn lemma_other_entities(a: Seq<char>, b: Seq<char>)
    requires
        has_no_ampersand(a),
        has_no_ampersand(b),
    ensures
        entities_decoded(a + "&quot;"@ + b) == a + seq!['"'] + b,
        entities_decoded(a + "&apos;"@ + b) == a + seq!['\''] + b,
        entities_decoded(a + "&lt;"@ + b) == a + seq!['<'] + b,
        entities_decoded(a + "&gt;"@ + b) == a + seq!['>'] + b,
{
    reveal_strlit("&quot;");
    reveal_strlit("&apos;");
    reveal_strlit("&lt;");
    reveal_strlit("&gt;");
    reveal_strlit("&amp;");
    let (quot, apos, lt, gt, amp) = ("&quot;"@, "&apos;"@, "&lt;"@, "&gt;"@, "&amp;"@);
    let (q, p, l, g, m) = (seq!['"'], seq!['\''], seq!['<'], seq!['>'], seq!['&']);
    lemma_no_ampersand_around(a, '"', b);
    lemma_no_ampersand_around(a, '\'', b);
    lemma_no_ampersand_around(a, '<', b);
    lemma_no_ampersand_around(a, '>', b);
    lemma_replace_one(a, quot, b, quot, q);
    lemma_replace_absent(a + q + b, apos, p);
    lemma_replace_absent(a + q + b, lt, l);
    lemma_replace_absent(a + q + b, gt, g);
    lemma_replace_absent(a + q + b, amp, m);
    lemma_replace_one(a, apos, b, quot, q);
    lemma_replace_one(a, apos, b, apos, p);
    lemma_replace_absent(a + p + b, lt, l);
    lemma_replace_absent(a + p + b, gt, g);
    lemma_replace_absent(a + p + b, amp, m);
    lemma_replace_one(a, lt, b, quot, q);
    lemma_replace_one(a, lt, b, apos, p);
    lemma_replace_one(a, lt, b, lt, l);
    lemma_replace_absent(a + l + b, gt, g);
    lemma_replace_absent(a + l + b, amp, m);
    lemma_replace_one(a, gt, b, quot, q);
    lemma_replace_one(a, gt, b, apos, p);
    lemma_replace_one(a, gt, b, lt, l);
    lemma_replace_one(a, gt, b, gt, g);
    lemma_replace_absent(a + g + b, amp, m);
}

proof fn lemma_replace_step(a: Seq<char>, x: Seq<char>, b: Seq<char>, pat: Seq<char>, c: char)
    requires
        has_no_ampersand(a),
        has_no_ampersand(b),
        x == "&amp;"@,
        pat == "&apos;"@,
    ensures
        text::replace(a + x + b, pat, seq![c]) == a + x + b,
    decreases a.len(),
{
    reveal_strlit("&apos;");
    reveal_strlit("&amp;");
    let whole = a + x + b;
    if a.len() > 0 {
        let rest = a.drop_first();
        assert forall|j: int| 0 <= j < rest.len() implies #[trigger] rest[j] != '&' by {
            assert(rest[j] == a[j + 1]);
        }
        assert(whole[0] == a[0]);
        assert(!pat.is_prefix_of(whole)) by {
            if pat.is_prefix_of(whole) {
                assert(whole.subrange(0, pat.len() as int)[0] == a[0]);
            }
        }
        assert(whole.drop_first() =~= rest + x + b);
        lemma_replace_step(rest, x, b, pat, c);
        assert(text::replace(whole, pat, seq![c]) =~= whole);
    } else {
        assert(whole =~= x + b);
        assert(!pat.is_prefix_of(whole)) by {
            if pat.is_prefix_of(whole) {
                assert(whole.subrange(0, pat.len() as int)[2] == x[2]);
            }
        }
        let rest = x.drop_first() + b;
        assert(whole.drop_first() =~= rest);
        assert forall|j: int| 0 <= j < rest.len() implies #[trigger] rest[j] != pat[0] by {
            if j < x.len() - 1 {
                assert(rest[j] == x[j + 1]);
            } else {
                assert(rest[j] == b[j - (x.len() - 1)]);
            }
        }
        lemma_replace_absent(rest, pat, seq![c]);
        assert(text::replace(whole, pat, seq![c]) =~= whole);
    }
}

/// A percent sign and two hexadecimal digits stand for a byte; all other bytes stand for
/// themselves.
pub proof fn lemma_percent_decoded(byte: u8, hi: u8, lo: u8, rest: Seq<u8>)
    requires
        hi < 16,
        lo < 16,
    ensures
        percent_decoded(Seq::empty()).len() == 0,
        byte != 37 ==> percent_decoded(seq![byte] + rest) == seq![byte] + percent_decoded(rest),
        percent_decoded(seq![37u8, "0123456789abcdef"@[hi as int] as u8, "0123456789abcdef"@[
            lo as int
        ] as u8] + rest) == seq![(16 * hi + lo) as u8] + percent_decoded(rest),
        percent_decoded(seq![37u8, "0123456789ABCDEF"@[hi as int] as u8, "0123456789ABCDEF"@[
            lo as int
        ] as u8] + rest) == seq![(16 * hi + lo) as u8] + percent_decoded(rest),
{
    reveal_strlit("0123456789abcdef");
    reveal_strlit("0123456789ABCDEF");
    let small = seq![37u8, "0123456789abcdef"@[hi as int] as u8, "0123456789abcdef"@[
        lo as int
    ] as u8];
    let large = seq![37u8, "0123456789ABCDEF"@[hi as int] as u8, "0123456789ABCDEF"@[
        lo as int
    ] as u8];
    assert((seq![byte] + rest).drop_first() =~= rest);
    assert((small + rest).skip(3) =~= rest);
    assert((large + rest).skip(3) =~= rest);
    lemma_hex_digit(hi);
    lemma_hex_digit(lo);
}

proof fn lemma_hex_digit(d: u8)
    requires
        d < 16,
    ensures
        hex_digit("0123456789abcdef"@[d as int] as u8) == Some(d),
        hex_digit("0123456789ABCDEF"@[d as int] as u8) == Some(d),
{
    reveal_strlit("0123456789abcdef");
    reveal_strlit("0123456789ABCDEF");
}

/// An address of a file on this machine leads to the path behind it, with or without the name
/// of the machine. Other addresses lead nowhere.
pub proof fn lemma_uri_path(path: Seq<char>, uri: Seq<char>)
    ensures
        uri_path("file:///"@ + path) == Some(seq!['/'] + path),
        uri_path("file://localhost/"@ + path) == Some(seq!['/'] + path),
        !"file://"@.is_prefix_of(uri) ==> uri_path(uri) is None,
        uri_path(uri) matches Some(p) ==> uri == "file://"@ + p || uri == "file://localhost"@ + p,
{
    reveal_strlit("file://");
    reveal_strlit("file:///");
    reveal_strlit("localhost/");
    reveal_strlit("file://localhost");
    reveal_strlit("file://localhost/");
    let a = "file:///"@ + path;
    let b = "file://localhost/"@ + path;
    assert("file://"@ =~= a.subrange(0, 7));
    assert("file://"@ =~= b.subrange(0, 7));
    assert(a.skip(7) =~= seq!['/'] + path);
    assert(b.skip(7) =~= "localhost/"@ + path);
    assert(!"localhost/"@.is_prefix_of(a.skip(7))) by {
        if "localhost/"@.is_prefix_of(a.skip(7)) {
            assert(a.skip(7).subrange(0, 10)[0] == '/');
        }
    }
    assert("localhost/"@ =~= b.skip(7).subrange(0, 10));
    assert(b.skip(7).skip(10) =~= path);
    if let Some(p) = uri_path(uri) {
        let rest = uri.skip(7);
        assert(uri =~= "file://"@ + rest) by {
            assert("file://"@ =~= uri.subrange(0, 7));
        }
        if "localhost/"@.is_prefix_of(rest) {
            assert(rest =~= "localhost/"@ + rest.skip(10)) by {
                assert("localhost/"@ =~= rest.subrange(0, 10));
            }
            assert(uri =~= "file://localhost"@ + p);
        }
    }
}

} // verus!
