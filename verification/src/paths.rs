//! Paths as text, with `/` between their parts.
use vstd::prelude::*;
use vstd::string::*;

use crate::text;
use crate::text::chars_of;
use crate::text::last_index_of;
use crate::text::push_chars;
use crate::text::split_on;
use crate::text::string_of;
use crate::text::sub_chars;

verus! {

/// Whether a path starts at the root.
pub open spec fn is_absolute(path: Seq<char>) -> bool {
    path.len() > 0 && path[0] == '/'
}

/// Whether a part of a path says nothing: it is empty or stands for the directory
/// it is in.
pub open spec fn is_idle(part: Seq<char>) -> bool {
    part.len() == 0 || part == seq!['.']
}

/// Whether a part of a path stands for the directory above.
pub open spec fn is_parent(part: Seq<char>) -> bool {
    part == seq!['.', '.']
}

/// The parts of a path that are left when idle ones are dropped and each that
/// stands for the directory above takes back the one before it, if there is one.
pub open spec fn normal_parts(parts: Seq<Seq<char>>) -> Seq<Seq<char>>
    decreases parts.len(),
{
    if parts.len() == 0 {
        parts
    } else {
        let before = normal_parts(parts.drop_last());
        let part = parts.last();
        if is_idle(part) {
            before
        } else if is_parent(part) {
            if before.len() > 0 {
                before.drop_last()
            } else {
                before
            }
        } else {
            before.push(part)
        }
    }
}

/// Parts with a separator between them.
pub open spec fn joined(parts: Seq<Seq<char>>) -> Seq<char>
    decreases parts.len(),
{
    if parts.len() == 0 {
        Seq::empty()
    } else if parts.len() == 1 {
        parts[0]
    } else {
        joined(parts.drop_last()).push('/') + parts.last()
    }
}

/// The text of a path with these parts.
pub open spec fn path_text(absolute: bool, parts: Seq<Seq<char>>) -> Seq<char> {
    if absolute {
        seq!['/'] + joined(parts)
    } else {
        joined(parts)
    }
}

/// The normal form of a path.
pub open spec fn normalized(path: Seq<char>) -> Seq<char> {
    path_text(is_absolute(path), normal_parts(text::pieces(path, '/')))
}

/// The normal form of a path as seen from a directory.
pub open spec fn key_from(path: Seq<char>, cwd: Seq<char>) -> Seq<char> {
    if is_absolute(path) {
        normalized(path)
    } else {
        path_text(
            is_absolute(cwd),
            normal_parts(text::pieces(cwd, '/') + text::pieces(path, '/')),
        )
    }
}

/// Whether a part can stand in a normal form.
pub open spec fn is_plain(part: Seq<char>) -> bool {
    &&& !is_idle(part)
    &&& !is_parent(part)
    &&& !part.contains('/')
}

pub open spec fn all_plain(parts: Seq<Seq<char>>) -> bool {
    forall|i: int| 0 <= i < parts.len() ==> is_plain(#[trigger] parts[i])
}

proof fn lemma_normal_parts_plain(parts: Seq<Seq<char>>)
    requires
        forall|i: int| 0 <= i < parts.len() ==> !(#[trigger] parts[i]).contains('/'),
    ensures
        all_plain(normal_parts(parts)),
    decreases parts.len(),
{
    if parts.len() > 0 {
        let init = parts.drop_last();
        assert forall|i: int| 0 <= i < init.len() implies !(#[trigger] init[i]).contains('/') by {
            assert(init[i] == parts[i]);
        }
        lemma_normal_parts_plain(init);
        assert(!parts[parts.len() - 1].contains('/'));
    }
}

proof fn lemma_normal_parts_fixed(parts: Seq<Seq<char>>)
    requires
        all_plain(parts),
    ensures
        normal_parts(parts) == parts,
    decreases parts.len(),
{
    if parts.len() > 0 {
        let init = parts.drop_last();
        assert forall|i: int| 0 <= i < init.len() implies is_plain(#[trigger] init[i]) by {
            assert(init[i] == parts[i]);
        }
        lemma_normal_parts_fixed(init);
        assert(is_plain(parts[parts.len() - 1]));
        assert(parts =~= init.push(parts.last()));
    }
}

/// Idle parts in front change nothing.
proof fn lemma_normal_parts_skip_idle(first: Seq<char>, parts: Seq<Seq<char>>)
    requires
        is_idle(first),
    ensures
        normal_parts(seq![first] + parts) == normal_parts(parts),
    decreases parts.len(),
{
    let all = seq![first] + parts;
    if parts.len() > 0 {
        assert(all.drop_last() =~= seq![first] + parts.drop_last());
        lemma_normal_parts_skip_idle(first, parts.drop_last());
    } else {
        assert(all.drop_last() =~= Seq::<Seq<char>>::empty());
        reveal_with_fuel(normal_parts, 2);
    }
}

/// Joining the pieces of a text gives the text back.
pub proof fn lemma_joined_pieces(s: Seq<char>)
    ensures
        joined(text::pieces(s, '/')) == s,
    decreases s.len(),
{
    text::lemma_pieces_nonempty(s, '/');
    if s.len() > 0 {
        let init = s.drop_last();
        let p = text::pieces(init, '/');
        text::lemma_pieces_nonempty(init, '/');
        lemma_joined_pieces(init);
        if s.last() == '/' {
            assert(p.push(Seq::empty()).drop_last() =~= p);
            assert(joined(p).push('/') + Seq::<char>::empty() =~= s);
        } else {
            let q = p.drop_last().push(p.last().push(s.last()));
            assert(q.drop_last() =~= p.drop_last());
            if p.len() == 1 {
                assert(q[0] =~= s);
            } else {
                assert(joined(q) =~= joined(p).push(s.last()));
            }
        }
    }
}

/// The pieces of joined parts are the parts.
proof fn lemma_pieces_joined(parts: Seq<Seq<char>>)
    requires
        parts.len() > 0,
        all_plain(parts),
    ensures
        text::pieces(joined(parts), '/') == parts,
    decreases parts.len(),
{
    assert(is_plain(parts[parts.len() - 1]));
    text::lemma_pieces_of_plain(parts.last(), '/');
    if parts.len() == 1 {
        assert(seq![parts[0]] =~= parts);
    } else {
        let init = parts.drop_last();
        assert forall|i: int| 0 <= i < init.len() implies is_plain(#[trigger] init[i]) by {
            assert(init[i] == parts[i]);
        }
        lemma_pieces_joined(init);
        text::lemma_pieces_of_concat(joined(init), parts.last(), '/');
        assert(init + seq![parts.last()] =~= parts);
    }
}

/// The pieces of an absolute path: nothing in front of the first separator, and
/// the pieces behind it.
proof fn lemma_pieces_absolute(rest: Seq<char>)
    ensures
        text::pieces(seq!['/'] + rest, '/') == seq![Seq::<char>::empty()] + text::pieces(rest, '/'),
{
    text::lemma_pieces_of_concat(Seq::empty(), rest, '/');
    assert(Seq::<char>::empty().push('/') =~= seq!['/']);
}

proof fn lemma_absolute_parts(path: Seq<char>)
    requires
        is_absolute(path),
    ensures
        normalized(path) == seq!['/'] + joined(
            normal_parts(text::pieces(path.drop_first(), '/')),
        ),
{
    let rest = path.drop_first();
    assert(path =~= seq!['/'] + rest);
    lemma_pieces_absolute(rest);
    lemma_normal_parts_skip_idle(Seq::empty(), text::pieces(rest, '/'));
}

/// Whether a path is absolute and the pieces behind its root are all plain, or
/// there is nothing behind it.
pub open spec fn is_tidy(path: Seq<char>) -> bool {
    path == seq!['/'] || (is_absolute(path) && all_plain(text::pieces(path.drop_first(), '/')))
}

/// A path is its own normal form, and absolute, exactly if it is tidy.
pub proof fn lemma_tidy_is_normal(path: Seq<char>)
    ensures
        is_tidy(path) <==> is_absolute(path) && normalized(path) == path,
{
    let rest = path.drop_first();
    let parts = text::pieces(rest, '/');
    if is_absolute(path) {
        assert(path =~= seq!['/'] + rest);
        lemma_absolute_parts(path);
        text::lemma_pieces_free(rest, '/');
        lemma_normal_parts_plain(parts);
        let kept = normal_parts(parts);
        if path == seq!['/'] {
            assert(rest =~= Seq::<char>::empty());
            reveal_with_fuel(normal_parts, 2);
            assert(parts.drop_last() =~= Seq::<Seq<char>>::empty());
            assert(seq!['/'] + joined(kept) =~= path);
        } else if all_plain(parts) {
            lemma_normal_parts_fixed(parts);
            lemma_joined_pieces(rest);
        } else if normalized(path) == path {
            assert(rest =~= (seq!['/'] + joined(kept)).drop_first());
            assert(rest =~= joined(kept));
            if kept.len() > 0 {
                lemma_pieces_joined(kept);
            } else {
                assert(path =~= seq!['/']);
            }
        }
    }
}

/// Normalizing twice is normalizing once, and what comes out is absolute if what
/// goes in is.
pub proof fn lemma_normalized_idempotent(path: Seq<char>)
    requires
        is_absolute(path),
    ensures
        is_absolute(normalized(path)),
        normalized(normalized(path)) == normalized(path),
{
    let rest = path.drop_first();
    lemma_absolute_parts(path);
    text::lemma_pieces_free(rest, '/');
    lemma_key_text_tidy(text::pieces(rest, '/'));
    lemma_tidy_is_normal(normalized(path));
}

proof fn lemma_key_text_tidy(parts: Seq<Seq<char>>)
    requires
        forall|i: int| 0 <= i < parts.len() ==> !(#[trigger] parts[i]).contains('/'),
    ensures
        is_tidy(seq!['/'] + joined(normal_parts(parts))),
{
    let kept = normal_parts(parts);
    let out = seq!['/'] + joined(kept);
    lemma_normal_parts_plain(parts);
    assert(out.drop_first() =~= joined(kept));
    if kept.len() > 0 {
        lemma_pieces_joined(kept);
    } else {
        assert(out =~= seq!['/']);
    }
}

/// The key of a path seen from an absolute directory is absolute and its own
/// normal form, so taking the key again, from wherever, changes nothing.
pub proof fn lemma_key_stable(path: Seq<char>, cwd: Seq<char>, other: Seq<char>)
    requires
        is_absolute(path) || is_absolute(cwd),
    ensures
        is_absolute(key_from(path, cwd)),
        normalized(key_from(path, cwd)) == key_from(path, cwd),
        key_from(key_from(path, cwd), other) == key_from(path, cwd),
{
    if is_absolute(path) {
        lemma_normalized_idempotent(path);
    } else {
        let a = text::pieces(cwd, '/');
        let b = text::pieces(path, '/');
        text::lemma_pieces_free(cwd, '/');
        text::lemma_pieces_free(path, '/');
        let parts = a + b;
        assert forall|i: int| 0 <= i < parts.len() implies !(#[trigger] parts[i]).contains('/') by {
            if i < a.len() {
                assert(parts[i] == a[i]);
            } else {
                assert(parts[i] == b[i - a.len()]);
            }
        }
        lemma_key_text_tidy(parts);
        lemma_tidy_is_normal(key_from(path, cwd));
    }
}

// ---------------------------------------------------------------------------
// Executable forms
// ---------------------------------------------------------------------------

fn is_dot(part: &[char]) -> (r: bool)
    ensures
        r == (part@ == seq!['.']),
{
    if part.len() == 1 && part[0] == '.' {
        proof {
            assert(part@ =~= seq!['.']);
        }
        true
    } else {
        false
    }
}

fn is_dot_dot(part: &[char]) -> (r: bool)
    ensures
        r == is_parent(part@),
{
    if part.len() == 2 && part[0] == '.' && part[1] == '.' {
        proof {
            assert(part@ =~= seq!['.', '.']);
        }
        true
    } else {
        false
    }
}

fn starts_at_root(path: &[char]) -> (r: bool)
    ensures
        r == is_absolute(path@),
{
    path.len() > 0 && path[0] == '/'
}

/// Carries parts over into a normal form.
fn extend_normal(kept: &mut Vec<Vec<char>>, parts: Vec<Vec<char>>, Ghost(before): Ghost<
    Seq<Seq<char>>,
>)
    requires
        text::views(old(kept)@) == normal_parts(before),
    ensures
        text::views(final(kept)@) == normal_parts(before + text::views(parts@)),
{
    let ghost all = before + text::views(parts@);
    let mut parts = parts;
    let ghost given = parts@;
    let mut i: usize = 0;
    proof {
        assert(before + text::views(given).take(0) =~= before);
    }
    while i < parts.len()
        invariant
            i <= parts@.len(),
            parts@ == given,
            text::views(kept@) == normal_parts(before + text::views(given).take(i as int)),
        decreases parts.len() - i,
    {
        let ghost here = before + text::views(given).take(i + 1);
        let ghost kept_before = kept@;
        proof {
            assert(here.drop_last() =~= before + text::views(given).take(i as int));
            assert(here.last() == given[i as int]@);
            assert(text::views(kept@).len() == kept@.len());
        }
        let part = parts[i].as_slice();
        if part.len() == 0 || is_dot(part) {
        } else if is_dot_dot(part) {
            if kept.len() > 0 {
                kept.pop();
                proof {
                    assert(text::views(kept@) =~= text::views(kept_before).drop_last());
                }
            }
        } else {
            let mut copy: Vec<char> = Vec::new();
            push_chars(&mut copy, part);
            proof {
                assert(copy@ =~= part@);
            }
            kept.push(copy);
            proof {
                assert(text::views(kept@) =~= text::views(kept_before).push(copy@));
            }
        }
        i += 1;
    }
    proof {
        assert(text::views(given).take(given.len() as int) =~= text::views(given));
    }
}

fn render(absolute: bool, parts: &Vec<Vec<char>>) -> (r: String)
    ensures
        r@ == path_text(absolute, text::views(parts@)),
{
    let ghost all = text::views(parts@);
    let mut out: Vec<char> = Vec::new();
    if absolute {
        out.push('/');
    }
    let ghost lead = out@;
    let mut i: usize = 0;
    proof {
        assert(lead + joined(all.take(0)) =~= lead);
    }
    while i < parts.len()
        invariant
            i <= parts@.len(),
            all == text::views(parts@),
            out@ == lead + joined(all.take(i as int)),
        decreases parts.len() - i,
    {
        proof {
            assert(all.take(i + 1).drop_last() =~= all.take(i as int));
            assert(all.take(i + 1).last() == parts@[i as int]@);
        }
        if i > 0 {
            out.push('/');
        }
        push_chars(&mut out, parts[i].as_slice());
        i += 1;
        proof {
            assert(out@ =~= lead + joined(all.take(i as int)));
        }
    }
    proof {
        assert(all.take(all.len() as int) =~= all);
        if absolute {
            assert(lead =~= seq!['/']);
        } else {
            assert(lead + joined(all) =~= joined(all));
        }
    }
    string_of(out.as_slice())
}

/// The normal form of a path.
pub fn normalize_path(path: &str) -> (r: String)
    ensures
        r@ == normalized(path@),
{
    let chars = chars_of(path);
    let mut kept: Vec<Vec<char>> = Vec::new();
    let ghost none = Seq::<Seq<char>>::empty();
    proof {
        assert(text::views(kept@) =~= none);
    }
    let parts = split_on(chars.as_slice(), '/');
    let ghost given = text::views(parts@);
    extend_normal(&mut kept, parts, Ghost(none));
    proof {
        assert(none + given =~= given);
    }
    render(starts_at_root(chars.as_slice()), &kept)
}

/// The normal form of a path as seen from a directory.
pub fn normalized_path_key_with_cwd(path: &str, cwd: &str) -> (r: String)
    ensures
        r@ == key_from(path@, cwd@),
{
    let chars = chars_of(path);
    if starts_at_root(chars.as_slice()) {
        return normalize_path(path);
    }
    let base = chars_of(cwd);
    let mut kept: Vec<Vec<char>> = Vec::new();
    let ghost none = Seq::<Seq<char>>::empty();
    proof {
        assert(text::views(kept@) =~= none);
    }
    let base_parts = split_on(base.as_slice(), '/');
    let ghost first = text::views(base_parts@);
    extend_normal(&mut kept, base_parts, Ghost(none));
    proof {
        assert(none + first =~= first);
    }
    let parts = split_on(chars.as_slice(), '/');
    extend_normal(&mut kept, parts, Ghost(first));
    render(starts_at_root(base.as_slice()), &kept)
}

/// Whether a path is absolute and already its own normal form.
pub fn path_is_normalized_absolute(path: &str) -> (r: bool)
    ensures
        r == (is_absolute(path@) && normalized(path@) == path@),
{
    proof {
        lemma_tidy_is_normal(path@);
    }
    let chars = chars_of(path);
    if !starts_at_root(chars.as_slice()) {
        return false;
    }
    if chars.len() == 1 {
        proof {
            assert(path@ =~= seq!['/']);
        }
        return true;
    }
    let rest = sub_chars(chars.as_slice(), 1, chars.len());
    let parts = split_on(rest.as_slice(), '/');
    let ghost all = text::pieces(path@.drop_first(), '/');
    proof {
        assert(rest@ =~= path@.drop_first());
        text::lemma_pieces_free(rest@, '/');
    }
    let mut i: usize = 0;
    while i < parts.len()
        invariant
            i <= parts@.len(),
            all == text::views(parts@),
            forall|k: int| 0 <= k < all.len() ==> !(#[trigger] all[k]).contains('/'),
            forall|k: int| 0 <= k < i ==> is_plain(#[trigger] all[k]),
            path@ != seq!['/'],
            all == text::pieces(path@.drop_first(), '/'),
            is_tidy(path@) <==> is_absolute(path@) && normalized(path@) == path@,
        decreases parts.len() - i,
    {
        let part = parts[i].as_slice();
        proof {
            assert(all[i as int] == part@);
        }
        if part.len() == 0 || is_dot(part) || is_dot_dot(part) {
            proof {
                assert(!is_plain(all[i as int]));
            }
            return false;
        }
        i += 1;
    }
    true
}

// ---------------------------------------------------------------------------
// Names and extensions
// ---------------------------------------------------------------------------

/// The last part of a path that is not idle, unless it stands for the directory
/// above.
pub open spec fn last_name(parts: Seq<Seq<char>>) -> Option<Seq<char>>
    decreases parts.len(),
{
    if parts.len() == 0 {
        None
    } else if is_idle(parts.last()) {
        last_name(parts.drop_last())
    } else if is_parent(parts.last()) {
        None
    } else {
        Some(parts.last())
    }
}

/// The name of the file that a path leads to.
pub open spec fn file_name(path: Seq<char>) -> Option<Seq<char>> {
    last_name(text::pieces(path, '/'))
}

/// What stands behind the last dot of a name, unless the dot is in front.
pub open spec fn name_extension(name: Seq<char>) -> Option<Seq<char>> {
    match text::last_index(name, '.') {
        Some(k) => if k > 0 {
            Some(name.skip(k + 1))
        } else {
            None
        },
        None => None,
    }
}

/// The extension of the file that a path leads to.
pub open spec fn extension(path: Seq<char>) -> Option<Seq<char>> {
    match file_name(path) {
        Some(name) => name_extension(name),
        None => None,
    }
}

/// The name of the file that a path leads to.
pub fn file_name_of(path: &[char]) -> (r: Option<Vec<char>>)
    ensures
        match r {
            Some(v) => file_name(path@) == Some(v@),
            None => file_name(path@) is None,
        },
{
    let parts = split_on(path, '/');
    let ghost all = text::views(parts@);
    let mut n: usize = parts.len();
    proof {
        assert(all.take(all.len() as int) =~= all);
    }
    while n > 0
        invariant
            n <= parts@.len(),
            all == text::views(parts@),
            all == text::pieces(path@, '/'),
            file_name(path@) == last_name(all.take(n as int)),
        decreases n,
    {
        let part = parts[n - 1].as_slice();
        proof {
            assert(all.take(n as int).drop_last() =~= all.take(n - 1));
            assert(all.take(n as int).last() == part@);
        }
        if part.len() == 0 || is_dot(part) {
            n -= 1;
        } else if is_dot_dot(part) {
            return None;
        } else {
            return Some(sub_all(part));
        }
    }
    None
}

fn sub_all(part: &[char]) -> (r: Vec<char>)
    ensures
        r@ == part@,
{
    let r = sub_chars(part, 0, part.len());
    proof {
        assert(r@ =~= part@);
    }
    r
}

/// What stands behind the last dot of a name.
pub fn name_extension_of(name: &[char]) -> (r: Option<Vec<char>>)
    ensures
        match r {
            Some(v) => name_extension(name@) == Some(v@),
            None => name_extension(name@) is None,
        },
{
    proof {
        text::lemma_last_index(name@, '.');
    }
    let size: usize = name.len();
    match last_index_of(name, '.') {
        Some(k) => {
            if k > 0 {
                let r = sub_chars(name, k + 1, size);
                proof {
                    assert(r@ =~= name@.skip(k + 1));
                }
                Some(r)
            } else {
                None
            }
        },
        None => None,
    }
}

/// The extension of the file that a path leads to.
pub fn extension_of(path: &str) -> (r: Option<String>)
    ensures
        match r {
            Some(v) => extension(path@) == Some(v@),
            None => extension(path@) is None,
        },
{
    let chars = chars_of(path);
    match file_name_of(chars.as_slice()) {
        Some(name) => match name_extension_of(name.as_slice()) {
            Some(ext) => Some(string_of(ext.as_slice())),
            None => None,
        },
        None => None,
    }
}

} // verus!
