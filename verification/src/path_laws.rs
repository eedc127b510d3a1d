//! What holds of the keys of paths, and of names and extensions.
use vstd::prelude::*;

use crate::paths;
use crate::text;

verus! {

proof fn lemma_parts_after(x: Seq<Seq<char>>, y: Seq<Seq<char>>, z: Seq<Seq<char>>)
    requires
        paths::normal_parts(x) == paths::normal_parts(y),
    ensures
        paths::normal_parts(x + z) == paths::normal_parts(y + z),
    decreases z.len(),
{
    if z.len() == 0 {
        assert(x + z =~= x);
        assert(y + z =~= y);
    } else {
        lemma_parts_after(x, y, z.drop_last());
        assert((x + z).drop_last() =~= x + z.drop_last());
        assert((y + z).drop_last() =~= y + z.drop_last());
    }
}

proof fn lemma_between(a: Seq<char>, middle: Seq<char>, b: Seq<char>)
    requires
        !middle.contains('/'),
    ensures
        text::pieces(a.push('/') + middle.push('/') + b, '/') == text::pieces(a, '/') + seq![
            middle,
        ] + text::pieces(b, '/'),
        text::pieces(a.push('/') + b, '/') == text::pieces(a, '/') + text::pieces(b, '/'),
{
    text::lemma_pieces_of_plain(middle, '/');
    text::lemma_pieces_of_concat(middle, b, '/');
    text::lemma_pieces_of_concat(a, middle.push('/') + b, '/');
    text::lemma_pieces_of_concat(a, b, '/');
    assert(a.push('/') + middle.push('/') + b =~= a.push('/') + (middle.push('/') + b));
    assert(text::pieces(a, '/') + (seq![middle] + text::pieces(b, '/')) =~= text::pieces(a, '/')
        + seq![middle] + text::pieces(b, '/'));
}

/// A single dot, and a separator too many, lead nowhere.
pub proof fn lemma_dot_leads_nowhere(a: Seq<char>, b: Seq<char>)
    ensures
        paths::normalized(a.push('/') + "."@.push('/') + b) == paths::normalized(a.push('/') + b),
        paths::normalized(a.push('/') + ""@.push('/') + b) == paths::normalized(a.push('/') + b),
{
    reveal_strlit(".");
    reveal_strlit("");
    let (dot, none) = ("."@, ""@);
    assert(dot =~= seq!['.']);
    lemma_between(a, dot, b);
    lemma_between(a, none, b);
    let x = text::pieces(a, '/');
    let z = text::pieces(b, '/');
    assert((x + seq![dot]).drop_last() =~= x);
    assert((x + seq![none]).drop_last() =~= x);
    lemma_parts_after(x + seq![dot], x, z);
    lemma_parts_after(x + seq![none], x, z);
    assert(a.push('/') + dot.push('/') + b =~= a.push('/') + (dot.push('/') + b));
}

/// Two dots lead back out of a directory.
pub proof fn lemma_dots_lead_back(a: Seq<char>, name: Seq<char>, b: Seq<char>)
    requires
        paths::is_plain(name),
    ensures
        paths::normalized(a.push('/') + name.push('/') + ".."@.push('/') + b) == paths::normalized(
            a.push('/') + b,
        ),
{
    reveal_strlit("..");
    let dots = ".."@;
    assert(dots =~= seq!['.', '.']);
    let start = a.push('/') + name;
    assert(a.push('/') + name.push('/') + dots.push('/') + b =~= start.push('/') + dots.push('/')
        + b);
    lemma_between(start, dots, b);
    lemma_between(a, name, b);
    text::lemma_pieces_of_plain(name, '/');
    text::lemma_pieces_of_concat(a, name, '/');
    let x = text::pieces(a, '/');
    let y = x + seq![name];
    let z = text::pieces(b, '/');
    assert(text::pieces(start, '/') =~= y);
    assert((y + seq![dots]).drop_last() =~= y);
    assert(y.drop_last() =~= x);
    assert(paths::normal_parts(y) =~= paths::normal_parts(x).push(name));
    assert(paths::normal_parts(y).drop_last() =~= paths::normal_parts(x));
    lemma_parts_after(y + seq![dots], x, z);
}

/// There is nothing above the root.
pub proof fn lemma_nothing_above_root(b: Seq<char>)
    ensures
        paths::normalized("/../"@ + b) == paths::normalized("/"@ + b),
        paths::normalized("/"@) == "/"@,
{
    reveal_strlit("/../");
    reveal_strlit("/");
    reveal_strlit("..");
    let dots = ".."@;
    let none = Seq::<char>::empty();
    assert("/../"@ + b =~= none.push('/') + dots.push('/') + b);
    assert("/"@ + b =~= none.push('/') + b);
    assert(dots =~= seq!['.', '.']);
    lemma_between(none, dots, b);
    let x = text::pieces(none, '/');
    let z = text::pieces(b, '/');
    assert(x =~= seq![none]);
    assert(x.drop_last() =~= Seq::<Seq<char>>::empty());
    assert(paths::normal_parts(x) =~= Seq::<Seq<char>>::empty()) by {
        reveal_with_fuel(paths::normal_parts, 2);
    }
    assert((x + seq![dots]).drop_last() =~= x);
    lemma_parts_after(x + seq![dots], x, z);
    assert("/"@ =~= seq!['/']);
    paths::lemma_tidy_is_normal(seq!['/']);
}

/// The key of a relative path is that of the path behind the directory it is seen from. The key
/// of an absolute path does not depend on that directory.
pub proof fn lemma_key_from(path: Seq<char>, cwd: Seq<char>, other: Seq<char>)
    requires
        cwd.len() > 0,
    ensures
        !paths::is_absolute(path) ==> paths::key_from(path, cwd) == paths::normalized(
            cwd.push('/') + path,
        ),
        paths::is_absolute(path) ==> paths::key_from(path, cwd) == paths::key_from(path, other)
            && paths::key_from(path, cwd) == paths::normalized(path),
{
    text::lemma_pieces_of_concat(cwd, path, '/');
    assert((cwd.push('/') + path)[0] == cwd[0]);
}

/// The normal form of an absolute path names just the directories that are left: none of its
/// parts is empty, a dot or two dots.
pub proof fn lemma_normal_form(path: Seq<char>)
    requires
        paths::is_absolute(path),
    ensures
        paths::normalized(path) == "/"@ || forall|i: int|
            0 <= i < text::pieces(paths::normalized(path).drop_first(), '/').len() ==> {
                let part = #[trigger] text::pieces(paths::normalized(path).drop_first(), '/')[i];
                part.len() > 0 && part != "."@ && part != ".."@
            },
{
    reveal_strlit("/");
    reveal_strlit(".");
    reveal_strlit("..");
    assert("/"@ =~= seq!['/']);
    assert("."@ =~= seq!['.']);
    assert(".."@ =~= seq!['.', '.']);
    paths::lemma_normalized_idempotent(path);
    paths::lemma_tidy_is_normal(paths::normalized(path));
}

/// The extension of a file is what stands behind the last dot of its name. A name with no dot,
/// or with one in front alone, has none.
pub proof fn lemma_extension(dir: Seq<char>, stem: Seq<char>, ext: Seq<char>, name: Seq<char>)
    requires
        stem.len() > 0,
        !stem.contains('/'),
        !ext.contains('/'),
        !ext.contains('.'),
        ext.len() > 0 || stem != "."@,
        paths::is_plain(name),
        forall|i: int| 0 < i < name.len() ==> name[i] != '.',
    ensures
        paths::extension(dir.push('/') + stem.push('.') + ext) == Some(ext),
        paths::extension(dir.push('/') + name) is None,
{
    reveal_strlit(".");
    assert("."@ =~= seq!['.']);
    let file = stem.push('.') + ext;
    assert(dir.push('/') + stem.push('.') + ext =~= dir.push('/') + file);
    assert(!file.contains('/')) by {
        if file.contains('/') {
            let k = file.index_of('/');
            if k < stem.len() {
                assert(stem[k] == '/');
            } else if k > stem.len() {
                assert(ext[k - stem.len() - 1] == '/');
            }
        }
    }
    text::lemma_pieces_of_plain(file, '/');
    text::lemma_pieces_of_concat(dir, file, '/');
    text::lemma_pieces_of_plain(name, '/');
    text::lemma_pieces_of_concat(dir, name, '/');
    assert((text::pieces(dir, '/') + seq![file]).last() == file);
    assert((text::pieces(dir, '/') + seq![name]).last() == name);
    assert(file.len() >= 2);
    assert(!paths::is_parent(file)) by {
        if file == seq!['.', '.'] {
            assert(file[0] == stem[0]);
            assert(stem.len() == 1);
            assert(stem =~= seq!['.']);
            assert(ext.len() == 0);
        }
    }
    text::lemma_last_index(file, '.');
    assert(file[stem.len() as int] == '.');
    assert forall|j: int| stem.len() < j < file.len() implies file[j] != '.' by {
        assert(file[j] == ext[j - stem.len() - 1]);
    }
    assert(text::last_index(file, '.') == Some(stem.len() as int));
    assert(file.skip(stem.len() as int + 1) =~= ext);
    text::lemma_last_index(name, '.');
}

} // verus!
