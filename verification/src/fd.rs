//! The search for files: its arguments, and what it prints.
use vstd::prelude::*;
use vstd::string::*;
use vstd::utf8::*;

use crate::clock::FILE_LOOKBACK_WINDOW;
use crate::text;
use crate::text::text_from_bytes;

verus! {

/// What is left out of the search.
pub open spec fn excluded() -> Seq<Seq<char>> {
    seq![
        ".git"@,
        "node_modules"@,
        ".cache"@,
        ".npm"@,
        "target"@,
        "__pycache__"@,
        ".venv"@,
        "venv"@,
        ".cargo/registry"@,
        ".cargo/git"@,
        ".rustup"@,
        "go/pkg/mod"@,
    ]
}

/// The arguments that leave names out: each behind a switch.
pub open spec fn exclusions(names: Seq<Seq<char>>) -> Seq<Seq<char>>
    decreases names.len(),
{
    if names.len() == 0 {
        Seq::empty()
    } else {
        exclusions(names.drop_last()).push("-E"@).push(names.last())
    }
}

/// The arguments for the search below the home directory and the one for temporary
/// files. Only files are limited to those changed recently, and only if asked for.
pub open spec fn fd_args(home: Seq<char>, dir_mode: bool, recent_only: bool) -> Seq<Seq<char>> {
    let kind = if dir_mode {
        "d"@
    } else {
        "f"@
    };
    let window = if recent_only && !dir_mode {
        seq!["--changed-within"@, FILE_LOOKBACK_WINDOW@]
    } else {
        Seq::empty()
    };
    seq!["."@, home, "/tmp"@, "-t"@, kind] + window + seq!["-H"@] + exclusions(excluded())
}

fn add_arg(args: &mut Vec<String>, arg: &str)
    ensures
        text::text_views(final(args)@) == text::text_views(old(args)@).push(arg@),
{
    let ghost before = args@;
    args.push(arg.to_owned());
    proof {
        assert(text::text_views(args@) =~= text::text_views(before).push(arg@));
    }
}

/// The arguments for the search.
pub fn build_fd_args(home: &str, dir_mode: bool, recent_only: bool) -> (r: Vec<String>)
    ensures
        text::text_views(r@) == fd_args(home@, dir_mode, recent_only),
{
    let mut args: Vec<String> = Vec::new();
    proof {
        assert(text::text_views(args@) =~= Seq::<Seq<char>>::empty());
    }
    add_arg(&mut args, ".");
    add_arg(&mut args, home);
    add_arg(&mut args, "/tmp");
    add_arg(&mut args, "-t");
    add_arg(
        &mut args,
        if dir_mode {
            "d"
        } else {
            "f"
        },
    );
    if recent_only && !dir_mode {
        add_arg(&mut args, "--changed-within");
        add_arg(&mut args, FILE_LOOKBACK_WINDOW);
    }
    add_arg(&mut args, "-H");
    let names: Vec<&str> = vec![
        ".git",
        "node_modules",
        ".cache",
        ".npm",
        "target",
        "__pycache__",
        ".venv",
        "venv",
        ".cargo/registry",
        ".cargo/git",
        ".rustup",
        "go/pkg/mod",
    ];
    let ghost start = text::text_views(args@);
    let ghost all = text::str_views(names@);
    proof {
        assert(all =~= excluded());
        assert(all.take(0) =~= Seq::<Seq<char>>::empty());
        assert(start =~= start + exclusions(all.take(0)));
    }
    let mut i: usize = 0;
    while i < names.len()
        invariant
            i <= names@.len(),
            all == text::str_views(names@),
            text::text_views(args@) == start + exclusions(all.take(i as int)),
        decreases names.len() - i,
    {
        proof {
            assert(all.take(i + 1).drop_last() =~= all.take(i as int));
            assert(all.take(i + 1).last() == names@[i as int]@);
        }
        add_arg(&mut args, "-E");
        add_arg(&mut args, names[i]);
        i += 1;
        proof {
            assert(text::text_views(args@) =~= start + exclusions(all.take(i as int)));
        }
    }
    proof {
        assert(all.take(i as int) =~= all);
        assert(start + exclusions(excluded()) =~= fd_args(home@, dir_mode, recent_only));
    }
    args
}

/// The path on a line that the search printed. An empty line has none.
pub fn listed_path(line: &[u8]) -> (r: Option<String>)
    ensures
        r is None == (line@.len() == 0),
        r matches Some(path) ==> path@ == text::lossy_text(line@) && (valid_utf8(line@) ==> path@
            == decode_utf8(line@)),
{
    if line.len() == 0 {
        None
    } else {
        Some(text_from_bytes(line))
    }
}

/// How many threads look at the files that the search finds, at most.
pub const STAT_WORKER_MAX: usize = 8;

/// How many threads look at the files that the search finds, if the machine can run
/// `available` of them at once, as far as that is known.
pub fn stat_worker_count(available: Option<usize>) -> (r: usize)
    ensures
        r == match available {
            Some(n) => if n < 2 {
                2
            } else if n > STAT_WORKER_MAX {
                STAT_WORKER_MAX
            } else {
                n
            },
            None => 4,
        },
        2 <= r <= STAT_WORKER_MAX,
        r <= 8,
        available matches Some(n) && 2 <= n <= STAT_WORKER_MAX ==> r == available->0,
{
    match available {
        Some(n) => if n < 2 {
            2
        } else if n > STAT_WORKER_MAX {
            STAT_WORKER_MAX
        } else {
            n
        },
        None => 4,
    }
}

/// The window of recent files is asked for exactly in a search for recent files.
pub proof fn lemma_window_only_for_recent_files(home: Seq<char>, dir_mode: bool, recent_only: bool)
    requires
        home != "--changed-within"@,
    ensures
        fd_args(home, dir_mode, recent_only).contains("--changed-within"@) <==> recent_only
            && !dir_mode,
{
    let args = fd_args(home, dir_mode, recent_only);
    if recent_only && !dir_mode {
        assert(args[5] == "--changed-within"@);
    } else {
        reveal_strlit("--changed-within");
        reveal_strlit(".");
        reveal_strlit("/tmp");
        reveal_strlit("-t");
        reveal_strlit("d");
        reveal_strlit("f");
        reveal_strlit("-H");
        assert forall|i: int| 0 <= i < excluded().len() implies excluded().contains(
            #[trigger] excluded()[i],
        ) by {}
        lemma_exclusions_are_short(excluded());
        let rest = exclusions(excluded());
        assert forall|i: int| 0 <= i < args.len() implies args[i] != "--changed-within"@ by {
            assert("--changed-within"@.len() == 16);
            if i >= 6 {
                assert(args[i] == rest[i - 6]);
                assert(rest[i - 6].len() < 16);
            } else {
                assert(args[0] == "."@ && args[1] == home && args[2] == "/tmp"@);
                assert(args[3] == "-t"@ && args[4].len() == 1 && args[5] == "-H"@);
            }
        }
    }
}

proof fn lemma_exclusions_are_short(names: Seq<Seq<char>>)
    requires
        forall|i: int| 0 <= i < names.len() ==> excluded().contains(#[trigger] names[i]),
    ensures
        forall|i: int|
            0 <= i < exclusions(names).len() ==> (#[trigger] exclusions(names)[i]).len() < 16,
    decreases names.len(),
{
    if names.len() > 0 {
        reveal_strlit("-E");
        reveal_strlit(".git");
        reveal_strlit("node_modules");
        reveal_strlit(".cache");
        reveal_strlit(".npm");
        reveal_strlit("target");
        reveal_strlit("__pycache__");
        reveal_strlit(".venv");
        reveal_strlit("venv");
        reveal_strlit(".cargo/registry");
        reveal_strlit(".cargo/git");
        reveal_strlit(".rustup");
        reveal_strlit("go/pkg/mod");
        let init = names.drop_last();
        assert forall|i: int| 0 <= i < init.len() implies excluded().contains(
            #[trigger] init[i],
        ) by {
            assert(init[i] == names[i]);
        }
        lemma_exclusions_are_short(init);
        assert(excluded().contains(names[names.len() - 1]));
        assert(forall|k: int| 0 <= k < 12 ==> (#[trigger] excluded()[k]).len() < 16);
        let all = exclusions(names);
        let before = exclusions(init);
        assert forall|i: int| 0 <= i < all.len() implies (#[trigger] all[i]).len() < 16 by {
            if i < before.len() {
                assert(all[i] == before[i]);
            } else if i == before.len() {
                assert(all[i] == "-E"@);
            } else {
                assert(all[i] == names.last());
                let k = choose|k: int| 0 <= k < 12 && excluded()[k] == names.last();
                assert(excluded()[k].len() < 16);
            }
        }
    }
}

/// Every name that is left out stands behind a switch of its own, in its order.
pub proof fn lemma_names_behind_switches(names: Seq<Seq<char>>)
    ensures
        exclusions(names).len() == 2 * names.len(),
        forall|i: int|
            0 <= i < names.len() ==> #[trigger] exclusions(names)[2 * i] == "-E"@ && exclusions(
                names,
            )[2 * i + 1] == names[i],
    decreases names.len(),
{
    if names.len() > 0 {
        let init = names.drop_last();
        lemma_names_behind_switches(init);
        assert forall|i: int| 0 <= i < names.len() implies #[trigger] exclusions(names)[2 * i]
            == "-E"@ && exclusions(names)[2 * i + 1] == names[i] by {
            if i < init.len() {
                assert(exclusions(init)[2 * i] == "-E"@);
                assert(exclusions(names)[2 * i + 1] == exclusions(init)[2 * i + 1]);
            }
        }
    }
}

/// The search goes over the home directory and the one for temporary files, and finds
/// hidden files too. Directories are looked for if and only if they are asked for.
/// Every name that is left out is named behind a switch.
pub proof fn lemma_searched(home: Seq<char>, dir_mode: bool, recent_only: bool)
    ensures
        ({
            let args = fd_args(home, dir_mode, recent_only);
            &&& args[0] == "."@
            &&& args[1] == home
            &&& args[2] == "/tmp"@
            &&& args[3] == "-t"@
            &&& dir_mode ==> args[4] == "d"@
            &&& !dir_mode ==> args[4] == "f"@
            &&& args.contains("-H"@)
            &&& forall|k: int|
                0 <= k < excluded().len() ==> exists|j: int|
                    0 <= j < args.len() - 1 && args[j] == "-E"@ && #[trigger] args[j + 1]
                        == #[trigger] excluded()[k]
        }),
{
    let args = fd_args(home, dir_mode, recent_only);
    let start: int = if recent_only && !dir_mode {
        8
    } else {
        6
    };
    assert(args[start - 1] == "-H"@);
    lemma_names_behind_switches(excluded());
    let rest = exclusions(excluded());
    assert forall|k: int| 0 <= k < excluded().len() implies exists|j: int|
        0 <= j < args.len() - 1 && args[j] == "-E"@ && #[trigger] args[j + 1]
            == #[trigger] excluded()[k] by {
        let j = start + 2 * k;
        assert(rest[2 * k] == "-E"@);
        assert(args[j] == rest[2 * k]);
        assert(args[j + 1] == rest[2 * k + 1]);
    }
}

/// The search in directories that recent files are looked for in is the one that all
/// files are looked for in, but for the window.
pub proof fn lemma_recent_search_is_the_same(home: Seq<char>)
    ensures
        fd_args(home, false, true).take(5) == fd_args(home, false, false).take(5),
        fd_args(home, false, true).skip(7) == fd_args(home, false, false).skip(5),
        fd_args(home, false, true)[5] == "--changed-within"@,
        fd_args(home, false, true)[6] == FILE_LOOKBACK_WINDOW@,
        fd_args(home, true, true) == fd_args(home, true, false),
{
    assert(fd_args(home, false, true).take(5) =~= fd_args(home, false, false).take(5));
    assert(fd_args(home, false, true).skip(7) =~= fd_args(home, false, false).skip(5));
}

} // verus!
