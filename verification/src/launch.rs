//! How a file is opened.
use vstd::prelude::*;
use vstd::string::*;
use vstd::utf8::*;

use crate::clock::Timestamp;
use crate::files;
use crate::files::is_text_extension;
use crate::files::is_text_mime;
use crate::number;
use crate::number::parse_unsigned_text;
use crate::order;
use crate::order::sort_items;
use crate::order::Duplicate;
use crate::order::Ranking;
use crate::rank::is_empty_text;
use crate::text;
use crate::text::begins_with;
use crate::text::chars_of;
use crate::text::next_place;
use crate::text::same_text;
use crate::text::split_words;
use crate::text::string_of;
use crate::text::text_from_bytes;
use crate::text::trimmed;
use crate::text_laws;

verus! {

// ---------------------------------------------------------------------------
// Afterwards
// ---------------------------------------------------------------------------

/// What is left to be done once a file has been opened, dragged or chosen.
pub enum AfterExit {
    /// The path is noted in the history.
    Record(String),
    /// The user is told.
    Notify(String),
}

/// What is left to be done once a file has been opened, dragged or chosen: if that went
/// well its path is noted, else the user is told.
pub fn after_exit(path: String, outcome: Result<(), String>) -> (r: AfterExit)
    ensures
        match outcome {
            Ok(_) => r == AfterExit::Record(path),
            Err(e) => r matches AfterExit::Notify(message) && message@ == path@ + ": "@ + e@,
        },
        r is Record <==> outcome is Ok,
        r matches AfterExit::Record(noted) ==> noted@ == path@,
        r matches AfterExit::Notify(message) ==> path@.is_prefix_of(message@),
{
    match outcome {
        Ok(_) => AfterExit::Record(path),
        Err(e) => {
            let ghost start = path@;
            let mut message = path;
            message.append(": ");
            message.append(e.as_str());
            proof {
                assert(start =~= message@.subrange(0, start.len() as int));
            }
            AfterExit::Notify(message)
        },
    }
}

// ---------------------------------------------------------------------------
// Types of content
// ---------------------------------------------------------------------------

/// What the tool for types of content printed, and whether it succeeded.
pub struct ToolOutput {
    pub success: bool,
    pub printed: Vec<u8>,
}

/// The type of content that the tool found, or nothing.
pub open spec fn found_type(output: Option<ToolOutput>) -> Seq<char> {
    match output {
        Some(o) => if o.success {
            text::trim(text::lossy_text(o.printed@))
        } else {
            Seq::empty()
        },
        None => Seq::empty(),
    }
}

/// The type of content that the tool found, or nothing.
pub fn mime_type(output: Option<ToolOutput>) -> (r: String)
    ensures
        r@ == found_type(output),
        (output matches Some(o) && o.success && valid_utf8(o.printed@)) ==> r@ == text::trim(
            decode_utf8(output->0.printed@),
        ),
{
    match output {
        Some(o) if o.success => {
            let printed = text_from_bytes(o.printed.as_slice());
            string_of(&trimmed(&chars_of(printed.as_str())))
        },
        _ => {
            let r = String::new();
            proof {
                assert(r@ =~= Seq::<char>::empty());
            }
            r
        },
    }
}

/// Whether a file is opened as text: by the type of its content, or by its name if
/// there is no such type.
pub open spec fn opened_as_text(path: Seq<char>, mime: Seq<char>) -> bool {
    if mime.len() == 0 {
        files::named_as_text(path)
    } else {
        files::is_text_type(mime)
    }
}

/// Whether a file is opened as text.
pub fn opens_as_text(path: &str, mime_type: &str) -> (r: bool)
    ensures
        r == opened_as_text(path@, mime_type@),
{
    if is_empty_text(mime_type) {
        is_text_extension(path)
    } else {
        is_text_mime(mime_type)
    }
}

// ---------------------------------------------------------------------------
// Sockets
// ---------------------------------------------------------------------------

/// The address of a socket: what holds a colon is one, other names are paths.
pub open spec fn address_of(socket: Seq<char>) -> Seq<char> {
    if socket.contains(':') {
        socket
    } else {
        "unix:"@ + socket
    }
}

/// The address of a socket.
pub fn normalize_socket(socket: String) -> (r: String)
    ensures
        r@ == address_of(socket@),
{
    let chars = chars_of(socket.as_str());
    proof {
        text::lemma_next_index(socket@, ':', 0);
    }
    if next_place(&chars, ':', 0).is_some() {
        socket
    } else {
        unix_address(socket.as_str())
    }
}

fn unix_address(path: &str) -> (r: String)
    ensures
        r@ == "unix:"@ + path@,
{
    let mut r = String::new();
    r.append("unix:");
    r.append(path);
    proof {
        assert(r@ =~= "unix:"@ + path@);
    }
    r
}

/// The address of a socket holds a colon, so that taking the address again changes
/// nothing.
pub proof fn lemma_address_is_stable(socket: Seq<char>)
    ensures
        address_of(address_of(socket)) == address_of(socket),
{
    if !socket.contains(':') {
        reveal_strlit("unix:");
        let a = "unix:"@ + socket;
        assert(a[4] == ':');
    }
}

/// A file beside others: whether it is a socket and when it was modified, as far as
/// that could be found out.
pub struct NearbyFile {
    pub name: String,
    pub path: String,
    pub is_socket: Option<bool>,
    pub modified: Option<Timestamp>,
}

/// A socket, with the time of its last change.
pub struct FoundSocket {
    pub modified: Timestamp,
    pub path: String,
}

impl Duplicate for FoundSocket {
    fn duplicate(&self) -> (r: Self) {
        FoundSocket { modified: self.modified, path: self.path.clone() }
    }
}

/// A socket by its time and path.
pub type SocketView = (Timestamp, Seq<char>);

/// The views of some sockets.
pub open spec fn socket_views(sockets: Seq<FoundSocket>) -> Seq<SocketView> {
    sockets.map_values(|s: FoundSocket| (s.modified, s.path@))
}

/// Whether a file is a socket of the terminal.
pub open spec fn is_kitty_socket(file: NearbyFile) -> bool {
    "kitty.sock-"@.is_prefix_of(file.name@) && file.is_socket == Some(true)
}

/// The sockets of the terminal among some files.
pub open spec fn kitty_sockets(files: Seq<NearbyFile>) -> Seq<SocketView>
    decreases files.len(),
{
    if files.len() == 0 {
        Seq::empty()
    } else {
        let before = kitty_sockets(files.drop_last());
        let file = files.last();
        if is_kitty_socket(file) {
            before.push(
                (
                    match file.modified {
                        Some(t) => t,
                        None => Timestamp { nanos: 0 },
                    },
                    file.path@,
                ),
            )
        } else {
            before
        }
    }
}

/// The sockets of the terminal among some files.
pub fn find_kitty_sockets(files: &Vec<NearbyFile>) -> (r: Vec<FoundSocket>)
    ensures
        socket_views(r@) == kitty_sockets(files@),
{
    let prefix = chars_of("kitty.sock-");
    let mut r: Vec<FoundSocket> = Vec::new();
    let mut i: usize = 0;
    proof {
        assert(socket_views(r@) =~= kitty_sockets(files@.take(0)));
    }
    while i < files.len()
        invariant
            i <= files@.len(),
            prefix@ == "kitty.sock-"@,
            socket_views(r@) == kitty_sockets(files@.take(i as int)),
        decreases files.len() - i,
    {
        let file = &files[i];
        proof {
            assert(files@.take(i + 1).drop_last() =~= files@.take(i as int));
            assert(files@.take(i + 1).last() == *file);
        }
        let is_socket = match file.is_socket {
            Some(b) => b,
            None => false,
        };
        if is_socket && begins_with(&chars_of(file.name.as_str()), &prefix) {
            let ghost before = r@;
            let modified = match file.modified {
                Some(t) => t,
                None => Timestamp { nanos: 0 },
            };
            r.push(FoundSocket { modified, path: file.path.clone() });
            proof {
                assert(socket_views(r@) =~= socket_views(before).push((modified, file.path@)));
            }
        }
        i += 1;
    }
    proof {
        assert(files@.take(i as int) =~= files@);
    }
    r
}

/// The order of sockets by time, the oldest first.
pub open spec fn older() -> spec_fn(FoundSocket, FoundSocket) -> bool {
    |a: FoundSocket, b: FoundSocket| a.modified.nanos < b.modified.nanos
}

struct ByAge;

impl Ranking<FoundSocket> for ByAge {
    closed spec fn accepts(&self, item: FoundSocket) -> bool {
        true
    }

    closed spec fn before(&self) -> spec_fn(FoundSocket, FoundSocket) -> bool {
        older()
    }

    proof fn strict_weak_order(&self) {
    }

    fn is_before(&self, a: &FoundSocket, b: &FoundSocket) -> (r: bool) {
        a.modified.nanos < b.modified.nanos
    }
}

/// A list of addresses with those of some sockets behind it, from the last socket to
/// the first, each once.
pub open spec fn with_sockets(list: Seq<Seq<char>>, sockets: Seq<FoundSocket>) -> Seq<Seq<char>>
    decreases sockets.len(),
{
    if sockets.len() == 0 {
        list
    } else {
        let address = "unix:"@ + sockets.last().path@;
        with_sockets(
            if list.contains(address) {
                list
            } else {
                list.push(address)
            },
            sockets.drop_last(),
        )
    }
}

/// The addresses to try: the one that is set, then those of the sockets that were
/// found, the latest first.
pub open spec fn addresses(set: Option<Seq<char>>, sockets: Seq<FoundSocket>) -> Seq<Seq<char>> {
    with_sockets(
        match set {
            Some(socket) => seq![address_of(socket)],
            None => Seq::empty(),
        },
        order::ranked(sockets, older()),
    )
}

/// The first of two settings that is there.
pub open spec fn first_setting(first: Option<String>, second: Option<String>) -> Option<Seq<char>> {
    match first {
        Some(s) => Some(s@),
        None => match second {
            Some(s) => Some(s@),
            None => None,
        },
    }
}

fn is_listed(list: &Vec<String>, address: &str) -> (r: bool)
    ensures
        r == text::text_views(list@).contains(address@),
{
    let ghost all = text::text_views(list@);
    let mut i: usize = 0;
    while i < list.len()
        invariant
            i <= list@.len(),
            all == text::text_views(list@),
            forall|j: int| 0 <= j < i ==> all[j] != address@,
        decreases list.len() - i,
    {
        if same_text(list[i].as_str(), address) {
            proof {
                assert(all[i as int] == address@);
            }
            return true;
        }
        i += 1;
    }
    false
}

/// The addresses to try for opening a file in the terminal.
pub fn kitty_socket_candidates(
    first: Option<String>,
    second: Option<String>,
    sockets: Vec<FoundSocket>,
) -> (r: Vec<String>)
    ensures
        text::text_views(r@) == addresses(first_setting(first, second), sockets@),
{
    let ghost set = first_setting(first, second);
    let mut r: Vec<String> = Vec::new();
    let setting = match first {
        Some(s) => Some(s),
        None => second,
    };
    if let Some(socket) = setting {
        r.push(normalize_socket(socket));
    }
    let sorted = sort_items(&ByAge, &sockets);
    let ghost start = text::text_views(r@);
    proof {
        assert(start =~= match set {
            Some(socket) => seq![address_of(socket)],
            None => Seq::empty(),
        });
        assert(sorted@.take(sorted@.len() as int) =~= sorted@);
    }
    let mut n: usize = sorted.len();
    while n > 0
        invariant
            n <= sorted@.len(),
            with_sockets(start, sorted@) == with_sockets(
                text::text_views(r@),
                sorted@.take(n as int),
            ),
        decreases n,
    {
        let address = unix_address(sorted[n - 1].path.as_str());
        proof {
            assert(sorted@.take(n as int).drop_last() =~= sorted@.take(n - 1));
            assert(sorted@.take(n as int).last() == sorted@[n - 1]);
        }
        if !is_listed(&r, address.as_str()) {
            let ghost before = r@;
            r.push(address);
            proof {
                assert(text::text_views(r@) =~= text::text_views(before).push(address@));
            }
        }
        n -= 1;
    }
    r
}

/// No address is tried twice.
pub proof fn lemma_addresses_once(list: Seq<Seq<char>>, sockets: Seq<FoundSocket>)
    requires
        list.no_duplicates(),
    ensures
        with_sockets(list, sockets).no_duplicates(),
    decreases sockets.len(),
{
    if sockets.len() > 0 {
        let address = "unix:"@ + sockets.last().path@;
        let next = if list.contains(address) {
            list
        } else {
            list.push(address)
        };
        assert(next.no_duplicates());
        lemma_addresses_once(next, sockets.drop_last());
    }
}

// ---------------------------------------------------------------------------
// Memory
// ---------------------------------------------------------------------------

/// How many kilobytes of memory the process holds, by what the system says of it: the
/// second word, in pages of four.
pub open spec fn resident_kb(statm: Option<Seq<char>>) -> int {
    match statm {
        Some(s) => {
            let words = text::words(s);
            if words.len() < 2 {
                0
            } else {
                match number::parse_unsigned(words[1], usize::MAX as int) {
                    Some(pages) => 4 * pages,
                    None => 0,
                }
            }
        },
        None => 0,
    }
}

/// What was read, if anything.
pub open spec fn read_view(statm: Option<String>) -> Option<Seq<char>> {
    match statm {
        Some(s) => Some(s@),
        None => None,
    }
}

/// How many kilobytes of memory the process holds.
pub fn get_rss_kb(statm: Option<String>) -> (r: u128)
    ensures
        r == resident_kb(read_view(statm)),
{
    match statm {
        Some(s) => {
            let words = split_words(&chars_of(s.as_str()));
            let ghost all = text::words(s@);
            proof {
                assert(all.len() == words@.len());
            }
            if words.len() < 2 {
                return 0;
            }
            proof {
                assert(all[1] == words@[1]@);
            }
            match parse_unsigned_text(&words[1], usize::MAX as u64) {
                Some(pages) => pages as u128 * 4,
                None => 0,
            }
        },
        None => 0,
    }
}

// ---------------------------------------------------------------------------
// What holds of opening
// ---------------------------------------------------------------------------

/// The type of content decides, whatever the name. Only without one the name does.
pub proof fn lemma_type_decides(path: Seq<char>, other: Seq<char>, mime: Seq<char>)
    ensures
        mime.len() > 0 ==> (opened_as_text(path, mime) <==> opened_as_text(other, mime)),
        mime.len() > 0 ==> (opened_as_text(path, mime) <==> files::is_text_type(mime)),
        opened_as_text(path, Seq::empty()) <==> files::named_as_text(path),
{
}

/// A name without a colon is a path, and what holds one is an address already.
pub proof fn lemma_address(path: Seq<char>, scheme: Seq<char>, rest: Seq<char>)
    requires
        !path.contains(':'),
    ensures
        address_of(path) == "unix:"@ + path,
        address_of(scheme.push(':') + rest) == scheme.push(':') + rest,
{
    assert((scheme.push(':') + rest)[scheme.len() as int] == ':');
}

/// Whether a file is a socket of the terminal at a path.
pub open spec fn is_socket_at(file: NearbyFile, path: Seq<char>) -> bool {
    &&& "kitty.sock-"@.is_prefix_of(file.name@)
    &&& file.is_socket == Some(true)
    &&& file.path@ == path
}

/// A socket of the terminal is found, with its time, and nothing else is.
pub proof fn lemma_sockets_are_found(files: Seq<NearbyFile>)
    ensures
        forall|k: int|
            0 <= k < files.len() && "kitty.sock-"@.is_prefix_of((#[trigger] files[k]).name@)
                && files[k].is_socket == Some(true) ==> kitty_sockets(files).contains(
                (
                    match files[k].modified {
                        Some(t) => t,
                        None => Timestamp { nanos: 0 },
                    },
                    files[k].path@,
                ),
            ),
        forall|i: int|
            0 <= i < kitty_sockets(files).len() ==> exists|k: int|
                0 <= k < files.len() && is_socket_at(
                    #[trigger] files[k],
                    (#[trigger] kitty_sockets(files)[i]).1,
                ),
    decreases files.len(),
{
    if files.len() > 0 {
        let init = files.drop_last();
        lemma_sockets_are_found(init);
        let (all, before) = (kitty_sockets(files), kitty_sockets(init));
        assert forall|k: int|
            0 <= k < files.len() && "kitty.sock-"@.is_prefix_of((#[trigger] files[k]).name@)
                && files[k].is_socket == Some(true) implies all.contains(
            (
                match files[k].modified {
                    Some(t) => t,
                    None => Timestamp { nanos: 0 },
                },
                files[k].path@,
            ),
        ) by {
            let v = (
                match files[k].modified {
                    Some(t) => t,
                    None => Timestamp { nanos: 0 },
                },
                files[k].path@,
            );
            if k < init.len() {
                assert(init[k] == files[k]);
                assert(before.contains(v));
                let j = before.index_of(v);
                assert(all[j] == v);
            } else {
                assert(all.last() == v);
            }
        }
        assert forall|i: int| 0 <= i < all.len() implies exists|k: int|
            0 <= k < files.len() && is_socket_at(#[trigger] files[k], (#[trigger] all[i]).1) by {
            if i < before.len() {
                assert(all[i] == before[i]);
                let k = choose|k: int|
                    0 <= k < init.len() && is_socket_at(#[trigger] init[k], before[i].1);
                assert(files[k] == init[k]);
            } else {
                let k = files.len() - 1;
                assert(is_socket_at(files[k], all[i].1));
            }
        }
    }
}

proof fn lemma_with_new_sockets(list: Seq<Seq<char>>, sockets: Seq<FoundSocket>)
    requires
        forall|i: int, j: int|
            0 <= i < j < sockets.len() ==> (#[trigger] sockets[i]).path@ != (
            #[trigger] sockets[j]).path@,
        forall|i: int|
            0 <= i < sockets.len() ==> !list.contains("unix:"@ + (#[trigger] sockets[i]).path@),
    ensures
        with_sockets(list, sockets).len() == list.len() + sockets.len(),
        forall|i: int|
            0 <= i < list.len() ==> #[trigger] with_sockets(list, sockets)[i] == list[i],
        forall|p: int|
            0 <= p < sockets.len() ==> with_sockets(list, sockets)[list.len() + sockets.len() - 1
                - p] == "unix:"@ + (#[trigger] sockets[p]).path@,
    decreases sockets.len(),
{
    if sockets.len() > 0 {
        let init = sockets.drop_last();
        let address = "unix:"@ + sockets.last().path@;
        let next = list.push(address);
        assert(!list.contains("unix:"@ + sockets[sockets.len() - 1].path@));
        assert forall|i: int| 0 <= i < init.len() implies !next.contains(
            "unix:"@ + (#[trigger] init[i]).path@,
        ) by {
            let a = "unix:"@ + init[i].path@;
            assert(init[i] == sockets[i]);
            assert(sockets[i].path@ != sockets[sockets.len() - 1].path@);
            if a == address {
                assert(a.skip(5) =~= init[i].path@) by {
                    reveal_strlit("unix:");
                }
                assert(address.skip(5) =~= sockets.last().path@) by {
                    reveal_strlit("unix:");
                }
            }
            assert(!list.contains(a));
            if next.contains(a) {
                let k = next.index_of(a);
                if k < list.len() {
                    assert(list[k] == a);
                }
            }
        }
        assert forall|i: int, j: int| 0 <= i < j < init.len() implies (#[trigger] init[i]).path@
            != (#[trigger] init[j]).path@ by {
            assert(init[i] == sockets[i] && init[j] == sockets[j]);
        }
        lemma_with_new_sockets(next, init);
        let all = with_sockets(list, sockets);
        assert(all == with_sockets(next, init));
        assert forall|i: int| 0 <= i < list.len() implies #[trigger] all[i] == list[i] by {
            assert(all[i] == next[i]);
        }
        assert forall|p: int| 0 <= p < sockets.len() implies all[list.len() + sockets.len() - 1
            - p] == "unix:"@ + (#[trigger] sockets[p]).path@ by {
            if p < init.len() {
                assert(init[p] == sockets[p]);
                assert(next.len() + init.len() - 1 - p == list.len() + sockets.len() - 1 - p);
            } else {
                assert(all[list.len() as int] == next[list.len() as int]);
            }
        }
    }
}

/// The address that is set is tried first. Behind it all sockets are tried, one that
/// was changed later before one that was changed earlier.
pub proof fn lemma_latest_socket_first(
    set: Option<Seq<char>>,
    sockets: Seq<FoundSocket>,
    s: int,
    t: int,
)
    requires
        sockets.len() <= usize::MAX,
        forall|i: int, j: int|
            0 <= i < j < sockets.len() ==> (#[trigger] sockets[i]).path@ != (
            #[trigger] sockets[j]).path@,
        set matches Some(socket) ==> forall|i: int|
            0 <= i < sockets.len() ==> address_of(socket) != "unix:"@ + (
            #[trigger] sockets[i]).path@,
        0 <= s < sockets.len(),
        0 <= t < sockets.len(),
        sockets[s].modified.nanos > sockets[t].modified.nanos,
    ensures
        set matches Some(socket) ==> addresses(set, sockets)[0] == address_of(socket),
        addresses(set, sockets).len() == sockets.len() + (if set is Some {
            1int
        } else {
            0
        }),
        exists|i: int, j: int|
            0 <= i < j < addresses(set, sockets).len() && #[trigger] addresses(set, sockets)[i]
                == "unix:"@ + sockets[s].path@ && #[trigger] addresses(set, sockets)[j] == "unix:"@
                + sockets[t].path@,
{
    broadcast use vstd::seq_lib::group_to_multiset_ensures;

    let r = order::ranked(sockets, older());
    let list = match set {
        Some(socket) => seq![address_of(socket)],
        None => Seq::empty(),
    };
    let all = addresses(set, sockets);
    let key = |f: FoundSocket| f.path@;
    assert(order::strict_weak(older()));
    assert forall|i: int, j: int| 0 <= i < j < sockets.len() implies key(#[trigger] sockets[i])
        != key(#[trigger] sockets[j]) by {
        assert(sockets[i].path@ != sockets[j].path@);
    }
    order::lemma_ranked(sockets, older());
    order::lemma_ranked_distinct(sockets, older(), key);
    assert forall|i: int, j: int| 0 <= i < j < r.len() implies (#[trigger] r[i]).path@ != (
    #[trigger] r[j]).path@ by {
        assert(key(r[i]) != key(r[j]));
    }
    assert forall|i: int| 0 <= i < r.len() implies !list.contains(
        "unix:"@ + (#[trigger] r[i]).path@,
    ) by {
        assert(sockets.contains(r[i]));
        let k = sockets.index_of(r[i]);
        assert(sockets[k] == r[i]);
        if list.contains("unix:"@ + r[i].path@) {
            assert(list[0] == "unix:"@ + sockets[k].path@);
        }
    }
    lemma_with_new_sockets(list, r);
    assert(sockets.contains(sockets[s]) && sockets.contains(sockets[t]));
    assert(r.to_multiset().count(sockets[s]) > 0);
    assert(r.to_multiset().count(sockets[t]) > 0);
    assert(r.contains(sockets[s]));
    assert(r.contains(sockets[t]));
    let p = r.index_of(sockets[s]);
    let q = r.index_of(sockets[t]);
    if p < q {
        assert(!older()(r[q], r[p]));
    }
    assert(p > q);
    let (i, j) = (list.len() + r.len() - 1 - p, list.len() + r.len() - 1 - q);
    assert(all[i] == "unix:"@ + r[p].path@);
    assert(all[j] == "unix:"@ + r[q].path@);
}

/// Of what the system says, the second number counts, in pages of four kilobytes.
pub proof fn lemma_resident_pages(first: Seq<char>, pages: nat, rest: Seq<char>)
    requires
        first.len() > 0,
        text_laws::is_solid(first),
        pages <= usize::MAX,
    ensures
        resident_kb(Some(first.push(' ') + (number::decimal(pages).push(' ') + rest))) == 4 * pages,
        resident_kb(Some(first)) == 0,
        resident_kb(None) == 0,
{
    let d = number::decimal(pages);
    number::lemma_decimal_digits(pages);
    text_laws::lemma_whitespace(' ');
    assert forall|i: int| 0 <= i < d.len() implies !text::is_whitespace(#[trigger] d[i]) by {
        assert(number::is_digit(d[i]));
        text_laws::lemma_whitespace(d[i]);
    }
    text_laws::lemma_words(first, ' ', d.push(' ') + rest, first);
    text_laws::lemma_words(d, ' ', rest, d);
    let words = text::words(first.push(' ') + (d.push(' ') + rest));
    assert(words =~= seq![first] + (seq![d] + text::words(rest)));
    assert(words[1] == d);
    number::lemma_decimal_round_trip(pages, usize::MAX as int);
}

/// The first setting counts where it is there, whatever the second is.
pub proof fn lemma_first_setting_counts(first: String, second: Option<String>, other: String)
    ensures
        first_setting(Some(first), second) == Some(first@),
        first_setting(None, Some(other)) == Some(other@),
        first_setting(None, None) is None,
{
}

} // verus!
