//! When files were last used: an index by path, and its form on disk.
use vstd::hash_map::StringHashMap;
use vstd::prelude::*;
use vstd::string::*;

use crate::clock;
use crate::clock::system_time_to_unix_secs;
use crate::clock::unix_secs_to_system_time;
use crate::clock::Timestamp;
use crate::number;
use crate::number::parse_unsigned_text;
use crate::number::push_decimal;
use crate::order;
use crate::paths;
use crate::paths::normalized_path_key_with_cwd;
use crate::order::sort_items;
use crate::order::Duplicate;
use crate::order::Ranking;
use crate::text;
use crate::text::chars_of;
use crate::text::next_place;
use crate::text::split_lines;
use crate::text::string_of;
use crate::text::sub_chars;
use crate::text::text_before;

verus! {

/// How many paths the history on disk keeps.
pub const HISTORY_MAX_ENTRIES: usize = 5000;

/// A path and when it was last used.
pub struct TimedPath {
    pub path: String,
    pub time: Timestamp,
}

impl Duplicate for TimedPath {
    fn duplicate(&self) -> (r: Self) {
        TimedPath { path: self.path.clone(), time: self.time }
    }
}

impl View for TimedPath {
    type V = (Seq<char>, Timestamp);

    open spec fn view(&self) -> (Seq<char>, Timestamp) {
        (self.path@, self.time)
    }
}

/// The views of a list of paths with times.
pub open spec fn timed_views(v: Seq<TimedPath>) -> Seq<(Seq<char>, Timestamp)> {
    v.map_values(|e: TimedPath| e@)
}

// ---------------------------------------------------------------------------
// The index
// ---------------------------------------------------------------------------

/// Where a path stands in a list.
pub open spec fn slot(list: Seq<(Seq<char>, Timestamp)>, path: Seq<char>) -> Option<int>
    decreases list.len(),
{
    if list.len() == 0 {
        None
    } else if list.last().0 == path {
        Some(list.len() - 1)
    } else {
        slot(list.drop_last(), path)
    }
}

/// The time of a path in a list.
pub open spec fn time_in(list: Seq<(Seq<char>, Timestamp)>, path: Seq<char>) -> Option<Timestamp> {
    match slot(list, path) {
        Some(i) => Some(list[i].1),
        None => None,
    }
}

/// A list with the time of a path set.
pub open spec fn with_time(
    list: Seq<(Seq<char>, Timestamp)>,
    path: Seq<char>,
    time: Timestamp,
) -> Seq<(Seq<char>, Timestamp)> {
    match slot(list, path) {
        Some(i) => list.update(i, (path, time)),
        None => list.push((path, time)),
    }
}

/// A list with a time of a path noted: the latest counts.
pub open spec fn with_latest(
    list: Seq<(Seq<char>, Timestamp)>,
    path: Seq<char>,
    time: Timestamp,
) -> Seq<(Seq<char>, Timestamp)> {
    match time_in(list, path) {
        Some(known) => if time.nanos > known.nanos {
            with_time(list, path, time)
        } else {
            list
        },
        None => with_time(list, path, time),
    }
}

/// Whether no path stands in a list twice.
pub open spec fn distinct_paths(list: Seq<(Seq<char>, Timestamp)>) -> bool {
    forall|i: int, j: int|
        0 <= i < j < list.len() ==> (#[trigger] list[i]).0 != (#[trigger] list[j]).0
}

pub proof fn lemma_slot(list: Seq<(Seq<char>, Timestamp)>, path: Seq<char>)
    ensures
        slot(list, path) matches Some(i) ==> 0 <= i < list.len() && list[i].0 == path,
        slot(list, path) is None ==> forall|i: int|
            0 <= i < list.len() ==> (#[trigger] list[i]).0 != path,
    decreases list.len(),
{
    if list.len() > 0 && list.last().0 != path {
        lemma_slot(list.drop_last(), path);
        assert forall|i: int| 0 <= i < list.len() && slot(list, path) is None implies (
        #[trigger] list[i]).0 != path by {
            if i < list.len() - 1 {
                assert(list.drop_last()[i] == list[i]);
            }
        }
    }
}

pub proof fn lemma_slot_unique(list: Seq<(Seq<char>, Timestamp)>, path: Seq<char>, i: int)
    requires
        distinct_paths(list),
        0 <= i < list.len(),
        list[i].0 == path,
    ensures
        slot(list, path) == Some(i),
{
    lemma_slot(list, path);
}

/// Setting the time of a path keeps the paths distinct, gives that path the time
/// and leaves the others alone.
pub proof fn lemma_with_time(
    list: Seq<(Seq<char>, Timestamp)>,
    path: Seq<char>,
    time: Timestamp,
    other: Seq<char>,
)
    requires
        distinct_paths(list),
    ensures
        distinct_paths(with_time(list, path, time)),
        time_in(with_time(list, path, time), path) == Some(time),
        other != path ==> time_in(with_time(list, path, time), other) == time_in(list, other),
{
    let out = with_time(list, path, time);
    lemma_slot(list, path);
    lemma_slot(list, other);
    lemma_slot(out, path);
    lemma_slot(out, other);
    assert forall|i: int, j: int| 0 <= i < j < out.len() implies (#[trigger] out[i]).0 != (
    #[trigger] out[j]).0 by {
        if i < list.len() {
            assert(list[i].0 == list[i].0);
        }
        if j < list.len() {
            assert(list[j].0 == list[j].0);
        }
    }
    match slot(list, path) {
        Some(i) => {
            assert(out[i].0 == path);
            lemma_slot_unique(out, path, i);
        },
        None => {
            assert(out[list.len() as int].0 == path);
            lemma_slot_unique(out, path, list.len() as int);
        },
    }
    if other != path {
        match slot(list, other) {
            Some(k) => {
                assert(out[k].0 == other);
                lemma_slot_unique(out, other, k);
            },
            None => {
                if let Some(k) = slot(out, other) {
                    assert(out[k].0 == other);
                    if k < list.len() {
                        assert(list[k].0 != other);
                    }
                }
            },
        }
    }
}

/// Times by path. Paths keep the order in which they first came.
pub struct TimeIndex {
    entries: Vec<TimedPath>,
    slots: StringHashMap<usize>,
}

impl View for TimeIndex {
    type V = Seq<(Seq<char>, Timestamp)>;

    closed spec fn view(&self) -> Seq<(Seq<char>, Timestamp)> {
        timed_views(self.entries@)
    }
}

impl TimeIndex {
    /// Whether no path occurs twice and each is found where it stands.
    pub closed spec fn wf(&self) -> bool {
        &&& distinct_paths(self@)
        &&& forall|path: Seq<char>| #[trigger]
            self.slots@.contains_key(path) ==> slot(self@, path) == Some(self.slots@[path] as int)
        &&& forall|path: Seq<char>| #[trigger]
            self.slots@.contains_key(path) <== slot(self@, path) is Some
    }

    /// An index without paths.
    pub fn new() -> (r: Self)
        ensures
            r.wf(),
            r@ == Seq::<(Seq<char>, Timestamp)>::empty(),
    {
        let r = TimeIndex { entries: Vec::new(), slots: StringHashMap::new() };
        proof {
            assert(r@ =~= Seq::<(Seq<char>, Timestamp)>::empty());
        }
        r
    }

    /// Whether there are no paths.
    pub fn is_empty(&self) -> (r: bool)
        ensures
            r == (self@.len() == 0),
    {
        self.entries.len() == 0
    }

    /// The time of a path.
    pub fn get(&self, path: &str) -> (r: Option<Timestamp>)
        requires
            self.wf(),
        ensures
            r == time_in(self@, path@),
    {
        proof {
            lemma_slot(self@, path@);
        }
        match self.slots.get(path) {
            Some(i) => Some(self.entries[*i].time),
            None => None,
        }
    }

    /// Sets the time of a path.
    pub fn insert(&mut self, path: String, time: Timestamp)
        requires
            old(self).wf(),
        ensures
            final(self).wf(),
            final(self)@ == with_time(old(self)@, path@, time),
    {
        let ghost list = self@;
        let ghost slots = self.slots@;
        proof {
            assert(list.len() == self.entries.len());
            lemma_slot(list, path@);
            lemma_with_time(list, path@, time, path@);
        }
        let known: Option<usize> = match self.slots.get(path.as_str()) {
            Some(i) => Some(*i),
            None => None,
        };
        match known {
            Some(i) => {
                let ghost key = path@;
                self.entries.set(i, TimedPath { path, time });
                proof {
                    assert(self@ =~= with_time(list, key, time));
                    lemma_slots_after(list, key, time, slots, slots);
                }
            },
            None => {
                let i: usize = self.entries.len();
                let key = path.clone();
                self.slots.insert(key, i);
                let ghost key = path@;
                self.entries.push(TimedPath { path, time });
                proof {
                    assert(self@ =~= with_time(list, key, time));
                    lemma_slots_after(list, key, time, slots, self.slots@);
                }
            },
        }
    }

    /// Notes a time of a path: the latest counts.
    pub fn note(&mut self, path: String, time: Timestamp)
        requires
            old(self).wf(),
        ensures
            final(self).wf(),
            final(self)@ == with_latest(old(self)@, path@, time),
    {
        match self.get(path.as_str()) {
            Some(known) => {
                if time.nanos > known.nanos {
                    self.insert(path, time);
                }
            },
            None => {
                self.insert(path, time);
            },
        }
    }

    /// All paths with their times, in the order in which they first came.
    pub fn entries(&self) -> (r: &Vec<TimedPath>)
        ensures
            timed_views(r@) == self@,
    {
        &self.entries
    }

    /// All paths with their times, in the order in which they first came.
    pub fn into_entries(self) -> (r: Vec<TimedPath>)
        ensures
            timed_views(r@) == self@,
    {
        self.entries
    }

    /// A copy of the index.
    pub fn copy(&self) -> (r: TimeIndex)
        requires
            self.wf(),
        ensures
            r.wf(),
            r@ == self@,
    {
        let mut r = TimeIndex::new();
        let mut i: usize = 0;
        proof {
            assert(self@.take(0) =~= r@);
        }
        while i < self.entries.len()
            invariant
                i <= self.entries@.len(),
                self.wf(),
                r.wf(),
                r@ == self@.take(i as int),
            decreases self.entries.len() - i,
        {
            let e = &self.entries[i];
            proof {
                let done = self@.take(i as int);
                lemma_slot(done, e.path@);
                if let Some(k) = slot(done, e.path@) {
                    assert(self@[k].0 == self@[i as int].0);
                }
                assert(self@.take(i + 1) =~= done.push((e.path@, e.time)));
            }
            r.insert(e.path.clone(), e.time);
            i += 1;
        }
        proof {
            assert(self@.take(self@.len() as int) =~= self@);
        }
        r
    }
}

proof fn lemma_slots_after(
    list: Seq<(Seq<char>, Timestamp)>,
    path: Seq<char>,
    time: Timestamp,
    slots: Map<Seq<char>, usize>,
    after: Map<Seq<char>, usize>,
)
    requires
        distinct_paths(list),
        list.len() <= usize::MAX,
        forall|p: Seq<char>| #[trigger]
            slots.contains_key(p) ==> slot(list, p) == Some(slots[p] as int),
        forall|p: Seq<char>| #[trigger] slots.contains_key(p) <== slot(list, p) is Some,
        slot(list, path) is Some ==> after == slots,
        slot(list, path) is None ==> after == slots.insert(path, list.len() as usize),
    ensures
        forall|p: Seq<char>| #[trigger]
            after.contains_key(p) ==> slot(with_time(list, path, time), p) == Some(after[p] as int),
        forall|p: Seq<char>| #[trigger]
            after.contains_key(p) <== slot(with_time(list, path, time), p) is Some,
{
    let out = with_time(list, path, time);
    lemma_with_time(list, path, time, path);
    lemma_slot(list, path);
    assert forall|p: Seq<char>| #[trigger] after.contains_key(p) implies slot(out, p) == Some(
        after[p] as int,
    ) by {
        lemma_slot(list, p);
        let i = after[p] as int;
        assert(out[i].0 == p);
        lemma_slot_unique(out, p, i);
    }
    assert forall|p: Seq<char>| slot(out, p) is Some implies #[trigger] after.contains_key(p) by {
        lemma_slot(out, p);
        lemma_slot(list, p);
        let i = slot(out, p)->0;
        assert(out[i].0 == p);
        if i < list.len() {
            assert(list[i].0 == p);
        }
    }
}

// ---------------------------------------------------------------------------
// Escaping
// ---------------------------------------------------------------------------

/// How a character of a path is written in the history.
pub open spec fn escaped_char(c: char) -> Seq<char> {
    if c == '\\' {
        seq!['\\', '\\']
    } else if c == '\t' {
        seq!['\\', 't']
    } else if c == '\n' {
        seq!['\\', 'n']
    } else if c == '\r' {
        seq!['\\', 'r']
    } else {
        seq![c]
    }
}

/// How a path is written in the history.
pub open spec fn escaped(s: Seq<char>) -> Seq<char>
    decreases s.len(),
{
    if s.len() == 0 {
        Seq::empty()
    } else {
        escaped(s.drop_last()) + escaped_char(s.last())
    }
}

/// What a backslash and the character behind it stand for.
pub open spec fn unescaped_pair(c: char) -> Seq<char> {
    if c == 't' {
        seq!['\t']
    } else if c == 'n' {
        seq!['\n']
    } else if c == 'r' {
        seq!['\r']
    } else if c == '\\' {
        seq!['\\']
    } else {
        seq!['\\', c]
    }
}

/// The path that is written so in the history.
pub open spec fn unescaped(s: Seq<char>) -> Seq<char>
    decreases s.len(),
{
    if s.len() == 0 {
        Seq::empty()
    } else if s[0] != '\\' {
        seq![s[0]] + unescaped(s.drop_first())
    } else if s.len() == 1 {
        seq!['\\']
    } else {
        unescaped_pair(s[1]) + unescaped(s.skip(2))
    }
}

/// Writes a path so that it stands on one line and has no tab.
pub fn escape_history_path(path: &str) -> (r: String)
    ensures
        r@ == escaped(path@),
{
    let chars = chars_of(path);
    let mut r = String::new();
    let mut i: usize = 0;
    while i < chars.len()
        invariant
            i <= chars@.len(),
            r@ == escaped(chars@.take(i as int)),
        decreases chars.len() - i,
    {
        let ghost before = r@;
        let c = chars[i];
        proof {
            assert(chars@.take(i + 1).drop_last() =~= chars@.take(i as int));
        }
        if c == '\\' {
            r.push('\\');
            r.push('\\');
        } else if c == '\t' {
            r.push('\\');
            r.push('t');
        } else if c == '\n' {
            r.push('\\');
            r.push('n');
        } else if c == '\r' {
            r.push('\\');
            r.push('r');
        } else {
            r.push(c);
        }
        proof {
            assert(r@ =~= before + escaped_char(c));
        }
        i += 1;
    }
    proof {
        assert(chars@.take(chars@.len() as int) =~= chars@);
    }
    r
}

/// Reads a path as `escape_history_path` writes it.
pub fn unescape_history_path(path: &str) -> (r: String)
    ensures
        r@ == unescaped(path@),
{
    let chars = chars_of(path);
    let out = unescape_chars(chars.as_slice(), 0);
    proof {
        assert(path@.skip(0) =~= path@);
    }
    string_of(out.as_slice())
}

fn unescape_chars(chars: &[char], from: usize) -> (r: Vec<char>)
    requires
        from <= chars@.len(),
    ensures
        r@ == unescaped(chars@.skip(from as int)),
{
    let size: usize = chars.len();
    let mut r: Vec<char> = Vec::new();
    let mut i: usize = from;
    proof {
        assert(r@ + unescaped(chars@.skip(i as int)) =~= unescaped(chars@.skip(from as int)));
    }
    while i < size
        invariant
            from <= i <= size == chars@.len(),
            unescaped(chars@.skip(from as int)) == r@ + unescaped(chars@.skip(i as int)),
        decreases size - i,
    {
        let ghost before = r@;
        let ghost rest = chars@.skip(i as int);
        let c = chars[i];
        if c != '\\' {
            r.push(c);
            proof {
                assert(rest.drop_first() =~= chars@.skip(i + 1));
                assert(r@ + unescaped(chars@.skip(i + 1)) =~= before + (seq![c] + unescaped(
                    rest.drop_first(),
                )));
            }
            i += 1;
        } else if i + 1 == size {
            r.push('\\');
            proof {
                assert(chars@.skip(i + 1) =~= Seq::<char>::empty());
                assert(r@ + unescaped(chars@.skip(i + 1)) =~= before + seq!['\\']);
            }
            i += 1;
        } else {
            let d = chars[i + 1];
            if d == 't' {
                r.push('\t');
            } else if d == 'n' {
                r.push('\n');
            } else if d == 'r' {
                r.push('\r');
            } else if d == '\\' {
                r.push('\\');
            } else {
                r.push('\\');
                r.push(d);
            }
            proof {
                assert(rest.skip(2) =~= chars@.skip(i + 2));
                assert(r@ =~= before + unescaped_pair(d));
                assert(r@ + unescaped(chars@.skip(i + 2)) =~= before + (unescaped_pair(d)
                    + unescaped(rest.skip(2))));
            }
            i += 2;
        }
    }
    proof {
        assert(chars@.skip(i as int) =~= Seq::<char>::empty());
        assert(r@ + unescaped(chars@.skip(i as int)) =~= r@);
    }
    r
}

proof fn lemma_escaped_concat(a: Seq<char>, b: Seq<char>)
    ensures
        escaped(a + b) == escaped(a) + escaped(b),
    decreases b.len(),
{
    if b.len() == 0 {
        assert(a + b =~= a);
        assert(escaped(a) + escaped(b) =~= escaped(a));
    } else {
        assert((a + b).drop_last() =~= a + b.drop_last());
        lemma_escaped_concat(a, b.drop_last());
        assert(escaped(a + b) =~= escaped(a) + escaped(b));
    }
}

/// Reading back what was written gives the path again.
pub proof fn lemma_escape_round_trip(path: Seq<char>)
    ensures
        unescaped(escaped(path)) == path,
    decreases path.len(),
{
    if path.len() > 0 {
        let first = seq![path[0]];
        let rest = path.drop_first();
        assert(path =~= first + rest);
        lemma_escaped_concat(first, rest);
        reveal_with_fuel(escaped, 2);
        assert(first.drop_last() =~= Seq::<char>::empty());
        assert(escaped(first) =~= escaped_char(path[0]));
        lemma_escape_round_trip(rest);
        let w = escaped_char(path[0]) + escaped(rest);
        if escaped_char(path[0]).len() == 2 {
            assert(w.skip(2) =~= escaped(rest));
        } else {
            assert(w.drop_first() =~= escaped(rest));
        }
        assert(unescaped(w) =~= path);
    }
}

/// A written path has no tab, no line feed and no carriage return.
pub proof fn lemma_escaped_is_plain(path: Seq<char>)
    ensures
        forall|i: int|
            0 <= i < escaped(path).len() ==> {
                let c = #[trigger] escaped(path)[i];
                c != '\t' && c != '\n' && c != '\r'
            },
    decreases path.len(),
{
    if path.len() > 0 {
        lemma_escaped_is_plain(path.drop_last());
        let a = escaped(path.drop_last());
        let b = escaped_char(path.last());
        assert forall|i: int| 0 <= i < escaped(path).len() implies {
            let c = #[trigger] escaped(path)[i];
            c != '\t' && c != '\n' && c != '\r'
        } by {
            if i < a.len() {
                assert(escaped(path)[i] == a[i]);
            } else {
                assert(escaped(path)[i] == b[i - a.len()]);
            }
        }
    }
}

// ---------------------------------------------------------------------------
// The form on disk
// ---------------------------------------------------------------------------

/// The path and time on a line of the history: seconds, a tab and the path as it
/// is written. Other lines have none.
pub open spec fn line_entry(line: Seq<char>) -> Option<(Seq<char>, Timestamp)> {
    match text::next_index(line, '\t', 0) {
        Some(k) => match number::parse_unsigned(line.take(k), u64::MAX as int) {
            Some(secs) => Some(
                (
                    unescaped(line.skip(k + 1)),
                    Timestamp { nanos: (secs * 1_000_000_000) as i128 },
                ),
            ),
            None => None,
        },
        None => None,
    }
}

/// The paths and times on the lines of the history.
pub open spec fn line_entries(lines: Seq<Seq<char>>) -> Seq<(Seq<char>, Timestamp)>
    decreases lines.len(),
{
    if lines.len() == 0 {
        Seq::empty()
    } else {
        let before = line_entries(lines.drop_last());
        match line_entry(lines.last()) {
            Some(e) => before.push(e),
            None => before,
        }
    }
}

/// The paths and times in the history.
pub open spec fn history_entries(contents: Seq<char>) -> Seq<(Seq<char>, Timestamp)> {
    line_entries(text::lines(contents))
}

/// All entries taken together, with the latest time of each path.
pub open spec fn latest_of(entries: Seq<(Seq<char>, Timestamp)>) -> Seq<(Seq<char>, Timestamp)>
    decreases entries.len(),
{
    if entries.len() == 0 {
        Seq::empty()
    } else {
        with_latest(latest_of(entries.drop_last()), entries.last().0, entries.last().1)
    }
}

/// The latest time of each path in the history.
pub open spec fn history_times(contents: Seq<char>) -> Seq<(Seq<char>, Timestamp)> {
    latest_of(history_entries(contents))
}

fn read_line(line: &[char]) -> (r: Option<TimedPath>)
    ensures
        match r {
            Some(e) => line_entry(line@) == Some(e@),
            None => line_entry(line@) is None,
        },
{
    let size: usize = line.len();
    proof {
        text::lemma_next_index(line@, '\t', 0);
    }
    match next_place(line, '\t', 0) {
        Some(k) => {
            let head = sub_chars(line, 0, k);
            let tail = sub_chars(line, k + 1, size);
            proof {
                assert(head@ =~= line@.take(k as int));
                assert(tail@ =~= line@.skip(k + 1));
                assert(tail@.skip(0) =~= tail@);
            }
            match parse_unsigned_text(head.as_slice(), u64::MAX) {
                Some(secs) => {
                    let path = unescape_chars(tail.as_slice(), 0);
                    Some(
                        TimedPath {
                            path: string_of(path.as_slice()),
                            time: unix_secs_to_system_time(secs),
                        },
                    )
                },
                None => None,
            }
        },
        None => None,
    }
}

/// Reads the paths and times in the history.
pub fn read_ffp_history_entries(contents: &str) -> (r: Vec<TimedPath>)
    ensures
        timed_views(r@) == history_entries(contents@),
{
    let chars = chars_of(contents);
    let lines = split_lines(chars.as_slice());
    let ghost all = text::views(lines@);
    let mut r: Vec<TimedPath> = Vec::new();
    let mut i: usize = 0;
    proof {
        assert(timed_views(r@) =~= line_entries(all.take(0)));
    }
    while i < lines.len()
        invariant
            i <= lines@.len(),
            all == text::views(lines@),
            timed_views(r@) == line_entries(all.take(i as int)),
        decreases lines.len() - i,
    {
        proof {
            assert(all.take(i + 1).drop_last() =~= all.take(i as int));
            assert(all.take(i + 1).last() == lines@[i as int]@);
        }
        let ghost before = r@;
        if let Some(e) = read_line(lines[i].as_slice()) {
            r.push(e);
            proof {
                assert(timed_views(r@) =~= timed_views(before).push(e@));
            }
        }
        i += 1;
    }
    proof {
        assert(all.take(all.len() as int) =~= all);
    }
    r
}

/// Reads the latest time of each path in the history.
pub fn load_ffp_history(contents: &str) -> (r: TimeIndex)
    ensures
        r.wf(),
        r@ == history_times(contents@),
{
    let entries = read_ffp_history_entries(contents);
    let ghost all = timed_views(entries@);
    let mut r = TimeIndex::new();
    let mut i: usize = 0;
    while i < entries.len()
        invariant
            i <= entries@.len(),
            all == timed_views(entries@),
            r.wf(),
            r@ == latest_of(all.take(i as int)),
        decreases entries.len() - i,
    {
        proof {
            assert(all.take(i + 1).drop_last() =~= all.take(i as int));
            assert(all.take(i + 1).last() == entries@[i as int]@);
        }
        r.note(entries[i].path.clone(), entries[i].time);
        i += 1;
    }
    proof {
        assert(all.take(all.len() as int) =~= all);
    }
    r
}

/// The order of the history: the latest first, and by path where times are the
/// same.
pub open spec fn later_first() -> spec_fn((Seq<char>, Timestamp), (Seq<char>, Timestamp)) -> bool {
    |a: (Seq<char>, Timestamp), b: (Seq<char>, Timestamp)|
        a.1.nanos > b.1.nanos || (a.1.nanos == b.1.nanos && text::text_lt(a.0, b.0))
}

proof fn lemma_later_first()
    ensures
        order::strict_weak(later_first()),
{
    let before = later_first();
    assert forall|a: (Seq<char>, Timestamp), b: (Seq<char>, Timestamp)|
        #![trigger before(a, b)]
        !(before(a, b) && before(b, a)) by {
        text::lemma_text_lt_total(a.0, b.0);
    }
    assert forall|
        a: (Seq<char>, Timestamp),
        b: (Seq<char>, Timestamp),
        c: (Seq<char>, Timestamp),
    |
        #![trigger before(a, b), before(b, c)]
        !before(a, b) && !before(b, c) implies !before(a, c) by {
        text::lemma_text_lt_total(a.0, b.0);
        text::lemma_text_lt_total(b.0, c.0);
        text::lemma_text_lt_total(a.0, c.0);
        if text::text_lt(c.0, b.0) && text::text_lt(b.0, a.0) {
            text::lemma_text_lt_transitive(c.0, b.0, a.0);
        }
    }
}

struct LaterFirst;

impl Ranking<TimedPath> for LaterFirst {
    open spec fn accepts(&self, item: TimedPath) -> bool {
        true
    }

    open spec fn before(&self) -> spec_fn(TimedPath, TimedPath) -> bool {
        |a: TimedPath, b: TimedPath| (later_first())(a@, b@)
    }

    proof fn strict_weak_order(&self) {
        lemma_later_first();
        let inner = later_first();
        let before = self.before();
        assert forall|a: TimedPath, b: TimedPath|
            #![trigger before(a, b)]
            !(before(a, b) && before(b, a)) by {
            assert(!(inner(a@, b@) && inner(b@, a@)));
        }
        assert forall|a: TimedPath, b: TimedPath, c: TimedPath|
            #![trigger before(a, b), before(b, c)]
            !before(a, b) && !before(b, c) implies !before(a, c) by {
            assert(!inner(a@, b@) && !inner(b@, c@));
        }
    }

    fn is_before(&self, a: &TimedPath, b: &TimedPath) -> (r: bool) {
        a.time.nanos > b.time.nanos || (a.time.nanos == b.time.nanos && text_before(
            a.path.as_str(),
            b.path.as_str(),
        ))
    }
}

/// The line of the history for a path: whole seconds, a tab and the path as it is
/// written.
pub open spec fn entry_line(e: (Seq<char>, Timestamp)) -> Seq<char> {
    number::decimal(clock::whole_secs(e.1.nanos as int) as nat).push('\t') + escaped(e.0)
}

/// The history for a list of paths.
pub open spec fn rendered(list: Seq<(Seq<char>, Timestamp)>) -> Seq<char>
    decreases list.len(),
{
    if list.len() == 0 {
        Seq::empty()
    } else {
        rendered(list.drop_last()) + entry_line(list.last()).push('\n')
    }
}

/// The first items of a list, up to a number of them.
pub open spec fn at_most<T>(list: Seq<T>, n: nat) -> Seq<T> {
    if list.len() <= n {
        list
    } else {
        list.take(n as int)
    }
}

/// The history after a path has been used now: the latest paths, up to a number
/// of them, from the latest on.
pub open spec fn history_after(
    contents: Seq<char>,
    path: Seq<char>,
    cwd: Seq<char>,
    now: Timestamp,
) -> Seq<char> {
    let list = with_time(history_times(contents), paths::key_from(path, cwd), now);
    rendered(at_most(order::ranked(list, later_first()), HISTORY_MAX_ENTRIES as nat))
}

fn render_history(entries: &Vec<TimedPath>, count: usize) -> (r: String)
    requires
        count <= entries@.len(),
    ensures
        r@ == rendered(timed_views(entries@).take(count as int)),
{
    let ghost all = timed_views(entries@);
    let mut r = String::new();
    let mut i: usize = 0;
    while i < count
        invariant
            i <= count <= entries@.len(),
            all == timed_views(entries@),
            r@ == rendered(all.take(i as int)),
        decreases count - i,
    {
        let ghost before = r@;
        let e = &entries[i];
        proof {
            assert(all.take(i + 1).drop_last() =~= all.take(i as int));
            assert(all.take(i + 1).last() == e@);
        }
        push_decimal(&mut r, system_time_to_unix_secs(e.time) as u128);
        r.push('\t');
        let path = escape_history_path(e.path.as_str());
        r.append(path.as_str());
        r.push('\n');
        proof {
            assert(r@ =~= before + entry_line(e@).push('\n'));
        }
        i += 1;
    }
    r
}

/// The history after a path has been used now.
pub fn record_file_interaction(contents: &str, path: &str, cwd: &str, now: Timestamp) -> (r: String)
    ensures
        r@ == history_after(contents@, path@, cwd@, now),
{
    let key = normalized_path_key_with_cwd(path, cwd);
    let mut history = load_ffp_history(contents);
    history.insert(key, now);
    let entries = history.into_entries();
    let ghost list = timed_views(entries@);
    let ranking = LaterFirst;
    let sorted = sort_items(&ranking, &entries);
    proof {
        let size: usize = entries.len();
        ranking.strict_weak_order();
        lemma_later_first();
        order::lemma_ranked_map(
            entries@,
            |e: TimedPath| e@,
            ranking.before(),
            later_first(),
        );
    }
    let count: usize = if sorted.len() > HISTORY_MAX_ENTRIES {
        HISTORY_MAX_ENTRIES
    } else {
        sorted.len()
    };
    proof {
        let out = timed_views(sorted@);
        assert(out == order::ranked(list, later_first()));
        if sorted@.len() <= HISTORY_MAX_ENTRIES {
            assert(out.take(count as int) =~= out);
        }
    }
    render_history(&sorted, count)
}

// ---------------------------------------------------------------------------
// What is written is read back
// ---------------------------------------------------------------------------

/// An entry with its time cut to whole seconds since the epoch.
pub open spec fn in_secs(e: (Seq<char>, Timestamp)) -> (Seq<char>, Timestamp) {
    (
        e.0,
        Timestamp { nanos: (clock::whole_secs(e.1.nanos as int) * 1_000_000_000) as i128 },
    )
}

proof fn lemma_line_read_back(e: (Seq<char>, Timestamp))
    ensures
        line_entry(entry_line(e)) == Some(in_secs(e)),
        !entry_line(e).contains('\n'),
        text::without_return(entry_line(e)) == entry_line(e),
{
    let secs = clock::whole_secs(e.1.nanos as int);
    let head = number::decimal(secs as nat);
    let tail = escaped(e.0);
    let line = entry_line(e);
    number::lemma_decimal_digits(secs as nat);
    number::lemma_decimal_round_trip(secs as nat, u64::MAX as int);
    lemma_escape_round_trip(e.0);
    lemma_escaped_is_plain(e.0);
    assert forall|i: int| 0 <= i < head.len() implies line[i] == head[i] && number::is_digit(
        #[trigger] line[i],
    ) by {
        assert(number::is_digit(head[i]));
    }
    assert(line[head.len() as int] == '\t');
    text::lemma_next_index(line, '\t', 0);
    assert(text::next_index(line, '\t', 0) == Some(head.len() as int));
    assert(line.take(head.len() as int) =~= head);
    assert(line.skip(head.len() as int + 1) =~= tail);
    assert forall|i: int| 0 <= i < line.len() implies line[i] != '\n' by {
        if i > head.len() {
            assert(line[i] == tail[i - head.len() - 1]);
        }
    }
    if tail.len() > 0 {
        assert(line.last() == tail[tail.len() - 1]);
    } else {
        assert(line.last() == '\t');
    }
}

proof fn lemma_rendered_pieces(list: Seq<(Seq<char>, Timestamp)>)
    ensures
        text::pieces(rendered(list), '\n') == list.map_values(
            |e: (Seq<char>, Timestamp)| entry_line(e),
        ).push(Seq::empty()),
    decreases list.len(),
{
    let made = list.map_values(|e: (Seq<char>, Timestamp)| entry_line(e));
    let none = Seq::<char>::empty();
    if list.len() == 0 {
        assert(text::pieces(rendered(list), '\n') =~= made.push(none));
    } else {
        let init = list.drop_last();
        let made_init = init.map_values(|e: (Seq<char>, Timestamp)| entry_line(e));
        let line = entry_line(list.last());
        lemma_rendered_pieces(init);
        lemma_line_read_back(list.last());
        text::lemma_pieces_of_plain(line, '\n');
        let body = rendered(init) + line;
        assert(rendered(list) =~= body.push('\n') + none);
        text::lemma_pieces_of_concat(body, none, '\n');
        if init.len() == 0 {
            assert(body =~= line);
            assert(text::pieces(rendered(list), '\n') =~= made.push(none));
        } else {
            let front = rendered(init).drop_last();
            assert(rendered(init).last() == '\n');
            assert(rendered(init) =~= front.push('\n') + none);
            text::lemma_pieces_of_concat(front, none, '\n');
            assert(body =~= front.push('\n') + line);
            text::lemma_pieces_of_concat(front, line, '\n');
            assert(text::pieces(none, '\n') =~= seq![none]);
            let pf = text::pieces(front, '\n');
            assert(pf =~= (pf + seq![none]).drop_last());
            assert(made_init.push(none).drop_last() =~= made_init);
            assert(pf =~= made_init);
            assert(made =~= made_init.push(line));
            assert(text::pieces(rendered(list), '\n') =~= made.push(none));
        }
    }
}

proof fn lemma_line_entries_of(list: Seq<(Seq<char>, Timestamp)>)
    ensures
        line_entries(list.map_values(|e: (Seq<char>, Timestamp)| entry_line(e)))
            == list.map_values(|e: (Seq<char>, Timestamp)| in_secs(e)),
    decreases list.len(),
{
    let f = |e: (Seq<char>, Timestamp)| entry_line(e);
    let g = |e: (Seq<char>, Timestamp)| in_secs(e);
    if list.len() > 0 {
        let init = list.drop_last();
        lemma_line_entries_of(init);
        lemma_line_read_back(list.last());
        assert(list.map_values(f).drop_last() =~= init.map_values(f));
        assert(list.map_values(g) =~= init.map_values(g).push(in_secs(list.last())));
    } else {
        assert(line_entries(list.map_values(f)) =~= list.map_values(g));
    }
}

/// What is written is read back: the same paths in the same order, with their
/// times cut to whole seconds.
pub proof fn lemma_history_round_trip(list: Seq<(Seq<char>, Timestamp)>)
    ensures
        history_entries(rendered(list)) == list.map_values(
            |e: (Seq<char>, Timestamp)| in_secs(e),
        ),
{
    let f = |e: (Seq<char>, Timestamp)| entry_line(e);
    let made = list.map_values(f);
    lemma_rendered_pieces(list);
    lemma_line_entries_of(list);
    let p = text::pieces(rendered(list), '\n');
    assert(p.drop_last() =~= made);
    let ended = p.drop_last().map_values(|line: Seq<char>| text::without_return(line));
    assert forall|i: int| 0 <= i < made.len() implies ended[i] == made[i] by {
        lemma_line_read_back(list[i]);
    }
    assert(ended =~= made);
}

/// The entries of the history after a path has been used now.
pub open spec fn kept_entries(
    contents: Seq<char>,
    path: Seq<char>,
    cwd: Seq<char>,
    now: Timestamp,
) -> Seq<(Seq<char>, Timestamp)> {
    let list = with_time(history_times(contents), paths::key_from(path, cwd), now);
    at_most(order::ranked(list, later_first()), HISTORY_MAX_ENTRIES as nat)
}

proof fn lemma_latest_distinct(entries: Seq<(Seq<char>, Timestamp)>)
    ensures
        distinct_paths(latest_of(entries)),
    decreases entries.len(),
{
    if entries.len() > 0 {
        let (path, time) = entries.last();
        lemma_latest_distinct(entries.drop_last());
        lemma_with_time(latest_of(entries.drop_last()), path, time, path);
    }
}

proof fn lemma_latest_of_distinct(entries: Seq<(Seq<char>, Timestamp)>)
    requires
        distinct_paths(entries),
    ensures
        latest_of(entries) == entries,
    decreases entries.len(),
{
    if entries.len() > 0 {
        let init = entries.drop_last();
        let (path, time) = entries.last();
        assert forall|i: int, j: int| 0 <= i < j < init.len() implies (#[trigger] init[i]).0 != (
        #[trigger] init[j]).0 by {
            assert(entries[i].0 != entries[j].0);
        }
        lemma_latest_of_distinct(init);
        lemma_slot(init, path);
        if let Some(k) = slot(init, path) {
            assert(entries[k].0 != entries[entries.len() - 1].0);
        }
        assert(latest_of(entries) =~= entries);
    } else {
        assert(latest_of(entries) =~= entries);
    }
}

proof fn lemma_ranked_distinct(list: Seq<(Seq<char>, Timestamp)>)
    requires
        list.len() <= usize::MAX,
        distinct_paths(list),
    ensures
        distinct_paths(order::ranked(list, later_first())),
        order::ranked(list, later_first()).no_duplicates(),
{
    let out = order::ranked(list, later_first());
    lemma_later_first();
    order::lemma_ranked(list, later_first());
    assert forall|i: int, j: int| 0 <= i < list.len() && 0 <= j < list.len() && i
        != j implies list[i] != list[j] by {
        if i < j {
            assert(list[i].0 != list[j].0);
        } else {
            assert(list[j].0 != list[i].0);
        }
    }
    assert(list.no_duplicates());
    list.lemma_multiset_has_no_duplicates();
    list.to_multiset_ensures();
    out.to_multiset_ensures();
    out.lemma_multiset_has_no_duplicates_conv();
    assert forall|i: int, j: int| 0 <= i < j < out.len() implies (#[trigger] out[i]).0 != (
    #[trigger] out[j]).0 by {
        assert(out.contains(out[i]) && out.contains(out[j]));
        assert(out.to_multiset().count(out[i]) > 0 && out.to_multiset().count(out[j]) > 0);
        assert(list.contains(out[i]) && list.contains(out[j]));
        let a = choose|a: int| 0 <= a < list.len() && list[a] == out[i];
        let b = choose|b: int| 0 <= b < list.len() && list[b] == out[j];
        assert(out[i] != out[j]);
        if a < b {
            assert(list[a].0 != list[b].0);
        } else {
            assert(list[b].0 != list[a].0);
        }
    }
}

/// A path that has been used now, and is among those that are kept, is found with that
/// time, in whole seconds, when the history is read again.
pub proof fn lemma_used_path_is_remembered(
    contents: Seq<char>,
    path: Seq<char>,
    cwd: Seq<char>,
    now: Timestamp,
)
    requires
        history_times(contents).len() < usize::MAX,
        kept_entries(contents, path, cwd, now).contains((paths::key_from(path, cwd), now)),
    ensures
        time_in(
            history_times(history_after(contents, path, cwd, now)),
            paths::key_from(path, cwd),
        ) == Some(in_secs((path, now)).1),
{
    let key = paths::key_from(path, cwd);
    let list = with_time(history_times(contents), key, now);
    let kept = kept_entries(contents, path, cwd, now);
    let read = kept.map_values(|e: (Seq<char>, Timestamp)| in_secs(e));
    lemma_latest_distinct(history_entries(contents));
    lemma_with_time(history_times(contents), key, now, key);
    lemma_slot(history_times(contents), key);
    lemma_ranked_distinct(list);
    lemma_history_round_trip(kept);
    let out = order::ranked(list, later_first());
    assert forall|i: int, j: int| 0 <= i < j < read.len() implies (#[trigger] read[i]).0 != (
    #[trigger] read[j]).0 by {
        assert(out[i].0 != out[j].0);
    }
    lemma_latest_of_distinct(read);
    let k = choose|k: int| 0 <= k < kept.len() && kept[k] == (key, now);
    assert(read[k] == in_secs((key, now)));
    lemma_slot_unique(read, key, k);
}

/// The path that is used is kept if there are not too many, and also if no other was
/// used at the same time or later.
pub proof fn lemma_used_path_is_kept(
    contents: Seq<char>,
    path: Seq<char>,
    cwd: Seq<char>,
    now: Timestamp,
)
    requires
        history_times(contents).len() < HISTORY_MAX_ENTRIES || (history_times(contents).len()
            < usize::MAX && forall|i: int|
            0 <= i < history_times(contents).len() ==> (#[trigger] history_times(contents)[i]).0
                == paths::key_from(path, cwd) || history_times(contents)[i].1.nanos < now.nanos),
    ensures
        kept_entries(contents, path, cwd, now).contains((paths::key_from(path, cwd), now)),
{
    let key = paths::key_from(path, cwd);
    let times = history_times(contents);
    let list = with_time(times, key, now);
    let out = order::ranked(list, later_first());
    lemma_latest_distinct(history_entries(contents));
    lemma_with_time(times, key, now, key);
    lemma_slot(times, key);
    lemma_slot(list, key);
    lemma_later_first();
    order::lemma_ranked(list, later_first());
    lemma_ranked_distinct(list);
    list.to_multiset_ensures();
    out.to_multiset_ensures();
    let s = slot(list, key)->0;
    assert(list[s] == (key, now));
    assert(list.contains((key, now)));
    assert(out.to_multiset().count((key, now)) > 0);
    assert(out.contains((key, now)));
    let k = choose|k: int| 0 <= k < out.len() && out[k] == (key, now);
    if list.len() > HISTORY_MAX_ENTRIES && k > 0 {
        assert(!(later_first())(out[k], out[0]));
        assert(out[0].0 != out[k].0);
        assert(out.contains(out[0]));
        assert(out.to_multiset().count(out[0]) > 0);
        assert(list.contains(out[0]));
        let a = choose|a: int| 0 <= a < list.len() && list[a] == out[0];
        assert(a < times.len() && times[a] == out[0]);
    }
    let kept = kept_entries(contents, path, cwd, now);
    assert(kept[k] == (key, now));
}

// ---------------------------------------------------------------------------
// What the history keeps
// ---------------------------------------------------------------------------

/// Of several times of a path the latest counts: no entry has a later one, and one has it. No
/// path comes twice.
pub proof fn lemma_latest_of(entries: Seq<(Seq<char>, Timestamp)>, path: Seq<char>)
    ensures
        distinct_paths(latest_of(entries)),
        forall|i: int|
            0 <= i < entries.len() && (#[trigger] entries[i]).0 == path ==> (time_in(
                latest_of(entries),
                path,
            ) matches Some(t) && entries[i].1.nanos <= t.nanos),
        time_in(latest_of(entries), path) matches Some(t) ==> entries.contains((path, t)),
    decreases entries.len(),
{
    lemma_latest_distinct(entries);
    if entries.len() > 0 {
        let init = entries.drop_last();
        let before = latest_of(init);
        let (p, time) = entries.last();
        lemma_latest_of(init, path);
        lemma_latest_distinct(init);
        lemma_with_time(before, p, time, path);
        assert forall|i: int| 0 <= i < entries.len() && (#[trigger] entries[i]).0 == path implies (
        time_in(latest_of(entries), path) matches Some(t) && entries[i].1.nanos <= t.nanos) by {
            if i < init.len() {
                assert(init[i] == entries[i]);
            }
        }
        if let Some(t) = time_in(latest_of(entries), path) {
            if time_in(before, path) == Some(t) {
                let k = init.index_of((path, t));
                assert(entries[k] == (path, t));
            } else {
                assert(entries[entries.len() - 1] == (path, t));
            }
        }
    }
}

/// The history after a path has been used holds that path with the time now, and the other
/// paths with the times they had. It stands from the latest on, holds no path twice and no more
/// than 5000, and leaves a path out only if it is full of paths that were not used earlier.
pub proof fn lemma_history_keeps_latest(
    contents: Seq<char>,
    path: Seq<char>,
    cwd: Seq<char>,
    now: Timestamp,
)
    requires
        history_times(contents).len() < usize::MAX,
    ensures
        ({
            let key = paths::key_from(path, cwd);
            let kept = kept_entries(contents, path, cwd, now);
            let known = history_times(contents);
            &&& history_after(contents, path, cwd, now) == rendered(kept)
            &&& kept.len() <= 5000
            &&& distinct_paths(kept)
            &&& forall|i: int, j: int|
                0 <= i < j < kept.len() ==> (#[trigger] kept[i]).1.nanos >= (
                #[trigger] kept[j]).1.nanos
            &&& forall|i: int|
                0 <= i < kept.len() ==> (#[trigger] kept[i]) == (key, now) || (kept[i].0 != key
                    && time_in(known, kept[i].0) == Some(kept[i].1))
            &&& forall|p: Seq<char>, t: Timestamp|
                #![trigger kept.contains((p, t))]
                (p == key && t == now) || (p != key && time_in(known, p) == Some(t))
                    ==> kept.contains((p, t)) || (kept.len() == 5000 && forall|k: int|
                    0 <= k < kept.len() ==> (#[trigger] kept[k]).1.nanos >= t.nanos)
        }),
{
    let key = paths::key_from(path, cwd);
    let known = history_times(contents);
    let list = with_time(known, key, now);
    let kept = kept_entries(contents, path, cwd, now);
    let out = order::ranked(list, later_first());
    lemma_latest_distinct(history_entries(contents));
    lemma_with_time(known, key, now, key);
    lemma_slot(known, key);
    lemma_later_first();
    order::lemma_ranked(list, later_first());
    lemma_ranked_distinct(list);
    list.to_multiset_ensures();
    out.to_multiset_ensures();
    assert forall|i: int| 0 <= i < kept.len() implies (#[trigger] kept[i]) == (key, now) || (
    kept[i].0 != key && time_in(known, kept[i].0) == Some(kept[i].1)) by {
        assert(kept[i] == out[i]);
        assert(out.contains(out[i]));
        assert(list.to_multiset().count(out[i]) > 0);
        assert(list.contains(out[i]));
        let k = list.index_of(out[i]);
        lemma_slot_unique(list, out[i].0, k);
        lemma_with_time(known, key, now, out[i].0);
    }
    assert forall|i: int, j: int| 0 <= i < j < kept.len() implies (#[trigger] kept[i]).1.nanos >= (
    #[trigger] kept[j]).1.nanos by {
        assert(!(later_first())(out[j], out[i]));
    }
    assert forall|i: int, j: int| 0 <= i < j < kept.len() implies (#[trigger] kept[i]).0 != (
    #[trigger] kept[j]).0 by {
        assert(out[i].0 != out[j].0);
    }
    assert forall|p: Seq<char>, t: Timestamp|
        #![trigger kept.contains((p, t))]
        (p == key && t == now) || (p != key && time_in(known, p) == Some(t)) implies kept.contains(
        (p, t),
    ) || (kept.len() == 5000 && forall|k: int|
        0 <= k < kept.len() ==> (#[trigger] kept[k]).1.nanos >= t.nanos) by {
        lemma_with_time(known, key, now, p);
        lemma_slot(list, p);
        let s = slot(list, p)->0;
        assert(list[s] == (p, t));
        assert(list.contains((p, t)));
        assert(out.to_multiset().count((p, t)) > 0);
        assert(out.contains((p, t)));
        let k = out.index_of((p, t));
        if k < kept.len() {
            assert(kept[k] == (p, t));
        } else {
            assert forall|n: int| 0 <= n < kept.len() implies (#[trigger] kept[n]).1.nanos
                >= t.nanos by {
                assert(!(later_first())(out[k], out[n]));
            }
        }
    }
}

/// What the history keeps is found again, in whole seconds, when it is read.
pub proof fn lemma_kept_paths_are_remembered(
    contents: Seq<char>,
    path: Seq<char>,
    cwd: Seq<char>,
    now: Timestamp,
    k: int,
)
    requires
        history_times(contents).len() < usize::MAX,
        0 <= k < kept_entries(contents, path, cwd, now).len(),
    ensures
        ({
            let e = kept_entries(contents, path, cwd, now)[k];
            time_in(history_times(history_after(contents, path, cwd, now)), e.0) matches Some(t)
                && t.nanos == clock::whole_secs(e.1.nanos as int) * 1_000_000_000
        }),
{
    let kept = kept_entries(contents, path, cwd, now);
    let read = kept.map_values(|e: (Seq<char>, Timestamp)| in_secs(e));
    lemma_history_keeps_latest(contents, path, cwd, now);
    lemma_history_round_trip(kept);
    assert forall|i: int, j: int| 0 <= i < j < read.len() implies (#[trigger] read[i]).0 != (
    #[trigger] read[j]).0 by {
        assert(kept[i].0 != kept[j].0);
    }
    lemma_latest_of_distinct(read);
    assert(read[k] == in_secs(kept[k]));
    lemma_slot_unique(read, kept[k].0, k);
}

/// A line of the history is a number of seconds, a tab and a path.
pub proof fn lemma_line_of_history(secs: nat, path: Seq<char>)
    requires
        secs <= u64::MAX,
        forall|i: int| 0 <= i < path.len() ==> (#[trigger] path[i]) != '\\',
    ensures
        line_entry(number::decimal(secs).push('\t') + path) == Some(
            (path, Timestamp { nanos: (secs * 1_000_000_000) as i128 }),
        ),
{
    let head = number::decimal(secs);
    let line = head.push('\t') + path;
    number::lemma_decimal_digits(secs);
    number::lemma_decimal_round_trip(secs, u64::MAX as int);
    text::lemma_next_index(line, '\t', 0);
    assert(line[head.len() as int] == '\t');
    assert forall|i: int| 0 <= i < head.len() implies line[i] != '\t' by {
        assert(line[i] == head[i]);
        assert(number::is_digit(head[i]));
    }
    assert(text::next_index(line, '\t', 0) == Some(head.len() as int));
    assert(line.take(head.len() as int) =~= head);
    assert(line.skip(head.len() as int + 1) =~= path);
    lemma_unescaped_plain(path);
}

proof fn lemma_unescaped_plain(path: Seq<char>)
    requires
        forall|i: int| 0 <= i < path.len() ==> (#[trigger] path[i]) != '\\',
    ensures
        unescaped(path) == path,
    decreases path.len(),
{
    if path.len() > 0 {
        let rest = path.drop_first();
        assert forall|i: int| 0 <= i < rest.len() implies (#[trigger] rest[i]) != '\\' by {
            assert(rest[i] == path[i + 1]);
        }
        lemma_unescaped_plain(rest);
        assert(path[0] != '\\');
        assert(seq![path[0]] + rest =~= path);
    } else {
        assert(unescaped(path) =~= path);
    }
}

/// The history holds 5000 paths at most, and drops none while there are no more.
pub proof fn lemma_history_is_bounded(
    contents: Seq<char>,
    path: Seq<char>,
    cwd: Seq<char>,
    now: Timestamp,
)
    requires
        with_time(history_times(contents), paths::key_from(path, cwd), now).len() <= usize::MAX,
    ensures
        kept_entries(contents, path, cwd, now).len() <= 5000,
        with_time(history_times(contents), paths::key_from(path, cwd), now).len() <= 5000
            ==> kept_entries(contents, path, cwd, now).len() == with_time(
            history_times(contents),
            paths::key_from(path, cwd),
            now,
        ).len(),
        history_after(contents, path, cwd, now) == rendered(
            kept_entries(contents, path, cwd, now),
        ),
{
    lemma_later_first();
    order::lemma_ranked(
        with_time(history_times(contents), paths::key_from(path, cwd), now),
        later_first(),
    );
}

} // verus!
