//! What is shown of a file beside the list.
use vstd::prelude::*;
use vstd::string::*;

use crate::encoding;
use crate::encoding::byte_length;
use crate::history;
use crate::number;
use crate::number::push_decimal;
use crate::order;
use crate::order::sorted_places;
use crate::order::Ranking;
use crate::rank::is_empty_text;
use crate::style;
use crate::style::Color;
use crate::style::StyledLine;
use crate::text;
use crate::text::chars_before;
use crate::text::chars_of;
use crate::text::next_place;
use crate::text::push_chars;
use crate::text::replace_chars;
use crate::text::string_of;
use crate::text::sub_chars;
use crate::text::text_from_bytes;
use crate::text_laws;

verus! {

/// How many bytes of a file are shown.
pub const MAX_BYTES: usize = 16384;

/// How many lines of a file are shown.
pub const PREVIEW_LINES: usize = 40;

// ---------------------------------------------------------------------------
// Files
// ---------------------------------------------------------------------------

/// A line cut to 60 characters, of which the last three are dots if it was longer.
pub open spec fn cut_line(line: Seq<char>) -> Seq<char> {
    if line.len() > 60 {
        line.take(57) + "..."@
    } else {
        line
    }
}

/// A line as it is shown: cut, and with two spaces for each tab.
pub open spec fn shown_line(line: Seq<char>) -> Seq<char> {
    text::replace(cut_line(line), seq!['\t'], "  "@)
}

/// The bytes of some lines.
pub open spec fn total_bytes(lines: Seq<Seq<char>>) -> nat
    decreases lines.len(),
{
    if lines.len() == 0 {
        0
    } else {
        total_bytes(lines.drop_last()) + encoding::byte_len(lines.last())
    }
}

/// How many of the first lines have no more bytes than are shown.
pub open spec fn fitting(lines: Seq<Seq<char>>, n: int) -> int
    decreases lines.len() - n,
{
    if 0 <= n < lines.len() && total_bytes(lines.take(n + 1)) <= MAX_BYTES {
        fitting(lines, n + 1)
    } else {
        n
    }
}

/// What is shown of a file with these lines at its start: the first lines that
/// fit, unless one of them has a byte that is no text.
pub open spec fn file_preview(lines: Seq<Seq<char>>) -> Seq<Seq<char>> {
    let kept = lines.take(fitting(lines, 0));
    if exists|i: int| 0 <= i < kept.len() && (#[trigger] kept[i]).contains('\0') {
        seq!["[Binary file]"@]
    } else if kept.len() == 0 {
        seq!["[Empty file]"@]
    } else {
        kept.map_values(|line: Seq<char>| shown_line(line))
    }
}

/// Whether more lines of a file are read, once some with so many bytes have been: no more
/// than are shown.
pub fn reads_more(lines: usize, bytes: u64) -> (r: bool)
    ensures
        r == (lines < PREVIEW_LINES && bytes <= MAX_BYTES),
{
    lines < PREVIEW_LINES && bytes <= MAX_BYTES as u64
}

proof fn lemma_fitting_part(lines: Seq<Seq<char>>, k: int, n: int)
    requires
        0 <= n < k <= lines.len(),
        total_bytes(lines.take(k)) > MAX_BYTES,
    ensures
        fitting(lines.take(k), n) == fitting(lines, n),
        n <= fitting(lines, n) < k,
    decreases k - n,
{
    assert(lines.take(k).take(n + 1) =~= lines.take(n + 1));
    if total_bytes(lines.take(n + 1)) <= MAX_BYTES {
        lemma_fitting_part(lines, k, n + 1);
    }
}

/// What is shown of a file does not change when reading stops where no more lines are asked
/// for: after as many lines as are shown, or after lines with more bytes than are shown.
pub proof fn lemma_rest_is_not_shown(lines: Seq<Seq<char>>, k: int)
    requires
        0 <= k <= lines.len(),
        k >= PREVIEW_LINES || total_bytes(lines.take(k)) > MAX_BYTES,
    ensures
        file_preview(history::at_most(lines.take(k), PREVIEW_LINES as nat)) == file_preview(
            history::at_most(lines, PREVIEW_LINES as nat),
        ),
{
    let all = history::at_most(lines, PREVIEW_LINES as nat);
    if k >= PREVIEW_LINES {
        assert(history::at_most(lines.take(k), PREVIEW_LINES as nat) =~= all);
    } else {
        assert(all.take(k) =~= lines.take(k));
        assert(k > 0) by {
            assert(lines.take(0).len() == 0);
        }
        lemma_fitting_part(all, k, 0);
        let n = fitting(all, 0);
        assert(all.take(k).take(n) =~= all.take(n));
    }
}

/// A list of one text.
fn one_text(s: &str) -> (r: Vec<String>)
    ensures
        text::text_views(r@) == seq![s@],
        r@.len() == 1,
{
    let mut r: Vec<String> = Vec::new();
    r.push(s.to_owned());
    proof {
        assert(text::text_views(r@) =~= seq![s@]);
    }
    r
}

fn show_line(line: &[char]) -> (r: String)
    ensures
        r@ == shown_line(line@),
{
    let mut cut: Vec<char> = Vec::new();
    if line.len() > 60 {
        let head = sub_chars(line, 0, 57);
        let dots = chars_of("...");
        push_chars(&mut cut, head.as_slice());
        push_chars(&mut cut, dots.as_slice());
    } else {
        push_chars(&mut cut, line);
    }
    proof {
        assert(cut@ =~= cut_line(line@));
    }
    let mut tab: Vec<char> = Vec::new();
    tab.push('\t');
    let spaces = chars_of("  ");
    proof {
        assert(tab@ =~= seq!['\t']);
    }
    let out = replace_chars(cut.as_slice(), tab.as_slice(), spaces.as_slice());
    string_of(out.as_slice())
}

/// What is shown of a file with these lines at its start.
pub fn read_preview(lines: &Vec<String>) -> (r: Vec<String>)
    ensures
        text::text_views(r@) == file_preview(text::text_views(lines@)),
        r@.len() > 0,
{
    let ghost all = text::text_views(lines@);
    let mut shown: Vec<String> = Vec::new();
    let mut used: usize = 0;
    let mut i: usize = 0;
    let ghost f = |line: Seq<char>| shown_line(line);
    proof {
        assert(text::text_views(shown@) =~= all.take(0).map_values(f));
    }
    while i < lines.len()
        invariant_except_break
            fitting(all, 0) == fitting(all, i as int),
        invariant
            i <= lines@.len(),
            all == text::text_views(lines@),
            f == (|line: Seq<char>| shown_line(line)),
            used <= MAX_BYTES,
            used == total_bytes(all.take(i as int)),
            text::text_views(shown@) == all.take(i as int).map_values(f),
            forall|k: int| 0 <= k < i ==> !(#[trigger] all[k]).contains('\0'),
        ensures
            i == fitting(all, 0),
        decreases lines.len() - i,
    {
        let line = lines[i].as_str();
        let size: usize = byte_length(line);
        proof {
            assert(all.take(i + 1).drop_last() =~= all.take(i as int));
            assert(all.take(i + 1).last() == line@);
        }
        if size > MAX_BYTES - used {
            break ;
        }
        used += size;
        let chars = chars_of(line);
        proof {
            text::lemma_next_index(line@, '\0', 0);
            lemma_fitting_grows(all, i + 1);
        }
        if next_place(chars.as_slice(), '\0', 0).is_some() {
            let r = one_text("[Binary file]");
            proof {
                let kept = all.take(fitting(all, 0));
                assert(kept[i as int] == line@);
                assert(kept[i as int].contains('\0'));
            }
            return r;
        }
        let ghost before = shown@;
        let out = show_line(chars.as_slice());
        shown.push(out);
        proof {
            assert(!all[i as int].contains('\0'));
            assert(text::text_views(shown@) =~= text::text_views(before).push(out@));
            assert(all.take(i + 1).map_values(f) =~= all.take(i as int).map_values(f).push(
                shown_line(all[i as int]),
            ));
        }
        i += 1;
    }
    proof {
        let kept = all.take(fitting(all, 0));
        assert forall|k: int| 0 <= k < kept.len() implies !(#[trigger] kept[k]).contains('\0') by {
            assert(kept[k] == all[k]);
        }
        assert(text::text_views(shown@).len() == shown@.len());
    }
    if shown.len() == 0 {
        one_text("[Empty file]")
    } else {
        shown
    }
}

proof fn lemma_fitting_grows(lines: Seq<Seq<char>>, n: int)
    requires
        0 <= n,
    ensures
        n <= fitting(lines, n),
        n <= lines.len() ==> fitting(lines, n) <= lines.len(),
    decreases lines.len() - n,
{
    if n < lines.len() && total_bytes(lines.take(n + 1)) <= MAX_BYTES {
        lemma_fitting_grows(lines, n + 1);
    }
}

// ---------------------------------------------------------------------------
// Directories
// ---------------------------------------------------------------------------

/// What is in a directory: a name, as the file system has it, and whether it is a
/// directory.
pub struct DirItem {
    pub name: Vec<u8>,
    pub is_dir: bool,
}

/// What an item of a directory is.
pub type ItemView = (Seq<u8>, bool);

/// What some items of a directory are.
pub open spec fn item_views(items: Seq<DirItem>) -> Seq<ItemView> {
    items.map_values(|e: DirItem| (e.name@, e.is_dir))
}

/// Bytes as characters, one for one.
pub open spec fn widened(bytes: Seq<u8>) -> Seq<char> {
    bytes.map_values(|b: u8| b as char)
}

/// The order of a directory: directories first, then by the bytes of the names.
pub open spec fn listed_before() -> spec_fn(ItemView, ItemView) -> bool {
    |a: ItemView, b: ItemView|
        (a.1 && !b.1) || (a.1 == b.1 && text::text_lt(widened(a.0), widened(b.0)))
}

proof fn lemma_listed_before()
    ensures
        order::strict_weak(listed_before()),
{
    let before = listed_before();
    assert forall|a: ItemView, b: ItemView|
        #![trigger before(a, b)]
        !(before(a, b) && before(b, a)) by {
        text::lemma_text_lt_total(widened(a.0), widened(b.0));
    }
    assert forall|a: ItemView, b: ItemView, c: ItemView|
        #![trigger before(a, b), before(b, c)]
        !before(a, b) && !before(b, c) implies !before(a, c) by {
        let (x, y, z) = (widened(a.0), widened(b.0), widened(c.0));
        text::lemma_text_lt_total(x, y);
        text::lemma_text_lt_total(y, z);
        text::lemma_text_lt_total(x, z);
        if text::text_lt(z, y) && text::text_lt(y, x) {
            text::lemma_text_lt_transitive(z, y, x);
        }
    }
}

struct Listed;

fn widen(bytes: &Vec<u8>) -> (r: Vec<char>)
    ensures
        r@ == widened(bytes@),
{
    let mut r: Vec<char> = Vec::new();
    let mut i: usize = 0;
    while i < bytes.len()
        invariant
            i <= bytes@.len(),
            r@.len() == i,
            forall|k: int| 0 <= k < i ==> #[trigger] r@[k] == bytes@[k] as char,
        decreases bytes.len() - i,
    {
        r.push(bytes[i] as char);
        i += 1;
    }
    proof {
        assert(r@ =~= widened(bytes@));
    }
    r
}

impl Ranking<DirItem> for Listed {
    open spec fn accepts(&self, item: DirItem) -> bool {
        true
    }

    open spec fn before(&self) -> spec_fn(DirItem, DirItem) -> bool {
        |a: DirItem, b: DirItem| (listed_before())((a.name@, a.is_dir), (b.name@, b.is_dir))
    }

    proof fn strict_weak_order(&self) {
        lemma_listed_before();
        let inner = listed_before();
        let before = self.before();
        assert forall|a: DirItem, b: DirItem|
            #![trigger before(a, b)]
            !(before(a, b) && before(b, a)) by {
            let (x, y) = ((a.name@, a.is_dir), (b.name@, b.is_dir));
            assert(!(inner(x, y) && inner(y, x)));
        }
        assert forall|a: DirItem, b: DirItem, c: DirItem|
            #![trigger before(a, b), before(b, c)]
            !before(a, b) && !before(b, c) implies !before(a, c) by {
            let (x, y, z) = ((a.name@, a.is_dir), (b.name@, b.is_dir), (c.name@, c.is_dir));
            assert(!inner(x, y) && !inner(y, z));
        }
    }

    fn is_before(&self, a: &DirItem, b: &DirItem) -> (r: bool) {
        if a.is_dir != b.is_dir {
            return a.is_dir;
        }
        let x = widen(&a.name);
        let y = widen(&b.name);
        chars_before(x.as_slice(), y.as_slice())
    }
}

/// The line for an item of a directory.
pub open spec fn item_line(e: ItemView) -> Seq<char> {
    if e.1 {
        text::lossy_text(e.0) + "/"@
    } else {
        text::lossy_text(e.0)
    }
}

/// What is shown of a directory: a title, and the first items in order, with a
/// note of how many more there are.
pub open spec fn directory_preview(path: Seq<char>, items: Seq<ItemView>, max_lines: nat) -> Seq<
    Seq<char>,
> {
    let room = if max_lines > 0 {
        (max_lines - 1) as nat
    } else {
        0
    };
    let title = seq!["Directory: "@ + path];
    let sorted = order::ranked(items, listed_before());
    let shown = history::at_most(sorted, room).map_values(|e: ItemView| item_line(e));
    if room == 0 {
        title
    } else if items.len() == 0 {
        title.push("[empty directory]"@)
    } else if items.len() > room {
        (title + shown).push(
            "\u{2026} "@ + number::decimal((items.len() - room) as nat) + " more"@,
        )
    } else {
        title + shown
    }
}

fn show_item(e: &DirItem) -> (r: String)
    ensures
        r@ == item_line((e.name@, e.is_dir)),
{
    let mut r = text_from_bytes(e.name.as_slice());
    if e.is_dir {
        r.append("/");
    }
    r
}

/// What is shown of a directory with these items.
pub fn read_directory_preview(path: &str, items: &Vec<DirItem>, max_lines: usize) -> (r: Vec<
    String,
>)
    ensures
        text::text_views(r@) == directory_preview(
            path@,
            item_views(items@),
            max_lines as nat,
        ),
{
    let mut title = String::new();
    title.append("Directory: ");
    title.append(path);
    proof {
        assert(title@ =~= "Directory: "@ + path@);
    }
    let mut r: Vec<String> = Vec::new();
    r.push(title);
    let ghost head = seq!["Directory: "@ + path@];
    proof {
        assert(text::text_views(r@) =~= head);
    }
    if max_lines <= 1 {
        return r;
    }
    let room: usize = max_lines - 1;
    if items.len() == 0 {
        let ghost before = r@;
        r.push("[empty directory]".to_owned());
        proof {
            assert(text::text_views(r@) =~= head.push("[empty directory]"@));
        }
        return r;
    }
    let ranking = Listed;
    let order = sorted_places(&ranking, items);
    let ghost views = item_views(items@);
    let ghost sorted = order::ranked(views, listed_before());
    proof {
        let size: usize = items.len();
        ranking.strict_weak_order();
        lemma_listed_before();
        order::lemma_ranked_map(
            items@,
            |e: DirItem| (e.name@, e.is_dir),
            ranking.before(),
            listed_before(),
        );
    }
    let count: usize = if items.len() > room {
        room
    } else {
        items.len()
    };
    let ghost lines = sorted.map_values(|e: ItemView| item_line(e));
    let mut i: usize = 0;
    proof {
        assert(head + lines.take(0) =~= head);
    }
    while i < count
        invariant
            i <= count <= items@.len(),
            order@.len() == items@.len(),
            forall|k: int| 0 <= k < order@.len() ==> #[trigger] order@[k] < items@.len(),
            sorted == order::at_places(items@, order@).map_values(
                |e: DirItem| (e.name@, e.is_dir),
            ),
            lines == sorted.map_values(|e: ItemView| item_line(e)),
            text::text_views(r@) == head + lines.take(i as int),
        decreases count - i,
    {
        let ghost before = r@;
        let line = show_item(&items[order[i]]);
        r.push(line);
        proof {
            assert(lines[i as int] == line@);
            assert(text::text_views(r@) =~= text::text_views(before).push(line@));
            assert(head + lines.take(i + 1) =~= (head + lines.take(i as int)).push(
                lines[i as int],
            ));
        }
        i += 1;
    }
    proof {
        let shown = history::at_most(sorted, room as nat).map_values(|e: ItemView| item_line(e));
        assert(lines.take(count as int) =~= shown);
    }
    if items.len() > room {
        let ghost before = r@;
        let mut more = String::new();
        more.append("\u{2026} ");
        push_decimal(&mut more, (items.len() - room) as u128);
        more.append(" more");
        proof {
            assert(more@ =~= "\u{2026} "@ + number::decimal((items@.len() - room) as nat)
                + " more"@);
        }
        r.push(more);
        proof {
            assert(text::text_views(r@) =~= text::text_views(before).push(more@));
        }
    }
    r
}

// ---------------------------------------------------------------------------
// Styles
// ---------------------------------------------------------------------------

/// What could be read for a preview.
pub enum PreviewSource {
    /// Nothing.
    Unreadable,
    /// A directory, but not what is in it.
    ClosedDirectory,
    /// What is in a directory.
    Directory(Vec<DirItem>),
    /// The lines at the start of a file, as far as they are text.
    File(Vec<String>),
}

/// What is shown of a path.
pub open spec fn path_preview(path: Seq<char>, source: PreviewSource) -> Seq<Seq<char>> {
    if path.len() == 0 {
        seq!["No file selected"@]
    } else {
        match source {
            PreviewSource::Unreadable => seq!["[Cannot read file]"@],
            PreviewSource::ClosedDirectory => seq!["[Cannot read directory]"@],
            PreviewSource::Directory(items) => directory_preview(
                path,
                item_views(items@),
                PREVIEW_LINES as nat,
            ),
            PreviewSource::File(lines) => file_preview(
                history::at_most(text::text_views(lines@), PREVIEW_LINES as nat),
            ),
        }
    }
}

proof fn lemma_doubled_len(text: Seq<char>, c: char, by: Seq<char>)
    requires
        by.len() == 2,
    ensures
        text::replace(text, seq![c], by).len() <= 2 * text.len(),
    decreases text.len(),
{
    if text.len() > 0 {
        lemma_doubled_len(text.skip(1), c, by);
        lemma_doubled_len(text.drop_first(), c, by);
    }
}

/// Where a path is no directory, no line that is shown has more than twice the characters
/// that lines are cut to.
pub proof fn lemma_file_lines_are_short(path: Seq<char>, source: PreviewSource)
    requires
        !(source is Directory),
    ensures
        forall|i: int|
            0 <= i < path_preview(path, source).len() ==> (#[trigger] path_preview(
                path,
                source,
            )[i]).len() <= 120,
{
    reveal_strlit("No file selected");
    reveal_strlit("[Cannot read file]");
    reveal_strlit("[Cannot read directory]");
    reveal_strlit("[Binary file]");
    reveal_strlit("[Empty file]");
    reveal_strlit("...");
    reveal_strlit("  ");
    if path.len() > 0 {
        if let PreviewSource::File(lines) = source {
            let read = history::at_most(text::text_views(lines@), PREVIEW_LINES as nat);
            assert forall|line: Seq<char>| #[trigger] shown_line(line).len() <= 120 by {
                lemma_doubled_len(cut_line(line), '\t', "  "@);
            }
            assert forall|i: int| 0 <= i < file_preview(read).len() implies (
            #[trigger] file_preview(read)[i]).len() <= 120 by {
                let kept = read.take(fitting(read, 0));
                if file_preview(read) == kept.map_values(|line: Seq<char>| shown_line(line)) {
                    assert(file_preview(read)[i] == shown_line(kept[i]));
                }
            }
        }
    }
}

/// What is shown of a path.
pub fn preview_of(path: &str, source: PreviewSource) -> (r: Vec<String>)
    ensures
        text::text_views(r@) == path_preview(path@, source),
{
    if is_empty_text(path) {
        return one_text("No file selected");
    }
    match source {
        PreviewSource::Unreadable => one_text("[Cannot read file]"),
        PreviewSource::ClosedDirectory => one_text("[Cannot read directory]"),
        PreviewSource::Directory(items) => read_directory_preview(path, &items, PREVIEW_LINES),
        PreviewSource::File(lines) => {
            let ghost all = text::text_views(lines@);
            let mut shown = lines;
            shown.truncate(PREVIEW_LINES);
            proof {
                assert(text::text_views(shown@) =~= history::at_most(all, PREVIEW_LINES as nat));
            }
            read_preview(&shown)
        },
    }
}

/// Lines without a style.
pub open spec fn plain_lines(lines: Seq<Seq<char>>) -> Seq<Seq<style::SpanView>> {
    lines.map_values(|line: Seq<char>| style::one_span(line, Color::Plain))
}

/// Shows lines without a style.
pub fn plain_preview(lines: &Vec<String>) -> (r: Vec<StyledLine>)
    ensures
        style::line_views(r@) == plain_lines(text::text_views(lines@)),
{
    let ghost all = plain_lines(text::text_views(lines@));
    let mut r: Vec<StyledLine> = Vec::new();
    let mut i: usize = 0;
    proof {
        assert(style::line_views(r@) =~= all.take(0));
    }
    while i < lines.len()
        invariant
            i <= lines@.len(),
            all == plain_lines(text::text_views(lines@)),
            style::line_views(r@) == all.take(i as int),
        decreases lines.len() - i,
    {
        let ghost before = r@;
        let line = StyledLine::one(lines[i].clone(), Color::Plain);
        r.push(line);
        proof {
            assert(all[i as int] == line@);
            assert(style::line_views(r@) =~= style::line_views(before).push(line@));
            assert(all.take(i + 1) =~= all.take(i as int).push(all[i as int]));
        }
        i += 1;
    }
    proof {
        assert(all.take(all.len() as int) =~= all);
    }
    r
}

// ---------------------------------------------------------------------------
// What a preview shows
// ---------------------------------------------------------------------------

/// A line of up to 60 characters is shown whole. Of a longer one the first 57 characters are
/// shown, and three dots.
pub proof fn lemma_cut_line(line: Seq<char>)
    ensures
        line.len() <= 60 ==> cut_line(line) == line,
        line.len() > 60 ==> cut_line(line).len() == 60 && line.take(57).is_prefix_of(
            cut_line(line),
        ) && cut_line(line).skip(57) == "..."@,
        !line.contains('\t') ==> shown_line(line) == cut_line(line),
{
    reveal_strlit("...");
    if line.len() > 60 {
        assert(line.take(57) =~= cut_line(line).subrange(0, 57));
        assert(cut_line(line).skip(57) =~= "..."@);
    }
    if !line.contains('\t') {
        assert(!cut_line(line).contains('\t')) by {
            if cut_line(line).contains('\t') {
                let k = cut_line(line).index_of('\t');
                if line.len() <= 60 || k < 57 {
                    assert(line[k] == '\t');
                } else {
                    assert(cut_line(line)[k] == "..."@[k - 57]);
                }
            }
        }
        text_laws::lemma_replace_nothing(cut_line(line), '\t', "  "@);
    }
}

/// For each tab of a line that is shown two spaces are, where it stood; everything else stays.
pub proof fn lemma_tabs(a: Seq<char>, b: Seq<char>)
    requires
        a.len() + 1 + b.len() <= 60,
    ensures
        shown_line(a.push('\t') + b) == shown_line(a) + "  "@ + shown_line(b),
{
    text_laws::lemma_replace_char(a, '\t', b, '\t', "  "@);
}

/// The lines of a file are shown in their order, from the first on, as many as have up to 16384
/// bytes together. If one of these holds a byte that is no text, or there are none, a note says
/// so.
pub proof fn lemma_file_preview(lines: Seq<Seq<char>>, n: int)
    requires
        0 <= n <= lines.len(),
        total_bytes(lines.take(n)) <= 16_384,
        n == lines.len() || total_bytes(lines.take(n + 1)) > 16_384,
    ensures
        n > 0 && (forall|i: int| 0 <= i < n ==> !(#[trigger] lines[i]).contains('\0'))
            ==> file_preview(lines).len() == n && (forall|i: int|
            0 <= i < n ==> (#[trigger] file_preview(lines)[i]) == shown_line(lines[i])),
        (exists|i: int| 0 <= i < n && (#[trigger] lines[i]).contains('\0')) ==> file_preview(lines)
            == seq!["[Binary file]"@],
        n == 0 ==> file_preview(lines) == seq!["[Empty file]"@],
{
    lemma_fitting_is(lines, n, 0);
    let kept = lines.take(n);
    if exists|i: int| 0 <= i < n && (#[trigger] lines[i]).contains('\0') {
        let i = choose|i: int| 0 <= i < n && (#[trigger] lines[i]).contains('\0');
        assert(kept[i].contains('\0'));
    } else {
        assert forall|i: int| 0 <= i < kept.len() implies !(#[trigger] kept[i]).contains('\0') by {
            assert(kept[i] == lines[i]);
        }
    }
}

proof fn lemma_total_grows(lines: Seq<Seq<char>>, i: int, j: int)
    requires
        0 <= i <= j <= lines.len(),
    ensures
        total_bytes(lines.take(i)) <= total_bytes(lines.take(j)),
    decreases j - i,
{
    if i < j {
        lemma_total_grows(lines, i, j - 1);
        assert(lines.take(j).drop_last() =~= lines.take(j - 1));
    }
}

proof fn lemma_fitting_is(lines: Seq<Seq<char>>, n: int, k: int)
    requires
        0 <= k <= n <= lines.len(),
        total_bytes(lines.take(n)) <= MAX_BYTES,
        n == lines.len() || total_bytes(lines.take(n + 1)) > MAX_BYTES,
    ensures
        fitting(lines, k) == n,
    decreases n - k,
{
    if k < n {
        lemma_total_grows(lines, k + 1, n);
        lemma_fitting_is(lines, n, k + 1);
    }
}

/// The bytes of some lines are those of each added up.
pub proof fn lemma_total_bytes(lines: Seq<Seq<char>>)
    ensures
        total_bytes(lines) == lines.map_values(
            |line: Seq<char>| vstd::utf8::encode_utf8(line).len() as int,
        ).fold_left(0int, |a: int, b: int| a + b),
    decreases lines.len(),
{
    let f = |line: Seq<char>| vstd::utf8::encode_utf8(line).len() as int;
    if lines.len() > 0 {
        lemma_total_bytes(lines.drop_last());
        assert(lines.map_values(f).drop_last() =~= lines.drop_last().map_values(f));
        encoding::lemma_byte_len_encoding(lines.last());
    }
}

/// A preview shows no more than the first 40 lines of a file.
pub proof fn lemma_first_lines_count(path: Seq<char>, lines: Vec<String>, more: Vec<String>)
    requires
        path.len() > 0,
        lines@.len() >= 40,
        more@.len() >= 40,
        forall|i: int| 0 <= i < 40 ==> (#[trigger] lines@[i])@ == more@[i]@,
    ensures
        path_preview(path, PreviewSource::File(lines)) == path_preview(
            path,
            PreviewSource::File(more),
        ),
{
    let (a, b) = (text::text_views(lines@), text::text_views(more@));
    assert(history::at_most(a, PREVIEW_LINES as nat) =~= history::at_most(
        b,
        PREVIEW_LINES as nat,
    ));
}

/// Whether one item of a directory may stand in front of another: directories in front of
/// files, and else by name.
pub open spec fn may_stand_before(a: ItemView, b: ItemView) -> bool {
    (a.1 && !b.1) || (a.1 == b.1 && !text::text_lt(widened(b.0), widened(a.0)))
}

/// A directory is shown with its path in front, and then its items: directories first, each
/// kind by name. If there is no room for all, a note tells how many are left out.
pub proof fn lemma_directory_preview(path: Seq<char>, items: Seq<ItemView>, max_lines: nat)
    requires
        items.len() <= usize::MAX,
        max_lines > 1,
    ensures
        ({
            let out = directory_preview(path, items, max_lines);
            let sorted = order::ranked(items, listed_before());
            let count = if items.len() < max_lines {
                items.len() as int
            } else {
                max_lines - 1
            };
            &&& out.len() > 0 && out[0] == "Directory: "@ + path
            &&& sorted.to_multiset() == items.to_multiset()
            &&& forall|i: int, j: int|
                0 <= i < j < sorted.len() ==> may_stand_before(
                    #[trigger] sorted[i],
                    #[trigger] sorted[j],
                )
            &&& items.len() == 0 ==> out == seq!["Directory: "@ + path, "[empty directory]"@]
            &&& items.len() > 0 ==> forall|i: int|
                0 <= i < count ==> #[trigger] out[i + 1] == text::lossy_text(sorted[i].0) + (
                if sorted[i].1 {
                    "/"@
                } else {
                    ""@
                })
            &&& 0 < items.len() < max_lines ==> out.len() == items.len() + 1
            &&& items.len() >= max_lines ==> out.len() == max_lines + 1 && out.last()
                == "\u{2026} "@ + number::decimal((items.len() - count) as nat) + " more"@
        }),
{
    reveal_strlit("");
    lemma_listed_before();
    order::lemma_ranked(items, listed_before());
    let out = directory_preview(path, items, max_lines);
    let sorted = order::ranked(items, listed_before());
    let room = (max_lines - 1) as nat;
    let title = seq!["Directory: "@ + path];
    let shown = history::at_most(sorted, room).map_values(|e: ItemView| item_line(e));
    assert forall|i: int, j: int| 0 <= i < j < sorted.len() implies may_stand_before(
        #[trigger] sorted[i],
        #[trigger] sorted[j],
    ) by {
        assert(!(listed_before())(sorted[j], sorted[i]));
    }
    if items.len() > 0 {
        let count = if items.len() < max_lines {
            items.len() as int
        } else {
            max_lines - 1
        };
        assert forall|i: int| 0 <= i < count implies #[trigger] out[i + 1] == text::lossy_text(
            sorted[i].0,
        ) + (if sorted[i].1 {
            "/"@
        } else {
            ""@
        }) by {
            assert(out[i + 1] == shown[i]);
            assert(shown[i] == item_line(sorted[i]));
            assert(text::lossy_text(sorted[i].0) + ""@ =~= text::lossy_text(sorted[i].0));
        }
    }
    assert(items.len() == 0 ==> out =~= seq!["Directory: "@ + path, "[empty directory]"@]);
}

/// Without a path nothing is read. What cannot be read is named, a file and a directory in
/// different words. A directory shows its title first, whatever it holds.
pub proof fn lemma_path_preview(path: Seq<char>, source: PreviewSource, items: Vec<DirItem>)
    requires
        path.len() > 0,
    ensures
        path_preview(Seq::empty(), source) == seq!["No file selected"@],
        path_preview(path, PreviewSource::Unreadable) == seq!["[Cannot read file]"@],
        path_preview(path, PreviewSource::ClosedDirectory) == seq!["[Cannot read directory]"@],
        path_preview(path, PreviewSource::Directory(items))[0] == "Directory: "@ + path,
        items@.len() == 0 ==> path_preview(path, PreviewSource::Directory(items)) == seq![
            "Directory: "@ + path,
            "[empty directory]"@,
        ],
{
    let title = seq!["Directory: "@ + path];
    assert(title.push("[empty directory]"@) =~= seq!["Directory: "@ + path, "[empty directory]"@]);
    assert(path_preview(path, PreviewSource::Directory(items))[0] == title[0]);
    if items@.len() == 0 {
        assert(item_views(items@).len() == 0);
    }
}

/// Of a file no more than 40 lines are shown, and all of these if they have no more than 16384
/// bytes and are text. Of a directory 39 items are shown at most, with the title above them and
/// how many there are more below.
pub proof fn lemma_preview_is_short(path: Seq<char>, lines: Vec<String>, items: Vec<DirItem>)
    requires
        path.len() > 0,
        items@.len() <= usize::MAX,
    ensures
        path_preview(path, PreviewSource::File(lines)).len() <= 40,
        lines@.len() >= 40 && total_bytes(text::text_views(lines@).take(40)) <= 16384 && (forall|
            i: int,
        |
            0 <= i < 40 ==> !(#[trigger] lines@[i])@.contains('\0')) ==> path_preview(
            path,
            PreviewSource::File(lines),
        ).len() == 40,
        path_preview(path, PreviewSource::Directory(items)).len() <= 41,
        0 < items@.len() <= 39 ==> path_preview(path, PreviewSource::Directory(items)).len()
            == items@.len() + 1,
        items@.len() > 39 ==> path_preview(path, PreviewSource::Directory(items)).len() == 41,
{
    let all = history::at_most(text::text_views(lines@), PREVIEW_LINES as nat);
    lemma_fitting_bounds(all, 0);
    if lines@.len() >= 40 && total_bytes(text::text_views(lines@).take(40)) <= 16384 && (forall|
        i: int,
    |
        0 <= i < 40 ==> !(#[trigger] lines@[i])@.contains('\0')) {
        assert(all =~= text::text_views(lines@).take(40));
        assert(all.take(40) =~= all);
        lemma_all_fit(all, 0);
        assert forall|i: int| 0 <= i < all.len() implies !(#[trigger] all[i]).contains('\0') by {
            assert(all[i] == lines@[i]@);
        }
    }
    lemma_listed_before();
    order::lemma_ranked(item_views(items@), listed_before());
}

proof fn lemma_fitting_bounds(lines: Seq<Seq<char>>, n: int)
    requires
        0 <= n <= lines.len(),
    ensures
        n <= fitting(lines, n) <= lines.len(),
    decreases lines.len() - n,
{
    if n < lines.len() && total_bytes(lines.take(n + 1)) <= MAX_BYTES {
        lemma_fitting_bounds(lines, n + 1);
    }
}

proof fn lemma_bytes_grow(lines: Seq<Seq<char>>, n: int)
    requires
        0 <= n <= lines.len(),
    ensures
        total_bytes(lines.take(n)) <= total_bytes(lines),
    decreases lines.len(),
{
    if n < lines.len() {
        lemma_bytes_grow(lines.drop_last(), n);
        assert(lines.drop_last().take(n) =~= lines.take(n));
    } else {
        assert(lines.take(n) =~= lines);
    }
}

proof fn lemma_all_fit(lines: Seq<Seq<char>>, n: int)
    requires
        0 <= n <= lines.len(),
        total_bytes(lines) <= MAX_BYTES,
    ensures
        fitting(lines, n) == lines.len(),
    decreases lines.len() - n,
{
    if n < lines.len() {
        lemma_bytes_grow(lines, n + 1);
        lemma_all_fit(lines, n + 1);
    }
}

} // verus!
