//! What a terminal makes of what is written to it.
use vstd::prelude::*;
use vstd::string::*;

use crate::kitty;
use crate::number;
use crate::number::push_decimal;
use crate::text;
use crate::text::chars_of;
use crate::text::contains_chars;
use crate::text::find_chars_from;
use crate::text::next_place;
use crate::text::occurs;
use crate::text::sub_chars;
use crate::text::text_from_bytes;

verus! {

/// What has been seen of a terminal: whether the cursor is visible and stands at the
/// input, how many images were shown, how many of these while the cursor was visible,
/// and how often the cursor was shown elsewhere than at the input.
pub struct TerminalState {
    pub cursor_visible: bool,
    pub cursor_at_input: bool,
    pub renders: u128,
    pub renders_visible: u128,
    pub shown_astray: u128,
}

/// The same, with counts of any size.
pub ghost struct SeenView {
    pub visible: bool,
    pub at_input: bool,
    pub renders: nat,
    pub renders_visible: nat,
    pub astray: nat,
}

impl View for TerminalState {
    type V = SeenView;

    open spec fn view(&self) -> SeenView {
        SeenView {
            visible: self.cursor_visible,
            at_input: self.cursor_at_input,
            renders: self.renders as nat,
            renders_visible: self.renders_visible as nat,
            astray: self.shown_astray as nat,
        }
    }
}

/// Whether a character is a letter of ASCII.
pub open spec fn is_letter(c: char) -> bool {
    ('a' <= c && c <= 'z') || ('A' <= c && c <= 'Z')
}

/// The first letter at or after a place.
pub open spec fn next_letter(s: Seq<char>, from: int) -> Option<int>
    decreases s.len() - from,
{
    if from < 0 || from >= s.len() {
        None
    } else if is_letter(s[from]) {
        Some(from)
    } else {
        next_letter(s, from + 1)
    }
}

/// The start of the graphics command at a place: what stands in front of the first
/// semicolon.
pub open spec fn command_header(s: Seq<char>, p: int) -> Seq<char> {
    match text::next_index(s, ';', p) {
        Some(k) => s.subrange(p, k),
        None => s.skip(p),
    }
}

/// Whether a graphics command shows an image. Handing data over and taking an image
/// away do not.
pub open spec fn shows_image(header: Seq<char>) -> bool {
    text::contains(header, "a=p"@) || text::contains(header, "a=T"@)
}

/// What the terminal makes of what stands at a place: the place behind it, and what
/// has been seen then.
pub open spec fn read_one(s: Seq<char>, p: int, input: Seq<char>, seen: SeenView) -> (int, SeenView) {
    if text::occurs_at(s, kitty::cursor_show(), p) {
        (
            p + 6,
            SeenView {
                visible: true,
                astray: if seen.at_input {
                    seen.astray
                } else {
                    seen.astray + 1
                },
                ..seen
            },
        )
    } else if text::occurs_at(s, kitty::cursor_hide(), p) {
        (p + 6, SeenView { visible: false, ..seen })
    } else if text::occurs_at(s, input, p) {
        (p + input.len(), SeenView { at_input: true, ..seen })
    } else if text::occurs_at(s, "\x1b["@, p) && !text::occurs_at(s, "\x1b[?"@, p) {
        (
            match next_letter(s, p + 2) {
                Some(k) => k + 1,
                None => p + 1,
            },
            SeenView { at_input: false, ..seen },
        )
    } else if text::occurs_at(s, "\x1b_G"@, p) {
        (
            match text::find_from(s, "\x1b\\"@, p + 2) {
                Some(k) => k + 2,
                None => p + 1,
            },
            if shows_image(command_header(s, p)) {
                SeenView {
                    renders: seen.renders + 1,
                    renders_visible: if seen.visible {
                        seen.renders_visible + 1
                    } else {
                        seen.renders_visible
                    },
                    ..seen
                }
            } else {
                seen
            },
        )
    } else {
        (p + 1, seen)
    }
}

/// What has been seen once a text has been read from a place on.
pub open spec fn read_from(s: Seq<char>, p: int, input: Seq<char>, seen: SeenView) -> SeenView
    decreases s.len() - p,
{
    if p < 0 || p >= s.len() {
        seen
    } else {
        let (q, after) = read_one(s, p, input, seen);
        if p < q < s.len() {
            read_from(s, q, input, after)
        } else {
            after
        }
    }
}

/// What has been seen once some texts have been read.
pub open spec fn read_all(texts: Seq<Seq<char>>, input: Seq<char>, seen: SeenView) -> SeenView
    decreases texts.len(),
{
    if texts.len() == 0 {
        seen
    } else {
        read_from(texts.last(), 0, input, read_all(texts.drop_last(), input, seen))
    }
}

fn letter(c: char) -> (r: bool)
    ensures
        r == is_letter(c),
{
    ('a' <= c && c <= 'z') || ('A' <= c && c <= 'Z')
}

fn letter_from(s: &[char], from: usize) -> (r: Option<usize>)
    ensures
        match r {
            Some(k) => next_letter(s@, from as int) == Some(k as int) && from <= k < s@.len(),
            None => next_letter(s@, from as int) is None,
        },
{
    let mut k: usize = from;
    while k < s.len()
        invariant
            from <= k,
            k <= s@.len() || k == from,
            next_letter(s@, from as int) == next_letter(s@, k as int),
        decreases s.len() - k,
    {
        if letter(s[k]) {
            return Some(k);
        }
        k += 1;
    }
    None
}

fn header_at(s: &[char], p: usize) -> (r: Vec<char>)
    requires
        p < s@.len(),
    ensures
        r@ == command_header(s@, p as int),
{
    proof {
        text::lemma_next_index(s@, ';', p as int);
    }
    let size: usize = s.len();
    let end: usize = match next_place(s, ';', p) {
        Some(k) => k,
        None => size,
    };
    let r = sub_chars(s, p, end);
    proof {
        assert(r@ =~= command_header(s@, p as int));
    }
    r
}

/// Reads a text.
fn read_text(s: &[char], input: &[char], state: &mut TerminalState)
    requires
        input@.len() > 0,
        old(state).renders + s@.len() <= u128::MAX,
        old(state).renders_visible + s@.len() <= u128::MAX,
        old(state).shown_astray + s@.len() <= u128::MAX,
    ensures
        final(state)@ == read_from(s@, 0, input@, old(state)@),
        final(state).renders <= old(state).renders + s@.len(),
        final(state).renders_visible <= old(state).renders_visible + s@.len(),
        final(state).shown_astray <= old(state).shown_astray + s@.len(),
{
    let show = chars_of("\x1b[?25h");
    let hide = chars_of("\x1b[?25l");
    let escape = chars_of("\x1b[");
    let private = chars_of("\x1b[?");
    let graphics = chars_of("\x1b_G");
    let close = chars_of("\x1b\\");
    let place = chars_of("a=p");
    let both = chars_of("a=T");
    proof {
        reveal_strlit("\x1b[?25h");
        reveal_strlit("\x1b[?25l");
        reveal_strlit("\x1b\\");
    }
    let size: usize = s.len();
    let mut p: usize = 0;
    while p < size
        invariant
            p <= size,
            size == s@.len(),
            input@.len() > 0,
            show@ == kitty::cursor_show(),
            show@.len() == 6,
            hide@ == kitty::cursor_hide(),
            hide@.len() == 6,
            escape@ == "\x1b["@,
            private@ == "\x1b[?"@,
            graphics@ == "\x1b_G"@,
            close@ == "\x1b\\"@,
            close@.len() == 2,
            place@ == "a=p"@,
            both@ == "a=T"@,
            old(state).renders + size <= u128::MAX,
            old(state).renders_visible + size <= u128::MAX,
            old(state).shown_astray + size <= u128::MAX,
            state.renders <= old(state).renders + p,
            state.renders_visible <= old(state).renders_visible + p,
            state.shown_astray <= old(state).shown_astray + p,
            read_from(s@, p as int, input@, state@) == read_from(s@, 0, input@, old(state)@),
        decreases size - p,
    {
        if occurs(s, &show, p) {
            if !state.cursor_at_input {
                state.shown_astray = state.shown_astray + 1;
            }
            state.cursor_visible = true;
            p += 6;
        } else if occurs(s, &hide, p) {
            state.cursor_visible = false;
            p += 6;
        } else if occurs(s, input, p) {
            state.cursor_at_input = true;
            p += input.len();
        } else if occurs(s, &escape, p) && !occurs(s, &private, p) {
            state.cursor_at_input = false;
            proof {
                reveal_strlit("\x1b[");
            }
            p = match letter_from(s, p + 2) {
                Some(k) => k + 1,
                None => p + 1,
            };
        } else if occurs(s, &graphics, p) {
            let header = header_at(s, p);
            if contains_chars(&header, &place) || contains_chars(&header, &both) {
                state.renders = state.renders + 1;
                if state.cursor_visible {
                    state.renders_visible = state.renders_visible + 1;
                }
            }
            proof {
                reveal_strlit("\x1b_G");
                text::lemma_find_from(s@, "\x1b\\"@, p + 2);
            }
            p = match find_chars_from(s, &close, p + 2) {
                Some(k) => k + 2,
                None => p + 1,
            };
        } else {
            p += 1;
        }
    }
}

// ---------------------------------------------------------------------------
// Writes
// ---------------------------------------------------------------------------

/// Something that is written to, and what has been written.
pub struct WriteRecorder<W> {
    pub inner: W,
    pub writes: Vec<Vec<u8>>,
}

impl<W> WriteRecorder<W> {
    /// Before anything has been written.
    pub fn new(inner: W) -> (r: Self)
        ensures
            r.inner == inner,
            r.writes@.len() == 0,
    {
        WriteRecorder { inner, writes: Vec::new() }
    }

    /// Notes that so many of some bytes have been written.
    pub fn record(&mut self, bytes: &[u8], count: usize)
        requires
            count <= bytes@.len(),
        ensures
            final(self).inner == old(self).inner,
            final(self).writes@.len() == old(self).writes@.len() + 1,
            final(self).writes@.drop_last() == old(self).writes@,
            final(self).writes@.last()@ == bytes@.take(count as int),
    {
        let mut written: Vec<u8> = Vec::new();
        let mut i: usize = 0;
        while i < count
            invariant
                i <= count <= bytes@.len(),
                written@ == bytes@.take(i as int),
            decreases count - i,
        {
            written.push(bytes[i]);
            i += 1;
            proof {
                assert(bytes@.take(i as int) =~= bytes@.take(i - 1).push(bytes@[i - 1]));
            }
        }
        let ghost before = self.writes@;
        self.writes.push(written);
        proof {
            assert(self.writes@.drop_last() =~= before);
        }
    }
}

/// The texts of some writes.
pub open spec fn write_texts(writes: Seq<Vec<u8>>) -> Seq<Seq<char>> {
    writes.map_values(|w: Vec<u8>| text::lossy_text(w@))
}

/// Whether the cursor has been hidden and not been shown again, once some texts have
/// been written.
pub open spec fn hide_pending(texts: Seq<Seq<char>>) -> bool
    decreases texts.len(),
{
    texts.len() > 0 && !text::contains(texts.last(), kitty::cursor_show()) && (text::contains(
        texts.last(),
        kitty::cursor_hide(),
    ) || hide_pending(texts.drop_last()))
}

/// How many of some texts leave the cursor hidden.
pub open spec fn split_count(texts: Seq<Seq<char>>) -> nat
    decreases texts.len(),
{
    if texts.len() == 0 {
        0
    } else {
        split_count(texts.drop_last()) + if hide_pending(texts) {
            1nat
        } else {
            0
        }
    }
}

/// How many bytes some writes have together.
pub open spec fn total_size(writes: Seq<Vec<u8>>) -> nat
    decreases writes.len(),
{
    if writes.len() == 0 {
        0
    } else {
        total_size(writes.drop_last()) + writes.last()@.len()
    }
}

/// What can be said of some writes.
pub struct WriteReport {
    pub writes: usize,
    pub total_bytes: u128,
    /// The sizes of the smallest, an average and the largest write, if there are any.
    pub sizes: Option<(usize, u128, usize)>,
    pub terminal: TerminalState,
    pub split_flushes: usize,
}

/// Whether these are the sizes of the smallest, an average and the largest write.
pub open spec fn are_sizes(writes: Seq<Vec<u8>>, min: usize, average: u128, max: usize) -> bool {
    &&& exists|i: int| 0 <= i < writes.len() && (#[trigger] writes[i])@.len() == min
    &&& exists|i: int| 0 <= i < writes.len() && (#[trigger] writes[i])@.len() == max
    &&& forall|i: int| 0 <= i < writes.len() ==> min <= (#[trigger] writes[i])@.len() <= max
    &&& average == total_size(writes) / writes.len()
}

/// The state of a terminal of which nothing has been seen.
pub open spec fn unseen() -> SeenView {
    SeenView { visible: false, at_input: false, renders: 0, renders_visible: 0, astray: 0 }
}

fn move_text(column: u32, row: u32) -> (r: String)
    ensures
        r@ == kitty::cursor_move(column as int, row as int),
{
    let mut r = String::new();
    r.append("\x1b[");
    push_decimal(&mut r, row as u128);
    r.append(";");
    push_decimal(&mut r, column as u128);
    r.append("H");
    proof {
        assert(r@ =~= kitty::cursor_move(column as int, row as int));
    }
    r
}

/// Goes through some writes as a terminal would, with the input at a column and a row.
/// An image that is shown while the cursor is visible makes it flicker.
pub fn analyze_writes(writes: &Vec<Vec<u8>>, cursor_input: (u16, u16)) -> (r: WriteReport)
    ensures
        r.writes == writes@.len(),
        r.total_bytes == total_size(writes@),
        match r.sizes {
            Some((min, average, max)) => writes@.len() > 0 && are_sizes(writes@, min, average, max),
            None => writes@.len() == 0,
        },
        r.terminal@ == read_all(
            write_texts(writes@),
            kitty::cursor_move(cursor_input.0 + 1, cursor_input.1 + 1),
            unseen(),
        ),
        r.split_flushes == split_count(write_texts(writes@)),
{
    let show = chars_of("\x1b[?25h");
    let hide = chars_of("\x1b[?25l");
    let input = chars_of(move_text(cursor_input.0 as u32 + 1, cursor_input.1 as u32 + 1).as_str());
    let mut terminal = TerminalState {
        cursor_visible: false,
        cursor_at_input: false,
        renders: 0,
        renders_visible: 0,
        shown_astray: 0,
    };
    let mut total_bytes: u128 = 0;
    let mut smallest: usize = 0;
    let mut largest: usize = 0;
    let mut pending = false;
    let mut split_flushes: usize = 0;
    let ghost texts = write_texts(writes@);
    proof {
        reveal_strlit("H");
        assert(texts.take(0) =~= Seq::<Seq<char>>::empty());
        assert(writes@.take(0) =~= Seq::<Vec<u8>>::empty());
    }
    let mut i: usize = 0;
    while i < writes.len()
        invariant
            i <= writes@.len(),
            texts == write_texts(writes@),
            show@ == kitty::cursor_show(),
            hide@ == kitty::cursor_hide(),
            input@ == kitty::cursor_move(cursor_input.0 + 1, cursor_input.1 + 1),
            input@.len() > 0,
            terminal@ == read_all(texts.take(i as int), input@, unseen()),
            terminal.renders <= i * 0xffff_ffff_ffff_ffff,
            terminal.renders_visible <= i * 0xffff_ffff_ffff_ffff,
            terminal.shown_astray <= i * 0xffff_ffff_ffff_ffff,
            total_bytes == total_size(writes@.take(i as int)),
            total_bytes <= i * 0xffff_ffff_ffff_ffff,
            i > 0 ==> exists|j: int| 0 <= j < i && (#[trigger] writes@[j])@.len() == smallest,
            i > 0 ==> exists|j: int| 0 <= j < i && (#[trigger] writes@[j])@.len() == largest,
            forall|j: int| 0 <= j < i ==> smallest <= (#[trigger] writes@[j])@.len() <= largest,
            pending == hide_pending(texts.take(i as int)),
            split_flushes == split_count(texts.take(i as int)),
            split_flushes <= i,
        decreases writes.len() - i,
    {
        let write = &writes[i];
        let length: usize = write.len();
        let chars = chars_of(text_from_bytes(write.as_slice()).as_str());
        let count: usize = chars.len();
        proof {
            assert(texts.take(i + 1).drop_last() =~= texts.take(i as int));
            assert(texts.take(i + 1).last() == chars@);
            assert(writes@.take(i + 1).drop_last() =~= writes@.take(i as int));
            assert(writes@.take(i + 1).last() == *write);
            assert(i as nat * 0xffff_ffff_ffff_ffff + 0xffff_ffff_ffff_ffff <= u128::MAX);
        }
        read_text(&chars, &input, &mut terminal);
        total_bytes = total_bytes + length as u128;
        if i == 0 || length < smallest {
            smallest = length;
        }
        if i == 0 || length > largest {
            largest = length;
        }
        if contains_chars(&chars, &hide) {
            pending = true;
        }
        if contains_chars(&chars, &show) {
            pending = false;
        }
        if pending {
            split_flushes = split_flushes + 1;
        }
        i += 1;
    }
    proof {
        assert(texts.take(i as int) =~= texts);
        assert(writes@.take(i as int) =~= writes@);
    }
    let sizes = if writes.len() > 0 {
        Some((smallest, total_bytes / (writes.len() as u128), largest))
    } else {
        None
    };
    WriteReport { writes: writes.len(), total_bytes, sizes, terminal, split_flushes }
}

// ---------------------------------------------------------------------------
// A frame does not flicker
// ---------------------------------------------------------------------------

/// Whether a text is what moves the cursor: it ends with its only letter.
spec fn is_move(m: Seq<char>) -> bool {
    &&& m.len() > 3
    &&& m[0] == '\x1b'
    &&& m[1] == '['
    &&& m[2] != '?'
    &&& m.last() == 'H'
    &&& forall|i: int| 0 <= i < m.len() - 1 ==> !is_letter(#[trigger] m[i])
}

/// Whether a text is one graphics command.
spec fn is_command(cmd: Seq<char>) -> bool {
    &&& cmd.len() > 4
    &&& cmd[0] == '\x1b'
    &&& cmd[1] == '_'
    &&& cmd[2] == 'G'
    &&& cmd[cmd.len() - 2] == '\x1b'
    &&& cmd[cmd.len() - 1] == '\\'
    &&& forall|i: int| 1 <= i < cmd.len() - 2 ==> #[trigger] cmd[i] != '\x1b'
}

/// Whether a character may stand in the start of a command that shows nothing.
spec fn is_calm(c: char) -> bool {
    c != '\x1b' && c != ';' && c != 'p' && c != 'T'
}

spec fn calm_from(s: Seq<char>, from: int) -> bool {
    forall|i: int| from <= i < s.len() ==> is_calm(#[trigger] s[i])
}

proof fn lemma_calm_concat(a: Seq<char>, b: Seq<char>, from: int)
    requires
        0 <= from <= a.len(),
        calm_from(a, from),
        calm_from(b, 0),
    ensures
        calm_from(a + b, from),
{
    assert forall|i: int| from <= i < (a + b).len() implies is_calm(#[trigger] (a + b)[i]) by {
        if i < a.len() {
            assert((a + b)[i] == a[i]);
        } else {
            assert((a + b)[i] == b[i - a.len()]);
        }
    }
}

proof fn lemma_decimal_calm(n: nat)
    ensures
        number::decimal(n).len() > 0,
        calm_from(number::decimal(n), 0),
        forall|i: int|
            0 <= i < number::decimal(n).len() ==> !is_letter(#[trigger] number::decimal(n)[i])
                && number::decimal(n)[i] != '?',
{
    number::lemma_decimal_digits(n);
    assert forall|i: int| 0 <= i < number::decimal(n).len() implies is_calm(
        #[trigger] number::decimal(n)[i],
    ) && !is_letter(number::decimal(n)[i]) && number::decimal(n)[i] != '?' by {
        assert(number::is_digit(number::decimal(n)[i]));
    }
}

proof fn lemma_is_move(column: int, row: int)
    ensures
        is_move(kitty::cursor_move(column, row)),
{
    reveal_strlit("\x1b[");
    reveal_strlit(";");
    reveal_strlit("H");
    let a = number::decimal(row as nat);
    let b = number::decimal(column as nat);
    lemma_decimal_calm(row as nat);
    lemma_decimal_calm(column as nat);
    let m = kitty::cursor_move(column, row);
    assert(m.len() == 2 + a.len() + 1 + b.len() + 1);
    assert(m[2] == a[0]);
    assert forall|i: int| 0 <= i < m.len() - 1 implies !is_letter(#[trigger] m[i]) by {
        if i < 2 {
            assert(m[i] == "\x1b["@[i]);
        } else if i < 2 + a.len() {
            assert(m[i] == a[i - 2]);
        } else if i < 3 + a.len() {
            assert(m[i] == ';');
        } else {
            assert(m[i] == b[i - 3 - a.len()]);
        }
    }
}

proof fn lemma_next_letter(s: Seq<char>, from: int, k: int)
    requires
        0 <= from <= k < s.len(),
        is_letter(s[k]),
        forall|i: int| from <= i < k ==> !is_letter(#[trigger] s[i]),
    ensures
        next_letter(s, from) == Some(k),
    decreases k - from,
{
    if from < k {
        lemma_next_letter(s, from + 1, k);
    }
}

/// What stands in a text that occurs in another.
proof fn lemma_occurs(s: Seq<char>, t: Seq<char>, p: int)
    requires
        text::occurs_at(s, t, p),
    ensures
        forall|i: int| p <= i < p + t.len() ==> #[trigger] s[i] == t[i - p],
        forall|i: int| 0 <= i < t.len() ==> s[p + i] == #[trigger] t[i],
{
    assert forall|i: int| 0 <= i < t.len() implies s[p + i] == #[trigger] t[i] by {
        assert(s.subrange(p, p + t.len())[i] == t[i]);
    }
}

/// A text does not occur where one of its characters does not stand.
proof fn lemma_differs(s: Seq<char>, t: Seq<char>, p: int, i: int)
    requires
        0 <= i < t.len(),
        s[p + i] != t[i],
    ensures
        !text::occurs_at(s, t, p),
{
    if text::occurs_at(s, t, p) {
        assert(s.subrange(p, p + t.len())[i] == s[p + i]);
    }
}

proof fn lemma_read_show(s: Seq<char>, p: int, input: Seq<char>, seen: SeenView)
    requires
        text::occurs_at(s, kitty::cursor_show(), p),
    ensures
        read_one(s, p, input, seen).0 == p + 6,
        kitty::cursor_show().len() == 6,
{
    reveal_strlit("\x1b[?25h");
}

proof fn lemma_read_hide(s: Seq<char>, p: int, input: Seq<char>, seen: SeenView)
    requires
        text::occurs_at(s, kitty::cursor_hide(), p),
    ensures
        read_one(s, p, input, seen) == (p + 6, SeenView { visible: false, ..seen }),
        kitty::cursor_hide().len() == 6,
{
    reveal_strlit("\x1b[?25h");
    reveal_strlit("\x1b[?25l");
    lemma_occurs(s, kitty::cursor_hide(), p);
    if text::occurs_at(s, kitty::cursor_show(), p) {
        lemma_occurs(s, kitty::cursor_show(), p);
        assert(s[p + 5] == kitty::cursor_show()[5]);
        assert(s[p + 5] == kitty::cursor_hide()[5]);
    }
}

proof fn lemma_same_move(s: Seq<char>, p: int, m: Seq<char>, input: Seq<char>)
    requires
        text::occurs_at(s, m, p),
        text::occurs_at(s, input, p),
        is_move(m),
        is_move(input),
    ensures
        m == input,
{
    lemma_occurs(s, m, p);
    lemma_occurs(s, input, p);
    let last = input.len() - 1;
    if input.len() <= m.len() {
        assert(s[p + last] == input[last]);
        assert(s[p + last] == m[last]);
        assert(is_letter(m[last]));
        assert(input.len() == m.len());
    } else {
        assert(s[p + m.len() - 1] == m[m.len() - 1]);
        assert(s[p + m.len() - 1] == input[m.len() - 1]);
        assert(is_letter(input[m.len() - 1]));
    }
    assert(m =~= input);
}

#[verifier::spinoff_prover]
#[verifier::rlimit(30)]
proof fn lemma_read_move(s: Seq<char>, p: int, m: Seq<char>, input: Seq<char>, seen: SeenView)
    requires
        text::occurs_at(s, m, p),
        is_move(m),
        is_move(input),
    ensures
        read_one(s, p, input, seen) == (p + m.len(), SeenView { at_input: m == input, ..seen }),
{
    reveal_strlit("\x1b[?25h");
    reveal_strlit("\x1b[?25l");
    reveal_strlit("\x1b[");
    reveal_strlit("\x1b[?");
    lemma_occurs(s, m, p);
    assert(s[p] == m[0] && s[p + 1] == m[1] && s[p + 2] == m[2]);
    lemma_differs(s, kitty::cursor_show(), p, 2);
    lemma_differs(s, kitty::cursor_hide(), p, 2);
    lemma_differs(s, "\x1b[?"@, p, 2);
    assert(s.subrange(p, p + 2) =~= "\x1b["@);
    if text::occurs_at(s, input, p) {
        lemma_same_move(s, p, m, input);
    } else {
        assert(m != input);
        let end = p + m.len() - 1;
        assert forall|i: int| p + 2 <= i < end implies !is_letter(#[trigger] s[i]) by {
            assert(s[i] == m[i - p]);
        }
        assert(s[end] == m[m.len() - 1]);
        lemma_next_letter(s, p + 2, end);
    }
}

proof fn lemma_read_command(s: Seq<char>, p: int, cmd: Seq<char>, input: Seq<char>, seen: SeenView)
    requires
        text::occurs_at(s, cmd, p),
        is_command(cmd),
        is_move(input),
    ensures
        read_one(s, p, input, seen) == (
            p + cmd.len(),
            if shows_image(command_header(s, p)) {
                SeenView {
                    renders: seen.renders + 1,
                    renders_visible: if seen.visible {
                        seen.renders_visible + 1
                    } else {
                        seen.renders_visible
                    },
                    ..seen
                }
            } else {
                seen
            },
        ),
{
    reveal_strlit("\x1b[?25h");
    reveal_strlit("\x1b[?25l");
    reveal_strlit("\x1b[");
    reveal_strlit("\x1b_G");
    reveal_strlit("\x1b\\");
    lemma_occurs(s, cmd, p);
    assert(s[p] == cmd[0] && s[p + 1] == cmd[1] && s[p + 2] == cmd[2]);
    lemma_differs(s, kitty::cursor_show(), p, 1);
    lemma_differs(s, kitty::cursor_hide(), p, 1);
    lemma_differs(s, input, p, 1);
    lemma_differs(s, "\x1b["@, p, 1);
    assert(s.subrange(p, p + 3) =~= "\x1b_G"@);
    let end = p + cmd.len() - 2;
    assert(s[end] == cmd[cmd.len() - 2]);
    assert(s[end + 1] == cmd[cmd.len() - 1]);
    assert(s.subrange(end, end + 2) =~= "\x1b\\"@);
    assert(text::occurs_at(s, "\x1b\\"@, end));
    assert forall|j: int| p + 2 <= j < end implies !text::occurs_at(s, "\x1b\\"@, j) by {
        if text::occurs_at(s, "\x1b\\"@, j) {
            lemma_occurs(s, "\x1b\\"@, j);
            assert(s[j + 0] == "\x1b\\"@[0]);
            assert(s[j] == cmd[j - p]);
        }
    }
    text::lemma_find_from(s, "\x1b\\"@, p + 2);
    assert(text::find_from(s, "\x1b\\"@, p + 2) == Some(end));
}

/// A header without a letter that stands for showing shows nothing.
proof fn lemma_header_shows_nothing(header: Seq<char>)
    requires
        forall|i: int| 0 <= i < header.len() ==> #[trigger] header[i] != 'p' && header[i] != 'T',
    ensures
        !shows_image(header),
{
    reveal_strlit("a=p");
    reveal_strlit("a=T");
    text::lemma_find_from(header, "a=p"@, 0);
    text::lemma_find_from(header, "a=T"@, 0);
    if let Some(k) = text::find(header, "a=p"@) {
        lemma_occurs(header, "a=p"@, k);
        assert(header[k + 2] == "a=p"@[2]);
    }
    if let Some(k) = text::find(header, "a=T"@) {
        lemma_occurs(header, "a=T"@, k);
        assert(header[k + 2] == "a=T"@[2]);
    }
}

proof fn lemma_base64_plain(data: Seq<u8>)
    ensures
        forall|i: int|
            0 <= i < kitty::base64(data).len() ==> #[trigger] kitty::base64(data)[i] != '\x1b',
{
    assert forall|i: int| 0 <= i < kitty::base64(data).len() implies #[trigger] kitty::base64(
        data,
    )[i] != '\x1b' by {
        assert forall|v: int| 0 <= v < 64 implies #[trigger] kitty::base64_char(v) != '\x1b' by {}
        let g = i / 4 * 3;
        let bits = kitty::byte_or_zero(data, g) * 65536 + kitty::byte_or_zero(data, g + 1) * 256
            + kitty::byte_or_zero(data, g + 2);
        assert(0 <= bits / 262144 % 64 < 64);
        assert(0 <= bits / 4096 % 64 < 64);
        assert(0 <= bits / 64 % 64 < 64);
        assert(0 <= bits % 64 < 64);
    }
}

/// The start of a command that hands data over: what stands in front of the
/// semicolon is calm.
proof fn lemma_transmit_start(img: kitty::CachedImage, id: u32, text: Seq<char>, k: int)
    requires
        0 <= k,
    ensures
        ({
            let start = kitty::transmit_header(img, id, k) + kitty::more_digit(text, k);
            &&& start.len() > 3
            &&& start[0] == '\x1b'
            &&& start[1] == '_'
            &&& start[2] == 'G'
            &&& calm_from(start, 1)
        }),
{
    reveal_strlit("\x1b_Gm=");
    reveal_strlit("\x1b_Ga=t,q=2,i=");
    reveal_strlit(",f=24,s=");
    reveal_strlit(",v=");
    reveal_strlit(",m=");
    reveal_strlit(",f=100,m=");
    reveal_strlit("0");
    reveal_strlit("1");
    lemma_decimal_calm(id as nat);
    lemma_decimal_calm(img.width as nat);
    lemma_decimal_calm(img.height as nat);
    let (w, h) = (number::decimal(img.width as nat), number::decimal(img.height as nat));
    let a = "\x1b_Ga=t,q=2,i="@ + number::decimal(id as nat);
    lemma_calm_concat("\x1b_Ga=t,q=2,i="@, number::decimal(id as nat), 1);
    lemma_calm_concat(a, ",f=24,s="@, 1);
    lemma_calm_concat(a + ",f=24,s="@, w, 1);
    lemma_calm_concat(a + ",f=24,s="@ + w, ",v="@, 1);
    lemma_calm_concat(a + ",f=24,s="@ + w + ",v="@, h, 1);
    lemma_calm_concat(a + ",f=24,s="@ + w + ",v="@ + h, ",m="@, 1);
    lemma_calm_concat(a, ",f=100,m="@, 1);
    let header = kitty::transmit_header(img, id, k);
    assert(calm_from(header, 1));
    lemma_calm_concat(header, kitty::more_digit(text, k), 1);
    if k <= 0 {
        assert forall|i: int| 0 <= i < 3 implies header[i] == "\x1b_Ga=t,q=2,i="@[i] by {}
    }
}

/// A command that hands data over leaves everything as it is.
proof fn lemma_read_transmit(
    img: kitty::CachedImage,
    id: u32,
    k: int,
    s: Seq<char>,
    p: int,
    input: Seq<char>,
    seen: SeenView,
)
    requires
        0 <= k < kitty::chunk_count(kitty::base64(img.data@).len()),
        text::occurs_at(s, kitty::transmit_command(img, id, kitty::base64(img.data@), k), p),
        is_move(input),
    ensures
        read_one(s, p, input, seen) == (
            p + kitty::transmit_command(img, id, kitty::base64(img.data@), k).len(),
            seen,
        ),
        kitty::transmit_command(img, id, kitty::base64(img.data@), k).len() > 0,
{
    let data = kitty::base64(img.data@);
    let start = kitty::transmit_header(img, id, k) + kitty::more_digit(data, k);
    let chunk = kitty::chunk_of(data, k);
    let cmd = kitty::transmit_command(img, id, data, k);
    reveal_strlit(";");
    reveal_strlit("\x1b\\");
    lemma_transmit_start(img, id, data, k);
    lemma_base64_plain(img.data@);
    assert(cmd =~= start + ";"@ + chunk + "\x1b\\"@);
    assert forall|i: int| 1 <= i < cmd.len() - 2 implies #[trigger] cmd[i] != '\x1b' by {
        if i < start.len() {
            assert(cmd[i] == start[i]);
        } else if i == start.len() {
            assert(cmd[i] == ';');
        } else {
            assert(cmd[i] == chunk[i - start.len() - 1]);
            assert(cmd[i] == data[4096 * k + (i - start.len() - 1)]);
        }
    }
    assert(cmd[0] == start[0] && cmd[1] == start[1] && cmd[2] == start[2]);
    assert(is_command(cmd));
    lemma_read_command(s, p, cmd, input, seen);
    lemma_occurs(s, cmd, p);
    text::lemma_next_index(s, ';', p);
    let semi = p + start.len();
    assert(s[semi] == cmd[start.len() as int]);
    assert forall|j: int| p <= j < semi implies s[j] != ';' && s[j] != 'p' && s[j] != 'T' by {
        assert(s[j] == cmd[j - p]);
        assert(cmd[j - p] == start[j - p]);
    }
    assert(text::next_index(s, ';', p) == Some(semi));
    let header = command_header(s, p);
    assert forall|i: int| 0 <= i < header.len() implies #[trigger] header[i] != 'p' && header[i]
        != 'T' by {
        assert(header[i] == s[p + i]);
    }
    lemma_header_shows_nothing(header);
}

/// Handing data over leaves everything as it is.
proof fn lemma_read_transmission(
    img: kitty::CachedImage,
    id: u32,
    n: nat,
    s: Seq<char>,
    input: Seq<char>,
    seen: SeenView,
)
    requires
        n <= kitty::chunk_count(kitty::base64(img.data@).len()),
        text::occurs_at(s, kitty::transmit_commands(img, id, kitty::base64(img.data@), n), 0),
        kitty::transmit_commands(img, id, kitty::base64(img.data@), n).len() < s.len(),
        is_move(input),
    ensures
        read_from(s, 0, input, seen) == read_from(
            s,
            kitty::transmit_commands(img, id, kitty::base64(img.data@), n).len() as int,
            input,
            seen,
        ),
    decreases n,
{
    if n > 0 {
        let data = kitty::base64(img.data@);
        let before = kitty::transmit_commands(img, id, data, (n - 1) as nat);
        let cmd = kitty::transmit_command(img, id, data, n - 1);
        let all = kitty::transmit_commands(img, id, data, n);
        assert(all == before + cmd);
        lemma_occurs(s, all, 0);
        assert forall|i: int| 0 <= i < before.len() implies s[i] == before[i] by {
            assert(s[i] == all[i - 0]);
        }
        assert(s.subrange(0, before.len() as int) =~= before);
        assert forall|i: int| 0 <= i < cmd.len() implies s[before.len() + i] == cmd[i] by {
            assert(s[before.len() + i] == all[before.len() + i - 0]);
        }
        let end = before.len() + cmd.len();
        assert(s.subrange(before.len() as int, end as int) =~= cmd);
        lemma_read_transmission(img, id, (n - 1) as nat, s, input, seen);
        lemma_read_transmit(img, id, n - 1, s, before.len() as int, input, seen);
    }
}

/// The command that shows an image.
spec fn place_command(fit: kitty::ImageFit, area: kitty::Rect, id: u32) -> Seq<char> {
    let (cols, rows, dx, dy) = kitty::layout_of(fit, area);
    "\x1b_Ga=p,q=2,i="@ + number::decimal(id as nat) + ",C=1,c="@ + number::decimal(cols as nat)
        + ",r="@ + number::decimal(rows as nat) + "\x1b\\"@
}

proof fn lemma_place_command(fit: kitty::ImageFit, area: kitty::Rect, id: u32)
    ensures
        is_command(place_command(fit, area, id)),
        place_command(fit, area, id).len() > 13,
        place_command(fit, area, id).subrange(3, 6) == "a=p"@,
        forall|i: int| 0 <= i < 13 ==> #[trigger] place_command(fit, area, id)[i] != ';',
{
    reveal_strlit("\x1b_Ga=p,q=2,i=");
    reveal_strlit(",C=1,c=");
    reveal_strlit(",r=");
    reveal_strlit("\x1b\\");
    reveal_strlit("a=p");
    let (cols, rows, dx, dy) = kitty::layout_of(fit, area);
    let (a, b, c) = (
        number::decimal(id as nat),
        number::decimal(cols as nat),
        number::decimal(rows as nat),
    );
    lemma_decimal_calm(id as nat);
    lemma_decimal_calm(cols as nat);
    lemma_decimal_calm(rows as nat);
    let start = "\x1b_Ga=p,q=2,i="@;
    let cmd = place_command(fit, area, id);
    assert forall|i: int| 1 <= i < start.len() implies #[trigger] start[i] != '\x1b' by {}
    assert(calm_from(",C=1,c="@, 0));
    assert(calm_from(",r="@, 0));
    let tail = a + ",C=1,c="@ + b + ",r="@ + c;
    lemma_calm_concat(a, ",C=1,c="@, 0);
    lemma_calm_concat(a + ",C=1,c="@, b, 0);
    lemma_calm_concat(a + ",C=1,c="@ + b, ",r="@, 0);
    lemma_calm_concat(a + ",C=1,c="@ + b + ",r="@, c, 0);
    assert(cmd =~= start + tail + "\x1b\\"@);
    assert forall|i: int| 1 <= i < cmd.len() - 2 implies #[trigger] cmd[i] != '\x1b' by {
        if i < start.len() {
            assert(cmd[i] == start[i]);
        } else {
            assert(cmd[i] == tail[i - start.len()]);
        }
    }
    assert forall|i: int| 0 <= i < 13 implies #[trigger] cmd[i] == start[i] by {}
    assert(cmd[cmd.len() - 2] == "\x1b\\"@[0]);
    assert(cmd[cmd.len() - 1] == "\x1b\\"@[1]);
    assert(cmd.subrange(3, 6) =~= "a=p"@);
}

/// A command that shows an image is seen as one.
proof fn lemma_read_place(
    fit: kitty::ImageFit,
    area: kitty::Rect,
    id: u32,
    s: Seq<char>,
    q: int,
    input: Seq<char>,
    seen: SeenView,
)
    requires
        text::occurs_at(s, place_command(fit, area, id), q),
        is_move(input),
        !seen.visible,
    ensures
        read_one(s, q, input, seen) == (
            q + place_command(fit, area, id).len(),
            (SeenView { renders: seen.renders + 1, ..seen }),
        ),
{
    let cmd = place_command(fit, area, id);
    lemma_place_command(fit, area, id);
    lemma_read_command(s, q, cmd, input, seen);
    lemma_occurs(s, cmd, q);
    text::lemma_next_index(s, ';', q);
    assert forall|j: int| q <= j < q + 13 implies s[j] != ';' by {
        assert(s[j] == cmd[j - q]);
    }
    let header = command_header(s, q);
    assert(header.len() >= 13);
    reveal_strlit("a=p");
    assert(header.subrange(3, 6) =~= cmd.subrange(3, 6)) by {
        assert forall|i: int| 0 <= i < 6 implies header[i] == cmd[i] by {
            assert(header[i] == s[q + i]);
        }
    }
    text::lemma_find_from(header, "a=p"@, 0);
    assert(text::occurs_at(header, "a=p"@, 3));
    assert(shows_image(header));
}

/// Showing an image counts once, and against it only if the cursor is visible.
proof fn lemma_read_placement(
    fit: kitty::ImageFit,
    area: kitty::Rect,
    id: u32,
    s: Seq<char>,
    p: int,
    input: Seq<char>,
    seen: SeenView,
)
    requires
        text::occurs_at(s, kitty::placement(fit, area, id), p),
        p + kitty::placement(fit, area, id).len() < s.len(),
        is_move(input),
        !seen.visible,
    ensures
        exists|at_input: bool|
            read_from(s, p, input, seen) == #[trigger] read_from(
                s,
                p + kitty::placement(fit, area, id).len(),
                input,
                (SeenView { at_input, renders: seen.renders + 1, ..seen }),
            ),
{
    let (cols, rows, dx, dy) = kitty::layout_of(fit, area);
    let m = kitty::cursor_move(area.x + 1 + dx, area.y + 1 + dy);
    let all = kitty::placement(fit, area, id);
    let cmd = place_command(fit, area, id);
    assert(all == m + cmd);
    lemma_is_move(area.x + 1 + dx, area.y + 1 + dy);
    lemma_place_command(fit, area, id);
    let q = p + m.len();
    assert(s.subrange(p, q) =~= all.subrange(0, m.len() as int)) by {
        assert(s.subrange(p, p + all.len()) == all);
        assert(s.subrange(p, p + all.len()).subrange(0, m.len() as int) =~= s.subrange(p, q));
    }
    assert(all.subrange(0, m.len() as int) =~= m);
    assert(s.subrange(q, q + cmd.len()) =~= cmd) by {
        let end = all.len() as int;
        assert(s.subrange(p, p + all.len()) == all);
        assert(s.subrange(p, p + all.len()).subrange(m.len() as int, end) =~= s.subrange(
            q,
            q + cmd.len(),
        ));
        assert(all.subrange(m.len() as int, end) =~= cmd);
    }
    lemma_read_move(s, p, m, input, seen);
    let moved = SeenView { at_input: m == input, ..seen };
    lemma_read_place(fit, area, id, s, q, input, moved);
    assert(read_from(s, p, input, seen) == read_from(s, q, input, moved));
    let shown = SeenView { at_input: m == input, renders: seen.renders + 1, ..seen };
    assert(read_from(s, q, input, moved) == read_from(s, q + cmd.len(), input, shown));
}

/// Taking an image away leaves everything as it is, if the cursor is moved then.
proof fn lemma_read_deletion(
    id: u32,
    s: Seq<char>,
    p: int,
    column: int,
    row: int,
    input: Seq<char>,
    seen: SeenView,
)
    requires
        text::occurs_at(s, kitty::deletion(id), p),
        text::occurs_at(s, kitty::cursor_move(column, row), p + kitty::deletion(id).len()),
        is_move(input),
    ensures
        read_from(s, p, input, seen) == read_from(
            s,
            p + kitty::deletion(id).len(),
            input,
            seen,
        ),
{
    reveal_strlit("\x1b_Ga=d,d=I,i=");
    reveal_strlit(",q=2\x1b\\");
    reveal_strlit("\x1b[");
    reveal_strlit(";");
    reveal_strlit("H");
    let a = number::decimal(id as nat);
    let r = number::decimal(row as nat);
    lemma_decimal_calm(id as nat);
    lemma_decimal_calm(row as nat);
    let cmd = kitty::deletion(id);
    let m = kitty::cursor_move(column, row);
    lemma_occurs(s, cmd, p);
    assert forall|i: int| 0 <= i < cmd.len() implies #[trigger] cmd[i] != ';' && cmd[i] != 'p'
        && cmd[i] != 'T' && (1 <= i < cmd.len() - 2 ==> cmd[i] != '\x1b') by {
        if i < 13 {
            assert(cmd[i] == "\x1b_Ga=d,d=I,i="@[i]);
        } else if i < 13 + a.len() {
            assert(cmd[i] == a[i - 13]);
        } else {
            assert(cmd[i] == ",q=2\x1b\\"@[i - 13 - a.len()]);
        }
    }
    assert forall|i: int| 0 <= i < 3 implies cmd[i] == "\x1b_Ga=d,d=I,i="@[i] by {}
    assert(cmd[cmd.len() - 2] == ",q=2\x1b\\"@[4]);
    assert(cmd[cmd.len() - 1] == ",q=2\x1b\\"@[5]);
    assert(is_command(cmd));
    lemma_read_command(s, p, cmd, input, seen);
    let q = p + cmd.len();
    lemma_occurs(s, m, q);
    let semi = q + 2 + r.len();
    assert(s[q + (2 + r.len())] == m[2 + r.len() as int]);
    assert(m[2 + r.len() as int] == ';');
    assert forall|j: int| p <= j < semi implies s[j] != ';' && s[j] != 'p' && s[j] != 'T' by {
        if j < q {
            assert(s[j] == cmd[j - p]);
        } else if j < q + 2 {
            assert(s[j] == m[j - q]);
            assert(m[j - q] == "\x1b["@[j - q]);
        } else {
            assert(s[j] == m[j - q]);
            assert(m[j - q] == r[j - q - 2]);
        }
    }
    text::lemma_next_index(s, ';', p);
    assert(text::next_index(s, ';', p) == Some(semi));
    let header = command_header(s, p);
    assert forall|i: int| 0 <= i < header.len() implies #[trigger] header[i] != 'p' && header[i]
        != 'T' by {
        assert(header[i] == s[p + i]);
    }
    lemma_header_shows_nothing(header);
}

/// A frame never makes the cursor flicker, whatever was written before: it shows one
/// image, while the cursor is hidden, and the cursor is shown at the input alone.
pub proof fn lemma_frame_never_flickers(
    img: kitty::CachedImage,
    fit: kitty::ImageFit,
    area: kitty::Rect,
    cursor_pos: (u16, u16),
    new_id: u32,
    old_id: u32,
    seen: SeenView,
)
    ensures
        read_from(
            kitty::frame_text(img, fit, area, cursor_pos, new_id, old_id),
            0,
            kitty::cursor_move(cursor_pos.0 + 1, cursor_pos.1 + 1),
            seen,
        ) == (SeenView { visible: true, at_input: true, renders: seen.renders + 1, ..seen }),
{
    let s = kitty::frame_text(img, fit, area, cursor_pos, new_id, old_id);
    let input = kitty::cursor_move(cursor_pos.0 + 1, cursor_pos.1 + 1);
    let data = kitty::base64(img.data@);
    let t = kitty::transmission(img, new_id);
    let hide = kitty::cursor_hide();
    let show = kitty::cursor_show();
    let place = kitty::placement(fit, area, new_id);
    let gone = kitty::deletion(old_id);
    reveal_strlit("\x1b[?25h");
    reveal_strlit("\x1b[?25l");
    lemma_is_move(cursor_pos.0 + 1, cursor_pos.1 + 1);
    let p1 = t.len() as int;
    let p2 = p1 + hide.len();
    let p3 = p2 + place.len();
    let p4 = p3 + gone.len();
    let p5 = p4 + input.len();
    assert(s =~= t + hide + place + gone + input + show);
    assert(s.len() == p5 + 6);
    assert(s.subrange(0, p1) =~= t);
    assert(s.subrange(p1, p2) =~= hide);
    assert(s.subrange(p2, p3) =~= place);
    assert(s.subrange(p3, p4) =~= gone);
    assert(s.subrange(p4, p5) =~= input);
    assert(s.subrange(p5, p5 + 6) =~= show);
    lemma_read_transmission(img, new_id, kitty::chunk_count(data.len()), s, input, seen);
    assert(read_from(s, 0, input, seen) == read_from(s, p1, input, seen));
    lemma_read_hide(s, p1, input, seen);
    let hidden = SeenView { visible: false, ..seen };
    assert(read_from(s, p1, input, seen) == read_from(s, p2, input, hidden));
    lemma_read_placement(fit, area, new_id, s, p2, input, hidden);
    let at_input = choose|at_input: bool|
        read_from(s, p2, input, hidden) == #[trigger] read_from(
            s,
            p2 + place.len(),
            input,
            (SeenView { at_input, renders: hidden.renders + 1, ..hidden }),
        );
    let placed = SeenView { at_input, renders: seen.renders + 1, visible: false, ..seen };
    assert(read_from(s, p2, input, hidden) == read_from(s, p3, input, placed));
    lemma_read_deletion(
        old_id,
        s,
        p3,
        cursor_pos.0 + 1,
        cursor_pos.1 + 1,
        input,
        placed,
    );
    assert(read_from(s, p3, input, placed) == read_from(s, p4, input, placed));
    lemma_read_move(s, p4, input, input, placed);
    let back = SeenView { at_input: true, ..placed };
    assert(read_from(s, p4, input, placed) == read_from(s, p5, input, back));
    lemma_read_show(s, p5, input, back);
}

/// A frame, or what puts the cursor back to the input and shows it.
pub open spec fn is_tidy(t: Seq<char>, cursor_pos: (u16, u16)) -> bool {
    ||| t == kitty::cursor_move(cursor_pos.0 + 1, cursor_pos.1 + 1) + kitty::cursor_show()
    ||| exists|
        img: kitty::CachedImage,
        fit: kitty::ImageFit,
        area: kitty::Rect,
        new_id: u32,
        old_id: u32,
    |
        t == #[trigger] kitty::frame_text(img, fit, area, cursor_pos, new_id, old_id)
}

proof fn lemma_draw_is_calm(t: Seq<char>, cursor_pos: (u16, u16), seen: SeenView)
    requires
        t == kitty::cursor_move(cursor_pos.0 + 1, cursor_pos.1 + 1) + kitty::cursor_show(),
    ensures
        read_from(t, 0, kitty::cursor_move(cursor_pos.0 + 1, cursor_pos.1 + 1), seen) == (
        SeenView { visible: true, at_input: true, ..seen }),
        text::contains(t, kitty::cursor_show()),
{
    let input = kitty::cursor_move(cursor_pos.0 + 1, cursor_pos.1 + 1);
    let show = kitty::cursor_show();
    let n = input.len() as int;
    reveal_strlit("\x1b[?25h");
    lemma_is_move(cursor_pos.0 + 1, cursor_pos.1 + 1);
    assert(t.subrange(0, n) =~= input);
    assert(t.subrange(n, n + 6) =~= show);
    lemma_read_move(t, 0, input, input, seen);
    let back = SeenView { at_input: true, ..seen };
    lemma_read_show(t, n, input, back);
    assert(read_from(t, 0, input, seen) == read_from(t, n, input, back));
    text::lemma_find_from(t, show, 0);
    assert(text::occurs_at(t, show, n));
}

proof fn lemma_frame_shows_cursor(
    img: kitty::CachedImage,
    fit: kitty::ImageFit,
    area: kitty::Rect,
    cursor_pos: (u16, u16),
    new_id: u32,
    old_id: u32,
)
    ensures
        text::contains(
            kitty::frame_text(img, fit, area, cursor_pos, new_id, old_id),
            kitty::cursor_show(),
        ),
{
    let t = kitty::frame_text(img, fit, area, cursor_pos, new_id, old_id);
    let show = kitty::cursor_show();
    let end = t.len() - show.len();
    assert(t.subrange(end, t.len() as int) =~= show);
    text::lemma_find_from(t, show, 0);
    assert(text::occurs_at(t, show, end));
}

proof fn lemma_tidy_is_calm(t: Seq<char>, cursor_pos: (u16, u16), seen: SeenView)
    requires
        is_tidy(t, cursor_pos),
    ensures
        ({
            let input = kitty::cursor_move(cursor_pos.0 + 1, cursor_pos.1 + 1);
            let after = read_from(t, 0, input, seen);
            after.renders_visible == seen.renders_visible && after.astray == seen.astray
        }),
        text::contains(t, kitty::cursor_show()),
{
    if t == kitty::cursor_move(cursor_pos.0 + 1, cursor_pos.1 + 1) + kitty::cursor_show() {
        lemma_draw_is_calm(t, cursor_pos, seen);
    } else {
        let (img, fit, area, new_id, old_id) = choose|
            img: kitty::CachedImage,
            fit: kitty::ImageFit,
            area: kitty::Rect,
            new_id: u32,
            old_id: u32,
        |
            t == #[trigger] kitty::frame_text(img, fit, area, cursor_pos, new_id, old_id);
        lemma_frame_never_flickers(img, fit, area, cursor_pos, new_id, old_id, seen);
        lemma_frame_shows_cursor(img, fit, area, cursor_pos, new_id, old_id);
    }
}

/// However many frames are written, with the cursor put back in between, the cursor
/// never flickers, and every write that hides it shows it again.
pub proof fn lemma_frames_never_flicker(texts: Seq<Seq<char>>, cursor_pos: (u16, u16))
    requires
        forall|i: int| 0 <= i < texts.len() ==> is_tidy(#[trigger] texts[i], cursor_pos),
    ensures
        ({
            let input = kitty::cursor_move(cursor_pos.0 + 1, cursor_pos.1 + 1);
            let seen = read_all(texts, input, unseen());
            seen.renders_visible == 0 && seen.astray == 0
        }),
        !hide_pending(texts),
        split_count(texts) == 0,
    decreases texts.len(),
{
    if texts.len() > 0 {
        let init = texts.drop_last();
        let input = kitty::cursor_move(cursor_pos.0 + 1, cursor_pos.1 + 1);
        let seen = read_all(init, input, unseen());
        assert forall|i: int| 0 <= i < init.len() implies is_tidy(
            #[trigger] init[i],
            cursor_pos,
        ) by {
            assert(init[i] == texts[i]);
        }
        lemma_frames_never_flicker(init, cursor_pos);
        assert(is_tidy(texts[texts.len() - 1], cursor_pos));
        lemma_tidy_is_calm(texts.last(), cursor_pos, seen);
    }
}

} // verus!
