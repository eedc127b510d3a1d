//! Images in the terminal, by kitty's graphics protocol.
use base64::Engine;
use std::sync::Arc;
use vstd::prelude::*;
use vstd::string::*;

use crate::number;
use crate::number::push_decimal;
use crate::order::Duplicate;
use crate::text::chars_of;

verus! {

/// An image: PNG data, or the bytes of its pixels.
pub struct CachedImage {
    pub data: Arc<Vec<u8>>,
    pub width: u32,
    pub height: u32,
    pub is_raw_rgb: bool,
}

impl Duplicate for CachedImage {
    fn duplicate(&self) -> (r: Self) {
        CachedImage {
            data: Arc::clone(&self.data),
            width: self.width,
            height: self.height,
            is_raw_rgb: self.is_raw_rgb,
        }
    }
}

/// A rectangle of cells of the terminal.
#[derive(Clone, Copy, Debug, PartialEq, Eq, Structural)]
pub struct Rect {
    pub x: u16,
    pub y: u16,
    pub width: u16,
    pub height: u16,
}

/// How an image fits an area: to its full width with so many rows, or to its full
/// height with so many columns.
#[derive(Clone, Copy, Debug, PartialEq, Eq, Structural)]
pub enum ImageFit {
    Width { rows: u32 },
    Height { cols: u32 },
}

/// How many characters of image data one command carries.
pub const CHUNK_SIZE: usize = 4096;

/// The two ids that frames are shown under in turn.
pub const KITTY_IMAGE_ID_A: u32 = 1;

pub const KITTY_IMAGE_ID_B: u32 = 2;

// ---------------------------------------------------------------------------
// Base64
// ---------------------------------------------------------------------------

/// The character for six bits.
pub open spec fn base64_char(v: int) -> char {
    if v < 26 {
        (65 + v) as u8 as char
    } else if v < 52 {
        (97 + v - 26) as u8 as char
    } else if v < 62 {
        (48 + v - 52) as u8 as char
    } else if v == 62 {
        '+'
    } else {
        '/'
    }
}

/// A byte of some data, zero behind its end.
pub open spec fn byte_or_zero(data: Seq<u8>, i: int) -> int {
    if i < data.len() {
        data[i] as int
    } else {
        0
    }
}

/// The length of the base64 form of so many bytes.
pub open spec fn base64_len(n: nat) -> nat {
    4 * ((n + 2) / 3)
}

/// The base64 form of some data: four characters for each three bytes, six bits
/// each, with padding for those that are missing.
pub open spec fn base64(data: Seq<u8>) -> Seq<char> {
    Seq::new(
        base64_len(data.len()),
        |i: int|
            {
                let g = i / 4 * 3;
                let k = i % 4;
                let bits = byte_or_zero(data, g) * 65536 + byte_or_zero(data, g + 1) * 256
                    + byte_or_zero(data, g + 2);
                if k > 1 && g + k - 1 >= data.len() {
                    '='
                } else if k == 0 {
                    base64_char(bits / 262144 % 64)
                } else if k == 1 {
                    base64_char(bits / 4096 % 64)
                } else if k == 2 {
                    base64_char(bits / 64 % 64)
                } else {
                    base64_char(bits % 64)
                }
            },
    )
}

/// The base64 form of some data, with the standard alphabet and padding: `encode`
/// of `base64::engine::general_purpose::STANDARD`. It panics where the length does
/// not fit, which is left out.
#[verifier::external_body]
pub(crate) fn base64_text(data: &[u8]) -> (r: String)
    requires
        base64_len(data@.len()) <= usize::MAX,
    ensures
        r@ == base64(data@),
{
    base64::engine::general_purpose::STANDARD.encode(data)
}

/// Whether the base64 form of an image's data fits the memory.
pub open spec fn is_sendable(img: CachedImage) -> bool {
    base64_len(img.data@.len()) <= usize::MAX
}

// ---------------------------------------------------------------------------
// Layout
// ---------------------------------------------------------------------------

pub open spec fn least(a: int, b: int) -> int {
    if a <= b {
        a
    } else {
        b
    }
}

/// The columns and rows that an image takes in an area.
pub open spec fn box_of(fit: ImageFit, area: Rect) -> (int, int) {
    match fit {
        ImageFit::Width { rows } => (area.width as int, least(rows as int, area.height as int)),
        ImageFit::Height { cols } => (least(cols as int, area.width as int), area.height as int),
    }
}

/// The columns and rows that an image takes in an area, and how far it is set in
/// from the left and the top so as to stand in the middle.
pub open spec fn layout_of(fit: ImageFit, area: Rect) -> (int, int, int, int) {
    let (cols, rows) = box_of(fit, area);
    (cols, rows, (area.width - cols) / 2, (area.height - rows) / 2)
}

/// The columns and rows that an image takes in an area, and how far it is set in.
pub fn kitty_layout(fit: ImageFit, area: Rect) -> (r: (u32, u32, u32, u32))
    ensures
        (r.0 as int, r.1 as int, r.2 as int, r.3 as int) == layout_of(fit, area),
{
    let width: u32 = area.width as u32;
    let height: u32 = area.height as u32;
    let (cols, rows): (u32, u32) = match fit {
        ImageFit::Width { rows } => (
            width,
            if rows <= height {
                rows
            } else {
                height
            },
        ),
        ImageFit::Height { cols } => (
            if cols <= width {
                cols
            } else {
                width
            },
            height,
        ),
    };
    (cols, rows, (width - cols) / 2, (height - rows) / 2)
}

/// An image never leaves its area.
pub proof fn lemma_layout_inside(fit: ImageFit, area: Rect)
    ensures
        ({
            let (cols, rows, dx, dy) = layout_of(fit, area);
            &&& 0 <= cols && 0 <= rows && 0 <= dx && 0 <= dy
            &&& dx + cols <= area.width
            &&& dy + rows <= area.height
        }),
{
}

// ---------------------------------------------------------------------------
// Commands
// ---------------------------------------------------------------------------

/// How many commands carry a text of image data.
pub open spec fn chunk_count(len: nat) -> nat {
    (len + 4095) / 4096
}

/// A piece of a text of image data.
pub open spec fn chunk_of(text: Seq<char>, k: int) -> Seq<char> {
    text.subrange(4096 * k, least(4096 * (k + 1), text.len() as int))
}

/// Whether more pieces follow, as a digit.
pub open spec fn more_digit(text: Seq<char>, k: int) -> Seq<char> {
    if k + 1 == chunk_count(text.len()) {
        "0"@
    } else {
        "1"@
    }
}

/// The start of the command that carries a piece of the data of an image.
pub open spec fn transmit_header(img: CachedImage, id: u32, k: int) -> Seq<char> {
    if k > 0 {
        "\x1b_Gm="@
    } else if img.is_raw_rgb {
        "\x1b_Ga=t,q=2,i="@ + number::decimal(id as nat) + ",f=24,s="@ + number::decimal(
            img.width as nat,
        ) + ",v="@ + number::decimal(img.height as nat) + ",m="@
    } else {
        "\x1b_Ga=t,q=2,i="@ + number::decimal(id as nat) + ",f=100,m="@
    }
}

/// The command that carries a piece of the data of an image.
pub open spec fn transmit_command(img: CachedImage, id: u32, text: Seq<char>, k: int) -> Seq<char> {
    transmit_header(img, id, k) + more_digit(text, k) + ";"@ + chunk_of(text, k) + "\x1b\\"@
}

/// The commands that carry the first pieces of the data of an image.
pub open spec fn transmit_commands(img: CachedImage, id: u32, text: Seq<char>, n: nat) -> Seq<char>
    decreases n,
{
    if n == 0 {
        Seq::empty()
    } else {
        transmit_commands(img, id, text, (n - 1) as nat) + transmit_command(img, id, text, n - 1)
    }
}

/// What hands the data of an image over under an id, without showing it.
pub open spec fn transmission(img: CachedImage, id: u32) -> Seq<char> {
    let text = base64(img.data@);
    transmit_commands(img, id, text, chunk_count(text.len()))
}

/// What moves the cursor to a column and a row, counted from one.
pub open spec fn cursor_move(column: int, row: int) -> Seq<char> {
    "\x1b["@ + number::decimal(row as nat) + ";"@ + number::decimal(column as nat) + "H"@
}

/// What shows an image that has been handed over, in an area.
pub open spec fn placement(fit: ImageFit, area: Rect, id: u32) -> Seq<char> {
    let (cols, rows, dx, dy) = layout_of(fit, area);
    cursor_move(area.x + 1 + dx, area.y + 1 + dy) + ("\x1b_Ga=p,q=2,i="@ + number::decimal(
        id as nat,
    ) + ",C=1,c="@ + number::decimal(cols as nat) + ",r="@ + number::decimal(rows as nat)
        + "\x1b\\"@)
}

/// What takes an image away.
pub open spec fn deletion(id: u32) -> Seq<char> {
    "\x1b_Ga=d,d=I,i="@ + number::decimal(id as nat) + ",q=2\x1b\\"@
}

/// What hides the cursor.
pub open spec fn cursor_hide() -> Seq<char> {
    "\x1b[?25l"@
}

/// What shows the cursor.
pub open spec fn cursor_show() -> Seq<char> {
    "\x1b[?25h"@
}

/// What shows an image in place of another: the data while nothing is touched, and
/// then, with the cursor hidden, the new image, the end of the old one and the way
/// back to the input.
pub open spec fn frame_text(
    img: CachedImage,
    fit: ImageFit,
    area: Rect,
    cursor_pos: (u16, u16),
    new_id: u32,
    old_id: u32,
) -> Seq<char> {
    transmission(img, new_id) + cursor_hide() + (placement(fit, area, new_id) + deletion(old_id)
        + cursor_move(cursor_pos.0 + 1, cursor_pos.1 + 1)) + cursor_show()
}

pub(crate) fn push_range(out: &mut String, chars: &Vec<char>, from: usize, to: usize)
    requires
        from <= to <= chars@.len(),
    ensures
        final(out)@ == old(out)@ + chars@.subrange(from as int, to as int),
{
    let ghost start = out@;
    let mut i: usize = from;
    proof {
        assert(start + chars@.subrange(from as int, from as int) =~= start);
    }
    while i < to
        invariant
            from <= i <= to <= chars@.len(),
            out@ == start + chars@.subrange(from as int, i as int),
        decreases to - i,
    {
        out.push(chars[i]);
        i += 1;
        proof {
            assert(chars@.subrange(from as int, i as int) =~= chars@.subrange(
                from as int,
                i - 1,
            ).push(chars@[i - 1]));
            assert(start + chars@.subrange(from as int, i as int) =~= (start + chars@.subrange(
                from as int,
                i - 1,
            )).push(chars@[i - 1]));
        }
    }
}

fn push_header(out: &mut String, img: &CachedImage, id: u32, k: usize)
    ensures
        final(out)@ == old(out)@ + transmit_header(*img, id, k as int),
{
    let ghost start = out@;
    if k > 0 {
        out.append("\x1b_Gm=");
    } else if img.is_raw_rgb {
        out.append("\x1b_Ga=t,q=2,i=");
        push_decimal(out, id as u128);
        out.append(",f=24,s=");
        push_decimal(out, img.width as u128);
        out.append(",v=");
        push_decimal(out, img.height as u128);
        out.append(",m=");
    } else {
        out.append("\x1b_Ga=t,q=2,i=");
        push_decimal(out, id as u128);
        out.append(",f=100,m=");
    }
    proof {
        assert(out@ =~= start + transmit_header(*img, id, k as int));
    }
}

/// Hands the data of an image over under an id. It is not shown and the cursor is
/// not touched.
pub fn kitty_transmit_to(img: &CachedImage, image_id: u32, out: &mut String)
    requires
        is_sendable(*img),
    ensures
        final(out)@ == old(out)@ + transmission(*img, image_id),
{
    let text = base64_text(img.data.as_slice());
    let chars = chars_of(text.as_str());
    let size: usize = chars.len();
    let ghost start = out@;
    let mut k: usize = 0;
    let mut from: usize = 0;
    proof {
        assert(start + transmit_commands(*img, image_id, chars@, 0) =~= start);
    }
    while from < size
        invariant
            size == chars@.len(),
            from == least(4096 * k, size as int),
            k <= chunk_count(size as nat),
            from < size ==> k < chunk_count(size as nat),
            from == size ==> k == chunk_count(size as nat),
            out@ == start + transmit_commands(*img, image_id, chars@, k as nat),
        decreases size - from,
    {
        let ghost before = out@;
        let to: usize = if size - from > CHUNK_SIZE {
            from + CHUNK_SIZE
        } else {
            size
        };
        push_header(out, img, image_id, k);
        if to == size {
            out.append("0");
        } else {
            out.append("1");
        }
        out.append(";");
        push_range(out, &chars, from, to);
        out.append("\x1b\\");
        proof {
            assert(chars@.subrange(from as int, to as int) =~= chunk_of(chars@, k as int));
            assert(out@ =~= before + transmit_command(*img, image_id, chars@, k as int));
            assert(start + transmit_commands(*img, image_id, chars@, (k + 1) as nat) =~= (start
                + transmit_commands(*img, image_id, chars@, k as nat)) + transmit_command(
                *img,
                image_id,
                chars@,
                k as int,
            ));
        }
        from = to;
        k += 1;
    }
}

fn push_cursor_move(out: &mut String, column: u32, row: u32)
    ensures
        final(out)@ == old(out)@ + cursor_move(column as int, row as int),
{
    let ghost start = out@;
    out.append("\x1b[");
    push_decimal(out, row as u128);
    out.append(";");
    push_decimal(out, column as u128);
    out.append("H");
    proof {
        assert(out@ =~= start + cursor_move(column as int, row as int));
    }
}

/// Shows an image that has been handed over, in an area.
pub fn kitty_place_to(fit: ImageFit, area: Rect, image_id: u32, out: &mut String)
    ensures
        final(out)@ == old(out)@ + placement(fit, area, image_id),
{
    let ghost start = out@;
    let (cols, rows, offset_x, offset_y) = kitty_layout(fit, area);
    push_cursor_move(
        out,
        area.x as u32 + 1 + offset_x,
        area.y as u32 + 1 + offset_y,
    );
    out.append("\x1b_Ga=p,q=2,i=");
    push_decimal(out, image_id as u128);
    out.append(",C=1,c=");
    push_decimal(out, cols as u128);
    out.append(",r=");
    push_decimal(out, rows as u128);
    out.append("\x1b\\");
    proof {
        assert(out@ =~= start + placement(fit, area, image_id));
    }
}

/// Hands an image over and shows it. The cursor is neither hidden nor shown.
pub fn render_kitty_image_to(
    img: &CachedImage,
    fit: ImageFit,
    area: Rect,
    image_id: u32,
    out: &mut String,
)
    requires
        is_sendable(*img),
    ensures
        final(out)@ == old(out)@ + (transmission(*img, image_id) + placement(fit, area, image_id)),
{
    let ghost start = out@;
    kitty_transmit_to(img, image_id, out);
    kitty_place_to(fit, area, image_id, out);
    proof {
        assert(out@ =~= start + (transmission(*img, image_id) + placement(fit, area, image_id)));
    }
}

fn push_deletion(out: &mut String, id: u32)
    ensures
        final(out)@ == old(out)@ + deletion(id),
{
    let ghost start = out@;
    out.append("\x1b_Ga=d,d=I,i=");
    push_decimal(out, id as u128);
    out.append(",q=2\x1b\\");
    proof {
        assert(out@ =~= start + deletion(id));
    }
}

/// Shows an image in place of another, in one piece.
pub fn compose_kitty_render(
    img: &CachedImage,
    fit: ImageFit,
    area: Rect,
    cursor_pos: (u16, u16),
    new_id: u32,
    old_id: u32,
    out: &mut String,
)
    requires
        is_sendable(*img),
        cursor_pos.0 < u16::MAX,
        cursor_pos.1 < u16::MAX,
    ensures
        final(out)@ == old(out)@ + frame_text(*img, fit, area, cursor_pos, new_id, old_id),
{
    let ghost start = out@;
    kitty_transmit_to(img, new_id, out);
    out.append("\x1b[?25l");
    kitty_place_to(fit, area, new_id, out);
    // The old image goes only when the new one stands over it.
    push_deletion(out, old_id);
    push_cursor_move(out, cursor_pos.0 as u32 + 1, cursor_pos.1 as u32 + 1);
    out.append("\x1b[?25h");
    proof {
        assert(out@ =~= start + frame_text(*img, fit, area, cursor_pos, new_id, old_id));
    }
}

/// Takes the images of both ids away.
pub fn clear_kitty_image_to(out: &mut String)
    ensures
        final(out)@ == old(out)@ + (deletion(KITTY_IMAGE_ID_A) + deletion(KITTY_IMAGE_ID_B)),
{
    let ghost start = out@;
    push_deletion(out, KITTY_IMAGE_ID_A);
    push_deletion(out, KITTY_IMAGE_ID_B);
    proof {
        assert(out@ =~= start + (deletion(KITTY_IMAGE_ID_A) + deletion(KITTY_IMAGE_ID_B)));
    }
}

/// Takes the images of both ids away.
pub fn clear_kitty_image() -> (r: String)
    ensures
        r@ == deletion(KITTY_IMAGE_ID_A) + deletion(KITTY_IMAGE_ID_B),
{
    let mut r = String::new();
    clear_kitty_image_to(&mut r);
    proof {
        assert(r@ =~= deletion(KITTY_IMAGE_ID_A) + deletion(KITTY_IMAGE_ID_B));
    }
    r
}

// ---------------------------------------------------------------------------
// Two buffers
// ---------------------------------------------------------------------------

/// Which of the two ids is shown. Frames alternate between them, so that a new one
/// stands over the old one before that is taken away.
pub struct KittyDoubleBuffer {
    second: bool,
}

impl KittyDoubleBuffer {
    /// The id that is shown.
    pub closed spec fn shown(&self) -> u32 {
        if self.second {
            KITTY_IMAGE_ID_B
        } else {
            KITTY_IMAGE_ID_A
        }
    }

    /// The first id is shown.
    pub fn new() -> (r: Self)
        ensures
            r.shown() == KITTY_IMAGE_ID_A,
    {
        KittyDoubleBuffer { second: false }
    }

    /// Goes over to the other id. Gives the new one and the old one.
    pub fn flip(&mut self) -> (r: (u32, u32))
        ensures
            r.1 == old(self).shown(),
            r.0 == final(self).shown(),
            r.0 == if r.1 == KITTY_IMAGE_ID_A {
                KITTY_IMAGE_ID_B
            } else {
                KITTY_IMAGE_ID_A
            },
            r.0 != r.1,
    {
        let old_id: u32 = if self.second {
            KITTY_IMAGE_ID_B
        } else {
            KITTY_IMAGE_ID_A
        };
        self.second = !self.second;
        let new_id: u32 = if self.second {
            KITTY_IMAGE_ID_B
        } else {
            KITTY_IMAGE_ID_A
        };
        (new_id, old_id)
    }
}

/// Shows an image in place of the one that is shown.
pub fn render_kitty_image(
    img: &CachedImage,
    fit: ImageFit,
    area: Rect,
    cursor_pos: (u16, u16),
    dbuf: &mut KittyDoubleBuffer,
) -> (r: String)
    requires
        is_sendable(*img),
        cursor_pos.0 < u16::MAX,
        cursor_pos.1 < u16::MAX,
    ensures
        r@ == frame_text(*img, fit, area, cursor_pos, final(dbuf).shown(), old(dbuf).shown()),
        final(dbuf).shown() != old(dbuf).shown(),
{
    let (new_id, old_id) = dbuf.flip();
    let mut r = String::new();
    compose_kitty_render(img, fit, area, cursor_pos, new_id, old_id, &mut r);
    proof {
        assert(r@ =~= frame_text(*img, fit, area, cursor_pos, new_id, old_id));
    }
    r
}

// ---------------------------------------------------------------------------
// The cursor stays calm
// ---------------------------------------------------------------------------

/// Whether a text has nothing that hides or shows the cursor, which takes a
/// question mark.
pub open spec fn leaves_cursor(s: Seq<char>) -> bool {
    forall|i: int| 0 <= i < s.len() ==> #[trigger] s[i] != '?'
}

proof fn lemma_leaves_concat(a: Seq<char>, b: Seq<char>)
    requires
        leaves_cursor(a),
        leaves_cursor(b),
    ensures
        leaves_cursor(a + b),
{
    assert forall|i: int| 0 <= i < (a + b).len() implies #[trigger] (a + b)[i] != '?' by {
        if i < a.len() {
            assert((a + b)[i] == a[i]);
        } else {
            assert((a + b)[i] == b[i - a.len()]);
        }
    }
}

proof fn lemma_decimal_leaves(n: nat)
    ensures
        leaves_cursor(number::decimal(n)),
{
    number::lemma_decimal_digits(n);
    assert forall|i: int| 0 <= i < number::decimal(n).len() implies #[trigger] number::decimal(
        n,
    )[i] != '?' by {
        assert(number::is_digit(number::decimal(n)[i]));
    }
}

proof fn lemma_base64_leaves(data: Seq<u8>)
    ensures
        leaves_cursor(base64(data)),
{
    assert forall|i: int| 0 <= i < base64(data).len() implies #[trigger] base64(data)[i] != '?' by {
        assert forall|v: int| 0 <= v < 64 implies #[trigger] base64_char(v) != '?' by {}
        let g = i / 4 * 3;
        let bits = byte_or_zero(data, g) * 65536 + byte_or_zero(data, g + 1) * 256 + byte_or_zero(
            data,
            g + 2,
        );
        assert(0 <= bits / 262144 % 64 < 64);
        assert(0 <= bits / 4096 % 64 < 64);
        assert(0 <= bits / 64 % 64 < 64);
        assert(0 <= bits % 64 < 64);
    }
}

proof fn lemma_command_leaves(img: CachedImage, id: u32, text: Seq<char>, k: int)
    requires
        0 <= k < chunk_count(text.len()),
        leaves_cursor(text),
    ensures
        leaves_cursor(transmit_command(img, id, text, k)),
{
    reveal_strlit("\x1b_Gm=");
    reveal_strlit("\x1b_Ga=t,q=2,i=");
    reveal_strlit(",f=24,s=");
    reveal_strlit(",v=");
    reveal_strlit(",m=");
    reveal_strlit(",f=100,m=");
    reveal_strlit("0");
    reveal_strlit("1");
    reveal_strlit(";");
    reveal_strlit("\x1b\\");
    lemma_decimal_leaves(id as nat);
    lemma_decimal_leaves(img.width as nat);
    lemma_decimal_leaves(img.height as nat);
    let a = "\x1b_Ga=t,q=2,i="@ + number::decimal(id as nat);
    lemma_leaves_concat("\x1b_Ga=t,q=2,i="@, number::decimal(id as nat));
    let b = a + ",f=24,s="@;
    lemma_leaves_concat(a, ",f=24,s="@);
    lemma_leaves_concat(b, number::decimal(img.width as nat));
    let c = b + number::decimal(img.width as nat);
    lemma_leaves_concat(c, ",v="@);
    lemma_leaves_concat(c + ",v="@, number::decimal(img.height as nat));
    lemma_leaves_concat(c + ",v="@ + number::decimal(img.height as nat), ",m="@);
    lemma_leaves_concat(a, ",f=100,m="@);
    let header = transmit_header(img, id, k);
    let more = more_digit(text, k);
    let chunk = chunk_of(text, k);
    assert forall|i: int| 0 <= i < chunk.len() implies #[trigger] chunk[i] != '?' by {
        assert(chunk[i] == text[4096 * k + i]);
    }
    lemma_leaves_concat(header, more);
    lemma_leaves_concat(header + more, ";"@);
    lemma_leaves_concat(header + more + ";"@, chunk);
    lemma_leaves_concat(header + more + ";"@ + chunk, "\x1b\\"@);
}

proof fn lemma_commands_leave(img: CachedImage, id: u32, text: Seq<char>, n: nat)
    requires
        n <= chunk_count(text.len()),
        leaves_cursor(text),
    ensures
        leaves_cursor(transmit_commands(img, id, text, n)),
    decreases n,
{
    if n > 0 {
        lemma_commands_leave(img, id, text, (n - 1) as nat);
        lemma_command_leaves(img, id, text, n - 1);
        lemma_leaves_concat(
            transmit_commands(img, id, text, (n - 1) as nat),
            transmit_command(img, id, text, n - 1),
        );
    }
}

proof fn lemma_move_leaves(column: int, row: int)
    ensures
        leaves_cursor(cursor_move(column, row)),
{
    reveal_strlit("\x1b[");
    reveal_strlit(";");
    reveal_strlit("H");
    lemma_decimal_leaves(row as nat);
    lemma_decimal_leaves(column as nat);
    let a = "\x1b["@ + number::decimal(row as nat);
    lemma_leaves_concat("\x1b["@, number::decimal(row as nat));
    lemma_leaves_concat(a, ";"@);
    lemma_leaves_concat(a + ";"@, number::decimal(column as nat));
    lemma_leaves_concat(a + ";"@ + number::decimal(column as nat), "H"@);
}

proof fn lemma_deletion_leaves(id: u32)
    ensures
        leaves_cursor(deletion(id)),
{
    reveal_strlit("\x1b_Ga=d,d=I,i=");
    reveal_strlit(",q=2\x1b\\");
    lemma_decimal_leaves(id as nat);
    lemma_leaves_concat("\x1b_Ga=d,d=I,i="@, number::decimal(id as nat));
    lemma_leaves_concat("\x1b_Ga=d,d=I,i="@ + number::decimal(id as nat), ",q=2\x1b\\"@);
}

proof fn lemma_placement_leaves(fit: ImageFit, area: Rect, id: u32)
    ensures
        leaves_cursor(placement(fit, area, id)),
{
    reveal_strlit("\x1b_Ga=p,q=2,i=");
    reveal_strlit(",C=1,c=");
    reveal_strlit(",r=");
    reveal_strlit("\x1b\\");
    let (cols, rows, dx, dy) = layout_of(fit, area);
    lemma_move_leaves(area.x + 1 + dx, area.y + 1 + dy);
    lemma_decimal_leaves(id as nat);
    lemma_decimal_leaves(cols as nat);
    lemma_decimal_leaves(rows as nat);
    let a = "\x1b_Ga=p,q=2,i="@ + number::decimal(id as nat);
    lemma_leaves_concat("\x1b_Ga=p,q=2,i="@, number::decimal(id as nat));
    let b = a + ",C=1,c="@;
    lemma_leaves_concat(a, ",C=1,c="@);
    let c = b + number::decimal(cols as nat);
    lemma_leaves_concat(b, number::decimal(cols as nat));
    let d = c + ",r="@;
    lemma_leaves_concat(c, ",r="@);
    lemma_leaves_concat(d, number::decimal(rows as nat));
    lemma_leaves_concat(d + number::decimal(rows as nat), "\x1b\\"@);
    lemma_leaves_concat(
        cursor_move(area.x + 1 + dx, area.y + 1 + dy),
        d + number::decimal(rows as nat) + "\x1b\\"@,
    );
}

/// Handing an image over and showing it never hides or shows the cursor.
pub proof fn lemma_render_leaves_cursor(img: CachedImage, fit: ImageFit, area: Rect, id: u32)
    ensures
        leaves_cursor(transmission(img, id)),
        leaves_cursor(placement(fit, area, id)),
        leaves_cursor(transmission(img, id) + placement(fit, area, id)),
{
    let text = base64(img.data@);
    lemma_base64_leaves(img.data@);
    lemma_commands_leave(img, id, text, chunk_count(text.len()));
    lemma_placement_leaves(fit, area, id);
    lemma_leaves_concat(transmission(img, id), placement(fit, area, id));
}

/// A frame hides the cursor once, when all data has been handed over, and shows it
/// once, at the very end. All that is seen to change happens in between: the new
/// image, then the end of the old one, then the way back to the input.
pub proof fn lemma_frame_is_atomic(
    img: CachedImage,
    fit: ImageFit,
    area: Rect,
    cursor_pos: (u16, u16),
    new_id: u32,
    old_id: u32,
)
    ensures
        ({
            let change = placement(fit, area, new_id) + deletion(old_id) + cursor_move(
                cursor_pos.0 + 1,
                cursor_pos.1 + 1,
            );
            &&& frame_text(img, fit, area, cursor_pos, new_id, old_id) == transmission(img, new_id)
                + cursor_hide() + change + cursor_show()
            &&& leaves_cursor(transmission(img, new_id))
            &&& leaves_cursor(change)
        }),
{
    lemma_render_leaves_cursor(img, fit, area, new_id);
    lemma_deletion_leaves(old_id);
    lemma_move_leaves(cursor_pos.0 + 1, cursor_pos.1 + 1);
    lemma_leaves_concat(placement(fit, area, new_id), deletion(old_id));
    lemma_leaves_concat(
        placement(fit, area, new_id) + deletion(old_id),
        cursor_move(cursor_pos.0 + 1, cursor_pos.1 + 1),
    );
}

/// The pieces of image data make up the whole, none longer than a command carries.
pub proof fn lemma_chunks_cover(text: Seq<char>, n: nat)
    requires
        n <= chunk_count(text.len()),
    ensures
        chunks_joined(text, n) == text.take(least(4096 * n as int, text.len() as int)),
    decreases n,
{
    if n > 0 {
        lemma_chunks_cover(text, (n - 1) as nat);
        assert(chunks_joined(text, n) =~= text.take(least(4096 * n as int, text.len() as int)));
    } else {
        assert(chunks_joined(text, n) =~= text.take(0));
    }
}

/// The first pieces of image data, one behind the other.
pub open spec fn chunks_joined(text: Seq<char>, n: nat) -> Seq<char>
    decreases n,
{
    if n == 0 {
        Seq::empty()
    } else {
        chunks_joined(text, (n - 1) as nat) + chunk_of(text, n - 1)
    }
}

// ---------------------------------------------------------------------------
// What is sent
// ---------------------------------------------------------------------------

/// An image stands in the middle of its area: the room on two opposite sides differs by
/// one cell at most. One way or the other it takes all of the area.
pub proof fn lemma_layout_is_centred(fit: ImageFit, area: Rect)
    ensures
        ({
            let (cols, rows, left, top) = layout_of(fit, area);
            let (right, bottom) = (area.width - left - cols, area.height - top - rows);
            &&& 0 <= right - left <= 1
            &&& 0 <= bottom - top <= 1
            &&& fit is Width ==> cols == area.width
            &&& fit is Height ==> rows == area.height
            &&& fit matches ImageFit::Width { rows: wanted } ==> rows <= wanted && (wanted
                <= area.height ==> rows == wanted)
            &&& fit matches ImageFit::Height { cols: wanted } ==> cols <= wanted && (wanted
                <= area.width ==> cols == wanted)
        }),
{
}

/// Every piece of image data holds something, and all but the last are full. It is said
/// of all but the last that more follows.
pub proof fn lemma_pieces_of_data(text: Seq<char>, k: int)
    requires
        0 <= k < chunk_count(text.len()),
    ensures
        0 < chunk_of(text, k).len() <= 4096,
        4096 * (k + 1) < text.len() ==> chunk_of(text, k).len() == 4096 && more_digit(text, k)
            == "1"@,
        4096 * (k + 1) >= text.len() ==> 4096 * k + chunk_of(text, k).len() == text.len()
            && more_digit(text, k) == "0"@,
        chunk_of(text, k) == text.subrange(4096 * k, 4096 * k + chunk_of(text, k).len()),
{
}

/// All of the data of an image is sent: its pieces make up the whole.
pub proof fn lemma_all_data_is_sent(text: Seq<char>)
    ensures
        chunks_joined(text, chunk_count(text.len())) == text,
{
    let n = chunk_count(text.len());
    lemma_chunks_cover(text, n);
    assert(text.take(least(4096 * n as int, text.len() as int)) =~= text);
}

/// Data that fits one command is sent in one, with nothing to follow.
pub proof fn lemma_short_data_in_one_command(img: CachedImage, id: u32)
    requires
        0 < base64(img.data@).len() <= 4096,
    ensures
        transmission(img, id) == transmit_header(img, id, 0) + "0;"@ + base64(img.data@)
            + "\x1b\\"@,
{
    let text = base64(img.data@);
    reveal_strlit("0");
    reveal_strlit(";");
    reveal_strlit("0;");
    reveal_with_fuel(transmit_commands, 2);
    assert(chunk_count(text.len()) == 1);
    assert(chunk_of(text, 0) =~= text);
    assert("0;"@ =~= "0"@ + ";"@);
    assert(transmission(img, id) =~= transmit_header(img, id, 0) + "0;"@ + text + "\x1b\\"@);
}

/// The first command says under which id the data is handed over. For raw pixels it
/// gives the width and then the height.
pub proof fn lemma_header_names_image(img: CachedImage, id: u32)
    ensures
        ("\x1b_Ga=t,q=2,i="@ + number::decimal(id as nat) + ","@).is_prefix_of(
            transmit_header(img, id, 0),
        ),
        img.is_raw_rgb ==> (",s="@ + number::decimal(img.width as nat) + ",v="@ + number::decimal(
            img.height as nat,
        ) + ",m="@).is_suffix_of(transmit_header(img, id, 0)),
        img.is_raw_rgb ==> !(",f=100,m="@.is_suffix_of(transmit_header(img, id, 0))),
        !img.is_raw_rgb ==> ",f=100,m="@.is_suffix_of(transmit_header(img, id, 0)),
{
    reveal_strlit(",");
    reveal_strlit(",f=24,s=");
    reveal_strlit(",s=");
    reveal_strlit(",v=");
    reveal_strlit(",m=");
    reveal_strlit(",f=100,m=");
    let h = transmit_header(img, id, 0);
    let start = "\x1b_Ga=t,q=2,i="@ + number::decimal(id as nat) + ","@;
    assert(start =~= h.subrange(0, start.len() as int));
    let (w, v) = (number::decimal(img.width as nat), number::decimal(img.height as nat));
    let end = ",s="@ + w + ",v="@ + v + ",m="@;
    if img.is_raw_rgb {
        assert(end =~= h.subrange(h.len() - end.len(), h.len() as int));
        number::lemma_decimal_digits(img.height as nat);
        number::lemma_decimal_digits(img.width as nat);
        if ",f=100,m="@.is_suffix_of(h) {
            let tail = h.subrange(h.len() - 9, h.len() as int);
            assert(tail[1] == 'f');
            let k = h.len() - 8;
            let whole = "\x1b_Ga=t,q=2,i="@ + number::decimal(id as nat) + ",f=24,s="@;
            assert(h =~= whole + w + ",v="@ + v + ",m="@);
            assert(h[k] == 'f');
            let b = whole.len() + w.len() + 3 + v.len();
            assert(h.len() == b + 3);
            let n = v.len() as int;
            if n >= 5 {
                assert(h[k] == v[n - 5]);
                assert(number::is_digit(v[n - 5]));
            } else if n >= 2 {
                assert(h[k] == ",v="@[n - 2]);
            } else {
                assert(h[k] == w[w.len() - 1]);
                assert(number::is_digit(w[w.len() - 1]));
            }
        }
    } else {
        assert(",f=100,m="@ =~= h.subrange(h.len() - 9, h.len() as int));
    }
}

} // verus!
