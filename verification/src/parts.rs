//! What draws a frame, in the parts that formatted output writes one by one: each fixed text
//! and each value between two of them.
use vstd::prelude::*;
use vstd::string::*;

use crate::kitty;
use crate::kitty::base64_text;
use crate::kitty::kitty_layout;
use crate::kitty::push_range;
use crate::kitty::CachedImage;
use crate::kitty::ImageFit;
use crate::kitty::Rect;
use crate::kitty::CHUNK_SIZE;
use crate::number;
use crate::number::decimal_text;
use crate::text;
use crate::text::chars_of;

verus! {

/// Parts one after the other.
pub open spec fn run_together(parts: Seq<Seq<char>>) -> Seq<char>
    decreases parts.len(),
{
    if parts.len() == 0 {
        Seq::empty()
    } else {
        run_together(parts.drop_last()) + parts.last()
    }
}

/// The parts of the start of the command that carries a piece of the data of an image.
pub open spec fn header_parts(img: CachedImage, id: u32, k: int) -> Seq<Seq<char>> {
    if k > 0 {
        seq!["\x1b_Gm="@]
    } else if img.is_raw_rgb {
        seq![
            "\x1b_Ga=t,q=2,i="@,
            number::decimal(id as nat),
            ",f=24,s="@,
            number::decimal(img.width as nat),
            ",v="@,
            number::decimal(img.height as nat),
            ",m="@,
        ]
    } else {
        seq!["\x1b_Ga=t,q=2,i="@, number::decimal(id as nat), ",f=100,m="@]
    }
}

/// The parts of the command that carries a piece of the data of an image.
pub open spec fn command_parts(img: CachedImage, id: u32, text: Seq<char>, k: int) -> Seq<
    Seq<char>,
> {
    header_parts(img, id, k).push(kitty::more_digit(text, k)).push(";"@).push(
        kitty::chunk_of(text, k),
    ).push("\x1b\\"@)
}

/// The parts of the commands that carry the first pieces of the data of an image.
pub open spec fn transmit_parts(img: CachedImage, id: u32, text: Seq<char>, n: nat) -> Seq<
    Seq<char>,
>
    decreases n,
{
    if n == 0 {
        Seq::empty()
    } else {
        transmit_parts(img, id, text, (n - 1) as nat) + command_parts(img, id, text, n - 1)
    }
}

/// The parts of what shows an image that has been handed over, in an area.
pub open spec fn place_parts(fit: ImageFit, area: Rect, id: u32) -> Seq<Seq<char>> {
    let (cols, rows, dx, dy) = kitty::layout_of(fit, area);
    seq![
        "\x1b["@,
        number::decimal((area.y + 1 + dy) as nat),
        ";"@,
        number::decimal((area.x + 1 + dx) as nat),
        "H"@,
        "\x1b_Ga=p,q=2,i="@,
        number::decimal(id as nat),
        ",C=1,c="@,
        number::decimal(cols as nat),
        ",r="@,
        number::decimal(rows as nat),
        "\x1b\\"@,
    ]
}

/// The parts of what hands an image over and shows it.
pub open spec fn render_parts(img: CachedImage, fit: ImageFit, area: Rect, id: u32) -> Seq<
    Seq<char>,
> {
    let text = kitty::base64(img.data@);
    transmit_parts(img, id, text, kitty::chunk_count(text.len())) + place_parts(fit, area, id)
}

proof fn lemma_run_together_push(parts: Seq<Seq<char>>, part: Seq<char>)
    ensures
        run_together(parts.push(part)) == run_together(parts) + part,
{
    assert(parts.push(part).drop_last() =~= parts);
}

proof fn lemma_run_together_concat(a: Seq<Seq<char>>, b: Seq<Seq<char>>)
    ensures
        run_together(a + b) == run_together(a) + run_together(b),
    decreases b.len(),
{
    if b.len() == 0 {
        assert(a + b =~= a);
        assert(run_together(a) + run_together(b) =~= run_together(a));
    } else {
        lemma_run_together_concat(a, b.drop_last());
        assert((a + b).drop_last() =~= a + b.drop_last());
        assert(run_together(a + b) =~= run_together(a) + run_together(b));
    }
}

proof fn lemma_header_parts(img: CachedImage, id: u32, k: int)
    ensures
        run_together(header_parts(img, id, k)) == kitty::transmit_header(img, id, k),
{
    let whole = header_parts(img, id, k);
    if k > 0 {
        lemma_one(whole);
    } else if img.is_raw_rgb {
        reveal_with_fuel(run_together, 8);
        assert(run_together(whole) =~= kitty::transmit_header(img, id, k));
    } else {
        reveal_with_fuel(run_together, 4);
        assert(run_together(whole) =~= kitty::transmit_header(img, id, k));
    }
}

proof fn lemma_one(parts: Seq<Seq<char>>)
    requires
        parts.len() == 1,
    ensures
        run_together(parts) == parts[0],
{
    reveal_with_fuel(run_together, 2);
    assert(run_together(parts) =~= parts[0]);
}

proof fn lemma_transmit_parts(img: CachedImage, id: u32, text: Seq<char>, n: nat)
    ensures
        run_together(transmit_parts(img, id, text, n)) == kitty::transmit_commands(
            img,
            id,
            text,
            n,
        ),
    decreases n,
{
    if n > 0 {
        let k = n - 1;
        let head = header_parts(img, id, k);
        let digit = head.push(kitty::more_digit(text, k));
        let mark = digit.push(";"@);
        let chunk = mark.push(kitty::chunk_of(text, k));
        lemma_transmit_parts(img, id, text, k as nat);
        lemma_run_together_concat(
            transmit_parts(img, id, text, k as nat),
            command_parts(img, id, text, k),
        );
        lemma_header_parts(img, id, k);
        lemma_run_together_push(head, kitty::more_digit(text, k));
        lemma_run_together_push(digit, ";"@);
        lemma_run_together_push(mark, kitty::chunk_of(text, k));
        lemma_run_together_push(chunk, "\x1b\\"@);
    }
}

proof fn lemma_place_parts(fit: ImageFit, area: Rect, id: u32)
    ensures
        run_together(place_parts(fit, area, id)) == kitty::placement(fit, area, id),
{
    let whole = place_parts(fit, area, id);
    let first = whole.take(5);
    let rest = whole.skip(5);
    assert(whole =~= first + rest);
    lemma_run_together_concat(first, rest);
    assert(run_together(first) =~= first[0] + first[1] + first[2] + first[3] + first[4]) by {
        reveal_with_fuel(run_together, 6);
    }
    assert(run_together(rest) =~= rest[0] + rest[1] + rest[2] + rest[3] + rest[4] + rest[5]
        + rest[6]) by {
        reveal_with_fuel(run_together, 8);
    }
}

/// The parts, one after the other, are what hands the image over and shows it.
pub proof fn lemma_parts_make_up_the_render(img: CachedImage, fit: ImageFit, area: Rect, id: u32)
    ensures
        run_together(render_parts(img, fit, area, id)) == kitty::transmission(img, id)
            + kitty::placement(fit, area, id),
{
    let text = kitty::base64(img.data@);
    let n = kitty::chunk_count(text.len());
    lemma_run_together_concat(transmit_parts(img, id, text, n), place_parts(fit, area, id));
    lemma_transmit_parts(img, id, text, n);
    lemma_place_parts(fit, area, id);
}

fn push_part(parts: &mut Vec<String>, part: String)
    ensures
        text::text_views(final(parts)@) == text::text_views(old(parts)@).push(part@),
{
    let ghost before = parts@;
    parts.push(part);
    proof {
        assert(text::text_views(parts@) =~= text::text_views(before).push(part@));
    }
}

fn push_header_parts(parts: &mut Vec<String>, img: &CachedImage, id: u32, k: usize)
    ensures
        text::text_views(final(parts)@) == text::text_views(old(parts)@) + header_parts(
            *img,
            id,
            k as int,
        ),
{
    let ghost start = text::text_views(parts@);
    if k > 0 {
        push_part(parts, "\x1b_Gm=".to_owned());
    } else if img.is_raw_rgb {
        push_part(parts, "\x1b_Ga=t,q=2,i=".to_owned());
        push_part(parts, decimal_text(id as u128));
        push_part(parts, ",f=24,s=".to_owned());
        push_part(parts, decimal_text(img.width as u128));
        push_part(parts, ",v=".to_owned());
        push_part(parts, decimal_text(img.height as u128));
        push_part(parts, ",m=".to_owned());
    } else {
        push_part(parts, "\x1b_Ga=t,q=2,i=".to_owned());
        push_part(parts, decimal_text(id as u128));
        push_part(parts, ",f=100,m=".to_owned());
    }
    proof {
        assert(text::text_views(parts@) =~= start + header_parts(*img, id, k as int));
    }
}

fn push_transmit_parts(parts: &mut Vec<String>, img: &CachedImage, id: u32)
    requires
        kitty::is_sendable(*img),
    ensures
        ({
            let text = kitty::base64(img.data@);
            text::text_views(final(parts)@) == text::text_views(old(parts)@) + transmit_parts(
                *img,
                id,
                text,
                kitty::chunk_count(text.len()),
            )
        }),
{
    let coded = base64_text(img.data.as_slice());
    let chars = chars_of(coded.as_str());
    let size: usize = chars.len();
    let ghost start = text::text_views(parts@);
    let mut k: usize = 0;
    let mut from: usize = 0;
    proof {
        assert(start + transmit_parts(*img, id, chars@, 0) =~= start);
    }
    while from < size
        invariant
            size == chars@.len(),
            from == kitty::least(4096 * k, size as int),
            k <= kitty::chunk_count(size as nat),
            from < size ==> k < kitty::chunk_count(size as nat),
            from == size ==> k == kitty::chunk_count(size as nat),
            text::text_views(parts@) == start + transmit_parts(*img, id, chars@, k as nat),
        decreases size - from,
    {
        let ghost before = text::text_views(parts@);
        let to: usize = if size - from > CHUNK_SIZE {
            from + CHUNK_SIZE
        } else {
            size
        };
        push_header_parts(parts, img, id, k);
        if to == size {
            push_part(parts, "0".to_owned());
        } else {
            push_part(parts, "1".to_owned());
        }
        push_part(parts, ";".to_owned());
        let mut chunk = String::new();
        push_range(&mut chunk, &chars, from, to);
        push_part(parts, chunk);
        push_part(parts, "\x1b\\".to_owned());
        proof {
            assert(chunk@ =~= kitty::chunk_of(chars@, k as int));
            assert(text::text_views(parts@) =~= before + command_parts(
                *img,
                id,
                chars@,
                k as int,
            ));
            assert(start + transmit_parts(*img, id, chars@, (k + 1) as nat) =~= before
                + command_parts(*img, id, chars@, k as int));
        }
        from = to;
        k += 1;
    }
}

/// Hands an image over and shows it, in parts.
pub fn render_in_parts(img: &CachedImage, fit: ImageFit, area: Rect, image_id: u32) -> (r: Vec<
    String,
>)
    requires
        kitty::is_sendable(*img),
    ensures
        text::text_views(r@) == render_parts(*img, fit, area, image_id),
{
    let mut r: Vec<String> = Vec::new();
    push_transmit_parts(&mut r, img, image_id);
    let ghost before = text::text_views(r@);
    let (cols, rows, offset_x, offset_y) = kitty_layout(fit, area);
    push_part(&mut r, "\x1b[".to_owned());
    push_part(&mut r, decimal_text(area.y as u128 + 1 + offset_y as u128));
    push_part(&mut r, ";".to_owned());
    push_part(&mut r, decimal_text(area.x as u128 + 1 + offset_x as u128));
    push_part(&mut r, "H".to_owned());
    push_part(&mut r, "\x1b_Ga=p,q=2,i=".to_owned());
    push_part(&mut r, decimal_text(image_id as u128));
    push_part(&mut r, ",C=1,c=".to_owned());
    push_part(&mut r, decimal_text(cols as u128));
    push_part(&mut r, ",r=".to_owned());
    push_part(&mut r, decimal_text(rows as u128));
    push_part(&mut r, "\x1b\\".to_owned());
    proof {
        assert(text::text_views(r@) =~= before + place_parts(fit, area, image_id));
        assert(text::text_views(r@) =~= render_parts(*img, fit, area, image_id));
    }
    r
}

} // verus!
