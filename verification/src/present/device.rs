//! A device that carries out the commands it is sent, and what it shows.

use vstd::arithmetic::div_mod;
use vstd::prelude::*;

use crate::bytes;
use crate::present;
use crate::present::bands;
use crate::present::palette;
use crate::present::plan;
use crate::present::plan::StepModel;
use crate::present::runs;
use crate::present::shadow;
use crate::present::{
    DamageRect, FB_MAX_COMMAND_BYTES, FB_OP_BLIT_BEGIN, FB_OP_BLIT_CHUNK, FB_OP_BLIT_END,
    FB_OP_PATCH, FB_OP_PATCH_PALETTE_RLE_BATCH, FB_OP_PATCH_RLE,
};
use crate::server::damage::DamageModel;

verus! {

// Painting.

/// The pixels of a screen after a rectangle was painted, row by row.
pub open spec fn painted(
    screen: Seq<u8>,
    width: u32,
    rect: DamageRect,
    values: Seq<u32>,
) -> Seq<u8> {
    Seq::new(
        screen.len(),
        |i: int|
            {
                let x = (i / 4) % (width as int);
                let y = (i / 4) / (width as int);
                if rect.has(x, y) {
                    bytes::le32(values[(y - rect.y) * rect.width + (x - rect.x)])[i % 4]
                } else {
                    screen[i]
                }
            },
    )
}

/// A colour of a rectangle is that of its pixel.
proof fn lemma_colour(
    picture: Seq<u8>,
    width: u32,
    rect: DamageRect,
    rows: nat,
    row: int,
    column: int,
)
    requires
        0 <= row < rows,
        0 <= column < rect.width,
    ensures
        0 <= row * rect.width + column < runs::rows_of(picture, width, rect, rows).len(),
        runs::rows_of(picture, width, rect, rows)[row * rect.width + column] == present::pixel(
            picture,
            (rect.y + row) * width + rect.x + column,
        ),
    decreases rows,
{
    let fewer = (rows - 1) as nat;
    runs::lemma_rows_of_len(picture, width, rect, rows);
    runs::lemma_rows_of_len(picture, width, rect, fewer);
    assert(rect.width * fewer == fewer * rect.width) by (nonlinear_arith);
    assert(row * rect.width + column < rows * rect.width && 0 <= row * rect.width)
        by (nonlinear_arith)
        requires
            0 <= row < rows,
            0 <= column < rect.width,
    ;
    assert(rect.width * rows == rows * rect.width) by (nonlinear_arith);
    if row < rows - 1 {
        lemma_colour(picture, width, rect, fewer, row, column);
    }
}

/// Every place of a picture is in a row and a column.
proof fn lemma_place_of(width: u32, height: u32, place: int)
    requires
        width > 0,
        0 <= place < width * height,
    ensures
        0 <= place % (width as int) < width,
        0 <= place / (width as int) < height,
        place == place / (width as int) * width + place % (width as int),
{
    div_mod::lemma_fundamental_div_mod(place, width as int);
    let x = place % (width as int);
    let y = place / (width as int);
    assert(0 <= x < width && 0 <= y < height && place == y * width + x) by (nonlinear_arith)
        requires
            0 <= place < width * height,
            width > 0,
            place == width * y + x,
            y == place / (width as int),
            x == place % (width as int),
    ;
}

/// Painting a rectangle with the picture's colours shows the picture there.
pub proof fn lemma_painted_is_shown(
    screen: Seq<u8>,
    pixels: Seq<u8>,
    width: u32,
    height: u32,
    rect: DamageRect,
)
    requires
        present::is_picture(pixels, width, height),
        screen.len() == pixels.len(),
        rect.lies_on(width as int, height as int),
    ensures
        painted(screen, width, rect, runs::colours(pixels, width, rect))
            == shadow::with_rows_shown(screen, pixels, width, rect, rect.height as int),
{
    let values = runs::colours(pixels, width, rect);
    let after = painted(screen, width, rect, values);
    let shown = shadow::with_rows_shown(screen, pixels, width, rect, rect.height as int);
    assert forall|i: int| 0 <= i < screen.len() implies after[i] == shown[i] by {
        let place = i / 4;
        let b = i % 4;
        let x = place % (width as int);
        let y = place / (width as int);
        lemma_place_of(width, height, place);
        shadow::law_advance_is_exact(screen, pixels, width, height, rect, x, y, b);
        assert(i == 4 * (y * width + x) + b);
        if rect.has(x, y) {
            lemma_colour(
                pixels,
                width,
                rect,
                rect.height as nat,
                y - rect.y,
                x - rect.x,
            );
            bytes::lemma_le32_at_bytes(pixels, 4 * place, b);
        }
    }
    assert(after =~= shown);
}

// Reading commands.

/// The rectangle that stands at `at`.
pub open spec fn rect_at(command: Seq<u8>, at: int) -> DamageRect {
    DamageRect {
        x: bytes::le32_at(command, at),
        y: bytes::le32_at(command, at + 4),
        width: bytes::le32_at(command, at + 8),
        height: bytes::le32_at(command, at + 12),
    }
}

/// Bytes as colours.
pub open spec fn values_of(s: Seq<u8>) -> Seq<u32> {
    Seq::new(s.len() / 4, |i: int| bytes::le32_at(s, 4 * i))
}

/// Bytes as runs: each its length and its colour.
pub open spec fn runs_of(s: Seq<u8>) -> Seq<(nat, u32)> {
    Seq::new(
        s.len() / 8,
        |i: int| (bytes::le32_at(s, 8 * i) as nat, bytes::le32_at(s, 8 * i + 4)),
    )
}

/// A number is read back from where it was written.
proof fn lemma_word_at(before: Seq<u8>, value: u32, after: Seq<u8>)
    ensures
        bytes::le32_at(before + bytes::le32(value) + after, before.len() as int) == value,
{
    bytes::law_le32_round_trip(value, 0);
    let s = before + bytes::le32(value) + after;
    let at = before.len() as int;
    let w = bytes::le32(value);
    assert(s[at] == w[0] && s[at + 1] == w[1] && s[at + 2] == w[2] && s[at + 3] == w[3]);
}

/// A rectangle is read back from where it was written.
proof fn lemma_rect_at(before: Seq<u8>, rect: DamageRect, after: Seq<u8>)
    ensures
        rect_at(before + rect.wire() + after, before.len() as int) == rect,
        (before + rect.wire() + after).skip(before.len() as int + 16) == after,
{
    reveal(DamageRect::wire);
    let s = before + rect.wire() + after;
    let (x, y, w, h) = (
        bytes::le32(rect.x),
        bytes::le32(rect.y),
        bytes::le32(rect.width),
        bytes::le32(rect.height),
    );
    assert(s =~= before + x + (y + w + h + after));
    lemma_word_at(before, rect.x, y + w + h + after);
    assert(s =~= (before + x) + y + (w + h + after));
    lemma_word_at(before + x, rect.y, w + h + after);
    assert(s =~= (before + x + y) + w + (h + after));
    lemma_word_at(before + x + y, rect.width, h + after);
    assert(s =~= (before + x + y + w) + h + after);
    lemma_word_at(before + x + y + w, rect.height, after);
    assert(s.skip(before.len() as int + 16) =~= after);
}

/// Runs that were written are read back.
proof fn lemma_runs_of(found: Seq<(nat, u32)>)
    requires
        forall|i: int| 0 <= i < found.len() ==> (#[trigger] found[i]).0 <= u32::MAX,
    ensures
        runs_of(runs::run_bytes(found)) == found,
    decreases found.len(),
{
    let s = runs::run_bytes(found);
    runs::lemma_run_bytes_len(found);
    if found.len() > 0 {
        let front = found.drop_last();
        let before = runs::run_bytes(front);
        runs::lemma_run_bytes_len(front);
        assert forall|i: int| 0 <= i < front.len() implies (#[trigger] front[i]).0 <= u32::MAX by {
            assert(front[i] == found[i]);
        }
        lemma_runs_of(front);
        let count = found.last().0 as u32;
        let colour = found.last().1;
        assert(found[found.len() - 1].0 <= u32::MAX);
        lemma_word_at(before, count, bytes::le32(colour));
        assert(s =~= before + bytes::le32(count) + bytes::le32(colour));
        lemma_word_at(before + bytes::le32(count), colour, Seq::empty());
        assert(s =~= (before + bytes::le32(count)) + bytes::le32(colour) + Seq::<u8>::empty());
        assert forall|i: int| 0 <= i < found.len() implies #[trigger] runs_of(s)[i] == found[i] by {
            if i < front.len() {
                assert(runs_of(before)[i] == front[i]);
                assert(forall|k: int| 0 <= k < before.len() ==> s[k] == before[k]);
            }
        }
    }
    assert(runs_of(s) =~= found);
}

/// Rows that were written as they are read back as the rows' colours.
proof fn lemma_values_of_rows(
    pixels: Seq<u8>,
    width: u32,
    height: u32,
    rect: DamageRect,
    rows: nat,
)
    requires
        present::is_picture(pixels, width, height),
        rect.lies_on(width as int, height as int),
        rows <= rect.height,
    ensures
        values_of(plan::rows_bytes(pixels, width, rect, rows as int)) == runs::rows_of(
            pixels,
            width,
            rect,
            rows,
        ),
        plan::rows_bytes(pixels, width, rect, rows as int).len() == 4 * (rect.width * rows),
    decreases rows,
{
    let s = plan::rows_bytes(pixels, width, rect, rows as int);
    let values = runs::rows_of(pixels, width, rect, rows);
    runs::lemma_rows_of_len(pixels, width, rect, rows);
    if rows > 0 {
        let fewer = (rows - 1) as nat;
        lemma_values_of_rows(pixels, width, height, rect, fewer);
        runs::lemma_rows_of_len(pixels, width, rect, fewer);
        assert(rect.width * fewer + rect.width == rect.width * rows) by (nonlinear_arith)
            requires
                fewer == rows - 1,
        ;
        let before = plan::rows_bytes(pixels, width, rect, fewer as int);
        let y = rect.y + rows - 1;
        let base = y * width + rect.x;
        present::lemma_place(width, height, rect.right(), y);
        present::lemma_place(width, height, rect.x as int, y);
        let start = shadow::row_start(width, rect, rows - 1);
        assert(start == 4 * base);
        let row = pixels.subrange(start, start + 4 * rect.width);
        assert(s =~= before + row);
        let known = values_of(before);
        assert forall|i: int| 0 <= i < values.len() implies #[trigger] values_of(s)[i]
            == values[i] by {
            if i < rect.width * fewer {
                assert(known[i] == bytes::le32_at(before, 4 * i));
                assert(values[i] == known[i]);
            } else {
                let k = i - rect.width * fewer;
                assert(4 * i == before.len() + 4 * k);
                assert(values[i] == present::pixel(pixels, base + k));
                assert(s[4 * i] == row[4 * k] && s[4 * i + 1] == row[4 * k + 1] && s[4 * i + 2]
                    == row[4 * k + 2] && s[4 * i + 3] == row[4 * k + 3]);
            }
        }
        assert(values_of(s) =~= values);
    } else {
        assert(rect.width * 0 == 0);
        assert(values_of(s) =~= values);
    }
}

// Batches.

/// The runs at the front of a batch's bytes that make up `left` pixels.
pub open spec fn runs_taken(s: Seq<u8>, palette: Seq<u32>, left: int) -> Seq<(nat, u32)>
    decreases s.len(),
{
    if left <= 0 || s.len() < 3 {
        Seq::empty()
    } else {
        let run = (bytes::le16_at(s, 0) as nat, palette[s[2] as int]);
        seq![run] + runs_taken(s.skip(3), palette, left - run.0)
    }
}

/// The pixels of a screen after the next `n` rectangles of a batch were
/// painted.
pub open spec fn batch_painted(
    screen: Seq<u8>,
    width: u32,
    palette: Seq<u32>,
    s: Seq<u8>,
    n: nat,
) -> Seq<u8>
    decreases n,
{
    if n == 0 {
        screen
    } else {
        let rect = rect_at(s, 0);
        let found = runs_taken(s.skip(16), palette, rect.width * rect.height);
        batch_painted(
            painted(screen, width, rect, runs::expanded(found)),
            width,
            palette,
            s.skip(16 + 3 * found.len() as int),
            (n - 1) as nat,
        )
    }
}

/// Whether runs can stand in a batch over a palette.
spec fn can_stand(palette: Seq<u32>, found: Seq<(nat, u32)>) -> bool {
    forall|i: int|
        0 <= i < found.len() ==> 1 <= (#[trigger] found[i]).0 <= u16::MAX && palette.contains(
            found[i].1,
        )
}

proof fn lemma_run_bytes_front(palette: Seq<u32>, found: Seq<(nat, u32)>)
    requires
        found.len() > 0,
    ensures
        palette::run_bytes(palette, found) == bytes::le16(found[0].0 as u16) + seq![
            palette::place_in(palette, found[0].1, 0) as u8,
        ] + palette::run_bytes(palette, found.skip(1)),
    decreases found.len(),
{
    let front = found.drop_last();
    let rest = found.skip(1);
    if found.len() == 1 {
        assert(front =~= Seq::<(nat, u32)>::empty());
        assert(rest =~= Seq::<(nat, u32)>::empty());
        assert(palette::run_bytes(palette, found) =~= bytes::le16(found[0].0 as u16) + seq![
            palette::place_in(palette, found[0].1, 0) as u8,
        ] + palette::run_bytes(palette, rest));
    } else {
        lemma_run_bytes_front(palette, front);
        assert(front.skip(1) =~= rest.drop_last());
        assert(rest.last() == found.last());
        assert(palette::run_bytes(palette, found) =~= bytes::le16(found[0].0 as u16) + seq![
            palette::place_in(palette, found[0].1, 0) as u8,
        ] + palette::run_bytes(palette, rest));
    }
}

proof fn lemma_expanded_front(found: Seq<(nat, u32)>)
    requires
        found.len() > 0,
    ensures
        runs::expanded(found) == Seq::new(found[0].0, |i: int| found[0].1) + runs::expanded(
            found.skip(1),
        ),
    decreases found.len(),
{
    let front = found.drop_last();
    let rest = found.skip(1);
    let first = Seq::new(found[0].0, |i: int| found[0].1);
    if found.len() == 1 {
        assert(front =~= Seq::<(nat, u32)>::empty());
        assert(rest =~= Seq::<(nat, u32)>::empty());
        assert(runs::expanded(found) =~= first + runs::expanded(rest));
    } else {
        lemma_expanded_front(front);
        assert(front.skip(1) =~= rest.drop_last());
        assert(rest.last() == found.last());
        assert(Seq::new(front[0].0, |i: int| front[0].1) =~= first);
        assert(runs::expanded(found) =~= first + runs::expanded(rest));
    }
}

/// Runs that were written to a batch are read back.
proof fn lemma_runs_taken(palette: Seq<u32>, found: Seq<(nat, u32)>, after: Seq<u8>)
    requires
        can_stand(palette, found),
        palette.len() <= 256,
    ensures
        runs_taken(
            palette::run_bytes(palette, found) + after,
            palette,
            runs::expanded(found).len() as int,
        ) == found,
    decreases found.len(),
{
    let s = palette::run_bytes(palette, found) + after;
    let left = runs::expanded(found).len() as int;
    if found.len() == 0 {
        assert(runs_taken(s, palette, left) =~= found);
    } else {
        let rest = found.skip(1);
        let (count, colour) = found[0];
        let place = palette::place_in(palette, colour, 0);
        lemma_run_bytes_front(palette, found);
        lemma_expanded_front(found);
        palette::law_place_holds_colour(palette, colour);
        assert(can_stand(palette, rest)) by {
            assert forall|i: int| 0 <= i < rest.len() implies 1 <= (#[trigger] rest[i]).0
                <= u16::MAX && palette.contains(rest[i].1) by {
                assert(rest[i] == found[i + 1]);
            }
        }
        lemma_runs_taken(palette, rest, after);
        bytes::law_le16_round_trip(count as u16);
        let word = bytes::le16(count as u16);
        assert(s[0] == word[0] && s[1] == word[1] && s[2] == place as u8);
        assert(s.skip(3) =~= palette::run_bytes(palette, rest) + after);
        assert(runs_taken(s, palette, left) =~= seq![(count, colour)] + rest);
        assert(seq![(count, colour)] + rest =~= found);
    }
}

proof fn lemma_rects_bytes_front(
    palette: Seq<u32>,
    pixels: Seq<u8>,
    width: u32,
    rects: Seq<DamageRect>,
)
    requires
        rects.len() > 0,
    ensures
        palette::rects_bytes(palette, pixels, width, rects) == rects[0].wire()
            + palette::run_bytes(palette, palette::rect_runs(pixels, width, rects[0]))
            + palette::rects_bytes(palette, pixels, width, rects.skip(1)),
    decreases rects.len(),
{
    let front = rects.drop_last();
    let rest = rects.skip(1);
    let first = rects[0].wire() + palette::run_bytes(
        palette,
        palette::rect_runs(pixels, width, rects[0]),
    );
    if rects.len() == 1 {
        assert(front =~= Seq::<DamageRect>::empty());
        assert(rest =~= Seq::<DamageRect>::empty());
    } else {
        lemma_rects_bytes_front(palette, pixels, width, front);
        assert(front.skip(1) =~= rest.drop_last());
        assert(rest.last() == rects.last());
    }
    assert(palette::rects_bytes(palette, pixels, width, rects) =~= first + palette::rects_bytes(
        palette,
        pixels,
        width,
        rest,
    ));
}

/// Whether a palette has all colours of the listed rectangles.
spec fn covers(
    palette: Seq<u32>,
    pixels: Seq<u8>,
    width: u32,
    rects: Seq<DamageRect>,
) -> bool {
    forall|i: int|
        0 <= i < rects.len() ==> can_stand(
            palette,
            #[trigger] palette::rect_runs(pixels, width, rects[i]),
        )
}

/// Painting the rectangles of a batch shows the picture in them.
proof fn lemma_batch_painted(
    screen: Seq<u8>,
    pixels: Seq<u8>,
    width: u32,
    height: u32,
    palette: Seq<u32>,
    rects: Seq<DamageRect>,
)
    requires
        present::is_picture(pixels, width, height),
        pixels.len() <= usize::MAX,
        screen.len() == pixels.len(),
        palette::all_lie_on(rects, width, height),
        covers(palette, pixels, width, rects),
        palette.len() <= 256,
    ensures
        batch_painted(
            screen,
            width,
            palette,
            palette::rects_bytes(palette, pixels, width, rects),
            rects.len(),
        ) == plan::shown_after(screen, pixels, width, plan::advances(rects)),
    decreases rects.len(),
{
    let s = palette::rects_bytes(palette, pixels, width, rects);
    let steps = plan::advances(rects);
    if rects.len() > 0 {
        let rect = rects[0];
        let rest = rects.skip(1);
        let found = palette::rect_runs(pixels, width, rect);
        let tail = palette::rects_bytes(palette, pixels, width, rest);
        let body = palette::run_bytes(palette, found);
        lemma_rects_bytes_front(palette, pixels, width, rects);
        assert(s =~= Seq::<u8>::empty() + rect.wire() + (body + tail));
        lemma_rect_at(Seq::empty(), rect, body + tail);
        rect.lemma_wire_len();
        runs::law_runs_round_trip(runs::colours(pixels, width, rect), u16::MAX as nat);
        runs::lemma_rows_of_len(pixels, width, rect, rect.height as nat);
        assert(can_stand(palette, palette::rect_runs(pixels, width, rects[0])));
        lemma_runs_taken(palette, found, tail);
        palette::lemma_run_bytes_len(palette, found);
        assert(s.skip(16 + 3 * found.len() as int) =~= tail);
        lemma_painted_is_shown(screen, pixels, width, height, rect);
        let next = painted(screen, width, rect, runs::expanded(found));
        assert(palette::all_lie_on(rest, width, height)) by {
            assert forall|i: int| 0 <= i < rest.len() implies (#[trigger] rest[i]).lies_on(
                width as int,
                height as int,
            ) by {
                assert(rest[i] == rects[i + 1]);
            }
        }
        assert(covers(palette, pixels, width, rest)) by {
            assert forall|i: int| 0 <= i < rest.len() implies can_stand(
                palette,
                #[trigger] palette::rect_runs(pixels, width, rest[i]),
            ) by {
                assert(can_stand(palette, palette::rect_runs(pixels, width, rects[i + 1])));
            }
        }
        lemma_batch_painted(next, pixels, width, height, palette, rest);
        let first = seq![StepModel::Advance(rect)];
        assert(steps =~= first + plan::advances(rest));
        plan::lemma_shown_after_concat(screen, pixels, width, first, plan::advances(rest));
        assert(plan::shown_after(screen, pixels, width, first.drop_last()) == screen);
        lemma_can_advance(screen, pixels, width, height, rect);
        assert(plan::shown_after(screen, pixels, width, first) == next);
    }
}

/// What lies on a picture that can be counted can be counted too.
proof fn lemma_can_advance(
    screen: Seq<u8>,
    pixels: Seq<u8>,
    width: u32,
    height: u32,
    rect: DamageRect,
)
    requires
        present::is_picture(pixels, width, height),
        pixels.len() <= usize::MAX,
        screen.len() == pixels.len(),
        rect.lies_on(width as int, height as int),
    ensures
        shadow::can_advance(screen, pixels, width, rect),
{
    present::lemma_place(width, height, width as int, 0);
    assert(width <= width * height);
}

proof fn lemma_values_of_palette(palette: Seq<u32>)
    ensures
        values_of(palette::palette_bytes(palette)) == palette,
    decreases palette.len(),
{
    let s = palette::palette_bytes(palette);
    palette::lemma_palette_bytes_len(palette);
    if palette.len() > 0 {
        let front = palette.drop_last();
        let before = palette::palette_bytes(front);
        palette::lemma_palette_bytes_len(front);
        lemma_values_of_palette(front);
        lemma_word_at(before, palette.last(), Seq::empty());
        assert(s =~= before + bytes::le32(palette.last()) + Seq::<u8>::empty());
        assert forall|i: int| 0 <= i < palette.len() implies #[trigger] values_of(s)[i]
            == palette[i] by {
            if i < front.len() {
                assert(values_of(before)[i] == front[i]);
                assert(forall|k: int| 0 <= k < before.len() ==> s[k] == before[k]);
            }
        }
    }
    assert(values_of(s) =~= palette);
}

/// A palette has the colours of the rectangles that it was made of.
proof fn lemma_palette_covers(pixels: Seq<u8>, width: u32, rects: Seq<DamageRect>)
    ensures
        palette::palette_of(pixels, width, rects).no_duplicates(),
        covers(palette::palette_of(pixels, width, rects), pixels, width, rects),
    decreases rects.len(),
{
    if rects.len() > 0 {
        let front = rects.drop_last();
        let before = palette::palette_of(pixels, width, front);
        let palette = palette::palette_of(pixels, width, rects);
        let last = palette::rect_runs(pixels, width, rects.last());
        lemma_palette_covers(pixels, width, front);
        palette::law_palette_is_distinct(before, last);
        assert forall|i: int| 0 <= i < rects.len() implies can_stand(
            palette,
            #[trigger] palette::rect_runs(pixels, width, rects[i]),
        ) by {
            let found = palette::rect_runs(pixels, width, rects[i]);
            runs::law_runs_round_trip(runs::colours(pixels, width, rects[i]), u16::MAX as nat);
            if i < front.len() {
                assert(can_stand(before, palette::rect_runs(pixels, width, front[i])));
                assert forall|k: int| 0 <= k < found.len() implies 1 <= (#[trigger] found[k]).0
                    <= u16::MAX && palette.contains(found[k].1) by {
                    let j = choose|j: int| 0 <= j < before.len() && before[j] == found[k].1;
                    assert(palette[j] == palette.take(before.len() as int)[j]);
                }
            }
        }
    }
}

// The device.

/// A picture of which a part has arrived.
pub open spec fn filled(arriving: Seq<u8>, at: int, data: Seq<u8>) -> Seq<u8> {
    Seq::new(
        arriving.len(),
        |i: int|
            if at <= i < at + data.len() {
                data[i - at]
            } else {
                arriving[i]
            },
    )
}

/// A device: what its screen shows, and what has arrived of a whole picture.
#[verifier::ext_equal]
pub struct Device {
    pub screen: Seq<u8>,
    pub arriving: Seq<u8>,
}

impl Device {
    /// The device after a command. Its screen is `width` pixels wide.
    #[verifier::opaque]
    pub open spec fn received(self, width: u32, command: Seq<u8>) -> Device {
        let code = command[0];
        if code == FB_OP_PATCH {
            Device {
                screen: painted(
                    self.screen,
                    width,
                    rect_at(command, 1),
                    values_of(command.skip(17)),
                ),
                ..self
            }
        } else if code == FB_OP_PATCH_RLE {
            Device {
                screen: painted(
                    self.screen,
                    width,
                    rect_at(command, 1),
                    runs::expanded(runs_of(command.skip(17))),
                ),
                ..self
            }
        } else if code == FB_OP_PATCH_PALETTE_RLE_BATCH {
            let body = 3 + 4 * (command[2] + 1);
            Device {
                screen: batch_painted(
                    self.screen,
                    width,
                    values_of(command.subrange(3, body)),
                    command.skip(body),
                    command[1] as nat,
                ),
                ..self
            }
        } else if code == FB_OP_BLIT_BEGIN {
            let size = 4 * (bytes::le32_at(command, 1) * bytes::le32_at(command, 5));
            Device { arriving: Seq::new(size as nat, |i: int| 0u8), ..self }
        } else if code == FB_OP_BLIT_CHUNK {
            Device {
                arriving: filled(
                    self.arriving,
                    bytes::le32_at(command, 1) as int,
                    command.skip(5),
                ),
                ..self
            }
        } else if code == FB_OP_BLIT_END {
            Device { screen: self.arriving, ..self }
        } else {
            self
        }
    }

    /// The device after the commands among some steps.
    pub open spec fn after(self, width: u32, steps: Seq<StepModel>) -> Device
        decreases steps.len(),
    {
        if steps.len() == 0 {
            self
        } else {
            let before = self.after(width, steps.drop_last());
            match steps.last() {
                StepModel::Write(command) => before.received(width, command),
                _ => before,
            }
        }
    }
}

proof fn lemma_after_concat(
    device: Device,
    width: u32,
    first: Seq<StepModel>,
    second: Seq<StepModel>,
)
    ensures
        device.after(width, first + second) == device.after(width, first).after(width, second),
    decreases second.len(),
{
    let both = first + second;
    if second.len() == 0 {
        assert(both =~= first);
    } else {
        assert(both.drop_last() =~= first + second.drop_last());
        assert(both.last() == second.last());
        lemma_after_concat(device, width, first, second.drop_last());
    }
}

proof fn lemma_after_one(device: Device, width: u32, command: Seq<u8>)
    ensures
        device.after(width, seq![StepModel::Write(command)]) == device.received(width, command),
{
    let steps = seq![StepModel::Write(command)];
    assert(device.after(width, steps.drop_last()) == device);
}

/// A patch as runs shows the picture in its rectangle.
proof fn lemma_rle_is_shown(
    device: Device,
    pixels: Seq<u8>,
    width: u32,
    height: u32,
    rect: DamageRect,
)
    requires
        present::is_picture(pixels, width, height),
        device.screen.len() == pixels.len(),
        rect.lies_on(width as int, height as int),
    ensures
        device.received(width, runs::rle_command(pixels, width, rect)) == (Device {
            screen: shadow::with_rows_shown(
                device.screen,
                pixels,
                width,
                rect,
                rect.height as int,
            ),
            ..device
        }),
{
    reveal(Device::received);
    let values = runs::colours(pixels, width, rect);
    let found = runs::runs(values, u32::MAX as nat);
    let command = runs::rle_command(pixels, width, rect);
    lemma_rect_at(seq![FB_OP_PATCH_RLE], rect, runs::run_bytes(found));
    runs::law_runs_round_trip(values, u32::MAX as nat);
    lemma_runs_of(found);
    lemma_painted_is_shown(device.screen, pixels, width, height, rect);
    assert(command[0] == FB_OP_PATCH_RLE);
}

/// So does a patch with its pixels as they are.
proof fn lemma_patch_is_shown(
    device: Device,
    pixels: Seq<u8>,
    width: u32,
    height: u32,
    rect: DamageRect,
)
    requires
        present::is_picture(pixels, width, height),
        device.screen.len() == pixels.len(),
        rect.lies_on(width as int, height as int),
    ensures
        device.received(width, plan::patch_command(pixels, width, rect)) == (Device {
            screen: shadow::with_rows_shown(
                device.screen,
                pixels,
                width,
                rect,
                rect.height as int,
            ),
            ..device
        }),
{
    reveal(Device::received);
    let rows = plan::rows_bytes(pixels, width, rect, rect.height as int);
    let command = plan::patch_command(pixels, width, rect);
    lemma_rect_at(seq![FB_OP_PATCH], rect, rows);
    lemma_values_of_rows(pixels, width, height, rect, rect.height as nat);
    lemma_painted_is_shown(device.screen, pixels, width, height, rect);
    assert(command[0] == FB_OP_PATCH);
}

/// A batch shows the picture in its rectangles.
proof fn lemma_batch_is_shown(
    device: Device,
    pixels: Seq<u8>,
    width: u32,
    height: u32,
    rects: Seq<DamageRect>,
)
    requires
        pixels.len() <= usize::MAX,
        device.screen.len() == pixels.len(),
        palette::can_batch(pixels, width, height, rects, FB_MAX_COMMAND_BYTES),
    ensures
        device.received(width, palette::batch_command(pixels, width, rects)) == (Device {
            screen: plan::shown_after(device.screen, pixels, width, plan::advances(rects)),
            ..device
        }),
{
    reveal(Device::received);
    let palette = palette::palette_of(pixels, width, rects);
    let head = seq![
        FB_OP_PATCH_PALETTE_RLE_BATCH,
        rects.len() as u8,
        (palette.len() - 1) as u8,
    ];
    let colours = palette::palette_bytes(palette);
    let tail = palette::rects_bytes(palette, pixels, width, rects);
    let command = palette::batch_command(pixels, width, rects);
    assert(command =~= head + colours + tail);
    lemma_palette_covers(pixels, width, rects);
    assert(palette.len() >= 1) by {
        let rect = rects[0];
        let values = runs::colours(pixels, width, rect);
        runs::law_runs_round_trip(values, u16::MAX as nat);
        runs::lemma_rows_of_len(pixels, width, rect, rect.height as nat);
        assert(rect.lies_on(width as int, height as int));
        assert(rect.width * rect.height > 0) by (nonlinear_arith)
            requires
                rect.width > 0,
                rect.height > 0,
        ;
        let found = palette::rect_runs(pixels, width, rects[0]);
        assert(can_stand(palette, found));
        assert(palette.contains(found[0].1));
    }
    palette::lemma_palette_bytes_len(palette);
    lemma_values_of_palette(palette);
    let body = 3 + 4 * (command[2] + 1);
    assert(command[2] + 1 == palette.len());
    assert(command.subrange(3, body) =~= colours);
    assert(command.skip(body) =~= tail);
    lemma_batch_painted(device.screen, pixels, width, height, palette, rects);
}

/// The rows of a strip are rows of its rectangle.
proof fn lemma_strip_is_shown(
    screen: Seq<u8>,
    pixels: Seq<u8>,
    width: u32,
    rect: DamageRect,
    row: int,
)
    requires
        rect.bottom() <= u32::MAX,
        0 <= row < rect.height,
        plan::strip_rows(rect, row) > 0,
    ensures
        shadow::with_rows_shown(
            shadow::with_rows_shown(screen, pixels, width, rect, row),
            pixels,
            width,
            plan::strip(rect, row),
            plan::strip(rect, row).height as int,
        ) == shadow::with_rows_shown(
            screen,
            pixels,
            width,
            rect,
            row + plan::strip_rows(rect, row),
        ),
{
    let strip = plan::strip(rect, row);
    let rows = plan::strip_rows(rect, row);
    let size = pixels.len();
    assert(strip.y == rect.y + row && strip.height == rows);
    assert forall|r: int| #[trigger]
        shadow::row_start(width, strip, r) == shadow::row_start(width, rect, row + r) by {}
    assert forall|i: int|
        shadow::in_rows(size, width, rect, row + rows, i) == (#[trigger] shadow::in_rows(
            size,
            width,
            rect,
            row,
            i,
        ) || shadow::in_rows(size, width, strip, rows, i)) by {
        if shadow::in_rows(size, width, rect, row + rows, i) {
            let r = choose|r: int|
                0 <= r < row + rows && #[trigger] shadow::row_start(width, rect, r) <= i
                    < shadow::row_start(width, rect, r) + 4 * rect.width <= size;
            if r >= row {
                assert(shadow::row_start(width, strip, r - row) == shadow::row_start(
                    width,
                    rect,
                    r,
                ));
            }
        }
        if shadow::in_rows(size, width, strip, rows, i) {
            let r = choose|r: int|
                0 <= r < rows && #[trigger] shadow::row_start(width, strip, r) <= i
                    < shadow::row_start(width, strip, r) + 4 * strip.width <= size;
            assert(shadow::row_start(width, rect, row + r) == shadow::row_start(width, strip, r));
        }
    }
    let below = shadow::with_rows_shown(screen, pixels, width, rect, row);
    let whole = shadow::with_rows_shown(screen, pixels, width, rect, row + rows);
    let after = shadow::with_rows_shown(below, pixels, width, strip, strip.height as int);
    assert forall|i: int| 0 <= i < screen.len() implies after[i] == whole[i] by {
        assert(shadow::in_rows(size, width, rect, row + rows, i) == (shadow::in_rows(
            size,
            width,
            rect,
            row,
            i,
        ) || shadow::in_rows(size, width, strip, rows, i)));
    }
    assert(after =~= whole);
}

/// Strip by strip, a rectangle is shown.
proof fn lemma_strips_are_shown(
    device: Device,
    screen: Seq<u8>,
    pixels: Seq<u8>,
    width: u32,
    height: u32,
    rect: DamageRect,
    row: int,
)
    requires
        present::is_picture(pixels, width, height),
        screen.len() == pixels.len(),
        rect.lies_on(width as int, height as int),
        plan::rows_fit(rect),
        0 <= row <= rect.height,
        device.screen == shadow::with_rows_shown(screen, pixels, width, rect, row),
    ensures
        device.after(width, plan::strips(pixels, width, rect, row)) == (Device {
            screen: shadow::with_rows_shown(screen, pixels, width, rect, rect.height as int),
            ..device
        }),
    decreases rect.height - row,
{
    let rows = plan::strip_rows(rect, row);
    let steps = plan::strips(pixels, width, rect, row);
    if row < rect.height {
        assert(plan::MAX_PATCH_RGBA_BYTES as int / (4 * rect.width) >= 1) by (nonlinear_arith)
            requires
                0 < 4 * rect.width <= plan::MAX_PATCH_RGBA_BYTES,
        ;
        let strip = plan::strip(rect, row);
        let write = StepModel::Write(plan::patch_command(pixels, width, strip));
        assert(strip.lies_on(width as int, height as int));
        lemma_patch_is_shown(device, pixels, width, height, strip);
        lemma_strip_is_shown(screen, pixels, width, rect, row);
        let next = device.received(width, plan::patch_command(pixels, width, strip));
        lemma_strips_are_shown(next, screen, pixels, width, height, rect, row + rows);
        lemma_after_one(device, width, plan::patch_command(pixels, width, strip));
        lemma_after_concat(
            device,
            width,
            seq![write],
            plan::strips(pixels, width, rect, row + rows),
        );
    } else {
        assert(rows <= 0);
        assert(steps =~= Seq::<StepModel>::empty());
    }
}

proof fn lemma_chunk_arrives(device: Device, width: u32, offset: u32, data: Seq<u8>)
    ensures
        device.received(width, seq![FB_OP_BLIT_CHUNK] + bytes::le32(offset) + data) == (Device {
            arriving: filled(device.arriving, offset as int, data),
            ..device
        }),
{
    reveal(Device::received);
    let command = seq![FB_OP_BLIT_CHUNK] + bytes::le32(offset) + data;
    lemma_word_at(seq![FB_OP_BLIT_CHUNK], offset, data);
    assert(command[0] == FB_OP_BLIT_CHUNK);
    assert(command.skip(5) =~= data);
}

/// Chunk by chunk, a whole picture arrives.
proof fn lemma_chunks_arrive(device: Device, pixels: Seq<u8>, width: u32, offset: int)
    requires
        pixels.len() <= u32::MAX,
        0 <= offset <= pixels.len(),
        device.arriving.len() == pixels.len(),
        device.arriving.take(offset) == pixels.take(offset),
    ensures
        device.after(width, plan::chunks(pixels, offset)) == (Device {
            arriving: pixels,
            ..device
        }),
    decreases pixels.len() - offset,
{
    let steps = plan::chunks(pixels, offset);
    if offset < pixels.len() {
        let end = plan::chunk_end(pixels.len(), offset);
        let data = pixels.subrange(offset, end);
        let command = seq![FB_OP_BLIT_CHUNK] + bytes::le32(offset as u32) + data;
        let next = device.received(width, command);
        lemma_chunk_arrives(device, width, offset as u32, data);
        assert(next.arriving == filled(device.arriving, offset, data));
        assert forall|i: int| 0 <= i < end implies next.arriving[i] == pixels[i] by {
            if i < offset {
                assert(filled(device.arriving, offset, data)[i] == device.arriving[i]);
                assert(device.arriving.take(offset)[i] == pixels.take(offset)[i]);
                assert(device.arriving.take(offset)[i] == device.arriving[i]);
            } else {
                assert(filled(device.arriving, offset, data)[i] == data[i - offset]);
            }
        }
        assert(next.arriving.take(end) =~= pixels.take(end));
        lemma_chunks_arrive(next, pixels, width, end);
        lemma_after_one(device, width, command);
        lemma_after_concat(
            device,
            width,
            seq![StepModel::Write(command)],
            plan::chunks(pixels, end),
        );
    } else {
        assert(device.arriving.take(offset) =~= device.arriving);
        assert(pixels.take(offset) =~= pixels);
    }
}

/// A whole picture that is sent is shown.
proof fn lemma_whole_is_shown(device: Device, pixels: Seq<u8>, width: u32, height: u32)
    requires
        present::is_picture(pixels, width, height),
        pixels.len() <= u32::MAX,
    ensures
        device.after(width, plan::whole_steps(pixels, width, height)).screen == pixels,
{
    let size = seq![FB_OP_BLIT_BEGIN] + bytes::le32(width) + bytes::le32(height);
    let begin = seq![StepModel::Write(size)];
    let middle = plan::chunks(pixels, 0);
    let done = seq![StepModel::Write(seq![FB_OP_BLIT_END])];
    let last = seq![StepModel::Write(seq![FB_OP_BLIT_END]), StepModel::Replace];
    let begun = device.received(width, size);
    assert(begun.arriving.len() == pixels.len()) by {
        reveal(Device::received);
        lemma_word_at(seq![FB_OP_BLIT_BEGIN], width, bytes::le32(height));
        lemma_word_at(seq![FB_OP_BLIT_BEGIN] + bytes::le32(width), height, Seq::empty());
        assert(size =~= seq![FB_OP_BLIT_BEGIN] + bytes::le32(width) + bytes::le32(height)
            + Seq::<u8>::empty());
        assert(size[0] == FB_OP_BLIT_BEGIN);
    }
    assert(begun.arriving.take(0) =~= pixels.take(0));
    lemma_after_one(device, width, size);
    lemma_chunks_arrive(begun, pixels, width, 0);
    lemma_after_concat(device, width, begin, middle);
    lemma_after_concat(device, width, begin + middle, last);
    let arrived = begun.after(width, middle);
    assert(arrived.after(width, last).screen == pixels) by {
        reveal(Device::received);
        assert(last.drop_last() =~= done);
        lemma_after_one(arrived, width, seq![FB_OP_BLIT_END]);
    }
    assert(plan::whole_steps(pixels, width, height) =~= begin + middle + last);
}

/// Rectangle by rectangle, the device shows what is noted to be shown.
proof fn lemma_rects_plan_is_shown(
    device: Device,
    pixels: Seq<u8>,
    width: u32,
    height: u32,
    rects: Seq<DamageRect>,
    n: int,
)
    requires
        0 <= n <= rects.len(),
        present::is_picture(pixels, width, height),
        pixels.len() <= u32::MAX,
        pixels.len() <= usize::MAX,
        device.screen.len() == pixels.len(),
        bands::all_on(rects, width, height),
    ensures
        ({
            let steps = plan::rects_plan(pixels, width, height, rects, n).steps;
            let shown = plan::shown_after(device.screen, pixels, width, steps);
            device.after(width, steps).screen == shown && shown.len() == pixels.len()
        }),
    decreases n,
{
    if n > 0 {
        let plan = plan::rects_plan(pixels, width, height, rects, n);
        let front = plan::rects_plan(pixels, width, height, rects, n - 1);
        let rect = rects[n - 1];
        lemma_rects_plan_is_shown(device, pixels, width, height, rects, n - 1);
        let now = device.after(width, front.steps);
        assert(rect.lies_on(width as int, height as int));
        lemma_can_advance(now.screen, pixels, width, height, rect);
        if !front.complete {
        } else if plan::goes_as_runs(pixels, width, height, rect) {
            let command = runs::rle_command(pixels, width, rect);
            let sent = seq![StepModel::Write(command)];
            lemma_rle_is_shown(now, pixels, width, height, rect);
            lemma_after_one(now, width, command);
            lemma_sent_and_noted(device, pixels, width, front.steps, sent, rect);
            assert(plan.steps =~= front.steps + sent + seq![StepModel::Advance(rect)]);
        } else if rects.len() == 1 && plan::is_large(rect, width, height) {
            let whole = plan::whole_steps(pixels, width, height);
            lemma_whole_is_shown(now, pixels, width, height);
            lemma_after_concat(device, width, front.steps, whole);
            plan::lemma_shown_after_concat(device.screen, pixels, width, front.steps, whole);
            plan::lemma_whole_steps(
                plan::shown_after(device.screen, pixels, width, front.steps),
                pixels,
                width,
                height,
            );
        } else if plan::rows_fit(rect) {
            let sent = plan::strips(pixels, width, rect, 0);
            assert(shadow::with_rows_shown(now.screen, pixels, width, rect, 0) =~= now.screen);
            lemma_strips_are_shown(now, now.screen, pixels, width, height, rect, 0);
            plan::lemma_strips_write(pixels, width, rect, 0);
            lemma_sent_and_noted(device, pixels, width, front.steps, sent, rect);
        }
    }
}

/// Once a rectangle has been sent and noted, the device shows what is noted.
proof fn lemma_sent_and_noted(
    device: Device,
    pixels: Seq<u8>,
    width: u32,
    front: Seq<StepModel>,
    sent: Seq<StepModel>,
    rect: DamageRect,
)
    requires
        plan::all_write(sent),
        device.after(width, front).screen == plan::shown_after(
            device.screen,
            pixels,
            width,
            front,
        ),
        shadow::can_advance(device.after(width, front).screen, pixels, width, rect),
        device.after(width, front).after(width, sent).screen == shadow::with_rows_shown(
            device.after(width, front).screen,
            pixels,
            width,
            rect,
            rect.height as int,
        ),
    ensures
        ({
            let steps = front + sent + seq![StepModel::Advance(rect)];
            let shown = plan::shown_after(device.screen, pixels, width, steps);
            &&& device.after(width, steps).screen == shown
            &&& shown.len() == device.after(width, front).screen.len()
        }),
{
    let steps = front + sent + seq![StepModel::Advance(rect)];
    let noted = plan::shown_after(device.screen, pixels, width, front);
    assert(steps.drop_last() =~= front + sent);
    lemma_after_concat(device, width, front, sent);
    plan::lemma_shown_after_concat(device.screen, pixels, width, front, sent);
    plan::lemma_shown_after_writes(noted, pixels, width, sent);
    assert(steps.last() == StepModel::Advance(rect));
}

/// Whatever is sent, the device then shows what is noted to be shown.
pub proof fn law_device_shows_what_is_noted(
    device: Device,
    presented: Seq<u8>,
    pixels: Seq<u8>,
    width: u32,
    height: u32,
    rects: Seq<DamageRect>,
)
    requires
        present::is_picture(pixels, width, height),
        pixels.len() <= u32::MAX,
        pixels.len() <= usize::MAX,
        bands::all_on(rects, width, height),
        device.screen.len() == pixels.len(),
        device.screen == presented || (presented.len() != pixels.len() && rects.len() > 0),
    ensures
        ({
            let steps = plan::plan_of(presented.len(), pixels, width, height, rects).steps;
            device.after(width, steps).screen == plan::shown_after(
                presented,
                pixels,
                width,
                steps,
            )
        }),
{
    let steps = plan::plan_of(presented.len(), pixels, width, height, rects).steps;
    if rects.len() == 0 {
    } else if presented.len() != pixels.len() {
        lemma_whole_is_shown(device, pixels, width, height);
        plan::lemma_whole_steps(presented, pixels, width, height);
    } else if palette::can_batch(pixels, width, height, rects, FB_MAX_COMMAND_BYTES) {
        let command = palette::batch_command(pixels, width, rects);
        let sent = seq![StepModel::Write(command)];
        let noted = plan::advances(rects);
        lemma_batch_is_shown(device, pixels, width, height, rects);
        lemma_after_one(device, width, command);
        lemma_after_concat(device, width, sent, noted);
        lemma_notes_send_nothing(device.after(width, sent), width, rects);
        plan::lemma_shown_after_concat(presented, pixels, width, sent, noted);
        plan::lemma_shown_after_writes(presented, pixels, width, sent);
    } else {
        lemma_rects_plan_is_shown(device, pixels, width, height, rects, rects.len() as int);
    }
}

proof fn lemma_notes_send_nothing(device: Device, width: u32, rects: Seq<DamageRect>)
    ensures
        device.after(width, plan::advances(rects)) == device,
    decreases rects.len(),
{
    if rects.len() > 0 {
        lemma_notes_send_nothing(device, width, rects.drop_last());
        assert(plan::advances(rects).drop_last() =~= plan::advances(rects.drop_last()));
    }
}

/// Once a complete plan for unbounded damage has been sent, the device shows
/// the picture: whatever was on its screen before, if that is not known.
pub proof fn law_device_shows_picture(
    device: Device,
    presented: Seq<u8>,
    pixels: Seq<u8>,
    width: u32,
    height: u32,
)
    requires
        present::is_picture(pixels, width, height),
        pixels.len() <= u32::MAX,
        pixels.len() <= usize::MAX,
        device.screen.len() == pixels.len(),
        presented.len() == pixels.len() ==> device.screen == presented,
        plan::plan(presented, pixels, width, height, DamageModel::Full).complete,
    ensures
        device.after(
            width,
            plan::plan(presented, pixels, width, height, DamageModel::Full).steps,
        ).screen == pixels,
{
    let steps = plan::plan(presented, pixels, width, height, DamageModel::Full).steps;
    let rects = plan::changes(presented, pixels, width, height, DamageModel::Full);
    let shown = plan::shown_after(presented, pixels, width, steps);
    if width > 0 && height > 0 {
        bands::law_bands_cover_changes(
            presented,
            pixels,
            width,
            height,
            plan::MAX_PRESENT_BANDS,
            0,
            0,
        );
        law_device_shows_what_is_noted(device, presented, pixels, width, height, rects);
        plan::law_complete_plan_shows_picture(presented, pixels, width, height, 0, 0, 0);
        assert forall|i: int| 0 <= i < pixels.len() implies shown[i] == pixels[i] by {
            let place = i / 4;
            let x = place % (width as int);
            let y = place / (width as int);
            lemma_place_of(width, height, place);
            plan::law_complete_plan_shows_picture(
                presented,
                pixels,
                width,
                height,
                x,
                y,
                i % 4,
            );
        }
        assert(shown =~= pixels);
    } else {
        assert(width * height == 0) by (nonlinear_arith)
            requires
                width == 0 || height == 0,
        ;
    }
}

} // verus!
