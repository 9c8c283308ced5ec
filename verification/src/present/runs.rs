//! Patches as runs of one colour.

use vstd::prelude::*;

use crate::bytes;
use crate::bytes::{push_u32, read_u32};
use crate::present;
use crate::present::{
    picture_bytes, DamageRect, FB_OP_PATCH_RLE, FB_PATCH_COMMAND_HEADER_BYTES, FB_RLE_RUN_BYTES,
};

verus! {

/// The colours of `width` pixels of a picture from place `base` on.
pub open spec fn stretch(picture: Seq<u8>, base: int, width: nat) -> Seq<u32> {
    Seq::new(width, |i: int| present::pixel(picture, base + i))
}

/// The colours of the first `rows` rows of a rectangle.
pub open spec fn rows_of(picture: Seq<u8>, picture_width: u32, rect: DamageRect, rows: nat) -> Seq<u32>
    decreases rows,
{
    if rows == 0 {
        Seq::empty()
    } else {
        rows_of(picture, picture_width, rect, (rows - 1) as nat) + stretch(
            picture,
            (rect.y + rows - 1) * picture_width + rect.x,
            rect.width as nat,
        )
    }
}

/// The colours of a rectangle, row by row.
pub open spec fn colours(picture: Seq<u8>, picture_width: u32, rect: DamageRect) -> Seq<u32> {
    rows_of(picture, picture_width, rect, rect.height as nat)
}

/// Colours as runs: how often each comes in a row, at most `longest` times.
pub open spec fn runs(values: Seq<u32>, longest: nat) -> Seq<(nat, u32)>
    decreases values.len(),
{
    if values.len() == 0 {
        Seq::empty()
    } else {
        let before = runs(values.drop_last(), longest);
        let value = values.last();
        if before.len() > 0 && before.last().1 == value && before.last().0 < longest {
            before.drop_last().push((before.last().0 + 1, value))
        } else {
            before.push((1, value))
        }
    }
}

/// The colours that runs stand for.
pub open spec fn expanded(runs: Seq<(nat, u32)>) -> Seq<u32>
    decreases runs.len(),
{
    if runs.len() == 0 {
        Seq::empty()
    } else {
        expanded(runs.drop_last()) + Seq::new(runs.last().0, |i: int| runs.last().1)
    }
}

/// Runs stand for the colours that they were made of. None is empty or longer
/// than allowed.
pub proof fn law_runs_round_trip(values: Seq<u32>, longest: nat)
    requires
        longest >= 1,
    ensures
        expanded(runs(values, longest)) == values,
        forall|i: int|
            0 <= i < runs(values, longest).len() ==> 1 <= (#[trigger] runs(
                values,
                longest,
            )[i]).0 <= longest,
        values.len() > 0 ==> runs(values, longest).len() > 0 && runs(values, longest).last().1
            == values.last(),
        runs(values, longest).len() <= values.len(),
    decreases values.len(),
{
    if values.len() == 0 {
        assert(expanded(runs(values, longest)) =~= values);
    } else {
        let front = values.drop_last();
        let value = values.last();
        law_runs_round_trip(front, longest);
        let before = runs(front, longest);
        let after = runs(values, longest);
        assert(values =~= front.push(value));
        if before.len() > 0 && before.last().1 == value && before.last().0 < longest {
            assert(after.drop_last() =~= before.drop_last());
            assert(after.last() == (before.last().0 + 1, value));
            let copies = Seq::new(before.last().0, |i: int| before.last().1);
            let more = Seq::new(after.last().0, |i: int| after.last().1);
            assert(more =~= copies.push(value));
            assert(expanded(after) =~= expanded(before).push(value));
            assert forall|i: int| 0 <= i < after.len() implies 1 <= (#[trigger] after[i]).0
                <= longest by {
                if i < before.len() - 1 {
                    assert(before[i].0 <= longest);
                }
            }
        } else {
            assert(after.drop_last() =~= before);
            assert(after.last() == (1nat, value));
            let more = Seq::new(after.last().0, |i: int| after.last().1);
            assert(more =~= seq![value]);
            assert(expanded(after) =~= expanded(before).push(value));
            assert forall|i: int| 0 <= i < after.len() implies 1 <= (#[trigger] after[i]).0
                <= longest by {
                if i < before.len() {
                    assert(before[i].0 <= longest);
                }
            }
        }
    }
}

/// More colours make no fewer runs.
pub proof fn lemma_runs_grow(values: Seq<u32>, n: int, longest: nat)
    requires
        0 <= n <= values.len(),
    ensures
        runs(values.take(n), longest).len() <= runs(values, longest).len(),
    decreases values.len() - n,
{
    if n < values.len() {
        assert(values.take(n + 1).drop_last() =~= values.take(n));
        lemma_runs_grow(values, n + 1, longest);
    } else {
        assert(values.take(n) =~= values);
    }
}

/// Runs as they stand in a patch: each its length and its colour.
pub open spec fn run_bytes(runs: Seq<(nat, u32)>) -> Seq<u8>
    decreases runs.len(),
{
    if runs.len() == 0 {
        Seq::empty()
    } else {
        run_bytes(runs.drop_last()) + bytes::le32(runs.last().0 as u32) + bytes::le32(
            runs.last().1,
        )
    }
}

pub proof fn lemma_run_bytes_len(runs: Seq<(nat, u32)>)
    ensures
        run_bytes(runs).len() == FB_RLE_RUN_BYTES * runs.len(),
    decreases runs.len(),
{
    if runs.len() > 0 {
        lemma_run_bytes_len(runs.drop_last());
    }
}

/// A patch of a rectangle as runs.
pub open spec fn rle_command(picture: Seq<u8>, picture_width: u32, rect: DamageRect) -> Seq<u8> {
    seq![FB_OP_PATCH_RLE] + rect.wire() + run_bytes(
        runs(colours(picture, picture_width, rect), u32::MAX as nat),
    )
}

/// Whether a patch as runs is worth sending: it is no longer than allowed, and
/// shorter than the pixels themselves.
pub open spec fn rle_is_worth(
    picture: Seq<u8>,
    picture_width: u32,
    rect: DamageRect,
    max_command_bytes: usize,
) -> bool {
    let length = rle_command(picture, picture_width, rect).len();
    &&& length <= max_command_bytes
    &&& length < FB_PATCH_COMMAND_HEADER_BYTES + 4 * (rect.width * rect.height)
}

/// The lengths of the encoded form add up from the rectangle and the runs.
pub proof fn lemma_rle_command_len(picture: Seq<u8>, picture_width: u32, rect: DamageRect)
    ensures
        rle_command(picture, picture_width, rect).len() == FB_PATCH_COMMAND_HEADER_BYTES
            + FB_RLE_RUN_BYTES * runs(
            colours(picture, picture_width, rect),
            u32::MAX as nat,
        ).len(),
{
    rect.lemma_wire_len();
    lemma_run_bytes_len(runs(colours(picture, picture_width, rect), u32::MAX as nat));
}

pub proof fn lemma_rows_of_len(picture: Seq<u8>, picture_width: u32, rect: DamageRect, rows: nat)
    ensures
        rows_of(picture, picture_width, rect, rows).len() == rect.width * rows,
    decreases rows,
{
    if rows > 0 {
        lemma_rows_of_len(picture, picture_width, rect, (rows - 1) as nat);
        assert(rect.width * (rows - 1) + rect.width == rect.width * rows) by (nonlinear_arith);
    } else {
        assert(rect.width * 0 == 0);
    }
}

/// The first rows of a rectangle's colours are those of its first rows.
pub proof fn lemma_rows_are_prefix(
    picture: Seq<u8>,
    picture_width: u32,
    rect: DamageRect,
    rows: nat,
    all: nat,
)
    requires
        rows <= all,
    ensures
        rows_of(picture, picture_width, rect, rows).len() <= rows_of(
            picture,
            picture_width,
            rect,
            all,
        ).len(),
        rows_of(picture, picture_width, rect, all).take(
            rows_of(picture, picture_width, rect, rows).len() as int,
        ) == rows_of(picture, picture_width, rect, rows),
    decreases all - rows,
{
    let part = rows_of(picture, picture_width, rect, rows);
    let whole = rows_of(picture, picture_width, rect, all);
    if rows < all {
        lemma_rows_are_prefix(picture, picture_width, rect, rows, (all - 1) as nat);
        let most = rows_of(picture, picture_width, rect, (all - 1) as nat);
        assert(whole.take(part.len() as int) =~= most.take(part.len() as int));
    } else {
        assert(whole.take(part.len() as int) =~= part);
    }
}

/// Runs as they are counted.
pub open spec fn counted(found: Seq<(u32, u32)>) -> Seq<(nat, u32)> {
    found.map_values(|run: (u32, u32)| (run.0 as nat, run.1))
}

proof fn lemma_counted_push(found: Seq<(u32, u32)>, run: (u32, u32))
    ensures
        counted(found.push(run)) == counted(found).push((run.0 as nat, run.1)),
{
    assert(counted(found.push(run)) =~= counted(found).push((run.0 as nat, run.1)));
}

/// The runs of a rectangle, none longer than `longest`, if there are at most
/// `most`.
pub(crate) fn find_runs(
    pixels: &[u8],
    framebuffer_width: u32,
    framebuffer_height: u32,
    damage: DamageRect,
    longest: u32,
    most: usize,
) -> (r: Option<Vec<(u32, u32)>>)
    requires
        longest >= 1,
        damage.lies_on(framebuffer_width as int, framebuffer_height as int),
        present::is_picture(pixels@, framebuffer_width, framebuffer_height),
    ensures
        match r {
            Some(found) => counted(found@) == runs(
                colours(pixels@, framebuffer_width, damage),
                longest as nat,
            ) && found@.len() <= most && found@.len() > 0,
            None => runs(colours(pixels@, framebuffer_width, damage), longest as nat).len() > most,
        },
{
    let ghost all = colours(pixels@, framebuffer_width, damage);
    let ghost cap = longest as nat;
    let mut found: Vec<(u32, u32)> = Vec::new();
    let mut colour: u32 = 0;
    let mut count: u32 = 0;
    let mut row: u32 = 0;
    proof {
        assert(rows_of(pixels@, framebuffer_width, damage, 0) =~= Seq::<u32>::empty());
        assert(counted(found@) =~= Seq::<(nat, u32)>::empty());
    }
    while row < damage.height
        invariant
            row <= damage.height,
            damage.lies_on(framebuffer_width as int, framebuffer_height as int),
            present::is_picture(pixels@, framebuffer_width, framebuffer_height),
            cap == longest as nat,
            longest >= 1,
            all == colours(pixels@, framebuffer_width, damage),
            found@.len() <= most,
            runs(rows_of(pixels@, framebuffer_width, damage, row as nat), cap) == if count == 0 {
                counted(found@)
            } else {
                counted(found@).push((count as nat, colour))
            },
            count == 0 ==> row == 0 && found@.len() == 0,
        decreases damage.height - row,
    {
        let ghost above = rows_of(pixels@, framebuffer_width, damage, row as nat);
        proof {
            present::lemma_place(
                framebuffer_width,
                framebuffer_height,
                damage.right(),
                damage.y + row,
            );
            present::lemma_place(
                framebuffer_width,
                framebuffer_height,
                damage.x as int,
                damage.y + row,
            );
        }
        assert(4 * ((damage.y + row) * framebuffer_width + damage.right()) <= pixels.len());
        let base: usize = (damage.y + row) as usize * framebuffer_width as usize
            + damage.x as usize;
        let ghost line = stretch(pixels@, base as int, damage.width as nat);
        let mut x: u32 = 0;
        proof {
            assert(above + line.take(0) =~= above);
            lemma_rows_are_prefix(
                pixels@,
                framebuffer_width,
                damage,
                (row + 1) as nat,
                damage.height as nat,
            );
            assert(rows_of(pixels@, framebuffer_width, damage, (row + 1) as nat) == above + line);
        }
        while x < damage.width
            invariant
                x <= damage.width,
                damage.width > 0,
                line == stretch(pixels@, base as int, damage.width as nat),
                4 * (base + damage.width) <= pixels@.len(),
                4 * (base + damage.width) <= usize::MAX,
                cap == longest as nat,
                longest >= 1,
                all == colours(pixels@, framebuffer_width, damage),
                (above + line).len() <= all.len(),
                all.take((above + line).len() as int) == above + line,
                found@.len() <= most,
                runs(above + line.take(x as int), cap) == if count == 0 {
                    counted(found@)
                } else {
                    counted(found@).push((count as nat, colour))
                },
                count == 0 ==> above.len() == 0 && x == 0 && found@.len() == 0,
            decreases damage.width - x,
        {
            let next: u32 = read_u32(pixels, 4 * (base + x as usize));
            proof {
                let so_far = above + line.take(x as int);
                let with_next = above + line.take(x + 1);
                assert(with_next.drop_last() =~= so_far);
                assert(with_next.last() == next);
                assert(all.take(with_next.len() as int) =~= with_next) by {
                    assert(all.take((above + line).len() as int).take(with_next.len() as int)
                        =~= all.take(with_next.len() as int));
                }
                lemma_runs_grow(all, with_next.len() as int, cap);
                assert(counted(found@).push((count as nat, colour)).drop_last() =~= counted(
                    found@,
                ));
            }
            if count > 0 && next == colour && count < longest {
                count += 1;
            } else {
                if count > 0 {
                    if found.len() == most {
                        return None;
                    }
                    proof {
                        lemma_counted_push(found@, (count, colour));
                    }
                    found.push((count, colour));
                }
                colour = next;
                count = 1;
            }
            x += 1;
        }
        proof {
            assert(line.take(x as int) =~= line);
        }
        row += 1;
    }
    if found.len() == most {
        return None;
    }
    proof {
        lemma_counted_push(found@, (count, colour));
    }
    found.push((count, colour));
    Some(found)
}

/// A patch of a rectangle as runs, if it is worth sending.
pub fn encode_rle_patch(
    pixels: &[u8],
    framebuffer_width: u32,
    framebuffer_height: u32,
    damage: DamageRect,
    max_command_bytes: usize,
) -> (r: Option<Vec<u8>>)
    ensures
        match r {
            Some(command) => damage.lies_on(
                framebuffer_width as int,
                framebuffer_height as int,
            ) && present::is_picture(pixels@, framebuffer_width, framebuffer_height)
                && rle_is_worth(pixels@, framebuffer_width, damage, max_command_bytes) && command@
                == rle_command(pixels@, framebuffer_width, damage),
            None => !(damage.lies_on(framebuffer_width as int, framebuffer_height as int)
                && present::is_picture(pixels@, framebuffer_width, framebuffer_height)
                && rle_is_worth(pixels@, framebuffer_width, damage, max_command_bytes)),
        },
{
    if !damage.is_on(framebuffer_width, framebuffer_height) || !is_whole(
        pixels,
        framebuffer_width,
        framebuffer_height,
    ) {
        return None;
    }
    proof {
        lemma_rle_command_len(pixels@, framebuffer_width, damage);
    }
    if max_command_bytes < FB_PATCH_COMMAND_HEADER_BYTES {
        return None;
    }
    let most: usize = (max_command_bytes - FB_PATCH_COMMAND_HEADER_BYTES) / FB_RLE_RUN_BYTES;
    let found = match find_runs(
        pixels,
        framebuffer_width,
        framebuffer_height,
        damage,
        u32::MAX,
        most,
    ) {
        Some(found) => found,
        None => {
            return None;
        },
    };
    proof {
        assert(0 <= damage.width * damage.height <= 0xffff_ffff * 0xffff_ffff) by (nonlinear_arith)
            requires
                0 <= damage.width <= 0xffff_ffff,
                0 <= damage.height <= 0xffff_ffff,
        ;
    }
    let area: u128 = damage.width as u128 * damage.height as u128;
    if FB_RLE_RUN_BYTES as u128 * found.len() as u128 >= 4 * area {
        return None;
    }
    Some(rle_patch(damage, &found))
}

/// The command that patches a rectangle with runs.
fn rle_patch(damage: DamageRect, found: &Vec<(u32, u32)>) -> (command: Vec<u8>)
    ensures
        command@ == seq![FB_OP_PATCH_RLE] + damage.wire() + run_bytes(counted(found@)),
{
    let mut command: Vec<u8> = Vec::new();
    command.push(FB_OP_PATCH_RLE);
    damage.push_onto(&mut command);
    let ghost head = seq![FB_OP_PATCH_RLE] + damage.wire();
    let mut i: usize = 0;
    proof {
        assert(command@ =~= head + run_bytes(Seq::empty()));
        assert(counted(found@).take(0) =~= Seq::<(nat, u32)>::empty());
    }
    while i < found.len()
        invariant
            i <= found@.len(),
            command@ == head + run_bytes(counted(found@).take(i as int)),
        decreases found@.len() - i,
    {
        let (count, colour) = found[i];
        push_u32(&mut command, count);
        push_u32(&mut command, colour);
        proof {
            let now = counted(found@).take(i + 1);
            let before = counted(found@).take(i as int);
            assert(now.drop_last() =~= before);
            assert(now.last() == (count as nat, colour));
            assert(command@ =~= head + (run_bytes(before) + bytes::le32(count) + bytes::le32(
                colour,
            )));
        }
        i += 1;
    }
    proof {
        assert(counted(found@).take(i as int) =~= counted(found@));
    }
    command
}

/// Whether a picture has the bytes that its size asks for.
pub(crate) fn is_whole(pixels: &[u8], width: u32, height: u32) -> (r: bool)
    ensures
        r == present::is_picture(pixels@, width, height),
{
    match picture_bytes(width, height) {
        Some(size) => pixels.len() == size,
        None => {
            assert(pixels.len() <= usize::MAX);
            false
        },
    }
}

} // verus!
