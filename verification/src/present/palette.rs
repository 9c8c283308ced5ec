//! Patches of several rectangles that share few colours.

use vstd::prelude::*;

use crate::bytes;
use crate::bytes::{push_u16, push_u32};
use crate::present;
use crate::present::runs;
use crate::present::runs::{find_runs, is_whole};
use crate::present::{
    DamageRect, FB_OP_PATCH_PALETTE_RLE_BATCH, FB_PALETTE_BATCH_HEADER_BYTES,
    FB_PALETTE_BATCH_MAX_COLORS, FB_PALETTE_BATCH_MAX_RECTS, FB_PALETTE_BATCH_RECT_HEADER_BYTES,
    FB_PALETTE_BATCH_RUN_BYTES,
};

verus! {

/// The runs of a rectangle.
pub open spec fn rect_runs(picture: Seq<u8>, picture_width: u32, rect: DamageRect) -> Seq<
    (nat, u32),
> {
    runs::runs(runs::colours(picture, picture_width, rect), u16::MAX as nat)
}

/// A palette with the colours of runs that it lacks, in the order in which
/// they appear.
pub open spec fn with_colours(palette: Seq<u32>, found: Seq<(nat, u32)>) -> Seq<u32>
    decreases found.len(),
{
    if found.len() == 0 {
        palette
    } else {
        let before = with_colours(palette, found.drop_last());
        if before.contains(found.last().1) {
            before
        } else {
            before.push(found.last().1)
        }
    }
}

/// The colours of the listed rectangles, in the order in which they appear.
pub open spec fn palette_of(picture: Seq<u8>, picture_width: u32, rects: Seq<DamageRect>) -> Seq<u32>
    decreases rects.len(),
{
    if rects.len() == 0 {
        Seq::empty()
    } else {
        with_colours(
            palette_of(picture, picture_width, rects.drop_last()),
            rect_runs(picture, picture_width, rects.last()),
        )
    }
}

/// The place of a colour in a palette, from `from` on.
pub open spec fn place_in(palette: Seq<u32>, colour: u32, from: nat) -> nat
    decreases palette.len() - from,
{
    if from >= palette.len() || palette[from as int] == colour {
        from
    } else {
        place_in(palette, colour, from + 1)
    }
}

/// Runs as they stand in a batch: each its length and the place of its colour.
pub open spec fn run_bytes(palette: Seq<u32>, found: Seq<(nat, u32)>) -> Seq<u8>
    decreases found.len(),
{
    if found.len() == 0 {
        Seq::empty()
    } else {
        run_bytes(palette, found.drop_last()) + bytes::le16(found.last().0 as u16) + seq![
            place_in(palette, found.last().1, 0) as u8,
        ]
    }
}

pub open spec fn palette_bytes(palette: Seq<u32>) -> Seq<u8>
    decreases palette.len(),
{
    if palette.len() == 0 {
        Seq::empty()
    } else {
        palette_bytes(palette.drop_last()) + bytes::le32(palette.last())
    }
}

/// The listed rectangles as they stand in a batch: each its place and its runs.
pub open spec fn rects_bytes(
    palette: Seq<u32>,
    picture: Seq<u8>,
    picture_width: u32,
    rects: Seq<DamageRect>,
) -> Seq<u8>
    decreases rects.len(),
{
    if rects.len() == 0 {
        Seq::empty()
    } else {
        rects_bytes(palette, picture, picture_width, rects.drop_last()) + rects.last().wire()
            + run_bytes(palette, rect_runs(picture, picture_width, rects.last()))
    }
}

/// A patch of several rectangles as runs over a palette.
pub open spec fn batch_command(
    picture: Seq<u8>,
    picture_width: u32,
    rects: Seq<DamageRect>,
) -> Seq<u8> {
    let palette = palette_of(picture, picture_width, rects);
    seq![
        FB_OP_PATCH_PALETTE_RLE_BATCH,
        rects.len() as u8,
        (palette.len() - 1) as u8,
    ] + palette_bytes(palette) + rects_bytes(palette, picture, picture_width, rects)
}

pub open spec fn all_lie_on(rects: Seq<DamageRect>, width: u32, height: u32) -> bool {
    forall|i: int|
        0 <= i < rects.len() ==> (#[trigger] rects[i]).lies_on(width as int, height as int)
}

/// Whether rectangles can be sent as a batch: there are two to eight of them,
/// they have few colours, and the command is not too long.
pub open spec fn can_batch(
    picture: Seq<u8>,
    width: u32,
    height: u32,
    rects: Seq<DamageRect>,
    max_command_bytes: usize,
) -> bool {
    &&& 2 <= rects.len() <= FB_PALETTE_BATCH_MAX_RECTS
    &&& all_lie_on(rects, width, height)
    &&& present::is_picture(picture, width, height)
    &&& palette_of(picture, width, rects).len() <= FB_PALETTE_BATCH_MAX_COLORS
    &&& batch_command(picture, width, rects).len() <= max_command_bytes
}

/// A palette holds no colour twice, and a colour of a palette is found in its
/// place.
pub proof fn law_palette_is_distinct(palette: Seq<u32>, found: Seq<(nat, u32)>)
    requires
        palette.no_duplicates(),
    ensures
        with_colours(palette, found).no_duplicates(),
        palette.len() <= with_colours(palette, found).len(),
        with_colours(palette, found).take(palette.len() as int) == palette,
        forall|i: int|
            0 <= i < found.len() ==> with_colours(palette, found).contains(#[trigger] found[i].1),
    decreases found.len(),
{
    if found.len() > 0 {
        let front = found.drop_last();
        let before = with_colours(palette, front);
        let after = with_colours(palette, found);
        let colour = found.last().1;
        law_palette_is_distinct(palette, front);
        if !before.contains(colour) {
            assert(after.take(palette.len() as int) =~= before.take(palette.len() as int));
        }
        assert forall|i: int| 0 <= i < found.len() implies after.contains(#[trigger] found[i].1) by {
            if i < front.len() {
                assert(before.contains(front[i].1));
                let j = choose|j: int| 0 <= j < before.len() && before[j] == front[i].1;
                assert(after[j] == front[i].1);
            } else if !before.contains(colour) {
                assert(after[before.len() as int] == colour);
            }
        }
    } else {
        assert(palette.take(palette.len() as int) =~= palette);
    }
}

/// A colour that a palette holds stands in its place.
pub proof fn law_place_holds_colour(palette: Seq<u32>, colour: u32)
    requires
        palette.contains(colour),
    ensures
        place_in(palette, colour, 0) < palette.len(),
        palette[place_in(palette, colour, 0) as int] == colour,
{
    lemma_place_in(palette, colour, 0);
}

proof fn lemma_place_in(palette: Seq<u32>, colour: u32, from: nat)
    requires
        from <= palette.len(),
    ensures
        ({
            let place = place_in(palette, colour, from);
            &&& from <= place <= palette.len()
            &&& place < palette.len() ==> palette[place as int] == colour
            &&& place == palette.len() ==> forall|i: int|
                from <= i < palette.len() ==> #[trigger] palette[i] != colour
        }),
    decreases palette.len() - from,
{
    if from < palette.len() && palette[from as int] != colour {
        lemma_place_in(palette, colour, from + 1);
    }
}

pub(crate) proof fn lemma_run_bytes_len(palette: Seq<u32>, found: Seq<(nat, u32)>)
    ensures
        run_bytes(palette, found).len() == FB_PALETTE_BATCH_RUN_BYTES * found.len(),
    decreases found.len(),
{
    if found.len() > 0 {
        lemma_run_bytes_len(palette, found.drop_last());
    }
}

pub(crate) proof fn lemma_palette_bytes_len(palette: Seq<u32>)
    ensures
        palette_bytes(palette).len() == 4 * palette.len(),
    decreases palette.len(),
{
    if palette.len() > 0 {
        lemma_palette_bytes_len(palette.drop_last());
    }
}

/// How many runs the listed rectangles have.
pub open spec fn run_count(picture: Seq<u8>, picture_width: u32, rects: Seq<DamageRect>) -> nat
    decreases rects.len(),
{
    if rects.len() == 0 {
        0
    } else {
        run_count(picture, picture_width, rects.drop_last()) + rect_runs(
            picture,
            picture_width,
            rects.last(),
        ).len()
    }
}

proof fn lemma_rects_bytes_len(
    palette: Seq<u32>,
    picture: Seq<u8>,
    picture_width: u32,
    rects: Seq<DamageRect>,
)
    ensures
        rects_bytes(palette, picture, picture_width, rects).len()
            == FB_PALETTE_BATCH_RECT_HEADER_BYTES * rects.len() + FB_PALETTE_BATCH_RUN_BYTES
            * run_count(picture, picture_width, rects),
    decreases rects.len(),
{
    if rects.len() > 0 {
        lemma_rects_bytes_len(palette, picture, picture_width, rects.drop_last());
        rects.last().lemma_wire_len();
        lemma_run_bytes_len(palette, rect_runs(picture, picture_width, rects.last()));
    }
}

/// The length of a batch adds up from its rectangles, colours and runs.
pub proof fn lemma_batch_len(picture: Seq<u8>, picture_width: u32, rects: Seq<DamageRect>)
    ensures
        batch_command(picture, picture_width, rects).len() == FB_PALETTE_BATCH_HEADER_BYTES + 4
            * palette_of(picture, picture_width, rects).len() + FB_PALETTE_BATCH_RECT_HEADER_BYTES
            * rects.len() + FB_PALETTE_BATCH_RUN_BYTES * run_count(picture, picture_width, rects),
{
    let palette = palette_of(picture, picture_width, rects);
    lemma_palette_bytes_len(palette);
    lemma_rects_bytes_len(palette, picture, picture_width, rects);
}

/// More rectangles have no fewer runs and no fewer colours.
proof fn lemma_counts_grow(picture: Seq<u8>, picture_width: u32, rects: Seq<DamageRect>, n: int)
    requires
        0 <= n <= rects.len(),
    ensures
        run_count(picture, picture_width, rects.take(n)) <= run_count(
            picture,
            picture_width,
            rects,
        ),
        palette_of(picture, picture_width, rects.take(n)).len() <= palette_of(
            picture,
            picture_width,
            rects,
        ).len(),
        palette_of(picture, picture_width, rects.take(n)).no_duplicates(),
    decreases rects.len() - n,
{
    lemma_palette_distinct(picture, picture_width, rects.take(n));
    if n < rects.len() {
        assert(rects.take(n + 1).drop_last() =~= rects.take(n));
        assert(rects.take(n + 1).last() == rects[n]);
        law_palette_is_distinct(
            palette_of(picture, picture_width, rects.take(n)),
            rect_runs(picture, picture_width, rects[n]),
        );
        lemma_counts_grow(picture, picture_width, rects, n + 1);
    } else {
        assert(rects.take(n) =~= rects);
    }
}

proof fn lemma_palette_distinct(picture: Seq<u8>, picture_width: u32, rects: Seq<DamageRect>)
    ensures
        palette_of(picture, picture_width, rects).no_duplicates(),
    decreases rects.len(),
{
    if rects.len() > 0 {
        lemma_palette_distinct(picture, picture_width, rects.drop_last());
        law_palette_is_distinct(
            palette_of(picture, picture_width, rects.drop_last()),
            rect_runs(picture, picture_width, rects.last()),
        );
    }
}

/// A palette never shrinks as colours are taken in.
proof fn lemma_with_colours_grows(palette: Seq<u32>, found: Seq<(nat, u32)>, n: int)
    requires
        0 <= n <= found.len(),
    ensures
        with_colours(palette, found.take(n)).len() <= with_colours(palette, found).len(),
    decreases found.len() - n,
{
    if n < found.len() {
        assert(found.take(n + 1).drop_last() =~= found.take(n));
        lemma_with_colours_grows(palette, found, n + 1);
    } else {
        assert(found.take(n) =~= found);
    }
}

/// The place of a colour in a palette.
fn find_place(palette: &Vec<u32>, colour: u32) -> (place: usize)
    ensures
        place == place_in(palette@, colour, 0),
        place < palette@.len() <==> palette@.contains(colour),
        place <= palette@.len(),
{
    let mut i: usize = 0;
    while i < palette.len() && palette[i] != colour
        invariant
            i <= palette@.len(),
            place_in(palette@, colour, 0) == place_in(palette@, colour, i as nat),
            forall|j: int| 0 <= j < i ==> palette@[j] != colour,
        decreases palette@.len() - i,
    {
        i += 1;
    }
    proof {
        if i < palette@.len() {
            assert(palette@[i as int] == colour);
        }
    }
    i
}

/// Takes the colours of runs into a palette, if it has room for them.
fn take_colours(palette: &mut Vec<u32>, found: &Vec<(u32, u32)>) -> (fits: bool)
    requires
        old(palette)@.len() <= FB_PALETTE_BATCH_MAX_COLORS,
    ensures
        fits == (with_colours(old(palette)@, runs::counted(found@)).len()
            <= FB_PALETTE_BATCH_MAX_COLORS),
        fits ==> final(palette)@ == with_colours(old(palette)@, runs::counted(found@)),
{
    let ghost all = runs::counted(found@);
    let ghost start = palette@;
    let mut i: usize = 0;
    proof {
        assert(all.take(0) =~= Seq::<(nat, u32)>::empty());
    }
    while i < found.len()
        invariant
            i <= found@.len(),
            all == runs::counted(found@),
            start == old(palette)@,
            palette@ == with_colours(start, all.take(i as int)),
            palette@.len() <= FB_PALETTE_BATCH_MAX_COLORS,
        decreases found@.len() - i,
    {
        let colour: u32 = found[i].1;
        proof {
            assert(all.take(i + 1).drop_last() =~= all.take(i as int));
            assert(all.take(i + 1).last().1 == colour);
            lemma_with_colours_grows(start, all, i + 1);
        }
        if find_place(palette, colour) == palette.len() {
            if palette.len() == FB_PALETTE_BATCH_MAX_COLORS {
                return false;
            }
            palette.push(colour);
        }
        i += 1;
    }
    proof {
        assert(all.take(i as int) =~= all);
    }
    true
}

/// Adds runs to a batch.
fn push_runs(command: &mut Vec<u8>, palette: &Vec<u32>, found: &Vec<(u32, u32)>)
    requires
        palette@.len() <= FB_PALETTE_BATCH_MAX_COLORS,
    ensures
        final(command)@ == old(command)@ + run_bytes(palette@, runs::counted(found@)),
{
    let ghost all = runs::counted(found@);
    let ghost start = command@;
    let mut i: usize = 0;
    proof {
        assert(all.take(0) =~= Seq::<(nat, u32)>::empty());
        assert(start + run_bytes(palette@, all.take(0)) =~= start);
    }
    while i < found.len()
        invariant
            i <= found@.len(),
            all == runs::counted(found@),
            palette@.len() <= FB_PALETTE_BATCH_MAX_COLORS,
            command@ == start + run_bytes(palette@, all.take(i as int)),
        decreases found@.len() - i,
    {
        let (count, colour) = found[i];
        let place: usize = find_place(palette, colour);
        push_u16(command, count as u16);
        command.push(place as u8);
        proof {
            let now = all.take(i + 1);
            assert(now.drop_last() =~= all.take(i as int));
            assert(now.last() == (count as nat, colour));
            assert(command@ =~= start + (run_bytes(palette@, all.take(i as int)) + bytes::le16(
                count as u16,
            ) + seq![place as u8]));
        }
        i += 1;
    }
    proof {
        assert(all.take(i as int) =~= all);
    }
}

/// Adds the colours of a palette to a batch.
fn push_palette(command: &mut Vec<u8>, palette: &Vec<u32>)
    ensures
        final(command)@ == old(command)@ + palette_bytes(palette@),
{
    let ghost start = command@;
    let mut i: usize = 0;
    proof {
        assert(palette@.take(0) =~= Seq::<u32>::empty());
        assert(start + palette_bytes(palette@.take(0)) =~= start);
    }
    while i < palette.len()
        invariant
            i <= palette@.len(),
            command@ == start + palette_bytes(palette@.take(i as int)),
        decreases palette@.len() - i,
    {
        push_u32(command, palette[i]);
        proof {
            let now = palette@.take(i + 1);
            assert(now.drop_last() =~= palette@.take(i as int));
            assert(now.last() == palette@[i as int]);
            assert(command@ =~= start + (palette_bytes(palette@.take(i as int)) + bytes::le32(
                palette@[i as int],
            )));
        }
        i += 1;
    }
    proof {
        assert(palette@.take(i as int) =~= palette@);
    }
}

/// The runs of every rectangle, and the palette of all, if there are few
/// enough of both.
fn gather(
    pixels: &[u8],
    width: u32,
    height: u32,
    damages: &[DamageRect],
    max_command_bytes: usize,
) -> (r: Option<(Vec<Vec<(u32, u32)>>, Vec<u32>)>)
    requires
        2 <= damages@.len() <= FB_PALETTE_BATCH_MAX_RECTS,
        present::is_picture(pixels@, width, height),
    ensures
        match r {
            Some((found, palette)) => {
                &&& can_batch(pixels@, width, height, damages@, max_command_bytes)
                &&& palette@ == palette_of(pixels@, width, damages@)
                &&& palette@.len() > 0
                &&& found@.len() == damages@.len()
                &&& forall|i: int|
                    0 <= i < damages@.len() ==> runs::counted((#[trigger] found@[i])@)
                        == rect_runs(pixels@, width, damages@[i])
            },
            None => !can_batch(pixels@, width, height, damages@, max_command_bytes),
        },
{
    let mut found: Vec<Vec<(u32, u32)>> = Vec::new();
    let mut palette: Vec<u32> = Vec::new();
    let mut total: usize = 0;
    let most: usize = max_command_bytes / FB_PALETTE_BATCH_RUN_BYTES;
    let mut i: usize = 0;
    proof {
        lemma_batch_len(pixels@, width, damages@);
        assert(damages@.take(0) =~= Seq::<DamageRect>::empty());
        assert(palette@ =~= Seq::<u32>::empty());
    }
    while i < damages.len()
        invariant
            i <= damages@.len(),
            2 <= damages@.len() <= FB_PALETTE_BATCH_MAX_RECTS,
            present::is_picture(pixels@, width, height),
            most == max_command_bytes / FB_PALETTE_BATCH_RUN_BYTES,
            batch_command(pixels@, width, damages@).len() == FB_PALETTE_BATCH_HEADER_BYTES + 4
                * palette_of(pixels@, width, damages@).len() + FB_PALETTE_BATCH_RECT_HEADER_BYTES
                * damages@.len() + FB_PALETTE_BATCH_RUN_BYTES * run_count(
                pixels@,
                width,
                damages@,
            ),
            forall|j: int|
                0 <= j < i ==> (#[trigger] damages@[j]).lies_on(width as int, height as int),
            total <= most,
            total == run_count(pixels@, width, damages@.take(i as int)),
            palette@ == palette_of(pixels@, width, damages@.take(i as int)),
            palette@.len() <= FB_PALETTE_BATCH_MAX_COLORS,
            i > 0 ==> palette@.len() > 0,
            found@.len() == i,
            forall|j: int|
                0 <= j < i ==> runs::counted((#[trigger] found@[j])@) == rect_runs(
                    pixels@,
                    width,
                    damages@[j],
                ),
        decreases damages@.len() - i,
    {
        let damage = damages[i];
        if !damage.is_on(width, height) {
            return None;
        }
        proof {
            let now = damages@.take(i + 1);
            assert(now.drop_last() =~= damages@.take(i as int));
            assert(now.last() == damage);
            lemma_counts_grow(pixels@, width, damages@, i + 1);
            lemma_counts_grow(pixels@, width, damages@, i as int);
        }
        let rect = match find_runs(pixels, width, height, damage, u16::MAX as u32, most - total) {
            Some(rect) => rect,
            None => {
                return None;
            },
        };
        proof {
            law_palette_is_distinct(palette@, runs::counted(rect@));
            assert(with_colours(palette@, runs::counted(rect@)).contains(
                runs::counted(rect@)[0].1,
            ));
        }
        if !take_colours(&mut palette, &rect) {
            return None;
        }
        total += rect.len();
        found.push(rect);
        i += 1;
    }
    proof {
        assert(damages@.take(i as int) =~= damages@);
    }
    let length: u128 = FB_PALETTE_BATCH_HEADER_BYTES as u128 + 4 * (palette.len() as u128)
        + FB_PALETTE_BATCH_RECT_HEADER_BYTES as u128 * (damages.len() as u128)
        + FB_PALETTE_BATCH_RUN_BYTES as u128 * (total as u128);
    if length > max_command_bytes as u128 {
        return None;
    }
    Some((found, palette))
}

/// A patch of several rectangles as runs over a palette, if they can be sent
/// as a batch.
pub fn encode_palette_rle_patch_batch(
    pixels: &[u8],
    framebuffer_width: u32,
    framebuffer_height: u32,
    damages: &[DamageRect],
    max_command_bytes: usize,
) -> (r: Option<Vec<u8>>)
    ensures
        match r {
            Some(command) => can_batch(
                pixels@,
                framebuffer_width,
                framebuffer_height,
                damages@,
                max_command_bytes,
            ) && command@ == batch_command(pixels@, framebuffer_width, damages@),
            None => !can_batch(
                pixels@,
                framebuffer_width,
                framebuffer_height,
                damages@,
                max_command_bytes,
            ),
        },
{
    if damages.len() < 2 || damages.len() > FB_PALETTE_BATCH_MAX_RECTS || !is_whole(
        pixels,
        framebuffer_width,
        framebuffer_height,
    ) {
        return None;
    }
    let (found, palette) = match gather(
        pixels,
        framebuffer_width,
        framebuffer_height,
        damages,
        max_command_bytes,
    ) {
        Some(gathered) => gathered,
        None => {
            return None;
        },
    };
    let mut command: Vec<u8> = Vec::new();
    command.push(FB_OP_PATCH_PALETTE_RLE_BATCH);
    command.push(damages.len() as u8);
    command.push((palette.len() - 1) as u8);
    push_palette(&mut command, &palette);
    let ghost head = command@;
    proof {
        assert(head =~= seq![
            FB_OP_PATCH_PALETTE_RLE_BATCH,
            damages@.len() as u8,
            (palette@.len() - 1) as u8,
        ] + palette_bytes(palette@));
        assert(damages@.take(0) =~= Seq::<DamageRect>::empty());
        assert(head + rects_bytes(palette@, pixels@, framebuffer_width, damages@.take(0)) =~= head);
    }
    let mut i: usize = 0;
    while i < damages.len()
        invariant
            i <= damages@.len(),
            palette@.len() <= FB_PALETTE_BATCH_MAX_COLORS,
            found@.len() == damages@.len(),
            forall|j: int|
                0 <= j < damages@.len() ==> runs::counted((#[trigger] found@[j])@) == rect_runs(
                    pixels@,
                    framebuffer_width,
                    damages@[j],
                ),
            command@ == head + rects_bytes(
                palette@,
                pixels@,
                framebuffer_width,
                damages@.take(i as int),
            ),
        decreases damages@.len() - i,
    {
        let ghost before = rects_bytes(
            palette@,
            pixels@,
            framebuffer_width,
            damages@.take(i as int),
        );
        damages[i].push_onto(&mut command);
        push_runs(&mut command, &palette, &found[i]);
        proof {
            let now = damages@.take(i + 1);
            assert(now.drop_last() =~= damages@.take(i as int));
            assert(now.last() == damages@[i as int]);
            let runs_now = run_bytes(
                palette@,
                rect_runs(pixels@, framebuffer_width, damages@[i as int]),
            );
            assert(command@ =~= head + (before + damages@[i as int].wire() + runs_now));
        }
        i += 1;
    }
    proof {
        assert(damages@.take(i as int) =~= damages@);
    }
    Some(command)
}

} // verus!
