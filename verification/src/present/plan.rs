//! The steps that bring the screen up to date with a picture.

use vstd::prelude::*;
use vstd::slice::slice_subrange;

use crate::bytes;
use crate::bytes::{push_bytes, push_u32};
use crate::present;
use crate::present::bands;
use crate::present::bands::{changed_bands, changed_bands_bounded};
use crate::present::palette;
use crate::present::palette::encode_palette_rle_patch_batch;
use crate::present::runs;
use crate::present::runs::encode_rle_patch;
use crate::present::shadow;
use crate::present::shadow::advance_presented_damage;
use crate::present::{
    DamageRect, FB_MAX_COMMAND_BYTES, FB_OP_BLIT_BEGIN, FB_OP_BLIT_CHUNK, FB_OP_BLIT_END,
    FB_OP_PATCH, FB_PATCH_COMMAND_HEADER_BYTES,
};
use crate::server::damage::{DamageModel, PresentationDamage};

verus! {

/// How many bytes of the picture one command of a whole picture carries.
pub const CHUNK_BYTES: usize = 24576;

/// How many rectangles of changes are sent apart.
pub const MAX_PRESENT_BANDS: usize = 8;

/// How many bytes of pixels fit in one patch.
pub const MAX_PATCH_RGBA_BYTES: usize = FB_MAX_COMMAND_BYTES - FB_PATCH_COMMAND_HEADER_BYTES;

/// A step of bringing the screen up to date.
pub enum PresentStep {
    /// Send a command to the frame buffer device.
    Write(Vec<u8>),
    /// Note that a rectangle has been sent.
    Advance(DamageRect),
    /// Note that the whole picture has been sent.
    Replace,
}

#[verifier::ext_equal]
pub enum StepModel {
    Write(Seq<u8>),
    Advance(DamageRect),
    Replace,
}

impl View for PresentStep {
    type V = StepModel;

    open spec fn view(&self) -> StepModel {
        match *self {
            PresentStep::Write(command) => StepModel::Write(command@),
            PresentStep::Advance(rect) => StepModel::Advance(rect),
            PresentStep::Replace => StepModel::Replace,
        }
    }
}

/// Steps in order. A plan that is not complete fails after its last step.
pub struct PresentPlan {
    pub steps: Vec<PresentStep>,
    pub complete: bool,
}

#[verifier::ext_equal]
pub struct PlanModel {
    pub steps: Seq<StepModel>,
    pub complete: bool,
}

pub open spec fn step_models(steps: Seq<PresentStep>) -> Seq<StepModel> {
    steps.map_values(|step: PresentStep| step@)
}

impl View for PresentPlan {
    type V = PlanModel;

    open spec fn view(&self) -> PlanModel {
        PlanModel { steps: step_models(self.steps@), complete: self.complete }
    }
}

// The commands.

/// The bytes of the first `rows` rows of a rectangle.
pub open spec fn rows_bytes(pixels: Seq<u8>, picture_width: u32, rect: DamageRect, rows: int) -> Seq<u8>
    decreases rows,
{
    if rows <= 0 {
        Seq::empty()
    } else {
        let start = shadow::row_start(picture_width, rect, rows - 1);
        rows_bytes(pixels, picture_width, rect, rows - 1) + pixels.subrange(
            start,
            start + 4 * rect.width,
        )
    }
}

/// A patch of a rectangle with its pixels as they are.
pub open spec fn patch_command(pixels: Seq<u8>, picture_width: u32, rect: DamageRect) -> Seq<u8> {
    seq![FB_OP_PATCH] + rect.wire() + rows_bytes(pixels, picture_width, rect, rect.height as int)
}

/// How many rows of a rectangle, from row `row` on, go into one patch: as many
/// as fit.
pub open spec fn strip_rows(rect: DamageRect, row: int) -> int {
    let fits = MAX_PATCH_RGBA_BYTES as int / (4 * rect.width);
    if fits < rect.height - row {
        fits
    } else {
        rect.height - row
    }
}

/// The strip of a rectangle that begins with row `row`.
pub open spec fn strip(rect: DamageRect, row: int) -> DamageRect {
    DamageRect { y: (rect.y + row) as u32, height: strip_rows(rect, row) as u32, ..rect }
}

/// The patches of a rectangle from row `row` on, strip by strip.
pub open spec fn strips(pixels: Seq<u8>, picture_width: u32, rect: DamageRect, row: int) -> Seq<
    StepModel,
>
    decreases rect.height - row,
{
    let rows = strip_rows(rect, row);
    if rows <= 0 {
        Seq::empty()
    } else {
        seq![
            StepModel::Write(patch_command(pixels, picture_width, strip(rect, row))),
        ] + strips(pixels, picture_width, rect, row + rows)
    }
}

pub open spec fn chunk_end(size: nat, offset: int) -> int {
    if offset + CHUNK_BYTES < size {
        offset + CHUNK_BYTES
    } else {
        size as int
    }
}

/// The bytes of a picture from `offset` on, chunk by chunk.
pub open spec fn chunks(pixels: Seq<u8>, offset: int) -> Seq<StepModel>
    decreases pixels.len() - offset,
{
    if offset >= pixels.len() {
        Seq::empty()
    } else {
        let end = chunk_end(pixels.len(), offset);
        seq![
            StepModel::Write(
                seq![FB_OP_BLIT_CHUNK] + bytes::le32(offset as u32) + pixels.subrange(offset, end),
            ),
        ] + chunks(pixels, end)
    }
}

/// The steps that send a whole picture.
pub open spec fn whole_steps(pixels: Seq<u8>, width: u32, height: u32) -> Seq<StepModel> {
    seq![
        StepModel::Write(seq![FB_OP_BLIT_BEGIN] + bytes::le32(width) + bytes::le32(height)),
    ] + chunks(pixels, 0) + seq![StepModel::Write(seq![FB_OP_BLIT_END]), StepModel::Replace]
}

// The plan.

/// Whether a rectangle is half of the picture or more.
pub open spec fn is_large(rect: DamageRect, width: u32, height: u32) -> bool {
    2 * (rect.width * rect.height) >= width * height
}

/// Whether the rows of a rectangle fit in a patch.
pub open spec fn rows_fit(rect: DamageRect) -> bool {
    0 < 4 * rect.width <= MAX_PATCH_RGBA_BYTES
}

/// Whether a rectangle is sent as runs.
pub open spec fn goes_as_runs(pixels: Seq<u8>, width: u32, height: u32, rect: DamageRect) -> bool {
    rect.lies_on(width as int, height as int) && present::is_picture(pixels, width, height)
        && runs::rle_is_worth(pixels, width, rect, FB_MAX_COMMAND_BYTES)
}

/// The steps that send the first `n` of the listed rectangles, one by one,
/// while the screen shows a picture of the same size.
pub open spec fn rects_plan(
    pixels: Seq<u8>,
    width: u32,
    height: u32,
    rects: Seq<DamageRect>,
    n: int,
) -> PlanModel
    decreases n,
{
    if n <= 0 {
        PlanModel { steps: Seq::empty(), complete: true }
    } else {
        let before = rects_plan(pixels, width, height, rects, n - 1);
        let rect = rects[n - 1];
        if !before.complete {
            before
        } else if goes_as_runs(pixels, width, height, rect) {
            PlanModel {
                steps: before.steps + seq![
                    StepModel::Write(runs::rle_command(pixels, width, rect)),
                    StepModel::Advance(rect),
                ],
                complete: true,
            }
        } else if rects.len() == 1 && is_large(rect, width, height) {
            PlanModel { steps: before.steps + whole_steps(pixels, width, height), complete: true }
        } else if !rows_fit(rect) {
            PlanModel { steps: before.steps, complete: false }
        } else {
            PlanModel {
                steps: before.steps + strips(pixels, width, rect, 0) + seq![
                    StepModel::Advance(rect),
                ],
                complete: true,
            }
        }
    }
}

pub open spec fn advances(rects: Seq<DamageRect>) -> Seq<StepModel> {
    rects.map_values(|rect: DamageRect| StepModel::Advance(rect))
}

/// The rectangles to send.
pub open spec fn changes(
    presented: Seq<u8>,
    pixels: Seq<u8>,
    width: u32,
    height: u32,
    damage: DamageModel,
) -> Seq<DamageRect> {
    match damage {
        DamageModel::Full => bands::bands(presented, pixels, width, height, MAX_PRESENT_BANDS),
        DamageModel::Bounded(candidates) => bands::bands_within(
            presented,
            pixels,
            width,
            height,
            candidates,
            MAX_PRESENT_BANDS,
        ),
    }
}

/// The plan that sends rectangles: all in one batch if they can be, each alone
/// otherwise. While the screen shows a picture of another size, or nothing, the
/// whole picture is sent.
pub open spec fn plan_of(
    presented: nat,
    pixels: Seq<u8>,
    width: u32,
    height: u32,
    rects: Seq<DamageRect>,
) -> PlanModel {
    if rects.len() == 0 {
        PlanModel { steps: Seq::empty(), complete: true }
    } else if presented != pixels.len() {
        PlanModel { steps: whole_steps(pixels, width, height), complete: true }
    } else if palette::can_batch(pixels, width, height, rects, FB_MAX_COMMAND_BYTES) {
        PlanModel {
            steps: seq![StepModel::Write(palette::batch_command(pixels, width, rects))]
                + advances(rects),
            complete: true,
        }
    } else {
        rects_plan(pixels, width, height, rects, rects.len() as int)
    }
}

pub open spec fn plan(
    presented: Seq<u8>,
    pixels: Seq<u8>,
    width: u32,
    height: u32,
    damage: DamageModel,
) -> PlanModel {
    plan_of(
        presented.len(),
        pixels,
        width,
        height,
        changes(presented, pixels, width, height, damage),
    )
}

// What the screen shows once the steps are done.

pub open spec fn shown_after_step(
    presented: Seq<u8>,
    pixels: Seq<u8>,
    width: u32,
    step: StepModel,
) -> Seq<u8> {
    match step {
        StepModel::Write(_) => presented,
        StepModel::Advance(rect) => if shadow::can_advance(presented, pixels, width, rect) {
            shadow::with_rows_shown(presented, pixels, width, rect, rect.height as int)
        } else {
            presented
        },
        StepModel::Replace => pixels,
    }
}

pub open spec fn shown_after(
    presented: Seq<u8>,
    pixels: Seq<u8>,
    width: u32,
    steps: Seq<StepModel>,
) -> Seq<u8>
    decreases steps.len(),
{
    if steps.len() == 0 {
        presented
    } else {
        shown_after_step(
            shown_after(presented, pixels, width, steps.drop_last()),
            pixels,
            width,
            steps.last(),
        )
    }
}

pub(crate) proof fn lemma_shown_after_concat(
    presented: Seq<u8>,
    pixels: Seq<u8>,
    width: u32,
    first: Seq<StepModel>,
    second: Seq<StepModel>,
)
    ensures
        shown_after(presented, pixels, width, first + second) == shown_after(
            shown_after(presented, pixels, width, first),
            pixels,
            width,
            second,
        ),
    decreases second.len(),
{
    let both = first + second;
    if second.len() == 0 {
        assert(both =~= first);
    } else {
        assert(both.drop_last() =~= first + second.drop_last());
        assert(both.last() == second.last());
        lemma_shown_after_concat(presented, pixels, width, first, second.drop_last());
    }
}

pub open spec fn all_write(steps: Seq<StepModel>) -> bool {
    forall|i: int| 0 <= i < steps.len() ==> #[trigger] steps[i] is Write
}

/// Sending a command by itself notes nothing.
pub(crate) proof fn lemma_shown_after_writes(
    presented: Seq<u8>,
    pixels: Seq<u8>,
    width: u32,
    steps: Seq<StepModel>,
)
    requires
        all_write(steps),
    ensures
        shown_after(presented, pixels, width, steps) == presented,
    decreases steps.len(),
{
    if steps.len() > 0 {
        assert(steps[steps.len() - 1] is Write);
        assert forall|i: int| 0 <= i < steps.drop_last().len() implies #[trigger] steps.drop_last()[i]
            is Write by {
            assert(steps[i] is Write);
        }
        lemma_shown_after_writes(presented, pixels, width, steps.drop_last());
    }
}

pub(crate) proof fn lemma_strips_write(pixels: Seq<u8>, picture_width: u32, rect: DamageRect, row: int)
    ensures
        all_write(strips(pixels, picture_width, rect, row)),
    decreases rect.height - row,
{
    let rows = strip_rows(rect, row);
    if rows > 0 {
        lemma_strips_write(pixels, picture_width, rect, row + rows);
        let rest = strips(pixels, picture_width, rect, row + rows);
        let all = strips(pixels, picture_width, rect, row);
        assert forall|i: int| 0 <= i < all.len() implies #[trigger] all[i] is Write by {
            if i > 0 {
                assert(all[i] == rest[i - 1]);
            }
        }
    }
}

/// Sending a whole picture shows it.
pub(crate) proof fn lemma_whole_steps(presented: Seq<u8>, pixels: Seq<u8>, width: u32, height: u32)
    ensures
        shown_after(presented, pixels, width, whole_steps(pixels, width, height)) == pixels,
{
    let steps = whole_steps(pixels, width, height);
    assert(steps.last() is Replace);
}

/// What has been shown after the first `n` rectangles: the picture inside
/// them, and what was shown before outside.
pub open spec fn is_shown(
    before: Seq<u8>,
    after: Seq<u8>,
    pixels: Seq<u8>,
    width: u32,
    height: u32,
    rects: Seq<DamageRect>,
    n: int,
) -> bool {
    &&& after.len() == pixels.len()
    &&& forall|x: int, y: int, b: int|
        0 <= x < width && 0 <= y < height && 0 <= b < 4 ==> #[trigger] shows_byte(
            before,
            after,
            pixels,
            width,
            rects.take(n),
            x,
            y,
            b,
        )
}

pub open spec fn shows_byte(
    before: Seq<u8>,
    after: Seq<u8>,
    pixels: Seq<u8>,
    width: u32,
    rects: Seq<DamageRect>,
    x: int,
    y: int,
    b: int,
) -> bool {
    let i = 4 * (y * width + x) + b;
    after[i] == pixels[i] || (!bands::some_has(rects, x, y) && after[i] == before[i])
}

proof fn lemma_advance_shows(
    before: Seq<u8>,
    now: Seq<u8>,
    pixels: Seq<u8>,
    width: u32,
    height: u32,
    rects: Seq<DamageRect>,
    n: int,
)
    requires
        0 < n <= rects.len(),
        present::is_picture(pixels, width, height),
        pixels.len() <= usize::MAX,
        bands::all_on(rects, width, height),
        is_shown(before, now, pixels, width, height, rects, n - 1),
    ensures
        is_shown(
            before,
            shown_after_step(now, pixels, width, StepModel::Advance(rects[n - 1])),
            pixels,
            width,
            height,
            rects,
            n,
        ),
{
    let rect = rects[n - 1];
    let after = shown_after_step(now, pixels, width, StepModel::Advance(rect));
    assert(rect.lies_on(width as int, height as int));
    present::lemma_place(width, height, width as int, 0);
    assert(width <= width * height);
    assert(shadow::can_advance(now, pixels, width, rect));
    assert forall|x: int, y: int, b: int|
        0 <= x < width && 0 <= y < height && 0 <= b < 4 implies #[trigger] shows_byte(
        before,
        after,
        pixels,
        width,
        rects.take(n),
        x,
        y,
        b,
    ) by {
        shadow::law_advance_is_exact(now, pixels, width, height, rect, x, y, b);
        assert(shows_byte(before, now, pixels, width, rects.take(n - 1), x, y, b));
        if bands::some_has(rects.take(n), x, y) && !rect.has(x, y) {
            let k = choose|k: int| 0 <= k < n && (#[trigger] rects.take(n)[k]).has(x, y);
            assert(rects.take(n - 1)[k] == rects[k]);
        }
    }
}

proof fn lemma_rects_plan_shows(
    before: Seq<u8>,
    pixels: Seq<u8>,
    width: u32,
    height: u32,
    rects: Seq<DamageRect>,
    n: int,
)
    requires
        0 <= n <= rects.len(),
        present::is_picture(pixels, width, height),
        pixels.len() <= usize::MAX,
        before.len() == pixels.len(),
        bands::all_on(rects, width, height),
        rects_plan(pixels, width, height, rects, n).complete,
    ensures
        is_shown(
            before,
            shown_after(
                before,
                pixels,
                width,
                rects_plan(pixels, width, height, rects, n).steps,
            ),
            pixels,
            width,
            height,
            rects,
            n,
        ),
    decreases n,
{
    let plan = rects_plan(pixels, width, height, rects, n);
    if n > 0 {
        let front = rects_plan(pixels, width, height, rects, n - 1);
        let rect = rects[n - 1];
        lemma_rects_plan_shows(before, pixels, width, height, rects, n - 1);
        let now = shown_after(before, pixels, width, front.steps);
        if goes_as_runs(pixels, width, height, rect) {
            let write = StepModel::Write(runs::rle_command(pixels, width, rect));
            assert(plan.steps =~= front.steps.push(write).push(StepModel::Advance(rect)));
            assert(plan.steps.drop_last() =~= front.steps.push(write));
            assert(plan.steps.drop_last().drop_last() =~= front.steps);
            assert(shown_after(before, pixels, width, plan.steps.drop_last()) == now);
            lemma_advance_shows(before, now, pixels, width, height, rects, n);
        } else if rects.len() == 1 && is_large(rect, width, height) {
            lemma_shown_after_concat(
                before,
                pixels,
                width,
                front.steps,
                whole_steps(pixels, width, height),
            );
            lemma_whole_steps(now, pixels, width, height);
        } else {
            let patches = strips(pixels, width, rect, 0);
            assert(plan.steps.drop_last() =~= front.steps + patches);
            lemma_strips_write(pixels, width, rect, 0);
            lemma_shown_after_concat(before, pixels, width, front.steps, patches);
            lemma_shown_after_writes(now, pixels, width, patches);
            lemma_advance_shows(before, now, pixels, width, height, rects, n);
        }
    }
}

proof fn lemma_advances_show(
    before: Seq<u8>,
    pixels: Seq<u8>,
    width: u32,
    height: u32,
    rects: Seq<DamageRect>,
    n: int,
)
    requires
        0 <= n <= rects.len(),
        present::is_picture(pixels, width, height),
        pixels.len() <= usize::MAX,
        before.len() == pixels.len(),
        bands::all_on(rects, width, height),
    ensures
        is_shown(
            before,
            shown_after(before, pixels, width, advances(rects).take(n)),
            pixels,
            width,
            height,
            rects,
            n,
        ),
    decreases n,
{
    let steps = advances(rects).take(n);
    if n > 0 {
        lemma_advances_show(before, pixels, width, height, rects, n - 1);
        assert(steps.drop_last() =~= advances(rects).take(n - 1));
        assert(steps.last() == StepModel::Advance(rects[n - 1]));
        let now = shown_after(before, pixels, width, steps.drop_last());
        lemma_advance_shows(before, now, pixels, width, height, rects, n);
    }
}

/// A complete plan brings the screen up to date. Every byte that it shows then
/// is one of the picture, or one that was shown before and lies outside all
/// rectangles that were sent.
pub proof fn law_complete_plan_shows_rects(
    presented: Seq<u8>,
    pixels: Seq<u8>,
    width: u32,
    height: u32,
    rects: Seq<DamageRect>,
)
    requires
        present::is_picture(pixels, width, height),
        pixels.len() <= usize::MAX,
        bands::all_on(rects, width, height),
        presented.len() != pixels.len() ==> rects.len() > 0,
        plan_of(presented.len(), pixels, width, height, rects).complete,
    ensures
        is_shown(
            presented,
            shown_after(
                presented,
                pixels,
                width,
                plan_of(presented.len(), pixels, width, height, rects).steps,
            ),
            pixels,
            width,
            height,
            rects,
            rects.len() as int,
        ),
{
    let plan = plan_of(presented.len(), pixels, width, height, rects);
    if rects.len() == 0 {
    } else if presented.len() != pixels.len() {
        lemma_whole_steps(presented, pixels, width, height);
    } else if palette::can_batch(pixels, width, height, rects, FB_MAX_COMMAND_BYTES) {
        let write = seq![StepModel::Write(palette::batch_command(pixels, width, rects))];
        lemma_shown_after_writes(presented, pixels, width, write);
        lemma_shown_after_concat(presented, pixels, width, write, advances(rects));
        lemma_advances_show(presented, pixels, width, height, rects, rects.len() as int);
        assert(advances(rects).take(rects.len() as int) =~= advances(rects));
    } else {
        lemma_rects_plan_shows(presented, pixels, width, height, rects, rects.len() as int);
    }
}

/// Once a complete plan for unbounded damage is done, the screen shows the
/// picture.
pub proof fn law_complete_plan_shows_picture(
    presented: Seq<u8>,
    pixels: Seq<u8>,
    width: u32,
    height: u32,
    x: int,
    y: int,
    b: int,
)
    requires
        present::is_picture(pixels, width, height),
        pixels.len() <= usize::MAX,
        0 <= x < width,
        0 <= y < height,
        0 <= b < 4,
        plan(presented, pixels, width, height, DamageModel::Full).complete,
    ensures
        ({
            let shown = shown_after(
                presented,
                pixels,
                width,
                plan(presented, pixels, width, height, DamageModel::Full).steps,
            );
            let i = 4 * (y * width + x) + b;
            shown.len() == pixels.len() && shown[i] == pixels[i]
        }),
{
    let rects = changes(presented, pixels, width, height, DamageModel::Full);
    bands::law_bands_cover_changes(presented, pixels, width, height, MAX_PRESENT_BANDS, x, y);
    law_complete_plan_shows_rects(presented, pixels, width, height, rects);
    let shown = shown_after(
        presented,
        pixels,
        width,
        plan(presented, pixels, width, height, DamageModel::Full).steps,
    );
    assert(rects.take(rects.len() as int) =~= rects);
    assert(shows_byte(presented, shown, pixels, width, rects, x, y, b));
    present::lemma_place(width, height, x, y);
    if !bands::some_has(rects, x, y) {
        assert(!bands::differs(presented, pixels, y * width + x));
        lemma_same_pixel(presented, pixels, y * width + x, b);
    }
}

/// Equal pixels have equal bytes.
proof fn lemma_same_pixel(a: Seq<u8>, c: Seq<u8>, place: int, b: int)
    requires
        0 <= place,
        4 * place + 4 <= a.len(),
        4 * place + 4 <= c.len(),
        0 <= b < 4,
        present::pixel(a, place) == present::pixel(c, place),
    ensures
        a[4 * place + b] == c[4 * place + b],
{
    bytes::lemma_le32_at_bytes(a, 4 * place, b);
    bytes::lemma_le32_at_bytes(c, 4 * place, b);
}

// Making the plan.

proof fn lemma_push(steps: Seq<PresentStep>, step: PresentStep)
    ensures
        step_models(steps.push(step)) == step_models(steps).push(step@),
{
    assert(step_models(steps.push(step)) =~= step_models(steps).push(step@));
}

/// Adds a step to a plan.
fn add_step(steps: &mut Vec<PresentStep>, step: PresentStep)
    ensures
        step_models(final(steps)@) == step_models(old(steps)@).push(step@),
{
    proof {
        lemma_push(steps@, step);
    }
    steps.push(step);
}

/// The patch of a rectangle with its pixels as they are.
fn encode_patch(pixels: &[u8], width: u32, height: u32, rect: DamageRect) -> (command: Vec<u8>)
    requires
        present::is_picture(pixels@, width, height),
        rect.lies_on(width as int, height as int),
    ensures
        command@ == patch_command(pixels@, width, rect),
{
    let mut command: Vec<u8> = Vec::new();
    command.push(FB_OP_PATCH);
    rect.push_onto(&mut command);
    let ghost head = seq![FB_OP_PATCH] + rect.wire();
    let mut row: u32 = 0;
    assert(pixels.len() <= usize::MAX);
    proof {
        assert(command@ =~= head + rows_bytes(pixels@, width, rect, 0));
    }
    while row < rect.height
        invariant
            row <= rect.height,
            pixels@.len() <= usize::MAX,
            present::is_picture(pixels@, width, height),
            rect.lies_on(width as int, height as int),
            command@ == head + rows_bytes(pixels@, width, rect, row as int),
        decreases rect.height - row,
    {
        proof {
            present::lemma_place(width, height, rect.right(), rect.y + row);
        }
        let start: usize = 4 * ((rect.y + row) as usize * width as usize + rect.x as usize);
        let end: usize = start + 4 * rect.width as usize;
        push_bytes(&mut command, slice_subrange(pixels, start, end));
        proof {
            assert(command@ =~= head + rows_bytes(pixels@, width, rect, row + 1));
        }
        row += 1;
    }
    command
}

/// Adds the patches of a rectangle, strip by strip.
fn add_strips(
    steps: &mut Vec<PresentStep>,
    pixels: &[u8],
    width: u32,
    height: u32,
    rect: DamageRect,
)
    requires
        present::is_picture(pixels@, width, height),
        rect.lies_on(width as int, height as int),
        rows_fit(rect),
    ensures
        step_models(final(steps)@) == step_models(old(steps)@) + strips(pixels@, width, rect, 0),
{
    let fits: u32 = MAX_PATCH_RGBA_BYTES as u32 / (4 * rect.width);
    let mut row: u32 = 0;
    proof {
        assert(fits >= 1) by (nonlinear_arith)
            requires
                fits == MAX_PATCH_RGBA_BYTES as int / (4 * rect.width),
                0 < 4 * rect.width <= MAX_PATCH_RGBA_BYTES,
        ;
    }
    let ghost wanted = step_models(steps@) + strips(pixels@, width, rect, 0);
    while row < rect.height
        invariant
            row <= rect.height,
            present::is_picture(pixels@, width, height),
            rect.lies_on(width as int, height as int),
            fits == MAX_PATCH_RGBA_BYTES as int / (4 * rect.width),
            fits >= 1,
            wanted == step_models(steps@) + strips(pixels@, width, rect, row as int),
        decreases rect.height - row,
    {
        let left: u32 = rect.height - row;
        let rows: u32 = if fits < left {
            fits
        } else {
            left
        };
        let part = DamageRect { x: rect.x, y: rect.y + row, width: rect.width, height: rows };
        let ghost before = step_models(steps@);
        add_step(steps, PresentStep::Write(encode_patch(pixels, width, height, part)));
        proof {
            assert(rows == strip_rows(rect, row as int));
            assert(part == strip(rect, row as int));
            assert(step_models(steps@) + strips(pixels@, width, rect, row + rows) =~= before
                + strips(pixels@, width, rect, row as int));
        }
        row += rows;
    }
    proof {
        assert(strips(pixels@, width, rect, row as int) =~= Seq::<StepModel>::empty());
        assert(wanted =~= step_models(steps@));
    }
}

/// Adds the steps that send a whole picture.
fn add_whole(steps: &mut Vec<PresentStep>, pixels: &[u8], width: u32, height: u32)
    ensures
        step_models(final(steps)@) == step_models(old(steps)@) + whole_steps(
            pixels@,
            width,
            height,
        ),
{
    let ghost before = step_models(steps@);
    let mut begin: Vec<u8> = Vec::new();
    begin.push(FB_OP_BLIT_BEGIN);
    push_u32(&mut begin, width);
    push_u32(&mut begin, height);
    let ghost first = StepModel::Write(
        seq![FB_OP_BLIT_BEGIN] + bytes::le32(width) + bytes::le32(height),
    );
    proof {
        assert(begin@ =~= seq![FB_OP_BLIT_BEGIN] + bytes::le32(width) + bytes::le32(height));
    }
    add_step(steps, PresentStep::Write(begin));
    let ghost wanted = before.push(first) + chunks(pixels@, 0);
    let mut offset: usize = 0;
    while offset < pixels.len()
        invariant
            offset <= pixels@.len(),
            wanted == step_models(steps@) + chunks(pixels@, offset as int),
        decreases pixels@.len() - offset,
    {
        let end: usize = if pixels.len() - offset > CHUNK_BYTES {
            offset + CHUNK_BYTES
        } else {
            pixels.len()
        };
        let ghost so_far = step_models(steps@);
        let mut chunk: Vec<u8> = Vec::new();
        chunk.push(FB_OP_BLIT_CHUNK);
        push_u32(&mut chunk, offset as u32);
        push_bytes(&mut chunk, slice_subrange(pixels, offset, end));
        proof {
            assert(chunk@ =~= seq![FB_OP_BLIT_CHUNK] + bytes::le32(offset as u32)
                + pixels@.subrange(offset as int, end as int));
        }
        add_step(steps, PresentStep::Write(chunk));
        proof {
            assert(step_models(steps@) + chunks(pixels@, end as int) =~= so_far + chunks(
                pixels@,
                offset as int,
            ));
        }
        offset = end;
    }
    let mut done: Vec<u8> = Vec::new();
    done.push(FB_OP_BLIT_END);
    proof {
        assert(done@ =~= seq![FB_OP_BLIT_END]);
        assert(step_models(steps@) =~= wanted);
    }
    add_step(steps, PresentStep::Write(done));
    add_step(steps, PresentStep::Replace);
    proof {
        assert(step_models(steps@) =~= before + whole_steps(pixels@, width, height));
    }
}

/// Whether a rectangle is half of the picture or more.
fn covers_half(rect: DamageRect, width: u32, height: u32) -> (r: bool)
    ensures
        r == is_large(rect, width, height),
{
    proof {
        assert(0 <= rect.width * rect.height <= 0xffff_ffff * 0xffff_ffff) by (nonlinear_arith)
            requires
                0 <= rect.width <= 0xffff_ffff,
                0 <= rect.height <= 0xffff_ffff,
        ;
        assert(0 <= width * height <= 0xffff_ffff * 0xffff_ffff) by (nonlinear_arith)
            requires
                0 <= width <= 0xffff_ffff,
                0 <= height <= 0xffff_ffff,
        ;
    }
    2 * (rect.width as u128 * rect.height as u128) >= width as u128 * height as u128
}

/// Adds the steps that send one rectangle. Says whether it can be sent.
fn add_rect(
    steps: &mut Vec<PresentStep>,
    pixels: &[u8],
    width: u32,
    height: u32,
    rects: &Vec<DamageRect>,
    n: usize,
) -> (complete: bool)
    requires
        n < rects@.len(),
        present::is_picture(pixels@, width, height),
        bands::all_on(rects@, width, height),
        rects_plan(pixels@, width, height, rects@, n as int) == (PlanModel {
            steps: step_models(old(steps)@),
            complete: true,
        }),
    ensures
        rects_plan(pixels@, width, height, rects@, n + 1) == (PlanModel {
            steps: step_models(final(steps)@),
            complete,
        }),
{
    let rect = rects[n];
    let ghost before = step_models(steps@);
    proof {
        assert(rects@[n as int].lies_on(width as int, height as int));
    }
    match encode_rle_patch(pixels, width, height, rect, FB_MAX_COMMAND_BYTES) {
        Some(command) => {
            add_step(steps, PresentStep::Write(command));
            add_step(steps, PresentStep::Advance(rect));
            proof {
                assert(step_models(steps@) =~= before + seq![
                    StepModel::Write(runs::rle_command(pixels@, width, rect)),
                    StepModel::Advance(rect),
                ]);
            }
            return true;
        },
        None => {},
    }
    if rects.len() == 1 && covers_half(rect, width, height) {
        add_whole(steps, pixels, width, height);
        return true;
    }
    if rect.width as u64 * 4 > MAX_PATCH_RGBA_BYTES as u64 {
        return false;
    }
    add_strips(steps, pixels, width, height, rect);
    add_step(steps, PresentStep::Advance(rect));
    proof {
        assert(step_models(steps@) =~= before + strips(pixels@, width, rect, 0) + seq![
            StepModel::Advance(rect),
        ]);
    }
    true
}

/// A plan that is not complete stays as it is.
proof fn lemma_incomplete_stays(
    pixels: Seq<u8>,
    width: u32,
    height: u32,
    rects: Seq<DamageRect>,
    n: int,
    all: int,
)
    requires
        n <= all,
        !rects_plan(pixels, width, height, rects, n).complete,
    ensures
        rects_plan(pixels, width, height, rects, all) == rects_plan(
            pixels,
            width,
            height,
            rects,
            n,
        ),
    decreases all - n,
{
    if n < all {
        lemma_incomplete_stays(pixels, width, height, rects, n, all - 1);
    }
}

/// The bands lie on the picture.
proof fn lemma_changes_lie_on(
    presented: Seq<u8>,
    pixels: Seq<u8>,
    width: u32,
    height: u32,
    damage: DamageModel,
)
    requires
        present::is_picture(pixels, width, height),
        pixels.len() <= usize::MAX,
    ensures
        bands::all_on(changes(presented, pixels, width, height, damage), width, height),
        presented.len() != pixels.len() && pixels.len() > 0 ==> changes(
            presented,
            pixels,
            width,
            height,
            damage,
        ).len() > 0,
{
    if width > 0 && height > 0 {
        match damage {
            DamageModel::Full => {
                bands::law_bands_cover_changes(
                    presented,
                    pixels,
                    width,
                    height,
                    MAX_PRESENT_BANDS,
                    0,
                    0,
                );
            },
            DamageModel::Bounded(candidates) => {
                bands::law_bounded_bands_cover_changes(
                    presented,
                    pixels,
                    width,
                    height,
                    candidates,
                    MAX_PRESENT_BANDS,
                    0,
                    0,
                );
            },
        }
    } else {
        assert(width * height == 0) by (nonlinear_arith)
            requires
                width == 0 || height == 0,
        ;
    }
}

/// The steps that bring the screen up to date with a picture, given what it
/// shows and what may have changed.
pub fn plan_presentation(
    presented: &[u8],
    pixels: &[u8],
    width: u32,
    height: u32,
    damage: &PresentationDamage,
) -> (r: PresentPlan)
    requires
        present::is_picture(pixels@, width, height),
    ensures
        r@ == plan(presented@, pixels@, width, height, damage@),
{
    let rects = match damage {
        PresentationDamage::Full => changed_bands(
            presented,
            pixels,
            width,
            height,
            MAX_PRESENT_BANDS,
        ),
        PresentationDamage::Bounded(candidates) => changed_bands_bounded(
            presented,
            pixels,
            width,
            height,
            candidates.as_slice(),
            MAX_PRESENT_BANDS,
        ),
    };
    assert(pixels.len() <= usize::MAX);
    proof {
        assert(rects@ == changes(presented@, pixels@, width, height, damage@));
        lemma_changes_lie_on(presented@, pixels@, width, height, damage@);
    }
    let mut steps: Vec<PresentStep> = Vec::new();
    proof {
        assert(step_models(steps@) =~= Seq::<StepModel>::empty());
    }
    if rects.len() == 0 {
        return PresentPlan { steps, complete: true };
    }
    if presented.len() != pixels.len() {
        add_whole(&mut steps, pixels, width, height);
        proof {
            assert(step_models(steps@) =~= whole_steps(pixels@, width, height));
        }
        return PresentPlan { steps, complete: true };
    }
    match encode_palette_rle_patch_batch(
        pixels,
        width,
        height,
        rects.as_slice(),
        FB_MAX_COMMAND_BYTES,
    ) {
        Some(command) => {
            add_step(&mut steps, PresentStep::Write(command));
            let ghost first = step_models(steps@);
            let mut i: usize = 0;
            while i < rects.len()
                invariant
                    i <= rects@.len(),
                    step_models(steps@) == first + advances(rects@).take(i as int),
                decreases rects@.len() - i,
            {
                add_step(&mut steps, PresentStep::Advance(rects[i]));
                proof {
                    assert(step_models(steps@) =~= first + advances(rects@).take(i + 1));
                }
                i += 1;
            }
            proof {
                assert(advances(rects@).take(i as int) =~= advances(rects@));
                assert(first =~= seq![
                    StepModel::Write(palette::batch_command(pixels@, width, rects@)),
                ]);
            }
            return PresentPlan { steps, complete: true };
        },
        None => {},
    }
    let mut n: usize = 0;
    while n < rects.len()
        invariant
            n <= rects@.len(),
            present::is_picture(pixels@, width, height),
            bands::all_on(rects@, width, height),
            rects@ == changes(presented@, pixels@, width, height, damage@),
            rects@.len() > 0,
            presented@.len() == pixels@.len(),
            !palette::can_batch(pixels@, width, height, rects@, FB_MAX_COMMAND_BYTES),
            rects_plan(pixels@, width, height, rects@, n as int) == (PlanModel {
                steps: step_models(steps@),
                complete: true,
            }),
        decreases rects@.len() - n,
    {
        if !add_rect(&mut steps, pixels, width, height, &rects, n) {
            proof {
                lemma_incomplete_stays(
                    pixels@,
                    width,
                    height,
                    rects@,
                    n + 1,
                    rects@.len() as int,
                );
            }
            return PresentPlan { steps, complete: false };
        }
        n += 1;
    }
    PresentPlan { steps, complete: true }
}

/// Notes that a step has been done. Says whether all of it lies on the picture.
pub fn note_step(
    presented: &mut Vec<u8>,
    pixels: &[u8],
    width: u32,
    step: &PresentStep,
) -> (r: bool)
    ensures
        final(presented)@ == shown_after_step(old(presented)@, pixels@, width, step@),
        r == (step@ matches StepModel::Advance(rect) ==> shadow::can_advance(
            old(presented)@,
            pixels@,
            width,
            rect,
        ) && shadow::rows_lie_on(pixels@.len(), width, rect)),
{
    match step {
        PresentStep::Write(_) => true,
        PresentStep::Advance(rect) => advance_presented_damage(
            presented.as_mut_slice(),
            pixels,
            width,
            *rect,
        ),
        PresentStep::Replace => {
            presented.clear();
            push_bytes(presented, pixels);
            proof {
                assert(presented@ =~= pixels@);
            }
            true
        },
    }
}

} // verus!
