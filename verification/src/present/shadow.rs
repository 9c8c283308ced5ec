//! What of the picture the screen shows already.

use vstd::prelude::*;

use crate::present;
use crate::present::DamageRect;

verus! {

/// Where row `row` of a rectangle begins in a picture, in bytes.
pub open spec fn row_start(picture_width: u32, rect: DamageRect, row: int) -> int {
    4 * ((rect.y + row) * picture_width + rect.x)
}

/// Whether a byte of a picture lies in one of the first `rows` rows of a
/// rectangle, of those that lie on the picture.
pub open spec fn in_rows(size: nat, picture_width: u32, rect: DamageRect, rows: int, i: int) -> bool {
    exists|row: int|
        0 <= row < rows && #[trigger] row_start(picture_width, rect, row) <= i < row_start(
            picture_width,
            rect,
            row,
        ) + 4 * rect.width <= size
}

/// What has been shown, once the first `rows` rows of a rectangle have been
/// sent too.
pub open spec fn with_rows_shown(
    presented: Seq<u8>,
    pixels: Seq<u8>,
    picture_width: u32,
    rect: DamageRect,
    rows: int,
) -> Seq<u8> {
    Seq::new(
        presented.len(),
        |i: int|
            if in_rows(pixels.len(), picture_width, rect, rows, i) {
                pixels[i]
            } else {
                presented[i]
            },
    )
}

/// Whether the rows of a rectangle can be counted and both pictures have one
/// size.
pub open spec fn can_advance(
    presented: Seq<u8>,
    pixels: Seq<u8>,
    picture_width: u32,
    rect: DamageRect,
) -> bool {
    &&& presented.len() == pixels.len()
    &&& rect.bottom() <= u32::MAX
    &&& 4 * rect.width <= usize::MAX
    &&& 4 * picture_width <= usize::MAX
    &&& 4 * rect.x <= usize::MAX
}

/// Whether every row of a rectangle lies on a picture.
pub open spec fn rows_lie_on(size: nat, picture_width: u32, rect: DamageRect) -> bool {
    rect.height > 0 ==> row_start(picture_width, rect, rect.height - 1) + 4 * rect.width <= size
}

/// A row above another begins no later.
proof fn lemma_rows_ascend(picture_width: u32, rect: DamageRect, above: int, below: int)
    requires
        above <= below,
    ensures
        row_start(picture_width, rect, above) <= row_start(picture_width, rect, below),
{
    assert((rect.y + above) * picture_width <= (rect.y + below) * picture_width)
        by (nonlinear_arith)
        requires
            above <= below,
            picture_width >= 0,
    ;
}

/// A byte of a pixel lies in a rectangle on the picture if the pixel does.
proof fn lemma_in_rows_is_in_rect(width: u32, height: u32, rect: DamageRect, x: int, y: int, b: int)
    requires
        rect.lies_on(width as int, height as int),
        0 <= x < width,
        0 <= y < height,
        0 <= b < 4,
    ensures
        in_rows(
            (4 * (width * height)) as nat,
            width,
            rect,
            rect.height as int,
            4 * (y * width + x) + b,
        ) == rect.has(x, y),
{
    let i = 4 * (y * width + x) + b;
    let size = (4 * (width * height)) as nat;
    present::lemma_place(width, height, x, y);
    if rect.has(x, y) {
        let row = y - rect.y;
        present::lemma_place(width, height, rect.right(), y);
        assert(row_start(width, rect, row) <= i);
        assert(i < row_start(width, rect, row) + 4 * rect.width <= size);
    }
    if in_rows(size, width, rect, rect.height as int, i) {
        let row = choose|row: int|
            0 <= row < rect.height && #[trigger] row_start(width, rect, row) <= i < row_start(
                width,
                rect,
                row,
            ) + 4 * rect.width <= size;
        let line = rect.y + row;
        assert(line * width + rect.x <= y * width + x < line * width + rect.right());
        assert(line == y) by (nonlinear_arith)
            requires
                line * width + rect.x <= y * width + x < line * width + rect.right(),
                0 <= x < width,
                0 <= rect.x,
                rect.right() <= width,
        ;
    }
}

/// Once a rectangle on the picture has been sent, what has been shown is the
/// picture inside it, and unchanged outside.
pub proof fn law_advance_is_exact(
    presented: Seq<u8>,
    pixels: Seq<u8>,
    width: u32,
    height: u32,
    rect: DamageRect,
    x: int,
    y: int,
    b: int,
)
    requires
        present::is_picture(pixels, width, height),
        presented.len() == pixels.len(),
        rect.lies_on(width as int, height as int),
        0 <= x < width,
        0 <= y < height,
        0 <= b < 4,
    ensures
        ({
            let i = 4 * (y * width + x) + b;
            with_rows_shown(presented, pixels, width, rect, rect.height as int)[i] == if rect.has(
                x,
                y,
            ) {
                pixels[i]
            } else {
                presented[i]
            }
        }),
{
    present::lemma_place(width, height, x, y);
    lemma_in_rows_is_in_rect(width, height, rect, x, y, b);
}

/// Notes that a rectangle has been sent. Says whether all of it lies on the
/// picture; the rows before the first that does not are noted all the same.
pub fn advance_presented_damage(
    presented: &mut [u8],
    pixels: &[u8],
    framebuffer_width: u32,
    damage: DamageRect,
) -> (r: bool)
    ensures
        final(presented)@ == if can_advance(
            old(presented)@,
            pixels@,
            framebuffer_width,
            damage,
        ) {
            with_rows_shown(
                old(presented)@,
                pixels@,
                framebuffer_width,
                damage,
                damage.height as int,
            )
        } else {
            old(presented)@
        },
        r == (can_advance(old(presented)@, pixels@, framebuffer_width, damage) && rows_lie_on(
            pixels@.len(),
            framebuffer_width,
            damage,
        )),
{
    if presented.len() != pixels.len() {
        return false;
    }
    if damage.height > u32::MAX - damage.y {
        return false;
    }
    if damage.width as u64 * 4 > usize::MAX as u64 || framebuffer_width as u64 * 4
        > usize::MAX as u64 || damage.x as u64 * 4 > usize::MAX as u64 {
        return false;
    }
    let ghost before = presented@;
    let size: usize = pixels.len();
    let mut row: u32 = 0;
    proof {
        assert(with_rows_shown(before, pixels@, framebuffer_width, damage, 0) =~= before);
    }
    while row < damage.height
        invariant
            row <= damage.height,
            before == old(presented)@,
            size == pixels@.len(),
            can_advance(before, pixels@, framebuffer_width, damage),
            presented@ == with_rows_shown(
                before,
                pixels@,
                framebuffer_width,
                damage,
                row as int,
            ),
            row > 0 ==> row_start(framebuffer_width, damage, row - 1) + 4 * damage.width <= size,
        decreases damage.height - row,
    {
        proof {
            assert(0 <= (damage.y + row) * framebuffer_width <= 0xffff_ffff * 0xffff_ffff)
                by (nonlinear_arith)
                requires
                    0 <= damage.y + row <= 0xffff_ffff,
                    0 <= framebuffer_width <= 0xffff_ffff,
            ;
        }
        let start: u128 = 4 * ((damage.y + row) as u128 * framebuffer_width as u128
            + damage.x as u128);
        let end: u128 = start + 4 * (damage.width as u128);
        if end > size as u128 {
            proof {
                let all = damage.height as int;
                assert forall|i: int|
                    in_rows(size as nat, framebuffer_width, damage, all, i) implies in_rows(
                    size as nat,
                    framebuffer_width,
                    damage,
                    row as int,
                    i,
                ) by {
                    let k = choose|k: int|
                        0 <= k < all && #[trigger] row_start(framebuffer_width, damage, k) <= i
                            < row_start(framebuffer_width, damage, k) + 4 * damage.width <= size;
                    if k >= row {
                        lemma_rows_ascend(framebuffer_width, damage, row as int, k);
                    }
                }
                assert forall|i: int|
                    in_rows(size as nat, framebuffer_width, damage, row as int, i) implies in_rows(
                    size as nat,
                    framebuffer_width,
                    damage,
                    all,
                    i,
                ) by {
                    let k = choose|k: int|
                        0 <= k < row && #[trigger] row_start(framebuffer_width, damage, k) <= i
                            < row_start(framebuffer_width, damage, k) + 4 * damage.width <= size;
                    assert(row_start(framebuffer_width, damage, k) <= i);
                }
                assert(presented@ =~= with_rows_shown(
                    before,
                    pixels@,
                    framebuffer_width,
                    damage,
                    all,
                ));
                lemma_rows_ascend(framebuffer_width, damage, row as int, all - 1);
            }
            return false;
        }
        let first: usize = start as usize;
        let last: usize = end as usize;
        let ghost above = presented@;
        let mut i: usize = first;
        while i < last
            invariant
                first <= i <= last,
                last <= size,
                size == pixels@.len(),
                above.len() == size,
                presented@.len() == size,
                forall|j: int|
                    0 <= j < size ==> #[trigger] presented@[j] == if first <= j < i {
                        pixels@[j]
                    } else {
                        above[j]
                    },
            decreases last - i,
        {
            presented[i] = pixels[i];
            i += 1;
        }
        proof {
            let next = row + 1;
            assert forall|j: int| 0 <= j < size implies #[trigger] presented@[j]
                == with_rows_shown(before, pixels@, framebuffer_width, damage, next)[j] by {
                if first <= j < last {
                    assert(row_start(framebuffer_width, damage, row as int) <= j);
                    assert(in_rows(size as nat, framebuffer_width, damage, next, j));
                } else {
                    if in_rows(size as nat, framebuffer_width, damage, next, j) {
                        let k = choose|k: int|
                            0 <= k < next && #[trigger] row_start(framebuffer_width, damage, k) <= j
                                < row_start(framebuffer_width, damage, k) + 4 * damage.width
                                <= size;
                        assert(k != row);
                        assert(in_rows(size as nat, framebuffer_width, damage, row as int, j));
                    }
                    if in_rows(size as nat, framebuffer_width, damage, row as int, j) {
                        let k = choose|k: int|
                            0 <= k < row && #[trigger] row_start(framebuffer_width, damage, k) <= j
                                < row_start(framebuffer_width, damage, k) + 4 * damage.width
                                <= size;
                        assert(in_rows(size as nat, framebuffer_width, damage, next, j));
                    }
                }
            }
            assert(presented@ =~= with_rows_shown(
                before,
                pixels@,
                framebuffer_width,
                damage,
                next,
            ));
        }
        row += 1;
    }
    true
}

} // verus!
