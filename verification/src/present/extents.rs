//! What the bands of a change are: the runs of changed rows, each in the
//! smallest rectangle around it.

use vstd::prelude::*;

use crate::present;
use crate::present::bands;
use crate::present::bands::ScanModel;
use crate::present::DamageRect;
use crate::server::damage::OutputDamageRect;

verus! {

/// Whether two pictures differ in a pixel.
pub open spec fn differs_at(
    previous: Seq<u8>,
    current: Seq<u8>,
    width: u32,
    x: int,
    y: int,
) -> bool {
    bands::differs(previous, current, y * width + x)
}

/// Whether two pictures differ somewhere in a row.
pub open spec fn row_differs(previous: Seq<u8>, current: Seq<u8>, width: u32, y: int) -> bool {
    exists|x: int| 0 <= x < width && #[trigger] differs_at(previous, current, width, x, y)
}

/// Whether each of the four edges of a rectangle holds a pixel that changed.
pub open spec fn touches(
    previous: Seq<u8>,
    current: Seq<u8>,
    width: u32,
    rect: DamageRect,
) -> bool {
    &&& exists|y: int|
        rect.has(rect.x as int, y) && #[trigger] differs_at(
            previous,
            current,
            width,
            rect.x as int,
            y,
        )
    &&& exists|y: int|
        rect.has(rect.right() - 1, y) && #[trigger] differs_at(
            previous,
            current,
            width,
            rect.right() - 1,
            y,
        )
    &&& exists|x: int|
        rect.has(x, rect.y as int) && #[trigger] differs_at(
            previous,
            current,
            width,
            x,
            rect.y as int,
        )
    &&& exists|x: int|
        rect.has(x, rect.bottom() - 1) && #[trigger] differs_at(
            previous,
            current,
            width,
            x,
            rect.bottom() - 1,
        )
}

/// Whether a rectangle is the smallest one around everything that changed in
/// the rows from `top` to `bottom`.
pub open spec fn bounds(
    previous: Seq<u8>,
    current: Seq<u8>,
    width: u32,
    rect: DamageRect,
    top: int,
    bottom: int,
) -> bool {
    &&& top <= rect.y < rect.bottom() <= bottom
    &&& rect.x < rect.right() <= width
    &&& touches(previous, current, width, rect)
    &&& forall|x: int, y: int|
        0 <= x < width && top <= y < bottom && #[trigger] differs_at(
            previous,
            current,
            width,
            x,
            y,
        ) ==> rect.has(x, y)
}

/// Whether nothing changed in the rows from `top` to `bottom`.
pub open spec fn is_same(
    previous: Seq<u8>,
    current: Seq<u8>,
    width: u32,
    top: int,
    bottom: int,
) -> bool {
    forall|x: int, y: int|
        0 <= x < width && top <= y < bottom ==> !#[trigger] differs_at(
            previous,
            current,
            width,
            x,
            y,
        )
}

/// Whether every row from `top` to `bottom` changed and neither neighbour did.
pub open spec fn is_run(
    previous: Seq<u8>,
    current: Seq<u8>,
    width: u32,
    height: u32,
    top: int,
    bottom: int,
) -> bool {
    &&& 0 <= top < bottom <= height
    &&& forall|y: int| top <= y < bottom ==> #[trigger] row_differs(previous, current, width, y)
    &&& top > 0 ==> !row_differs(previous, current, width, top - 1)
    &&& bottom < height ==> !row_differs(previous, current, width, bottom)
}

/// How many runs of changed rows begin above `bottom`.
pub open spec fn run_count(
    previous: Seq<u8>,
    current: Seq<u8>,
    width: u32,
    bottom: int,
) -> nat
    decreases bottom,
{
    if bottom <= 0 {
        0
    } else {
        let above = run_count(previous, current, width, bottom - 1);
        if row_differs(previous, current, width, bottom - 1) && (bottom == 1 || !row_differs(
            previous,
            current,
            width,
            bottom - 2,
        )) {
            above + 1
        } else {
            above
        }
    }
}

/// Whether the listed rectangles bound runs of changed rows above `bottom`,
/// one below the other.
pub open spec fn are_runs(
    previous: Seq<u8>,
    current: Seq<u8>,
    width: u32,
    height: u32,
    rects: Seq<DamageRect>,
    bottom: int,
) -> bool {
    &&& forall|i: int|
        0 <= i < rects.len() ==> {
            &&& is_run(
                previous,
                current,
                width,
                height,
                (#[trigger] rects[i]).y as int,
                rects[i].bottom(),
            )
            &&& bounds(
                previous,
                current,
                width,
                rects[i],
                rects[i].y as int,
                rects[i].bottom(),
            )
            &&& rects[i].bottom() <= bottom
        }
    &&& forall|i: int, j: int|
        0 <= i < j < rects.len() ==> (#[trigger] rects[i]).bottom() < (#[trigger] rects[j]).y
}

/// Whether a rectangle is not empty and each of its edges holds a change.
spec fn is_tight(previous: Seq<u8>, current: Seq<u8>, width: u32, rect: DamageRect) -> bool {
    &&& rect.width > 0
    &&& rect.height > 0
    &&& rect.right() <= u32::MAX
    &&& rect.bottom() <= u32::MAX
    &&& touches(previous, current, width, rect)
}

/// With the change of a row taken in, the edges of a rectangle still hold
/// changes.
proof fn lemma_grown_touches(
    previous: Seq<u8>,
    current: Seq<u8>,
    width: u32,
    rect: Option<DamageRect>,
    left: u32,
    right: u32,
    y: u32,
)
    requires
        y < u32::MAX,
        left < right,
        differs_at(previous, current, width, left as int, y as int),
        differs_at(previous, current, width, right - 1, y as int),
        rect is Some ==> is_tight(previous, current, width, rect->0),
    ensures
        is_tight(previous, current, width, bands::grown(rect, left, right, y)),
{
    let g = bands::grown(rect, left, right, y);
    let mut in_left = y as int;
    let mut in_right = y as int;
    let mut in_top = left as int;
    let mut in_bottom = left as int;
    if let Some(r) = rect {
        if r.x <= left {
            in_left = choose|a: int|
                r.has(r.x as int, a) && #[trigger] differs_at(
                    previous,
                    current,
                    width,
                    r.x as int,
                    a,
                );
        }
        if right < r.right() {
            in_right = choose|b: int|
                r.has(r.right() - 1, b) && #[trigger] differs_at(
                    previous,
                    current,
                    width,
                    r.right() - 1,
                    b,
                );
        }
        if r.y <= y {
            in_top = choose|c: int|
                r.has(c, r.y as int) && #[trigger] differs_at(
                    previous,
                    current,
                    width,
                    c,
                    r.y as int,
                );
        }
        if y + 1 < r.bottom() {
            in_bottom = choose|d: int|
                r.has(d, r.bottom() - 1) && #[trigger] differs_at(
                    previous,
                    current,
                    width,
                    d,
                    r.bottom() - 1,
                );
        }
    }
    assert(g.has(g.x as int, in_left));
    assert(differs_at(previous, current, width, g.x as int, in_left));
    assert(g.has(g.right() - 1, in_right));
    assert(differs_at(previous, current, width, g.right() - 1, in_right));
    assert(g.has(in_top, g.y as int));
    assert(differs_at(previous, current, width, in_top, g.y as int));
    assert(g.has(in_bottom, g.bottom() - 1));
    assert(differs_at(previous, current, width, in_bottom, g.bottom() - 1));
}

/// A rectangle around rows, with the change of the next row taken in, bounds
/// one row more.
proof fn lemma_grown_bounds(
    previous: Seq<u8>,
    current: Seq<u8>,
    width: u32,
    rect: Option<DamageRect>,
    top: int,
    y: u32,
    left: u32,
    right: u32,
)
    requires
        0 <= top <= y,
        y < u32::MAX,
        left < right <= width,
        differs_at(previous, current, width, left as int, y as int),
        differs_at(previous, current, width, right - 1, y as int),
        forall|x: int|
            0 <= x < width && #[trigger] differs_at(previous, current, width, x, y as int) ==> left
                <= x < right,
        rect is Some ==> bounds(previous, current, width, rect->0, top, y as int),
        rect is None ==> is_same(previous, current, width, top, y as int),
    ensures
        bounds(previous, current, width, bands::grown(rect, left, right, y), top, y + 1),
        bands::grown(rect, left, right, y).bottom() == y + 1,
        rect is Some ==> bands::grown(rect, left, right, y).y == (rect->0).y,
        rect is None ==> bands::grown(rect, left, right, y).y == y,
{
    lemma_grown_touches(previous, current, width, rect, left, right, y);
}

/// Whether a search has found, in the rows above `bottom`, what it should: the
/// runs that are over, as many as are kept apart; the run that goes on; and
/// one rectangle around everything.
spec fn has_found(
    s: ScanModel,
    previous: Seq<u8>,
    current: Seq<u8>,
    width: u32,
    height: u32,
    bottom: int,
    max_bands: usize,
) -> bool {
    let over = over_count(s, previous, current, width, bottom);
    &&& s.global is Some ==> bounds(previous, current, width, s.global->0, 0, bottom)
    &&& s.global is None ==> is_same(previous, current, width, 0, bottom)
    &&& s.band is Some ==> goes_on(previous, current, width, s.band->0, bottom)
    &&& s.band is None ==> bottom == 0 || !row_differs(previous, current, width, bottom - 1)
    &&& over >= 0
    &&& s.fragmented == (max_bands == 0 || over > max_bands)
    &&& s.bands.len() == if over <= max_bands {
        over
    } else {
        max_bands as int
    }
    &&& are_runs(
        previous,
        current,
        width,
        height,
        s.bands,
        if s.band is Some {
            (s.band->0).y - 1
        } else {
            bottom - 1
        },
    )
}

/// How many runs are over.
spec fn over_count(
    s: ScanModel,
    previous: Seq<u8>,
    current: Seq<u8>,
    width: u32,
    bottom: int,
) -> int {
    run_count(previous, current, width, bottom) - if s.band is Some {
        1int
    } else {
        0
    }
}

/// Whether a rectangle bounds a run that reaches down to `bottom`.
spec fn goes_on(
    previous: Seq<u8>,
    current: Seq<u8>,
    width: u32,
    rect: DamageRect,
    bottom: int,
) -> bool {
    &&& bounds(previous, current, width, rect, rect.y as int, bottom)
    &&& rect.bottom() == bottom
    &&& forall|y: int|
        rect.y <= y < bottom ==> #[trigger] row_differs(previous, current, width, y)
    &&& rect.y > 0 ==> !row_differs(previous, current, width, rect.y - 1)
}

/// When a run ends, it joins those that are over.
proof fn lemma_run_ends(
    s: ScanModel,
    previous: Seq<u8>,
    current: Seq<u8>,
    width: u32,
    height: u32,
    bottom: int,
    max_bands: usize,
)
    requires
        0 <= bottom <= height,
        bottom < height ==> !row_differs(previous, current, width, bottom),
        has_found(s, previous, current, width, height, bottom, max_bands),
    ensures
        ({
            let t = s.closed(max_bands);
            let over = run_count(previous, current, width, bottom);
            &&& t.band is None
            &&& t.global == s.global
            &&& t.fragmented == (max_bands == 0 || over > max_bands)
            &&& t.bands.len() == if over <= max_bands {
                over as int
            } else {
                max_bands as int
            }
            &&& are_runs(previous, current, width, height, t.bands, bottom)
        }),
{
    let t = s.closed(max_bands);
    if let Some(band) = s.band {
        if s.bands.len() < max_bands {
            assert(t.bands =~= s.bands.push(band));
            assert forall|i: int| 0 <= i < t.bands.len() implies ({
                &&& is_run(
                    previous,
                    current,
                    width,
                    height,
                    (#[trigger] t.bands[i]).y as int,
                    t.bands[i].bottom(),
                )
                &&& bounds(
                    previous,
                    current,
                    width,
                    t.bands[i],
                    t.bands[i].y as int,
                    t.bands[i].bottom(),
                )
                &&& t.bands[i].bottom() <= bottom
            }) by {
                if i < s.bands.len() {
                    assert(t.bands[i] == s.bands[i]);
                } else {
                    assert(t.bands[i] == band);
                }
            }
            assert forall|i: int, j: int| 0 <= i < j < t.bands.len() implies (
            #[trigger] t.bands[i]).bottom() < (#[trigger] t.bands[j]).y by {
                assert(t.bands[i] == s.bands[i]);
                if j < s.bands.len() {
                    assert(t.bands[j] == s.bands[j]);
                } else {
                    assert(t.bands[j] == band);
                }
            }
        }
    }
}

/// A row is found to have changed if it has.
proof fn lemma_row_change(
    previous: Seq<u8>,
    current: Seq<u8>,
    width: u32,
    y: int,
)
    requires
        width > 0,
    ensures
        match bands::row_change(previous, current, y * width, width) {
            Some((left, right)) => {
                &&& left < right <= width
                &&& row_differs(previous, current, width, y)
                &&& differs_at(previous, current, width, left as int, y)
                &&& differs_at(previous, current, width, right - 1, y)
                &&& forall|x: int|
                    0 <= x < width && #[trigger] differs_at(previous, current, width, x, y)
                        ==> left <= x < right
            },
            None => !row_differs(previous, current, width, y),
        },
{
    let base = y * width;
    let change = bands::row_change(previous, current, base, width);
    bands::law_row_change_is_tight(previous, current, base, width);
    bands::law_row_change_covers(previous, current, base, width, 0);
    assert forall|x: int|
        0 <= x < width && #[trigger] differs_at(previous, current, width, x, y) implies change
        is Some && (change->0).0 <= x < (change->0).1 by {
        bands::law_row_change_covers(previous, current, base, width, x);
    }
    if let Some((left, right)) = change {
        assert(differs_at(previous, current, width, left as int, y));
        assert(differs_at(previous, current, width, right - 1, y));
    }
}

/// One row further, a search has found what it should.
proof fn lemma_next_row(
    s: ScanModel,
    previous: Seq<u8>,
    current: Seq<u8>,
    width: u32,
    height: u32,
    y: u32,
    max_bands: usize,
)
    requires
        width > 0,
        y < height,
        has_found(s, previous, current, width, height, y as int, max_bands),
    ensures
        has_found(
            s.after_row(
                0,
                y,
                bands::row_change(previous, current, y * width, width),
                max_bands,
            ),
            previous,
            current,
            width,
            height,
            y + 1,
            max_bands,
        ),
{
    lemma_row_change(previous, current, width, y as int);
    let change = bands::row_change(previous, current, y * width, width);
    let t = s.after_row(0, y, change, max_bands);
    match change {
        Some((left, right)) => {
            lemma_grown_bounds(previous, current, width, s.global, 0, y, left, right);
            let top = match s.band {
                Some(band) => band.y as int,
                None => y as int,
            };
            lemma_grown_bounds(previous, current, width, s.band, top, y, left, right);
            assert(goes_on(previous, current, width, t.band->0, y + 1));
            assert(t.bands == s.bands);
        },
        None => {
            lemma_run_ends(s, previous, current, width, height, y as int, max_bands);
            assert forall|px: int, py: int|
                0 <= px < width && 0 <= py < y + 1 && #[trigger] differs_at(
                    previous,
                    current,
                    width,
                    px,
                    py,
                ) implies py < y by {
                if py == y {
                    assert(row_differs(previous, current, width, y as int));
                }
            }
        },
    }
}

proof fn lemma_rows(
    previous: Seq<u8>,
    current: Seq<u8>,
    width: u32,
    height: u32,
    bottom: int,
    max_bands: usize,
)
    requires
        width > 0,
        0 <= bottom <= height,
    ensures
        has_found(
            ScanModel::fresh(max_bands).after_rows(
                previous,
                current,
                width,
                bands::whole(width, height),
                bottom,
                max_bands,
            ),
            previous,
            current,
            width,
            height,
            bottom,
            max_bands,
        ),
    decreases bottom,
{
    if bottom > 0 {
        lemma_rows(previous, current, width, height, bottom - 1, max_bands);
        let before = ScanModel::fresh(max_bands).after_rows(
            previous,
            current,
            width,
            bands::whole(width, height),
            bottom - 1,
            max_bands,
        );
        lemma_next_row(
            before,
            previous,
            current,
            width,
            height,
            (bottom - 1) as u32,
            max_bands,
        );
    }
}

/// Where the runs of changed rows are no more than are kept apart, the bands
/// are exactly those runs, from the top down, each in the smallest rectangle
/// around what changed in it.
pub proof fn law_bands_are_the_runs(
    previous: Seq<u8>,
    current: Seq<u8>,
    width: u32,
    height: u32,
    max_bands: usize,
)
    requires
        width > 0,
        height > 0,
        present::is_picture(previous, width, height),
        present::is_picture(current, width, height),
        current.len() <= usize::MAX,
        0 < max_bands,
        run_count(previous, current, width, height as int) <= max_bands,
    ensures
        ({
            let found = bands::bands(previous, current, width, height, max_bands);
            &&& found.len() == run_count(previous, current, width, height as int)
            &&& are_runs(previous, current, width, height, found, height as int)
            &&& forall|top: int, bottom: int| #[trigger]
                is_run(previous, current, width, height, top, bottom) ==> exists|i: int|
                    0 <= i < found.len() && (#[trigger] found[i]).y == top && found[i].bottom()
                        == bottom
        }),
{
    let whole = bands::whole(width, height);
    let found = bands::bands(previous, current, width, height, max_bands);
    let scanned = ScanModel::fresh(max_bands).after_rows(
        previous,
        current,
        width,
        whole,
        whole.bottom(),
        max_bands,
    );
    present::lemma_place(width, height, 0, 0);
    lemma_rows(previous, current, width, height, height as int, max_bands);
    lemma_run_ends(scanned, previous, current, width, height, height as int, max_bands);
    assert(found == scanned.closed(max_bands).bands);
    assert forall|top: int, bottom: int| #[trigger]
        is_run(previous, current, width, height, top, bottom) implies exists|i: int|
        0 <= i < found.len() && (#[trigger] found[i]).y == top && found[i].bottom()
            == bottom by {
        assert(row_differs(previous, current, width, top));
        let x = choose|x: int|
            0 <= x < width && #[trigger] differs_at(previous, current, width, x, top);
        bands::law_bands_cover_changes(previous, current, width, height, max_bands, x, top);
        let i = choose|i: int| 0 <= i < found.len() && (#[trigger] found[i]).has(x, top);
        lemma_same_run(
            previous,
            current,
            width,
            height,
            top,
            bottom,
            found[i].y as int,
            found[i].bottom(),
        );
    }
}

/// Two runs that share a row are the same.
proof fn lemma_same_run(
    previous: Seq<u8>,
    current: Seq<u8>,
    width: u32,
    height: u32,
    top: int,
    bottom: int,
    other_top: int,
    other_bottom: int,
)
    requires
        is_run(previous, current, width, height, top, bottom),
        is_run(previous, current, width, height, other_top, other_bottom),
        other_top <= top < other_bottom,
    ensures
        top == other_top,
        bottom == other_bottom,
{
    if other_top < top {
        assert(row_differs(previous, current, width, top - 1));
    }
    if bottom < other_bottom {
        assert(row_differs(previous, current, width, bottom));
    }
    if other_bottom < bottom {
        assert(row_differs(previous, current, width, other_bottom));
    }
}

/// Where there are more runs than are kept apart, what is found is what
/// `changed_bounds` finds: the smallest rectangle around everything that
/// changed, if anything did.
pub proof fn law_too_many_runs_are_one(
    previous: Seq<u8>,
    current: Seq<u8>,
    width: u32,
    height: u32,
    max_bands: usize,
)
    requires
        width > 0,
        height > 0,
        present::is_picture(previous, width, height),
        present::is_picture(current, width, height),
        current.len() <= usize::MAX,
        max_bands == 0 || run_count(previous, current, width, height as int) > max_bands,
    ensures
        ({
            let found = bands::bands(previous, current, width, height, max_bands);
            &&& found == bands::bands(previous, current, width, height, 0)
            &&& found.len() == 0 && is_same(previous, current, width, 0, height as int) || found
                == seq![found[0]] && bounds(
                previous,
                current,
                width,
                found[0],
                0,
                height as int,
            )
        }),
{
    let whole = bands::whole(width, height);
    present::lemma_place(width, height, 0, 0);
    lemma_rows(previous, current, width, height, height as int, max_bands);
    lemma_rows(previous, current, width, height, height as int, 0);
    let scanned = ScanModel::fresh(max_bands).after_rows(
        previous,
        current,
        width,
        whole,
        whole.bottom(),
        max_bands,
    );
    let one = ScanModel::fresh(0).after_rows(previous, current, width, whole, whole.bottom(), 0);
    lemma_run_ends(scanned, previous, current, width, height, height as int, max_bands);
    lemma_run_ends(one, previous, current, width, height, height as int, 0);
    lemma_same_global(previous, current, width, whole, whole.bottom(), max_bands);
    if let Some(rect) = scanned.global {
        assert(seq![rect][0] == rect);
    }
}

/// The rectangle around everything does not depend on how many runs are kept
/// apart.
proof fn lemma_same_global(
    previous: Seq<u8>,
    current: Seq<u8>,
    width: u32,
    rect: DamageRect,
    bottom: int,
    max_bands: usize,
)
    ensures
        ScanModel::fresh(max_bands).after_rows(
            previous,
            current,
            width,
            rect,
            bottom,
            max_bands,
        ).global == ScanModel::fresh(0).after_rows(
            previous,
            current,
            width,
            rect,
            bottom,
            0,
        ).global,
    decreases bottom - rect.y,
{
    if bottom > rect.y {
        lemma_same_global(previous, current, width, rect, bottom - 1, max_bands);
    }
}

/// Whether every rectangle that a search has found is tight.
spec fn all_tight(s: ScanModel, previous: Seq<u8>, current: Seq<u8>, width: u32) -> bool {
    &&& s.band is Some ==> is_tight(previous, current, width, s.band->0)
    &&& s.global is Some ==> is_tight(previous, current, width, s.global->0)
    &&& forall|i: int|
        0 <= i < s.bands.len() ==> is_tight(previous, current, width, #[trigger] s.bands[i])
}

proof fn lemma_rows_tight(
    s: ScanModel,
    previous: Seq<u8>,
    current: Seq<u8>,
    width: u32,
    height: u32,
    rect: DamageRect,
    bottom: int,
    max_bands: usize,
)
    requires
        rect.lies_on(width as int, height as int),
        rect.y <= bottom <= rect.bottom(),
        all_tight(s, previous, current, width),
    ensures
        all_tight(
            s.after_rows(previous, current, width, rect, bottom, max_bands),
            previous,
            current,
            width,
        ),
    decreases bottom - rect.y,
{
    if bottom > rect.y {
        let y = bottom - 1;
        lemma_rows_tight(s, previous, current, width, height, rect, y, max_bands);
        let before = s.after_rows(previous, current, width, rect, y, max_bands);
        let base = y * width + rect.x;
        bands::law_row_change_is_tight(previous, current, base, rect.width);
        bands::law_row_change_covers(previous, current, base, rect.width, 0);
        match bands::row_change(previous, current, base, rect.width) {
            Some((left, right)) => {
                let from = (rect.x + left) as u32;
                let to = (rect.x + right) as u32;
                assert(base + left == y * width + from);
                assert(base + right - 1 == y * width + (to - 1));
                assert(differs_at(previous, current, width, from as int, y));
                assert(differs_at(previous, current, width, to - 1, y));
                lemma_grown_touches(previous, current, width, before.band, from, to, y as u32);
                lemma_grown_touches(previous, current, width, before.global, from, to, y as u32);
            },
            None => {},
        }
    }
}

proof fn lemma_rects_tight(
    previous: Seq<u8>,
    current: Seq<u8>,
    width: u32,
    height: u32,
    rects: Seq<OutputDamageRect>,
    max_bands: usize,
)
    ensures
        all_tight(
            ScanModel::fresh(max_bands).after_rects(
                previous,
                current,
                width,
                height,
                rects,
                max_bands,
            ),
            previous,
            current,
            width,
        ),
    decreases rects.len(),
{
    if rects.len() > 0 {
        let front = rects.drop_last();
        lemma_rects_tight(previous, current, width, height, front, max_bands);
        if let Some(rect) = bands::cut(rects.last(), width, height) {
            lemma_rows_tight(
                ScanModel::fresh(max_bands).after_rects(
                    previous,
                    current,
                    width,
                    height,
                    front,
                    max_bands,
                ),
                previous,
                current,
                width,
                height,
                rect,
                rect.bottom(),
                max_bands,
            );
        }
    }
}

/// Every rectangle that is found holds a changed pixel on each of its four
/// edges, whether it was looked for on the whole picture or in candidates.
pub proof fn law_bands_touch_their_edges(
    previous: Seq<u8>,
    current: Seq<u8>,
    width: u32,
    height: u32,
    candidates: Seq<OutputDamageRect>,
    max_bands: usize,
)
    requires
        present::is_picture(previous, width, height),
        present::is_picture(current, width, height),
    ensures
        forall|i: int|
            0 <= i < bands::bands(previous, current, width, height, max_bands).len() ==> touches(
                previous,
                current,
                width,
                #[trigger] bands::bands(previous, current, width, height, max_bands)[i],
            ),
        forall|i: int|
            0 <= i < bands::bands_within(
                previous,
                current,
                width,
                height,
                candidates,
                max_bands,
            ).len() ==> touches(
                previous,
                current,
                width,
                #[trigger] bands::bands_within(
                    previous,
                    current,
                    width,
                    height,
                    candidates,
                    max_bands,
                )[i],
            ),
{
    let whole = bands::whole(width, height);
    lemma_rects_tight(previous, current, width, height, candidates, max_bands);
    if width > 0 && height > 0 {
        lemma_rows_tight(
            ScanModel::fresh(max_bands),
            previous,
            current,
            width,
            height,
            whole,
            whole.bottom(),
            max_bands,
        );
    } else {
        assert(width * height == 0) by (nonlinear_arith)
            requires
                width == 0 || height == 0,
        ;
    }
}

} // verus!
