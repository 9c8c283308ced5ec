//! Finding what changed between two pictures.

use vstd::prelude::*;
use vstd::slice::slice_subrange;

use crate::arith;
use crate::arith::{max_u32, min_u32};
use crate::bytes;
use crate::bytes::{read_u32, read_u64};
use crate::present;
use crate::present::{picture_bytes, DamageRect};
use crate::server::damage::OutputDamageRect;

verus! {

/// Whether two pictures differ in a place.
pub open spec fn differs(previous: Seq<u8>, current: Seq<u8>, i: int) -> bool {
    present::pixel(previous, i) != present::pixel(current, i)
}

/// The first of the `width` places from `base` on, counted from `from`, in
/// which two pictures differ; `width` if there is none.
pub open spec fn first_change(
    previous: Seq<u8>,
    current: Seq<u8>,
    base: int,
    width: nat,
    from: nat,
) -> nat
    decreases width - from,
{
    if from >= width {
        width
    } else if differs(previous, current, base + from) {
        from
    } else {
        first_change(previous, current, base, width, from + 1)
    }
}

/// One past the last of the `to` places from `base` on in which two pictures
/// differ; zero if there is none.
pub open spec fn end_of_change(previous: Seq<u8>, current: Seq<u8>, base: int, to: nat) -> nat
    decreases to,
{
    if to == 0 {
        0
    } else if differs(previous, current, base + to - 1) {
        to
    } else {
        end_of_change(previous, current, base, (to - 1) as nat)
    }
}

/// Where a stretch of a row begins to differ and where it stops, if it differs
/// at all.
pub open spec fn row_change(previous: Seq<u8>, current: Seq<u8>, base: int, width: u32) -> Option<
    (u32, u32),
> {
    let first = first_change(previous, current, base, width as nat, 0);
    if first >= width {
        None
    } else {
        Some((first as u32, end_of_change(previous, current, base, width as nat) as u32))
    }
}

proof fn lemma_first_change(
    previous: Seq<u8>,
    current: Seq<u8>,
    base: int,
    width: nat,
    from: nat,
)
    requires
        from <= width,
    ensures
        ({
            let first = first_change(previous, current, base, width, from);
            &&& from <= first <= width
            &&& first < width ==> differs(previous, current, base + first)
            &&& forall|i: int|
                from <= i < first ==> !differs(previous, current, #[trigger] (base + i))
        }),
    decreases width - from,
{
    if from < width && !differs(previous, current, base + from) {
        lemma_first_change(previous, current, base, width, from + 1);
    }
}

proof fn lemma_end_of_change(previous: Seq<u8>, current: Seq<u8>, base: int, to: nat)
    ensures
        ({
            let end = end_of_change(previous, current, base, to);
            &&& end <= to
            &&& end > 0 ==> differs(previous, current, base + end - 1)
            &&& forall|i: int|
                end <= i < to ==> !differs(previous, current, #[trigger] (base + i))
        }),
    decreases to,
{
    if to > 0 && !differs(previous, current, base + to - 1) {
        lemma_end_of_change(previous, current, base, (to - 1) as nat);
    }
}

/// A change of a row lies in the row, and holds every place that differs.
pub proof fn law_row_change_covers(
    previous: Seq<u8>,
    current: Seq<u8>,
    base: int,
    width: u32,
    i: int,
)
    requires
        0 <= i < width,
    ensures
        match row_change(previous, current, base, width) {
            Some((left, right)) => left < right <= width && (differs(previous, current, base + i)
                ==> left <= i < right),
            None => !differs(previous, current, base + i),
        },
{
    lemma_first_change(previous, current, base, width as nat, 0);
    lemma_end_of_change(previous, current, base, width as nat);
    let first = first_change(previous, current, base, width as nat, 0);
    let end = end_of_change(previous, current, base, width as nat);
    assert(differs(previous, current, base + i) == differs(previous, current, base + i));
    if first < width {
        assert(differs(previous, current, base + first));
        if end <= first {
            assert(!differs(previous, current, base + first as int));
        }
    }
}

/// A change of a row begins and ends with a place that differs.
pub proof fn law_row_change_is_tight(previous: Seq<u8>, current: Seq<u8>, base: int, width: u32)
    ensures
        row_change(previous, current, base, width) matches Some((left, right)) ==> differs(
            previous,
            current,
            base + left,
        ) && differs(previous, current, base + right - 1),
{
    lemma_first_change(previous, current, base, width as nat, 0);
    lemma_end_of_change(previous, current, base, width as nat);
    if width > 0 {
        law_row_change_covers(previous, current, base, width, 0);
    }
}

/// What a search for changes has found so far.
#[verifier::ext_equal]
pub struct ScanModel {
    /// The runs of changed rows that are complete.
    pub bands: Seq<DamageRect>,
    /// The run of changed rows that may go on.
    pub band: Option<DamageRect>,
    /// One rectangle around everything.
    pub global: Option<DamageRect>,
    /// There were more runs than are kept apart.
    pub fragmented: bool,
}

/// A rectangle with part of a row taken in.
pub open spec fn grown(rect: Option<DamageRect>, left: u32, right: u32, y: u32) -> DamageRect {
    match rect {
        Some(r) => {
            let x = arith::min_int(r.x as int, left as int);
            let top = arith::min_int(r.y as int, y as int);
            DamageRect {
                x: x as u32,
                y: top as u32,
                width: (arith::max_int(r.right(), right as int) - x) as u32,
                height: (arith::max_int(r.bottom(), y + 1) - top) as u32,
            }
        },
        None => DamageRect { x: left, y, width: (right - left) as u32, height: 1 },
    }
}

impl ScanModel {
    pub open spec fn fresh(max_bands: usize) -> ScanModel {
        ScanModel { bands: Seq::empty(), band: None, global: None, fragmented: max_bands == 0 }
    }

    /// After a run of changed rows has ended.
    pub open spec fn closed(self, max_bands: usize) -> ScanModel {
        match self.band {
            Some(band) => if self.bands.len() < max_bands {
                ScanModel { bands: self.bands.push(band), band: None, ..self }
            } else {
                ScanModel { fragmented: true, band: None, ..self }
            },
            None => self,
        }
    }

    /// After one row.
    pub open spec fn after_row(
        self,
        x: u32,
        y: u32,
        change: Option<(u32, u32)>,
        max_bands: usize,
    ) -> ScanModel {
        match change {
            Some((left, right)) => ScanModel {
                band: Some(grown(self.band, (x + left) as u32, (x + right) as u32, y)),
                global: Some(grown(self.global, (x + left) as u32, (x + right) as u32, y)),
                ..self
            },
            None => self.closed(max_bands),
        }
    }

    /// After the rows of a rectangle up to `bottom`.
    pub open spec fn after_rows(
        self,
        previous: Seq<u8>,
        current: Seq<u8>,
        width: u32,
        rect: DamageRect,
        bottom: int,
        max_bands: usize,
    ) -> ScanModel
        decreases bottom - rect.y,
    {
        if bottom <= rect.y {
            self
        } else {
            let y = bottom - 1;
            self.after_rows(previous, current, width, rect, y, max_bands).after_row(
                rect.x,
                y as u32,
                row_change(previous, current, y * width + rect.x, rect.width),
                max_bands,
            )
        }
    }

    /// After a rectangle.
    pub open spec fn after_rect(
        self,
        previous: Seq<u8>,
        current: Seq<u8>,
        width: u32,
        rect: DamageRect,
        max_bands: usize,
    ) -> ScanModel {
        self.after_rows(previous, current, width, rect, rect.bottom(), max_bands).closed(max_bands)
    }

    /// After the listed rectangles, each cut to the picture.
    pub open spec fn after_rects(
        self,
        previous: Seq<u8>,
        current: Seq<u8>,
        width: u32,
        height: u32,
        rects: Seq<OutputDamageRect>,
        max_bands: usize,
    ) -> ScanModel
        decreases rects.len(),
    {
        if rects.len() == 0 {
            self
        } else {
            let before = self.after_rects(
                previous,
                current,
                width,
                height,
                rects.drop_last(),
                max_bands,
            );
            match cut(rects.last(), width, height) {
                Some(rect) => before.after_rect(previous, current, width, rect, max_bands),
                None => before,
            }
        }
    }

    /// What was found: the runs of rows, or one rectangle around everything if
    /// there were too many.
    pub open spec fn found(self) -> Seq<DamageRect> {
        if !self.fragmented {
            self.bands
        } else {
            match self.global {
                Some(rect) => seq![rect],
                None => Seq::empty(),
            }
        }
    }
}

/// The part of a rectangle that lies on the picture.
pub open spec fn cut(rect: OutputDamageRect, width: u32, height: u32) -> Option<DamageRect> {
    let right = arith::min_int(rect.right(), width as int);
    let bottom = arith::min_int(rect.bottom(), height as int);
    if right <= rect.x || bottom <= rect.y {
        None
    } else {
        Some(
            DamageRect {
                x: rect.x,
                y: rect.y,
                width: (right - rect.x) as u32,
                height: (bottom - rect.y) as u32,
            },
        )
    }
}

pub open spec fn whole(width: u32, height: u32) -> DamageRect {
    DamageRect { x: 0, y: 0, width, height }
}

/// The rectangles that cover every change between two pictures: the runs of
/// changed rows, or one rectangle around all of them if there are more than
/// `max_bands`. A picture of the wrong size has changed altogether.
pub open spec fn bands(
    previous: Seq<u8>,
    current: Seq<u8>,
    width: u32,
    height: u32,
    max_bands: usize,
) -> Seq<DamageRect> {
    let size = 4 * (width * height);
    if size == 0 || size > usize::MAX {
        Seq::empty()
    } else if previous.len() != size || current.len() != size {
        seq![whole(width, height)]
    } else {
        ScanModel::fresh(max_bands).after_rect(
            previous,
            current,
            width,
            whole(width, height),
            max_bands,
        ).found()
    }
}

/// The same, of changes inside the listed rectangles only.
pub open spec fn bands_within(
    previous: Seq<u8>,
    current: Seq<u8>,
    width: u32,
    height: u32,
    candidates: Seq<OutputDamageRect>,
    max_bands: usize,
) -> Seq<DamageRect> {
    let size = 4 * (width * height);
    if size == 0 || size > usize::MAX {
        Seq::empty()
    } else if previous.len() != size || current.len() != size {
        seq![whole(width, height)]
    } else {
        ScanModel::fresh(max_bands).after_rects(
            previous,
            current,
            width,
            height,
            candidates,
            max_bands,
        ).found()
    }
}

// What a search has found covers every change that it has seen.

impl ScanModel {
    /// Whether a changed pixel is accounted for.
    pub open spec fn accounts_for(self, x: int, y: int) -> bool {
        &&& self.global is Some && (self.global->0).has(x, y)
        &&& self.fragmented || (self.band is Some && (self.band->0).has(x, y)) || some_has(
            self.bands,
            x,
            y,
        )
    }

    /// Whether everything found lies on the picture.
    pub open spec fn is_on(self, width: u32, height: u32) -> bool {
        &&& self.band is Some ==> (self.band->0).lies_on(width as int, height as int)
        &&& self.global is Some ==> (self.global->0).lies_on(width as int, height as int)
        &&& all_on(self.bands, width, height)
    }
}

pub open spec fn some_has(rects: Seq<DamageRect>, x: int, y: int) -> bool {
    exists|i: int| 0 <= i < rects.len() && (#[trigger] rects[i]).has(x, y)
}

pub open spec fn all_on(rects: Seq<DamageRect>, width: u32, height: u32) -> bool {
    forall|i: int| 0 <= i < rects.len() ==> (#[trigger] rects[i]).lies_on(width as int, height as int)
}

proof fn lemma_closed(s: ScanModel, width: u32, height: u32, max_bands: usize, x: int, y: int)
    requires
        s.is_on(width, height),
        s.bands.len() <= max_bands,
    ensures
        s.closed(max_bands).is_on(width, height),
        s.closed(max_bands).bands.len() <= max_bands,
        s.closed(max_bands).band is None,
        s.accounts_for(x, y) ==> s.closed(max_bands).accounts_for(x, y),
{
    let t = s.closed(max_bands);
    if s.band is Some && s.bands.len() < max_bands {
        assert(t.bands[s.bands.len() as int] == s.band->0);
        assert forall|i: int| 0 <= i < t.bands.len() implies (#[trigger] t.bands[i]).lies_on(
            width as int,
            height as int,
        ) by {
            if i < s.bands.len() {
                assert(s.bands[i].lies_on(width as int, height as int));
            }
        }
        if some_has(s.bands, x, y) {
            let i = choose|i: int| 0 <= i < s.bands.len() && (#[trigger] s.bands[i]).has(x, y);
            assert(t.bands[i].has(x, y));
        }
    }
}

proof fn lemma_grown(
    rect: Option<DamageRect>,
    left: u32,
    right: u32,
    y: u32,
    width: u32,
    height: u32,
    px: int,
    py: int,
)
    requires
        left < right <= width,
        y < height,
        rect is Some ==> (rect->0).lies_on(width as int, height as int),
    ensures
        grown(rect, left, right, y).lies_on(width as int, height as int),
        rect is Some && (rect->0).has(px, py) ==> grown(rect, left, right, y).has(px, py),
        py == y && left <= px < right ==> grown(rect, left, right, y).has(px, py),
{
}

proof fn lemma_after_rows(
    s: ScanModel,
    previous: Seq<u8>,
    current: Seq<u8>,
    width: u32,
    height: u32,
    rect: DamageRect,
    bottom: int,
    max_bands: usize,
    x: int,
    y: int,
)
    requires
        rect.lies_on(width as int, height as int),
        rect.y <= bottom <= rect.bottom(),
        s.is_on(width, height),
        s.bands.len() <= max_bands,
    ensures
        ({
            let t = s.after_rows(previous, current, width, rect, bottom, max_bands);
            &&& t.is_on(width, height)
            &&& t.bands.len() <= max_bands
            &&& s.accounts_for(x, y) ==> t.accounts_for(x, y)
            &&& rect.x <= x < rect.right() && rect.y <= y < bottom && differs(
                previous,
                current,
                y * width + x,
            ) ==> t.accounts_for(x, y)
        }),
    decreases bottom - rect.y,
{
    if bottom > rect.y {
        let row = bottom - 1;
        let before = s.after_rows(previous, current, width, rect, row, max_bands);
        lemma_after_rows(s, previous, current, width, height, rect, row, max_bands, x, y);
        let base = row * width + rect.x;
        let change = row_change(previous, current, base, rect.width);
        law_row_change_covers(previous, current, base, rect.width, 0);
        if rect.x <= x < rect.right() {
            law_row_change_covers(previous, current, base, rect.width, x - rect.x);
        }
        match change {
            Some((left, right)) => {
                let l = (rect.x + left) as u32;
                let r = (rect.x + right) as u32;
                lemma_grown(before.band, l, r, row as u32, width, height, x, y);
                lemma_grown(before.global, l, r, row as u32, width, height, x, y);
            },
            None => {
                lemma_closed(before, width, height, max_bands, x, y);
            },
        }
    }
}

proof fn lemma_after_rects(
    s: ScanModel,
    previous: Seq<u8>,
    current: Seq<u8>,
    width: u32,
    height: u32,
    rects: Seq<OutputDamageRect>,
    max_bands: usize,
    x: int,
    y: int,
)
    requires
        s.is_on(width, height),
        s.bands.len() <= max_bands,
        s.band is None,
    ensures
        ({
            let t = s.after_rects(previous, current, width, height, rects, max_bands);
            &&& t.is_on(width, height)
            &&& t.bands.len() <= max_bands
            &&& t.band is None
            &&& s.accounts_for(x, y) ==> t.accounts_for(x, y)
            &&& 0 <= x < width && 0 <= y < height && crate::server::damage::some_has(rects, x, y)
                && differs(previous, current, y * width + x) ==> t.accounts_for(x, y)
        }),
    decreases rects.len(),
{
    if rects.len() > 0 {
        let front = rects.drop_last();
        let before = s.after_rects(previous, current, width, height, front, max_bands);
        lemma_after_rects(s, previous, current, width, height, front, max_bands, x, y);
        if let Some(rect) = cut(rects.last(), width, height) {
            lemma_after_rows(
                before,
                previous,
                current,
                width,
                height,
                rect,
                rect.bottom(),
                max_bands,
                x,
                y,
            );
            lemma_closed(
                before.after_rows(previous, current, width, rect, rect.bottom(), max_bands),
                width,
                height,
                max_bands,
                x,
                y,
            );
        }
        if crate::server::damage::some_has(rects, x, y) {
            let i = choose|i: int| 0 <= i < rects.len() && (#[trigger] rects[i]).has(x, y);
            if i < rects.len() - 1 {
                assert(front[i].has(x, y));
            }
        }
    }
}

proof fn lemma_found(s: ScanModel, width: u32, height: u32, max_bands: usize, x: int, y: int)
    requires
        s.is_on(width, height),
        s.bands.len() <= max_bands,
        s.band is None,
    ensures
        all_on(s.found(), width, height),
        s.found().len() <= max_bands || s.found().len() <= 1,
        s.accounts_for(x, y) ==> some_has(s.found(), x, y),
{
    if s.fragmented && s.global is Some {
        assert(s.found()[0] == s.global->0);
    }
}

/// The bands cover every pixel that changed, and lie on the picture. There are
/// at most `max_bands` of them, or one.
pub proof fn law_bands_cover_changes(
    previous: Seq<u8>,
    current: Seq<u8>,
    width: u32,
    height: u32,
    max_bands: usize,
    x: int,
    y: int,
)
    requires
        present::is_picture(current, width, height),
        current.len() <= usize::MAX,
        0 <= x < width,
        0 <= y < height,
    ensures
        ({
            let found = bands(previous, current, width, height, max_bands);
            &&& all_on(found, width, height)
            &&& found.len() <= max_bands || found.len() <= 1
            &&& previous.len() != current.len() || differs(previous, current, y * width + x)
                ==> some_has(found, x, y)
        }),
{
    present::lemma_place(width, height, x, y);
    if previous.len() == current.len() {
        let s = ScanModel::fresh(max_bands);
        let rect = whole(width, height);
        lemma_after_rows(
            s,
            previous,
            current,
            width,
            height,
            rect,
            rect.bottom(),
            max_bands,
            x,
            y,
        );
        let t = s.after_rows(previous, current, width, rect, rect.bottom(), max_bands);
        lemma_closed(t, width, height, max_bands, x, y);
        lemma_found(t.closed(max_bands), width, height, max_bands, x, y);
    } else {
        assert(bands(previous, current, width, height, max_bands)[0] == whole(width, height));
    }
}

/// The same of changes inside candidates: whatever changed in one of them is
/// covered.
pub proof fn law_bounded_bands_cover_changes(
    previous: Seq<u8>,
    current: Seq<u8>,
    width: u32,
    height: u32,
    candidates: Seq<OutputDamageRect>,
    max_bands: usize,
    x: int,
    y: int,
)
    requires
        present::is_picture(current, width, height),
        current.len() <= usize::MAX,
        0 <= x < width,
        0 <= y < height,
    ensures
        ({
            let found = bands_within(previous, current, width, height, candidates, max_bands);
            &&& all_on(found, width, height)
            &&& found.len() <= max_bands || found.len() <= 1
            &&& previous.len() != current.len() || (differs(previous, current, y * width + x)
                && crate::server::damage::some_has(candidates, x, y)) ==> some_has(found, x, y)
        }),
{
    present::lemma_place(width, height, x, y);
    if previous.len() == current.len() {
        let s = ScanModel::fresh(max_bands);
        lemma_after_rects(s, previous, current, width, height, candidates, max_bands, x, y);
        lemma_found(
            s.after_rects(previous, current, width, height, candidates, max_bands),
            width,
            height,
            max_bands,
            x,
            y,
        );
    } else {
        assert(bands_within(previous, current, width, height, candidates, max_bands)[0] == whole(
            width,
            height,
        ));
    }
}

/// Whether two stretches of bytes are the same, looked at eight at a time.
pub fn rows_equal_u64(previous: &[u8], current: &[u8]) -> (r: bool)
    ensures
        r == (previous@ == current@),
{
    if previous.len() != current.len() {
        return false;
    }
    let len: usize = previous.len();
    let mut offset: usize = 0;
    while len - offset >= 8
        invariant
            offset <= len,
            len == previous@.len(),
            len == current@.len(),
            forall|i: int| 0 <= i < offset ==> previous@[i] == current@[i],
        decreases len - offset,
    {
        if read_u64(previous, offset) != read_u64(current, offset) {
            return false;
        }
        proof {
            lemma_same_u64(previous@, current@, offset as int);
        }
        offset += 8;
    }
    while offset < len
        invariant
            offset <= len,
            len == previous@.len(),
            len == current@.len(),
            forall|i: int| 0 <= i < offset ==> previous@[i] == current@[i],
        decreases len - offset,
    {
        if previous[offset] != current[offset] {
            return false;
        }
        offset += 1;
    }
    proof {
        assert(previous@ =~= current@);
    }
    true
}

/// Numbers that are the same are stored in the same bytes.
proof fn lemma_same_u32(a: Seq<u8>, b: Seq<u8>, i: int, j: int)
    requires
        bytes::le32_at(a, i) == bytes::le32_at(b, j),
    ensures
        a[i] == b[j],
        a[i + 1] == b[j + 1],
        a[i + 2] == b[j + 2],
        a[i + 3] == b[j + 3],
{
    assert forall|k: int| 0 <= k < 4 implies #[trigger] a[i + k] == b[j + k] by {
        bytes::lemma_le32_at_bytes(a, i, k);
        bytes::lemma_le32_at_bytes(b, j, k);
    }
    assert(a[i + 0] == b[j + 0]);
}

proof fn lemma_same_u64(a: Seq<u8>, b: Seq<u8>, i: int)
    requires
        bytes::le64_at(a, i) == bytes::le64_at(b, i),
    ensures
        forall|j: int| i <= j < i + 8 ==> #[trigger] a[j] == b[j],
{
    lemma_same_u32(a, b, i, i);
    lemma_same_u32(a, b, i + 4, i + 4);
}

/// Where a stretch of a row of two pictures begins to differ and where it
/// stops.
fn find_row_change(previous: &[u8], current: &[u8], base: usize, width: u32) -> (r: Option<
    (u32, u32),
>)
    requires
        previous@.len() == current@.len(),
        4 * (base + width) <= previous@.len(),
    ensures
        r == row_change(previous@, current@, base as int, width),
{
    proof {
        lemma_first_change(previous@, current@, base as int, width as nat, 0);
    }
    assert(4 * (base + width) <= previous.len());
    let from: usize = 4 * base;
    let to: usize = from + 4 * width as usize;
    if rows_equal_u64(slice_subrange(previous, from, to), slice_subrange(current, from, to)) {
        proof {
            let first = first_change(previous@, current@, base as int, width as nat, 0);
            if first < width {
                let at = 4 * (base + first);
                assert(previous@.subrange(from as int, to as int) == current@.subrange(
                    from as int,
                    to as int,
                ));
                let p = previous@.subrange(from as int, to as int);
                let c = current@.subrange(from as int, to as int);
                assert(p[at - from] == c[at - from]);
                assert(p[at - from + 1] == c[at - from + 1]);
                assert(p[at - from + 2] == c[at - from + 2]);
                assert(p[at - from + 3] == c[at - from + 3]);
                assert(!differs(previous@, current@, base + first));
            }
        }
        return None;
    }
    let mut left: u32 = 0;
    while left < width && read_u32(previous, 4 * (base + left as usize)) == read_u32(
        current,
        4 * (base + left as usize),
    )
        invariant
            left <= width,
            previous@.len() == current@.len(),
            4 * (base + width) <= previous@.len(),
            4 * (base + width) <= usize::MAX,
            first_change(previous@, current@, base as int, width as nat, 0) == first_change(
                previous@,
                current@,
                base as int,
                width as nat,
                left as nat,
            ),
        decreases width - left,
    {
        left += 1;
    }
    if left == width {
        return None;
    }
    let mut right: u32 = width;
    while right > 0 && read_u32(previous, 4 * (base + (right - 1) as usize)) == read_u32(
        current,
        4 * (base + (right - 1) as usize),
    )
        invariant
            right <= width,
            previous@.len() == current@.len(),
            4 * (base + width) <= previous@.len(),
            4 * (base + width) <= usize::MAX,
            end_of_change(previous@, current@, base as int, width as nat) == end_of_change(
                previous@,
                current@,
                base as int,
                right as nat,
            ),
        decreases right,
    {
        right -= 1;
    }
    Some((left, right))
}

/// Where a row begins to differ and where it stops.
pub fn changed_row_bounds(previous: &[u8], current: &[u8], width: u32) -> (r: Option<(u32, u32)>)
    requires
        previous@.len() == 4 * width,
        current@.len() == 4 * width,
    ensures
        r == row_change(previous@, current@, 0, width),
{
    find_row_change(previous, current, 0, width)
}

/// What a search for changes has found so far.
struct Scan {
    bands: Vec<DamageRect>,
    band: Option<DamageRect>,
    global: Option<DamageRect>,
    fragmented: bool,
}

impl View for Scan {
    type V = ScanModel;

    closed spec fn view(&self) -> ScanModel {
        ScanModel {
            bands: self.bands@,
            band: self.band,
            global: self.global,
            fragmented: self.fragmented,
        }
    }
}

fn grow(rect: Option<DamageRect>, left: u32, right: u32, y: u32) -> (r: DamageRect)
    requires
        left < right,
        y < u32::MAX,
        rect is Some ==> (rect->0).right() <= u32::MAX && (rect->0).bottom() <= u32::MAX,
    ensures
        r == grown(rect, left, right, y),
{
    match rect {
        Some(r) => {
            let x: u32 = min_u32(r.x, left);
            let top: u32 = min_u32(r.y, y);
            DamageRect {
                x,
                y: top,
                width: max_u32(r.x + r.width, right) - x,
                height: max_u32(r.y + r.height, y + 1) - top,
            }
        },
        None => DamageRect { x: left, y, width: right - left, height: 1 },
    }
}

impl Scan {
    fn new(max_bands: usize) -> (scan: Scan)
        ensures
            scan@ == ScanModel::fresh(max_bands),
    {
        let scan = Scan {
            bands: Vec::new(),
            band: None,
            global: None,
            fragmented: max_bands == 0,
        };
        proof {
            assert(scan@ =~= ScanModel::fresh(max_bands));
        }
        scan
    }

    fn close(&mut self, max_bands: usize)
        ensures
            final(self)@ == old(self)@.closed(max_bands),
    {
        if let Some(band) = self.band {
            if self.bands.len() < max_bands {
                self.bands.push(band);
            } else {
                self.fragmented = true;
            }
            self.band = None;
        }
    }

    fn scan_rect(
        &mut self,
        previous: &[u8],
        current: &[u8],
        width: u32,
        height: u32,
        rect: DamageRect,
        max_bands: usize,
    )
        requires
            rect.lies_on(width as int, height as int),
            old(self)@.is_on(width, height),
            old(self)@.bands.len() <= max_bands,
            present::is_picture(previous@, width, height),
            present::is_picture(current@, width, height),
        ensures
            final(self)@ == old(self)@.after_rect(previous@, current@, width, rect, max_bands),
            final(self)@.is_on(width, height),
            final(self)@.bands.len() <= max_bands,
    {
        let bottom: u32 = rect.y + rect.height;
        let ghost start = self@;
        let mut row: u32 = rect.y;
        while row < bottom
            invariant
                rect.y <= row <= bottom,
                bottom == rect.bottom(),
                rect.lies_on(width as int, height as int),
                start.is_on(width, height),
                start.bands.len() <= max_bands,
                present::is_picture(previous@, width, height),
                present::is_picture(current@, width, height),
                self@ == start.after_rows(
                    previous@,
                    current@,
                    width,
                    rect,
                    row as int,
                    max_bands,
                ),
            decreases bottom - row,
        {
            proof {
                present::lemma_place(width, height, rect.x as int, row as int);
                present::lemma_place(width, height, rect.right(), row as int);
                lemma_after_rows(
                    start,
                    previous@,
                    current@,
                    width,
                    height,
                    rect,
                    row as int,
                    max_bands,
                    0,
                    0,
                );
                law_row_change_covers(
                    previous@,
                    current@,
                    row * width + rect.x,
                    rect.width,
                    0,
                );
            }
            assert(4 * (row * width + rect.right()) <= previous.len());
            let base: usize = row as usize * width as usize + rect.x as usize;
            match find_row_change(previous, current, base, rect.width) {
                Some((left, right)) => {
                    let from: u32 = rect.x + left;
                    let to: u32 = rect.x + right;
                    self.global = Some(grow(self.global, from, to, row));
                    self.band = Some(grow(self.band, from, to, row));
                },
                None => {
                    self.close(max_bands);
                },
            }
            row += 1;
        }
        proof {
            lemma_after_rows(
                start,
                previous@,
                current@,
                width,
                height,
                rect,
                rect.bottom(),
                max_bands,
                0,
                0,
            );
            lemma_closed(self@, width, height, max_bands, 0, 0);
        }
        self.close(max_bands);
    }

    fn finish(self) -> (found: Vec<DamageRect>)
        ensures
            found@ == self@.found(),
    {
        if !self.fragmented {
            return self.bands;
        }
        let mut found: Vec<DamageRect> = Vec::new();
        if let Some(rect) = self.global {
            found.push(rect);
            proof {
                assert(found@ =~= seq![rect]);
            }
        } else {
            proof {
                assert(found@ =~= Seq::<DamageRect>::empty());
            }
        }
        found
    }
}

fn only(rect: DamageRect) -> (rects: Vec<DamageRect>)
    ensures
        rects@ == seq![rect],
{
    let mut rects: Vec<DamageRect> = Vec::new();
    rects.push(rect);
    proof {
        assert(rects@ =~= seq![rect]);
    }
    rects
}

/// The rectangles that cover every change between two pictures.
pub fn changed_bands(
    previous: &[u8],
    current: &[u8],
    width: u32,
    height: u32,
    max_bands: usize,
) -> (found: Vec<DamageRect>)
    ensures
        found@ == bands(previous@, current@, width, height, max_bands),
{
    let size: usize = match picture_bytes(width, height) {
        Some(size) => size,
        None => 0,
    };
    if size == 0 {
        let none: Vec<DamageRect> = Vec::new();
        proof {
            assert(none@ =~= Seq::<DamageRect>::empty());
        }
        return none;
    }
    let rect = DamageRect { x: 0, y: 0, width, height };
    if previous.len() != size || current.len() != size {
        return only(rect);
    }
    proof {
        assert(width > 0 && height > 0) by {
            if width == 0 || height == 0 {
                assert(width * height == 0) by (nonlinear_arith)
                    requires
                        width == 0 || height == 0,
                ;
            }
        }
    }
    let mut scan = Scan::new(max_bands);
    scan.scan_rect(previous, current, width, height, rect, max_bands);
    scan.finish()
}

/// One rectangle around every change between two pictures.
pub fn changed_bounds(previous: &[u8], current: &[u8], width: u32, height: u32) -> (r: Option<
    DamageRect,
>)
    ensures
        match r {
            Some(rect) => bands(previous@, current@, width, height, 0) == seq![rect],
            None => bands(previous@, current@, width, height, 0).len() == 0,
        },
{
    let found = changed_bands(previous, current, width, height, 0);
    proof {
        lemma_one_band(previous@, current@, width, height);
    }
    if found.len() == 0 {
        None
    } else {
        proof {
            assert(found@ =~= seq![found@[0]]);
        }
        Some(found[0])
    }
}

/// Where no bands are kept apart, there is at most one rectangle.
proof fn lemma_one_band(previous: Seq<u8>, current: Seq<u8>, width: u32, height: u32)
    ensures
        bands(previous, current, width, height, 0).len() <= 1,
{
    let rect = whole(width, height);
    lemma_stays_fragmented(
        ScanModel::fresh(0),
        previous,
        current,
        width,
        rect,
        rect.bottom(),
        0,
    );
}

proof fn lemma_stays_fragmented(
    s: ScanModel,
    previous: Seq<u8>,
    current: Seq<u8>,
    width: u32,
    rect: DamageRect,
    bottom: int,
    max_bands: usize,
)
    requires
        s.fragmented,
    ensures
        s.after_rows(previous, current, width, rect, bottom, max_bands).fragmented,
    decreases bottom - rect.y,
{
    if bottom > rect.y {
        lemma_stays_fragmented(s, previous, current, width, rect, bottom - 1, max_bands);
    }
}

fn cut_to(rect: &OutputDamageRect, width: u32, height: u32) -> (r: Option<DamageRect>)
    ensures
        r == cut(*rect, width, height),
        r is Some ==> (r->0).lies_on(width as int, height as int),
{
    let right: u32 = min_u32(rect.x.saturating_add(rect.width), width);
    let bottom: u32 = min_u32(rect.y.saturating_add(rect.height), height);
    if right <= rect.x || bottom <= rect.y {
        return None;
    }
    Some(DamageRect { x: rect.x, y: rect.y, width: right - rect.x, height: bottom - rect.y })
}

/// The rectangles that cover every change between two pictures inside the
/// candidates.
pub fn changed_bands_bounded(
    previous: &[u8],
    current: &[u8],
    width: u32,
    height: u32,
    candidates: &[OutputDamageRect],
    max_bands: usize,
) -> (found: Vec<DamageRect>)
    ensures
        found@ == bands_within(previous@, current@, width, height, candidates@, max_bands),
{
    let size: usize = match picture_bytes(width, height) {
        Some(size) => size,
        None => 0,
    };
    if size == 0 {
        let none: Vec<DamageRect> = Vec::new();
        proof {
            assert(none@ =~= Seq::<DamageRect>::empty());
        }
        return none;
    }
    if previous.len() != size || current.len() != size {
        return only(DamageRect { x: 0, y: 0, width, height });
    }
    let mut scan = Scan::new(max_bands);
    let mut i: usize = 0;
    proof {
        assert(candidates@.take(0) =~= Seq::<OutputDamageRect>::empty());
    }
    while i < candidates.len()
        invariant
            i <= candidates@.len(),
            present::is_picture(previous@, width, height),
            present::is_picture(current@, width, height),
            scan@.is_on(width, height),
            scan@.bands.len() <= max_bands,
            scan@ == ScanModel::fresh(max_bands).after_rects(
                previous@,
                current@,
                width,
                height,
                candidates@.take(i as int),
                max_bands,
            ),
        decreases candidates@.len() - i,
    {
        proof {
            assert(candidates@.take(i + 1).drop_last() =~= candidates@.take(i as int));
            assert(candidates@.take(i + 1).last() == candidates@[i as int]);
        }
        if let Some(rect) = cut_to(&candidates[i], width, height) {
            scan.scan_rect(previous, current, width, height, rect, max_bands);
        }
        i += 1;
    }
    proof {
        assert(candidates@.take(i as int) =~= candidates@);
    }
    scan.finish()
}

} // verus!
