//! The parts of the output that changed since it was last shown.

use vstd::prelude::*;

use crate::arith;
use crate::arith::min_u32;

verus! {

/// A rectangle of the output, in pixels.
#[derive(Copy, Clone, Debug, PartialEq, Eq, Structural)]
pub struct OutputDamageRect {
    pub x: u32,
    pub y: u32,
    pub width: u32,
    pub height: u32,
}

/// What changed: possibly everything, or at most what the rectangles cover.
#[derive(Clone, Debug, PartialEq, Eq)]
pub enum PresentationDamage {
    Full,
    Bounded(Vec<OutputDamageRect>),
}

/// The model of a [`PresentationDamage`].
#[verifier::ext_equal]
pub enum DamageModel {
    Full,
    Bounded(Seq<OutputDamageRect>),
}

impl View for PresentationDamage {
    type V = DamageModel;

    open spec fn view(&self) -> DamageModel {
        match self {
            PresentationDamage::Full => DamageModel::Full,
            PresentationDamage::Bounded(rects) => DamageModel::Bounded(rects@),
        }
    }
}

/// The most rectangles that are kept apart.
pub const MAX_PRESENTATION_DAMAGE_RECTS: usize = 8;

impl OutputDamageRect {
    pub open spec fn right(self) -> int {
        self.x + self.width
    }

    pub open spec fn bottom(self) -> int {
        self.y + self.height
    }

    /// Whether the rectangle covers a pixel.
    pub open spec fn has(self, x: int, y: int) -> bool {
        self.x <= x < self.right() && self.y <= y < self.bottom()
    }

    /// Whether the far edges are numbers of 32 bits.
    pub open spec fn is_regular(self) -> bool {
        self.right() <= u32::MAX && self.bottom() <= u32::MAX
    }

    /// Whether two rectangles overlap or share an edge or a corner.
    pub open spec fn meets(self, other: OutputDamageRect) -> bool {
        &&& self.x <= other.right()
        &&& other.x <= self.right()
        &&& self.y <= other.bottom()
        &&& other.y <= self.bottom()
    }

    /// The smallest rectangle around both, as far as its size is a number of
    /// 32 bits.
    pub open spec fn joined(self, other: OutputDamageRect) -> OutputDamageRect {
        let x = arith::min_int(self.x as int, other.x as int);
        let y = arith::min_int(self.y as int, other.y as int);
        OutputDamageRect {
            x: x as u32,
            y: y as u32,
            width: arith::min_int(
                arith::max_int(self.right(), other.right()) - x,
                u32::MAX as int,
            ) as u32,
            height: arith::min_int(
                arith::max_int(self.bottom(), other.bottom()) - y,
                u32::MAX as int,
            ) as u32,
        }
    }

    fn overlaps_or_touches(self, other: OutputDamageRect) -> (r: bool)
        ensures
            r == self.meets(other),
    {
        let right: u64 = self.x as u64 + self.width as u64;
        let bottom: u64 = self.y as u64 + self.height as u64;
        let other_right: u64 = other.x as u64 + other.width as u64;
        let other_bottom: u64 = other.y as u64 + other.height as u64;
        self.x as u64 <= other_right && other.x as u64 <= right && self.y as u64 <= other_bottom
            && other.y as u64 <= bottom
    }

    fn union(self, other: OutputDamageRect) -> (r: OutputDamageRect)
        ensures
            r == self.joined(other),
    {
        let x: u32 = min_u32(self.x, other.x);
        let y: u32 = min_u32(self.y, other.y);
        let right: u64 = self.x as u64 + self.width as u64;
        let bottom: u64 = self.y as u64 + self.height as u64;
        let other_right: u64 = other.x as u64 + other.width as u64;
        let other_bottom: u64 = other.y as u64 + other.height as u64;
        let width: u64 = (if right >= other_right {
            right
        } else {
            other_right
        }) - x as u64;
        let height: u64 = (if bottom >= other_bottom {
            bottom
        } else {
            other_bottom
        }) - y as u64;
        OutputDamageRect {
            x,
            y,
            width: if width > u32::MAX as u64 {
                u32::MAX
            } else {
                width as u32
            },
            height: if height > u32::MAX as u64 {
                u32::MAX
            } else {
                height as u32
            },
        }
    }
}

/// Takes every rectangle that `added` meets out of the list and into `added`,
/// starting over each time it grows. Gives what is left of the list, and what
/// `added` has become.
pub open spec fn absorbed(
    rects: Seq<OutputDamageRect>,
    added: OutputDamageRect,
    from: int,
) -> (Seq<OutputDamageRect>, OutputDamageRect)
    decreases rects.len(), rects.len() - from,
{
    if from < 0 || from >= rects.len() {
        (rects, added)
    } else if rects[from].meets(added) {
        absorbed(rects.update(from, rects.last()).drop_last(), rects[from].joined(added), 0)
    } else {
        absorbed(rects, added, from + 1)
    }
}

/// One rectangle around all of a list.
pub open spec fn enclosing(rects: Seq<OutputDamageRect>) -> OutputDamageRect
    decreases rects.len(),
{
    if rects.len() <= 1 {
        rects[0]
    } else {
        enclosing(rects.drop_last()).joined(rects.last())
    }
}

/// A list of rectangles with one more merged into it.
pub open spec fn merged(rects: Seq<OutputDamageRect>, added: OutputDamageRect) -> Seq<
    OutputDamageRect,
> {
    if added.width == 0 || added.height == 0 {
        rects
    } else {
        let (kept, grown) = absorbed(rects, added, 0);
        let all = kept.push(grown);
        if all.len() > MAX_PRESENTATION_DAMAGE_RECTS {
            seq![enclosing(all)]
        } else {
            all
        }
    }
}

pub open spec fn all_merged(rects: Seq<OutputDamageRect>, added: Seq<OutputDamageRect>) -> Seq<
    OutputDamageRect,
>
    decreases added.len(),
{
    if added.len() == 0 {
        rects
    } else {
        merged(all_merged(rects, added.drop_last()), added.last())
    }
}

impl DamageModel {
    /// Nothing changed.
    pub open spec fn none() -> DamageModel {
        DamageModel::Bounded(Seq::empty())
    }

    /// Damage with more damage added to it.
    pub open spec fn with(self, added: DamageModel) -> DamageModel {
        match (self, added) {
            (DamageModel::Bounded(rects), DamageModel::Bounded(more)) => DamageModel::Bounded(
                all_merged(rects, more),
            ),
            _ => DamageModel::Full,
        }
    }

    /// Whether a pixel may have changed.
    pub open spec fn has(self, x: int, y: int) -> bool {
        match self {
            DamageModel::Full => true,
            DamageModel::Bounded(rects) => some_has(rects, x, y),
        }
    }

    pub open spec fn is_regular(self) -> bool {
        match self {
            DamageModel::Full => true,
            DamageModel::Bounded(rects) => all_regular(rects),
        }
    }
}

pub open spec fn some_has(rects: Seq<OutputDamageRect>, x: int, y: int) -> bool {
    exists|i: int| 0 <= i < rects.len() && (#[trigger] rects[i]).has(x, y)
}

pub open spec fn all_regular(rects: Seq<OutputDamageRect>) -> bool {
    forall|i: int| 0 <= i < rects.len() ==> (#[trigger] rects[i]).is_regular()
}

proof fn lemma_joined_has(a: OutputDamageRect, b: OutputDamageRect, x: int, y: int)
    requires
        a.is_regular(),
        b.is_regular(),
    ensures
        a.joined(b).is_regular(),
        a.has(x, y) || b.has(x, y) ==> a.joined(b).has(x, y),
{
}

proof fn lemma_absorbed_has(
    rects: Seq<OutputDamageRect>,
    added: OutputDamageRect,
    from: int,
    x: int,
    y: int,
)
    requires
        all_regular(rects),
        added.is_regular(),
    ensures
        all_regular(absorbed(rects, added, from).0),
        absorbed(rects, added, from).1.is_regular(),
        some_has(rects, x, y) || added.has(x, y) ==> some_has(
            absorbed(rects, added, from).0,
            x,
            y,
        ) || absorbed(rects, added, from).1.has(x, y),
    decreases rects.len(), rects.len() - from,
{
    if from < 0 || from >= rects.len() {
    } else if rects[from].meets(added) {
        let rest = rects.update(from, rects.last()).drop_last();
        let grown = rects[from].joined(added);
        lemma_joined_has(rects[from], added, x, y);
        assert forall|i: int| 0 <= i < rest.len() implies (#[trigger] rest[i]).is_regular() by {
            if i == from {
                assert(rects[rects.len() - 1].is_regular());
            } else {
                assert(rects[i].is_regular());
            }
        }
        if some_has(rects, x, y) {
            let i = choose|i: int| 0 <= i < rects.len() && (#[trigger] rects[i]).has(x, y);
            if i == from {
                assert(grown.has(x, y));
            } else if i == rects.len() - 1 {
                assert(rest[from].has(x, y));
            } else {
                assert(rest[i].has(x, y));
            }
        }
        lemma_absorbed_has(rest, grown, 0, x, y);
    } else {
        lemma_absorbed_has(rects, added, from + 1, x, y);
    }
}

proof fn lemma_enclosing_has(rects: Seq<OutputDamageRect>, x: int, y: int)
    requires
        rects.len() > 0,
        all_regular(rects),
    ensures
        enclosing(rects).is_regular(),
        some_has(rects, x, y) ==> enclosing(rects).has(x, y),
    decreases rects.len(),
{
    if rects.len() > 1 {
        let front = rects.drop_last();
        assert forall|i: int| 0 <= i < front.len() implies (#[trigger] front[i]).is_regular() by {
            assert(rects[i].is_regular());
        }
        lemma_enclosing_has(front, x, y);
        assert(rects.last().is_regular());
        lemma_joined_has(enclosing(front), rects.last(), x, y);
        if some_has(rects, x, y) {
            let i = choose|i: int| 0 <= i < rects.len() && (#[trigger] rects[i]).has(x, y);
            if i < rects.len() - 1 {
                assert(front[i].has(x, y));
            }
        }
    }
}

/// Merging a rectangle into a list forgets no pixel of either, and keeps the
/// list short.
pub proof fn law_merged_covers(
    rects: Seq<OutputDamageRect>,
    added: OutputDamageRect,
    x: int,
    y: int,
)
    requires
        all_regular(rects),
        added.is_regular(),
        rects.len() <= MAX_PRESENTATION_DAMAGE_RECTS,
    ensures
        some_has(rects, x, y) || added.has(x, y) ==> some_has(merged(rects, added), x, y),
        all_regular(merged(rects, added)),
        merged(rects, added).len() <= MAX_PRESENTATION_DAMAGE_RECTS,
{
    if added.width != 0 && added.height != 0 {
        let (kept, grown) = absorbed(rects, added, 0);
        let all = kept.push(grown);
        lemma_absorbed_has(rects, added, 0, x, y);
        assert forall|i: int| 0 <= i < all.len() implies (#[trigger] all[i]).is_regular() by {
            if i < kept.len() {
                assert(kept[i].is_regular());
            }
        }
        if some_has(rects, x, y) || added.has(x, y) {
            if some_has(kept, x, y) {
                let i = choose|i: int| 0 <= i < kept.len() && (#[trigger] kept[i]).has(x, y);
                assert(all[i].has(x, y));
            } else {
                assert(all[kept.len() as int].has(x, y));
            }
        }
        lemma_enclosing_has(all, x, y);
        if all.len() > MAX_PRESENTATION_DAMAGE_RECTS {
            assert(merged(rects, added)[0] == enclosing(all));
        }
    }
}

proof fn lemma_all_merged_covers(
    rects: Seq<OutputDamageRect>,
    added: Seq<OutputDamageRect>,
    x: int,
    y: int,
)
    requires
        all_regular(rects),
        all_regular(added),
        rects.len() <= MAX_PRESENTATION_DAMAGE_RECTS,
    ensures
        some_has(rects, x, y) || some_has(added, x, y) ==> some_has(
            all_merged(rects, added),
            x,
            y,
        ),
        all_regular(all_merged(rects, added)),
        all_merged(rects, added).len() <= MAX_PRESENTATION_DAMAGE_RECTS,
    decreases added.len(),
{
    if added.len() > 0 {
        let front = added.drop_last();
        assert forall|i: int| 0 <= i < front.len() implies (#[trigger] front[i]).is_regular() by {
            assert(added[i].is_regular());
        }
        lemma_all_merged_covers(rects, front, x, y);
        assert(added.last().is_regular());
        law_merged_covers(all_merged(rects, front), added.last(), x, y);
        if some_has(added, x, y) {
            let i = choose|i: int| 0 <= i < added.len() && (#[trigger] added[i]).has(x, y);
            if i < added.len() - 1 {
                assert(front[i].has(x, y));
            }
        }
    }
}

/// Added damage forgets no pixel that had changed before or has changed now.
pub proof fn law_damage_accumulates(before: DamageModel, added: DamageModel, x: int, y: int)
    requires
        before.is_regular(),
        added.is_regular(),
        before is Bounded ==> before->0.len() <= MAX_PRESENTATION_DAMAGE_RECTS,
    ensures
        before.has(x, y) || added.has(x, y) ==> before.with(added).has(x, y),
        before.with(added).is_regular(),
        before.with(added) is Bounded ==> before.with(added)->0.len()
            <= MAX_PRESENTATION_DAMAGE_RECTS,
{
    match (before, added) {
        (DamageModel::Bounded(rects), DamageModel::Bounded(more)) => {
            lemma_all_merged_covers(rects, more, x, y);
        },
        _ => {},
    }
}

/// Merges a rectangle into a list.
pub(crate) fn merge_output_damage_rect(rects: &mut Vec<OutputDamageRect>, added: OutputDamageRect)
    ensures
        final(rects)@ == merged(old(rects)@, added),
{
    if added.width == 0 || added.height == 0 {
        return;
    }
    let mut grown = added;
    let mut index: usize = 0;
    while index < rects.len()
        invariant
            index <= rects@.len(),
            absorbed(rects@, grown, index as int) == absorbed(old(rects)@, added, 0),
        decreases rects@.len(), rects@.len() - index,
    {
        if rects[index].overlaps_or_touches(grown) {
            let taken = rects.swap_remove(index);
            grown = taken.union(grown);
            index = 0;
        } else {
            index += 1;
        }
    }
    rects.push(grown);
    if rects.len() > MAX_PRESENTATION_DAMAGE_RECTS {
        let ghost all = rects@;
        let mut bounds = rects[0];
        let mut i: usize = 1;
        proof {
            assert(all.take(1).len() == 1);
        }
        while i < rects.len()
            invariant
                1 <= i <= rects@.len(),
                rects@ == all,
                bounds == enclosing(all.take(i as int)),
            decreases rects@.len() - i,
        {
            proof {
                assert(all.take(i + 1).drop_last() =~= all.take(i as int));
                assert(all.take(i + 1).last() == all[i as int]);
            }
            bounds = bounds.union(rects[i]);
            i += 1;
        }
        proof {
            assert(all.take(i as int) =~= all);
        }
        rects.clear();
        rects.push(bounds);
        proof {
            assert(rects@ =~= seq![enclosing(all)]);
        }
    }
}

impl PresentationDamage {
    /// Nothing changed.
    pub fn none() -> (damage: PresentationDamage)
        ensures
            damage@ == DamageModel::none(),
    {
        PresentationDamage::Bounded(Vec::new())
    }

    /// Damage that is at most one rectangle.
    pub(crate) fn of_rect(rect: Option<OutputDamageRect>) -> (damage: PresentationDamage)
        ensures
            damage@ == (match rect {
                Some(r) => DamageModel::Bounded(seq![r]),
                None => DamageModel::none(),
            }),
    {
        let mut rects: Vec<OutputDamageRect> = Vec::new();
        if let Some(r) = rect {
            rects.push(r);
            proof {
                assert(rects@ =~= seq![r]);
            }
        }
        PresentationDamage::Bounded(rects)
    }

    /// Adds damage.
    pub(crate) fn accumulate(&mut self, damage: &PresentationDamage)
        ensures
            final(self)@ == old(self)@.with(damage@),
    {
        match damage {
            PresentationDamage::Full => {
                *self = PresentationDamage::Full;
            },
            PresentationDamage::Bounded(added) => {
                match self {
                    PresentationDamage::Full => {},
                    PresentationDamage::Bounded(rects) => {
                        let ghost start = rects@;
                        let mut i: usize = 0;
                        proof {
                            assert(added@.take(0) =~= Seq::<OutputDamageRect>::empty());
                        }
                        while i < added.len()
                            invariant
                                i <= added@.len(),
                                rects@ == all_merged(start, added@.take(i as int)),
                            decreases added@.len() - i,
                        {
                            proof {
                                assert(added@.take(i + 1).drop_last() =~= added@.take(i as int));
                                assert(added@.take(i + 1).last() == added@[i as int]);
                            }
                            merge_output_damage_rect(rects, added[i]);
                            i += 1;
                        }
                        proof {
                            assert(added@.take(i as int) =~= added@);
                        }
                    },
                }
            },
        }
    }
}

} // verus!
