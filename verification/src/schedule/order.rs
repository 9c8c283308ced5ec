//! Who is served first.

use vstd::prelude::*;


verus! {

/// Place `i` of a round of `len` places that begins with place `start`.
pub open spec fn around(start: int, len: int, i: int) -> int {
    if start + i < len {
        start + i
    } else {
        start + i - len
    }
}

/// A round of `len` places that begins with place `start`.
pub open spec fn round(start: int, len: nat) -> Seq<usize> {
    Seq::new(len, |i: int| around(start, len as int, i) as usize)
}

/// A round visits every place once.
pub proof fn law_round_visits_each_once(start: int, len: nat, place: usize)
    requires
        len <= usize::MAX,
        0 <= start < len,
    ensures
        round(start, len).no_duplicates(),
        round(start, len).contains(place) == (place < len),
{
    let places = round(start, len);
    if place < len {
        let i = if place >= start {
            place - start
        } else {
            place - start + len
        };
        assert(places[i] == place);
    }
}

/// Every place of a list of `len` places once, from the cursor on.
pub fn rotating_indices(len: usize, cursor: usize) -> (order: Vec<usize>)
    ensures
        order@ == if len == 0 {
            Seq::empty()
        } else {
            round(cursor as int % len as int, len as nat)
        },
{
    let mut order: Vec<usize> = Vec::new();
    if len == 0 {
        proof {
            assert(order@ =~= Seq::<usize>::empty());
        }
        return order;
    }
    let start: usize = cursor % len;
    let mut i: usize = 0;
    while i < len
        invariant
            i <= len,
            start < len,
            order@ == round(start as int, len as nat).take(i as int),
        decreases len - i,
    {
        let place: usize = if i < len - start {
            start + i
        } else {
            i - (len - start)
        };
        order.push(place);
        proof {
            assert(order@ =~= round(start as int, len as nat).take(i + 1));
        }
        i += 1;
    }
    proof {
        assert(order@ =~= round(start as int, len as nat));
    }
    order
}

/// The items whose flag is `wanted`, in order.
pub open spec fn flagged<T>(items: Seq<T>, flags: Seq<bool>, wanted: bool) -> Seq<T>
    decreases items.len(),
{
    if items.len() == 0 {
        Seq::empty()
    } else {
        let before = flagged(items.drop_last(), flags, wanted);
        if flags[items.len() - 1] == wanted {
            before.push(items.last())
        } else {
            before
        }
    }
}

/// Whether `flags` are what `is_priority` says of the items.
pub open spec fn are_flags<T, F: FnMut(T) -> bool>(
    is_priority: F,
    items: Seq<T>,
    flags: Seq<bool>,
) -> bool {
    flags.len() == items.len() && forall|i: int|
        0 <= i < items.len() ==> is_priority.ensures((items[i],), #[trigger] flags[i])
}

/// Putting the flagged items first loses none and adds none.
pub proof fn law_flagged_first_keeps_items<T>(items: Seq<T>, flags: Seq<bool>)
    requires
        flags.len() >= items.len(),
    ensures
        (flagged(items, flags, true) + flagged(items, flags, false)).to_multiset()
            == items.to_multiset(),
    decreases items.len(),
{
    broadcast use vstd::seq_lib::group_to_multiset_ensures;

    let first = flagged(items, flags, true);
    let second = flagged(items, flags, false);
    vstd::seq_lib::lemma_multiset_commutative(first, second);
    if items.len() > 0 {
        let front = items.drop_last();
        law_flagged_first_keeps_items(front, flags);
        let first_before = flagged(front, flags, true);
        let second_before = flagged(front, flags, false);
        vstd::seq_lib::lemma_multiset_commutative(first_before, second_before);
        assert(items =~= front.push(items.last()));
        assert((first + second).to_multiset() =~= items.to_multiset());
    } else {
        assert(first + second =~= items);
    }
}

proof fn lemma_flagged_prefix<T>(items: Seq<T>, a: Seq<bool>, b: Seq<bool>, wanted: bool)
    requires
        forall|i: int| 0 <= i < items.len() ==> a[i] == b[i],
    ensures
        flagged(items, a, wanted) == flagged(items, b, wanted),
    decreases items.len(),
{
    if items.len() > 0 {
        lemma_flagged_prefix(items.drop_last(), a, b, wanted);
    }
}

/// The items of which `is_priority` says that they come first, then the
/// others, each in order.
pub fn priority_first<T: Copy, F>(order: &[T], mut is_priority: F) -> (r: Vec<T>)
where
    F: FnMut(T) -> bool,
    requires
        forall|item: T| is_priority.requires((item,)),
    ensures
        exists|first: Seq<bool>, second: Seq<bool>|
            #[trigger] are_flags(is_priority, order@, first) && #[trigger] are_flags(
                is_priority,
                order@,
                second,
            ) && r@ == flagged(order@, first, true) + flagged(order@, second, false),
{
    let ghost asked = is_priority;
    let mut prioritized: Vec<T> = Vec::new();
    let ghost mut first: Seq<bool> = Seq::empty();
    let mut i: usize = 0;
    proof {
        assert(prioritized@ =~= flagged(order@.take(0), first, true));
    }
    while i < order.len()
        invariant
            i <= order@.len(),
            is_priority == asked,
            forall|item: T| asked.requires((item,)),
            first.len() == i,
            forall|j: int| 0 <= j < i ==> asked.ensures((order@[j],), #[trigger] first[j]),
            prioritized@ == flagged(order@.take(i as int), first, true),
        decreases order@.len() - i,
    {
        let item = order[i];
        let flag = is_priority(item);
        proof {
            let longer = first.push(flag);
            assert(order@.take(i + 1).drop_last() =~= order@.take(i as int));
            lemma_flagged_prefix(order@.take(i as int), first, longer, true);
            first = longer;
        }
        if flag {
            prioritized.push(item);
        }
        proof {
            assert(prioritized@ =~= flagged(order@.take(i + 1), first, true));
        }
        i += 1;
    }
    proof {
        assert(order@.take(i as int) =~= order@);
    }
    let ghost chosen = prioritized@;
    let ghost mut second: Seq<bool> = Seq::empty();
    i = 0;
    proof {
        assert(prioritized@ =~= chosen + flagged(order@.take(0), second, false));
    }
    while i < order.len()
        invariant
            i <= order@.len(),
            is_priority == asked,
            forall|item: T| asked.requires((item,)),
            second.len() == i,
            forall|j: int| 0 <= j < i ==> asked.ensures((order@[j],), #[trigger] second[j]),
            prioritized@ == chosen + flagged(order@.take(i as int), second, false),
        decreases order@.len() - i,
    {
        let item = order[i];
        let flag = is_priority(item);
        proof {
            let longer = second.push(flag);
            assert(order@.take(i + 1).drop_last() =~= order@.take(i as int));
            lemma_flagged_prefix(order@.take(i as int), second, longer, false);
            second = longer;
        }
        if !flag {
            prioritized.push(item);
        }
        proof {
            assert(prioritized@ =~= chosen + flagged(order@.take(i + 1), second, false));
        }
        i += 1;
    }
    proof {
        assert(order@.take(i as int) =~= order@);
    }
    proof {
        assert(are_flags(asked, order@, first));
        assert(are_flags(asked, order@, second));
    }
    prioritized
}

} // verus!
