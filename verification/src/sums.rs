//! Sums over finite sets.

use vstd::prelude::*;

use crate::ordered;
use crate::ordered::SortKey;

verus! {

/// The sum of the weights of all keys.
pub open spec fn total<K>(keys: Set<K>, weight: spec_fn(K) -> nat) -> nat
    decreases keys.len(),
    when keys.finite()
{
    if keys.len() == 0 {
        0
    } else {
        let key = keys.choose();
        weight(key) + total(keys.remove(key), weight)
    }
}

/// A sum is the weight of any key and the sum of the others.
pub proof fn lemma_total_remove<K>(keys: Set<K>, weight: spec_fn(K) -> nat, key: K)
    requires
        keys.finite(),
        keys.contains(key),
    ensures
        total(keys, weight) == weight(key) + total(keys.remove(key), weight),
    decreases keys.len(),
{
    let first = keys.choose();
    if first != key {
        lemma_total_remove(keys.remove(first), weight, key);
        lemma_total_remove(keys.remove(key), weight, first);
        assert(keys.remove(first).remove(key) =~= keys.remove(key).remove(first));
    }
}

/// Sums of the same weights are the same.
pub proof fn lemma_total_same<K>(keys: Set<K>, a: spec_fn(K) -> nat, b: spec_fn(K) -> nat)
    requires
        keys.finite(),
        forall|key: K| #[trigger] keys.contains(key) ==> a(key) == b(key),
    ensures
        total(keys, a) == total(keys, b),
    decreases keys.len(),
{
    if keys.len() > 0 {
        let first = keys.choose();
        lemma_total_same(keys.remove(first), a, b);
    }
}

/// The sum over a map of what `size` says of each value.
pub open spec fn map_total<K, V>(map: Map<K, V>, size: spec_fn(V) -> nat) -> nat {
    total(map.dom(), |key: K| size(map[key]))
}

/// The sum over a map after a value was put in for a key.
pub proof fn lemma_map_insert<K, V>(map: Map<K, V>, size: spec_fn(V) -> nat, key: K, value: V)
    requires
        map.dom().finite(),
    ensures
        map.insert(key, value).dom().finite(),
        map_total(map.insert(key, value), size) == if map.contains_key(key) {
            map_total(map, size) - size(map[key]) + size(value)
        } else {
            (map_total(map, size) + size(value)) as int
        },
        map.contains_key(key) ==> size(map[key]) <= map_total(map, size),
{
    let after = map.insert(key, value);
    let old_weight = |k: K| size(map[k]);
    let new_weight = |k: K| size(after[k]);
    let rest = map.dom().remove(key);
    assert(after.dom() =~= map.dom().insert(key));
    assert(after.dom().remove(key) =~= rest);
    lemma_total_remove(after.dom(), new_weight, key);
    lemma_total_same(rest, old_weight, new_weight);
    if map.contains_key(key) {
        lemma_total_remove(map.dom(), old_weight, key);
    } else {
        assert(rest =~= map.dom());
    }
}

/// The sum over a map after a key was taken out.
pub proof fn lemma_map_remove<K, V>(map: Map<K, V>, size: spec_fn(V) -> nat, key: K)
    requires
        map.dom().finite(),
    ensures
        map.remove(key).dom().finite(),
        map_total(map.remove(key), size) == if map.contains_key(key) {
            map_total(map, size) - size(map[key])
        } else {
            map_total(map, size) as int
        },
        map.contains_key(key) ==> size(map[key]) <= map_total(map, size),
{
    let after = map.remove(key);
    let old_weight = |k: K| size(map[k]);
    let new_weight = |k: K| size(after[k]);
    assert(after.dom() =~= map.dom().remove(key));
    lemma_total_same(after.dom(), old_weight, new_weight);
    if map.contains_key(key) {
        lemma_total_remove(map.dom(), old_weight, key);
    } else {
        assert(after.dom() =~= map.dom());
    }
}

/// A sum is at most the greatest weight as often as there are keys.
pub proof fn lemma_total_bound<K>(keys: Set<K>, weight: spec_fn(K) -> nat, most: nat)
    requires
        keys.finite(),
        forall|key: K| #[trigger] keys.contains(key) ==> weight(key) <= most,
    ensures
        total(keys, weight) <= most * keys.len(),
    decreases keys.len(),
{
    if keys.len() > 0 {
        let first = keys.choose();
        lemma_total_bound(keys.remove(first), weight, most);
        assert(most * (keys.len() - 1) + most == most * keys.len()) by (nonlinear_arith);
    } else {
        assert(most * keys.len() == 0) by (nonlinear_arith)
            requires
                keys.len() == 0,
        ;
    }
}

/// There are only so many 32-bit ranks.
pub proof fn lemma_few_keys<K: SortKey>(keys: Set<K>)
    requires
        keys.finite(),
        forall|key: K| #[trigger] keys.contains(key) ==> key.rank() <= u32::MAX,
    ensures
        keys.len() <= 0x1_0000_0000,
{
    ordered::law_ascending_keys_list_all(keys);
    let list = ordered::ascending_keys(keys);
    ordered::lemma_ascending_len(list);
    let numbers = list.map_values(|key: K| key.rank() as int);
    assert(numbers.no_duplicates()) by {
        assert forall|i: int, j: int|
            0 <= i < numbers.len() && 0 <= j < numbers.len() && i != j implies numbers[i]
            != numbers[j] by {
            if i < j {
                assert(list[i].rank() < list[j].rank());
            } else {
                assert(list[j].rank() < list[i].rank());
            }
        }
    }
    numbers.unique_seq_to_set();
    vstd::set_lib::lemma_int_range(0, 0x1_0000_0000);
    let range = vstd::set_lib::set_int_range(0, 0x1_0000_0000);
    assert(numbers.to_set().subset_of(range)) by {
        assert forall|n: int| numbers.to_set().contains(n) implies range.contains(n) by {
            let i = choose|i: int| 0 <= i < numbers.len() && numbers[i] == n;
            assert(list.to_set().contains(list[i]));
            assert(keys.contains(list[i]));
        }
    }
    vstd::set_lib::lemma_len_subset(numbers.to_set(), range);
}

} // verus!
