//! The order of byte strings, and why the encoding of a dictionary does not
//! depend on the order in which its entries are stored.

use crate::bencode::{
    bytes_le, bytes_le_from, encode_entries, encode_value, keys_of, lookup, sorted_order, Bencode,
};
use crate::bencode_laws::{keys_ascend_along, lemma_sorted_order_sorts};
use vstd::prelude::*;

verus! {

proof fn lemma_bytes_le_antisymmetric_from(a: Seq<u8>, b: Seq<u8>, at: int)
    requires
        0 <= at <= a.len(),
        at <= b.len(),
        forall|i: int| 0 <= i < at ==> a[i] == b[i],
        bytes_le_from(a, b, at),
        bytes_le_from(b, a, at),
    ensures
        a == b,
    decreases a.len() - at,
{
    if at < a.len() {
        lemma_bytes_le_antisymmetric_from(a, b, at + 1);
    } else {
        assert(a =~= b);
    }
}

/// Two byte strings of which each comes before the other, or equals it, are
/// equal.
pub proof fn lemma_bytes_le_antisymmetric(a: Seq<u8>, b: Seq<u8>)
    requires
        bytes_le(a, b),
        bytes_le(b, a),
    ensures
        a == b,
{
    lemma_bytes_le_antisymmetric_from(a, b, 0);
}

proof fn lemma_bytes_le_transitive_from(a: Seq<u8>, b: Seq<u8>, c: Seq<u8>, at: int)
    requires
        0 <= at,
        bytes_le_from(a, b, at),
        bytes_le_from(b, c, at),
    ensures
        bytes_le_from(a, c, at),
    decreases a.len() - at,
{
    if at < a.len() && a[at] == b[at] && b[at] == c[at] {
        lemma_bytes_le_transitive_from(a, b, c, at + 1);
    }
}

/// What comes before a byte string comes before everything behind it.
pub proof fn lemma_bytes_le_transitive(a: Seq<u8>, b: Seq<u8>, c: Seq<u8>)
    requires
        bytes_le(a, b),
        bytes_le(b, c),
    ensures
        bytes_le(a, c),
{
    lemma_bytes_le_transitive_from(a, b, c, 0);
}

/// No key occurs at two positions.
pub open spec fn distinct_keys(keys: Seq<Seq<u8>>) -> bool {
    forall|i: int, j: int| 0 <= i < j < keys.len() ==> #[trigger] keys[i] != #[trigger] keys[j]
}

/// Keys that ascend from each position to the next ascend from each position
/// to every later one.
proof fn lemma_ascend_between(keys: Seq<Seq<u8>>, order: Seq<int>, i: int, j: int)
    requires
        keys_ascend_along(keys, order),
        0 <= i <= j < order.len(),
    ensures
        bytes_le(keys[order[i]], keys[order[j]]),
    decreases j - i,
{
    if i == j {
        crate::bencode_laws::lemma_bytes_le_total(keys[order[i]], keys[order[i]]);
    } else {
        lemma_ascend_between(keys, order, i, j - 1);
        assert(bytes_le(keys[order[j - 1]], keys[order[j - 1 + 1]]));
        lemma_bytes_le_transitive(keys[order[i]], keys[order[j - 1]], keys[order[j]]);
    }
}

/// `order` names each of the first `n` positions exactly once.
pub open spec fn names_each_once(order: Seq<int>, n: nat) -> bool {
    &&& forall|k: int| 0 <= k < order.len() ==> 0 <= #[trigger] order[k] < n
    &&& forall|k: int, l: int|
        0 <= k < l < order.len() ==> #[trigger] order[k] != #[trigger] order[l]
    &&& forall|x: int| 0 <= x < n ==> #[trigger] order.contains(x)
}

/// Two arrangements along which the keys ascend agree at every position
/// that both have, where no key occurs twice.
proof fn lemma_sorted_orders_agree_at(keys: Seq<Seq<u8>>, a: Seq<int>, b: Seq<int>, k: int)
    requires
        names_each_once(a, keys.len()),
        names_each_once(b, keys.len()),
        keys_ascend_along(keys, a),
        keys_ascend_along(keys, b),
        distinct_keys(keys),
        0 <= k < a.len(),
        k < b.len(),
    ensures
        a[k] == b[k],
    decreases k,
{
    assert forall|i: int| 0 <= i < k implies a[i] == b[i] by {
        lemma_sorted_orders_agree_at(keys, a, b, i);
    }
    assert(b.contains(a[k]));
    let j = choose|j: int| 0 <= j < b.len() && b[j] == a[k];
    assert(a.contains(b[k]));
    let l = choose|l: int| 0 <= l < a.len() && a[l] == b[k];
    if j < k {
        assert(a[j] == b[j]);
        assert(a[j] != a[k]);
    }
    if l < k {
        assert(a[l] == b[l]);
        assert(b[l] != b[k]);
    }
    if j > k && l > k {
        lemma_ascend_between(keys, b, k, j);
        lemma_ascend_between(keys, a, k, l);
        lemma_bytes_le_antisymmetric(keys[a[k]], keys[b[k]]);
        if a[k] < b[k] {
            assert(keys[a[k]] != keys[b[k]]);
        } else if b[k] < a[k] {
            assert(keys[b[k]] != keys[a[k]]);
        }
    }
}

/// Where no key occurs twice, there is one arrangement only along which the
/// keys ascend.
pub proof fn lemma_sorted_order_unique(keys: Seq<Seq<u8>>, a: Seq<int>, b: Seq<int>)
    requires
        names_each_once(a, keys.len()),
        names_each_once(b, keys.len()),
        keys_ascend_along(keys, a),
        keys_ascend_along(keys, b),
        distinct_keys(keys),
    ensures
        a == b,
{
    assert forall|k: int| 0 <= k < a.len() && k < b.len() implies a[k] == b[k] by {
        lemma_sorted_orders_agree_at(keys, a, b, k);
    }
    if a.len() < b.len() {
        let extra = b[a.len() as int];
        assert(a.contains(extra));
        let l = choose|l: int| 0 <= l < a.len() && a[l] == extra;
        assert(b[l] == a[l]);
        assert(b[l] != b[a.len() as int]);
    }
    if b.len() < a.len() {
        let extra = a[b.len() as int];
        assert(b.contains(extra));
        let j = choose|j: int| 0 <= j < b.len() && b[j] == extra;
        assert(a[j] == b[j]);
        assert(a[j] != a[b.len() as int]);
    }
    assert(a =~= b);
}

/// Two values with the same encoding, or no value on either side.
pub open spec fn alike(x: Option<Bencode>, y: Option<Bencode>) -> bool {
    match (x, y) {
        (Some(v), Some(w)) => encode_value(v) == encode_value(w),
        (None, None) => true,
        _ => false,
    }
}

/// Entries that are taken in the same order, with the same keys and with
/// values that are encoded alike, are encoded alike.
proof fn lemma_encode_entries_alike(
    first: Seq<(Seq<u8>, Bencode)>,
    first_order: Seq<int>,
    second: Seq<(Seq<u8>, Bencode)>,
    second_order: Seq<int>,
    from: int,
)
    requires
        0 <= from,
        first_order.len() == second_order.len(),
        forall|k: int|
            0 <= k < first_order.len() ==> 0 <= #[trigger] first_order[k] < first.len() && 0
                <= second_order[k] < second.len() && first[first_order[k]].0
                == second[second_order[k]].0 && encode_value(first[first_order[k]].1)
                == encode_value(second[second_order[k]].1),
    ensures
        encode_entries(first, first_order, from) == encode_entries(second, second_order, from),
    decreases first_order.len() - from,
{
    if from < first_order.len() {
        assert(0 <= first_order[from] < first.len());
        lemma_encode_entries_alike(first, first_order, second, second_order, from + 1);
    }
}

/// What `lookup` finds stands in the entries, and what it does not find
/// does not.
pub proof fn lemma_lookup_found(entries: Seq<(Seq<u8>, Bencode)>, key: Seq<u8>, from: int)
    requires
        0 <= from,
    ensures
        lookup(entries, key, from) matches Some(v) ==> exists|x: int|
            from <= x < entries.len() && (#[trigger] entries[x]).0 == key && entries[x].1 == v,
        lookup(entries, key, from) is None ==> forall|x: int|
            from <= x < entries.len() ==> (#[trigger] entries[x]).0 != key,
    decreases entries.len() - from,
{
    if from < entries.len() {
        if entries[from].0 == key {
            assert(entries[from].0 == key && entries[from].1 == entries[from].1);
        } else {
            lemma_lookup_found(entries, key, from + 1);
        }
    }
}

/// Where no key occurs twice, `lookup` finds every entry under its key.
pub proof fn lemma_lookup_of_entry(entries: Seq<(Seq<u8>, Bencode)>, at: int, from: int)
    requires
        distinct_keys(keys_of(entries)),
        0 <= from <= at < entries.len(),
    ensures
        lookup(entries, entries[at].0, from) == Some(entries[at].1),
    decreases at - from,
{
    if from < at {
        assert(keys_of(entries)[from] != keys_of(entries)[at]);
        lemma_lookup_of_entry(entries, at, from + 1);
    }
}

/// A position at which `key` stands in `entries`, where it stands in them.
pub open spec fn position_of(entries: Seq<(Seq<u8>, Bencode)>, key: Seq<u8>) -> int {
    choose|x: int| 0 <= x < entries.len() && (#[trigger] entries[x]).0 == key
}

/// The encoding of a dictionary depends only on what the dictionary holds
/// under each key, not on the order in which its entries are stored: two
/// dictionaries in which no key occurs twice, and which hold under every key
/// values with the same encoding, have the same encoding.
pub proof fn lemma_encoding_ignores_stored_order(
    first: Seq<(Seq<u8>, Bencode)>,
    second: Seq<(Seq<u8>, Bencode)>,
)
    requires
        distinct_keys(keys_of(first)),
        distinct_keys(keys_of(second)),
        forall|key: Seq<u8>| alike(#[trigger] lookup(first, key, 0), lookup(second, key, 0)),
    ensures
        encode_value(Bencode::Dictionary(first)) == encode_value(Bencode::Dictionary(second)),
{
    let first_keys = keys_of(first);
    let second_keys = keys_of(second);
    let first_order = sorted_order(first_keys, first.len());
    let second_order = sorted_order(second_keys, second.len());
    lemma_sorted_order_sorts(first_keys, first.len());
    lemma_sorted_order_sorts(second_keys, second.len());
    let via = Seq::new(second.len(), |i: int| position_of(first, second[i].0));
    assert forall|i: int| 0 <= i < second.len() implies 0 <= #[trigger] via[i] < first.len()
        && first[via[i]].0 == second[i].0 && encode_value(first[via[i]].1) == encode_value(
        second[i].1,
    ) by {
        let key = second[i].0;
        lemma_lookup_of_entry(second, i, 0);
        assert(alike(lookup(first, key, 0), lookup(second, key, 0)));
        lemma_lookup_found(first, key, 0);
        let x = position_of(first, key);
        assert(via[i] == x);
        lemma_lookup_of_entry(first, x, 0);
    }
    let through = Seq::new(second.len(), |k: int| via[second_order[k]]);
    assert forall|k: int| 0 <= k < through.len() implies 0 <= #[trigger] through[k]
        < first.len() by {
        assert(0 <= second_order[k] < second.len());
    }
    assert forall|k: int, l: int| 0 <= k < l < through.len() implies #[trigger] through[k]
        != #[trigger] through[l] by {
        let x = second_order[k];
        let y = second_order[l];
        assert(x != y);
        assert(0 <= x < second.len() && 0 <= y < second.len());
        assert(first[via[x]].0 == second[x].0 && first[via[y]].0 == second[y].0);
        if x < y {
            assert(second_keys[x] != second_keys[y]);
        } else {
            assert(second_keys[y] != second_keys[x]);
        }
    }
    assert forall|x: int| 0 <= x < first.len() implies #[trigger] through.contains(x) by {
        let key = first[x].0;
        lemma_lookup_of_entry(first, x, 0);
        assert(alike(lookup(first, key, 0), lookup(second, key, 0)));
        lemma_lookup_found(second, key, 0);
        let i = choose|i: int| 0 <= i < second.len() && (#[trigger] second[i]).0 == key;
        assert(first[via[i]].0 == key);
        if via[i] < x {
            assert(first_keys[via[i]] != first_keys[x]);
        } else if x < via[i] {
            assert(first_keys[x] != first_keys[via[i]]);
        }
        assert(second_order.contains(i));
        let k = choose|k: int| 0 <= k < second_order.len() && second_order[k] == i;
        assert(through[k] == x);
    }
    assert forall|k: int| 0 <= k < through.len() - 1 implies bytes_le(
        first_keys[#[trigger] through[k]],
        first_keys[through[k + 1]],
    ) by {
        assert(0 <= second_order[k] < second.len() && 0 <= second_order[k + 1] < second.len());
        assert(second_keys[second_order[k]] == first_keys[through[k]]);
        assert(second_keys[second_order[k + 1]] == first_keys[through[k + 1]]);
        assert(bytes_le(second_keys[second_order[k]], second_keys[second_order[k + 1]]));
    }
    lemma_sorted_order_unique(first_keys, first_order, through);
    assert forall|k: int| 0 <= k < first_order.len() implies 0 <= #[trigger] first_order[k]
        < first.len() && 0 <= second_order[k] < second.len() && first[first_order[k]].0
        == second[second_order[k]].0 && encode_value(first[first_order[k]].1) == encode_value(
        second[second_order[k]].1,
    ) by {
        assert(first_order[k] == through[k]);
        assert(0 <= second_order[k] < second.len());
    }
    lemma_encode_entries_alike(first, first_order, second, second_order, 0);
}

} // verus!
