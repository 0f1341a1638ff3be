//! Laws of the bencode codec, stated over `encode_value` and `parse_value`.

use crate::bencode::{
    ascending_keys, bytes_le, bytes_le_from, canonical, digit_run, digits, digits_value,
    encode_bytes, encode_entries, encode_items, encode_value, entry_models, insert_by_key, int_text,
    integers_fit, is_digit, keys_of, lemma_view_dictionary, lemma_view_list, models, normalize,
    parse_bytes, parse_entries, parse_integer, parse_items, parse_value, sorted_order, Bencode,
    BencodeValue,
};
use vstd::prelude::*;

verus! {

/// The digits of a number are digits, begin with a zero only for zero, and
/// denote the number.
pub proof fn lemma_digits(n: nat)
    ensures
        digits(n).len() >= 1,
        forall|i: int| 0 <= i < digits(n).len() ==> is_digit(#[trigger] digits(n)[i]),
        digits(n)[0] == 48 <==> n == 0,
        digits(n).len() == 1 <==> n < 10,
        digits_value(digits(n)) == n,
    decreases n,
{
    if n < 10 {
        let t = digits(n);
        assert(t.drop_last() =~= Seq::<u8>::empty());
        assert(digits_value(t.drop_last()) == 0);
    } else {
        lemma_digits(n / 10);
        let d = digits(n / 10);
        let t = d.push((48 + n % 10) as u8);
        assert(t.drop_last() =~= d);
        assert(t[0] == d[0]);
        assert forall|i: int| 0 <= i < t.len() implies is_digit(#[trigger] t[i]) by {
            if i < d.len() {
                assert(t[i] == d[i]);
            }
        }
    }
}

/// A stretch of digits that ends at a byte that is no digit, or at the end, is
/// one whole run.
pub proof fn lemma_digit_run_exact(s: Seq<u8>, from: int, to: int)
    requires
        0 <= from <= to <= s.len(),
        forall|i: int| from <= i < to ==> is_digit(#[trigger] s[i]),
        to == s.len() || !is_digit(s[to]),
    ensures
        digit_run(s, from) == to - from,
    decreases to - from,
{
    if from < to {
        lemma_digit_run_exact(s, from + 1, to);
    }
}

/// The text of an integer, closed by `e`, parses as that integer.
pub proof fn lemma_parse_integer_of_text(i: int, rest: Seq<u8>)
    requires
        i64::MIN <= i <= i64::MAX,
    ensures
        parse_integer(int_text(i) + seq![101u8] + rest) == Some((Bencode::Integer(i), rest)),
{
    let s = int_text(i) + seq![101u8] + rest;
    if i < 0 {
        let d = digits((-i) as nat);
        lemma_digits((-i) as nat);
        assert(s[0] == 45);
        assert forall|k: int| 1 <= k < 1 + d.len() as int implies is_digit(#[trigger] s[k]) by {
            assert(s[k] == d[k - 1]);
        }
        let n = d.len() as int;
        assert(s[1 + n] == 101);
        lemma_digit_run_exact(s, 1, 1 + n);
        assert(s.subrange(1, 1 + n) =~= d);
        assert(s[1] == d[0]);
        assert(s.skip(1 + n + 1) =~= rest);
    } else {
        let d = digits(i as nat);
        lemma_digits(i as nat);
        assert(s[0] == d[0]);
        assert(is_digit(d[0]));
        assert forall|k: int| 0 <= k < d.len() implies is_digit(#[trigger] s[k]) by {
            assert(s[k] == d[k]);
        }
        assert(s[d.len() as int] == 101);
        lemma_digit_run_exact(s, 0, d.len() as int);
        assert(s.subrange(0, d.len() as int) =~= d);
        assert(s.skip(d.len() as int + 1) =~= rest);
    }
}

/// The encoding of a byte string parses as that byte string.
pub proof fn lemma_parse_bytes_of_encoding(b: Seq<u8>, rest: Seq<u8>)
    ensures
        parse_bytes(encode_bytes(b) + rest) == Some((b, rest)),
        encode_bytes(b).len() > 0,
        is_digit(encode_bytes(b)[0]),
{
    let d = digits(b.len());
    lemma_digits(b.len());
    let s = encode_bytes(b) + rest;
    assert(encode_bytes(b)[0] == d[0]);
    assert forall|k: int| 0 <= k < d.len() implies is_digit(#[trigger] s[k]) by {
        assert(s[k] == d[k]);
    }
    assert(s[d.len() as int] == 58);
    lemma_digit_run_exact(s, 0, d.len() as int);
    assert(s.subrange(0, d.len() as int) =~= d);
    assert(s[0] == d[0]);
    let n = d.len() as int;
    assert(s.subrange(n + 1, n + 1 + b.len() as int) =~= b);
    assert(s.skip(n + 1 + b.len() as int) =~= rest);
}

/// Keys that ascend are already in their sorted order.
pub proof fn lemma_sorted_order_of_ascending(keys: Seq<Seq<u8>>, n: nat)
    requires
        ascending_keys(keys),
        n <= keys.len(),
    ensures
        sorted_order(keys, n) == Seq::new(n, |i: int| i),
    decreases n,
{
    if n == 0 {
        assert(sorted_order(keys, n) =~= Seq::new(n, |i: int| i));
    } else {
        lemma_sorted_order_of_ascending(keys, (n - 1) as nat);
        let before = Seq::new((n - 1) as nat, |i: int| i);
        if n == 1 {
            assert(insert_by_key(keys, before, 0) =~= Seq::new(n, |i: int| i));
        } else {
            assert(before.last() == n - 2);
            assert(bytes_le(keys[n - 2], keys[n - 2 + 1]));
            assert(before.push(n - 1) =~= Seq::new(n, |i: int| i));
        }
    }
}

/// Round trip: the encoding of a value, whatever follows it, decodes to that
/// value with every dictionary's entries in the order in which they were
/// encoded, and leaves exactly what followed.
pub proof fn lemma_decode_encode_any(v: Bencode, rest: Seq<u8>)
    requires
        integers_fit(v),
    ensures
        parse_value(encode_value(v) + rest) == Some((normalize(v), rest)),
        encode_value(v).len() > 0,
        encode_value(v)[0] != 101,
    decreases v, 0nat,
{
    let s = encode_value(v) + rest;
    match v {
        Bencode::Integer(i) => {
            lemma_parse_integer_of_text(i, rest);
            assert(s[0] == 105);
            assert(s.skip(1) =~= int_text(i) + seq![101u8] + rest);
        },
        Bencode::ByteString(b) => {
            lemma_parse_bytes_of_encoding(b, rest);
            assert(s[0] == encode_bytes(b)[0]);
        },
        Bencode::List(items) => {
            lemma_decode_encode_items(items, 0, rest);
            assert(s[0] == 108);
            assert(s.skip(1) =~= encode_items(items, 0) + seq![101u8] + rest);
            assert(normalize(v)->List_0 =~= normalized_items(items, 0));
        },
        Bencode::Dictionary(entries) => {
            let order = sorted_order(keys_of(entries), entries.len());
            lemma_sorted_order_sorts(keys_of(entries), entries.len());
            lemma_decode_encode_entries(entries, order, 0, rest);
            assert(s[0] == 100);
            assert(s.skip(1) =~= encode_entries(entries, order, 0) + seq![101u8] + rest);
            assert(normalize(v)->Dictionary_0 =~= normalized_entries(entries, order, 0));
        },
    }
}

/// The items from position `from` on, each with its dictionaries sorted.
pub open spec fn normalized_items(items: Seq<Bencode>, from: int) -> Seq<Bencode> {
    Seq::new((items.len() - from) as nat, |i: int| normalize(items[from + i]))
}

/// The entries that `order` names from position `from` on, each value with
/// its dictionaries sorted.
pub open spec fn normalized_entries(
    entries: Seq<(Seq<u8>, Bencode)>,
    order: Seq<int>,
    from: int,
) -> Seq<(Seq<u8>, Bencode)> {
    Seq::new(
        (order.len() - from) as nat,
        |k: int| (entries[order[from + k]].0, normalize(entries[order[from + k]].1)),
    )
}

/// Round trip for the items of a list from position `from` on.
pub proof fn lemma_decode_encode_items(items: Seq<Bencode>, from: int, rest: Seq<u8>)
    requires
        0 <= from <= items.len(),
        forall|i: int| 0 <= i < items.len() ==> integers_fit(#[trigger] items[i]),
    ensures
        parse_items(encode_items(items, from) + seq![101u8] + rest) == Some(
            (normalized_items(items, from), rest),
        ),
    decreases items, items.len() - from,
{
    let s = encode_items(items, from) + seq![101u8] + rest;
    if from == items.len() {
        assert(s[0] == 101);
        assert(s.skip(1) =~= rest);
        assert(normalized_items(items, from) =~= Seq::<Bencode>::empty());
    } else {
        let head = encode_value(items[from]);
        let tail = encode_items(items, from + 1) + seq![101u8] + rest;
        assert(s =~= head + tail);
        lemma_decode_encode_any(items[from], tail);
        assert(s[0] == head[0]);
        lemma_decode_encode_items(items, from + 1, rest);
        assert(seq![normalize(items[from])] + normalized_items(items, from + 1)
            =~= normalized_items(items, from));
    }
}

/// Round trip for the entries of a dictionary that `order` names from
/// position `from` on.
pub proof fn lemma_decode_encode_entries(
    entries: Seq<(Seq<u8>, Bencode)>,
    order: Seq<int>,
    from: int,
    rest: Seq<u8>,
)
    requires
        0 <= from <= order.len(),
        forall|k: int| 0 <= k < order.len() ==> 0 <= #[trigger] order[k] < entries.len(),
        forall|i: int| 0 <= i < entries.len() ==> integers_fit((#[trigger] entries[i]).1),
    ensures
        parse_entries(encode_entries(entries, order, from) + seq![101u8] + rest) == Some(
            (normalized_entries(entries, order, from), rest),
        ),
    decreases entries, order.len() - from,
{
    let s = encode_entries(entries, order, from) + seq![101u8] + rest;
    if from == order.len() {
        assert(s[0] == 101);
        assert(s.skip(1) =~= rest);
        assert(normalized_entries(entries, order, from) =~= Seq::<(Seq<u8>, Bencode)>::empty());
    } else {
        assert(0 <= order[from] < entries.len());
        let key = entries[order[from]].0;
        let value = entries[order[from]].1;
        let tail = encode_entries(entries, order, from + 1) + seq![101u8] + rest;
        let after_key = encode_value(value) + tail;
        assert(s =~= encode_bytes(key) + after_key);
        lemma_parse_bytes_of_encoding(key, after_key);
        assert(s[0] == encode_bytes(key)[0]);
        lemma_decode_encode_any(value, tail);
        lemma_decode_encode_entries(entries, order, from + 1, rest);
        assert(seq![(key, normalize(value))] + normalized_entries(entries, order, from + 1)
            =~= normalized_entries(entries, order, from));
    }
}

/// A canonical value has its dictionaries sorted already.
pub proof fn lemma_normalize_canonical(v: Bencode)
    requires
        canonical(v),
    ensures
        normalize(v) == v,
        integers_fit(v),
    decreases v,
{
    match v {
        Bencode::Integer(i) => {},
        Bencode::ByteString(b) => {},
        Bencode::List(items) => {
            assert forall|i: int| 0 <= i < items.len() implies normalize(#[trigger] items[i])
                == items[i] && integers_fit(items[i]) by {
                lemma_normalize_canonical(items[i]);
            }
            assert(normalize(v)->List_0 =~= items);
        },
        Bencode::Dictionary(entries) => {
            lemma_sorted_order_of_ascending(keys_of(entries), entries.len());
            assert forall|i: int| 0 <= i < entries.len() implies normalize(
                (#[trigger] entries[i]).1,
            ) == entries[i].1 && integers_fit(entries[i].1) by {
                lemma_normalize_canonical(entries[i].1);
            }
            assert(normalize(v)->Dictionary_0 =~= entries);
        },
    }
}

/// Round trip: the encoding of a canonical value, whatever follows it, decodes
/// to that value and leaves exactly what followed.
pub proof fn lemma_decode_encode(v: Bencode, rest: Seq<u8>)
    requires
        canonical(v),
    ensures
        parse_value(encode_value(v) + rest) == Some((v, rest)),
        encode_value(v).len() > 0,
        encode_value(v)[0] != 101,
{
    lemma_normalize_canonical(v);
    lemma_decode_encode_any(v, rest);
}

/// Every integer of an executable value fits in 64 bits with a sign, so the
/// round trip holds of every value that the program can hold.
pub proof fn lemma_model_integers_fit(v: BencodeValue)
    ensures
        integers_fit(v@),
    decreases v,
{
    match v {
        BencodeValue::Integer(i) => {},
        BencodeValue::ByteString(b) => {},
        BencodeValue::List(items) => {
            lemma_view_list(items);
            assert forall|i: int| 0 <= i < items@.len() implies integers_fit(
                #[trigger] models(items@)[i],
            ) by {
                assert(decreases_to!(v => v->List_0));
                assert(decreases_to!(items => items[i]));
                lemma_model_integers_fit(items@[i]);
            }
        },
        BencodeValue::Dictionary(entries) => {
            lemma_view_dictionary(entries);
            assert forall|i: int| 0 <= i < entries@.len() implies integers_fit(
                (#[trigger] entry_models(entries@)[i]).1,
            ) by {
                assert(decreases_to!(v => v->Dictionary_0));
                assert(decreases_to!(entries => entries[i]));
                assert(decreases_to!(entries[i] => entries[i].1));
                lemma_model_integers_fit(entries@[i].1);
            }
        },
    }
}

/// Two values with the same encoding are the same but for the order in
/// which their dictionaries store their entries.
pub proof fn lemma_encode_injective(a: Bencode, b: Bencode)
    requires
        integers_fit(a),
        integers_fit(b),
        encode_value(a) == encode_value(b),
    ensures
        normalize(a) == normalize(b),
{
    lemma_decode_encode_any(a, Seq::empty());
    lemma_decode_encode_any(b, Seq::empty());
}

/// Of two byte strings one comes before the other, or they are equal.
pub proof fn lemma_bytes_le_total(a: Seq<u8>, b: Seq<u8>)
    ensures
        bytes_le(a, b) || bytes_le(b, a),
{
    lemma_bytes_le_total_from(a, b, 0);
}

proof fn lemma_bytes_le_total_from(a: Seq<u8>, b: Seq<u8>, at: int)
    requires
        0 <= at,
    ensures
        bytes_le_from(a, b, at) || bytes_le_from(b, a, at),
    decreases a.len() - at,
{
    if at < a.len() && at < b.len() && a[at] == b[at] {
        lemma_bytes_le_total_from(a, b, at + 1);
    }
}

/// `order` names each of the first `n` positions exactly once.
pub open spec fn is_permutation(order: Seq<int>, n: nat) -> bool {
    &&& order.len() == n
    &&& forall|k: int| 0 <= k < order.len() ==> 0 <= #[trigger] order[k] < n
    &&& forall|k: int, l: int|
        0 <= k < l < order.len() ==> #[trigger] order[k] != #[trigger] order[l]
    &&& forall|x: int| 0 <= x < n ==> #[trigger] order.contains(x)
}

/// Along `order`, no key is greater than the one that follows it.
pub open spec fn keys_ascend_along(keys: Seq<Seq<u8>>, order: Seq<int>) -> bool {
    forall|k: int|
        0 <= k < order.len() - 1 ==> bytes_le(keys[#[trigger] order[k]], keys[order[k + 1]])
}

/// Where `insert_by_key` puts a new index.
spec fn insert_position(keys: Seq<Seq<u8>>, order: Seq<int>, j: int) -> int
    decreases order.len(),
{
    if order.len() == 0 {
        0
    } else if bytes_le(keys[order.last()], keys[j]) {
        order.len() as int
    } else {
        insert_position(keys, order.drop_last(), j)
    }
}

proof fn lemma_insert_position(keys: Seq<Seq<u8>>, order: Seq<int>, j: int)
    ensures
        0 <= insert_position(keys, order, j) <= order.len(),
        insert_by_key(keys, order, j) == order.take(insert_position(keys, order, j)).push(j)
            + order.skip(insert_position(keys, order, j)),
        insert_position(keys, order, j) > 0 ==> bytes_le(
            keys[order[insert_position(keys, order, j) - 1]],
            keys[j],
        ),
        forall|q: int|
            insert_position(keys, order, j) <= q < order.len() ==> !bytes_le(
                keys[#[trigger] order[q]],
                keys[j],
            ),
    decreases order.len(),
{
    let p = insert_position(keys, order, j);
    if order.len() == 0 {
        assert(order.take(p).push(j) + order.skip(p) =~= seq![j]);
    } else if bytes_le(keys[order.last()], keys[j]) {
        assert(order.take(p).push(j) + order.skip(p) =~= order.push(j));
    } else {
        let shorter = order.drop_last();
        lemma_insert_position(keys, shorter, j);
        assert(shorter.take(p) =~= order.take(p));
        assert((shorter.take(p).push(j) + shorter.skip(p)).push(order.last()) =~= order.take(
            p,
        ).push(j) + order.skip(p));
        assert forall|q: int| p <= q < order.len() implies !bytes_le(
            keys[#[trigger] order[q]],
            keys[j],
        ) by {
            if q < shorter.len() {
                assert(shorter[q] == order[q]);
            }
        }
        if p > 0 {
            assert(shorter[p - 1] == order[p - 1]);
        }
    }
}

/// Putting one more index into a sorted arrangement keeps it sorted and
/// keeps it an arrangement.
proof fn lemma_insert_keeps_sorted(keys: Seq<Seq<u8>>, order: Seq<int>, j: int)
    requires
        is_permutation(order, j as nat),
        keys_ascend_along(keys, order),
        0 <= j < keys.len(),
    ensures
        is_permutation(insert_by_key(keys, order, j), (j + 1) as nat),
        keys_ascend_along(keys, insert_by_key(keys, order, j)),
{
    let p = insert_position(keys, order, j);
    let r = insert_by_key(keys, order, j);
    lemma_insert_position(keys, order, j);
    assert(r.len() == j + 1);
    assert forall|k: int| 0 <= k < r.len() implies (if k < p {
        r[k] == order[k]
    } else if k == p {
        r[k] == j
    } else {
        r[k] == order[k - 1]
    }) by {}
    assert forall|k: int| 0 <= k < r.len() implies 0 <= #[trigger] r[k] < j + 1 by {
        if k < p {
            assert(r[k] == order[k]);
        } else if k > p {
            assert(r[k] == order[k - 1]);
        }
    }
    assert forall|k: int, l: int| 0 <= k < l < r.len() implies #[trigger] r[k] != #[trigger] r[l] by {
        let a = if k < p { order[k] } else if k == p { j } else { order[k - 1] };
        let b = if l < p { order[l] } else if l == p { j } else { order[l - 1] };
        assert(r[k] == a && r[l] == b);
    }
    assert forall|x: int| 0 <= x < j + 1 implies #[trigger] r.contains(x) by {
        if x == j {
            assert(r[p] == x);
        } else {
            assert(order.contains(x));
            let k = choose|k: int| 0 <= k < order.len() && order[k] == x;
            if k < p {
                assert(r[k] == x);
            } else {
                assert(r[k + 1] == x);
            }
        }
    }
    assert forall|k: int| 0 <= k < r.len() - 1 implies bytes_le(
        keys[#[trigger] r[k]],
        keys[r[k + 1]],
    ) by {
        if k + 1 < p {
            assert(r[k] == order[k] && r[k + 1] == order[k + 1]);
        } else if k + 1 == p {
            assert(r[k] == order[p - 1] && r[k + 1] == j);
        } else if k == p {
            assert(r[k] == j && r[k + 1] == order[p]);
            lemma_bytes_le_total(keys[j], keys[order[p]]);
        } else {
            assert(r[k] == order[k - 1] && r[k + 1] == order[k]);
        }
    }
}

/// The sorted order names every key once, and along it the keys ascend.
pub proof fn lemma_sorted_order_sorts(keys: Seq<Seq<u8>>, n: nat)
    requires
        n <= keys.len(),
    ensures
        is_permutation(sorted_order(keys, n), n),
        keys_ascend_along(keys, sorted_order(keys, n)),
    decreases n,
{
    if n > 0 {
        lemma_sorted_order_sorts(keys, (n - 1) as nat);
        lemma_insert_keeps_sorted(keys, sorted_order(keys, (n - 1) as nat), n - 1);
    }
}

/// Canonical order: whatever order a dictionary's entries were stored in,
/// its encoding is `d`, then every entry once with the keys ascending, then `e`.
pub proof fn lemma_dictionary_encoded_in_key_order(entries: Seq<(Seq<u8>, Bencode)>)
    ensures
        ({
            let order = sorted_order(keys_of(entries), entries.len());
            &&& encode_value(Bencode::Dictionary(entries)) == seq![100u8] + encode_entries(
                entries,
                order,
                0,
            ) + seq![101u8]
            &&& is_permutation(order, entries.len())
            &&& keys_ascend_along(keys_of(entries), order)
        }),
{
    lemma_sorted_order_sorts(keys_of(entries), entries.len());
}

} // verus!
