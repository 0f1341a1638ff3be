//! The executable encoder.

use crate::bencode::{
    bytes_le, bytes_le_from, digits, encode_bytes, encode_entries, encode_items, encode_value,
    insert_by_key, int_text, keys_of, lemma_view_dictionary, lemma_view_list, sorted_order,
    BencodeValue,
};
use vstd::prelude::*;

verus! {

/// A sequence of indices as mathematical integers.
pub open spec fn as_ints(s: Seq<usize>) -> Seq<int> {
    Seq::new(s.len(), |i: int| s[i] as int)
}

/// Whether `a` comes before `b`, or equals it, in the order of byte strings.
pub fn key_le(a: &[u8], b: &[u8]) -> (r: bool)
    ensures
        r == bytes_le(a@, b@),
{
    let mut at: usize = 0;
    while at < a.len()
        invariant
            at <= a.len(),
            bytes_le(a@, b@) == bytes_le_from(a@, b@, at as int),
        decreases a.len() - at,
    {
        if at >= b.len() {
            return false;
        }
        if a[at] != b[at] {
            return a[at] < b[at];
        }
        at += 1;
    }
    true
}

/// Appends the decimal digits of `n`.
pub fn push_decimal(n: u64, out: &mut Vec<u8>)
    ensures
        final(out)@ == old(out)@ + digits(n as nat),
{
    let mut low: Vec<u8> = Vec::new();
    let mut m: u64 = n;
    while m >= 10
        invariant
            digits(n as nat) == digits(m as nat) + low@.reverse(),
        decreases m,
    {
        let d: u8 = (m % 10) as u8;
        proof {
            let r = low@.push((48 + d) as u8).reverse();
            assert(r =~= seq![(48 + d) as u8] + low@.reverse());
            assert(digits(m as nat) == digits((m / 10) as nat).push((48 + d) as u8));
            assert(digits((m / 10) as nat).push((48 + d) as u8) + low@.reverse() =~= digits(
                (m / 10) as nat,
            ) + r);
        }
        low.push(48 + d);
        m = m / 10;
    }
    out.push(48 + (m as u8));
    let mut k: usize = low.len();
    while k > 0
        invariant
            k <= low.len(),
            m < 10,
            out@ == old(out)@ + digits(m as nat) + low@.reverse().take(low@.len() - k),
        decreases k,
    {
        k -= 1;
        proof {
            let r = low@.reverse();
            let t = low@.len() - k - 1;
            assert(r[t] == low@[k as int]);
            assert(r.take(t + 1) =~= r.take(t).push(r[t]));
        }
        out.push(low[k]);
    }
    proof {
        assert(low@.reverse().take(low@.len() as int) =~= low@.reverse());
        assert(out@ =~= old(out)@ + (digits(m as nat) + low@.reverse()));
    }
}

/// Appends the decimal text of `i`.
pub fn push_int_text(i: i64, out: &mut Vec<u8>)
    ensures
        final(out)@ == old(out)@ + int_text(i as int),
{
    if i < 0 {
        out.push(45);
        let magnitude: u64 = (-(i + 1)) as u64 + 1;
        push_decimal(magnitude, out);
        assert(out@ =~= old(out)@ + int_text(i as int));
    } else {
        push_decimal(i as u64, out);
    }
}

/// Appends the encoding of a byte string.
pub fn push_byte_string(b: &[u8], out: &mut Vec<u8>)
    ensures
        final(out)@ == old(out)@ + encode_bytes(b@),
{
    push_decimal(b.len() as u64, out);
    out.push(58);
    out.extend_from_slice(b);
    assert(out@ =~= old(out)@ + encode_bytes(b@));
}

/// Where `insert_by_key` puts `j`: behind position `p`, when every index from
/// `p` on has a key greater than that of `j` and the one before `p` has not.
proof fn lemma_inserted_at(keys: Seq<Seq<u8>>, order: Seq<int>, j: int, p: int)
    requires
        0 <= p <= order.len(),
        forall|q: int| p <= q < order.len() ==> !bytes_le(keys[#[trigger] order[q]], keys[j]),
        p > 0 ==> bytes_le(keys[order[p - 1]], keys[j]),
    ensures
        insert_by_key(keys, order, j) == order.take(p).push(j) + order.skip(p),
    decreases order.len() - p,
{
    if order.len() == 0 {
        assert(order.take(p).push(j) + order.skip(p) =~= seq![j]);
    } else if p == order.len() {
        assert(order.take(p).push(j) + order.skip(p) =~= order.push(j));
    } else {
        let shorter = order.drop_last();
        assert(!bytes_le(keys[order[order.len() - 1]], keys[j]));
        assert forall|q: int| p <= q < shorter.len() implies !bytes_le(
            keys[#[trigger] shorter[q]],
            keys[j],
        ) by {
            assert(shorter[q] == order[q]);
        }
        lemma_inserted_at(keys, shorter, j, p);
        assert(shorter.take(p) =~= order.take(p));
        assert((shorter.take(p).push(j) + shorter.skip(p)).push(order.last()) =~= order.take(
            p,
        ).push(j) + order.skip(p));
    }
}

/// The order in which a dictionary's entries are emitted: by ascending key.
pub fn entry_order(entries: &Vec<(Vec<u8>, BencodeValue)>) -> (order: Vec<usize>)
    ensures
        as_ints(order@) == sorted_order(
            Seq::new(entries@.len(), |i: int| entries@[i].0@),
            entries@.len(),
        ),
        order@.len() == entries@.len(),
        forall|k: int| 0 <= k < order@.len() ==> order@[k] < entries@.len(),
{
    let ghost keys = Seq::new(entries@.len(), |i: int| entries@[i].0@);
    let mut order: Vec<usize> = Vec::new();
    let mut j: usize = 0;
    proof {
        assert(as_ints(order@) =~= sorted_order(keys, 0));
    }
    while j < entries.len()
        invariant
            j <= entries.len(),
            keys == Seq::new(entries@.len(), |i: int| entries@[i].0@),
            as_ints(order@) == sorted_order(keys, j as nat),
            order@.len() == j,
            forall|k: int| 0 <= k < order@.len() ==> order@[k] < j,
        decreases entries.len() - j,
    {
        let mut p: usize = order.len();
        while p > 0 && !key_le(entries[order[p - 1]].0.as_slice(), entries[j].0.as_slice())
            invariant
                p <= order.len(),
                j < entries.len(),
                keys == Seq::new(entries@.len(), |i: int| entries@[i].0@),
                forall|k: int| 0 <= k < order@.len() ==> order@[k] < j,
                forall|q: int|
                    p <= q < order@.len() ==> !bytes_le(
                        keys[#[trigger] as_ints(order@)[q]],
                        keys[j as int],
                    ),
            decreases p,
        {
            p -= 1;
        }
        proof {
            let before = as_ints(order@);
            lemma_inserted_at(keys, before, j as int, p as int);
            assert(as_ints(order@.insert(p as int, j)) =~= before.take(p as int).push(j as int)
                + before.skip(p as int));
        }
        order.insert(p, j);
        j += 1;
    }
    order
}

/// Appends the encoding of `v`.
pub fn encode_into(v: &BencodeValue, out: &mut Vec<u8>)
    ensures
        final(out)@ == old(out)@ + encode_value(v@),
    decreases v,
{
    match v {
        BencodeValue::Integer(i) => {
            out.push(105);
            push_int_text(*i, out);
            out.push(101);
            assert(out@ =~= old(out)@ + encode_value(v@));
        },
        BencodeValue::ByteString(b) => {
            push_byte_string(b.as_slice(), out);
        },
        BencodeValue::List(items) => {
            let ghost model = v@->List_0;
            out.push(108);
            let mut k: usize = 0;
            while k < items.len()
                invariant
                    k <= items.len(),
                    v == BencodeValue::List(*items),
                    model == v@->List_0,
                    model.len() == items@.len(),
                    out@ + encode_items(model, k as int) == old(out)@ + seq![108u8] + encode_items(
                        model,
                        0,
                    ),
                decreases items.len() - k,
            {
                let ghost before = out@;
                proof {
                    lemma_view_list(*items);
                }
                assert(model[k as int] == items@[k as int]@);
                encode_into(&items[k], out);
                proof {
                    assert(before + encode_items(model, k as int) =~= out@ + encode_items(
                        model,
                        k + 1,
                    ));
                }
                k += 1;
            }
            out.push(101);
            proof {
                assert(encode_items(model, k as int) =~= Seq::<u8>::empty());
                assert(out@ =~= old(out)@ + encode_value(v@));
            }
        },
        BencodeValue::Dictionary(entries) => {
            let ghost model = v@->Dictionary_0;
            let order = entry_order(entries);
            let ghost spec_order = as_ints(order@);
            proof {
                lemma_view_dictionary(*entries);
                assert(keys_of(model) =~= Seq::new(entries@.len(), |i: int| entries@[i].0@));
            }
            out.push(100);
            let mut k: usize = 0;
            while k < order.len()
                invariant
                    k <= order.len(),
                    v == BencodeValue::Dictionary(*entries),
                    model == v@->Dictionary_0,
                    model.len() == entries@.len(),
                    forall|i: int|
                        0 <= i < entries@.len() ==> (#[trigger] model[i]) == (
                            entries@[i].0@,
                            entries@[i].1@,
                        ),
                    spec_order == as_ints(order@),
                    forall|q: int| 0 <= q < order@.len() ==> order@[q] < entries@.len(),
                    out@ + encode_entries(model, spec_order, k as int) == old(out)@ + seq![100u8]
                        + encode_entries(model, spec_order, 0),
                decreases order.len() - k,
            {
                let ghost before = out@;
                let at = order[k];
                assert(spec_order[k as int] == at);
                assert(model[at as int] == (entries@[at as int].0@, entries@[at as int].1@));
                push_byte_string(entries[at].0.as_slice(), out);
                encode_into(&entries[at].1, out);
                proof {
                    assert(before + encode_entries(model, spec_order, k as int) =~= out@
                        + encode_entries(model, spec_order, k + 1));
                }
                k += 1;
            }
            out.push(101);
            proof {
                assert(encode_entries(model, spec_order, k as int) =~= Seq::<u8>::empty());
                assert(out@ =~= old(out)@ + encode_value(v@));
            }
        },
    }
}

/// The encoding of `v`, with every dictionary's keys in ascending order.
pub fn encode(v: &BencodeValue) -> (out: Vec<u8>)
    ensures
        out@ == encode_value(v@),
{
    let mut out: Vec<u8> = Vec::new();
    encode_into(v, &mut out);
    assert(out@ =~= encode_value(v@));
    out
}

} // verus!
