//! The other direction of the round trip: bytes that decode to a canonical
//! value are the encoding of that value, followed by what decoding left.
//!
//! Bytes whose dictionaries do not have their keys in ascending order decode
//! as well, but encode to other bytes: the keys come out sorted.

use crate::bencode::{
    canonical, digit_run, digits, digits_value, encode_bytes, encode_entries, encode_items,
    encode_value, int_text, is_digit, keys_of, parse_bytes, parse_entries, parse_integer,
    parse_items, parse_value, Bencode,
};
use crate::bencode_laws::lemma_sorted_order_of_ascending;
use vstd::prelude::*;

verus! {

/// Every byte of a run of digits is a digit.
pub proof fn lemma_digit_run_digits(s: Seq<u8>, from: int)
    requires
        0 <= from,
    ensures
        0 <= digit_run(s, from),
        from + digit_run(s, from) <= s.len() || digit_run(s, from) == 0,
        forall|i: int| from <= i < from + digit_run(s, from) ==> is_digit(#[trigger] s[i]),
        from + digit_run(s, from) < s.len() ==> !is_digit(s[from + digit_run(s, from)]),
    decreases s.len() - from,
{
    if from < s.len() && is_digit(s[from]) {
        lemma_digit_run_digits(s, from + 1);
    }
}

/// Digits that do not begin with a zero denote a number that is not zero.
proof fn lemma_digits_value_positive(t: Seq<u8>)
    requires
        t.len() > 0,
        forall|i: int| 0 <= i < t.len() ==> is_digit(#[trigger] t[i]),
        t[0] != 48,
    ensures
        digits_value(t) > 0,
    decreases t.len(),
{
    if t.len() == 1 {
        assert(t.drop_last() =~= Seq::<u8>::empty());
        assert(digits_value(t.drop_last()) == 0);
    } else {
        let shorter = t.drop_last();
        assert(shorter[0] == t[0]);
        assert forall|i: int| 0 <= i < shorter.len() implies is_digit(#[trigger] shorter[i]) by {
            assert(shorter[i] == t[i]);
        }
        lemma_digits_value_positive(shorter);
    }
}

/// Digits without a leading zero are the digits of the number they denote.
pub proof fn lemma_digits_of_value(t: Seq<u8>)
    requires
        t.len() > 0,
        forall|i: int| 0 <= i < t.len() ==> is_digit(#[trigger] t[i]),
        t.len() > 1 ==> t[0] != 48,
    ensures
        digits(digits_value(t)) == t,
    decreases t.len(),
{
    let shorter = t.drop_last();
    let d = t.last();
    assert(is_digit(t[t.len() - 1]));
    if t.len() == 1 {
        assert(shorter =~= Seq::<u8>::empty());
        assert(digits_value(shorter) == 0);
        assert(digits(digits_value(t)) =~= t);
    } else {
        assert(shorter[0] == t[0]);
        assert forall|i: int| 0 <= i < shorter.len() implies is_digit(#[trigger] shorter[i]) by {
            assert(shorter[i] == t[i]);
        }
        lemma_digits_value_positive(shorter);
        lemma_digits_of_value(shorter);
        let high = digits_value(shorter);
        let value = digits_value(t);
        assert(value == high * 10 + (d - 48));
        assert(value / 10 == high);
        assert(value % 10 == d - 48);
        assert(digits(value) == digits(high).push((48 + value % 10) as u8));
        assert(shorter.push(d) =~= t);
    }
}

/// The integer text that parsed is the text of the integer it parsed to.
pub proof fn lemma_integer_text(s: Seq<u8>)
    requires
        parse_integer(s) is Some,
    ensures
        parse_integer(s) matches Some((v, rest)) && v matches Bencode::Integer(i) && int_text(i)
            + seq![101u8] + rest == s,
{
    let negative = s.len() > 0 && s[0] == 45;
    let start: int = if negative { 1 } else { 0 };
    let run = digit_run(s, start);
    let text = s.subrange(start, start + run);
    lemma_digit_run_digits(s, start);
    assert forall|i: int| 0 <= i < text.len() implies is_digit(#[trigger] text[i]) by {
        assert(text[i] == s[start + i]);
    }
    assert(text[0] == s[start]);
    lemma_digits_of_value(text);
    let rest = s.skip(start + run + 1);
    if negative {
        assert(seq![45u8] + text + seq![101u8] + rest =~= s);
    } else {
        assert(text + seq![101u8] + rest =~= s);
    }
}

/// The byte string that parsed is encoded by the bytes it was parsed from.
pub proof fn lemma_bytes_text(s: Seq<u8>)
    requires
        parse_bytes(s) is Some,
    ensures
        parse_bytes(s) matches Some((b, rest)) && encode_bytes(b) + rest == s,
        parse_bytes(s) matches Some((b, rest)) && rest.len() < s.len(),
{
    let run = digit_run(s, 0);
    let text = s.subrange(0, run);
    lemma_digit_run_digits(s, 0);
    assert forall|i: int| 0 <= i < text.len() implies is_digit(#[trigger] text[i]) by {
        assert(text[i] == s[i]);
    }
    assert(text[0] == s[0]);
    lemma_digits_of_value(text);
    let length = digits_value(text);
    let b = s.subrange(run + 1, run + 1 + length);
    let rest = s.skip(run + 1 + length);
    assert(b.len() == length);
    assert(text + seq![58u8] + b + rest =~= s);
}

/// The items from `from` on are encoded as the items behind the first are
/// from `from - 1` on.
pub proof fn lemma_encode_items_skip(items: Seq<Bencode>, from: int)
    requires
        1 <= from,
        1 <= items.len(),
    ensures
        encode_items(items, from) == encode_items(items.skip(1), from - 1),
    decreases items.len() - from,
{
    let tail = items.skip(1);
    assert(tail.len() == items.len() - 1);
    if from < items.len() {
        assert(tail[from - 1] == items[from]);
        lemma_encode_items_skip(items, from + 1);
        assert(encode_items(items, from) == encode_value(items[from]) + encode_items(
            items,
            from + 1,
        ));
        assert(encode_items(tail, from - 1) == encode_value(tail[from - 1]) + encode_items(
            tail,
            from,
        ));
    }
}

/// The entries in the order in which they stand, from `from` on, are encoded
/// as the entries behind the first are from `from - 1` on.
pub proof fn lemma_encode_entries_skip(entries: Seq<(Seq<u8>, Bencode)>, from: int)
    requires
        1 <= from,
        1 <= entries.len(),
    ensures
        encode_entries(entries, Seq::new(entries.len(), |i: int| i), from) == encode_entries(
            entries.skip(1),
            Seq::new(entries.skip(1).len(), |i: int| i),
            from - 1,
        ),
    decreases entries.len() - from,
{
    let tail = entries.skip(1);
    let order = Seq::new(entries.len(), |i: int| i);
    let tail_order = Seq::new(tail.len(), |i: int| i);
    assert(tail.len() == entries.len() - 1);
    if from < entries.len() {
        assert(tail[from - 1] == entries[from]);
        assert(order[from] == from);
        assert(tail_order[from - 1] == from - 1);
        lemma_encode_entries_skip(entries, from + 1);
        assert(encode_entries(entries, order, from) == encode_bytes(entries[from].0)
            + encode_value(entries[from].1) + encode_entries(entries, order, from + 1));
        assert(encode_entries(tail, tail_order, from - 1) == encode_bytes(tail[from - 1].0)
            + encode_value(tail[from - 1].1) + encode_entries(tail, tail_order, from));
    }
}

/// Bytes that decode to a canonical value are that value's encoding, followed
/// by what decoding left.
pub proof fn lemma_encode_decode(s: Seq<u8>)
    requires
        parse_value(s) matches Some((v, rest)) && canonical(v),
    ensures
        parse_value(s) matches Some((v, rest)) && encode_value(v) + rest == s && rest.len()
            < s.len(),
    decreases s.len(), 0nat,
{
    let (v, rest) = parse_value(s).unwrap();
    if s[0] == 105 {
        lemma_integer_text(s.skip(1));
        let i = v->Integer_0;
        assert(seq![105u8] + int_text(i) + seq![101u8] + rest =~= seq![105u8] + (int_text(i)
            + seq![101u8] + rest));
        assert(seq![105u8] + s.skip(1) =~= s);
    } else if s[0] == 108 {
        let items = v->List_0;
        lemma_encode_decode_items(s.skip(1));
        assert(seq![108u8] + encode_items(items, 0) + seq![101u8] + rest =~= seq![108u8] + (
        encode_items(items, 0) + seq![101u8] + rest));
        assert(seq![108u8] + s.skip(1) =~= s);
    } else if s[0] == 100 {
        let entries = v->Dictionary_0;
        let order = Seq::new(entries.len(), |i: int| i);
        lemma_sorted_order_of_ascending(keys_of(entries), entries.len());
        lemma_encode_decode_entries(s.skip(1));
        assert(seq![100u8] + encode_entries(entries, order, 0) + seq![101u8] + rest =~= seq![100u8]
            + (encode_entries(entries, order, 0) + seq![101u8] + rest));
        assert(seq![100u8] + s.skip(1) =~= s);
    } else {
        lemma_bytes_text(s);
    }
}

/// Bytes that decode to canonical items are the items' encodings, the closing
/// `e`, and what decoding left.
pub proof fn lemma_encode_decode_items(s: Seq<u8>)
    requires
        parse_items(s) matches Some((items, rest)) && forall|i: int|
            0 <= i < items.len() ==> canonical(#[trigger] items[i]),
    ensures
        parse_items(s) matches Some((items, rest)) && encode_items(items, 0) + seq![101u8] + rest
            == s,
    decreases s.len(), 1nat,
{
    let (items, rest) = parse_items(s).unwrap();
    if s[0] == 101 {
        assert(encode_items(items, 0) + seq![101u8] + rest =~= s);
    } else {
        let (v, after) = parse_value(s).unwrap();
        let (tail, end) = parse_items(after).unwrap();
        assert(items == seq![v] + tail);
        assert(items[0] == v);
        assert(items.skip(1) =~= tail);
        assert forall|i: int| 0 <= i < tail.len() implies canonical(#[trigger] tail[i]) by {
            assert(tail[i] == items[i + 1]);
        }
        lemma_encode_decode(s);
        lemma_encode_decode_items(after);
        lemma_encode_items_skip(items, 1);
        assert(encode_items(items, 0) == encode_value(v) + encode_items(tail, 0));
        assert(encode_value(v) + encode_items(tail, 0) + seq![101u8] + rest =~= encode_value(v)
            + (encode_items(tail, 0) + seq![101u8] + rest));
    }
}

/// Bytes that decode to entries with canonical values are the entries'
/// encodings in the order in which they stand, the closing `e`, and what
/// decoding left.
pub proof fn lemma_encode_decode_entries(s: Seq<u8>)
    requires
        parse_entries(s) matches Some((entries, rest)) && forall|i: int|
            0 <= i < entries.len() ==> canonical((#[trigger] entries[i]).1),
    ensures
        parse_entries(s) matches Some((entries, rest)) && encode_entries(
            entries,
            Seq::new(entries.len(), |i: int| i),
            0,
        ) + seq![101u8] + rest == s,
    decreases s.len(), 1nat,
{
    let (entries, rest) = parse_entries(s).unwrap();
    let order = Seq::new(entries.len(), |i: int| i);
    if s[0] == 101 {
        assert(encode_entries(entries, order, 0) + seq![101u8] + rest =~= s);
    } else {
        let (key, after_key) = parse_bytes(s).unwrap();
        let (v, after) = parse_value(after_key).unwrap();
        let (tail, end) = parse_entries(after).unwrap();
        let tail_order = Seq::new(tail.len(), |i: int| i);
        assert(entries == seq![(key, v)] + tail);
        assert(entries[0] == (key, v));
        assert(entries.skip(1) =~= tail);
        assert(canonical(entries[0].1));
        assert forall|i: int| 0 <= i < tail.len() implies canonical((#[trigger] tail[i]).1) by {
            assert(tail[i] == entries[i + 1]);
        }
        lemma_bytes_text(s);
        lemma_encode_decode(after_key);
        lemma_encode_decode_entries(after);
        lemma_encode_entries_skip(entries, 1);
        assert(order[0] == 0);
        assert(encode_entries(entries, order, 0) == encode_bytes(key) + encode_value(v)
            + encode_entries(tail, tail_order, 0));
        assert(encode_bytes(key) + encode_value(v) + encode_entries(tail, tail_order, 0)
            + seq![101u8] + rest =~= encode_bytes(key) + (encode_value(v) + (encode_entries(
            tail,
            tail_order,
            0,
        ) + seq![101u8] + rest)));
    }
}

} // verus!
