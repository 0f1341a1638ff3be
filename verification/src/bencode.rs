//! Bencode values and what their encoding is.
//!
//! A value is an integer, a byte string, a list of values or a dictionary from
//! byte strings to values. This file holds the executable type, its
//! mathematical model and the functions that say, over the model, which bytes
//! encode a value and which value a run of bytes decodes to.

use vstd::prelude::*;
use vstd::slice::slice_to_vec;

verus! {

/// A bencode value as the program holds it. A dictionary keeps its entries in
/// the order in which they were put in; encoding emits them sorted by key.
#[derive(Debug, PartialEq, Eq)]
pub enum BencodeValue {
    Integer(i64),
    ByteString(Vec<u8>),
    List(Vec<BencodeValue>),
    Dictionary(Vec<(Vec<u8>, BencodeValue)>),
}

/// A bencode value as mathematics sees it.
pub enum Bencode {
    Integer(int),
    ByteString(Seq<u8>),
    List(Seq<Bencode>),
    Dictionary(Seq<(Seq<u8>, Bencode)>),
}

/// The mathematical value that an executable value stands for.
pub open spec fn model_of(v: BencodeValue) -> Bencode
    decreases v,
{
    match v {
        BencodeValue::Integer(i) => Bencode::Integer(i as int),
        BencodeValue::ByteString(b) => Bencode::ByteString(b@),
        BencodeValue::List(items) => Bencode::List(
            Seq::new(
                items@.len(),
                |i: int|
                    if 0 <= i < items@.len() {
                        model_of(items@[i])
                    } else {
                        Bencode::Integer(0)
                    },
            ),
        ),
        BencodeValue::Dictionary(entries) => Bencode::Dictionary(
            Seq::new(
                entries@.len(),
                |i: int|
                    if 0 <= i < entries@.len() {
                        (entries@[i].0@, model_of(entries@[i].1))
                    } else {
                        (Seq::empty(), Bencode::Integer(0))
                    },
            ),
        ),
    }
}

impl View for BencodeValue {
    type V = Bencode;

    open spec fn view(&self) -> Bencode {
        model_of(*self)
    }
}

/// The models of a run of values, in order.
pub open spec fn models(items: Seq<BencodeValue>) -> Seq<Bencode> {
    Seq::new(items.len(), |i: int| model_of(items[i]))
}

/// The models of a run of dictionary entries, in order: each key's bytes with
/// the model of its value.
pub open spec fn entry_models(entries: Seq<(Vec<u8>, BencodeValue)>) -> Seq<(Seq<u8>, Bencode)> {
    Seq::new(entries.len(), |i: int| (entries[i].0@, model_of(entries[i].1)))
}

/// The model of a list holds the models of its items, in order.
pub proof fn lemma_view_list(items: Vec<BencodeValue>)
    ensures
        BencodeValue::List(items)@ == Bencode::List(models(items@)),
{
    assert(BencodeValue::List(items)@->List_0 =~= models(items@));
}

/// The model of a dictionary holds the models of its entries, in order.
pub proof fn lemma_view_dictionary(entries: Vec<(Vec<u8>, BencodeValue)>)
    ensures
        BencodeValue::Dictionary(entries)@ == Bencode::Dictionary(entry_models(entries@)),
{
    assert(BencodeValue::Dictionary(entries)@->Dictionary_0 =~= entry_models(entries@));
}

impl Clone for BencodeValue {
    /// A copy that stands for the same mathematical value.
    fn clone(&self) -> (res: Self)
        ensures
            res@ == self@,
    {
        duplicate(self)
    }
}

/// A copy of `v` that stands for the same mathematical value.
pub fn duplicate(v: &BencodeValue) -> (res: BencodeValue)
    ensures
        res@ == v@,
    decreases v,
{
    match v {
        BencodeValue::Integer(i) => BencodeValue::Integer(*i),
        BencodeValue::ByteString(b) => BencodeValue::ByteString(slice_to_vec(b.as_slice())),
        BencodeValue::List(items) => {
            let mut copies: Vec<BencodeValue> = Vec::new();
            let mut k: usize = 0;
            while k < items.len()
                invariant
                    k <= items@.len(),
                    v == BencodeValue::List(*items),
                    copies@.len() == k,
                    forall|i: int| 0 <= i < k ==> (#[trigger] copies@[i])@ == items@[i]@,
                decreases items@.len() - k,
            {
                assert(decreases_to!(v => v->List_0));
                assert(decreases_to!(*items => items[k as int]));
                copies.push(duplicate(&items[k]));
                k += 1;
            }
            proof {
                lemma_view_list(*items);
                lemma_view_list(copies);
                assert(models(copies@) =~= models(items@));
            }
            BencodeValue::List(copies)
        },
        BencodeValue::Dictionary(entries) => {
            let mut copies: Vec<(Vec<u8>, BencodeValue)> = Vec::new();
            let mut k: usize = 0;
            while k < entries.len()
                invariant
                    k <= entries@.len(),
                    v == BencodeValue::Dictionary(*entries),
                    copies@.len() == k,
                    forall|i: int|
                        0 <= i < k ==> (#[trigger] copies@[i]).0@ == entries@[i].0@
                            && copies@[i].1@ == entries@[i].1@,
                decreases entries@.len() - k,
            {
                let key = slice_to_vec(entries[k].0.as_slice());
                assert(decreases_to!(v => v->Dictionary_0));
                assert(decreases_to!(*entries => entries[k as int]));
                assert(decreases_to!(entries[k as int] => entries[k as int].1));
                let value = duplicate(&entries[k].1);
                copies.push((key, value));
                k += 1;
            }
            proof {
                lemma_view_dictionary(*entries);
                lemma_view_dictionary(copies);
                assert(entry_models(copies@) =~= entry_models(entries@));
            }
            BencodeValue::Dictionary(copies)
        },
    }
}

/// Why bytes were refused.
#[derive(Debug, Clone, Copy, PartialEq, Eq, Structural)]
pub enum ParseError {
    /// The bytes are not the encoding of a bencode value.
    Syntax,
    /// The bytes encode a value, but not one of the expected shape.
    Schema,
}

/// The decimal digits of `n`, most significant first, without leading zeros.
pub open spec fn digits(n: nat) -> Seq<u8>
    decreases n,
{
    if n < 10 {
        seq![(48 + n) as u8]
    } else {
        digits(n / 10).push((48 + n % 10) as u8)
    }
}

/// The decimal text of an integer: a minus sign before a negative one.
pub open spec fn int_text(i: int) -> Seq<u8> {
    if i < 0 {
        seq![45u8] + digits((-i) as nat)
    } else {
        digits(i as nat)
    }
}

/// `a` comes before `b`, or equals it, in the order of byte strings: the first
/// byte that differs decides, and a prefix comes before what it is a prefix of.
pub open spec fn bytes_le(a: Seq<u8>, b: Seq<u8>) -> bool {
    bytes_le_from(a, b, 0)
}

/// `bytes_le` on what is left of `a` and `b` from position `at` on.
pub open spec fn bytes_le_from(a: Seq<u8>, b: Seq<u8>, at: int) -> bool
    decreases a.len() - at,
{
    if at < 0 || at >= a.len() {
        true
    } else if at >= b.len() {
        false
    } else if a[at] != b[at] {
        a[at] < b[at]
    } else {
        bytes_le_from(a, b, at + 1)
    }
}

/// The keys of a dictionary's entries, in the entries' order.
pub open spec fn keys_of(entries: Seq<(Seq<u8>, Bencode)>) -> Seq<Seq<u8>> {
    Seq::new(entries.len(), |i: int| entries[i].0)
}

/// `order` with the index `j` put in after the last index whose key is not
/// greater than the key at `j`.
pub open spec fn insert_by_key(keys: Seq<Seq<u8>>, order: Seq<int>, j: int) -> Seq<int>
    decreases order.len(),
{
    if order.len() == 0 {
        seq![j]
    } else if bytes_le(keys[order.last()], keys[j]) {
        order.push(j)
    } else {
        insert_by_key(keys, order.drop_last(), j).push(order.last())
    }
}

/// The indices of the first `n` keys, arranged so that the keys come in
/// ascending order; equal keys keep the order they had.
pub open spec fn sorted_order(keys: Seq<Seq<u8>>, n: nat) -> Seq<int>
    decreases n,
{
    if n == 0 {
        Seq::empty()
    } else {
        insert_by_key(keys, sorted_order(keys, (n - 1) as nat), n - 1)
    }
}

/// The encoding of a byte string: its length in decimal, a colon, the bytes.
pub open spec fn encode_bytes(b: Seq<u8>) -> Seq<u8> {
    digits(b.len()) + seq![58u8] + b
}

/// The encoding of a value.
///
/// An integer is `i`, its decimal text, `e`. A list is `l`, its items, `e`.
/// A dictionary is `d`, its entries with their keys in ascending order, `e`.
pub open spec fn encode_value(v: Bencode) -> Seq<u8>
    decreases v, 0nat,
{
    match v {
        Bencode::Integer(i) => seq![105u8] + int_text(i) + seq![101u8],
        Bencode::ByteString(b) => encode_bytes(b),
        Bencode::List(items) => seq![108u8] + encode_items(items, 0) + seq![101u8],
        Bencode::Dictionary(entries) => seq![100u8] + encode_entries(
            entries,
            sorted_order(keys_of(entries), entries.len()),
            0,
        ) + seq![101u8],
    }
}

/// The encodings of the items from position `from` on, one after the other.
pub open spec fn encode_items(items: Seq<Bencode>, from: int) -> Seq<u8>
    decreases items, items.len() - from,
{
    if from < 0 || from >= items.len() {
        Seq::empty()
    } else {
        encode_value(items[from]) + encode_items(items, from + 1)
    }
}

/// The encodings of the entries that `order` names from position `from` on:
/// each is the key as a byte string, then the value.
pub open spec fn encode_entries(
    entries: Seq<(Seq<u8>, Bencode)>,
    order: Seq<int>,
    from: int,
) -> Seq<u8>
    decreases entries, order.len() - from,
{
    if from < 0 || from >= order.len() {
        Seq::empty()
    } else if 0 <= order[from] < entries.len() {
        encode_bytes(entries[order[from]].0) + encode_value(entries[order[from]].1)
            + encode_entries(entries, order, from + 1)
    } else {
        encode_entries(entries, order, from + 1)
    }
}

/// Whether a byte is a decimal digit.
pub open spec fn is_digit(b: u8) -> bool {
    48 <= b <= 57
}

/// How many digits stand in `s` from position `from` on, without a gap.
pub open spec fn digit_run(s: Seq<u8>, from: int) -> int
    decreases s.len() - from,
{
    if 0 <= from < s.len() && is_digit(s[from]) {
        1 + digit_run(s, from + 1)
    } else {
        0
    }
}

/// The number that a run of digits denotes.
pub open spec fn digits_value(t: Seq<u8>) -> nat
    decreases t.len(),
{
    if t.len() == 0 {
        0
    } else {
        digits_value(t.drop_last()) * 10 + (t.last() - 48) as nat
    }
}

/// The integer that stands at the head of `s`, behind the `i` that opened it,
/// and what follows its closing `e`.
///
/// The text is an optional minus sign and at least one digit. A leading zero
/// is accepted only as the whole of `0`, `-0` is not accepted, and the number
/// has to fit in 64 bits with a sign.
pub open spec fn parse_integer(s: Seq<u8>) -> Option<(Bencode, Seq<u8>)> {
    let negative = s.len() > 0 && s[0] == 45;
    let start: int = if negative { 1 } else { 0 };
    let run = digit_run(s, start);
    let magnitude = digits_value(s.subrange(start, start + run));
    let value: int = if negative { -magnitude } else { magnitude as int };
    if run == 0 || (run > 1 && s[start] == 48) || (negative && magnitude == 0) {
        None
    } else if start + run >= s.len() || s[start + run] != 101 {
        None
    } else if value < i64::MIN || value > i64::MAX {
        None
    } else {
        Some((Bencode::Integer(value), s.skip(start + run + 1)))
    }
}

/// The byte string that stands at the head of `s`, and what follows it.
///
/// The length is at least one digit, with a leading zero only as the whole of
/// `0`; a colon follows, and then as many bytes as the length says.
pub open spec fn parse_bytes(s: Seq<u8>) -> Option<(Seq<u8>, Seq<u8>)> {
    let run = digit_run(s, 0);
    let length = digits_value(s.subrange(0, run));
    if run == 0 || (run > 1 && s[0] == 48) {
        None
    } else if run >= s.len() || s[run] != 58 {
        None
    } else if run + 1 + length > s.len() {
        None
    } else {
        Some((s.subrange(run + 1, run + 1 + length), s.skip(run + 1 + length)))
    }
}

/// The value that stands at the head of `s`, and what follows it; `None` where
/// `s` does not begin with the encoding of a value.
///
/// The first byte decides: `i` opens an integer, `l` a list, `d` a dictionary
/// and a digit a byte string.
pub open spec fn parse_value(s: Seq<u8>) -> Option<(Bencode, Seq<u8>)>
    decreases s.len(), 0nat,
{
    if s.len() == 0 {
        None
    } else if s[0] == 105 {
        parse_integer(s.skip(1))
    } else if s[0] == 108 {
        match parse_items(s.skip(1)) {
            Some((items, rest)) => Some((Bencode::List(items), rest)),
            None => None,
        }
    } else if s[0] == 100 {
        match parse_entries(s.skip(1)) {
            Some((entries, rest)) => Some((Bencode::Dictionary(entries), rest)),
            None => None,
        }
    } else {
        match parse_bytes(s) {
            Some((b, rest)) => Some((Bencode::ByteString(b), rest)),
            None => None,
        }
    }
}

/// The items of a list up to its closing `e`, and what follows the `e`.
pub open spec fn parse_items(s: Seq<u8>) -> Option<(Seq<Bencode>, Seq<u8>)>
    decreases s.len(), 1nat,
{
    if s.len() == 0 {
        None
    } else if s[0] == 101 {
        Some((Seq::empty(), s.skip(1)))
    } else {
        match parse_value(s) {
            None => None,
            Some((v, rest)) => if rest.len() >= s.len() {
                None
            } else {
                match parse_items(rest) {
                    None => None,
                    Some((items, after)) => Some((seq![v] + items, after)),
                }
            },
        }
    }
}

/// The entries of a dictionary up to its closing `e`, in the order in which
/// they stand, and what follows the `e`. Each key has to be a byte string.
pub open spec fn parse_entries(s: Seq<u8>) -> Option<(Seq<(Seq<u8>, Bencode)>, Seq<u8>)>
    decreases s.len(), 1nat,
{
    if s.len() == 0 {
        None
    } else if s[0] == 101 {
        Some((Seq::empty(), s.skip(1)))
    } else {
        match parse_bytes(s) {
            None => None,
            Some((key, after_key)) => if after_key.len() >= s.len() {
                None
            } else {
                match parse_value(after_key) {
                    None => None,
                    Some((v, rest)) => if rest.len() >= after_key.len() {
                        None
                    } else {
                        match parse_entries(rest) {
                            None => None,
                            Some((entries, after)) => Some((seq![(key, v)] + entries, after)),
                        }
                    },
                }
            },
        }
    }
}

/// The value of the first entry from position `from` on whose key is `key`.
pub open spec fn lookup(entries: Seq<(Seq<u8>, Bencode)>, key: Seq<u8>, from: int) -> Option<
    Bencode,
>
    decreases entries.len() - from,
{
    if from < 0 || from >= entries.len() {
        None
    } else if entries[from].0 == key {
        Some(entries[from].1)
    } else {
        lookup(entries, key, from + 1)
    }
}

/// A value is canonical when encoding it loses nothing: every integer fits
/// in 64 bits with a sign, and in every dictionary each key is greater than
/// the key before it, so that no key occurs twice.
pub open spec fn canonical(v: Bencode) -> bool
    decreases v,
{
    match v {
        Bencode::Integer(i) => i64::MIN <= i <= i64::MAX,
        Bencode::ByteString(b) => true,
        Bencode::List(items) => forall|i: int|
            0 <= i < items.len() ==> canonical(#[trigger] items[i]),
        Bencode::Dictionary(entries) => {
            &&& forall|i: int| 0 <= i < entries.len() ==> canonical((#[trigger] entries[i]).1)
            &&& ascending_keys(keys_of(entries))
        },
    }
}

/// Whether every integer in a value fits in 64 bits with a sign, as every
/// integer of an executable value does.
pub open spec fn integers_fit(v: Bencode) -> bool
    decreases v,
{
    match v {
        Bencode::Integer(i) => i64::MIN <= i <= i64::MAX,
        Bencode::ByteString(b) => true,
        Bencode::List(items) => forall|i: int|
            0 <= i < items.len() ==> integers_fit(#[trigger] items[i]),
        Bencode::Dictionary(entries) => forall|i: int|
            0 <= i < entries.len() ==> integers_fit((#[trigger] entries[i]).1),
    }
}

/// The value with the entries of every dictionary arranged as they are
/// encoded: by ascending key.
pub open spec fn normalize(v: Bencode) -> Bencode
    decreases v,
{
    match v {
        Bencode::Integer(i) => v,
        Bencode::ByteString(b) => v,
        Bencode::List(items) => Bencode::List(
            Seq::new(
                items.len(),
                |i: int|
                    if 0 <= i < items.len() {
                        normalize(items[i])
                    } else {
                        v
                    },
            ),
        ),
        Bencode::Dictionary(entries) => {
            let order = sorted_order(keys_of(entries), entries.len());
            Bencode::Dictionary(
                Seq::new(
                    order.len(),
                    |k: int|
                        if 0 <= k < order.len() && 0 <= order[k] < entries.len() {
                            (entries[order[k]].0, normalize(entries[order[k]].1))
                        } else {
                            (Seq::empty(), v)
                        },
                ),
            )
        },
    }
}

/// Each key is greater than the one before it.
pub open spec fn ascending_keys(keys: Seq<Seq<u8>>) -> bool {
    forall|i: int|
        0 <= i < keys.len() - 1 ==> bytes_le(#[trigger] keys[i], keys[i + 1]) && keys[i] != keys[i
            + 1]
}

} // verus!
