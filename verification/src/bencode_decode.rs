//! The executable decoder: recursive descent over a slice of bytes.

use crate::bencode::{
    digit_run, digits_value, entry_models, is_digit, lemma_view_dictionary, lemma_view_list, lookup,
    models, parse_bytes, parse_entries, parse_integer, parse_items, parse_value, Bencode,
    BencodeValue, ParseError,
};
use crate::wire::bytes_equal;
use vstd::prelude::*;
use vstd::slice::{slice_subrange, slice_to_vec};

verus! {

/// A run of digits reads the same in a suffix as in the whole.
pub proof fn lemma_digit_run_shift(s: Seq<u8>, pos: int, k: int)
    requires
        0 <= pos <= s.len(),
        0 <= k,
    ensures
        digit_run(s.skip(pos), k) == digit_run(s, pos + k),
    decreases s.len() - pos - k,
{
    if pos + k < s.len() {
        assert(s.skip(pos)[k] == s[pos + k]);
        if is_digit(s[pos + k]) {
            lemma_digit_run_shift(s, pos, k + 1);
        }
    }
}

/// `r` with the items `acc` put before its own.
pub open spec fn items_after(acc: Seq<Bencode>, r: Option<(Seq<Bencode>, Seq<u8>)>) -> Option<
    (Seq<Bencode>, Seq<u8>),
> {
    match r {
        None => None,
        Some((items, rest)) => Some((acc + items, rest)),
    }
}

/// `r` with the entries `acc` put before its own.
pub open spec fn entries_after(
    acc: Seq<(Seq<u8>, Bencode)>,
    r: Option<(Seq<(Seq<u8>, Bencode)>, Seq<u8>)>,
) -> Option<(Seq<(Seq<u8>, Bencode)>, Seq<u8>)> {
    match r {
        None => None,
        Some((entries, rest)) => Some((acc + entries, rest)),
    }
}

/// Reads the digits that stand from `start` on. Gives the position behind
/// the last of them and their value, or `None` for a value above 64 bits.
pub fn scan_digits(input: &[u8], start: usize) -> (r: (usize, Option<u64>))
    requires
        start <= input@.len(),
    ensures
        start <= r.0 <= input@.len(),
        r.0 - start == digit_run(input@, start as int),
        r.1 matches Some(v) ==> v == digits_value(input@.subrange(start as int, r.0 as int)),
        r.1 is None ==> digits_value(input@.subrange(start as int, r.0 as int)) > u64::MAX,
{
    let mut end: usize = start;
    let mut acc: u64 = 0;
    let mut overflow = false;
    proof {
        assert(input@.subrange(start as int, start as int) =~= Seq::<u8>::empty());
    }
    while end < input.len() && 48 <= input[end] && input[end] <= 57
        invariant
            start <= end <= input@.len(),
            digit_run(input@, start as int) == (end - start) + digit_run(input@, end as int),
            !overflow ==> acc == digits_value(input@.subrange(start as int, end as int)),
            overflow ==> digits_value(input@.subrange(start as int, end as int)) > u64::MAX,
        decreases input@.len() - end,
    {
        let d: u64 = (input[end] - 48) as u64;
        proof {
            let longer = input@.subrange(start as int, end + 1);
            assert(longer.drop_last() =~= input@.subrange(start as int, end as int));
            assert(longer.last() == input@[end as int]);
        }
        if !overflow {
            match acc.checked_mul(10) {
                Some(tens) => match tens.checked_add(d) {
                    Some(sum) => {
                        acc = sum;
                    },
                    None => {
                        overflow = true;
                    },
                },
                None => {
                    overflow = true;
                },
            }
        }
        end += 1;
    }
    if overflow {
        (end, None)
    } else {
        (end, Some(acc))
    }
}

/// Decodes the integer that stands at `pos`, behind its opening `i`.
pub fn decode_integer_at(input: &[u8], pos: usize) -> (r: Result<(i64, usize), ParseError>)
    requires
        pos <= input@.len(),
    ensures
        match r {
            Ok((i, next)) => pos < next <= input@.len() && parse_integer(input@.skip(pos as int))
                == Some((Bencode::Integer(i as int), input@.skip(next as int))),
            Err(e) => e == ParseError::Syntax && parse_integer(input@.skip(pos as int)) is None,
        },
{
    let ghost s = input@.skip(pos as int);
    let negative = pos < input.len() && input[pos] == 45;
    let start: usize = if negative { pos + 1 } else { pos };
    let (end, scanned) = scan_digits(input, start);
    proof {
        lemma_digit_run_shift(input@, pos as int, start - pos);
        assert(s.subrange(start - pos, end - pos) =~= input@.subrange(start as int, end as int));
        if end < input@.len() {
            assert(s.skip(end - pos + 1) =~= input@.skip(end + 1));
        }
        if start < input@.len() {
            assert(s[start - pos] == input@[start as int]);
        }
        if end < input@.len() {
            assert(s[end - pos] == input@[end as int]);
        }
    }
    if end == start {
        return Err(ParseError::Syntax);
    }
    if end - start > 1 && input[start] == 48 {
        return Err(ParseError::Syntax);
    }
    if end >= input.len() || input[end] != 101 {
        return Err(ParseError::Syntax);
    }
    match scanned {
        None => Err(ParseError::Syntax),
        Some(magnitude) => {
            if negative {
                if magnitude == 0 || magnitude > 9223372036854775808 {
                    Err(ParseError::Syntax)
                } else if magnitude == 9223372036854775808 {
                    Ok((i64::MIN, end + 1))
                } else {
                    Ok((-(magnitude as i64), end + 1))
                }
            } else if magnitude > 9223372036854775807 {
                Err(ParseError::Syntax)
            } else {
                Ok((magnitude as i64, end + 1))
            }
        },
    }
}

/// Decodes the byte string that stands at `pos`.
pub fn decode_bytes_at(input: &[u8], pos: usize) -> (r: Result<(Vec<u8>, usize), ParseError>)
    requires
        pos <= input@.len(),
    ensures
        match r {
            Ok((b, next)) => pos < next <= input@.len() && parse_bytes(input@.skip(pos as int))
                == Some((b@, input@.skip(next as int))),
            Err(e) => e == ParseError::Syntax && parse_bytes(input@.skip(pos as int)) is None,
        },
{
    let ghost s = input@.skip(pos as int);
    let (end, scanned) = scan_digits(input, pos);
    proof {
        lemma_digit_run_shift(input@, pos as int, 0);
        assert(s.subrange(0, end - pos) =~= input@.subrange(pos as int, end as int));
        if pos < input@.len() {
            assert(s[0] == input@[pos as int]);
        }
        if end < input@.len() {
            assert(s[end - pos] == input@[end as int]);
        }
    }
    if end == pos {
        return Err(ParseError::Syntax);
    }
    if end - pos > 1 && input[pos] == 48 {
        return Err(ParseError::Syntax);
    }
    if end >= input.len() || input[end] != 58 {
        return Err(ParseError::Syntax);
    }
    match scanned {
        None => Err(ParseError::Syntax),
        Some(length) => {
            let left: usize = input.len() - end - 1;
            if length > left as u64 {
                return Err(ParseError::Syntax);
            }
            let from: usize = end + 1;
            let to: usize = from + length as usize;
            let b = slice_to_vec(slice_subrange(input, from, to));
            proof {
                assert(s.subrange(from - pos, to - pos) =~= input@.subrange(
                    from as int,
                    to as int,
                ));
                assert(s.skip(to - pos) =~= input@.skip(to as int));
            }
            Ok((b, to))
        },
    }
}

/// Decodes the value that stands at `pos`, and says where the next one starts.
pub fn decode_at(input: &[u8], pos: usize) -> (r: Result<(BencodeValue, usize), ParseError>)
    requires
        pos <= input@.len(),
    ensures
        match r {
            Ok((v, next)) => pos < next <= input@.len() && parse_value(input@.skip(pos as int))
                == Some((v@, input@.skip(next as int))),
            Err(e) => e == ParseError::Syntax && parse_value(input@.skip(pos as int)) is None,
        },
    decreases input@.len() - pos,
{
    let ghost s = input@.skip(pos as int);
    if pos >= input.len() {
        return Err(ParseError::Syntax);
    }
    let first = input[pos];
    proof {
        assert(s[0] == first);
        assert(s.skip(1) =~= input@.skip(pos + 1));
    }
    if first == 105 {
        match decode_integer_at(input, pos + 1) {
            Ok((i, next)) => Ok((BencodeValue::Integer(i), next)),
            Err(_) => Err(ParseError::Syntax),
        }
    } else if first == 108 {
        let mut items: Vec<BencodeValue> = Vec::new();
        let mut cur: usize = pos + 1;
        proof {
            assert(models(items@) =~= Seq::<Bencode>::empty());
            let whole = parse_items(input@.skip(cur as int));
            if let Some((found, rest)) = whole {
                assert(models(items@) + found =~= found);
            }
        }
        loop
            invariant
                pos < cur <= input@.len(),
                items_after(models(items@), parse_items(input@.skip(cur as int))) == parse_items(
                    input@.skip(pos + 1),
                ),
                s == input@.skip(pos as int),
                s.len() > 0,
                s[0] == 108,
                s.skip(1) == input@.skip(pos + 1),
            decreases input@.len() - cur,
        {
            let ghost here = input@.skip(cur as int);
            if cur >= input.len() {
                return Err(ParseError::Syntax);
            }
            proof {
                assert(here[0] == input@[cur as int]);
                assert(here.skip(1) =~= input@.skip(cur + 1));
            }
            if input[cur] == 101 {
                proof {
                    lemma_view_list(items);
                    assert(models(items@) + Seq::<Bencode>::empty() =~= models(items@));
                }
                return Ok((BencodeValue::List(items), cur + 1));
            }
            match decode_at(input, cur) {
                Err(_) => {
                    return Err(ParseError::Syntax);
                },
                Ok((v, next)) => {
                    proof {
                        let tail = parse_items(input@.skip(next as int));
                        assert(parse_items(here) == items_after(seq![v@], tail));
                        assert(models(items@.push(v)) =~= models(items@).push(v@));
                        if let Some((found, rest)) = tail {
                            assert(models(items@) + (seq![v@] + found) =~= models(items@).push(v@)
                                + found);
                        }
                    }
                    items.push(v);
                    cur = next;
                },
            }
        }
    } else if first == 100 {
        let mut entries: Vec<(Vec<u8>, BencodeValue)> = Vec::new();
        let mut cur: usize = pos + 1;
        proof {
            assert(entry_models(entries@) =~= Seq::<(Seq<u8>, Bencode)>::empty());
            let whole = parse_entries(input@.skip(cur as int));
            if let Some((found, rest)) = whole {
                assert(entry_models(entries@) + found =~= found);
            }
        }
        loop
            invariant
                pos < cur <= input@.len(),
                entries_after(entry_models(entries@), parse_entries(input@.skip(cur as int)))
                    == parse_entries(input@.skip(pos + 1)),
                s == input@.skip(pos as int),
                s.len() > 0,
                s[0] == 100,
                s.skip(1) == input@.skip(pos + 1),
            decreases input@.len() - cur,
        {
            let ghost here = input@.skip(cur as int);
            if cur >= input.len() {
                return Err(ParseError::Syntax);
            }
            proof {
                assert(here[0] == input@[cur as int]);
                assert(here.skip(1) =~= input@.skip(cur + 1));
            }
            if input[cur] == 101 {
                proof {
                    lemma_view_dictionary(entries);
                    assert(entry_models(entries@) + Seq::<(Seq<u8>, Bencode)>::empty()
                        =~= entry_models(entries@));
                }
                return Ok((BencodeValue::Dictionary(entries), cur + 1));
            }
            match decode_bytes_at(input, cur) {
                Err(_) => {
                    return Err(ParseError::Syntax);
                },
                Ok((key, after_key)) => {
                    match decode_at(input, after_key) {
                        Err(_) => {
                            return Err(ParseError::Syntax);
                        },
                        Ok((v, next)) => {
                            proof {
                                let tail = parse_entries(input@.skip(next as int));
                                assert(parse_entries(here) == entries_after(
                                    seq![(key@, v@)],
                                    tail,
                                ));
                                assert(entry_models(entries@.push((key, v))) =~= entry_models(
                                    entries@,
                                ).push((key@, v@)));
                                if let Some((found, rest)) = tail {
                                    assert(entry_models(entries@) + (seq![(key@, v@)] + found)
                                        =~= entry_models(entries@).push((key@, v@)) + found);
                                }
                            }
                            entries.push((key, v));
                            cur = next;
                        },
                    }
                },
            }
        }
    } else {
        match decode_bytes_at(input, pos) {
            Ok((b, next)) => Ok((BencodeValue::ByteString(b), next)),
            Err(_) => Err(ParseError::Syntax),
        }
    }
}

/// The position of the first entry whose key is `key`.
pub fn find_entry(entries: &Vec<(Vec<u8>, BencodeValue)>, key: &[u8]) -> (r: Option<usize>)
    ensures
        match r {
            Some(at) => at < entries@.len() && entries@[at as int].0@ == key@ && lookup(
                entry_models(entries@),
                key@,
                0,
            ) == Some(entries@[at as int].1@),
            None => lookup(entry_models(entries@), key@, 0) is None,
        },
{
    let mut at: usize = 0;
    while at < entries.len()
        invariant
            at <= entries@.len(),
            lookup(entry_models(entries@), key@, 0) == lookup(
                entry_models(entries@),
                key@,
                at as int,
            ),
        decreases entries@.len() - at,
    {
        assert(entry_models(entries@)[at as int] == (entries@[at as int].0@, entries@[at as int].1@));
        if bytes_equal(entries[at].0.as_slice(), key) {
            return Some(at);
        }
        at += 1;
    }
    None
}

/// Decodes the value at the head of `input` and hands back what follows it.
///
/// Succeeds exactly when `input` begins with the encoding of a value whose
/// integers fit in 64 bits.
pub fn decode<'a>(input: &'a [u8]) -> (r: Result<(BencodeValue, &'a [u8]), ParseError>)
    ensures
        match r {
            Ok((v, rest)) => parse_value(input@) == Some((v@, rest@)),
            Err(e) => e == ParseError::Syntax && parse_value(input@) is None,
        },
{
    proof {
        assert(input@.skip(0) =~= input@);
    }
    match decode_at(input, 0) {
        Ok((v, next)) => {
            let rest = slice_subrange(input, next, input.len());
            proof {
                assert(rest@ =~= input@.skip(next as int));
            }
            Ok((v, rest))
        },
        Err(_) => Err(ParseError::Syntax),
    }
}

} // verus!
