//! Laws of the metainfo model: what is read out of an `info` dictionary and
//! written back is, as bytes, the dictionary that was read.

use crate::bencode::{
    ascending_keys, bytes_le, canonical, encode_items, encode_value, integers_fit, keys_of, lookup,
    normalize, parse_value, sorted_order, Bencode,
};
use crate::bencode_inverse::lemma_encode_decode;
use crate::bencode_laws::{lemma_model_integers_fit, lemma_sorted_order_sorts};
use crate::bencode_order::{
    alike, distinct_keys, lemma_bytes_le_antisymmetric, lemma_bytes_le_transitive,
    lemma_encoding_ignores_stored_order, lemma_lookup_found, lemma_lookup_of_entry,
};
use crate::hash::{digests_flat, sha1_digest};
use crate::metainfo::{
    all_unknown, cut_digests, extra_entries, file_bencode, file_of, file_well_formed, files_of,
    info_bencode, info_of, info_well_formed, is_known_key, key_files, key_length, key_name,
    key_path, key_piece_length, key_pieces, layout_entry, lemma_extra_entries_unknown, path_of,
    FileModel, Info, InfoModel, Keys, KeysModel,
};
use crate::metainfo_encode::info_digest;
use vstd::prelude::*;
use vstd::utf8::valid_utf8;

verus! {

/// The info-hash is a function of the record: two records that are the same
/// to mathematics have the same info-hash, whatever copies were made and in
/// whatever way the records are laid out in memory.
pub proof fn lemma_info_hash_deterministic(a: InfoModel, b: InfoModel)
    requires
        a == b,
    ensures
        info_digest(a) == info_digest(b),
{
}

/// Keys of which each is greater than the one before are all different.
pub proof fn lemma_ascending_keys_distinct(keys: Seq<Seq<u8>>)
    requires
        ascending_keys(keys),
    ensures
        distinct_keys(keys),
{
    assert forall|i: int, j: int| 0 <= i < j < keys.len() implies #[trigger] keys[i]
        != #[trigger] keys[j] by {
        lemma_ascends_to(keys, i + 1, j);
        if keys[i] == keys[j] {
            assert(bytes_le(keys[i], keys[i + 1]));
            lemma_bytes_le_antisymmetric(keys[i], keys[i + 1]);
        }
    }
}

proof fn lemma_ascends_to(keys: Seq<Seq<u8>>, i: int, j: int)
    requires
        ascending_keys(keys),
        0 <= i <= j < keys.len(),
    ensures
        bytes_le(keys[i], keys[j]),
    decreases j - i,
{
    if i == j {
        crate::bencode_laws::lemma_bytes_le_total(keys[i], keys[i]);
    } else {
        lemma_ascends_to(keys, i, j - 1);
        assert(bytes_le(keys[j - 1], keys[j - 1 + 1]));
        lemma_bytes_le_transitive(keys[i], keys[j - 1], keys[j]);
    }
}

/// Looking up behind the entries that were put in front is looking up in
/// what follows them.
proof fn lemma_lookup_behind(
    front: Seq<(Seq<u8>, Bencode)>,
    back: Seq<(Seq<u8>, Bencode)>,
    key: Seq<u8>,
    at: int,
)
    requires
        0 <= at,
    ensures
        lookup(front + back, key, front.len() + at) == lookup(back, key, at),
    decreases back.len() - at,
{
    if at < back.len() {
        assert((front + back)[front.len() + at] == back[at]);
        lemma_lookup_behind(front, back, key, at + 1);
    }
}

/// A key that is not in front is looked up in what follows.
proof fn lemma_lookup_past(
    front: Seq<(Seq<u8>, Bencode)>,
    back: Seq<(Seq<u8>, Bencode)>,
    key: Seq<u8>,
    from: int,
)
    requires
        0 <= from <= front.len(),
        forall|i: int| 0 <= i < front.len() ==> (#[trigger] front[i]).0 != key,
    ensures
        lookup(front + back, key, from) == lookup(back, key, 0),
    decreases front.len() - from,
{
    if from < front.len() {
        assert((front + back)[from] == front[from]);
        lemma_lookup_past(front, back, key, from + 1);
    } else {
        lemma_lookup_behind(front, back, key, 0);
    }
}

/// Under a key without a field of its own, the entries that were kept aside
/// hold what the dictionary held.
proof fn lemma_lookup_in_extra(
    entries: Seq<(Seq<u8>, Bencode)>,
    in_file: bool,
    key: Seq<u8>,
    from: int,
)
    requires
        0 <= from,
        !is_known_key(key, in_file),
    ensures
        lookup(extra_entries(entries, in_file, from), key, 0) == lookup(entries, key, from),
    decreases entries.len() - from,
{
    if from < entries.len() {
        lemma_lookup_in_extra(entries, in_file, key, from + 1);
        let tail = extra_entries(entries, in_file, from + 1);
        if !is_known_key(entries[from].0, in_file) {
            let head = seq![entries[from]];
            assert(extra_entries(entries, in_file, from) == head + tail);
            assert((head + tail)[0] == entries[from]);
            if entries[from].0 != key {
                lemma_lookup_behind(head, tail, key, 0);
            }
        }
    }
}

/// The entries that were kept aside stand in the dictionary, and no key
/// occurs twice in them where none did in the dictionary.
proof fn lemma_extra_distinct(entries: Seq<(Seq<u8>, Bencode)>, in_file: bool, from: int)
    requires
        0 <= from,
        distinct_keys(keys_of(entries)),
    ensures
        distinct_keys(keys_of(extra_entries(entries, in_file, from))),
        forall|t: int|
            0 <= t < extra_entries(entries, in_file, from).len() ==> exists|x: int|
                from <= x < entries.len() && #[trigger] entries[x] == (
                #[trigger] extra_entries(entries, in_file, from)[t]),
    decreases entries.len() - from,
{
    let all = extra_entries(entries, in_file, from);
    if from < entries.len() {
        lemma_extra_distinct(entries, in_file, from + 1);
        let tail = extra_entries(entries, in_file, from + 1);
        if !is_known_key(entries[from].0, in_file) {
            assert(all == seq![entries[from]] + tail);
            assert forall|t: int| 0 <= t < all.len() implies exists|x: int|
                from <= x < entries.len() && #[trigger] entries[x] == (#[trigger] all[t]) by {
                if t == 0 {
                    assert(entries[from] == all[0]);
                } else {
                    assert(all[t] == tail[t - 1]);
                    let x = choose|x: int|
                        from + 1 <= x < entries.len() && #[trigger] entries[x] == tail[t - 1];
                    assert(entries[x] == all[t]);
                }
            }
            assert forall|i: int, j: int| 0 <= i < j < all.len() implies #[trigger] keys_of(
                all,
            )[i] != #[trigger] keys_of(all)[j] by {
                assert(all[j] == tail[j - 1]);
                if i == 0 {
                    let x = choose|x: int|
                        from + 1 <= x < entries.len() && #[trigger] entries[x] == tail[j - 1];
                    assert(keys_of(entries)[from] != keys_of(entries)[x]);
                } else {
                    assert(all[i] == tail[i - 1]);
                    assert(keys_of(tail)[i - 1] != keys_of(tail)[j - 1]);
                }
            }
        } else {
            assert forall|t: int| 0 <= t < all.len() implies exists|x: int|
                from <= x < entries.len() && #[trigger] entries[x] == (#[trigger] all[t]) by {
                let x = choose|x: int|
                    from + 1 <= x < entries.len() && #[trigger] entries[x] == tail[t];
                assert(entries[x] == all[t]);
            }
        }
    }
}

/// A dictionary is encoded like the one that is made of its entries with a
/// field of their own, put in front in any order and with values that are
/// encoded alike, and behind them its other entries.
proof fn lemma_front_and_extra(
    entries: Seq<(Seq<u8>, Bencode)>,
    front: Seq<(Seq<u8>, Bencode)>,
    in_file: bool,
)
    requires
        distinct_keys(keys_of(entries)),
        distinct_keys(keys_of(front)),
        forall|i: int|
            0 <= i < front.len() ==> is_known_key((#[trigger] front[i]).0, in_file) && alike(
                Some(front[i].1),
                lookup(entries, front[i].0, 0),
            ),
        forall|key: Seq<u8>|
            is_known_key(key, in_file) && (#[trigger] lookup(entries, key, 0)) is Some
                ==> exists|i: int| 0 <= i < front.len() && (#[trigger] front[i]).0 == key,
    ensures
        encode_value(Bencode::Dictionary(front + extra_entries(entries, in_file, 0)))
            == encode_value(Bencode::Dictionary(entries)),
{
    let extra = extra_entries(entries, in_file, 0);
    let second = front + extra;
    lemma_extra_distinct(entries, in_file, 0);
    lemma_extra_entries_unknown(entries, in_file, 0);
    assert forall|i: int, j: int| 0 <= i < j < second.len() implies #[trigger] keys_of(second)[i]
        != #[trigger] keys_of(second)[j] by {
        if j < front.len() {
            assert(keys_of(front)[i] != keys_of(front)[j]);
        } else if i < front.len() {
            assert(second[i] == front[i]);
            assert(second[j] == extra[j - front.len()]);
            assert(!is_known_key(extra[j - front.len()].0, in_file));
        } else {
            assert(second[i] == extra[i - front.len()]);
            assert(second[j] == extra[j - front.len()]);
            assert(keys_of(extra)[i - front.len()] != keys_of(extra)[j - front.len()]);
        }
    }
    assert forall|key: Seq<u8>| alike(#[trigger] lookup(second, key, 0), lookup(entries, key, 0)) by {
        if exists|i: int| 0 <= i < front.len() && (#[trigger] front[i]).0 == key {
            let i = choose|i: int| 0 <= i < front.len() && (#[trigger] front[i]).0 == key;
            assert(second[i] == front[i]);
            lemma_lookup_of_entry(second, i, 0);
        } else {
            lemma_lookup_past(front, extra, key, 0);
            if is_known_key(key, in_file) {
                lemma_lookup_found(extra, key, 0);
                if lookup(extra, key, 0) is Some {
                    let x = choose|x: int|
                        0 <= x < extra.len() && (#[trigger] extra[x]).0 == key && extra[x].1
                            == lookup(extra, key, 0)->Some_0;
                    assert(!is_known_key(extra[x].0, in_file));
                }
            } else {
                lemma_lookup_in_extra(entries, in_file, key, 0);
            }
        }
    }
    lemma_encoding_ignores_stored_order(second, entries);
}

/// What `lookup` finds in a canonical dictionary is canonical.
proof fn lemma_lookup_canonical(entries: Seq<(Seq<u8>, Bencode)>, key: Seq<u8>)
    requires
        canonical(Bencode::Dictionary(entries)),
    ensures
        lookup(entries, key, 0) matches Some(v) ==> canonical(v),
{
    lemma_lookup_found(entries, key, 0);
    if let Some(v) = lookup(entries, key, 0) {
        let x = choose|x: int|
            0 <= x < entries.len() && (#[trigger] entries[x]).0 == key && entries[x].1 == v;
        assert(canonical(entries[x].1));
    }
}

/// The parts that were read are the byte strings that stood in the list.
proof fn lemma_path_exact(parts: Seq<Bencode>, from: int)
    requires
        0 <= from <= parts.len(),
        path_of(parts, from) is Some,
    ensures
        path_of(parts, from)->Some_0.len() == parts.len() - from,
        forall|i: int|
            0 <= i < parts.len() - from ==> parts[from + i] == Bencode::ByteString(
                #[trigger] path_of(parts, from)->Some_0[i],
            ),
    decreases parts.len() - from,
{
    if from < parts.len() {
        lemma_path_exact(parts, from + 1);
        let tail = path_of(parts, from + 1)->Some_0;
        let all = path_of(parts, from)->Some_0;
        assert(all == seq![parts[from]->ByteString_0] + tail);
        assert forall|i: int| 0 <= i < parts.len() - from implies parts[from + i]
            == Bencode::ByteString(#[trigger] all[i]) by {
            if i > 0 {
                assert(all[i] == tail[i - 1]);
            }
        }
    }
}

/// The files that were read are those that the values of the list describe.
proof fn lemma_files_exact(items: Seq<Bencode>, from: int)
    requires
        0 <= from <= items.len(),
        files_of(items, from) is Some,
    ensures
        files_of(items, from)->Some_0.len() == items.len() - from,
        forall|i: int|
            0 <= i < items.len() - from ==> file_of(items[from + i]) == Some(
                #[trigger] files_of(items, from)->Some_0[i],
            ),
    decreases items.len() - from,
{
    if from < items.len() {
        lemma_files_exact(items, from + 1);
        let tail = files_of(items, from + 1)->Some_0;
        let all = files_of(items, from)->Some_0;
        assert(all == seq![file_of(items[from])->Some_0] + tail);
        assert forall|i: int| 0 <= i < items.len() - from implies file_of(items[from + i])
            == Some(#[trigger] all[i]) by {
            if i > 0 {
                assert(all[i] == tail[i - 1]);
            }
        }
    }
}

/// Lists whose items are encoded alike are encoded alike.
proof fn lemma_encode_items_alike(a: Seq<Bencode>, b: Seq<Bencode>, from: int)
    requires
        0 <= from,
        a.len() == b.len(),
        forall|i: int| 0 <= i < a.len() ==> encode_value(#[trigger] a[i]) == encode_value(b[i]),
    ensures
        encode_items(a, from) == encode_items(b, from),
    decreases a.len() - from,
{
    if from < a.len() {
        lemma_encode_items_alike(a, b, from + 1);
    }
}

/// The keys with a field of their own are all different.
proof fn lemma_known_keys_differ()
    ensures
        key_name() != key_piece_length(),
        key_name() != key_pieces(),
        key_name() != key_length(),
        key_name() != key_files(),
        key_name() != key_path(),
        key_piece_length() != key_pieces(),
        key_piece_length() != key_length(),
        key_piece_length() != key_files(),
        key_pieces() != key_length(),
        key_pieces() != key_files(),
        key_length() != key_files(),
        key_length() != key_path(),
{
    assert(key_name().len() == 4 && key_piece_length().len() == 12 && key_pieces().len() == 6
        && key_length().len() == 6 && key_files().len() == 5 && key_path().len() == 4);
    assert(key_name()[0] != key_path()[0]);
    assert(key_pieces()[0] != key_length()[0]);
}

/// The digests that were cut out of flat bytes, laid end to end, are the
/// flat bytes.
pub proof fn lemma_digests_flat_of_cut(flat: Seq<u8>)
    requires
        flat.len() % 20 == 0,
    ensures
        digests_flat(cut_digests(flat)) == flat,
{
    let cut = cut_digests(flat);
    assert(cut.len() * 20 == flat.len());
    assert forall|i: int| 0 <= i < flat.len() implies digests_flat(cut)[i] == flat[i] by {
        let k = i / 20;
        assert(0 <= k < cut.len());
        assert(cut[k] == flat.subrange(20 * k, 20 * k + 20));
        assert(cut[k][i % 20] == flat[20 * k + i % 20]);
    }
    assert(digests_flat(cut) =~= flat);
}

/// A file that is read out of a canonical dictionary and written back is
/// encoded as the dictionary was.
pub proof fn lemma_file_encoding_kept(x: Bencode)
    requires
        canonical(x),
        file_of(x) is Some,
    ensures
        encode_value(file_bencode(file_of(x)->Some_0)) == encode_value(x),
{
    let entries = x->Dictionary_0;
    let file = file_of(x)->Some_0;
    let parts = lookup(entries, key_path(), 0)->Some_0->List_0;
    lemma_path_exact(parts, 0);
    let written = Seq::new(file.path.len(), |i: int| Bencode::ByteString(file.path[i]));
    assert(written =~= parts);
    let front = seq![
        (key_length(), Bencode::Integer(file.length)),
        (key_path(), Bencode::List(written)),
    ];
    lemma_known_keys_differ();
    lemma_ascending_keys_distinct(keys_of(entries));
    assert(front[0].0 == key_length() && front[1].0 == key_path());
    assert forall|key: Seq<u8>|
        is_known_key(key, true) && (#[trigger] lookup(entries, key, 0)) is Some implies exists|
        i: int,
    |
        0 <= i < front.len() && (#[trigger] front[i]).0 == key by {
        if key == key_length() {
            assert(front[0].0 == key);
        } else {
            assert(front[1].0 == key);
        }
    }
    lemma_front_and_extra(entries, front, true);
    assert(file_bencode(file)->Dictionary_0 =~= front + extra_entries(entries, true, 0));
}

/// An `info` record that is read out of a canonical dictionary and written
/// back is encoded as the dictionary was, whatever entries the dictionary
/// held besides those that the record has fields for.
pub proof fn lemma_info_encoding_kept(v: Bencode)
    requires
        canonical(v),
        info_of(v) is Some,
    ensures
        encode_value(info_bencode(info_of(v)->Some_0)) == encode_value(v),
{
    let entries = v->Dictionary_0;
    let info = info_of(v)->Some_0;
    let flat = lookup(entries, key_pieces(), 0)->Some_0->ByteString_0;
    lemma_digests_flat_of_cut(flat);
    lemma_known_keys_differ();
    lemma_ascending_keys_distinct(keys_of(entries));
    let front = seq![
        layout_entry(info.keys),
        (key_name(), Bencode::ByteString(info.name)),
        (key_piece_length(), Bencode::Integer(info.piece_length)),
        (key_pieces(), Bencode::ByteString(digests_flat(info.pieces))),
    ];
    assert(front[1].0 == key_name() && front[2].0 == key_piece_length() && front[3].0
        == key_pieces());
    match info.keys {
        KeysModel::SingleFile { length } => {
            assert(front[0] == (key_length(), Bencode::Integer(length)));
        },
        KeysModel::MultiFile { files } => {
            let items = lookup(entries, key_files(), 0)->Some_0->List_0;
            let written = Seq::new(files.len(), |i: int| file_bencode(files[i]));
            assert(front[0] == (key_files(), Bencode::List(written)));
            lemma_files_exact(items, 0);
            lemma_lookup_canonical(entries, key_files());
            assert forall|i: int| 0 <= i < written.len() implies encode_value(
                #[trigger] written[i],
            ) == encode_value(items[i]) by {
                assert(file_of(items[0 + i]) == Some(files[i]));
                assert(canonical(items[i]));
                lemma_file_encoding_kept(items[i]);
            }
            lemma_encode_items_alike(written, items, 0);
        },
    }
    assert forall|i: int| 0 <= i < front.len() implies is_known_key(
        (#[trigger] front[i]).0,
        false,
    ) && alike(Some(front[i].1), lookup(entries, front[i].0, 0)) by {}
    assert forall|i: int, j: int| 0 <= i < j < front.len() implies #[trigger] keys_of(front)[i]
        != #[trigger] keys_of(front)[j] by {}
    assert forall|key: Seq<u8>|
        is_known_key(key, false) && (#[trigger] lookup(entries, key, 0)) is Some implies exists|
        i: int,
    |
        0 <= i < front.len() && (#[trigger] front[i]).0 == key by {
        if key == key_name() {
            assert(front[1].0 == key);
        } else if key == key_piece_length() {
            assert(front[2].0 == key);
        } else if key == key_pieces() {
            assert(front[3].0 == key);
        } else {
            assert(front[0].0 == key);
        }
    }
    lemma_front_and_extra(entries, front, false);
    assert(info_bencode(info)->Dictionary_0 =~= front + extra_entries(entries, false, 0));
}

/// The info-hash of a record that was read from canonical bytes is the
/// digest of those bytes: of the `info` dictionary as it stood in the file.
pub proof fn lemma_info_hash_of_bytes(s: Seq<u8>)
    requires
        parse_value(s) matches Some((v, rest)) && canonical(v) && info_of(v) is Some,
    ensures
        parse_value(s) matches Some((v, rest)) && rest.len() < s.len() && info_digest(
            info_of(v)->Some_0,
        ) == sha1_digest(s.take(s.len() - rest.len())),
{
    let (v, rest) = parse_value(s).unwrap();
    lemma_encode_decode(s);
    lemma_info_encoding_kept(v);
    assert(s.take(s.len() - rest.len()) =~= encode_value(v));
}

/// A key that stands at one position only is found there.
proof fn lemma_lookup_unique(entries: Seq<(Seq<u8>, Bencode)>, key: Seq<u8>, at: int, from: int)
    requires
        0 <= from <= at < entries.len(),
        entries[at].0 == key,
        forall|x: int| from <= x < at ==> (#[trigger] entries[x]).0 != key,
    ensures
        lookup(entries, key, from) == Some(entries[at].1),
    decreases at - from,
{
    if from < at {
        assert(entries[from].0 != key);
        lemma_lookup_unique(entries, key, at, from + 1);
    }
}

/// Under a key that a dictionary holds once, the sorted dictionary holds the
/// same value, sorted.
proof fn lemma_lookup_normalized(entries: Seq<(Seq<u8>, Bencode)>, key: Seq<u8>, at: int)
    requires
        0 <= at < entries.len(),
        entries[at].0 == key,
        forall|x: int| 0 <= x < entries.len() && x != at ==> (#[trigger] entries[x]).0 != key,
    ensures
        lookup(normalize(Bencode::Dictionary(entries))->Dictionary_0, key, 0) == Some(
            normalize(entries[at].1),
        ),
{
    let order = sorted_order(keys_of(entries), entries.len());
    lemma_sorted_order_sorts(keys_of(entries), entries.len());
    let sorted = normalize(Bencode::Dictionary(entries))->Dictionary_0;
    assert(order.contains(at));
    let k = choose|k: int| 0 <= k < order.len() && order[k] == at;
    assert(sorted[k] == (entries[at].0, normalize(entries[at].1)));
    assert forall|x: int| 0 <= x < k implies (#[trigger] sorted[x]).0 != key by {
        assert(order[x] != order[k]);
        assert(0 <= order[x] < entries.len());
        assert(sorted[x].0 == entries[order[x]].0);
    }
    lemma_lookup_unique(sorted, key, k, 0);
}

/// Under a key that a dictionary does not hold, the sorted dictionary holds
/// nothing.
proof fn lemma_lookup_normalized_absent(entries: Seq<(Seq<u8>, Bencode)>, key: Seq<u8>)
    requires
        forall|x: int| 0 <= x < entries.len() ==> (#[trigger] entries[x]).0 != key,
    ensures
        lookup(normalize(Bencode::Dictionary(entries))->Dictionary_0, key, 0) is None,
{
    let order = sorted_order(keys_of(entries), entries.len());
    lemma_sorted_order_sorts(keys_of(entries), entries.len());
    let sorted = normalize(Bencode::Dictionary(entries))->Dictionary_0;
    lemma_lookup_found(sorted, key, 0);
    if lookup(sorted, key, 0) is Some {
        let x = choose|x: int|
            0 <= x < sorted.len() && (#[trigger] sorted[x]).0 == key && sorted[x].1 == lookup(
                sorted,
                key,
                0,
            )->Some_0;
        assert(0 <= order[x] < entries.len());
        assert(sorted[x].0 == entries[order[x]].0);
    }
}

/// The entries of a file as they are written.
pub open spec fn file_entries(file: FileModel) -> Seq<(Seq<u8>, Bencode)> {
    file_bencode(file)->Dictionary_0
}

/// Files that are written to the same value, but for the order of entries,
/// have the same length and the same path.
proof fn lemma_file_fields(a: FileModel, b: FileModel)
    requires
        all_unknown(a.extra, true),
        all_unknown(b.extra, true),
        normalize(file_bencode(a)) == normalize(file_bencode(b)),
    ensures
        a.length == b.length,
        a.path == b.path,
{
    lemma_known_keys_differ();
    let ea = file_entries(a);
    let eb = file_entries(b);
    let pa = Seq::new(a.path.len(), |i: int| Bencode::ByteString(a.path[i]));
    let pb = Seq::new(b.path.len(), |i: int| Bencode::ByteString(b.path[i]));
    assert(ea[0] == (key_length(), Bencode::Integer(a.length)));
    assert(eb[0] == (key_length(), Bencode::Integer(b.length)));
    assert(ea[1] == (key_path(), Bencode::List(pa)));
    assert(eb[1] == (key_path(), Bencode::List(pb)));
    assert forall|x: int| 2 <= x < ea.len() implies !is_known_key((#[trigger] ea[x]).0, true) by {
        assert(ea[x] == a.extra[x - 2]);
    }
    assert forall|x: int| 2 <= x < eb.len() implies !is_known_key((#[trigger] eb[x]).0, true) by {
        assert(eb[x] == b.extra[x - 2]);
    }
    lemma_lookup_normalized(ea, key_length(), 0);
    lemma_lookup_normalized(eb, key_length(), 0);
    lemma_lookup_normalized(ea, key_path(), 1);
    lemma_lookup_normalized(eb, key_path(), 1);
    assert forall|i: int| 0 <= i < pa.len() implies normalize(#[trigger] pa[i]) == pa[i] by {
        assert(pa[i] == Bencode::ByteString(a.path[i]));
    }
    assert forall|i: int| 0 <= i < pb.len() implies normalize(#[trigger] pb[i]) == pb[i] by {
        assert(pb[i] == Bencode::ByteString(b.path[i]));
    }
    assert(normalize(Bencode::List(pa))->List_0 =~= pa);
    assert(normalize(Bencode::List(pb))->List_0 =~= pb);
    assert(pa == pb);
    assert(a.path.len() == pa.len() && b.path.len() == pb.len());
    assert forall|i: int| 0 <= i < a.path.len() implies a.path[i] == b.path[i] by {
        assert(pa[i] == Bencode::ByteString(a.path[i]));
        assert(pb[i] == Bencode::ByteString(b.path[i]));
    }
    assert(a.path =~= b.path);
}

/// Whether two layouts are of the same kind and agree on every length and on
/// every path.
pub open spec fn same_layout(a: KeysModel, b: KeysModel) -> bool {
    match (a, b) {
        (KeysModel::SingleFile { length: la }, KeysModel::SingleFile { length: lb }) => la == lb,
        (KeysModel::MultiFile { files: fa }, KeysModel::MultiFile { files: fb }) => {
            &&& fa.len() == fb.len()
            &&& forall|i: int|
                0 <= i < fa.len() ==> (#[trigger] fa[i]).length == fb[i].length && fa[i].path
                    == fb[i].path
        },
        _ => false,
    }
}

/// Whether every integer in the entries that a record keeps aside fits in
/// 64 bits with a sign, as it does in every record that the program holds.
pub open spec fn extras_fit(info: InfoModel) -> bool {
    &&& forall|i: int| 0 <= i < info.extra.len() ==> integers_fit((#[trigger] info.extra[i]).1)
    &&& info.keys matches KeysModel::MultiFile { files } ==> forall|i: int, j: int|
        0 <= i < files.len() && 0 <= j < files[i].extra.len() ==> integers_fit(
            (#[trigger] files[i].extra[j]).1,
        )
}

/// What `lemma_hashed_bytes_tell_fields` asks of a record besides its being
/// well formed holds of every record that the program holds.
pub proof fn lemma_info_model_fits(info: Info)
    ensures
        extras_fit(info@),
        forall|i: int| 0 <= i < info@.pieces.len() ==> (#[trigger] info@.pieces[i]).len() == 20,
{
    assert forall|i: int| 0 <= i < info@.extra.len() implies integers_fit(
        (#[trigger] info@.extra[i]).1,
    ) by {
        lemma_model_integers_fit(info.extra@[i].1);
    }
    match info.keys {
        Keys::SingleFile { length } => {},
        Keys::MultiFile { files } => {
            let models = info@.keys->files;
            assert forall|i: int, j: int|
                0 <= i < models.len() && 0 <= j < models[i].extra.len() implies integers_fit(
                (#[trigger] models[i].extra[j]).1,
            ) by {
                assert(models[i] == files@[i]@);
                lemma_model_integers_fit(files@[i].extra@[j].1);
            }
        },
    }
}

/// Every integer in what a well-formed record is written to fits.
proof fn lemma_info_bencode_fits(info: InfoModel)
    requires
        info_well_formed(info),
        extras_fit(info),
    ensures
        integers_fit(info_bencode(info)),
{
    let entries = info_bencode(info)->Dictionary_0;
    assert forall|i: int| 0 <= i < entries.len() implies integers_fit(
        (#[trigger] entries[i]).1,
    ) by {
        if i >= 4 {
            assert(entries[i] == info.extra[i - 4]);
        } else if i == 0 {
            match info.keys {
                KeysModel::SingleFile { length } => {},
                KeysModel::MultiFile { files } => {
                    let written = Seq::new(files.len(), |i: int| file_bencode(files[i]));
                    assert(entries[0].1 == Bencode::List(written));
                    assert forall|f: int| 0 <= f < written.len() implies integers_fit(
                        #[trigger] written[f],
                    ) by {
                        let fe = file_entries(files[f]);
                        assert(file_well_formed(files[f]));
                        assert forall|x: int| 0 <= x < fe.len() implies integers_fit(
                            (#[trigger] fe[x]).1,
                        ) by {
                            if x >= 2 {
                                assert(fe[x] == files[f].extra[x - 2]);
                            } else if x == 1 {
                                let parts = Seq::new(
                                    files[f].path.len(),
                                    |i: int| Bencode::ByteString(files[f].path[i]),
                                );
                                assert(fe[1].1 == Bencode::List(parts));
                                assert forall|p: int| 0 <= p < parts.len() implies integers_fit(
                                    #[trigger] parts[p],
                                ) by {
                                    assert(parts[p] == Bencode::ByteString(files[f].path[p]));
                                }
                            } else {
                                assert(fe[0].1 == Bencode::Integer(files[f].length));
                            }
                        }
                    }
                },
            }
        }
    }
}

/// Changing a field changes what is hashed: two well-formed records that
/// are written to the same bytes have the same name, the same piece length,
/// the same digests, and the same layout with the same lengths and paths.
/// (That the digests of different bytes differ is a matter of SHA-1 and is
/// not claimed.)
pub proof fn lemma_hashed_bytes_tell_fields(a: InfoModel, b: InfoModel)
    requires
        info_well_formed(a),
        info_well_formed(b),
        extras_fit(a),
        extras_fit(b),
        forall|i: int| 0 <= i < a.pieces.len() ==> (#[trigger] a.pieces[i]).len() == 20,
        forall|i: int| 0 <= i < b.pieces.len() ==> (#[trigger] b.pieces[i]).len() == 20,
        encode_value(info_bencode(a)) == encode_value(info_bencode(b)),
    ensures
        a.name == b.name,
        a.piece_length == b.piece_length,
        a.pieces == b.pieces,
        same_layout(a.keys, b.keys),
{
    lemma_known_keys_differ();
    lemma_info_bencode_fits(a);
    lemma_info_bencode_fits(b);
    crate::bencode_laws::lemma_encode_injective(info_bencode(a), info_bencode(b));
    let ea = info_bencode(a)->Dictionary_0;
    let eb = info_bencode(b)->Dictionary_0;
    assert(ea[0] == layout_entry(a.keys) && eb[0] == layout_entry(b.keys));
    assert(ea[1] == (key_name(), Bencode::ByteString(a.name)));
    assert(eb[1] == (key_name(), Bencode::ByteString(b.name)));
    assert(ea[2] == (key_piece_length(), Bencode::Integer(a.piece_length)));
    assert(eb[2] == (key_piece_length(), Bencode::Integer(b.piece_length)));
    assert(ea[3] == (key_pieces(), Bencode::ByteString(digests_flat(a.pieces))));
    assert(eb[3] == (key_pieces(), Bencode::ByteString(digests_flat(b.pieces))));
    assert forall|x: int| 4 <= x < ea.len() implies !is_known_key((#[trigger] ea[x]).0, false) by {
        assert(ea[x] == a.extra[x - 4]);
    }
    assert forall|x: int| 4 <= x < eb.len() implies !is_known_key((#[trigger] eb[x]).0, false) by {
        assert(eb[x] == b.extra[x - 4]);
    }
    lemma_lookup_normalized(ea, key_name(), 1);
    lemma_lookup_normalized(eb, key_name(), 1);
    lemma_lookup_normalized(ea, key_piece_length(), 2);
    lemma_lookup_normalized(eb, key_piece_length(), 2);
    lemma_lookup_normalized(ea, key_pieces(), 3);
    lemma_lookup_normalized(eb, key_pieces(), 3);
    // The digests.
    let flat = digests_flat(a.pieces);
    assert(flat == digests_flat(b.pieces));
    assert(a.pieces.len() * 20 == flat.len() && b.pieces.len() * 20 == flat.len());
    assert forall|i: int| 0 <= i < a.pieces.len() implies a.pieces[i] == b.pieces[i] by {
        crate::hash::lemma_digests_flat_cut(a.pieces, i);
        crate::hash::lemma_digests_flat_cut(b.pieces, i);
    }
    assert(a.pieces =~= b.pieces);
    // The layout.
    match (a.keys, b.keys) {
        (KeysModel::SingleFile { length: la }, KeysModel::SingleFile { length: lb }) => {
            lemma_lookup_normalized(ea, key_length(), 0);
            lemma_lookup_normalized(eb, key_length(), 0);
        },
        (KeysModel::MultiFile { files: fa }, KeysModel::MultiFile { files: fb }) => {
            lemma_lookup_normalized(ea, key_files(), 0);
            lemma_lookup_normalized(eb, key_files(), 0);
            let wa = Seq::new(fa.len(), |i: int| file_bencode(fa[i]));
            let wb = Seq::new(fb.len(), |i: int| file_bencode(fb[i]));
            let na = normalize(Bencode::List(wa))->List_0;
            let nb = normalize(Bencode::List(wb))->List_0;
            assert(na == nb);
            assert(na.len() == fa.len() && nb.len() == fb.len());
            assert forall|i: int| 0 <= i < fa.len() implies (#[trigger] fa[i]).length
                == fb[i].length && fa[i].path == fb[i].path by {
                assert(na[i] == normalize(wa[i]));
                assert(nb[i] == normalize(wb[i]));
                assert(file_well_formed(fa[i]) && file_well_formed(fb[i]));
                lemma_file_fields(fa[i], fb[i]);
            }
        },
        (KeysModel::SingleFile { length }, KeysModel::MultiFile { files }) => {
            lemma_lookup_normalized(ea, key_length(), 0);
            lemma_lookup_normalized_absent(eb, key_length());
        },
        (KeysModel::MultiFile { files }, KeysModel::SingleFile { length }) => {
            lemma_lookup_normalized(eb, key_length(), 0);
            lemma_lookup_normalized_absent(ea, key_length());
        },
    }
}

/// A key that stands nowhere in the entries is not found.
proof fn lemma_lookup_absent(entries: Seq<(Seq<u8>, Bencode)>, key: Seq<u8>)
    requires
        forall|x: int| 0 <= x < entries.len() ==> (#[trigger] entries[x]).0 != key,
    ensures
        lookup(entries, key, 0) is None,
{
    lemma_lookup_found(entries, key, 0);
}

/// Of entries with a field of their own in front and others behind, the
/// others are those that are kept aside.
proof fn lemma_extra_of_appended(
    front: Seq<(Seq<u8>, Bencode)>,
    extra: Seq<(Seq<u8>, Bencode)>,
    in_file: bool,
    from: int,
)
    requires
        0 <= from <= front.len() + extra.len(),
        forall|i: int| 0 <= i < front.len() ==> is_known_key((#[trigger] front[i]).0, in_file),
        all_unknown(extra, in_file),
    ensures
        extra_entries(front + extra, in_file, from) == if from <= front.len() {
            extra
        } else {
            extra.skip(from - front.len())
        },
    decreases front.len() + extra.len() - from,
{
    let all = front + extra;
    if from < all.len() {
        lemma_extra_of_appended(front, extra, in_file, from + 1);
        if from < front.len() {
            assert(all[from] == front[from]);
            if from + 1 == front.len() {
                assert(extra.skip(0) =~= extra);
            }
        } else {
            let at = from - front.len();
            assert(all[from] == extra[at]);
            assert(!is_known_key(extra[at].0, in_file));
            assert(seq![extra[at]] + extra.skip(at + 1) =~= extra.skip(at));
        }
    } else {
        if from <= front.len() {
            assert(extra =~= Seq::<(Seq<u8>, Bencode)>::empty());
        } else {
            assert(extra.skip(from - front.len()) =~= Seq::<(Seq<u8>, Bencode)>::empty());
        }
    }
}

/// Whether a file can be read back once written: its length fits a `usize`
/// and every part of its path is UTF-8.
pub open spec fn file_readable(file: FileModel) -> bool {
    &&& file.length <= usize::MAX
    &&& forall|i: int| 0 <= i < file.path.len() ==> valid_utf8(#[trigger] file.path[i])
}

/// Whether a record can be read back once written: its name is UTF-8, its
/// lengths fit a `usize`, every digest is twenty bytes, and every file can
/// be read back. This holds of every record that the program holds.
pub open spec fn readable(info: InfoModel) -> bool {
    &&& valid_utf8(info.name)
    &&& info.piece_length <= usize::MAX
    &&& forall|i: int| 0 <= i < info.pieces.len() ==> (#[trigger] info.pieces[i]).len() == 20
    &&& match info.keys {
        KeysModel::SingleFile { length } => length <= usize::MAX,
        KeysModel::MultiFile { files } => forall|i: int|
            0 <= i < files.len() ==> file_readable(#[trigger] files[i]),
    }
}

/// The parts of a path that were written are read back.
proof fn lemma_path_read_back(path: Seq<Seq<u8>>, from: int)
    requires
        0 <= from <= path.len(),
        forall|i: int| 0 <= i < path.len() ==> valid_utf8(#[trigger] path[i]),
    ensures
        path_of(Seq::new(path.len(), |i: int| Bencode::ByteString(path[i])), from) == Some(
            path.skip(from),
        ),
    decreases path.len() - from,
{
    let parts = Seq::new(path.len(), |i: int| Bencode::ByteString(path[i]));
    if from < path.len() {
        lemma_path_read_back(path, from + 1);
        assert(parts[from] == Bencode::ByteString(path[from]));
        assert(seq![path[from]] + path.skip(from + 1) =~= path.skip(from));
    } else {
        assert(path.skip(from) =~= Seq::<Seq<u8>>::empty());
    }
}

/// A file that was written is read back unchanged.
pub proof fn lemma_file_read_back(file: FileModel)
    requires
        file_well_formed(file),
        file_readable(file),
    ensures
        file_of(file_bencode(file)) == Some(file),
{
    lemma_known_keys_differ();
    let entries = file_entries(file);
    let parts = Seq::new(file.path.len(), |i: int| Bencode::ByteString(file.path[i]));
    let front = seq![
        (key_length(), Bencode::Integer(file.length)),
        (key_path(), Bencode::List(parts)),
    ];
    assert(entries == front + file.extra);
    assert(entries[0] == front[0] && entries[1] == front[1]);
    lemma_lookup_unique(entries, key_length(), 0, 0);
    lemma_lookup_unique(entries, key_path(), 1, 0);
    lemma_path_read_back(file.path, 0);
    assert(file.path.skip(0) =~= file.path);
    lemma_extra_of_appended(front, file.extra, true, 0);
}

/// The files that were written are read back unchanged.
proof fn lemma_files_read_back(files: Seq<FileModel>, from: int)
    requires
        0 <= from <= files.len(),
        forall|i: int|
            0 <= i < files.len() ==> file_well_formed(#[trigger] files[i]) && file_readable(
                files[i],
            ),
    ensures
        files_of(Seq::new(files.len(), |i: int| file_bencode(files[i])), from) == Some(
            files.skip(from),
        ),
    decreases files.len() - from,
{
    let written = Seq::new(files.len(), |i: int| file_bencode(files[i]));
    if from < files.len() {
        lemma_files_read_back(files, from + 1);
        assert(written[from] == file_bencode(files[from]));
        lemma_file_read_back(files[from]);
        assert(seq![files[from]] + files.skip(from + 1) =~= files.skip(from));
    } else {
        assert(files.skip(from) =~= Seq::<FileModel>::empty());
    }
}

/// A record that was written is read back unchanged.
pub proof fn lemma_info_read_back(info: InfoModel)
    requires
        info_well_formed(info),
        readable(info),
    ensures
        info_of(info_bencode(info)) == Some(info),
{
    lemma_known_keys_differ();
    let entries = info_bencode(info)->Dictionary_0;
    let front = seq![
        layout_entry(info.keys),
        (key_name(), Bencode::ByteString(info.name)),
        (key_piece_length(), Bencode::Integer(info.piece_length)),
        (key_pieces(), Bencode::ByteString(digests_flat(info.pieces))),
    ];
    assert(entries == front + info.extra);
    assert(entries[0] == front[0] && entries[1] == front[1] && entries[2] == front[2]
        && entries[3] == front[3]);
    assert forall|x: int| 4 <= x < entries.len() implies !is_known_key(
        (#[trigger] entries[x]).0,
        false,
    ) by {
        assert(entries[x] == info.extra[x - 4]);
    }
    lemma_lookup_unique(entries, key_name(), 1, 0);
    lemma_lookup_unique(entries, key_piece_length(), 2, 0);
    lemma_lookup_unique(entries, key_pieces(), 3, 0);
    lemma_extra_of_appended(front, info.extra, false, 0);
    // The digests.
    let flat = digests_flat(info.pieces);
    assert(flat.len() == info.pieces.len() * 20);
    assert forall|i: int| 0 <= i < info.pieces.len() implies cut_digests(flat)[i]
        == info.pieces[i] by {
        crate::hash::lemma_digests_flat_cut(info.pieces, i);
    }
    assert(cut_digests(flat) =~= info.pieces);
    // The layout.
    match info.keys {
        KeysModel::SingleFile { length } => {
            lemma_lookup_unique(entries, key_length(), 0, 0);
            lemma_lookup_absent(entries, key_files());
        },
        KeysModel::MultiFile { files } => {
            lemma_lookup_unique(entries, key_files(), 0, 0);
            lemma_lookup_absent(entries, key_length());
            lemma_files_read_back(files, 0);
            assert(files.skip(0) =~= files);
        },
    }
}

/// Every record that the program holds can be read back once written.
pub proof fn lemma_info_model_readable(info: Info)
    ensures
        readable(info@),
{
    vstd::utf8::encode_utf8_valid_utf8(info.name@);
    match info.keys {
        Keys::SingleFile { length } => {},
        Keys::MultiFile { files } => {
            let models = info@.keys->files;
            assert forall|i: int| 0 <= i < models.len() implies file_readable(
                #[trigger] models[i],
            ) by {
                assert(models[i] == files@[i]@);
                assert forall|j: int| 0 <= j < models[i].path.len() implies valid_utf8(
                    #[trigger] models[i].path[j],
                ) by {
                    vstd::utf8::encode_utf8_valid_utf8(files@[i].path@[j]@);
                }
            }
        },
    }
}

} // verus!
