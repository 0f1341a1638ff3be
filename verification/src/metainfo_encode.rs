//! Writing an `info` record back as bencode, its info-hash, and the sizes of
//! its pieces.

use crate::bencode::{
    duplicate, encode_value, entry_models, lemma_view_dictionary, lemma_view_list, models, Bencode,
    BencodeValue,
};
use crate::bencode_encode::encode;
use crate::hash::{digests_flat, sha1_digest, sha1_of};
use crate::metainfo::{
    all_unknown, file_bencode, file_well_formed, files_length, info_bencode, info_well_formed,
    is_known_key, key_files, key_length, key_name, key_path, key_piece_length, key_pieces,
    layout_entry, layout_well_formed, total_length, File, Info, InfoModel, Keys, KeysModel, Torrent,
};
use crate::metainfo_parse::known_key;
use vstd::prelude::*;
use vstd::slice::slice_to_vec;
use vstd::utf8::encode_utf8;

verus! {

/// The info-hash of an `info` record: the SHA-1 digest of its encoding.
pub open spec fn info_digest(info: InfoModel) -> Seq<u8> {
    sha1_digest(encode_value(info_bencode(info)))
}

/// The least number of pieces of `piece_length` bytes that hold `total` bytes.
pub open spec fn pieces_needed(total: int, piece_length: int) -> int {
    (total + piece_length - 1) / piece_length
}

/// The length of the piece at `index` when `total` bytes are cut into `count`
/// pieces of `piece_length` bytes: every piece is full but the last, which
/// holds what is left, and that is a full piece where the total divides evenly.
pub open spec fn piece_size(total: int, piece_length: int, count: int, index: int) -> int {
    if index == count - 1 {
        total - piece_length * (count - 1)
    } else {
        piece_length
    }
}

impl Clone for File {
    fn clone(&self) -> (res: Self)
        ensures
            res@ == self@,
    {
        let mut path: Vec<String> = Vec::new();
        let mut i: usize = 0;
        while i < self.path.len()
            invariant
                i <= self.path@.len(),
                path@.len() == i,
                forall|k: int| 0 <= k < i ==> (#[trigger] path@[k])@ == self.path@[k]@,
            decreases self.path@.len() - i,
        {
            path.push(self.path[i].clone());
            i += 1;
        }
        let res = File { length: self.length, path, extra: duplicate_entries(&self.extra) };
        proof {
            assert(res@.path =~= self@.path);
        }
        res
    }
}

impl Clone for Keys {
    fn clone(&self) -> (res: Self)
        ensures
            res@ == self@,
    {
        match self {
            Keys::SingleFile { length } => Keys::SingleFile { length: *length },
            Keys::MultiFile { files } => {
                let mut copies: Vec<File> = Vec::new();
                let mut i: usize = 0;
                while i < files.len()
                    invariant
                        i <= files@.len(),
                        copies@.len() == i,
                        forall|k: int| 0 <= k < i ==> (#[trigger] copies@[k])@ == files@[k]@,
                    decreases files@.len() - i,
                {
                    copies.push(files[i].clone());
                    i += 1;
                }
                let res = Keys::MultiFile { files: copies };
                proof {
                    assert(res@->files =~= self@->files);
                }
                res
            },
        }
    }
}

/// A copy of the entries that stands for the same mathematical entries.
pub fn duplicate_entries(entries: &Vec<(Vec<u8>, BencodeValue)>) -> (copies: Vec<
    (Vec<u8>, BencodeValue),
>)
    ensures
        entry_models(copies@) == entry_models(entries@),
{
    let mut copies: Vec<(Vec<u8>, BencodeValue)> = Vec::new();
    let mut i: usize = 0;
    while i < entries.len()
        invariant
            i <= entries@.len(),
            copies@.len() == i,
            forall|k: int|
                0 <= k < i ==> (#[trigger] copies@[k]).0@ == entries@[k].0@ && copies@[k].1@
                    == entries@[k].1@,
        decreases entries@.len() - i,
    {
        let key = slice_to_vec(entries[i].0.as_slice());
        let value = duplicate(&entries[i].1);
        copies.push((key, value));
        i += 1;
    }
    proof {
        assert(entry_models(copies@) =~= entry_models(entries@));
    }
    copies
}

impl Clone for Info {
    fn clone(&self) -> (res: Self)
        ensures
            res@ == self@,
    {
        Info {
            name: self.name.clone(),
            piece_length: self.piece_length,
            pieces: self.pieces.clone(),
            keys: self.keys.clone(),
            extra: duplicate_entries(&self.extra),
        }
    }
}

impl Clone for Torrent {
    fn clone(&self) -> (res: Self)
        ensures
            res@ == self@,
    {
        Torrent { announce: self.announce.clone(), info: self.info.clone() }
    }
}

/// A length as a bencode integer.
fn integer_of(length: usize) -> (v: BencodeValue)
    requires
        length <= i64::MAX,
    ensures
        v@ == Bencode::Integer(length as int),
{
    BencodeValue::Integer(length as i64)
}

/// Puts copies of `extra` behind `entries`.
fn push_entries(entries: &mut Vec<(Vec<u8>, BencodeValue)>, extra: &Vec<(Vec<u8>, BencodeValue)>)
    ensures
        entry_models(final(entries)@) == entry_models(old(entries)@) + entry_models(extra@),
{
    let ghost known = entry_models(entries@);
    let ghost more = entry_models(extra@);
    let mut i: usize = 0;
    proof {
        assert(known + more.take(0) =~= known);
    }
    while i < extra.len()
        invariant
            i <= extra@.len(),
            more == entry_models(extra@),
            entry_models(entries@) == known + more.take(i as int),
        decreases extra@.len() - i,
    {
        let key = slice_to_vec(extra[i].0.as_slice());
        let value = duplicate(&extra[i].1);
        proof {
            assert(more[i as int] == (key@, value@));
            assert(entry_models(entries@.push((key, value))) =~= entry_models(entries@).push(
                (key@, value@),
            ));
            assert(more.take(i + 1) =~= more.take(i as int).push(more[i as int]));
            assert((known + more.take(i as int)).push((key@, value@)) =~= known + more.take(
                i + 1,
            ));
        }
        entries.push((key, value));
        i += 1;
    }
    proof {
        assert(more.take(i as int) =~= more);
    }
}

impl File {
    /// Whether this record is well formed.
    pub fn is_well_formed(&self) -> (ok: bool)
        ensures
            ok == file_well_formed(self@),
    {
        if self.length as u64 > i64::MAX as u64 {
            return false;
        }
        none_known(&self.extra, true)
    }

    /// The file as a bencode dictionary.
    pub fn to_bencode(&self) -> (v: BencodeValue)
        requires
            file_well_formed(self@),
        ensures
            v@ == file_bencode(self@),
    {
        let mut parts: Vec<BencodeValue> = Vec::new();
        let mut i: usize = 0;
        while i < self.path.len()
            invariant
                i <= self.path@.len(),
                parts@.len() == i,
                forall|k: int|
                    0 <= k < i ==> (#[trigger] parts@[k])@ == Bencode::ByteString(
                        encode_utf8(self.path@[k]@),
                    ),
            decreases self.path@.len() - i,
        {
            let bytes = slice_to_vec(self.path[i].as_str().as_bytes());
            parts.push(BencodeValue::ByteString(bytes));
            i += 1;
        }
        let length_key: [u8; 6] = [108, 101, 110, 103, 116, 104];
        let path_key: [u8; 4] = [112, 97, 116, 104];
        let mut entries: Vec<(Vec<u8>, BencodeValue)> = Vec::new();
        entries.push((slice_to_vec(length_key.as_slice()), integer_of(self.length)));
        proof {
            lemma_view_list(parts);
            assert(models(parts@) =~= Seq::new(
                self@.path.len(),
                |i: int| Bencode::ByteString(self@.path[i]),
            ));
        }
        entries.push((slice_to_vec(path_key.as_slice()), BencodeValue::List(parts)));
        proof {
            assert(length_key@ =~= key_length());
            assert(path_key@ =~= key_path());
            assert(entry_models(entries@) =~= seq![
                (key_length(), Bencode::Integer(self@.length)),
                (
                    key_path(),
                    Bencode::List(
                        Seq::new(self@.path.len(), |i: int| Bencode::ByteString(self@.path[i])),
                    ),
                ),
            ]);
        }
        push_entries(&mut entries, &self.extra);
        proof {
            lemma_view_dictionary(entries);
        }
        BencodeValue::Dictionary(entries)
    }
}

/// Whether none of the entries has a key that has a field of its own.
pub fn none_known(extra: &Vec<(Vec<u8>, BencodeValue)>, in_file: bool) -> (ok: bool)
    ensures
        ok == all_unknown(entry_models(extra@), in_file),
{
    let ghost m = entry_models(extra@);
    let mut i: usize = 0;
    while i < extra.len()
        invariant
            i <= extra@.len(),
            m == entry_models(extra@),
            forall|k: int| 0 <= k < i ==> !is_known_key((#[trigger] m[k]).0, in_file),
        decreases extra@.len() - i,
    {
        assert(m[i as int] == (extra@[i as int].0@, extra@[i as int].1@));
        if known_key(extra[i].0.as_slice(), in_file) {
            return false;
        }
        i += 1;
    }
    true
}

impl Keys {
    /// The entry of the `info` dictionary that holds this layout.
    pub fn to_entry(&self) -> (entry: (Vec<u8>, BencodeValue))
        requires
            layout_well_formed(self@),
        ensures
            (entry.0@, entry.1@) == layout_entry(self@),
    {
        match self {
            Keys::SingleFile { length } => {
                let length_key: [u8; 6] = [108, 101, 110, 103, 116, 104];
                proof {
                    assert(length_key@ =~= key_length());
                }
                (slice_to_vec(length_key.as_slice()), integer_of(*length))
            },
            Keys::MultiFile { files } => {
                let files_key: [u8; 5] = [102, 105, 108, 101, 115];
                let mut items: Vec<BencodeValue> = Vec::new();
                let mut i: usize = 0;
                while i < files.len()
                    invariant
                        i <= files@.len(),
                        items@.len() == i,
                        self@ == (KeysModel::MultiFile {
                            files: Seq::new(files@.len(), |i: int| files@[i]@),
                        }),
                        layout_well_formed(self@),
                        forall|k: int|
                            0 <= k < i ==> (#[trigger] items@[k])@ == file_bencode(files@[k]@),
                    decreases files@.len() - i,
                {
                    assert(self@->files[i as int] == files@[i as int]@);
                    items.push(files[i].to_bencode());
                    i += 1;
                }
                proof {
                    assert(files_key@ =~= key_files());
                    lemma_view_list(items);
                    assert(models(items@) =~= Seq::new(
                        self@->files.len(),
                        |i: int| file_bencode(self@->files[i]),
                    ));
                }
                (slice_to_vec(files_key.as_slice()), BencodeValue::List(items))
            },
        }
    }
}

impl Info {
    /// What holds of every `info` record that was read from a file.
    pub open spec fn well_formed(&self) -> bool {
        info_well_formed(self@)
    }

    /// Whether this record is well formed.
    pub fn is_well_formed(&self) -> (ok: bool)
        ensures
            ok == self.well_formed(),
    {
        if self.piece_length == 0 || self.piece_length as u64 > i64::MAX as u64 {
            return false;
        }
        match &self.keys {
            Keys::SingleFile { length } => {
                if *length as u64 > i64::MAX as u64 {
                    return false;
                }
            },
            Keys::MultiFile { files } => {
                let mut i: usize = 0;
                while i < files.len()
                    invariant
                        i <= files@.len(),
                        self.keys@ == (KeysModel::MultiFile {
                            files: Seq::new(files@.len(), |i: int| files@[i]@),
                        }),
                        forall|k: int|
                            0 <= k < i ==> file_well_formed(#[trigger] self.keys@->files[k]),
                    decreases files@.len() - i,
                {
                    assert(self.keys@->files[i as int] == files@[i as int]@);
                    if !files[i].is_well_formed() {
                        return false;
                    }
                    i += 1;
                }
            },
        }
        none_known(&self.extra, false)
    }

    /// The record as a bencode dictionary: the layout, the name, the piece
    /// length and the digests, and then the entries that were kept aside.
    pub fn to_bencode(&self) -> (v: BencodeValue)
        requires
            self.well_formed(),
        ensures
            v@ == info_bencode(self@),
    {
        let name_key: [u8; 4] = [110, 97, 109, 101];
        let piece_length_key: [u8; 12] = [112, 105, 101, 99, 101, 32, 108, 101, 110, 103, 116, 104];
        let pieces_key: [u8; 6] = [112, 105, 101, 99, 101, 115];
        let mut entries: Vec<(Vec<u8>, BencodeValue)> = Vec::new();
        entries.push(self.keys.to_entry());
        let name = slice_to_vec(self.name.as_str().as_bytes());
        entries.push((slice_to_vec(name_key.as_slice()), BencodeValue::ByteString(name)));
        entries.push((slice_to_vec(piece_length_key.as_slice()), integer_of(self.piece_length)));
        entries.push(
            (slice_to_vec(pieces_key.as_slice()), BencodeValue::ByteString(self.pieces.to_bytes())),
        );
        let ghost known = entry_models(entries@);
        proof {
            assert(name_key@ =~= key_name());
            assert(piece_length_key@ =~= key_piece_length());
            assert(pieces_key@ =~= key_pieces());
            assert(known =~= seq![
                layout_entry(self@.keys),
                (key_name(), Bencode::ByteString(self@.name)),
                (key_piece_length(), Bencode::Integer(self@.piece_length)),
                (key_pieces(), Bencode::ByteString(digests_flat(self@.pieces))),
            ]);
        }
        push_entries(&mut entries, &self.extra);
        proof {
            lemma_view_dictionary(entries);
        }
        BencodeValue::Dictionary(entries)
    }

    /// The info-hash: the SHA-1 digest of the record's canonical encoding.
    pub fn info_hash(&self) -> (digest: [u8; 20])
        requires
            self.well_formed(),
        ensures
            digest@ == info_digest(self@),
    {
        let encoded = encode(&self.to_bencode());
        sha1_of(encoded.as_slice())
    }

    /// The digests of the pieces, by piece index.
    pub fn hashes(&self) -> (digests: &Vec<[u8; 20]>)
        ensures
            *digests == self.pieces.0,
    {
        &self.pieces.0
    }

    /// The digests of the pieces as slices, by piece index.
    pub fn hashes_refs(&self) -> (digests: Vec<&[u8]>)
        ensures
            digests@.len() == self.pieces@.len(),
            forall|i: int| 0 <= i < digests@.len() ==> (#[trigger] digests@[i])@ == self.pieces@[i],
    {
        let mut digests: Vec<&[u8]> = Vec::new();
        let mut i: usize = 0;
        while i < self.pieces.0.len()
            invariant
                i <= self.pieces.0@.len(),
                digests@.len() == i,
                forall|k: int| 0 <= k < i ==> (#[trigger] digests@[k])@ == self.pieces@[k],
            decreases self.pieces.0@.len() - i,
        {
            digests.push(self.pieces.0[i].as_slice());
            i += 1;
        }
        digests
    }

    /// The number of bytes of content, or `None` where the files' lengths
    /// add up to more than a `usize` holds.
    pub fn total_length(&self) -> (r: Option<usize>)
        ensures
            r is Some <==> total_length(self.keys@) <= usize::MAX,
            r matches Some(total) ==> total == total_length(self.keys@),
    {
        match &self.keys {
            Keys::SingleFile { length } => Some(*length),
            Keys::MultiFile { files } => {
                let ghost m = self.keys@->files;
                let mut i: usize = files.len();
                let mut sum: usize = 0;
                let mut overflow = false;
                while i > 0
                    invariant
                        i <= files@.len(),
                        m == Seq::new(files@.len(), |i: int| files@[i]@),
                        !overflow ==> sum == files_length(m, i as int),
                        overflow ==> files_length(m, i as int) > usize::MAX,
                        files_length(m, i as int) >= 0,
                    decreases i,
                {
                    i -= 1;
                    assert(m[i as int].length == files@[i as int].length);
                    if !overflow {
                        match sum.checked_add(files[i].length) {
                            Some(more) => {
                                sum = more;
                            },
                            None => {
                                overflow = true;
                            },
                        }
                    }
                }
                if overflow {
                    None
                } else {
                    Some(sum)
                }
            },
        }
    }

    /// Whether the piece length is positive and the digests are as many as
    /// `total_length` bytes need pieces.
    pub open spec fn pieces_cover(&self, total_length: usize) -> bool {
        self.piece_length > 0 && self.pieces@.len() == pieces_needed(
            total_length as int,
            self.piece_length as int,
        )
    }

    /// Whether the digests are as many as `total_length` bytes need pieces.
    pub fn covers(&self, total_length: usize) -> (ok: bool)
        ensures
            ok == self.pieces_cover(total_length),
    {
        if self.piece_length == 0 {
            return false;
        }
        let count: usize = self.pieces.len();
        let full: usize = total_length / self.piece_length;
        let partial: usize = total_length % self.piece_length;
        proof {
            lemma_pieces_needed(total_length as int, self.piece_length as int);
        }
        if partial == 0 {
            count == full
        } else {
            full < usize::MAX && count == full + 1
        }
    }

    /// The number of bytes in the piece at `index`: `piece_length` for every
    /// piece but the last, and for the last what is left of `total_length`,
    /// which is a full piece where the total divides evenly.
    pub fn piece_byte_length(&self, index: usize, total_length: usize) -> (size: usize)
        requires
            index < self.pieces@.len(),
            self.pieces_cover(total_length),
        ensures
            size == piece_size(
                total_length as int,
                self.piece_length as int,
                self.pieces@.len() as int,
                index as int,
            ),
            0 < size <= self.piece_length,
    {
        let count: usize = self.pieces.len();
        proof {
            lemma_piece_size(
                total_length as int,
                self.piece_length as int,
                count as int,
                index as int,
            );
        }
        if index == count - 1 {
            let partial: usize = total_length % self.piece_length;
            if partial == 0 {
                self.piece_length
            } else {
                partial
            }
        } else {
            self.piece_length
        }
    }
}

/// The number of pieces needed, by quotient and remainder.
pub proof fn lemma_pieces_needed(total: int, piece_length: int)
    requires
        0 <= total,
        0 < piece_length,
    ensures
        pieces_needed(total, piece_length) == if total % piece_length == 0 {
            total / piece_length
        } else {
            total / piece_length + 1
        },
{
    let q = total / piece_length;
    let r = total % piece_length;
    assert(total == q * piece_length + r) by {
        vstd::arithmetic::div_mod::lemma_fundamental_div_mod(total, piece_length);
    }
    if r == 0 {
        assert((q * piece_length + (piece_length - 1)) / piece_length == q) by {
            vstd::arithmetic::div_mod::lemma_fundamental_div_mod_converse(
                q * piece_length + (piece_length - 1),
                piece_length,
                q,
                piece_length - 1,
            );
        }
    } else {
        assert(((q + 1) * piece_length + (r - 1)) / piece_length == q + 1) by {
            vstd::arithmetic::div_mod::lemma_fundamental_div_mod_converse(
                (q + 1) * piece_length + (r - 1),
                piece_length,
                q + 1,
                r - 1,
            );
        }
        assert((q + 1) * piece_length + (r - 1) == total + piece_length - 1) by (nonlinear_arith)
            requires
                total == q * piece_length + r,
        ;
    }
}

/// The length of a piece, by quotient and remainder: the last piece holds
/// the remainder of the total, or a full piece where nothing remains.
pub proof fn lemma_piece_size(total: int, piece_length: int, count: int, index: int)
    requires
        0 <= total,
        0 < piece_length,
        count == pieces_needed(total, piece_length),
        0 <= index < count,
    ensures
        piece_size(total, piece_length, count, index) == if index == count - 1 && total
            % piece_length != 0 {
            total % piece_length
        } else {
            piece_length
        },
{
    lemma_pieces_needed(total, piece_length);
    let q = total / piece_length;
    let r = total % piece_length;
    vstd::arithmetic::div_mod::lemma_fundamental_div_mod(total, piece_length);
    assert(total == piece_length * q + r);
    if index == count - 1 {
        if r == 0 {
            assert(count - 1 == q - 1);
            assert(piece_length * (q - 1) == piece_length * q - piece_length) by (nonlinear_arith);
            assert(piece_length * (count - 1) == piece_length * q - piece_length);
        } else {
            assert(count - 1 == q);
            assert(piece_length * (count - 1) == piece_length * q);
        }
    }
}

impl Torrent {
    /// The info-hash of the torrent: twenty bytes.
    pub fn info_hash(&self) -> (digest: [u8; 20])
        requires
            self.info.well_formed(),
        ensures
            digest@ == info_digest(self.info@),
    {
        self.info.info_hash()
    }
}

} // verus!
