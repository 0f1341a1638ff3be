//! Reading metainfo out of decoded bencode.

use crate::bencode::{
    duplicate, entry_models, lemma_view_dictionary, lemma_view_list, models, parse_value,
    BencodeValue, ParseError,
};
use crate::bencode_decode::{decode, find_entry};
use crate::hash::Hashes;
use crate::metainfo::{
    cut_digests, extra_entries, file_of, file_well_formed, files_of, info_of, is_known_key,
    key_announce, key_files, key_info, key_length, key_name, key_path, key_piece_length, key_pieces,
    layout_of, layout_well_formed, lemma_extra_entries_unknown, path_of, torrent_of, File,
    FileModel, Info, Keys, Torrent,
};
use crate::wire::bytes_equal;
use vstd::prelude::*;
use vstd::slice::slice_to_vec;
use vstd::utf8::{encode_utf8, valid_utf8};

verus! {

/// `String::from_utf8`: the string whose UTF-8 encoding the bytes are, where
/// they are the encoding of one, and nothing where they are not.
#[verifier::external_body]
pub(crate) fn string_from_utf8(bytes: Vec<u8>) -> (r: Option<String>)
    ensures
        r is Some <==> valid_utf8(bytes@),
        r matches Some(s) ==> encode_utf8(s@) == bytes@,
{
    String::from_utf8(bytes).ok()
}

/// `r` with the elements `acc` put before its own.
pub open spec fn seq_after<T>(acc: Seq<T>, r: Option<Seq<T>>) -> Option<Seq<T>> {
    match r {
        Some(s) => Some(acc + s),
        None => None,
    }
}

/// An integer as a `usize`, where it is one.
pub fn usize_of(i: i64) -> (r: Option<usize>)
    ensures
        r is Some <==> 0 <= i <= usize::MAX,
        r matches Some(u) ==> u == i,
{
    if i < 0 || i as u64 > usize::MAX as u64 {
        None
    } else {
        Some(i as usize)
    }
}

/// The bytes of `b` as a string, where they are UTF-8.
pub fn utf8_of(b: &Vec<u8>) -> (r: Option<String>)
    ensures
        r is Some <==> valid_utf8(b@),
        r matches Some(s) ==> encode_utf8(s@) == b@,
{
    string_from_utf8(slice_to_vec(b.as_slice()))
}

/// Whether `key` has a field of its own: in the record of a file where
/// `in_file` is set, in an `info` record where it is not.
pub fn known_key(key: &[u8], in_file: bool) -> (known: bool)
    ensures
        known == is_known_key(key@, in_file),
{
    let name: [u8; 4] = [110, 97, 109, 101];
    let piece_length: [u8; 12] = [112, 105, 101, 99, 101, 32, 108, 101, 110, 103, 116, 104];
    let pieces: [u8; 6] = [112, 105, 101, 99, 101, 115];
    let length: [u8; 6] = [108, 101, 110, 103, 116, 104];
    let files: [u8; 5] = [102, 105, 108, 101, 115];
    let path: [u8; 4] = [112, 97, 116, 104];
    proof {
        assert(name@ =~= key_name());
        assert(piece_length@ =~= key_piece_length());
        assert(pieces@ =~= key_pieces());
        assert(length@ =~= key_length());
        assert(files@ =~= key_files());
        assert(path@ =~= key_path());
    }
    if in_file {
        bytes_equal(key, length.as_slice()) || bytes_equal(key, path.as_slice())
    } else {
        bytes_equal(key, name.as_slice()) || bytes_equal(key, piece_length.as_slice())
            || bytes_equal(key, pieces.as_slice()) || bytes_equal(key, length.as_slice())
            || bytes_equal(key, files.as_slice())
    }
}

/// The parts of a path as mathematics sees them.
pub open spec fn path_model(path: Seq<String>) -> Seq<Seq<u8>> {
    Seq::new(path.len(), |i: int| encode_utf8(path[i]@))
}

/// Files as mathematics sees them.
pub open spec fn file_models(files: Seq<File>) -> Seq<FileModel> {
    Seq::new(files.len(), |i: int| files[i]@)
}

/// Reads the parts of a path.
pub fn path_from_bencode(parts: &Vec<BencodeValue>) -> (r: Result<Vec<String>, ParseError>)
    ensures
        match r {
            Ok(path) => path_of(models(parts@), 0) == Some(path_model(path@)),
            Err(e) => e == ParseError::Schema && path_of(models(parts@), 0) is None,
        },
{
    let ghost m = models(parts@);
    let mut path: Vec<String> = Vec::new();
    let mut k: usize = 0;
    proof {
        assert(path_model(path@) =~= Seq::<Seq<u8>>::empty());
        if let Some(found) = path_of(m, 0) {
            assert(path_model(path@) + found =~= found);
        }
    }
    while k < parts.len()
        invariant
            k <= parts@.len(),
            m == models(parts@),
            seq_after(path_model(path@), path_of(m, k as int)) == path_of(m, 0),
        decreases parts@.len() - k,
    {
        assert(m[k as int] == parts@[k as int]@);
        match &parts[k] {
            BencodeValue::ByteString(b) => match utf8_of(b) {
                Some(part) => {
                    proof {
                        let tail = path_of(m, k + 1);
                        assert(path_of(m, k as int) == seq_after(seq![b@], tail));
                        assert(path_model(path@.push(part)) =~= path_model(path@).push(b@));
                        if let Some(found) = tail {
                            assert(path_model(path@) + (seq![b@] + found) =~= path_model(
                                path@,
                            ).push(b@) + found);
                        }
                    }
                    path.push(part);
                },
                None => {
                    return Err(ParseError::Schema);
                },
            },
            _ => {
                return Err(ParseError::Schema);
            },
        }
        k += 1;
    }
    proof {
        assert(path_model(path@) + Seq::<Seq<u8>>::empty() =~= path_model(path@));
    }
    Ok(path)
}

impl File {
    /// Reads one file of a list of files.
    pub fn from_bencode(v: &BencodeValue) -> (r: Result<File, ParseError>)
        ensures
            match r {
                Ok(file) => file_of(v@) == Some(file@) && file_well_formed(file@),
                Err(e) => e == ParseError::Schema && file_of(v@) is None,
            },
    {
        let length_key: [u8; 6] = [108, 101, 110, 103, 116, 104];
        let path_key: [u8; 4] = [112, 97, 116, 104];
        proof {
            assert(length_key@ =~= key_length());
            assert(path_key@ =~= key_path());
        }
        match v {
            BencodeValue::Dictionary(entries) => {
                proof {
                    lemma_view_dictionary(*entries);
                }
                let length: usize = match find_entry(entries, length_key.as_slice()) {
                    Some(at) => match &entries[at].1 {
                        BencodeValue::Integer(i) => match usize_of(*i) {
                            Some(length) => length,
                            None => {
                                return Err(ParseError::Schema);
                            },
                        },
                        _ => {
                            return Err(ParseError::Schema);
                        },
                    },
                    None => {
                        return Err(ParseError::Schema);
                    },
                };
                match find_entry(entries, path_key.as_slice()) {
                    Some(at) => match &entries[at].1 {
                        BencodeValue::List(parts) => {
                            proof {
                                lemma_view_list(*parts);
                            }
                            match path_from_bencode(parts) {
                                Ok(path) => {
                                    let extra = extra_from_entries(entries, true);
                                    let file = File { length, path, extra };
                                    proof {
                                        assert(file@.path =~= path_model(path@));
                                        lemma_extra_entries_unknown(
                                            entry_models(entries@),
                                            true,
                                            0,
                                        );
                                    }
                                    Ok(file)
                                },
                                Err(_) => Err(ParseError::Schema),
                            }
                        },
                        _ => Err(ParseError::Schema),
                    },
                    None => Err(ParseError::Schema),
                }
            },
            _ => Err(ParseError::Schema),
        }
    }
}

/// Reads a list of files.
pub fn files_from_bencode(items: &Vec<BencodeValue>) -> (r: Result<Vec<File>, ParseError>)
    ensures
        match r {
            Ok(files) => files_of(models(items@), 0) == Some(file_models(files@)) && forall|
                i: int,
            |
                0 <= i < files@.len() ==> file_well_formed((#[trigger] files@[i])@),
            Err(e) => e == ParseError::Schema && files_of(models(items@), 0) is None,
        },
{
    let ghost m = models(items@);
    let mut files: Vec<File> = Vec::new();
    let mut k: usize = 0;
    proof {
        assert(file_models(files@) =~= Seq::<FileModel>::empty());
        if let Some(found) = files_of(m, 0) {
            assert(file_models(files@) + found =~= found);
        }
    }
    while k < items.len()
        invariant
            k <= items@.len(),
            m == models(items@),
            seq_after(file_models(files@), files_of(m, k as int)) == files_of(m, 0),
            forall|i: int| 0 <= i < files@.len() ==> file_well_formed((#[trigger] files@[i])@),
        decreases items@.len() - k,
    {
        assert(m[k as int] == items@[k as int]@);
        match File::from_bencode(&items[k]) {
            Ok(file) => {
                proof {
                    let tail = files_of(m, k + 1);
                    assert(files_of(m, k as int) == seq_after(seq![file@], tail));
                    assert(file_models(files@.push(file)) =~= file_models(files@).push(file@));
                    if let Some(found) = tail {
                        assert(file_models(files@) + (seq![file@] + found) =~= file_models(
                            files@,
                        ).push(file@) + found);
                    }
                }
                files.push(file);
            },
            Err(_) => {
                return Err(ParseError::Schema);
            },
        }
        k += 1;
    }
    proof {
        assert(file_models(files@) + Seq::<FileModel>::empty() =~= file_models(files@));
    }
    Ok(files)
}

impl Keys {
    /// Reads the layout out of the entries of an `info` dictionary.
    pub fn from_entries(entries: &Vec<(Vec<u8>, BencodeValue)>) -> (r: Result<Keys, ParseError>)
        ensures
            match r {
                Ok(keys) => layout_of(entry_models(entries@)) == Some(keys@) && layout_well_formed(
                    keys@,
                ),
                Err(e) => e == ParseError::Schema && layout_of(entry_models(entries@)) is None,
            },
    {
        let length_key: [u8; 6] = [108, 101, 110, 103, 116, 104];
        let files_key: [u8; 5] = [102, 105, 108, 101, 115];
        proof {
            assert(length_key@ =~= key_length());
            assert(files_key@ =~= key_files());
        }
        let length_at = find_entry(entries, length_key.as_slice());
        let files_at = find_entry(entries, files_key.as_slice());
        match (length_at, files_at) {
            (Some(at), None) => match &entries[at].1 {
                BencodeValue::Integer(i) => match usize_of(*i) {
                    Some(length) => Ok(Keys::SingleFile { length }),
                    None => Err(ParseError::Schema),
                },
                _ => Err(ParseError::Schema),
            },
            (None, Some(at)) => match &entries[at].1 {
                BencodeValue::List(items) => {
                    proof {
                        lemma_view_list(*items);
                    }
                    match files_from_bencode(items) {
                        Ok(files) => {
                            let keys = Keys::MultiFile { files };
                            proof {
                                assert(keys@->files =~= file_models(files@));
                            }
                            Ok(keys)
                        },
                        Err(_) => Err(ParseError::Schema),
                    }
                },
                _ => Err(ParseError::Schema),
            },
            _ => Err(ParseError::Schema),
        }
    }
}

/// Copies the entries whose key has no field of its own, in their order.
pub fn extra_from_entries(entries: &Vec<(Vec<u8>, BencodeValue)>, in_file: bool) -> (extra: Vec<
    (Vec<u8>, BencodeValue),
>)
    ensures
        entry_models(extra@) == extra_entries(entry_models(entries@), in_file, 0),
{
    let ghost m = entry_models(entries@);
    let mut extra: Vec<(Vec<u8>, BencodeValue)> = Vec::new();
    let mut k: usize = 0;
    proof {
        assert(entry_models(extra@) + extra_entries(m, in_file, 0) =~= extra_entries(m, in_file, 0));
    }
    while k < entries.len()
        invariant
            k <= entries@.len(),
            m == entry_models(entries@),
            entry_models(extra@) + extra_entries(m, in_file, k as int) == extra_entries(m, in_file, 0),
        decreases entries@.len() - k,
    {
        assert(m[k as int] == (entries@[k as int].0@, entries@[k as int].1@));
        if !known_key(entries[k].0.as_slice(), in_file) {
            let key = slice_to_vec(entries[k].0.as_slice());
            let value = duplicate(&entries[k].1);
            proof {
                assert(entry_models(extra@.push((key, value))) =~= entry_models(extra@).push(
                    m[k as int],
                ));
                assert(entry_models(extra@).push(m[k as int]) + extra_entries(m, in_file, k + 1)
                    =~= entry_models(extra@) + extra_entries(m, in_file, k as int));
            }
            extra.push((key, value));
        }
        k += 1;
    }
    proof {
        assert(entry_models(extra@) + extra_entries(m, in_file, k as int) =~= entry_models(extra@));
    }
    extra
}

impl Info {
    /// Reads an `info` record out of a decoded value.
    pub fn from_bencode(v: &BencodeValue) -> (r: Result<Info, ParseError>)
        ensures
            match r {
                Ok(info) => info_of(v@) == Some(info@) && info.well_formed(),
                Err(e) => e == ParseError::Schema && info_of(v@) is None,
            },
    {
        let name_key: [u8; 4] = [110, 97, 109, 101];
        let piece_length_key: [u8; 12] = [112, 105, 101, 99, 101, 32, 108, 101, 110, 103, 116, 104];
        let pieces_key: [u8; 6] = [112, 105, 101, 99, 101, 115];
        proof {
            assert(name_key@ =~= key_name());
            assert(piece_length_key@ =~= key_piece_length());
            assert(pieces_key@ =~= key_pieces());
        }
        match v {
            BencodeValue::Dictionary(entries) => {
                proof {
                    lemma_view_dictionary(*entries);
                }
                let name: String = match find_entry(entries, name_key.as_slice()) {
                    Some(at) => match &entries[at].1 {
                        BencodeValue::ByteString(b) => match utf8_of(b) {
                            Some(name) => name,
                            None => {
                                return Err(ParseError::Schema);
                            },
                        },
                        _ => {
                            return Err(ParseError::Schema);
                        },
                    },
                    None => {
                        return Err(ParseError::Schema);
                    },
                };
                let piece_length: usize = match find_entry(entries, piece_length_key.as_slice()) {
                    Some(at) => match &entries[at].1 {
                        BencodeValue::Integer(i) => match usize_of(*i) {
                            Some(piece_length) => {
                                if piece_length == 0 {
                                    return Err(ParseError::Schema);
                                }
                                piece_length
                            },
                            None => {
                                return Err(ParseError::Schema);
                            },
                        },
                        _ => {
                            return Err(ParseError::Schema);
                        },
                    },
                    None => {
                        return Err(ParseError::Schema);
                    },
                };
                let ghost flat: Seq<u8>;
                let pieces: Hashes = match find_entry(entries, pieces_key.as_slice()) {
                    Some(at) => match &entries[at].1 {
                        BencodeValue::ByteString(b) => match Hashes::from_bytes(b.as_slice()) {
                            Ok(pieces) => {
                                proof {
                                    flat = b@;
                                    assert(pieces@ =~= cut_digests(b@));
                                }
                                pieces
                            },
                            Err(_) => {
                                return Err(ParseError::Schema);
                            },
                        },
                        _ => {
                            return Err(ParseError::Schema);
                        },
                    },
                    None => {
                        return Err(ParseError::Schema);
                    },
                };
                let keys: Keys = match Keys::from_entries(entries) {
                    Ok(keys) => keys,
                    Err(_) => {
                        return Err(ParseError::Schema);
                    },
                };
                let extra = extra_from_entries(entries, false);
                proof {
                    lemma_extra_entries_unknown(entry_models(entries@), false, 0);
                }
                Ok(Info { name, piece_length, pieces, keys, extra })
            },
            _ => Err(ParseError::Schema),
        }
    }
}

impl Torrent {
    /// Reads a torrent's metainfo out of a decoded value.
    pub fn from_bencode(v: &BencodeValue) -> (r: Result<Torrent, ParseError>)
        ensures
            match r {
                Ok(torrent) => torrent_of(v@) == Some(torrent@) && torrent.info.well_formed(),
                Err(e) => e == ParseError::Schema && torrent_of(v@) is None,
            },
    {
        let announce_key: [u8; 8] = [97, 110, 110, 111, 117, 110, 99, 101];
        let info_key: [u8; 4] = [105, 110, 102, 111];
        proof {
            assert(announce_key@ =~= key_announce());
            assert(info_key@ =~= key_info());
        }
        match v {
            BencodeValue::Dictionary(entries) => {
                proof {
                    lemma_view_dictionary(*entries);
                }
                let announce: String = match find_entry(entries, announce_key.as_slice()) {
                    Some(at) => match &entries[at].1 {
                        BencodeValue::ByteString(b) => match utf8_of(b) {
                            Some(announce) => announce,
                            None => {
                                return Err(ParseError::Schema);
                            },
                        },
                        _ => {
                            return Err(ParseError::Schema);
                        },
                    },
                    None => {
                        return Err(ParseError::Schema);
                    },
                };
                match find_entry(entries, info_key.as_slice()) {
                    Some(at) => match Info::from_bencode(&entries[at].1) {
                        Ok(info) => Ok(Torrent { announce, info }),
                        Err(_) => Err(ParseError::Schema),
                    },
                    None => Err(ParseError::Schema),
                }
            },
            _ => Err(ParseError::Schema),
        }
    }

    /// Decodes a metainfo file. Bytes that follow the dictionary are not
    /// looked at.
    ///
    /// The error is `Syntax` where the bytes do not begin with a bencode
    /// value, and `Schema` where the value is not a torrent's metainfo.
    pub fn parse(bytes: &[u8]) -> (r: Result<Torrent, ParseError>)
        ensures
            match r {
                Ok(torrent) => parse_value(bytes@) matches Some((v, rest)) && torrent_of(v)
                    == Some(torrent@) && torrent.info.well_formed(),
                Err(ParseError::Syntax) => parse_value(bytes@) is None,
                Err(ParseError::Schema) => parse_value(bytes@) matches Some((v, rest))
                    && torrent_of(v) is None,
            },
    {
        match decode(bytes) {
            Err(_) => Err(ParseError::Syntax),
            Ok((v, rest)) => match Torrent::from_bencode(&v) {
                Ok(torrent) => Ok(torrent),
                Err(_) => Err(ParseError::Schema),
            },
        }
    }
}

} // verus!
