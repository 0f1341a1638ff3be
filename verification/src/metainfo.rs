//! The metainfo of a torrent: the tracker's address and the `info`
//! dictionary, as typed records, and what they are as bencode.

use crate::bencode::{lookup, Bencode, BencodeValue};
use crate::hash::{digests_flat, Hashes};
use vstd::prelude::*;
use vstd::utf8::{encode_utf8, valid_utf8};

verus! {

/// One file of a torrent that holds several. Entries under keys that this
/// client does not know are kept in `extra`, as in `Info`.
#[derive(Debug)]
pub struct File {
    pub length: usize,
    pub path: Vec<String>,
    pub extra: Vec<(Vec<u8>, BencodeValue)>,
}

/// How a torrent lays out its content: as one file, or as a list of files.
#[derive(Debug)]
pub enum Keys {
    SingleFile { length: usize },
    MultiFile { files: Vec<File> },
}

/// The `info` dictionary of a torrent. Entries under keys that this client
/// does not know are kept in `extra`, in the order in which they stood, so
/// that the dictionary can be encoded again without loss.
#[derive(Debug)]
pub struct Info {
    pub name: String,
    /// The number of bytes in each piece but the last, which may be shorter.
    pub piece_length: usize,
    /// The digest of each piece, by piece index.
    pub pieces: Hashes,
    pub keys: Keys,
    pub extra: Vec<(Vec<u8>, BencodeValue)>,
}

/// A torrent's metainfo.
#[derive(Debug)]
pub struct Torrent {
    /// The address of the tracker.
    pub announce: String,
    pub info: Info,
}

/// A file as mathematics sees it; each part of the path is its UTF-8 bytes.
pub struct FileModel {
    pub length: int,
    pub path: Seq<Seq<u8>>,
    pub extra: Seq<(Seq<u8>, Bencode)>,
}

/// A layout as mathematics sees it.
pub enum KeysModel {
    SingleFile { length: int },
    MultiFile { files: Seq<FileModel> },
}

/// An `info` dictionary as mathematics sees it; the name is its UTF-8 bytes.
pub struct InfoModel {
    pub name: Seq<u8>,
    pub piece_length: int,
    pub pieces: Seq<Seq<u8>>,
    pub keys: KeysModel,
    pub extra: Seq<(Seq<u8>, Bencode)>,
}

/// A torrent's metainfo as mathematics sees it.
pub struct TorrentModel {
    pub announce: Seq<u8>,
    pub info: InfoModel,
}

impl View for File {
    type V = FileModel;

    open spec fn view(&self) -> FileModel {
        FileModel {
            length: self.length as int,
            path: Seq::new(self.path@.len(), |i: int| encode_utf8(self.path@[i]@)),
            extra: crate::bencode::entry_models(self.extra@),
        }
    }
}

impl View for Keys {
    type V = KeysModel;

    open spec fn view(&self) -> KeysModel {
        match self {
            Keys::SingleFile { length } => KeysModel::SingleFile { length: *length as int },
            Keys::MultiFile { files } => KeysModel::MultiFile {
                files: Seq::new(files@.len(), |i: int| files@[i]@),
            },
        }
    }
}

impl View for Info {
    type V = InfoModel;

    open spec fn view(&self) -> InfoModel {
        InfoModel {
            name: encode_utf8(self.name@),
            piece_length: self.piece_length as int,
            pieces: self.pieces@,
            keys: self.keys@,
            extra: crate::bencode::entry_models(self.extra@),
        }
    }
}

impl View for Torrent {
    type V = TorrentModel;

    open spec fn view(&self) -> TorrentModel {
        TorrentModel { announce: encode_utf8(self.announce@), info: self.info@ }
    }
}

/// The bytes of the key `name`.
pub open spec fn key_name() -> Seq<u8> {
    seq![110u8, 97, 109, 101]
}

/// The bytes of the key `piece length`.
pub open spec fn key_piece_length() -> Seq<u8> {
    seq![112u8, 105, 101, 99, 101, 32, 108, 101, 110, 103, 116, 104]
}

/// The bytes of the key `pieces`.
pub open spec fn key_pieces() -> Seq<u8> {
    seq![112u8, 105, 101, 99, 101, 115]
}

/// The bytes of the key `length`.
pub open spec fn key_length() -> Seq<u8> {
    seq![108u8, 101, 110, 103, 116, 104]
}

/// The bytes of the key `files`.
pub open spec fn key_files() -> Seq<u8> {
    seq![102u8, 105, 108, 101, 115]
}

/// The bytes of the key `path`.
pub open spec fn key_path() -> Seq<u8> {
    seq![112u8, 97, 116, 104]
}

/// The bytes of the key `announce`.
pub open spec fn key_announce() -> Seq<u8> {
    seq![97u8, 110, 110, 111, 117, 110, 99, 101]
}

/// The bytes of the key `info`.
pub open spec fn key_info() -> Seq<u8> {
    seq![105u8, 110, 102, 111]
}

/// Whether `key` is one of the keys that have a field of their own: in the
/// dictionary of a file where `in_file` is set, in an `info` dictionary
/// where it is not.
pub open spec fn is_known_key(key: Seq<u8>, in_file: bool) -> bool {
    if in_file {
        key == key_length() || key == key_path()
    } else {
        key == key_name() || key == key_piece_length() || key == key_pieces() || key
            == key_length() || key == key_files()
    }
}

/// The flat form of the digests, cut into runs of twenty bytes.
pub open spec fn cut_digests(flat: Seq<u8>) -> Seq<Seq<u8>> {
    Seq::new((flat.len() / 20) as nat, |i: int| flat.subrange(20 * i, 20 * i + 20))
}

/// The entries from position `from` on whose key has no field of its own.
pub open spec fn extra_entries(entries: Seq<(Seq<u8>, Bencode)>, in_file: bool, from: int) -> Seq<
    (Seq<u8>, Bencode),
>
    decreases entries.len() - from,
{
    if from < 0 || from >= entries.len() {
        Seq::empty()
    } else if is_known_key(entries[from].0, in_file) {
        extra_entries(entries, in_file, from + 1)
    } else {
        seq![entries[from]] + extra_entries(entries, in_file, from + 1)
    }
}

/// The parts of a path from position `from` on: each has to be a byte string
/// that is valid UTF-8.
pub open spec fn path_of(items: Seq<Bencode>, from: int) -> Option<Seq<Seq<u8>>>
    decreases items.len() - from,
{
    if from < 0 || from >= items.len() {
        Some(Seq::empty())
    } else {
        match (items[from], path_of(items, from + 1)) {
            (Bencode::ByteString(part), Some(parts)) => if valid_utf8(part) {
                Some(seq![part] + parts)
            } else {
                None
            },
            _ => None,
        }
    }
}

/// The file that a value describes: a dictionary with a `length` that is no
/// negative integer and fits a `usize`, and a `path` that is a list of parts.
pub open spec fn file_of(v: Bencode) -> Option<FileModel> {
    match v {
        Bencode::Dictionary(entries) => match (
            lookup(entries, key_length(), 0),
            lookup(entries, key_path(), 0),
        ) {
            (Some(Bencode::Integer(length)), Some(Bencode::List(parts))) => match path_of(
                parts,
                0,
            ) {
                Some(path) => if 0 <= length <= usize::MAX {
                    Some(FileModel { length, path, extra: extra_entries(entries, true, 0) })
                } else {
                    None
                },
                None => None,
            },
            _ => None,
        },
        _ => None,
    }
}

/// The files that the values from position `from` on describe.
pub open spec fn files_of(items: Seq<Bencode>, from: int) -> Option<Seq<FileModel>>
    decreases items.len() - from,
{
    if from < 0 || from >= items.len() {
        Some(Seq::empty())
    } else {
        match (file_of(items[from]), files_of(items, from + 1)) {
            (Some(file), Some(files)) => Some(seq![file] + files),
            _ => None,
        }
    }
}

/// The layout that the entries of an `info` dictionary describe: one file
/// where there is a `length` and no `files`, several where there is a `files`
/// and no `length`, and none where both or neither are there.
pub open spec fn layout_of(entries: Seq<(Seq<u8>, Bencode)>) -> Option<KeysModel> {
    match (lookup(entries, key_length(), 0), lookup(entries, key_files(), 0)) {
        (Some(Bencode::Integer(length)), None) => if 0 <= length <= usize::MAX {
            Some(KeysModel::SingleFile { length })
        } else {
            None
        },
        (None, Some(Bencode::List(items))) => match files_of(items, 0) {
            Some(files) => Some(KeysModel::MultiFile { files }),
            None => None,
        },
        _ => None,
    }
}

/// The `info` record that a value describes; `None` where a field is
/// missing or of the wrong kind, the name is not UTF-8, the piece length is
/// not positive, the digests are no multiple of twenty bytes, or the layout
/// is neither of the two.
pub open spec fn info_of(v: Bencode) -> Option<InfoModel> {
    match v {
        Bencode::Dictionary(entries) => match (
            lookup(entries, key_name(), 0),
            lookup(entries, key_piece_length(), 0),
            lookup(entries, key_pieces(), 0),
            layout_of(entries),
        ) {
            (
                Some(Bencode::ByteString(name)),
                Some(Bencode::Integer(piece_length)),
                Some(Bencode::ByteString(flat)),
                Some(keys),
            ) => if valid_utf8(name) && 0 < piece_length <= usize::MAX && flat.len() % 20 == 0 {
                Some(
                    InfoModel {
                        name,
                        piece_length,
                        pieces: cut_digests(flat),
                        keys,
                        extra: extra_entries(entries, false, 0),
                    },
                )
            } else {
                None
            },
            _ => None,
        },
        _ => None,
    }
}

/// The metainfo that a value describes: a dictionary with an `announce`
/// that is a UTF-8 byte string and an `info` that describes an `info` record.
pub open spec fn torrent_of(v: Bencode) -> Option<TorrentModel> {
    match v {
        Bencode::Dictionary(entries) => match (
            lookup(entries, key_announce(), 0),
            lookup(entries, key_info(), 0),
        ) {
            (Some(Bencode::ByteString(announce)), Some(info)) => match info_of(info) {
                Some(info) => if valid_utf8(announce) {
                    Some(TorrentModel { announce, info })
                } else {
                    None
                },
                None => None,
            },
            _ => None,
        },
        _ => None,
    }
}

/// No entry has a key that has a field of its own.
pub open spec fn all_unknown(extra: Seq<(Seq<u8>, Bencode)>, in_file: bool) -> bool {
    forall|i: int| 0 <= i < extra.len() ==> !is_known_key((#[trigger] extra[i]).0, in_file)
}

/// Whether a file's length can be written as a bencode integer and no entry
/// kept aside has a key that has a field of its own.
pub open spec fn file_well_formed(file: FileModel) -> bool {
    0 <= file.length <= i64::MAX && all_unknown(file.extra, true)
}

/// Whether a layout's files, or its one length, are well formed.
pub open spec fn layout_well_formed(keys: KeysModel) -> bool {
    match keys {
        KeysModel::SingleFile { length } => 0 <= length <= i64::MAX,
        KeysModel::MultiFile { files } => forall|i: int|
            0 <= i < files.len() ==> file_well_formed(#[trigger] files[i]),
    }
}

/// What holds of every `info` record that was read from a file: the piece
/// length is positive, every length can be written as a bencode integer,
/// and no entry kept aside has a key that has a field of its own.
pub open spec fn info_well_formed(info: InfoModel) -> bool {
    &&& 0 < info.piece_length <= i64::MAX
    &&& layout_well_formed(info.keys)
    &&& all_unknown(info.extra, false)
}

/// No entry that was kept aside has a key with a field of its own.
pub proof fn lemma_extra_entries_unknown(
    entries: Seq<(Seq<u8>, Bencode)>,
    in_file: bool,
    from: int,
)
    ensures
        all_unknown(extra_entries(entries, in_file, from), in_file),
    decreases entries.len() - from,
{
    if 0 <= from < entries.len() {
        lemma_extra_entries_unknown(entries, in_file, from + 1);
        let tail = extra_entries(entries, in_file, from + 1);
        let all = extra_entries(entries, in_file, from);
        if !is_known_key(entries[from].0, in_file) {
            assert forall|i: int| 0 <= i < all.len() implies !is_known_key(
                (#[trigger] all[i]).0,
                in_file,
            ) by {
                if i > 0 {
                    assert(all[i] == tail[i - 1]);
                }
            }
        }
    }
}

/// A file as a bencode dictionary: the length and the path, and then the
/// entries that were kept aside.
pub open spec fn file_bencode(file: FileModel) -> Bencode {
    Bencode::Dictionary(
        seq![
            (key_length(), Bencode::Integer(file.length)),
            (
                key_path(),
                Bencode::List(Seq::new(file.path.len(), |i: int| Bencode::ByteString(file.path[i]))),
            ),
        ] + file.extra,
    )
}

/// The entry of an `info` dictionary that holds the layout.
pub open spec fn layout_entry(keys: KeysModel) -> (Seq<u8>, Bencode) {
    match keys {
        KeysModel::SingleFile { length } => (key_length(), Bencode::Integer(length)),
        KeysModel::MultiFile { files } => (
            key_files(),
            Bencode::List(Seq::new(files.len(), |i: int| file_bencode(files[i]))),
        ),
    }
}

/// An `info` record as a bencode dictionary: the layout, the name, the piece
/// length and the digests, and then the entries that were kept aside.
pub open spec fn info_bencode(info: InfoModel) -> Bencode {
    Bencode::Dictionary(
        seq![
            layout_entry(info.keys),
            (key_name(), Bencode::ByteString(info.name)),
            (key_piece_length(), Bencode::Integer(info.piece_length)),
            (key_pieces(), Bencode::ByteString(digests_flat(info.pieces))),
        ] + info.extra,
    )
}

/// The sum of the lengths of the files from position `from` on.
pub open spec fn files_length(files: Seq<FileModel>, from: int) -> int
    decreases files.len() - from,
{
    if from < 0 || from >= files.len() {
        0
    } else {
        files[from].length + files_length(files, from + 1)
    }
}

/// The number of bytes of content that a layout describes.
pub open spec fn total_length(keys: KeysModel) -> int {
    match keys {
        KeysModel::SingleFile { length } => length,
        KeysModel::MultiFile { files } => files_length(files, 0),
    }
}

} // verus!
