use bittorrent_core::bencode::{BencodeValue, ParseError};
use bittorrent_core::bencode_decode::decode;
use bittorrent_core::bencode_encode::encode;
use bittorrent_core::hash::Hashes;
use bittorrent_core::metainfo::{File, Info, Keys, Torrent};
use sha1::{Digest, Sha1};

fn pieces(count: u8) -> Vec<u8> {
    let mut flat = Vec::new();
    for i in 0..count {
        flat.extend_from_slice(&[i.wrapping_mul(37).wrapping_add(200); 20]);
    }
    flat
}

fn single_file_info(length: usize, piece_length: usize, count: u8) -> Vec<u8> {
    let mut info = Vec::new();
    info.extend_from_slice(format!("d6:lengthi{}e4:name8:file.txt12:piece lengthi{}e6:pieces{}:", length, piece_length, 20 * count as usize).as_bytes());
    info.extend_from_slice(&pieces(count));
    info.extend_from_slice(b"e");
    info
}

fn torrent_around(info: &[u8]) -> Vec<u8> {
    let mut file = b"d8:announce31:http://tracker.example/announce4:info".to_vec();
    file.extend_from_slice(info);
    file.extend_from_slice(b"e");
    file
}

fn sha1(bytes: &[u8]) -> [u8; 20] {
    Sha1::digest(bytes).into()
}

#[test]
fn parses_a_single_file_torrent() {
    let torrent = Torrent::parse(&torrent_around(&single_file_info(1048576, 262144, 4))).unwrap();
    assert_eq!(torrent.announce, "http://tracker.example/announce");
    assert_eq!(torrent.info.name, "file.txt");
    assert_eq!(torrent.info.piece_length, 262144);
    assert_eq!(torrent.info.pieces.0.len(), 4);
    assert!(matches!(torrent.info.keys, Keys::SingleFile { length: 1048576 }));
    assert!(torrent.info.extra.is_empty());
    assert_eq!(torrent.info.total_length(), Some(1048576));
    assert!(torrent.info.is_well_formed());
}

#[test]
fn pieces_of_forty_bytes_are_two_digests_in_order() {
    let flat = pieces(2);
    let torrent = Torrent::parse(&torrent_around(&single_file_info(20000, 16384, 2))).unwrap();
    assert_eq!(torrent.info.piece_length, 16384);
    assert_eq!(torrent.info.pieces.0.len(), 2);
    assert_eq!(&torrent.info.pieces.0[0][..], &flat[..20]);
    assert_eq!(&torrent.info.pieces.0[1][..], &flat[20..40]);
    assert_eq!(torrent.info.hashes(), &torrent.info.pieces.0);
    let refs = torrent.info.hashes_refs();
    assert_eq!(refs.len(), 2);
    assert_eq!(refs[0], &flat[..20]);
    assert_eq!(refs[1], &flat[20..40]);
    assert_eq!(torrent.info.pieces.at(1), Some(&torrent.info.pieces.0[1]));
    assert_eq!(torrent.info.pieces.at(2), None);
}

#[test]
fn info_hash_is_the_digest_of_the_info_dictionary() {
    let info = single_file_info(1048576, 262144, 4);
    let torrent = Torrent::parse(&torrent_around(&info)).unwrap();
    assert_eq!(torrent.info_hash(), sha1(&info));
    assert_eq!(torrent.info.info_hash(), sha1(&info));
    assert_ne!(torrent.info_hash().to_vec(), info);
}

#[test]
fn info_hash_is_the_same_twice_and_after_a_clone() {
    let torrent = Torrent::parse(&torrent_around(&single_file_info(1048576, 262144, 4))).unwrap();
    let first = torrent.info_hash();
    assert_eq!(torrent.info_hash(), first);
    assert_eq!(torrent.clone().info_hash(), first);
    assert_eq!(torrent.info.clone().info_hash(), first);
}

#[test]
fn info_hash_changes_with_a_field() {
    let torrent = Torrent::parse(&torrent_around(&single_file_info(1048576, 262144, 4))).unwrap();
    let first = torrent.info_hash();
    let mut other = torrent.clone();
    other.info.piece_length = 262145;
    assert_ne!(other.info_hash(), first);
    let mut other = torrent.clone();
    other.info.name = String::from("file.txT");
    assert_ne!(other.info_hash(), first);
    let mut other = torrent.clone();
    other.info.keys = Keys::SingleFile { length: 1048575 };
    assert_ne!(other.info_hash(), first);
    let mut other = torrent.clone();
    other.info.pieces.0[3][19] ^= 1;
    assert_ne!(other.info_hash(), first);
}

#[test]
fn info_hash_does_not_depend_on_the_order_in_memory() {
    let mut torrent = Torrent::parse(&torrent_around(
        b"d6:lengthi5e4:name1:n12:piece lengthi5e6:pieces0:1:zi1e1:ai2ee",
    ))
    .unwrap();
    let first = torrent.info_hash();
    assert_eq!(torrent.info.extra.len(), 2);
    torrent.info.extra.reverse();
    assert_eq!(torrent.info_hash(), first);
}

#[test]
fn unknown_entries_are_kept_and_hashed() {
    let info = b"d6:lengthi5e4:name1:n12:piece lengthi5e6:pieces0:7:privatei1e6:source2:xxe";
    let torrent = Torrent::parse(&torrent_around(info)).unwrap();
    assert_eq!(
        torrent.info.extra,
        vec![
            (b"private".to_vec(), BencodeValue::Integer(1)),
            (b"source".to_vec(), BencodeValue::ByteString(b"xx".to_vec())),
        ]
    );
    assert_eq!(torrent.info_hash(), sha1(info));
    assert_eq!(encode(&torrent.info.to_bencode()), info.to_vec());
}

#[test]
fn info_that_was_not_canonical_is_hashed_in_canonical_form() {
    let stored = b"d4:name1:n6:lengthi5e6:pieces0:12:piece lengthi5ee";
    let canonical = b"d6:lengthi5e4:name1:n12:piece lengthi5e6:pieces0:e";
    let torrent = Torrent::parse(&torrent_around(stored)).unwrap();
    assert_eq!(torrent.info_hash(), sha1(canonical));
}

#[test]
fn parses_a_multi_file_torrent() {
    let info = b"d5:filesld6:lengthi3e4:pathl1:a5:b.txteed6:lengthi4e4:pathl1:ceee4:name3:dir12:piece lengthi4e6:pieces0:e";
    let torrent = Torrent::parse(&torrent_around(info)).unwrap();
    match &torrent.info.keys {
        Keys::MultiFile { files } => {
            assert_eq!(files.len(), 2);
            assert_eq!(files[0].length, 3);
            assert_eq!(files[0].path, vec![String::from("a"), String::from("b.txt")]);
            assert_eq!(files[1].length, 4);
            assert_eq!(files[1].path, vec![String::from("c")]);
        }
        Keys::SingleFile { .. } => panic!("the layout should be a list of files"),
    }
    assert_eq!(torrent.info.total_length(), Some(7));
    assert_eq!(torrent.info_hash(), sha1(info));
}

#[test]
fn unknown_entries_of_a_file_are_kept_and_hashed() {
    let info = b"d5:filesld6:lengthi3e6:md5sum2:xy4:pathl1:aeee4:name3:dir12:piece lengthi4e6:pieces0:e";
    let torrent = Torrent::parse(&torrent_around(info)).unwrap();
    match &torrent.info.keys {
        Keys::MultiFile { files } => {
            assert_eq!(files.len(), 1);
            assert_eq!(
                files[0].extra,
                vec![(b"md5sum".to_vec(), BencodeValue::ByteString(b"xy".to_vec()))]
            );
            assert!(files[0].is_well_formed());
        }
        Keys::SingleFile { .. } => panic!("the layout should be a list of files"),
    }
    assert_eq!(torrent.info_hash(), sha1(info));
    assert_eq!(torrent.clone().info_hash(), sha1(info));
}

#[test]
fn neither_layout_is_a_schema_error() {
    let info = b"d4:name1:n12:piece lengthi5e6:pieces0:e";
    assert_eq!(Torrent::parse(&torrent_around(info)).unwrap_err(), ParseError::Schema);
}

#[test]
fn both_layouts_are_a_schema_error() {
    let info = b"d5:filesle6:lengthi5e4:name1:n12:piece lengthi5e6:pieces0:e";
    assert_eq!(Torrent::parse(&torrent_around(info)).unwrap_err(), ParseError::Schema);
}

#[test]
fn missing_and_mistyped_fields_are_schema_errors() {
    let cases: Vec<&[u8]> = vec![
        b"d6:lengthi5e12:piece lengthi5e6:pieces0:e",
        b"d6:lengthi5e4:name1:n6:pieces0:e",
        b"d6:lengthi5e4:name1:n12:piece lengthi5ee",
        b"d6:lengthi5e4:namei1e12:piece lengthi5e6:pieces0:e",
        b"d6:lengthi5e4:name1:n12:piece length1:56:pieces0:e",
        b"d6:lengthi5e4:name1:n12:piece lengthi5e6:piecesi0ee",
        b"d6:length1:54:name1:n12:piece lengthi5e6:pieces0:e",
        b"d6:lengthi-5e4:name1:n12:piece lengthi5e6:pieces0:e",
        b"d6:lengthi5e4:name1:n12:piece lengthi0e6:pieces0:e",
        b"d6:lengthi5e4:name1:n12:piece lengthi-1e6:pieces0:e",
        b"d6:lengthi5e4:name1:n12:piece lengthi5e6:pieces3:abce",
        b"d5:filesi1e4:name1:n12:piece lengthi5e6:pieces0:e",
        b"d5:filesli1ee4:name1:n12:piece lengthi5e6:pieces0:e",
        b"d5:filesld6:lengthi3eee4:name1:n12:piece lengthi4e6:pieces0:e",
        b"d5:filesld6:lengthi3e4:pathli1eeee4:name1:n12:piece lengthi4e6:pieces0:e",
        b"le",
        b"i1e",
    ];
    for info in cases {
        assert_eq!(Torrent::parse(&torrent_around(info)).unwrap_err(), ParseError::Schema);
    }
}

#[test]
fn a_name_that_is_not_utf8_is_a_schema_error() {
    let mut info = b"d6:lengthi5e4:name2:".to_vec();
    info.extend_from_slice(&[0xff, 0xfe]);
    info.extend_from_slice(b"12:piece lengthi5e6:pieces0:e");
    assert_eq!(Torrent::parse(&torrent_around(&info)).unwrap_err(), ParseError::Schema);
}

#[test]
fn a_name_that_is_utf8_is_kept_byte_for_byte() {
    let info = "d6:lengthi5e4:name9:naïve€12:piece lengthi5e6:pieces0:e".as_bytes();
    let torrent = Torrent::parse(&torrent_around(info)).unwrap();
    assert_eq!(torrent.info.name, "naïve€");
    assert_eq!(torrent.info_hash(), sha1(info));
}

#[test]
fn top_level_schema_errors() {
    assert_eq!(Torrent::parse(b"d4:infod6:lengthi5e4:name1:n12:piece lengthi5e6:pieces0:ee").unwrap_err(), ParseError::Schema);
    assert_eq!(Torrent::parse(b"d8:announce1:ae").unwrap_err(), ParseError::Schema);
    assert_eq!(Torrent::parse(b"d8:announcei1e4:infod6:lengthi5e4:name1:n12:piece lengthi5e6:pieces0:ee").unwrap_err(), ParseError::Schema);
    assert_eq!(Torrent::parse(b"l8:announcee").unwrap_err(), ParseError::Schema);
}

#[test]
fn bytes_that_are_no_bencode_are_a_syntax_error() {
    assert_eq!(Torrent::parse(b"").unwrap_err(), ParseError::Syntax);
    assert_eq!(Torrent::parse(b"d8:announce").unwrap_err(), ParseError::Syntax);
    assert_eq!(Torrent::parse(b"hello").unwrap_err(), ParseError::Syntax);
}

#[test]
fn from_bencode_reads_what_decode_gave() {
    let (value, _) = decode(b"d6:lengthi5e4:name1:n12:piece lengthi5e6:pieces0:e").unwrap();
    let info = Info::from_bencode(&value).unwrap();
    assert_eq!(info.name, "n");
    assert_eq!(info.piece_length, 5);
    assert_eq!(Info::from_bencode(&BencodeValue::Integer(1)).unwrap_err(), ParseError::Schema);
    assert_eq!(File::from_bencode(&BencodeValue::Integer(1)).unwrap_err(), ParseError::Schema);
    assert_eq!(Torrent::from_bencode(&value).unwrap_err(), ParseError::Schema);
}

fn info_with(length: usize, piece_length: usize, count: usize) -> Info {
    Info {
        name: String::from("n"),
        piece_length,
        pieces: Hashes(vec![[0; 20]; count]),
        keys: Keys::SingleFile { length },
        extra: Vec::new(),
    }
}

#[test]
fn last_piece_of_an_exact_multiple_is_a_full_piece() {
    let info = info_with(1048576, 262144, 4);
    assert!(info.covers(1048576));
    assert_eq!(info.piece_byte_length(3, 1048576), 262144);
    assert_eq!(info.piece_byte_length(0, 1048576), 262144);
    assert_eq!(info.piece_byte_length(2, 1048576), 262144);
}

#[test]
fn last_piece_holds_the_remainder() {
    let info = info_with(92063, 32768, 3);
    assert!(info.covers(92063));
    assert_eq!(info.piece_byte_length(0, 92063), 32768);
    assert_eq!(info.piece_byte_length(1, 92063), 32768);
    assert_eq!(info.piece_byte_length(2, 92063), 26527);
    let info = info_with(1, 16384, 1);
    assert!(info.covers(1));
    assert_eq!(info.piece_byte_length(0, 1), 1);
}

#[test]
fn covers_says_whether_the_digests_fit_the_length() {
    let info = info_with(0, 10, 3);
    assert!(info.covers(21));
    assert!(info.covers(30));
    assert!(!info.covers(20));
    assert!(!info.covers(31));
    assert!(!info.covers(0));
    assert!(info_with(0, 10, 0).covers(0));
    assert!(!info_with(0, 10, 0).covers(1));
    assert!(!info_with(0, 1, 1).covers(usize::MAX));
    assert!(!info_with(0, 0, 0).covers(0));
    assert!(!info_with(0, 0, 1).covers(5));
}

#[test]
fn total_length_of_files_that_overflow_is_none() {
    let mut info = info_with(0, 10, 0);
    info.keys = Keys::MultiFile {
        files: vec![
            File { length: usize::MAX, path: vec![String::from("a")], extra: Vec::new() },
            File { length: 1, path: vec![String::from("b")], extra: Vec::new() },
        ],
    };
    assert_eq!(info.total_length(), None);
    info.keys = Keys::MultiFile { files: Vec::new() };
    assert_eq!(info.total_length(), Some(0));
}

#[test]
fn ill_formed_records_are_told_apart() {
    assert!(info_with(5, 5, 0).is_well_formed());
    assert!(!info_with(5, 0, 0).is_well_formed());
    let mut info = info_with(5, 5, 0);
    info.extra.push((b"name".to_vec(), BencodeValue::Integer(1)));
    assert!(!info.is_well_formed());
    let mut info = info_with(5, 5, 0);
    info.extra.push((b"names".to_vec(), BencodeValue::Integer(1)));
    assert!(info.is_well_formed());
}

#[test]
fn to_bencode_holds_every_field() {
    let mut info = info_with(5, 7, 1);
    info.extra.push((b"x".to_vec(), BencodeValue::Integer(9)));
    let mut expected = b"d6:lengthi5e4:name1:n12:piece lengthi7e6:pieces20:".to_vec();
    expected.extend_from_slice(&[0; 20]);
    expected.extend_from_slice(b"1:xi9ee");
    assert_eq!(encode(&info.to_bencode()), expected);
    assert_eq!(info.info_hash(), sha1(&expected));
}

#[test]
fn a_written_record_is_read_back() {
    let mut info = info_with(5, 7, 2);
    info.name = String::from("naïve");
    info.extra.push((b"z".to_vec(), BencodeValue::Integer(9)));
    info.extra.push((b"a".to_vec(), BencodeValue::List(vec![BencodeValue::Integer(-1)])));
    let back = Info::from_bencode(&info.to_bencode()).unwrap();
    assert_eq!(back.name, info.name);
    assert_eq!(back.piece_length, info.piece_length);
    assert_eq!(back.pieces.0, info.pieces.0);
    assert!(matches!(back.keys, Keys::SingleFile { length: 5 }));
    assert_eq!(back.extra, info.extra);
    assert_eq!(back.info_hash(), info.info_hash());

    info.keys = Keys::MultiFile {
        files: vec![File {
            length: 5,
            path: vec![String::from("d"), String::from("f")],
            extra: vec![(b"attr".to_vec(), BencodeValue::ByteString(b"x".to_vec()))],
        }],
    };
    let back = Info::from_bencode(&info.to_bencode()).unwrap();
    match (&back.keys, &info.keys) {
        (Keys::MultiFile { files: read }, Keys::MultiFile { files: written }) => {
            assert_eq!(read.len(), 1);
            assert_eq!(read[0].length, written[0].length);
            assert_eq!(read[0].path, written[0].path);
            assert_eq!(read[0].extra, written[0].extra);
        }
        _ => panic!("the layout should be a list of files"),
    }
    assert_eq!(back.info_hash(), info.info_hash());
}
