use bittorrent_core::bencode::ParseError;
use bittorrent_core::hash::Hashes;

#[test]
fn two_digests_out_of_forty_bytes() {
    let flat: Vec<u8> = (0..40).collect();
    let hashes = Hashes::from_bytes(&flat).unwrap();
    assert_eq!(hashes.0.len(), 2);
    assert_eq!(hashes.len(), 2);
    assert_eq!(&hashes.0[0][..], &flat[..20]);
    assert_eq!(&hashes.0[1][..], &flat[20..]);
}

#[test]
fn no_digests_out_of_no_bytes() {
    let hashes = Hashes::from_bytes(&[]).unwrap();
    assert!(hashes.0.is_empty());
    assert_eq!(hashes.at(0), None);
}

#[test]
fn a_length_that_is_no_multiple_of_twenty_is_refused() {
    assert_eq!(Hashes::from_bytes(&[0; 41]).unwrap_err(), ParseError::Schema);
    assert_eq!(Hashes::from_bytes(&[0; 19]).unwrap_err(), ParseError::Schema);
    assert_eq!(Hashes::from_bytes(&[0; 1]).unwrap_err(), ParseError::Schema);
}

#[test]
fn at_is_bounds_checked() {
    let hashes = Hashes(vec![[1; 20], [2; 20], [3; 20]]);
    assert_eq!(hashes.at(0), Some(&[1; 20]));
    assert_eq!(hashes.at(2), Some(&[3; 20]));
    assert_eq!(hashes.at(3), None);
    assert_eq!(hashes.at(usize::MAX), None);
}

#[test]
fn to_bytes_lays_the_digests_end_to_end() {
    let hashes = Hashes(vec![[1; 20], [2; 20]]);
    let mut expected = vec![1u8; 20];
    expected.extend_from_slice(&[2; 20]);
    assert_eq!(hashes.to_bytes(), expected);
    assert_eq!(Hashes(Vec::new()).to_bytes(), Vec::<u8>::new());
}

#[test]
fn cutting_and_joining_are_inverse() {
    let flat: Vec<u8> = (0..100).collect();
    assert_eq!(Hashes::from_bytes(&flat).unwrap().to_bytes(), flat);
}

#[test]
fn clone_keeps_the_digests() {
    let hashes = Hashes(vec![[7; 20], [8; 20]]);
    assert_eq!(hashes.clone().0, hashes.0);
}
