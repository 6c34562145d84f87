use torrent_wire::model::FormatError;
use torrent_wire::torrent::{Torrent, TorrentError, TorrentField};

const SMALL: &[u8] =
    b"d8:announce20:http://tracker.test/4:infod4:name3:abc12:piece lengthi16384e6:pieces20:AAAAAAAAAAAAAAAAAAAAee";

const SMALL_INFO_HASH: [u8; 20] = [
    149, 22, 202, 181, 211, 215, 4, 80, 204, 37, 33, 209, 210, 130, 150, 162, 167, 193, 157, 168,
];

fn error_of(contents: &[u8]) -> TorrentError {
    match Torrent::from_bytes(contents) {
        Ok(_) => panic!("the bytes give a descriptor"),
        Err(e) => e,
    }
}

#[test]
fn reads_a_small_descriptor() {
    let torrent = Torrent::from_bytes(SMALL).unwrap();
    assert_eq!(torrent.name, "abc");
    assert_eq!(torrent.piece_length, 16384);
    assert_eq!(torrent.pieces, vec![[b'A'; 20]]);
    assert!(torrent.url_list.is_empty());
    assert_eq!(torrent.announce, "http://tracker.test/");
    assert_eq!(torrent.length, 0);
}

#[test]
fn the_content_identifier_is_the_digest_of_the_info_dictionary() {
    let torrent = Torrent::from_bytes(SMALL).unwrap();
    assert_eq!(torrent.info_hash, SMALL_INFO_HASH);
}

#[test]
fn the_content_identifier_depends_on_the_info_dictionary_alone() {
    let other_tracker: &[u8] =
        b"d8:announce18:http://other.test/4:infod4:name3:abc12:piece lengthi16384e6:pieces20:AAAAAAAAAAAAAAAAAAAAee";
    let torrent = Torrent::from_bytes(other_tracker).unwrap();
    assert_eq!(torrent.announce, "http://other.test/");
    assert_eq!(torrent.info_hash, SMALL_INFO_HASH);
    let with_length: &[u8] =
        b"d8:announce20:http://tracker.test/4:infod6:lengthi1000e4:name3:abc12:piece lengthi16384e6:pieces20:AAAAAAAAAAAAAAAAAAAAee";
    let torrent = Torrent::from_bytes(with_length).unwrap();
    assert_eq!(torrent.length, 1000);
    assert_eq!(
        torrent.info_hash,
        [1, 127, 232, 69, 177, 42, 155, 248, 187, 95, 210, 7, 200, 142, 140, 132, 159, 193, 215, 133]
    );
}

#[test]
fn reading_twice_gives_the_same_content_identifier() {
    let first = Torrent::from_bytes(SMALL).unwrap();
    let second = Torrent::from_bytes(SMALL).unwrap();
    assert_eq!(first.info_hash, second.info_hash);
    assert_eq!(first.name, second.name);
    assert_eq!(first.pieces, second.pieces);
}

#[test]
fn refuses_keys_out_of_order() {
    let swapped: &[u8] =
        b"d4:infod4:name3:abc12:piece lengthi16384e6:pieces20:AAAAAAAAAAAAAAAAAAAAe8:announce20:http://tracker.test/e";
    assert_eq!(error_of(swapped), TorrentError::EncodingMismatch);
    let swapped_inside: &[u8] =
        b"d8:announce20:http://tracker.test/4:infod12:piece lengthi16384e4:name3:abc6:pieces20:AAAAAAAAAAAAAAAAAAAAee";
    assert_eq!(error_of(swapped_inside), TorrentError::EncodingMismatch);
}

#[test]
fn refuses_bytes_that_are_not_canonical() {
    let trailing: &[u8] =
        b"d8:announce20:http://tracker.test/4:infod4:name3:abc12:piece lengthi16384e6:pieces20:AAAAAAAAAAAAAAAAAAAAeeX";
    assert_eq!(error_of(trailing), TorrentError::EncodingMismatch);
    let leading_zero: &[u8] =
        b"d8:announce20:http://tracker.test/4:infod4:name3:abc12:piece lengthi016384e6:pieces20:AAAAAAAAAAAAAAAAAAAAee";
    assert_eq!(error_of(leading_zero), TorrentError::EncodingMismatch);
    let twice: &[u8] =
        b"d8:announce20:http://tracker.test/4:infod4:name3:abc4:name3:abc12:piece lengthi16384e6:pieces20:AAAAAAAAAAAAAAAAAAAAee";
    assert_eq!(error_of(twice), TorrentError::EncodingMismatch);
}

#[test]
fn a_missing_part_comes_before_the_canonical_check() {
    let swapped_without_name: &[u8] =
        b"d4:infod12:piece lengthi16384e6:pieces20:AAAAAAAAAAAAAAAAAAAAe8:announce20:http://tracker.test/e";
    assert_eq!(
        error_of(swapped_without_name),
        TorrentError::MissingField(TorrentField::Name)
    );
}

#[test]
fn refuses_bytes_that_are_no_encoding() {
    assert_eq!(error_of(b""), TorrentError::Format(FormatError::UnknownType));
    assert_eq!(error_of(b"d8:announce"), TorrentError::Format(FormatError::UnknownType));
    assert_eq!(
        error_of(b"d8:announ"),
        TorrentError::Format(FormatError::TruncatedByteString)
    );
    assert_eq!(
        error_of(b"d8:announce20:http://tracker.test/"),
        TorrentError::Format(FormatError::UnterminatedDictionary)
    );
}

#[test]
fn refuses_what_is_no_dictionary() {
    assert_eq!(error_of(b"i1e"), TorrentError::MissingField(TorrentField::Root));
    assert_eq!(error_of(b"le"), TorrentError::MissingField(TorrentField::Root));
    assert_eq!(error_of(b"3:abc"), TorrentError::MissingField(TorrentField::Root));
}

#[test]
fn refuses_a_descriptor_without_any_address() {
    let no_address: &[u8] =
        b"d4:infod4:name3:abc12:piece lengthi16384e6:pieces20:AAAAAAAAAAAAAAAAAAAAee";
    assert_eq!(error_of(no_address), TorrentError::MissingField(TorrentField::Announce));
    assert_eq!(error_of(b"de"), TorrentError::MissingField(TorrentField::Announce));
    let empty_addresses: &[u8] =
        b"d8:announce0:4:infod4:name3:abc12:piece lengthi16384e6:pieces20:AAAAAAAAAAAAAAAAAAAAe8:url-listlee";
    assert_eq!(
        error_of(empty_addresses),
        TorrentError::MissingField(TorrentField::Announce)
    );
    let wrong_shapes: &[u8] = b"d8:announcei1e8:url-list1:xe";
    assert_eq!(error_of(wrong_shapes), TorrentError::MissingField(TorrentField::Announce));
}

#[test]
fn reads_a_descriptor_with_other_addresses_only() {
    let contents: &[u8] =
        b"d4:infod4:name3:abc12:piece lengthi16384e6:pieces20:AAAAAAAAAAAAAAAAAAAAe8:url-listl14:http://a.test/i7e14:http://b.test/ee";
    let torrent = Torrent::from_bytes(contents).unwrap();
    assert_eq!(torrent.announce, "");
    assert_eq!(torrent.url_list, vec!["http://a.test/".to_string(), "http://b.test/".to_string()]);
    assert_eq!(torrent.info_hash, SMALL_INFO_HASH);
}

#[test]
fn refuses_a_descriptor_without_info() {
    assert_eq!(
        error_of(b"d8:announce20:http://tracker.test/e"),
        TorrentError::MissingField(TorrentField::Info)
    );
    assert_eq!(
        error_of(b"d8:announce20:http://tracker.test/4:infoi1ee"),
        TorrentError::MissingField(TorrentField::Info)
    );
}

#[test]
fn refuses_an_info_dictionary_without_its_parts() {
    assert_eq!(
        error_of(b"d8:announce20:http://tracker.test/4:infodee"),
        TorrentError::MissingField(TorrentField::Name)
    );
    assert_eq!(
        error_of(b"d8:announce20:http://tracker.test/4:infod4:namei1eee"),
        TorrentError::MissingField(TorrentField::Name)
    );
    assert_eq!(
        error_of(b"d8:announce20:http://tracker.test/4:infod4:name3:abcee"),
        TorrentError::MissingField(TorrentField::PieceLength)
    );
    assert_eq!(
        error_of(b"d8:announce20:http://tracker.test/4:infod4:name3:abc12:piece length2:16ee"),
        TorrentError::MissingField(TorrentField::PieceLength)
    );
    assert_eq!(
        error_of(b"d8:announce20:http://tracker.test/4:infod4:name3:abc12:piece lengthi16384eee"),
        TorrentError::MissingField(TorrentField::Pieces)
    );
    assert_eq!(
        error_of(
            b"d8:announce20:http://tracker.test/4:infod4:name3:abc12:piece lengthi16384e6:piecesleee"
        ),
        TorrentError::MissingField(TorrentField::Pieces)
    );
}

#[test]
fn refuses_text_that_is_not_utf8() {
    assert_eq!(
        error_of(b"d8:announce20:http://tracker.test/4:infod4:name3:a\xffc12:piece lengthi16384e6:pieces20:AAAAAAAAAAAAAAAAAAAAee"),
        TorrentError::InvalidText
    );
    assert_eq!(
        error_of(b"d8:announce2:\xc3\x284:infod4:name3:abc12:piece lengthi16384e6:pieces20:AAAAAAAAAAAAAAAAAAAAee"),
        TorrentError::InvalidText
    );
    assert_eq!(
        error_of(b"d8:announce20:http://tracker.test/8:url-listl1:a1:\x80ee"),
        TorrentError::InvalidText
    );
}

#[test]
fn reads_text_that_is_utf8() {
    let contents =
        "d8:announce20:http://tracker.test/4:infod4:name6:né✓12:piece lengthi1e6:pieces0:ee";
    let torrent = Torrent::from_bytes(contents.as_bytes()).unwrap();
    assert_eq!(torrent.name, "né✓");
    assert!(torrent.pieces.is_empty());
}

#[test]
fn cuts_the_piece_digests_into_runs_of_20_bytes() {
    let contents: &[u8] =
        b"d8:announce20:http://tracker.test/4:infod4:name3:abc12:piece lengthi16384e6:pieces40:AAAAAAAAAAAAAAAAAAAABBBBBBBBBBBBBBBBBBBBee";
    let torrent = Torrent::from_bytes(contents).unwrap();
    assert_eq!(torrent.pieces, vec![[b'A'; 20], [b'B'; 20]]);
}

#[test]
fn leaves_out_bytes_behind_the_last_full_piece_digest() {
    let contents: &[u8] =
        b"d8:announce20:http://tracker.test/4:infod4:name3:abc12:piece lengthi16384e6:pieces25:AAAAAAAAAAAAAAAAAAAABBBBBee";
    let torrent = Torrent::from_bytes(contents).unwrap();
    assert_eq!(torrent.pieces, vec![[b'A'; 20]]);
    let contents: &[u8] =
        b"d8:announce20:http://tracker.test/4:infod4:name3:abc12:piece lengthi16384e6:pieces19:AAAAAAAAAAAAAAAAAAAee";
    let torrent = Torrent::from_bytes(contents).unwrap();
    assert!(torrent.pieces.is_empty());
}

#[test]
fn negative_numbers_wrap_around() {
    let contents: &[u8] =
        b"d8:announce20:http://tracker.test/4:infod6:lengthi-1e4:name3:abc12:piece lengthi-2e6:pieces0:ee";
    let torrent = Torrent::from_bytes(contents).unwrap();
    assert_eq!(torrent.length, u64::MAX);
    assert_eq!(torrent.piece_length, u64::MAX - 1);
    let contents: &[u8] =
        b"d8:announce20:http://tracker.test/4:infod6:lengthi-9223372036854775808e4:name3:abc12:piece lengthi9223372036854775807e6:pieces0:ee";
    let torrent = Torrent::from_bytes(contents).unwrap();
    assert_eq!(torrent.length, 1u64 << 63);
    assert_eq!(torrent.piece_length, (1u64 << 63) - 1);
}

#[test]
fn a_length_that_is_no_integer_counts_as_absent() {
    let contents: &[u8] =
        b"d8:announce20:http://tracker.test/4:infod6:length2:104:name3:abc12:piece lengthi1e6:pieces0:ee";
    let torrent = Torrent::from_bytes(contents).unwrap();
    assert_eq!(torrent.length, 0);
}
