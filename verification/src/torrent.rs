//! The torrent descriptor: what a metadata file says, and the identifier of
//! its content.

use vstd::prelude::*;
use vstd::utf8::{decode_utf8, valid_utf8};
use vstd::slice::slice_to_vec;
use crate::bencode::{encode, lemma_list_view, list_view, lookup, parse_bencode, BencodeValue};
use crate::laws::{
    lemma_decoded_representable, lemma_keys_out_of_order_are_not_canonical, lemma_round_trip,
};
use crate::model::{decode_value, encode_dictionary, encode_value, entry, FormatError, Value};
use crate::order::{arranges, bytes_equal, strictly_ascending};
use crate::outside::{sha1, sha1_digest, string_from_utf8};

verus! {

/// What a metadata file says of a torrent.
#[derive(Debug)]
pub struct Torrent {
    /// The tracker's address; empty where the file names none.
    pub announce: String,
    /// The identifier of the content: the SHA-1 digest of the canonical
    /// encoding of the file's `info` dictionary.
    pub info_hash: [u8; 20],
    /// The name to show.
    pub name: String,
    /// The size of a piece in bytes.
    pub piece_length: u64,
    /// The digest of each piece, in order.
    pub pieces: Vec<[u8; 20]>,
    /// The length of the content in bytes; 0 where the file gives none.
    pub length: u64,
    /// Other addresses of the content.
    pub url_list: Vec<String>,
}

/// A torrent descriptor as plain mathematical values.
pub struct TorrentView {
    pub announce: Seq<char>,
    pub info_hash: Seq<u8>,
    pub name: Seq<char>,
    pub piece_length: u64,
    pub pieces: Seq<Seq<u8>>,
    pub length: u64,
    pub url_list: Seq<Seq<char>>,
}

impl View for Torrent {
    type V = TorrentView;

    open spec fn view(&self) -> TorrentView {
        TorrentView {
            announce: self.announce@,
            info_hash: self.info_hash@,
            name: self.name@,
            piece_length: self.piece_length,
            pieces: self.pieces@.map_values(|p: [u8; 20]| p@),
            length: self.length,
            url_list: self.url_list@.map_values(|s: String| s@),
        }
    }
}

/// A part of a metadata file that has to be there.
#[derive(Debug, Clone, Copy, PartialEq, Eq, Structural)]
pub enum TorrentField {
    /// The dictionary that the whole file is.
    Root,
    /// A tracker's address, or at least one other address of the content.
    Announce,
    /// The `info` dictionary.
    Info,
    /// The name, a byte string.
    Name,
    /// The piece length, an integer.
    PieceLength,
    /// The piece digests, a byte string.
    Pieces,
}

/// Why a byte sequence gives no torrent descriptor.
#[derive(Debug, Clone, Copy, PartialEq, Eq, Structural)]
pub enum TorrentError {
    /// The bytes are not an encoding.
    Format(FormatError),
    /// A part is absent or has the wrong shape.
    MissingField(TorrentField),
    /// A text is not valid UTF-8.
    InvalidText,
    /// The bytes are not the canonical encoding of what they decode to.
    EncodingMismatch,
}

/// The number `i` as 64 unsigned bits: negative numbers wrap around.
pub open spec fn wrapped_u64(i: i64) -> u64 {
    if i >= 0 {
        i as u64
    } else {
        (i + 0x1_0000_0000_0000_0000) as u64
    }
}

/// The texts of the byte strings among `items`, in order; an error where one
/// of them is not valid UTF-8. Items of other shapes are passed over.
pub open spec fn texts_of(items: Seq<Value>) -> Result<Seq<Seq<char>>, TorrentError>
    decreases items.len(),
{
    if items.len() == 0 {
        Ok(Seq::empty())
    } else {
        match texts_of(items.drop_last()) {
            Err(e) => Err(e),
            Ok(front) => match items.last() {
                Value::ByteString(b) => if valid_utf8(b) {
                    Ok(front.push(decode_utf8(b)))
                } else {
                    Err(TorrentError::InvalidText)
                },
                _ => Ok(front),
            },
        }
    }
}

/// The tracker's address that the root dictionary names: the text under
/// `announce`, or the empty text where there is no byte string under it.
pub open spec fn announce_of(root: Map<Seq<u8>, Value>) -> Result<Seq<char>, TorrentError> {
    match entry(root, "announce") {
        Some(Value::ByteString(b)) => if valid_utf8(b) {
            Ok(decode_utf8(b))
        } else {
            Err(TorrentError::InvalidText)
        },
        _ => Ok(Seq::empty()),
    }
}

/// The other addresses that the root dictionary names: the texts in the list
/// under `url-list`, or none where there is no list under it.
pub open spec fn url_list_of(root: Map<Seq<u8>, Value>) -> Result<Seq<Seq<char>>, TorrentError> {
    match entry(root, "url-list") {
        Some(Value::List(items)) => texts_of(items),
        _ => Ok(Seq::empty()),
    }
}

/// The piece digests in a byte string: each full run of 20 bytes, in order.
/// Bytes behind the last full run are left out.
pub open spec fn pieces_of(bytes: Seq<u8>) -> Seq<Seq<u8>> {
    Seq::new(bytes.len() / 20, |i: int| bytes.subrange(20 * i, 20 * i + 20))
}

/// The length that the `info` dictionary gives: the integer under `length`,
/// or 0 where there is none.
pub open spec fn length_of(info: Map<Seq<u8>, Value>) -> u64 {
    match entry(info, "length") {
        Some(Value::Integer(i)) => wrapped_u64(i),
        _ => 0,
    }
}

/// What the `info` dictionary says, beside the addresses that the root
/// dictionary gave: the name, the piece length and the piece digests must be
/// there. The content identifier is the SHA-1 digest of the canonical
/// encoding of the `info` dictionary.
pub open spec fn parts_of_info(
    announce: Seq<char>,
    url_list: Seq<Seq<char>>,
    info: Map<Seq<u8>, Value>,
) -> Result<TorrentView, TorrentError> {
    match entry(info, "name") {
        Some(Value::ByteString(name)) => if !valid_utf8(name) {
            Err(TorrentError::InvalidText)
        } else {
            match entry(info, "piece length") {
                Some(Value::Integer(piece_length)) => match entry(info, "pieces") {
                    Some(Value::ByteString(pieces)) => Ok(
                        TorrentView {
                            announce,
                            info_hash: sha1_digest(encode_value(Value::Dictionary(info))),
                            name: decode_utf8(name),
                            piece_length: wrapped_u64(piece_length),
                            pieces: pieces_of(pieces),
                            length: length_of(info),
                            url_list,
                        },
                    ),
                    _ => Err(TorrentError::MissingField(TorrentField::Pieces)),
                },
                _ => Err(TorrentError::MissingField(TorrentField::PieceLength)),
            }
        },
        _ => Err(TorrentError::MissingField(TorrentField::Name)),
    }
}

/// What a root dictionary says. The addresses come first: one of the
/// tracker's address and the list of other addresses must not be empty. Then
/// the `info` dictionary and its parts.
pub open spec fn parts_of_root(root: Map<Seq<u8>, Value>) -> Result<TorrentView, TorrentError> {
    match announce_of(root) {
        Err(e) => Err(e),
        Ok(announce) => match url_list_of(root) {
            Err(e) => Err(e),
            Ok(url_list) => if announce.len() == 0 && url_list.len() == 0 {
                Err(TorrentError::MissingField(TorrentField::Announce))
            } else {
                match entry(root, "info") {
                    Some(Value::Dictionary(info)) => parts_of_info(announce, url_list, info),
                    _ => Err(TorrentError::MissingField(TorrentField::Info)),
                }
            },
        },
    }
}

/// What bytes say of a torrent, whether or not they are canonical: they must
/// decode to a dictionary with the parts of a descriptor.
pub open spec fn parts_of(bytes: Seq<u8>) -> Result<TorrentView, TorrentError> {
    match decode_value(bytes) {
        Err(e) => Err(TorrentError::Format(e)),
        Ok((Value::Dictionary(root), _)) => parts_of_root(root),
        Ok(_) => Err(TorrentError::MissingField(TorrentField::Root)),
    }
}

/// The bytes are the canonical encoding of the value that they decode to.
/// Bytes behind the value, keys out of order, a key that comes twice, a sign
/// or a zero too many in a number: each makes bytes differ from it.
pub open spec fn is_canonical(bytes: Seq<u8>) -> bool {
    decode_value(bytes) matches Ok((v, _)) && encode_value(v) == bytes
}

/// The descriptor that the bytes of a metadata file give, or why they give
/// none: the first part that is absent or malformed, and with all parts
/// there, the refusal of bytes that are not canonical.
pub open spec fn descriptor_of(bytes: Seq<u8>) -> Result<TorrentView, TorrentError> {
    match parts_of(bytes) {
        Err(e) => Err(e),
        Ok(torrent) => if is_canonical(bytes) {
            Ok(torrent)
        } else {
            Err(TorrentError::EncodingMismatch)
        },
    }
}

/// The text that a byte string is the UTF-8 encoding of.
fn text_of(bytes: &Vec<u8>) -> (r: Result<String, TorrentError>)
    ensures
        match r {
            Ok(text) => valid_utf8(bytes@) && text@ == decode_utf8(bytes@),
            Err(e) => !valid_utf8(bytes@) && e == TorrentError::InvalidText,
        },
{
    match string_from_utf8(slice_to_vec(bytes.as_slice())) {
        Some(text) => Ok(text),
        None => Err(TorrentError::InvalidText),
    }
}

/// The number `i` as 64 unsigned bits: negative numbers wrap around.
fn wrap_u64(i: i64) -> (r: u64)
    ensures
        r == wrapped_u64(i),
{
    if i >= 0 {
        i as u64
    } else {
        u64::MAX - ((-(i + 1)) as u64)
    }
}

/// The texts of the byte strings among `items`, in order.
fn texts(items: &Vec<BencodeValue>) -> (r: Result<Vec<String>, TorrentError>)
    ensures
        match r {
            Ok(found) => texts_of(list_view(items@)) == Ok::<_, TorrentError>(
                found@.map_values(|s: String| s@),
            ),
            Err(e) => texts_of(list_view(items@)) == Err::<Seq<Seq<char>>, _>(e),
        },
{
    let mut found: Vec<String> = Vec::new();
    let mut i: usize = 0;
    proof {
        lemma_list_view(items@);
        assert(list_view(items@).subrange(0, 0) =~= Seq::<Value>::empty());
        assert(found@.map_values(|s: String| s@) =~= Seq::<Seq<char>>::empty());
    }
    while i < items.len()
        invariant
            i <= items@.len(),
            list_view(items@).len() == items@.len(),
            forall|j: int| 0 <= j < items@.len() ==> #[trigger] list_view(items@)[j] == items@[j]@,
            texts_of(list_view(items@).subrange(0, i as int)) == Ok::<_, TorrentError>(
                found@.map_values(|s: String| s@),
            ),
        decreases items@.len() - i,
    {
        let ghost upto = list_view(items@).subrange(0, i + 1);
        let ghost before = found@.map_values(|s: String| s@);
        proof {
            assert(upto.drop_last() =~= list_view(items@).subrange(0, i as int));
            assert(upto.last() == items@[i as int]@);
        }
        match &items[i] {
            BencodeValue::ByteString(b) => {
                match text_of(b) {
                    Ok(text) => {
                        let ghost t = text@;
                        found.push(text);
                        proof {
                            assert(found@.map_values(|s: String| s@) =~= before.push(t));
                        }
                    },
                    Err(e) => {
                        proof {
                            lemma_texts_of_fails(list_view(items@), i + 1);
                        }
                        return Err(e);
                    },
                }
            },
            _ => {},
        }
        i = i + 1;
    }
    proof {
        assert(list_view(items@).subrange(0, i as int) =~= list_view(items@));
    }
    Ok(found)
}

/// Where the texts of the first items fail, the texts of all of them fail.
proof fn lemma_texts_of_fails(items: Seq<Value>, n: int)
    requires
        0 <= n <= items.len(),
        texts_of(items.subrange(0, n)) is Err,
    ensures
        texts_of(items) == Err::<Seq<Seq<char>>, _>(TorrentError::InvalidText),
    decreases items.len() - n,
{
    lemma_texts_of_error(items.subrange(0, n));
    if n == items.len() {
        assert(items.subrange(0, n) =~= items);
    } else {
        assert(items.subrange(0, n + 1).drop_last() =~= items.subrange(0, n));
        lemma_texts_of_fails(items, n + 1);
    }
}

/// The only error of `texts_of` is a text that is not valid UTF-8.
proof fn lemma_texts_of_error(items: Seq<Value>)
    ensures
        texts_of(items) is Err ==> texts_of(items) == Err::<Seq<Seq<char>>, _>(
            TorrentError::InvalidText,
        ),
    decreases items.len(),
{
    if items.len() > 0 {
        lemma_texts_of_error(items.drop_last());
    }
}

/// The piece digests in a byte string: each full run of 20 bytes, in order.
fn pieces(bytes: &Vec<u8>) -> (r: Vec<[u8; 20]>)
    ensures
        r@.map_values(|p: [u8; 20]| p@) == pieces_of(bytes@),
{
    let count: usize = bytes.len() / 20;
    let mut found: Vec<[u8; 20]> = Vec::new();
    let mut i: usize = 0;
    while i < count
        invariant
            count == bytes@.len() / 20,
            20 * count <= bytes@.len() <= usize::MAX,
            i <= count,
            found@.len() == i,
            forall|j: int| 0 <= j < i ==> (#[trigger] found@[j])@ == bytes@.subrange(20 * j, 20 * j + 20),
        decreases count - i,
    {
        let mut piece: [u8; 20] = [0u8; 20];
        let from: usize = i * 20;
        let mut k: usize = 0;
        while k < 20
            invariant
                k <= 20,
                from == 20 * i,
                from + 20 <= bytes@.len() <= usize::MAX,
                forall|j: int| 0 <= j < k ==> piece@[j] == bytes@[from + j],
            decreases 20 - k,
        {
            piece[k] = bytes[from + k];
            k = k + 1;
        }
        proof {
            assert(piece@ =~= bytes@.subrange(20 * i, 20 * i + 20));
        }
        found.push(piece);
        i = i + 1;
    }
    proof {
        assert(found@.map_values(|p: [u8; 20]| p@) =~= pieces_of(bytes@));
    }
    found
}

impl Torrent {
    /// Reads the descriptor from the bytes of a metadata file. The content
    /// identifier is the SHA-1 digest of the canonical encoding of the `info`
    /// dictionary.
    pub fn from_bytes(contents: &[u8]) -> (r: Result<Torrent, TorrentError>)
        ensures
            match r {
                Ok(torrent) => descriptor_of(contents@) == Ok::<_, TorrentError>(torrent@),
                Err(e) => descriptor_of(contents@) == Err::<TorrentView, _>(e),
            },
    {
        let value = match parse_bencode(contents) {
            Err(e) => {
                return Err(TorrentError::Format(e));
            },
            Ok((value, _)) => value,
        };
        let root = match &value {
            BencodeValue::Dictionary(root) => root,
            _ => {
                return Err(TorrentError::MissingField(TorrentField::Root));
            },
        };
        let announce = match lookup(root, "announce") {
            Some(BencodeValue::ByteString(b)) => match text_of(b) {
                Ok(text) => text,
                Err(e) => {
                    return Err(e);
                },
            },
            _ => String::new(),
        };
        let url_list = match lookup(root, "url-list") {
            Some(BencodeValue::List(items)) => match texts(items) {
                Ok(found) => found,
                Err(e) => {
                    return Err(e);
                },
            },
            _ => Vec::new(),
        };
        proof {
            assert(Seq::<String>::empty().map_values(|s: String| s@) =~= Seq::<Seq<char>>::empty());
        }
        if announce.as_str().is_empty() && url_list.len() == 0 {
            return Err(TorrentError::MissingField(TorrentField::Announce));
        }
        let info_value = match lookup(root, "info") {
            Some(v) => v,
            None => {
                return Err(TorrentError::MissingField(TorrentField::Info));
            },
        };
        let info = match info_value {
            BencodeValue::Dictionary(info) => info,
            _ => {
                return Err(TorrentError::MissingField(TorrentField::Info));
            },
        };
        let name = match lookup(info, "name") {
            Some(BencodeValue::ByteString(b)) => match text_of(b) {
                Ok(text) => text,
                Err(e) => {
                    return Err(e);
                },
            },
            _ => {
                return Err(TorrentError::MissingField(TorrentField::Name));
            },
        };
        let piece_length = match lookup(info, "piece length") {
            Some(BencodeValue::Integer(i)) => wrap_u64(*i),
            _ => {
                return Err(TorrentError::MissingField(TorrentField::PieceLength));
            },
        };
        let pieces = match lookup(info, "pieces") {
            Some(BencodeValue::ByteString(b)) => pieces(b),
            _ => {
                return Err(TorrentError::MissingField(TorrentField::Pieces));
            },
        };
        let length = match lookup(info, "length") {
            Some(BencodeValue::Integer(i)) => wrap_u64(*i),
            _ => 0,
        };
        let encoded = encode(&value);
        if !bytes_equal(encoded.as_slice(), contents) {
            return Err(TorrentError::EncodingMismatch);
        }
        let info_bytes = encode(info_value);
        let info_hash = sha1(info_bytes.as_slice());
        Ok(Torrent { announce, info_hash, name, piece_length, pieces, length, url_list })
    }
}

/// Two descriptors read from the same bytes have the same content identifier.
pub proof fn lemma_info_hash_determined(bytes: Seq<u8>, first: TorrentView, second: TorrentView)
    requires
        descriptor_of(bytes) == Ok::<_, TorrentError>(first),
        descriptor_of(bytes) == Ok::<_, TorrentError>(second),
    ensures
        first.info_hash == second.info_hash,
{
}

/// Bytes that are not the canonical encoding of what they decode to give no
/// descriptor; with all the parts of a descriptor there, what they give is
/// the encoding mismatch.
pub proof fn lemma_bytes_not_canonical_are_refused(bytes: Seq<u8>)
    requires
        !is_canonical(bytes),
    ensures
        descriptor_of(bytes) is Err,
        parts_of(bytes) is Ok ==> descriptor_of(bytes) == Err::<TorrentView, _>(
            TorrentError::EncodingMismatch,
        ),
{
}

/// Bytes that give a descriptor are the canonical encoding of the value that
/// they decode to, with nothing behind it.
pub proof fn lemma_descriptor_only_of_canonical_bytes(bytes: Seq<u8>)
    requires
        descriptor_of(bytes) is Ok,
    ensures
        decode_value(bytes) matches Ok((v, rest)) && encode_value(v) == bytes && rest.len() == 0,
{
    let v = decode_value(bytes)->Ok_0.0;
    lemma_decoded_representable(bytes);
    lemma_round_trip(v);
}

/// A metadata file whose keys are out of order gives no descriptor: the
/// entries of a dictionary, written with its keys each once in an order that
/// is not the ascending one, are refused, and with all the parts of a
/// descriptor there the refusal is the encoding mismatch.
pub proof fn lemma_keys_out_of_order_are_refused(root: Map<Seq<u8>, Value>, keys: Seq<Seq<u8>>)
    requires
        Value::Dictionary(root).representable(),
        arranges(keys, root.dom()),
        !strictly_ascending(keys),
    ensures
        descriptor_of(encode_dictionary(root, keys)) is Err,
        parts_of_root(root) is Ok ==> descriptor_of(encode_dictionary(root, keys)) == Err::<
            TorrentView,
            _,
        >(TorrentError::EncodingMismatch),
{
    lemma_keys_out_of_order_are_not_canonical(root, keys);
}

} // verus!
