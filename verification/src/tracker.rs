//! The tracker: the address of the request for peers, and what the reply says.

use vstd::prelude::*;
use vstd::string::{StrSliceExecFns, StringExecFns, StringSliceAdditionalSpecFns};
use vstd::utf8::{decode_utf8, encode_utf8, valid_utf8};
use crate::bencode::{lemma_list_view, list_view, lookup, parse_bencode, BencodeValue};
use crate::model::{decode_value, entry, FormatError, Value};
use crate::outside::{
    lossy_text, string_from_utf8_lossy, url_as_str, url_parse, url_parse_text, url_set_query,
    url_takes_query, url_text_with_query,
};
use crate::torrent::{Torrent, TorrentView};

verus! {

/// A peer: where to reach it.
#[derive(Debug)]
pub struct Peer {
    /// The address, an IP address or a host name.
    pub ip: String,
    pub port: u16,
}

/// What a tracker replies: when to ask again, and the peers.
#[derive(Debug)]
pub struct TrackerResponse {
    /// The time in seconds after which to ask again.
    pub interval: u32,
    pub peers: Vec<Peer>,
}

/// A peer as plain mathematical values.
pub struct PeerView {
    pub ip: Seq<char>,
    pub port: u16,
}

/// A tracker's reply as plain mathematical values.
pub struct TrackerResponseView {
    pub interval: u32,
    pub peers: Seq<PeerView>,
}

impl View for Peer {
    type V = PeerView;

    open spec fn view(&self) -> PeerView {
        PeerView { ip: self.ip@, port: self.port }
    }
}

impl View for TrackerResponse {
    type V = TrackerResponseView;

    open spec fn view(&self) -> TrackerResponseView {
        TrackerResponseView {
            interval: self.interval,
            peers: self.peers@.map_values(|p: Peer| p@),
        }
    }
}

/// Why there is no address to ask a tracker at.
#[derive(Debug, Clone, Copy, PartialEq, Eq, Structural)]
pub enum RequestError {
    /// The descriptor names neither a tracker nor another address.
    MissingEndpoint,
    /// The address is not a URL.
    InvalidUrl,
    /// The address is too long to take a query.
    UrlTooLong,
    /// The address is neither `http://` nor `https://`.
    InvalidScheme,
}

/// Why a tracker's reply gives no peers.
#[derive(Debug, PartialEq, Eq)]
pub enum ResponseError {
    /// The reply is not an encoding.
    Format(FormatError),
    /// The reply is not a dictionary.
    NotADictionary,
    /// The tracker refuses, and says why.
    Failure(String),
    /// There is no integer under `interval`.
    MissingInterval,
    /// There is no list under `peers`.
    MissingPeers,
}

/// Why a reply gives no peers, as plain mathematical values.
pub enum ResponseErrorView {
    Format(FormatError),
    NotADictionary,
    Failure(Seq<char>),
    MissingInterval,
    MissingPeers,
}

impl View for ResponseError {
    type V = ResponseErrorView;

    open spec fn view(&self) -> ResponseErrorView {
        match self {
            ResponseError::Format(e) => ResponseErrorView::Format(*e),
            ResponseError::NotADictionary => ResponseErrorView::NotADictionary,
            ResponseError::Failure(reason) => ResponseErrorView::Failure(reason@),
            ResponseError::MissingInterval => ResponseErrorView::MissingInterval,
            ResponseError::MissingPeers => ResponseErrorView::MissingPeers,
        }
    }
}

/// The sixteen hexadecimal digits, in upper case.
pub open spec fn hex_digits() -> Seq<char> {
    "0123456789ABCDEF"@
}

/// A byte as an escape: `%` and its two hexadecimal digits in upper case.
pub open spec fn escaped_byte(b: u8) -> Seq<char> {
    seq!['%', hex_digits()[b as int / 16], hex_digits()[b as int % 16]]
}

/// Bytes as escapes, every byte escaped, also those that are letters or digits.
pub open spec fn escaped(bytes: Seq<u8>) -> Seq<char>
    decreases bytes.len(),
{
    if bytes.len() == 0 {
        Seq::empty()
    } else {
        escaped(bytes.drop_last()) + escaped_byte(bytes.last())
    }
}

/// A number in decimal digits.
pub open spec fn decimal(n: nat) -> Seq<char>
    decreases n,
{
    if n < 10 {
        seq![hex_digits()[n as int]]
    } else {
        decimal(n / 10).push(hex_digits()[n as int % 10])
    }
}

/// The query of a request for peers: the content identifier and the peer
/// identifier as escapes, the port 6881, nothing up or down so far, and the
/// length of the content as what is left.
pub open spec fn query_text(info_hash: Seq<u8>, peer_id: Seq<u8>, left: u64) -> Seq<char> {
    "info_hash="@ + escaped(info_hash) + "&peer_id="@ + escaped(peer_id)
        + "&port=6881&uploaded=0&downloaded=0&left="@ + decimal(left as nat)
}

/// The address that a descriptor names for its tracker: the tracker's, or
/// the first of the others where it names no tracker.
pub open spec fn tracker_base(torrent: TorrentView) -> Option<Seq<char>> {
    if torrent.announce.len() > 0 {
        Some(torrent.announce)
    } else if torrent.url_list.len() > 0 {
        Some(torrent.url_list[0])
    } else {
        None
    }
}

/// The address of the request for peers: the tracker's address as the `url`
/// crate parses it, with the query put in.
pub open spec fn tracker_url(torrent: TorrentView, peer_id: Seq<u8>) -> Result<
    Seq<char>,
    RequestError,
> {
    match tracker_base(torrent) {
        None => Err(RequestError::MissingEndpoint),
        Some(base) => match url_parse_text(base) {
            None => Err(RequestError::InvalidUrl),
            Some(text) => {
                let query = query_text(torrent.info_hash, peer_id, torrent.length);
                if url_takes_query(text, query) {
                    Ok(url_text_with_query(text, query))
                } else {
                    Err(RequestError::UrlTooLong)
                }
            },
        },
    }
}

/// The text starts with `http://` or with `https://`.
pub open spec fn is_http(url: Seq<char>) -> bool {
    "http://".spec_bytes().is_prefix_of(encode_utf8(url)) || "https://".spec_bytes().is_prefix_of(
        encode_utf8(url),
    )
}

/// The address to ask at, if it is one that can be asked over HTTP.
pub open spec fn checked_url(url: Result<Seq<char>, RequestError>) -> Result<
    Seq<char>,
    RequestError,
> {
    match url {
        Err(e) => Err(e),
        Ok(text) => if is_http(text) {
            Ok(text)
        } else {
            Err(RequestError::InvalidScheme)
        },
    }
}

/// The low 32 bits of a number.
pub open spec fn low_u32(i: i64) -> u32 {
    (i as int % 0x1_0000_0000) as u32
}

/// The low 16 bits of a number.
pub open spec fn low_u16(i: i64) -> u16 {
    (i as int % 0x1_0000) as u16
}

/// The text of bytes that should be UTF-8: the text that they encode, or,
/// where they are not valid UTF-8, what `String::from_utf8_lossy` makes of
/// them, with replacement characters.
pub open spec fn text_of_bytes(bytes: Seq<u8>) -> Seq<char> {
    if valid_utf8(bytes) {
        decode_utf8(bytes)
    } else {
        lossy_text(bytes)
    }
}

/// The peer that an entry of the peer list describes: a dictionary with a
/// byte string under `ip` and an integer under `port`. Any other entry
/// describes none.
pub open spec fn peer_of(v: Value) -> Option<PeerView> {
    match v {
        Value::Dictionary(m) => match entry(m, "ip") {
            Some(Value::ByteString(ip)) => match entry(m, "port") {
                Some(Value::Integer(port)) => Some(
                    PeerView { ip: text_of_bytes(ip), port: low_u16(port) },
                ),
                _ => None,
            },
            _ => None,
        },
        _ => None,
    }
}

/// The peers that the entries of a peer list describe, in order; entries that
/// describe none are passed over.
pub open spec fn peers_of(items: Seq<Value>) -> Seq<PeerView>
    decreases items.len(),
{
    if items.len() == 0 {
        Seq::empty()
    } else {
        match peer_of(items.last()) {
            Some(peer) => peers_of(items.drop_last()).push(peer),
            None => peers_of(items.drop_last()),
        }
    }
}

/// What the root dictionary of a reply says. A refusal comes first: with a
/// byte string under `failure reason` the reply is that refusal, whatever
/// else it holds.
pub open spec fn response_of_root(root: Map<Seq<u8>, Value>) -> Result<
    TrackerResponseView,
    ResponseErrorView,
> {
    match entry(root, "failure reason") {
        Some(Value::ByteString(reason)) => Err(ResponseErrorView::Failure(text_of_bytes(reason))),
        _ => match entry(root, "interval") {
            Some(Value::Integer(interval)) => match entry(root, "peers") {
                Some(Value::List(items)) => Ok(
                    TrackerResponseView { interval: low_u32(interval), peers: peers_of(items) },
                ),
                _ => Err(ResponseErrorView::MissingPeers),
            },
            _ => Err(ResponseErrorView::MissingInterval),
        },
    }
}

/// What the bytes of a tracker's reply say, or why they give no peers.
pub open spec fn response_of(bytes: Seq<u8>) -> Result<TrackerResponseView, ResponseErrorView> {
    match decode_value(bytes) {
        Err(e) => Err(ResponseErrorView::Format(e)),
        Ok((Value::Dictionary(root), _)) => response_of_root(root),
        Ok(_) => Err(ResponseErrorView::NotADictionary),
    }
}

/// Escapes are three characters for each byte: the byte at place `i` stands
/// at `3 * i` as `%` and its two hexadecimal digits in upper case.
pub proof fn lemma_escaped(bytes: Seq<u8>)
    ensures
        escaped(bytes).len() == 3 * bytes.len(),
        forall|i: int|
            0 <= i < bytes.len() ==> escaped(bytes).subrange(3 * i, 3 * i + 3) == escaped_byte(
                #[trigger] bytes[i],
            ),
    decreases bytes.len(),
{
    if bytes.len() > 0 {
        let front = bytes.drop_last();
        lemma_escaped(front);
        assert forall|i: int| 0 <= i < bytes.len() implies escaped(bytes).subrange(
            3 * i,
            3 * i + 3,
        ) == escaped_byte(#[trigger] bytes[i]) by {
            if i < front.len() {
                assert(front[i] == bytes[i]);
                assert(escaped(bytes).subrange(3 * i, 3 * i + 3) =~= escaped(front).subrange(
                    3 * i,
                    3 * i + 3,
                ));
            } else {
                assert(escaped(bytes).subrange(3 * i, 3 * i + 3) =~= escaped_byte(bytes.last()));
            }
        }
    }
}

/// In the query of a request, each of the 20 bytes of the content identifier
/// and each of the 20 bytes of the peer identifier stands as an escape: the
/// content identifier's from place 10 on, the peer identifier's from place 79
/// on, three characters for each byte.
pub proof fn lemma_query_escapes_every_byte(info_hash: Seq<u8>, peer_id: Seq<u8>, left: u64)
    requires
        info_hash.len() == 20,
        peer_id.len() == 20,
    ensures
        query_text(info_hash, peer_id, left).len() >= 139,
        forall|i: int|
            0 <= i < 20 ==> query_text(info_hash, peer_id, left).subrange(
                10 + 3 * i,
                13 + 3 * i,
            ) == escaped_byte(#[trigger] info_hash[i]),
        forall|i: int|
            0 <= i < 20 ==> query_text(info_hash, peer_id, left).subrange(
                79 + 3 * i,
                82 + 3 * i,
            ) == escaped_byte(#[trigger] peer_id[i]),
{
    reveal_strlit("info_hash=");
    reveal_strlit("&peer_id=");
    let q = query_text(info_hash, peer_id, left);
    lemma_escaped(info_hash);
    lemma_escaped(peer_id);
    assert forall|i: int| 0 <= i < 20 implies q.subrange(10 + 3 * i, 13 + 3 * i) == escaped_byte(
        #[trigger] info_hash[i],
    ) by {
        assert(q.subrange(10 + 3 * i, 13 + 3 * i) =~= escaped(info_hash).subrange(
            3 * i,
            3 * i + 3,
        ));
    }
    assert forall|i: int| 0 <= i < 20 implies q.subrange(79 + 3 * i, 82 + 3 * i) == escaped_byte(
        #[trigger] peer_id[i],
    ) by {
        assert(q.subrange(79 + 3 * i, 82 + 3 * i) =~= escaped(peer_id).subrange(3 * i, 3 * i + 3));
    }
}

/// Appends the hexadecimal digit of `n`.
fn push_hex_digit(out: &mut String, n: u8)
    requires
        n < 16,
    ensures
        final(out)@ == old(out)@.push(hex_digits()[n as int]),
{
    let table = "0123456789ABCDEF";
    proof {
        reveal_strlit("0123456789ABCDEF");
    }
    let digit = table.substring_ascii(n as usize, n as usize + 1);
    out.append(digit);
    proof {
        assert(final(out)@ =~= old(out)@.push(hex_digits()[n as int]));
    }
}

/// Appends the escapes of `bytes`.
fn push_escaped(out: &mut String, bytes: &[u8])
    ensures
        final(out)@ == old(out)@ + escaped(bytes@),
{
    let mut i: usize = 0;
    proof {
        assert(bytes@.subrange(0, 0) =~= Seq::<u8>::empty());
        assert(out@ =~= old(out)@ + escaped(bytes@.subrange(0, 0)));
    }
    while i < bytes.len()
        invariant
            i <= bytes@.len(),
            out@ == old(out)@ + escaped(bytes@.subrange(0, i as int)),
        decreases bytes@.len() - i,
    {
        let b: u8 = bytes[i];
        let ghost before = out@;
        out.append("%");
        push_hex_digit(out, b / 16);
        push_hex_digit(out, b % 16);
        proof {
            reveal_strlit("%");
            let upto = bytes@.subrange(0, i + 1);
            assert(upto.drop_last() =~= bytes@.subrange(0, i as int));
            assert(upto.last() == b);
            assert(out@ =~= before + escaped_byte(b));
            assert(out@ =~= old(out)@ + escaped(upto));
        }
        i = i + 1;
    }
    proof {
        assert(bytes@.subrange(0, i as int) =~= bytes@);
    }
}

/// Appends `n` in decimal digits.
fn push_decimal(out: &mut String, n: u64)
    ensures
        final(out)@ == old(out)@ + decimal(n as nat),
    decreases n,
{
    if n >= 10 {
        push_decimal(out, n / 10);
    }
    push_hex_digit(out, (n % 10) as u8);
    proof {
        assert(final(out)@ =~= old(out)@ + decimal(n as nat));
    }
}

/// The query of a request for peers.
pub fn build_query(info_hash: &[u8; 20], peer_id: &[u8; 20], left: u64) -> (query: String)
    ensures
        query@ == query_text(info_hash@, peer_id@, left),
{
    let mut query = String::new();
    query.append("info_hash=");
    push_escaped(&mut query, info_hash.as_slice());
    query.append("&peer_id=");
    push_escaped(&mut query, peer_id.as_slice());
    query.append("&port=6881&uploaded=0&downloaded=0&left=");
    push_decimal(&mut query, left);
    proof {
        assert(query@ =~= query_text(info_hash@, peer_id@, left));
    }
    query
}

/// The address of the request for peers: the tracker's address, or the first
/// of the other addresses where the descriptor names no tracker, with the
/// query put in.
pub fn build_tracker_url(torrent: &Torrent, peer_id: &[u8; 20]) -> (r: Result<
    String,
    RequestError,
>)
    ensures
        match r {
            Ok(url) => tracker_url(torrent@, peer_id@) == Ok::<_, RequestError>(url@),
            Err(e) => tracker_url(torrent@, peer_id@) == Err::<Seq<char>, _>(e),
        },
{
    let base: &str = if !torrent.announce.as_str().is_empty() {
        torrent.announce.as_str()
    } else if torrent.url_list.len() > 0 {
        torrent.url_list[0].as_str()
    } else {
        return Err(RequestError::MissingEndpoint);
    };
    let mut url = match url_parse(base) {
        Ok(url) => url,
        Err(_) => {
            return Err(RequestError::InvalidUrl);
        },
    };
    let query = build_query(&torrent.info_hash, peer_id, torrent.length);
    let text_len: usize = url_as_str(&url).as_bytes().len();
    let query_len: usize = query.as_str().as_bytes().len();
    if text_len > 0xffff_ffff || query_len > 0xffff_ffff || text_len as u64 + 1 + 3 * (
    query_len as u64) > 0xffff_ffff {
        return Err(RequestError::UrlTooLong);
    }
    url_set_query(&mut url, query.as_str());
    Ok(String::from_str(url_as_str(&url)))
}

/// `s` starts with `prefix`.
fn starts_with(s: &[u8], prefix: &[u8]) -> (r: bool)
    ensures
        r == prefix@.is_prefix_of(s@),
{
    if prefix.len() > s.len() {
        return false;
    }
    let mut i: usize = 0;
    while i < prefix.len()
        invariant
            i <= prefix@.len() <= s@.len(),
            forall|j: int| 0 <= j < i ==> prefix@[j] == s@[j],
        decreases prefix@.len() - i,
    {
        if prefix[i] != s[i] {
            proof {
                if prefix@.is_prefix_of(s@) {
                    assert(s@.subrange(0, prefix@.len() as int)[i as int] == prefix@[i as int]);
                }
            }
            return false;
        }
        i = i + 1;
    }
    proof {
        assert(prefix@ =~= s@.subrange(0, prefix@.len() as int));
    }
    true
}

/// Whether an address starts with `http://` or with `https://`.
pub fn has_http_scheme(url: &str) -> (r: bool)
    ensures
        r == is_http(url@),
{
    starts_with(url.as_bytes(), "http://".as_bytes()) || starts_with(
        url.as_bytes(),
        "https://".as_bytes(),
    )
}

/// An address if it can be asked over HTTP, the error that came with it, or
/// the refusal of its scheme.
pub fn check_scheme(url: Result<String, RequestError>) -> (r: Result<String, RequestError>)
    ensures
        match r {
            Ok(text) => url is Ok && checked_url(Ok(url->Ok_0@)) == Ok::<_, RequestError>(text@),
            Err(e) => (url is Err && e == url->Err_0) || (url is Ok && checked_url(Ok(url->Ok_0@))
                == Err::<Seq<char>, _>(e)),
        },
{
    match url {
        Err(e) => Err(e),
        Ok(text) => if has_http_scheme(text.as_str()) {
            Ok(text)
        } else {
            Err(RequestError::InvalidScheme)
        },
    }
}

/// The address to ask a tracker for peers at: an `http://` or `https://`
/// address with the query of the request.
pub fn request_url(torrent: &Torrent, peer_id: &[u8; 20]) -> (r: Result<String, RequestError>)
    ensures
        match r {
            Ok(url) => checked_url(tracker_url(torrent@, peer_id@)) == Ok::<_, RequestError>(url@),
            Err(e) => checked_url(tracker_url(torrent@, peer_id@)) == Err::<Seq<char>, _>(e),
        },
{
    check_scheme(build_tracker_url(torrent, peer_id))
}

/// The low 32 bits of a number.
fn wrap_u32(i: i64) -> (r: u32)
    ensures
        r == low_u32(i),
{
    if i >= 0 {
        ((i as u64) % 0x1_0000_0000) as u32
    } else {
        let below: u64 = ((-(i + 1)) as u64) % 0x1_0000_0000;
        (0xffff_ffff - below) as u32
    }
}

/// The low 16 bits of a number.
fn wrap_u16(i: i64) -> (r: u16)
    ensures
        r == low_u16(i),
{
    if i >= 0 {
        ((i as u64) % 0x1_0000) as u16
    } else {
        let below: u64 = ((-(i + 1)) as u64) % 0x1_0000;
        (0xffff - below) as u16
    }
}

/// The peer that an entry of the peer list describes, if it describes one.
fn parse_peer(value: &BencodeValue) -> (r: Option<Peer>)
    ensures
        match r {
            Some(peer) => peer_of(value@) == Some(peer@),
            None => peer_of(value@) is None,
        },
{
    let peer_dict = match value {
        BencodeValue::Dictionary(d) => d,
        _ => {
            return None;
        },
    };
    let ip = match lookup(peer_dict, "ip") {
        Some(BencodeValue::ByteString(ip)) => string_from_utf8_lossy(ip.as_slice()),
        _ => {
            return None;
        },
    };
    let port = match lookup(peer_dict, "port") {
        Some(BencodeValue::Integer(port)) => wrap_u16(*port),
        _ => {
            return None;
        },
    };
    Some(Peer { ip, port })
}

/// The peers that a peer list names, in order. The list is one of
/// dictionaries, each with an `ip` and a `port`; entries of any other shape
/// are passed over.
pub fn parse_compact_peers(peers: &[BencodeValue]) -> (r: Vec<Peer>)
    ensures
        r@.map_values(|p: Peer| p@) == peers_of(list_view(peers@)),
{
    let mut result: Vec<Peer> = Vec::new();
    let mut i: usize = 0;
    proof {
        lemma_list_view(peers@);
        assert(list_view(peers@).subrange(0, 0) =~= Seq::<Value>::empty());
        assert(result@.map_values(|p: Peer| p@) =~= Seq::<PeerView>::empty());
    }
    while i < peers.len()
        invariant
            i <= peers@.len(),
            list_view(peers@).len() == peers@.len(),
            forall|j: int| 0 <= j < peers@.len() ==> #[trigger] list_view(peers@)[j] == peers@[j]@,
            result@.map_values(|p: Peer| p@) == peers_of(list_view(peers@).subrange(0, i as int)),
        decreases peers@.len() - i,
    {
        let ghost upto = list_view(peers@).subrange(0, i + 1);
        let ghost before = result@.map_values(|p: Peer| p@);
        proof {
            assert(upto.drop_last() =~= list_view(peers@).subrange(0, i as int));
            assert(upto.last() == peers@[i as int]@);
        }
        match parse_peer(&peers[i]) {
            Some(peer) => {
                let ghost found = peer@;
                result.push(peer);
                proof {
                    assert(result@.map_values(|p: Peer| p@) =~= before.push(found));
                }
            },
            None => {},
        }
        i = i + 1;
    }
    proof {
        assert(list_view(peers@).subrange(0, i as int) =~= list_view(peers@));
    }
    result
}

/// Reads a tracker's reply. A reply with a `failure reason` is the tracker's
/// refusal; any other must hold an `interval` and a list of `peers`.
pub fn parse_tracker_response(response: &[u8]) -> (r: Result<TrackerResponse, ResponseError>)
    ensures
        match r {
            Ok(reply) => response_of(response@) == Ok::<_, ResponseErrorView>(reply@),
            Err(e) => response_of(response@) == Err::<TrackerResponseView, _>(e@),
        },
{
    let value = match parse_bencode(response) {
        Err(e) => {
            return Err(ResponseError::Format(e));
        },
        Ok((value, _)) => value,
    };
    let root = match &value {
        BencodeValue::Dictionary(root) => root,
        _ => {
            return Err(ResponseError::NotADictionary);
        },
    };
    match lookup(root, "failure reason") {
        Some(BencodeValue::ByteString(reason)) => {
            return Err(ResponseError::Failure(string_from_utf8_lossy(reason.as_slice())));
        },
        _ => {},
    }
    let interval = match lookup(root, "interval") {
        Some(BencodeValue::Integer(i)) => wrap_u32(*i),
        _ => {
            return Err(ResponseError::MissingInterval);
        },
    };
    let peers = match lookup(root, "peers") {
        Some(BencodeValue::List(items)) => parse_compact_peers(items.as_slice()),
        _ => {
            return Err(ResponseError::MissingPeers);
        },
    };
    Ok(TrackerResponse { interval, peers })
}

} // verus!
