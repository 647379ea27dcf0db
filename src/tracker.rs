//! The tracker announce exchange: its parameters, and the reading of the
//! tracker's bencoded response.

use vstd::prelude::*;
use vstd::string::StringExecFns;
use crate::text::{decimal_of, decimal};
use crate::bencode::{self, Node, SpecNode, parse, spec_parse, view_nodes};
use vstd::utf8::encode_utf8;
use crate::fields::{integer_field, text_field, list_field, get_text, get_integer, get_list, lemma_view_nodes_index};

verus! {

#[derive(Clone, Copy, Debug, PartialEq, Eq, Structural)]
pub enum AnnounceEvent {
    Started,
    Completed,
    Stopped,
}

impl AnnounceEvent {
    /// The event's name as the announce query carries it.
    pub fn name(&self) -> (r: &'static str)
        ensures
            r@ == event_name(*self),
    {
        match self {
            AnnounceEvent::Started => "started",
            AnnounceEvent::Completed => "completed",
            AnnounceEvent::Stopped => "stopped",
        }
    }
}

pub open spec fn event_name(e: AnnounceEvent) -> Seq<char> {
    match e {
        AnnounceEvent::Started => "started"@,
        AnnounceEvent::Completed => "completed"@,
        AnnounceEvent::Stopped => "stopped"@,
    }
}

/// What a client tells the tracker when it announces itself.
pub struct AnnounceParams {
    pub info_hash: [u8; 20],
    pub peer_id: String,
    pub port: u16,
    pub uploaded: usize,
    pub downloaded: usize,
    pub left: usize,
    pub event: AnnounceEvent,
}

/// A peer as the tracker lists it; the port is the low 16 bits of the
/// tracker's integer.
pub struct Peer {
    pub id: String,
    pub ip: String,
    pub port: u16,
}

/// The tracker's answer: how many seconds to wait before announcing again,
/// and the peers it knows.
pub struct AnnounceResponse {
    pub interval: u64,
    pub peers: Vec<Peer>,
}

/// Why a tracker response could not be used.
#[derive(Debug)]
pub enum AnnounceError {
    /// The body is not valid bencode.
    InvalidBencode(bencode::ParseError),
    /// A required field is absent or has the wrong type.
    MissingField(&'static str),
    /// The re-announce interval is negative.
    NegativeInterval,
    /// The tracker answered with a failure reason.
    ErrorResponse(String),
}

pub ghost struct SpecPeer {
    pub id: Seq<char>,
    pub ip: Seq<char>,
    pub port: int,
}

pub ghost struct SpecResponse {
    pub interval: int,
    pub peers: Seq<SpecPeer>,
}

/// The model of an error: a tracker's failure reason as its text.
pub ghost enum SpecError {
    InvalidBencode(bencode::ParseError),
    MissingField(&'static str),
    NegativeInterval,
    ErrorResponse(Seq<char>),
}

/// One entry of the `peers` list.
pub open spec fn spec_peer(n: SpecNode) -> Result<SpecPeer, SpecError> {
    if !(n.value is Dictionary) {
        Err(SpecError::MissingField("peer"))
    } else {
        match text_field(n, "peer id"@) {
            None => Err(SpecError::MissingField("peer id")),
            Some(id) => match text_field(n, "ip"@) {
                None => Err(SpecError::MissingField("ip")),
                Some(ip) => match integer_field(n, "port"@) {
                    None => Err(SpecError::MissingField("port")),
                    Some(port) => Ok(SpecPeer { id, ip, port: (port as u16) as int }),
                },
            },
        }
    }
}

/// The entries of the `peers` list; the first entry in error decides the error.
pub open spec fn spec_peer_list(items: Seq<SpecNode>) -> Result<Seq<SpecPeer>, SpecError>
    decreases items.len(),
{
    if items.len() == 0 {
        Ok(Seq::empty())
    } else {
        match spec_peer_list(items.drop_last()) {
            Err(e) => Err(e),
            Ok(ps) => match spec_peer(items.last()) {
                Err(e) => Err(e),
                Ok(p) => Ok(ps.push(p)),
            },
        }
    }
}

/// What a tracker response body says.
pub open spec fn spec_response(body: Seq<u8>) -> Result<SpecResponse, SpecError> {
    match spec_parse(body) {
        Err(e) => Err(SpecError::InvalidBencode(e)),
        Ok(root) => if !(root.value is Dictionary) {
            Err(SpecError::MissingField("root"))
        } else {
            match text_field(root, "failure reason"@) {
                Some(reason) => Err(SpecError::ErrorResponse(reason)),
                None => match integer_field(root, "interval"@) {
                    None => Err(SpecError::MissingField("interval")),
                    Some(interval) => if interval < 0 {
                        Err(SpecError::NegativeInterval)
                    } else {
                        match list_field(root, "peers"@) {
                            None => Err(SpecError::MissingField("peers")),
                            Some(items) => match spec_peer_list(items) {
                                Err(e) => Err(e),
                                Ok(peers) => Ok(SpecResponse { interval, peers }),
                            },
                        }
                    },
                },
            }
        },
    }
}

impl View for Peer {
    type V = SpecPeer;

    open spec fn view(&self) -> SpecPeer {
        SpecPeer { id: self.id@, ip: self.ip@, port: self.port as int }
    }
}

impl View for AnnounceResponse {
    type V = SpecResponse;

    open spec fn view(&self) -> SpecResponse {
        SpecResponse {
            interval: self.interval as int,
            peers: self.peers@.map_values(|p: Peer| p@),
        }
    }
}

pub open spec fn view_error(e: AnnounceError) -> SpecError {
    match e {
        AnnounceError::InvalidBencode(b) => SpecError::InvalidBencode(b),
        AnnounceError::MissingField(f) => SpecError::MissingField(f),
        AnnounceError::NegativeInterval => SpecError::NegativeInterval,
        AnnounceError::ErrorResponse(r) => SpecError::ErrorResponse(r@),
    }
}

pub open spec fn view_response_result(r: Result<AnnounceResponse, AnnounceError>) -> Result<
    SpecResponse,
    SpecError,
> {
    match r {
        Ok(a) => Ok(a@),
        Err(e) => Err(view_error(e)),
    }
}

/// One entry of the `peers` list.
fn read_peer(n: &Node) -> (r: Result<Peer, AnnounceError>)
    ensures
        r matches Ok(p) ==> spec_peer(n@) == Ok::<SpecPeer, SpecError>(p@),
        r matches Err(e) ==> spec_peer(n@) == Err::<SpecPeer, SpecError>(view_error(e)),
{
    if n.as_dictionary().is_none() {
        return Err(AnnounceError::MissingField("peer"));
    }
    let id = match get_text(n, "peer id") {
        Some(id) => id,
        None => return Err(AnnounceError::MissingField("peer id")),
    };
    let ip = match get_text(n, "ip") {
        Some(ip) => ip,
        None => return Err(AnnounceError::MissingField("ip")),
    };
    let port = match get_integer(n, "port") {
        Some(port) => port,
        None => return Err(AnnounceError::MissingField("port")),
    };
    Ok(Peer { id, ip, port: port as u16 })
}

/// An error at one entry is the error of the whole list, when the entries
/// before it are fine.
proof fn lemma_peer_list_error(all: Seq<SpecNode>, i: int, e: SpecError)
    requires
        0 <= i < all.len(),
        spec_peer_list(all.subrange(0, i)) is Ok,
        spec_peer(all[i]) == Err::<SpecPeer, SpecError>(e),
    ensures
        spec_peer_list(all) == Err::<Seq<SpecPeer>, SpecError>(e),
    decreases all.len(),
{
    if i < all.len() - 1 {
        assert(all.drop_last().subrange(0, i) =~= all.subrange(0, i));
        lemma_peer_list_error(all.drop_last(), i, e);
    } else {
        assert(all.drop_last() =~= all.subrange(0, i));
    }
}

/// The entries of the `peers` list.
fn read_peer_list(items: &Vec<Node>) -> (r: Result<Vec<Peer>, AnnounceError>)
    ensures
        r matches Ok(ps) ==> spec_peer_list(view_nodes(items@)) == Ok::<
            Seq<SpecPeer>,
            SpecError,
        >(ps@.map_values(|p: Peer| p@)),
        r matches Err(e) ==> spec_peer_list(view_nodes(items@)) == Err::<
            Seq<SpecPeer>,
            SpecError,
        >(view_error(e)),
{
    proof {
        lemma_view_nodes_index(items@);
    }
    let ghost all = view_nodes(items@);
    let mut peers: Vec<Peer> = Vec::new();
    let mut i: usize = 0;
    assert(all.subrange(0, 0) =~= Seq::<SpecNode>::empty());
    assert(peers@.map_values(|p: Peer| p@) =~= Seq::<SpecPeer>::empty());
    while i < items.len()
        invariant
            i <= items@.len(),
            all == view_nodes(items@),
            all.len() == items@.len(),
            forall|j: int| 0 <= j < items@.len() ==> #[trigger] all[j] == items@[j]@,
            spec_peer_list(all.subrange(0, i as int)) == Ok::<Seq<SpecPeer>, SpecError>(
                peers@.map_values(|p: Peer| p@),
            ),
        decreases items@.len() - i,
    {
        assert(all.subrange(0, i + 1).drop_last() =~= all.subrange(0, i as int));
        match read_peer(&items[i]) {
            Ok(p) => {
                let ghost before = peers@;
                peers.push(p);
                assert(peers@.map_values(|p: Peer| p@) =~= before.map_values(|p: Peer| p@).push(
                    p@,
                ));
            },
            Err(e) => {
                proof {
                    lemma_peer_list_error(all, i as int, view_error(e));
                }
                return Err(e);
            },
        }
        i = i + 1;
    }
    assert(all.subrange(0, i as int) =~= all);
    Ok(peers)
}

/// Reads a tracker's response body: a failure reason the tracker gave, or
/// the non-negative re-announce interval and the peers.
pub fn read_response(body: &[u8]) -> (r: Result<AnnounceResponse, AnnounceError>)
    ensures
        view_response_result(r) == spec_response(body@),
{
    let root = match parse(body) {
        Ok(root) => root,
        Err(e) => return Err(AnnounceError::InvalidBencode(e)),
    };
    if root.as_dictionary().is_none() {
        return Err(AnnounceError::MissingField("root"));
    }
    if let Some(reason) = get_text(&root, "failure reason") {
        return Err(AnnounceError::ErrorResponse(reason));
    }
    let interval = match get_integer(&root, "interval") {
        Some(i) => i,
        None => return Err(AnnounceError::MissingField("interval")),
    };
    if interval < 0 {
        return Err(AnnounceError::NegativeInterval);
    }
    let items = match get_list(&root, "peers") {
        Some(items) => items,
        None => return Err(AnnounceError::MissingField("peers")),
    };
    let peers = read_peer_list(items)?;
    Ok(AnnounceResponse { interval: interval as u64, peers })
}

/// Uppercase hexadecimal digit of a value below 16.
pub open spec fn upper_hex_digit(v: int) -> char {
    seq!['0', '1', '2', '3', '4', '5', '6', '7', '8', '9', 'A', 'B', 'C', 'D', 'E', 'F'][v]
}

/// `%` and the byte's two uppercase hexadecimal digits.
pub open spec fn percent_of(b: u8) -> Seq<char> {
    seq!['%', upper_hex_digit(b as int / 16), upper_hex_digit(b as int % 16)]
}

pub open spec fn is_alphanumeric(b: u8) -> bool {
    (0x30 <= b <= 0x39) || (0x41 <= b <= 0x5a) || (0x61 <= b <= 0x7a)
}

/// Percent-encoding of a URL component: letters, digits and `-._~` stay,
/// every other byte is escaped.
pub open spec fn url_escape_of(b: Seq<u8>) -> Seq<char>
    decreases b.len(),
{
    if b.len() == 0 {
        Seq::empty()
    } else {
        let c = b.last();
        url_escape_of(b.drop_last()) + if is_alphanumeric(c) || c == 0x2d || c == 0x2e || c
            == 0x5f || c == 0x7e {
            seq![c as char]
        } else {
            percent_of(c)
        }
    }
}

/// Form encoding of bytes: letters, digits and `*-._` stay, a space becomes
/// `+`, every other byte is escaped.
pub open spec fn form_escape_of(b: Seq<u8>) -> Seq<char>
    decreases b.len(),
{
    if b.len() == 0 {
        Seq::empty()
    } else {
        let c = b.last();
        form_escape_of(b.drop_last()) + if is_alphanumeric(c) || c == 0x2a || c == 0x2d || c
            == 0x2e || c == 0x5f {
            seq![c as char]
        } else if c == 0x20 {
            seq!['+']
        } else {
            percent_of(c)
        }
    }
}

/// A form-encoded query: `name=value` pairs, both form-encoded as UTF-8,
/// joined by `&`.
pub open spec fn form_query_of(pairs: Seq<(Seq<char>, Seq<char>)>) -> Seq<char>
    decreases pairs.len(),
{
    if pairs.len() == 0 {
        Seq::empty()
    } else {
        let (k, v) = pairs.last();
        let before = form_query_of(pairs.drop_last());
        let pair = form_escape_of(encode_utf8(k)) + seq!['='] + form_escape_of(encode_utf8(v));
        if pairs.len() == 1 {
            pair
        } else {
            before + seq!['&'] + pair
        }
    }
}

/// The announce query's pairs, but the info hash.
pub open spec fn announce_pairs(params: &AnnounceParams) -> Seq<(Seq<char>, Seq<char>)> {
    seq![
        ("peer_id"@, params.peer_id@),
        ("port"@, decimal_of(params.port as nat)),
        ("uploaded"@, decimal_of(params.uploaded as nat)),
        ("downloaded"@, decimal_of(params.downloaded as nat)),
        ("left"@, decimal_of(params.left as nat)),
        ("event"@, event_name(params.event)),
    ]
}

/// The announce URL: the tracker's URL, the form-encoded parameters, and the
/// info hash percent-encoded byte by byte.
pub open spec fn announce_url_of(announce: Seq<char>, params: &AnnounceParams) -> Seq<char> {
    announce + "?"@ + form_query_of(announce_pairs(params)) + "&info_hash="@ + url_escape_of(
        params.info_hash@,
    )
}

/// Relies on `urlencoding::encode_binary`: letters, digits and `-._~` are
/// kept, every other byte becomes `%` and two uppercase hex digits.
#[verifier::external_body]
fn url_escape(data: &[u8]) -> (r: String)
    ensures
        r@ == url_escape_of(data@),
{
    urlencoding::encode_binary(data).into_owned()
}

/// Relies on `form_urlencoded::Serializer` (through `url`): without an
/// encoding override, pairs are serialised as `name=value`, each side
/// byte-serialised from its UTF-8, and joined by `&`.
#[verifier::external_body]
fn form_query(pairs: &Vec<(String, String)>) -> (r: String)
    ensures
        r@ == form_query_of(pairs@.map_values(|p: (String, String)| (p.0@, p.1@))),
{
    url::form_urlencoded::Serializer::new(String::new()).extend_pairs(pairs.iter()).finish()
}

/// The URL of an announce of `params` to the tracker at `announce`.
pub fn announce_url(announce: &str, params: &AnnounceParams) -> (r: String)
    ensures
        r@ == announce_url_of(announce@, params),
{
    let mut pairs: Vec<(String, String)> = Vec::new();
    pairs.push(("peer_id".to_owned(), params.peer_id.clone()));
    pairs.push(("port".to_owned(), decimal(params.port as usize)));
    pairs.push(("uploaded".to_owned(), decimal(params.uploaded)));
    pairs.push(("downloaded".to_owned(), decimal(params.downloaded)));
    pairs.push(("left".to_owned(), decimal(params.left)));
    pairs.push(("event".to_owned(), params.event.name().to_owned()));
    assert(pairs@.map_values(|p: (String, String)| (p.0@, p.1@)) =~= announce_pairs(params));
    let query = form_query(&pairs);
    let escaped_hash = url_escape(params.info_hash.as_slice());
    let mut url = announce.to_owned();
    url.append("?");
    url.append(query.as_str());
    url.append("&info_hash=");
    url.append(escaped_hash.as_str());
    url
}

} // verus!
