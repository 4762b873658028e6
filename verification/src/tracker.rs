//! What a client hands to a tracker and what it gets back: the info hash in
//! percent-encoded form for the query, and the peers in compact form from the
//! reply. The request itself is made by the caller.

use vstd::prelude::*;
use vstd::string::StringExecFns;

verus! {

/// The address of a peer: an IPv4 address and a port.
#[derive(Clone, Copy, Debug, PartialEq, Eq)]
pub struct PeerAddress {
    pub ip: [u8; 4],
    pub port: u16,
}

/// The compact form holds no whole number of peers: its length is no multiple of 6.
#[derive(Clone, Copy, Debug, PartialEq, Eq, Structural)]
pub struct InvalidPeers {
    /// Length of the byte string that was refused.
    pub length: usize,
}

/// The lower-case hexadecimal digit for a number below 16.
pub open spec fn hex_digit(n: nat) -> char {
    if n < 10 {
        ((48 + n) as u8) as char
    } else {
        ((87 + n) as u8) as char
    }
}

/// The bytes in lower-case hexadecimal, two digits for each byte.
pub open spec fn hex_lower(data: Seq<u8>) -> Seq<char> {
    Seq::new(
        2 * data.len(),
        |i: int|
            if i % 2 == 0 {
                hex_digit((data[i / 2] / 16) as nat)
            } else {
                hex_digit((data[i / 2] % 16) as nat)
            },
    )
}

/// The bytes in percent-encoded form: for each byte a `%` and its two hexadecimal
/// digits.
pub open spec fn percent_encoded(data: Seq<u8>) -> Seq<char>
    decreases data.len(),
{
    if data.len() == 0 {
        Seq::<char>::empty()
    } else {
        percent_encoded(data.drop_last()) + seq!['%'] + hex_lower(seq![data.last()])
    }
}

/// The URL of a tracker query: the announce URL, a `?`, the parameters, and the
/// info hash as the last parameter.
pub open spec fn query_url(announce: Seq<char>, params: Seq<char>, info_hash: Seq<u8>) -> Seq<
    char,
> {
    announce + seq!['?'] + params + "&info_hash="@ + percent_encoded(info_hash)
}

/// The peer that the six bytes of `bytes` from index `6 i` on stand for: four bytes
/// of address, then the port, most significant byte first.
pub open spec fn compact_peer(bytes: Seq<u8>, i: int) -> (Seq<u8>, u16) {
    (bytes.subrange(6 * i, 6 * i + 4), (bytes[6 * i + 4] * 256 + bytes[6 * i + 5]) as u16)
}

/// Writes `data` in lower-case hexadecimal with `hex::encode` of the `hex` crate.
///
/// Taken on trust: that the string has two digits for each byte, the digit for the
/// byte's upper half first, and that the digits above 9 are the lower-case letters
/// `a` to `f`.
#[verifier::external_body]
fn hex_encode(data: &[u8]) -> (text: String)
    ensures
        text@ == hex_lower(data@),
{
    hex::encode(data)
}

/// The info hash in the form that goes into a tracker's query string.
pub fn urlencode(t: &[u8; 20]) -> (encoded: String)
    ensures
        encoded@ == percent_encoded(t@),
        encoded@.len() == 60,
{
    let mut encoded: String = String::new();
    let mut i: usize = 0;
    assert(t@.take(0) =~= Seq::<u8>::empty());
    while i < 20
        invariant
            i <= 20,
            encoded@ == percent_encoded(t@.take(i as int)),
            encoded@.len() == 3 * i,
        decreases 20 - i,
    {
        let one: [u8; 1] = [t[i]];
        let digits: String = hex_encode(one.as_slice());
        proof {
            reveal_strlit("%");
            assert(one@ =~= seq![t@[i as int]]);
            assert(t@.take(i + 1).drop_last() =~= t@.take(i as int));
            assert("%"@ =~= seq!['%']);
        }
        encoded.append("%");
        encoded.append(digits.as_str());
        i = i + 1;
    }
    assert(t@.take(20) =~= t@);
    encoded
}

/// The URL to ask a tracker at: `announce`, then `params` as the query string, then
/// the info hash as its last parameter.
pub fn tracker_url(announce: &str, params: &str, info_hash: &[u8; 20]) -> (url: String)
    ensures
        url@ == query_url(announce@, params@, info_hash@),
{
    let mut url: String = String::from_str(announce);
    proof {
        reveal_strlit("?");
        assert("?"@ =~= seq!['?']);
    }
    url.append("?");
    url.append(params);
    url.append("&info_hash=");
    let hash: String = urlencode(info_hash);
    url.append(hash.as_str());
    url
}

/// Reads the peers out of the compact form in a tracker's reply: six bytes for each
/// peer. Fails exactly where the length of `bytes` is no multiple of 6.
pub fn parse_compact_peers(bytes: &[u8]) -> (r: Result<Vec<PeerAddress>, InvalidPeers>)
    ensures
        (r is Err) == (bytes.len() % 6 != 0),
        r matches Err(e) ==> e.length == bytes.len(),
        r matches Ok(peers) ==> peers@.len() * 6 == bytes.len() && forall|i: int|
            0 <= i < peers@.len() ==> ((#[trigger] peers@[i]).ip@, peers@[i].port) == compact_peer(
                bytes@,
                i,
            ),
{
    if bytes.len() % 6 != 0 {
        return Err(InvalidPeers { length: bytes.len() });
    }
    let n: usize = bytes.len() / 6;
    let mut peers: Vec<PeerAddress> = Vec::new();
    let mut i: usize = 0;
    while i < n
        invariant
            i <= n,
            n * 6 == bytes.len(),
            peers@.len() == i,
            forall|k: int|
                0 <= k < i ==> ((#[trigger] peers@[k]).ip@, peers@[k].port) == compact_peer(
                    bytes@,
                    k,
                ),
        decreases n - i,
    {
        let ip: [u8; 4] = [bytes[6 * i], bytes[6 * i + 1], bytes[6 * i + 2], bytes[6 * i + 3]];
        let port: u16 = bytes[6 * i + 4] as u16 * 256 + bytes[6 * i + 5] as u16;
        assert(ip@ =~= bytes@.subrange(6 * i, 6 * i + 4));
        peers.push(PeerAddress { ip, port });
        i = i + 1;
    }
    Ok(peers)
}

} // verus!
