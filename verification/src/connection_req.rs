//! Reading a client's first connection request out of the query of the URL
//! that it opened the WebSocket with: `...?<key>=<percent-encoded packet>`.
use vstd::prelude::*;
use vstd::string::StringSliceAdditionalSpecFns;

verus! {

/// The value of an ASCII hex digit, `None` for any other byte.
pub open spec fn hex_value(b: u8) -> Option<int> {
    if 48 <= b <= 57 {
        Some(b - 48)
    } else if 65 <= b <= 70 {
        Some(b - 55)
    } else if 97 <= b <= 102 {
        Some(b - 87)
    } else {
        None
    }
}

/// Percent-decoding: `%` followed by two hex digits stands for the byte they
/// spell; every other byte, a `%` without two hex digits after it included,
/// stands for itself. `+` is not turned into a space.
pub open spec fn percent_decoded(data: Seq<u8>) -> Seq<u8>
    decreases data.len(),
{
    if data.len() == 0 {
        Seq::empty()
    } else if data.len() >= 3 && data[0] == 37u8 && hex_value(data[1]) is Some && hex_value(
        data[2],
    ) is Some {
        let byte = hex_value(data[1]).unwrap() * 16 + hex_value(data[2]).unwrap();
        seq![byte as u8] + percent_decoded(data.subrange(3, data.len() as int))
    } else {
        seq![data[0]] + percent_decoded(data.subrange(1, data.len() as int))
    }
}

/// The ASCII hex digit, upper case, for `n` below 16.
pub open spec fn hex_digit(n: int) -> u8 {
    if n < 10 {
        (48 + n) as u8
    } else {
        (55 + n) as u8
    }
}

/// The bytes a percent-encoder leaves as they are: ASCII letters and digits,
/// `-`, `.`, `_` and `~`.
pub open spec fn unreserved(b: u8) -> bool {
    48 <= b <= 57 || 65 <= b <= 90 || 97 <= b <= 122 || b == 45 || b == 46 || b == 95 || b == 126
}

/// Percent-encoding as clients apply it to their request packet (the rule
/// of `urlencoding::encode_binary`): an unreserved byte stands for itself,
/// any other byte becomes `%` and its two upper-case hex digits.
pub open spec fn percent_encoded(data: Seq<u8>) -> Seq<u8>
    decreases data.len(),
{
    if data.len() == 0 {
        Seq::empty()
    } else {
        let b = data[0];
        let head = if unreserved(b) {
            seq![b]
        } else {
            seq![37u8, hex_digit(b as int / 16), hex_digit(b as int % 16)]
        };
        head + percent_encoded(data.subrange(1, data.len() as int))
    }
}

/// Percent-decoding undoes percent-encoding: whatever bytes a client
/// encodes, decoding gives them back.
pub proof fn lemma_decode_encoded(data: Seq<u8>)
    ensures
        percent_decoded(percent_encoded(data)) == data,
    decreases data.len(),
{
    if data.len() > 0 {
        let b = data[0];
        let rest = data.subrange(1, data.len() as int);
        let e = percent_encoded(data);
        let tail = percent_encoded(rest);
        lemma_decode_encoded(rest);
        if unreserved(b) {
            assert(e == seq![b] + tail);
            assert(e.subrange(1, e.len() as int) =~= tail);
            assert(percent_decoded(e) == seq![b] + percent_decoded(tail));
        } else {
            let hi: int = b as int / 16;
            let lo: int = b as int % 16;
            assert(e == seq![37u8, hex_digit(hi), hex_digit(lo)] + tail);
            assert(hex_value(hex_digit(hi)) == Some(hi));
            assert(hex_value(hex_digit(lo)) == Some(lo));
            assert(e.subrange(3, e.len() as int) =~= tail);
            assert(hi * 16 + lo == b);
            assert(percent_decoded(e) == seq![b] + percent_decoded(tail));
        }
        assert(data =~= seq![b] + rest);
    }
}

/// A query made of the request key, `=`, and a percent-encoded packet
/// yields that encoding as the request, which decodes to the packet: so
/// `extract_client_connection_req` gives back every packet a client sends.
pub proof fn lemma_request_round_trip(key: Seq<u8>, packet: Seq<u8>)
    ensures
        encoded_request(key + seq![61u8] + percent_encoded(packet), key) == Some(
            percent_encoded(packet),
        ),
        percent_decoded(percent_encoded(packet)) == packet,
{
    let q = key + seq![61u8] + percent_encoded(packet);
    assert(q.subrange(0, key.len() as int) =~= key);
    assert(occurs_at(q, key, 0));
    let rest = q.subrange(key.len() as int, q.len() as int);
    assert(rest[0] == 61u8);
    assert(rest.subrange(1, rest.len() as int) =~= percent_encoded(packet));
    lemma_decode_encoded(packet);
}

/// Percent-decodes bytes with `urlencoding::decode_binary`, trusted to
/// return `percent_decoded` of its argument, as that function's source does.
#[verifier::external_body]
fn decode_binary(data: &[u8]) -> (r: Vec<u8>)
    ensures
        r@ == percent_decoded(data@),
{
    urlencoding::decode_binary(data).into_owned()
}

/// Whether `needle` stands in `hay` starting at index `i`.
pub open spec fn occurs_at(hay: Seq<u8>, needle: Seq<u8>, i: int) -> bool {
    &&& 0 <= i
    &&& i + needle.len() <= hay.len()
    &&& hay.subrange(i, i + needle.len()) == needle
}

/// The first index at or after `i` at which `needle` stands in `hay`.
pub open spec fn first_occurrence_from(hay: Seq<u8>, needle: Seq<u8>, i: int) -> Option<int>
    decreases hay.len() + 1 - i,
{
    if i < 0 || i + needle.len() > hay.len() {
        None
    } else if occurs_at(hay, needle, i) {
        Some(i)
    } else {
        first_occurrence_from(hay, needle, i + 1)
    }
}

/// A first occurrence found from `i` on is an occurrence.
proof fn lemma_first_occurrence_occurs(hay: Seq<u8>, needle: Seq<u8>, i: int)
    ensures
        first_occurrence_from(hay, needle, i) matches Some(k) ==> occurs_at(hay, needle, k) && i <= k,
    decreases hay.len() + 1 - i,
{
    if i < 0 || i + needle.len() > hay.len() {
    } else if occurs_at(hay, needle, i) {
    } else {
        lemma_first_occurrence_occurs(hay, needle, i + 1);
    }
}

/// The bytes that follow the first `key` in `query` when an `=` comes right
/// after it; `None` when `key` does not occur or no `=` follows it.
pub open spec fn encoded_request(query: Seq<u8>, key: Seq<u8>) -> Option<Seq<u8>> {
    match first_occurrence_from(query, key, 0) {
        Some(i) => {
            let rest = query.subrange(i + key.len(), query.len() as int);
            if rest.len() > 0 && rest[0] == 61u8 {
                Some(rest.subrange(1, rest.len() as int))
            } else {
                None
            }
        },
        None => None,
    }
}

/// Why a connection request could not be read from a URL.
#[derive(Clone, Copy, Debug, PartialEq, Eq, Structural)]
pub enum ConnectionReqError {
    /// The URL has no query.
    InvalidQuery,
    /// The query does not hold the request key followed by `=`.
    MissingReq,
}

impl ConnectionReqError {
    /// The message that describes the error.
    pub fn message(&self) -> (s: &'static str)
        ensures
            *self == ConnectionReqError::InvalidQuery ==> s@
                == "invalid uri query, dropping connection request..."@,
            *self == ConnectionReqError::MissingReq ==> s@
                == "invalid uri query (missing req), dropping connection request..."@,
    {
        match self {
            ConnectionReqError::InvalidQuery => "invalid uri query, dropping connection request...",
            ConnectionReqError::MissingReq => "invalid uri query (missing req), dropping connection request...",
        }
    }
}

/// Whether `needle` stands in `hay` at index `i`.
fn bytes_match_at(hay: &[u8], needle: &[u8], i: usize) -> (r: bool)
    ensures
        r == occurs_at(hay@, needle@, i as int),
{
    if needle.len() > hay.len() || i > hay.len() - needle.len() {
        return false;
    }
    let n: usize = needle.len();
    let mut j: usize = 0;
    while j < n
        invariant
            n == needle@.len(),
            j <= n,
            i + n <= hay.len(),
            hay@.len() == hay.len(),
            forall|k: int| 0 <= k < j ==> hay@[i + k] == needle@[k],
        decreases n - j,
    {
        if hay[i + j] != needle[j] {
            assert(hay@.subrange(i as int, i + n)[j as int] != needle@[j as int]);
            return false;
        }
        j = j + 1;
    }
    assert(hay@.subrange(i as int, i + n) =~= needle@);
    true
}

/// The first index at which `needle` stands in `hay`.
fn find_first(hay: &[u8], needle: &[u8]) -> (r: Option<usize>)
    ensures
        match r {
            Some(i) => first_occurrence_from(hay@, needle@, 0) == Some(i as int),
            None => first_occurrence_from(hay@, needle@, 0) is None,
        },
{
    if needle.len() > hay.len() {
        return None;
    }
    let last: usize = hay.len() - needle.len();
    let mut i: usize = 0;
    loop
        invariant
            last + needle@.len() == hay@.len(),
            i <= last,
            first_occurrence_from(hay@, needle@, 0) == first_occurrence_from(hay@, needle@, i as int),
        decreases last - i,
    {
        if bytes_match_at(hay, needle, i) {
            return Some(i);
        }
        if i == last {
            assert(first_occurrence_from(hay@, needle@, i + 1) is None);
            return None;
        }
        i = i + 1;
    }
}

/// Reads the connection request packet that a client sends in its URL query
/// under `key`: the percent-decoded bytes after the first `key=`.
pub fn extract_client_connection_req(query: Option<&str>, key: &str) -> (r: Result<
    Vec<u8>,
    ConnectionReqError,
>)
    ensures
        query is None ==> r == Err::<Vec<u8>, ConnectionReqError>(ConnectionReqError::InvalidQuery),
        query matches Some(q) ==> match encoded_request(q.spec_bytes(), key.spec_bytes()) {
            Some(encoded) => r matches Ok(packet) && packet@ == percent_decoded(encoded),
            None => r == Err::<Vec<u8>, ConnectionReqError>(ConnectionReqError::MissingReq),
        },
{
    let q = match query {
        Some(q) => q,
        None => return Err(ConnectionReqError::InvalidQuery),
    };
    let hay = q.as_bytes();
    let needle = key.as_bytes();
    let start: usize = match find_first(hay, needle) {
        Some(i) => i,
        None => return Err(ConnectionReqError::MissingReq),
    };
    let hay_len: usize = hay.len();
    let needle_len: usize = needle.len();
    proof {
        lemma_first_occurrence_occurs(hay@, needle@, 0);
        assert(occurs_at(hay@, needle@, start as int));
        assert(start + needle_len <= hay_len);
    }
    let after: usize = start + needle_len;
    if after >= hay_len || hay[after] != 61u8 {
        return Err(ConnectionReqError::MissingReq);
    }
    let encoded = &hay[after + 1..hay.len()];
    proof {
        let rest: Seq<u8> = hay@.subrange(after as int, hay@.len() as int);
        assert(rest.subrange(1, rest.len() as int) =~= encoded@);
    }
    Ok(decode_binary(encoded))
}

} // verus!
