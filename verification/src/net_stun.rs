//! STUN binding (RFC 5389) and the rendezvous line protocol.
//!
//! The wire work stays with the caller: it sends `binding_request`,
//! hands the reply bytes to `parse_binding_response`, and for the
//! rendezvous sends `join_line` and hands the first reply line to
//! `classify_reply`. This module decides what the bytes and lines mean.
//!
//! Rendezvous wire format (one ASCII line each way):
//!
//! ```text
//! Client → Server:  "JOIN <lobby_name> <addr>\n"
//! Server → Client:  "PEER <addr>\n" | "WAIT\n" | "ERR <message>\n"
//! ```
use vstd::prelude::*;
use crate::text::{
    chars_of, hex, line_spans, lines, owned, push_char, push_hex, push_str, slice_vec, string_of,
    trim, trim_bounds, starts_with,
};

verus! {

/// Default STUN server.
pub const DEFAULT_STUN_SERVER: &'static str = "stun.l.google.com:19302";

/// STUN message type of a binding request.
pub const MSG_BINDING_REQUEST: u16 = 0x0001;
/// STUN message type of a binding success response.
pub const MSG_BINDING_SUCCESS: u16 = 0x0101;
/// The STUN magic cookie.
pub const STUN_MAGIC_COOKIE: u32 = 0x2112_A442;
/// XOR-MAPPED-ADDRESS attribute type.
pub const ATTR_XOR_MAPPED_ADDRESS: u16 = 0x0020;
/// MAPPED-ADDRESS attribute type (legacy servers).
pub const ATTR_MAPPED_ADDRESS: u16 = 0x0001;
/// Address family of IPv4 in a mapped-address attribute.
pub const FAMILY_IPV4: u8 = 0x01;

/// A public IPv4 address and port, as a STUN server reports it.
#[derive(Clone, Copy, Debug, PartialEq, Eq)]
pub struct MappedAddress {
    pub octets: [u8; 4],
    pub port: u16,
}

pub open spec fn be16(hi: u8, lo: u8) -> int {
    hi * 256 + lo
}

pub open spec fn be32(b: Seq<u8>, i: int) -> int {
    ((b[i] * 256 + b[i + 1]) * 256 + b[i + 2]) * 256 + b[i + 3]
}

/// The four big-endian bytes of `n`.
pub open spec fn be_bytes32(n: int) -> Seq<u8> {
    seq![(n / 16777216 % 256) as u8, (n / 65536 % 256) as u8, (n / 256 % 256) as u8, (n % 256) as u8]
}

// ---------------------------------------------------------------------------
// Building requests
// ---------------------------------------------------------------------------

/// The binding request: type, zero attribute length, cookie, and the
/// transaction id.
pub open spec fn binding_request_bytes(txn: Seq<u8>) -> Seq<u8> {
    seq![0x00u8, 0x01u8, 0x00u8, 0x00u8, 0x21u8, 0x12u8, 0xA4u8, 0x42u8] + txn
}

/// The 20-byte binding request that carries `txn`.
pub fn binding_request(txn: &[u8; 12]) -> (r: Vec<u8>)
    ensures
        r@ == binding_request_bytes(txn@),
        r@.len() == 20,
{
    let mut req: Vec<u8> = vec![0x00, 0x01, 0x00, 0x00, 0x21, 0x12, 0xA4, 0x42];
    let mut i: usize = 0;
    while i < 12
        invariant
            i <= 12,
            txn@.len() == 12,
            req@ == seq![0x00u8, 0x01u8, 0x00u8, 0x00u8, 0x21u8, 0x12u8, 0xA4u8, 0x42u8] + txn@.subrange(0, i as int),
        decreases 12 - i,
    {
        req.push(txn[i]);
        assert(txn@.subrange(0, i + 1) =~= txn@.subrange(0, i as int).push(txn@[i as int]));
        i += 1;
    }
    assert(txn@.subrange(0, 12) =~= txn@);
    req
}

/// A transaction id: the clock's sub-second nanoseconds and a counter,
/// each big-endian, then the bytes `de ad be ef`.
pub open spec fn transaction_id_bytes(nanos: u32, counter: u32) -> Seq<u8> {
    be_bytes32(nanos as int) + be_bytes32(counter as int) + seq![0xdeu8, 0xadu8, 0xbeu8, 0xefu8]
}

/// The transaction id made of `nanos` and `counter`; the caller takes
/// both from its clock and a counter of requests.
pub fn transaction_id(nanos: u32, counter: u32) -> (r: [u8; 12])
    ensures
        r@ == transaction_id_bytes(nanos, counter),
{
    let id: [u8; 12] = [
        (nanos / 16777216) as u8,
        (nanos / 65536 % 256) as u8,
        (nanos / 256 % 256) as u8,
        (nanos % 256) as u8,
        (counter / 16777216) as u8,
        (counter / 65536 % 256) as u8,
        (counter / 256 % 256) as u8,
        (counter % 256) as u8,
        0xde,
        0xad,
        0xbe,
        0xef,
    ];
    assert(id@ =~= transaction_id_bytes(nanos, counter));
    id
}

// ---------------------------------------------------------------------------
// Reading responses
// ---------------------------------------------------------------------------

pub open spec fn family_message(family: u8) -> Seq<char> {
    "STUN: only IPv4 supported (got family 0x"@ + hex(family as nat) + ")"@
}

/// XOR-MAPPED-ADDRESS: port and address XOR'd with the cookie.
pub open spec fn xor_mapped(v: Seq<u8>) -> Result<MappedAddress, Seq<char>> {
    if v.len() < 8 {
        Err("STUN: XOR-MAPPED-ADDRESS too short"@)
    } else if v[1] != FAMILY_IPV4 {
        Err(family_message(v[1]))
    } else {
        Ok(MappedAddress {
            octets: [v[4] ^ 0x21u8, v[5] ^ 0x12u8, v[6] ^ 0xA4u8, v[7] ^ 0x42u8],
            port: (be16(v[2] ^ 0x21u8, v[3] ^ 0x12u8)) as u16,
        })
    }
}

/// MAPPED-ADDRESS: port and address in the clear.
pub open spec fn mapped(v: Seq<u8>) -> Result<MappedAddress, Seq<char>> {
    if v.len() < 8 {
        Err("STUN: MAPPED-ADDRESS too short"@)
    } else if v[1] != FAMILY_IPV4 {
        Err(family_message(v[1]))
    } else {
        Ok(MappedAddress { octets: [v[4], v[5], v[6], v[7]], port: be16(v[2], v[3]) as u16 })
    }
}

/// An attribute's length rounded up to a multiple of four.
pub open spec fn padded(len: int) -> int {
    (len + 3) / 4 * 4
}

/// The first mapped-address attribute among those that start at `off`,
/// in an attribute section that ends at `end`.
pub open spec fn walk_attributes(b: Seq<u8>, off: int, end: int) -> Result<MappedAddress, Seq<char>>
    decreases end + 4 - off,
{
    if off + 4 > end || off < 0 || end > b.len() {
        Err("STUN: no MAPPED-ADDRESS or XOR-MAPPED-ADDRESS in response"@)
    } else {
        let attr_type = be16(b[off], b[off + 1]);
        let attr_len = be16(b[off + 2], b[off + 3]);
        let val_end = off + 4 + attr_len;
        if val_end > end {
            Err("STUN: attribute value past end"@)
        } else if attr_type == ATTR_XOR_MAPPED_ADDRESS {
            xor_mapped(b.subrange(off + 4, val_end))
        } else if attr_type == ATTR_MAPPED_ADDRESS {
            mapped(b.subrange(off + 4, val_end))
        } else {
            walk_attributes(b, off + 4 + padded(attr_len), end)
        }
    }
}

/// What a binding response says: the mapped address, or why it is
/// rejected.
pub open spec fn binding_response(b: Seq<u8>, txn: Seq<u8>) -> Result<MappedAddress, Seq<char>> {
    if b.len() < 20 {
        Err("STUN: response too short"@)
    } else if be16(b[0], b[1]) != MSG_BINDING_SUCCESS {
        Err("STUN: not a binding-success (got msg_type=0x"@ + hex(be16(b[0], b[1]) as nat) + ")"@)
    } else if be32(b, 4) != STUN_MAGIC_COOKIE {
        Err("STUN: bad magic cookie"@)
    } else if b.subrange(8, 20) != txn {
        Err("STUN: transaction id mismatch"@)
    } else if b.len() < 20 + be16(b[2], b[3]) {
        Err("STUN: attribute section truncated"@)
    } else {
        walk_attributes(b, 20, 20 + be16(b[2], b[3]))
    }
}

pub open spec fn same_result(r: Result<MappedAddress, String>, s: Result<MappedAddress, Seq<char>>) -> bool {
    match (r, s) {
        (Ok(a), Ok(b)) => a == b,
        (Err(m), Err(e)) => m@ == e,
        _ => false,
    }
}

fn family_error(family: u8) -> (r: String)
    ensures
        r@ == family_message(family),
{
    let mut m = owned("STUN: only IPv4 supported (got family 0x");
    push_hex(&mut m, family as u64);
    push_str(&mut m, ")");
    m
}

/// Decodes an XOR-MAPPED-ADDRESS attribute value.
pub fn parse_xor_mapped_address(value: &[u8]) -> (r: Result<MappedAddress, String>)
    ensures
        same_result(r, xor_mapped(value@)),
{
    if value.len() < 8 {
        return Err(owned("STUN: XOR-MAPPED-ADDRESS too short"));
    }
    let family = value[1];
    if family != FAMILY_IPV4 {
        return Err(family_error(family));
    }
    let xor_port: u16 = (value[2] as u16) * 256 + (value[3] as u16);
    let port: u16 = xor_port ^ 0x2112;
    let octets: [u8; 4] = [value[4] ^ 0x21, value[5] ^ 0x12, value[6] ^ 0xA4, value[7] ^ 0x42];
    let (p2, p3) = (value[2], value[3]);
    assert(port == be16(p2 ^ 0x21u8, p3 ^ 0x12u8)) by (bit_vector)
        requires
            xor_port == p2 as u16 * 256 + p3 as u16,
            port == xor_port ^ 0x2112u16,
    ;
    let a = MappedAddress { octets, port };
    assert(a.octets@ =~= [value@[4] ^ 0x21u8, value@[5] ^ 0x12u8, value@[6] ^ 0xA4u8, value@[7] ^ 0x42u8]@);
    Ok(a)
}

/// Decodes a MAPPED-ADDRESS attribute value.
pub fn parse_mapped_address(value: &[u8]) -> (r: Result<MappedAddress, String>)
    ensures
        same_result(r, mapped(value@)),
{
    if value.len() < 8 {
        return Err(owned("STUN: MAPPED-ADDRESS too short"));
    }
    let family = value[1];
    if family != FAMILY_IPV4 {
        return Err(family_error(family));
    }
    let port: u16 = (value[2] as u16) * 256 + (value[3] as u16);
    let a = MappedAddress { octets: [value[4], value[5], value[6], value[7]], port };
    assert(a.octets@ =~= [value@[4], value@[5], value@[6], value@[7]]@);
    Ok(a)
}

fn bytes_match(buf: &[u8], from: usize, expected: &[u8; 12]) -> (r: bool)
    requires
        from + 12 <= buf.len(),
    ensures
        r == (buf@.subrange(from as int, from + 12) == expected@),
{
    let mut k: usize = 0;
    while k < 12
        invariant
            k <= 12,
            from + 12 <= buf.len(),
            expected@.len() == 12,
            forall|m: int| 0 <= m < k ==> buf@[from + m] == expected@[m],
        decreases 12 - k,
    {
        if buf[from + k] != expected[k] {
            assert(buf@.subrange(from as int, from + 12)[k as int] != expected@[k as int]);
            return false;
        }
        k += 1;
    }
    assert(buf@.subrange(from as int, from + 12) =~= expected@);
    true
}

/// Reads a binding response: checks type, cookie and transaction id,
/// then returns the first (XOR-)MAPPED-ADDRESS attribute's address.
pub fn parse_binding_response(buf: &[u8], expected_txn: &[u8; 12]) -> (r: Result<MappedAddress, String>)
    ensures
        same_result(r, binding_response(buf@, expected_txn@)),
{
    if buf.len() < 20 {
        return Err(owned("STUN: response too short"));
    }
    let msg_type: u16 = (buf[0] as u16) * 256 + (buf[1] as u16);
    if msg_type != MSG_BINDING_SUCCESS {
        let mut m = owned("STUN: not a binding-success (got msg_type=0x");
        push_hex(&mut m, msg_type as u64);
        push_str(&mut m, ")");
        return Err(m);
    }
    let attrs_len: usize = (buf[2] as usize) * 256 + (buf[3] as usize);
    let cookie: u32 = (((buf[4] as u32) * 256 + (buf[5] as u32)) * 256 + (buf[6] as u32)) * 256 + (buf[7] as u32);
    if cookie != STUN_MAGIC_COOKIE {
        return Err(owned("STUN: bad magic cookie"));
    }
    if !bytes_match(buf, 8, expected_txn) {
        return Err(owned("STUN: transaction id mismatch"));
    }
    if buf.len() < 20 + attrs_len {
        return Err(owned("STUN: attribute section truncated"));
    }
    let end: usize = 20 + attrs_len;
    assert(binding_response(buf@, expected_txn@) == walk_attributes(buf@, 20, end as int));
    let mut off: usize = 20;
    while off + 4 <= end
        invariant
            20 <= off <= end + 3,
            end <= 20 + 65535,
            end <= buf@.len(),
            binding_response(buf@, expected_txn@) == walk_attributes(buf@, off as int, end as int),
        decreases end + 4 - off,
    {
        let attr_type: u16 = (buf[off] as u16) * 256 + (buf[off + 1] as u16);
        let attr_len: usize = (buf[off + 2] as usize) * 256 + (buf[off + 3] as usize);
        assert(attr_type == be16(buf@[off as int], buf@[off + 1]));
        assert(attr_len == be16(buf@[off + 2], buf@[off + 3]));
        let val_start = off + 4;
        let val_end = val_start + attr_len;
        if val_end > end {
            return Err(owned("STUN: attribute value past end"));
        }
        if attr_type == ATTR_XOR_MAPPED_ADDRESS {
            let v = slice_bytes(buf, val_start, val_end);
            return parse_xor_mapped_address(&v);
        }
        if attr_type == ATTR_MAPPED_ADDRESS {
            let v = slice_bytes(buf, val_start, val_end);
            return parse_mapped_address(&v);
        }
        let pad = (attr_len + 3) / 4 * 4;
        off = val_start + pad;
    }
    Err(owned("STUN: no MAPPED-ADDRESS or XOR-MAPPED-ADDRESS in response"))
}

/// The bytes `b[from..to]`.
fn slice_bytes(b: &[u8], from: usize, to: usize) -> (r: Vec<u8>)
    requires
        from <= to <= b@.len(),
    ensures
        r@ == b@.subrange(from as int, to as int),
{
    let mut r: Vec<u8> = Vec::new();
    let mut i = from;
    while i < to
        invariant
            from <= i <= to,
            to <= b@.len(),
            r@ == b@.subrange(from as int, i as int),
        decreases to - i,
    {
        r.push(b[i]);
        assert(b@.subrange(from as int, i + 1) =~= b@.subrange(from as int, i as int).push(b@[i as int]));
        i += 1;
    }
    r
}

// ---------------------------------------------------------------------------
// Rendezvous lines
// ---------------------------------------------------------------------------

pub open spec fn lobby_name_ok(name: Seq<char>) -> bool {
    name.len() > 0 && !name.contains(' ') && !name.contains('\n')
}

/// Accepts a lobby name that is non-empty and holds no space and no
/// newline.
pub fn check_lobby_name(lobby_name: &str) -> (r: Result<(), String>)
    ensures
        r is Ok <==> lobby_name_ok(lobby_name@),
        r matches Err(m) ==> m@ == "rendezvous: lobby_name must be non-empty and contain no spaces/newlines"@,
{
    let v = chars_of(lobby_name);
    let mut ok = v.len() > 0;
    let mut i: usize = 0;
    while i < v.len()
        invariant
            i <= v@.len(),
            v@ == lobby_name@,
            ok == (v@.len() > 0 && forall|k: int| 0 <= k < i ==> v@[k] != ' ' && v@[k] != '\n'),
        decreases v.len() - i,
    {
        if v[i] == ' ' || v[i] == '\n' {
            ok = false;
        }
        i += 1;
    }
    if ok {
        assert(!lobby_name@.contains(' ') && !lobby_name@.contains('\n'));
        Ok(())
    } else {
        Err(owned("rendezvous: lobby_name must be non-empty and contain no spaces/newlines"))
    }
}

/// The line a client sends to join `lobby_name` with its public address.
pub fn join_line(lobby_name: &str, addr: &str) -> (r: String)
    ensures
        r@ == "JOIN "@ + lobby_name@ + seq![' '] + addr@ + seq!['\n'],
{
    let mut s = owned("JOIN ");
    push_str(&mut s, lobby_name);
    push_char(&mut s, ' ');
    push_str(&mut s, addr);
    push_char(&mut s, '\n');
    s
}

/// What the rendezvous server answered.
#[derive(Clone, Debug, PartialEq, Eq)]
pub enum RendezvousReply {
    /// `PEER <addr>`: the other peer's address text.
    Peer(String),
    /// `WAIT`: no peer yet.
    Wait,
    /// `ERR <message>`.
    ServerError(String),
    /// Anything else: the (trimmed) line.
    Bad(String),
}

/// The first line of `resp`, trimmed (empty if there is none).
pub open spec fn reply_line(resp: Seq<char>) -> Seq<char> {
    if lines(resp).len() > 0 {
        trim(lines(resp)[0])
    } else {
        trim(Seq::empty())
    }
}

pub open spec fn reply_meaning(line: Seq<char>) -> (int, Seq<char>) {
    if starts_with(line, "PEER "@) {
        (0, line.skip(5))
    } else if line == "WAIT"@ {
        (1, Seq::empty())
    } else if starts_with(line, "ERR "@) {
        (2, line.skip(4))
    } else {
        (3, line)
    }
}

pub open spec fn reply_view(r: RendezvousReply) -> (int, Seq<char>) {
    match r {
        RendezvousReply::Peer(a) => (0, a@),
        RendezvousReply::Wait => (1, Seq::empty()),
        RendezvousReply::ServerError(m) => (2, m@),
        RendezvousReply::Bad(l) => (3, l@),
    }
}

fn has_prefix(v: &Vec<char>, p: &str) -> (r: bool)
    ensures
        r == starts_with(v@, p@),
{
    let pv = chars_of(p);
    if pv.len() > v.len() {
        return false;
    }
    let mut i: usize = 0;
    while i < pv.len()
        invariant
            i <= pv@.len() <= v@.len(),
            pv@ == p@,
            forall|k: int| 0 <= k < i ==> v@[k] == pv@[k],
        decreases pv.len() - i,
    {
        if v[i] != pv[i] {
            assert(v@.subrange(0, pv@.len() as int)[i as int] != pv@[i as int]);
            return false;
        }
        i += 1;
    }
    assert(v@.subrange(0, pv@.len() as int) =~= pv@);
    true
}

fn first_line_trimmed(resp: &str) -> (r: Vec<char>)
    ensures
        r@ == reply_line(resp@),
{
    let v = chars_of(resp);
    let spans = line_spans(&v);
    if spans.len() > 0 {
        let (a, b) = spans[0];
        proof {
            assert(spans@[0].0 <= spans@[0].1 <= v@.len());
        }
        let first = slice_vec(&v, a, b);
        let (s, e) = trim_bounds(&first, 0, first.len());
        assert(first@.subrange(0, first@.len() as int) =~= first@);
        slice_vec(&first, s, e)
    } else {
        assert(trim(Seq::<char>::empty()) =~= Seq::<char>::empty());
        Vec::new()
    }
}

/// Classifies the server's reply by its first line, trimmed.
pub fn classify_reply(resp: &str) -> (r: RendezvousReply)
    ensures
        reply_view(r) == reply_meaning(reply_line(resp@)),
{
    let line = first_line_trimmed(resp);
    if has_prefix(&line, "PEER ") {
        proof { reveal_strlit("PEER "); }
        let rest = slice_vec(&line, 5, line.len());
        assert(rest@ =~= line@.skip(5));
        return RendezvousReply::Peer(string_of(&rest));
    }
    let wait = chars_of("WAIT");
    if crate::text::chars_eq(&line, &wait) {
        return RendezvousReply::Wait;
    }
    if has_prefix(&line, "ERR ") {
        proof { reveal_strlit("ERR "); }
        let rest = slice_vec(&line, 4, line.len());
        assert(rest@ =~= line@.skip(4));
        return RendezvousReply::ServerError(string_of(&rest));
    }
    RendezvousReply::Bad(string_of(&line))
}

} // verus!
