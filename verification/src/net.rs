//! Lockstep multiplayer over UDP: packet framing, the per-peer input
//! tables, tick readiness, input collection and desync detection.
//!
//! The session is a value of [`Net`]. Sockets are outside this library:
//! every function that would put a datagram on the wire returns it as an
//! [`Outgoing`] for the caller to send, and received datagrams are handed
//! to [`handle_packet`]. Input frames are carried as their encoded line
//! (the bytes of `Frame::encode_line`), which is what travels on the wire.
use vstd::prelude::*;
use vstd::arithmetic::div_mod::lemma_fundamental_div_mod;
use vstd::string::StringSliceAdditionalSpecFns;

use crate::text::{chars_eq, chars_of, dec, owned, push_decimal, push_str};

verus! {

pub const MAGIC_0: u8 = 84;
pub const MAGIC_1: u8 = 87;
pub const VERSION: u8 = 1;

pub const MSG_HELLO: u8 = 0;
pub const MSG_INPUT: u8 = 1;
pub const MSG_HASH: u8 = 2;
pub const MSG_BYE: u8 = 3;

pub const HEADER_LEN: usize = 16;

/// Default lockstep input delay, in frames.
pub const DEFAULT_INPUT_DELAY: u32 = 4;

/// Maximum supported peers per session.
pub const MAX_PEERS: usize = 4;

// ---------------------------------------------------------------------------
// Little-endian integers
// ---------------------------------------------------------------------------

/// The value of little-endian bytes.
pub open spec fn le_value(b: Seq<u8>) -> nat
    decreases b.len(),
{
    if b.len() == 0 {
        0
    } else {
        b[0] as nat + 256 * le_value(b.drop_first())
    }
}

/// The `n` little-endian bytes of `x`.
pub open spec fn le_bytes(x: nat, n: nat) -> Seq<u8>
    decreases n,
{
    if n == 0 {
        Seq::empty()
    } else {
        seq![(x % 256) as u8] + le_bytes(x / 256, (n - 1) as nat)
    }
}

pub open spec fn pow256(n: nat) -> nat
    decreases n,
{
    if n == 0 {
        1
    } else {
        256 * pow256((n - 1) as nat)
    }
}

/// Reading back `n` little-endian bytes of `x < 256^n` gives `x`.
pub proof fn lemma_le_round_trip(x: nat, n: nat)
    requires
        x < pow256(n),
    ensures
        le_bytes(x, n).len() == n,
        le_value(le_bytes(x, n)) == x,
    decreases n,
{
    if n > 0 {
        lemma_fundamental_div_mod(x as int, 256);
        assert(x / 256 < pow256((n - 1) as nat)) by (nonlinear_arith)
            requires
                x < 256 * pow256((n - 1) as nat),
        ;
        lemma_le_round_trip(x / 256, (n - 1) as nat);
        let b = le_bytes(x, n);
        assert(b.drop_first() =~= le_bytes(x / 256, (n - 1) as nat));
    }
}

fn push_le(v: &mut Vec<u8>, x: u64, n: usize)
    requires
        n <= 8,
    ensures
        final(v)@ == old(v)@ + le_bytes(x as nat, n as nat),
    decreases n,
{
    if n > 0 {
        v.push((x % 256) as u8);
        push_le(v, x / 256, n - 1);
        assert(final(v)@ =~= old(v)@ + le_bytes(x as nat, n as nat));
    }
}

fn read_le(b: &[u8], from: usize, n: usize) -> (r: u64)
    requires
        n <= 8,
        from + n <= b.len(),
    ensures
        r == le_value(b@.subrange(from as int, from + n)),
    decreases n,
{
    if n == 0 {
        0
    } else {
        let rest = read_le(b, from + 1, n - 1);
        proof {
            lemma_le_bound(b@.subrange(from + 1, from + n));
            assert(b@.subrange(from as int, from + n).drop_first() =~= b@.subrange(from + 1, from + n));
            assert(pow256((n - 1) as nat) <= pow256(7)) by {
                lemma_pow256_mono((n - 1) as nat, 7);
            }
            lemma_pow256_values();
        }
        (b[from] as u64) + 256 * rest
    }
}

pub proof fn lemma_pow256_values()
    ensures
        pow256(4) == 4294967296nat,
        pow256(7) == 72057594037927936nat,
{
    assert(pow256(0) == 1);
    assert(pow256(1) == 256);
    assert(pow256(2) == 65536);
    assert(pow256(3) == 16777216);
    assert(pow256(4) == 4294967296nat);
    assert(pow256(5) == 1099511627776nat);
    assert(pow256(6) == 281474976710656nat);
    assert(pow256(7) == 72057594037927936nat);
}

pub proof fn lemma_le_bound(b: Seq<u8>)
    ensures
        le_value(b) < pow256(b.len()),
    decreases b.len(),
{
    if b.len() > 0 {
        lemma_le_bound(b.drop_first());
    }
}

pub proof fn lemma_pow256_mono(a: nat, b: nat)
    requires
        a <= b,
    ensures
        pow256(a) <= pow256(b),
    decreases b,
{
    if a < b {
        lemma_pow256_mono(a, (b - 1) as nat);
    }
}

// ---------------------------------------------------------------------------
// Header framing
// ---------------------------------------------------------------------------

/// A parsed packet header.
#[derive(Clone, Copy, PartialEq, Eq, Debug)]
pub struct Header {
    pub msg_type: u8,
    pub session_id: u32,
    pub peer_id: u8,
    pub tick: u32,
}

/// The 16 header bytes: magic "TW", version, message type, session id
/// (little endian), peer id, three reserved zero bytes, tick (little endian).
pub open spec fn header_bytes(msg_type: u8, session_id: u32, peer_id: u8, tick: u32) -> Seq<u8> {
    seq![MAGIC_0, MAGIC_1, VERSION, msg_type] + le_bytes(session_id as nat, 4) + seq![peer_id, 0u8, 0u8, 0u8]
        + le_bytes(tick as nat, 4)
}

/// What a buffer's first 16 bytes say, when they form a header.
pub open spec fn parsed_header(buf: Seq<u8>) -> Option<Header> {
    if buf.len() < 16 || buf[0] != MAGIC_0 || buf[1] != MAGIC_1 || buf[2] != VERSION {
        None
    } else {
        Some(Header {
            msg_type: buf[3],
            session_id: le_value(buf.subrange(4, 8)) as u32,
            peer_id: buf[8],
            tick: le_value(buf.subrange(12, 16)) as u32,
        })
    }
}

/// Build a packet header.
pub fn build_header(msg_type: u8, session_id: u32, peer_id: u8, tick: u32) -> (r: Vec<u8>)
    ensures
        r@ == header_bytes(msg_type, session_id, peer_id, tick),
        r@.len() == HEADER_LEN,
{
    let mut v: Vec<u8> = Vec::new();
    v.push(MAGIC_0);
    v.push(MAGIC_1);
    v.push(VERSION);
    v.push(msg_type);
    push_le(&mut v, session_id as u64, 4);
    v.push(peer_id);
    v.push(0);
    v.push(0);
    v.push(0);
    push_le(&mut v, tick as u64, 4);
    proof {
        lemma_pow256_values();
        lemma_le_round_trip(session_id as nat, 4);
        lemma_le_round_trip(tick as nat, 4);
    }
    assert(v@ =~= header_bytes(msg_type, session_id, peer_id, tick));
    v
}

/// Parse a packet header; `None` when the buffer is shorter than a
/// header or the magic / version bytes are wrong.
pub fn parse_header(buf: &[u8]) -> (r: Option<Header>)
    ensures
        r == parsed_header(buf@),
{
    if buf.len() < HEADER_LEN {
        return None;
    }
    if buf[0] != MAGIC_0 || buf[1] != MAGIC_1 || buf[2] != VERSION {
        return None;
    }
    let msg_type = buf[3];
    let session_id = read_le(buf, 4, 4);
    let peer_id = buf[8];
    let tick = read_le(buf, 12, 4);
    proof {
        lemma_pow256_values();
        lemma_le_bound(buf@.subrange(4, 8));
        lemma_le_bound(buf@.subrange(12, 16));
    }
    Some(Header { msg_type, session_id: session_id as u32, peer_id, tick: tick as u32 })
}

/// A header read back from a built one gives the fields it was built with.
pub proof fn law_header_round_trip(msg_type: u8, session_id: u32, peer_id: u8, tick: u32)
    ensures
        parsed_header(header_bytes(msg_type, session_id, peer_id, tick)) == Some(
            Header { msg_type, session_id, peer_id, tick },
        ),
{
    lemma_pow256_values();
    lemma_le_round_trip(session_id as nat, 4);
    lemma_le_round_trip(tick as nat, 4);
    let b = header_bytes(msg_type, session_id, peer_id, tick);
    assert(b.subrange(4, 8) =~= le_bytes(session_id as nat, 4));
    assert(b.subrange(12, 16) =~= le_bytes(tick as nat, 4));
}

// ---------------------------------------------------------------------------
// Hashing
// ---------------------------------------------------------------------------

pub const FNV_OFFSET: u64 = 0xcbf2_9ce4_8422_2325;
pub const FNV_PRIME: u64 = 0x0000_0100_0000_01b3;

/// FNV-1a over `b`.
pub open spec fn fnv(b: Seq<u8>) -> u64
    decreases b.len(),
{
    if b.len() == 0 {
        FNV_OFFSET
    } else {
        (((fnv(b.drop_last()) ^ (b.last() as u64)) as nat * FNV_PRIME as nat) % 0x1_0000_0000_0000_0000nat) as u64
    }
}

/// FNV-1a 64-bit hash of `bytes`.
pub fn fnv1a(bytes: &[u8]) -> (r: u64)
    ensures
        r == fnv(bytes@),
{
    let mut h: u64 = FNV_OFFSET;
    let mut i: usize = 0;
    while i < bytes.len()
        invariant
            i <= bytes@.len(),
            h == fnv(bytes@.subrange(0, i as int)),
        decreases bytes.len() - i,
    {
        assert(bytes@.subrange(0, i + 1).drop_last() =~= bytes@.subrange(0, i as int));
        h = h ^ (bytes[i] as u64);
        h = h.wrapping_mul(FNV_PRIME);
        i += 1;
    }
    assert(bytes@.subrange(0, i as int) =~= bytes@);
    h
}

/// State hash of a value given its canonical JSON encoding: FNV-1a over
/// the encoding's UTF-8 bytes.
pub fn hash_value(snapshot_json: &str) -> (r: u64)
    ensures
        r == fnv(snapshot_json.spec_bytes()),
{
    let b = snapshot_json.as_bytes();
    fnv1a(b)
}

// ---------------------------------------------------------------------------
// Session state
// ---------------------------------------------------------------------------

/// A remote peer: its lockstep id, its address, the input frames
/// received from it keyed by tick, and the last tick seen from it.
pub struct Peer {
    pub id: u8,
    pub addr: String,
    pub inputs: Vec<(u32, Vec<u8>)>,
    pub last_seen_tick: u32,
}

/// One lockstep session.
pub struct Session {
    /// 0 for the host, 1..=N-1 for clients.
    pub local_peer_id: u8,
    /// Total peers including this one.
    pub expected_peers: u8,
    /// Per-host id; packets of other runs are dropped.
    pub session_id: u32,
    /// The other peers (the host, on a client).
    pub peers: Vec<Peer>,
    /// Local input frames keyed by tick.
    pub local_inputs: Vec<(u32, Vec<u8>)>,
    /// Highest tick sent.
    pub sent_tick: u32,
    /// Highest tick consumed by the runner.
    pub last_consumed_tick: u32,
    /// Past inputs re-sent with each packet.
    pub redundant_history: u32,
    /// Last local state hash.
    pub last_local_hash: u64,
    /// Most recent (tick, hash) per peer id.
    pub peer_hashes: Vec<(u8, u32, u64)>,
    /// Whether a desync has been reported.
    pub desync_logged: bool,
}

/// The lockstep transport: no session, or one open session.
pub struct Net {
    pub session: Option<Session>,
}

/// A datagram for the caller to send.
#[derive(Debug)]
pub struct Outgoing {
    pub addr: String,
    pub bytes: Vec<u8>,
}

/// A detected divergence: the tick, and the hashes reported for it.
pub struct Desync {
    pub tick: u32,
    pub hashes: Vec<u64>,
}

impl Net {
    /// No session open.
    pub fn new() -> (r: Self)
        ensures
            r.session is None,
    {
        Net { session: None }
    }
}

/// First index `>= i` of an entry for tick `t`.
pub open spec fn tick_index(v: Seq<(u32, Vec<u8>)>, t: u32, i: int) -> Option<int>
    decreases v.len() - i,
{
    if i < 0 || i >= v.len() {
        None
    } else if v[i].0 == t {
        Some(i)
    } else {
        tick_index(v, t, i + 1)
    }
}

pub open spec fn has_tick(v: Seq<(u32, Vec<u8>)>, t: u32) -> bool {
    tick_index(v, t, 0) is Some
}

/// The frame stored for tick `t`.
pub open spec fn frame_at(v: Seq<(u32, Vec<u8>)>, t: u32) -> Seq<u8> {
    v[tick_index(v, t, 0)->0].1@
}

pub proof fn lemma_tick_index(v: Seq<(u32, Vec<u8>)>, t: u32, i: int)
    requires
        0 <= i,
    ensures
        tick_index(v, t, i) matches Some(k) ==> i <= k < v.len() && v[k].0 == t && forall|j: int|
            i <= j < k ==> v[j].0 != t,
        tick_index(v, t, i) is None ==> forall|j: int| i <= j < v.len() ==> v[j].0 != t,
    decreases v.len() - i,
{
    if i < v.len() && v[i].0 != t {
        lemma_tick_index(v, t, i + 1);
    }
}

/// A first-match lookup only depends on the entries for that tick.
pub proof fn lemma_tick_index_push(v: Seq<(u32, Vec<u8>)>, e: (u32, Vec<u8>), t: u32)
    ensures
        tick_index(v, t, 0) is Some ==> tick_index(v.push(e), t, 0) == tick_index(v, t, 0),
        tick_index(v, t, 0) is None && e.0 == t ==> tick_index(v.push(e), t, 0) == Some(v.len() as int),
        tick_index(v, t, 0) is None && e.0 != t ==> tick_index(v.push(e), t, 0) is None,
{
    let w = v.push(e);
    lemma_tick_index(v, t, 0);
    lemma_tick_index(w, t, 0);
    if let Some(m) = tick_index(v, t, 0) {
        assert(w[m] == v[m]);
        if let Some(k) = tick_index(w, t, 0) {
            if k < m {
                assert(w[k] == v[k]);
            }
        }
    } else {
        if let Some(k) = tick_index(w, t, 0) {
            if k < v.len() {
                assert(w[k] == v[k]);
            }
        }
        if e.0 == t {
            assert(w[v.len() as int] == e);
        }
    }
}

fn find_tick(v: &Vec<(u32, Vec<u8>)>, t: u32) -> (r: Option<usize>)
    ensures
        r matches Some(i) ==> tick_index(v@, t, 0) == Some(i as int) && i < v@.len(),
        r is None ==> tick_index(v@, t, 0) is None,
{
    let mut i: usize = 0;
    while i < v.len()
        invariant
            i <= v@.len(),
            tick_index(v@, t, 0) == tick_index(v@, t, i as int),
        decreases v.len() - i,
    {
        if v[i].0 == t {
            return Some(i);
        }
        i += 1;
    }
    None
}

/// Peers a session needs besides this one (`expected - 1`, computed
/// with wrap-around as an unsigned byte).
pub open spec fn peers_needed(expected: u8) -> nat {
    if expected == 0 { 255 } else { (expected - 1) as nat }
}

/// A tick can be simulated: the local frame is stored, every expected
/// peer has joined, and every peer delivered its frame.
pub open spec fn ready(s: Session, t: u32) -> bool {
    &&& has_tick(s.local_inputs@, t)
    &&& s.peers@.len() >= peers_needed(s.expected_peers)
    &&& forall|i: int| 0 <= i < s.peers@.len() ==> has_tick(#[trigger] s.peers@[i].inputs@, t)
}

/// Whether a session is open.
pub fn is_connected(net: &Net) -> (r: bool)
    ensures
        r == net.session is Some,
{
    net.session.is_some()
}

/// Local peer id (0 without a session).
pub fn local_peer_id(net: &Net) -> (r: u8)
    ensures
        r == (match net.session {
            Some(s) => s.local_peer_id,
            None => 0,
        }),
{
    match &net.session {
        Some(s) => s.local_peer_id,
        None => 0,
    }
}

/// Total peers in the session including self (0 without a session).
pub fn peer_count(net: &Net) -> (r: u8)
    ensures
        r == (match net.session {
            Some(s) => s.expected_peers,
            None => 0,
        }),
{
    match &net.session {
        Some(s) => s.expected_peers,
        None => 0,
    }
}

/// Whether the session can start: a host once it has accepted a hello
/// from every other expected peer, a client as soon as its session is
/// installed (it has received the host's hello-ack).
pub open spec fn session_is_ready(s: Session) -> bool {
    if s.local_peer_id == 0 {
        s.peers@.len() + 1 >= s.expected_peers
    } else {
        true
    }
}

/// Whether every expected peer has joined: see [`session_is_ready`].
pub fn session_ready(net: &Net) -> (r: bool)
    ensures
        r == (match net.session {
            Some(s) => session_is_ready(s),
            None => false,
        }),
{
    match &net.session {
        Some(s) => s.local_peer_id != 0 || s.peers.len() >= s.expected_peers as usize || s.peers.len() + 1
            >= s.expected_peers as usize,
        None => false,
    }
}

/// The local peer's most recent state hash (0 without a session).
pub fn local_state_hash(net: &Net) -> (r: u64)
    ensures
        r == (match net.session {
            Some(s) => s.last_local_hash,
            None => 0,
        }),
{
    match &net.session {
        Some(s) => s.last_local_hash,
        None => 0,
    }
}

/// Whether tick `tick` is ready to simulate.
#[verifier::loop_isolation(false)]
pub fn tick_ready(net: &Net, tick: u32) -> (r: bool)
    ensures
        r == (match net.session {
            Some(s) => ready(s, tick),
            None => false,
        }),
{
    match &net.session {
        None => false,
        Some(sess) => {
            if find_tick(&sess.local_inputs, tick).is_none() {
                return false;
            }
            let need: usize = if sess.expected_peers == 0 {
                255
            } else {
                (sess.expected_peers - 1) as usize
            };
            if sess.peers.len() < need {
                return false;
            }
            let mut i: usize = 0;
            while i < sess.peers.len()
                invariant
                    i <= sess.peers@.len(),
                    forall|j: int| 0 <= j < i ==> has_tick(#[trigger] sess.peers@[j].inputs@, tick),
                decreases sess.peers.len() - i,
            {
                if find_tick(&sess.peers[i].inputs, tick).is_none() {
                    assert(!has_tick(sess.peers@[i as int].inputs@, tick));
                    return false;
                }
                i += 1;
            }
            true
        },
    }
}

// ---------------------------------------------------------------------------
// Opening and closing
// ---------------------------------------------------------------------------

pub open spec fn out_view(o: Outgoing) -> (Seq<char>, Seq<u8>) {
    (o.addr@, o.bytes@)
}

pub open spec fn outs_view(v: Seq<Outgoing>) -> Seq<(Seq<char>, Seq<u8>)> {
    v.map_values(|o: Outgoing| out_view(o))
}

/// One copy of `bytes` for each peer, in peer order.
pub open spec fn to_each_peer(peers: Seq<Peer>, bytes: Seq<u8>) -> Seq<(Seq<char>, Seq<u8>)> {
    peers.map_values(|p: Peer| (p.addr@, bytes))
}

fn copy_string(s: &String) -> (r: String)
    ensures
        r@ == s@,
{
    owned(s.as_str())
}

fn copy_bytes(b: &[u8]) -> (r: Vec<u8>)
    ensures
        r@ == b@,
{
    let mut v: Vec<u8> = Vec::new();
    let mut i: usize = 0;
    while i < b.len()
        invariant
            i <= b@.len(),
            v@ == b@.subrange(0, i as int),
        decreases b.len() - i,
    {
        v.push(b[i]);
        assert(v@ =~= b@.subrange(0, i + 1));
        i += 1;
    }
    assert(b@.subrange(0, b@.len() as int) =~= b@);
    v
}

/// `bytes` addressed to every peer.
fn send_to_all(peers: &Vec<Peer>, bytes: &Vec<u8>) -> (r: Vec<Outgoing>)
    ensures
        outs_view(r@) == to_each_peer(peers@, bytes@),
{
    let mut out: Vec<Outgoing> = Vec::new();
    let mut i: usize = 0;
    while i < peers.len()
        invariant
            i <= peers@.len(),
            outs_view(out@) == to_each_peer(peers@.subrange(0, i as int), bytes@),
        decreases peers.len() - i,
    {
        let ghost before = out@;
        out.push(Outgoing { addr: copy_string(&peers[i].addr), bytes: copy_bytes(bytes) });
        assert(outs_view(out@) =~= outs_view(before).push((peers@[i as int].addr@, bytes@)));
        assert(to_each_peer(peers@.subrange(0, i + 1), bytes@) =~= to_each_peer(
            peers@.subrange(0, i as int),
            bytes@,
        ).push((peers@[i as int].addr@, bytes@)));
        i += 1;
    }
    assert(peers@.subrange(0, peers@.len() as int) =~= peers@);
    out
}

/// Close the session: the bye packet (header with the last sent tick)
/// goes to every known peer, and the session is dropped. Idempotent.
pub fn close(net: &mut Net) -> (r: Vec<Outgoing>)
    ensures
        final(net).session is None,
        old(net).session is None ==> r@.len() == 0,
        old(net).session matches Some(s) ==> outs_view(r@) == to_each_peer(
            s.peers@,
            header_bytes(MSG_BYE, s.session_id, s.local_peer_id, s.sent_tick),
        ),
{
    let r = match &net.session {
        Some(sess) => {
            let bye = build_header(MSG_BYE, sess.session_id, sess.local_peer_id, sess.sent_tick);
            send_to_all(&sess.peers, &bye)
        },
        None => Vec::new(),
    };
    net.session = None;
    r
}

/// A session of `expected` peers in which this peer has `local` id.
pub open spec fn new_session(s: Session, local: u8, expected: u8, session_id: u32) -> bool {
    &&& s.local_peer_id == local
    &&& s.expected_peers == expected
    &&& s.session_id == session_id
    &&& s.local_inputs@.len() == 0
    &&& s.sent_tick == 0
    &&& s.last_consumed_tick == 0
    &&& s.redundant_history == 4
    &&& s.last_local_hash == 0
    &&& s.peer_hashes@.len() == 0
    &&& !s.desync_logged
}

/// The error `host` gives for a peer count outside `2..=4`.
pub open spec fn host_range_msg(expected_peers: u8) -> Seq<char> {
    "net.host: expected_peers must be 2..=4 (got "@ + dec(expected_peers as nat) + ")"@
}

/// Become host (peer 0) of a session of `expected_peers` peers with the
/// given session id. An open session is closed first (its bye packets
/// are returned). The caller binds the socket.
pub fn host(net: &mut Net, expected_peers: u8, session_id: u32) -> (r: Result<Vec<Outgoing>, String>)
    ensures
        !(2 <= expected_peers <= 4) ==> (r matches Err(e) && e@ == host_range_msg(expected_peers))
            && final(net).session == old(net).session,
        2 <= expected_peers <= 4 ==> r is Ok && (final(net).session matches Some(s) && new_session(
            s,
            0,
            expected_peers,
            session_id,
        ) && s.peers@.len() == 0),
{
    if !(2 <= expected_peers && expected_peers <= 4) {
        let mut m = String::new();
        push_str(&mut m, "net.host: expected_peers must be 2..=4 (got ");
        push_decimal(&mut m, expected_peers as u64);
        push_str(&mut m, ")");
        return Err(m);
    }
    let byes = close(net);
    net.session = Some(Session {
        local_peer_id: 0,
        expected_peers,
        session_id,
        peers: Vec::new(),
        local_inputs: Vec::new(),
        sent_tick: 0,
        last_consumed_tick: 0,
        redundant_history: 4,
        last_local_hash: 0,
        peer_hashes: Vec::new(),
        desync_logged: false,
    });
    Ok(byes)
}

/// The hello a client sends: a hello header with zero fields and four
/// zero bytes for the peer count.
pub fn hello_packet() -> (r: Vec<u8>)
    ensures
        r@ == header_bytes(MSG_HELLO, 0, 0, 0) + seq![0u8, 0u8, 0u8, 0u8],
{
    let mut v = build_header(MSG_HELLO, 0, 0, 0);
    v.push(0);
    v.push(0);
    v.push(0);
    v.push(0);
    assert(v@ =~= header_bytes(MSG_HELLO, 0, 0, 0) + seq![0u8, 0u8, 0u8, 0u8]);
    v
}

/// What a host's hello-ack tells a client: (assigned peer id, peer
/// count, session id); `None` when `buf` is not a hello with a 4-byte
/// payload.
pub open spec fn hello_ack(buf: Seq<u8>) -> Option<(u8, u8, u32)> {
    match parsed_header(buf) {
        Some(h) => if h.msg_type == MSG_HELLO && buf.len() >= 20 {
            Some((h.peer_id, buf[16], h.session_id))
        } else {
            None
        },
        None => None,
    }
}

pub fn parse_hello_ack(buf: &[u8]) -> (r: Option<(u8, u8, u32)>)
    ensures
        r == hello_ack(buf@),
{
    match parse_header(buf) {
        Some(h) => {
            if h.msg_type == MSG_HELLO && buf.len() >= 20 {
                Some((h.peer_id, buf[16], h.session_id))
            } else {
                None
            }
        },
        None => None,
    }
}

/// Install a client session after the host's hello-ack: the host at
/// `host_addr` is peer 0.
pub fn connect_session(net: &mut Net, host_addr: String, peer_id: u8, expected_peers: u8, session_id: u32)
    ensures
        final(net).session matches Some(s) && new_session(s, peer_id, expected_peers, session_id)
            && s.peers@.len() == 1 && s.peers@[0].id == 0 && s.peers@[0].addr@ == host_addr@
            && s.peers@[0].inputs@.len() == 0 && s.peers@[0].last_seen_tick == 0,
{
    let mut peers: Vec<Peer> = Vec::new();
    peers.push(Peer { id: 0, addr: host_addr, inputs: Vec::new(), last_seen_tick: 0 });
    net.session = Some(Session {
        local_peer_id: peer_id,
        expected_peers,
        session_id,
        peers,
        local_inputs: Vec::new(),
        sent_tick: 0,
        last_consumed_tick: 0,
        redundant_history: 4,
        last_local_hash: 0,
        peer_hashes: Vec::new(),
        desync_logged: false,
    });
}

/// Per-host session id from the sub-second nanoseconds of the clock.
pub fn session_salt(nanos: u32) -> (r: u32)
    ensures
        r == nanos ^ 0xa5a5_5a5au32,
{
    nanos ^ 0xa5a5_5a5a
}

// ---------------------------------------------------------------------------
// Sending inputs
// ---------------------------------------------------------------------------

/// The input packet for tick `t` of session `s`.
pub open spec fn input_packet(s: Session, t: u32) -> Seq<u8> {
    header_bytes(MSG_INPUT, s.session_id, s.local_peer_id, t) + frame_at(s.local_inputs@, t)
}

/// Input packets to `addr` for the stored ticks in `[start, end)`.
pub open spec fn history(s: Session, addr: Seq<char>, start: int, end: int) -> Seq<(Seq<char>, Seq<u8>)>
    decreases end - start,
{
    if end <= start {
        Seq::empty()
    } else if has_tick(s.local_inputs@, (end - 1) as u32) {
        history(s, addr, start, end - 1).push((addr, input_packet(s, (end - 1) as u32)))
    } else {
        history(s, addr, start, end - 1)
    }
}

/// The history packets to each of `peers`, in peer order.
pub open spec fn broadcast(s: Session, peers: Seq<Peer>, start: int, end: int) -> Seq<(Seq<char>, Seq<u8>)>
    decreases peers.len(),
{
    if peers.len() == 0 {
        Seq::empty()
    } else {
        broadcast(s, peers.drop_last(), start, end) + history(s, peers.last().addr@, start, end)
    }
}

/// The frame table after committing `frame` for tick `t`: a tick that
/// already has a frame keeps it.
pub open spec fn stored(v: Seq<(u32, Vec<u8>)>, t: u32, frame: Vec<u8>) -> Seq<(u32, Vec<u8>)> {
    if has_tick(v, t) {
        v
    } else {
        v.push((t, frame))
    }
}

/// A tick's input is final once committed: committing a second frame
/// for the same tick leaves the first one in place.
pub proof fn law_input_write_once(v: Seq<(u32, Vec<u8>)>, t: u32, first: Vec<u8>, second: Vec<u8>)
    ensures
        has_tick(stored(stored(v, t, first), t, second), t),
        frame_at(stored(stored(v, t, first), t, second), t) == (if has_tick(v, t) {
            frame_at(v, t)
        } else {
            first@
        }),
{
    lemma_tick_index_push(v, (t, first), t);
    lemma_tick_index(v.push((t, first)), t, 0);
}

fn store_if_absent(v: &mut Vec<(u32, Vec<u8>)>, t: u32, frame: Vec<u8>)
    ensures
        tick_index(old(v)@, t, 0) is Some ==> final(v)@ == old(v)@,
        tick_index(old(v)@, t, 0) is None ==> final(v)@ == old(v)@.push((t, frame)),
{
    if find_tick(v, t).is_none() {
        v.push((t, frame));
    }
}

/// Store the local frame for `tick` unless one is already stored (a
/// tick's input is final once committed), raise the sent tick, and
/// send every peer the stored frames of the last `redundant_history`
/// ticks up to `tick`.
#[verifier::loop_isolation(false)]
pub fn send_input(net: &mut Net, tick: u32, frame: Vec<u8>) -> (r: Vec<Outgoing>)
    ensures
        old(net).session is None ==> r@.len() == 0 && final(net).session is None,
        old(net).session matches Some(s0) ==> (final(net).session matches Some(s1) && {
            &&& s1.local_inputs@ == stored(s0.local_inputs@, tick, frame)
            &&& s1.sent_tick == (if s0.sent_tick > tick { s0.sent_tick } else { tick })
            &&& s1.peers == s0.peers
            &&& s1.local_peer_id == s0.local_peer_id
            &&& s1.expected_peers == s0.expected_peers
            &&& s1.session_id == s0.session_id
            &&& s1.last_consumed_tick == s0.last_consumed_tick
            &&& s1.redundant_history == s0.redundant_history
            &&& s1.last_local_hash == s0.last_local_hash
            &&& s1.peer_hashes == s0.peer_hashes
            &&& s1.desync_logged == s0.desync_logged
            &&& outs_view(r@) == broadcast(
                s1,
                s1.peers@,
                if tick >= s1.redundant_history { tick - s1.redundant_history } else { 0 },
                tick + 1,
            )
        }),
{
    if net.session.is_none() {
        return Vec::new();
    }
    let mut sess = net.session.take().unwrap();
    store_if_absent(&mut sess.local_inputs, tick, frame);
    if tick > sess.sent_tick {
        sess.sent_tick = tick;
    }
    let start: u32 = if tick >= sess.redundant_history {
        tick - sess.redundant_history
    } else {
        0
    };
    let ghost s1 = sess;
    let mut out: Vec<Outgoing> = Vec::new();
    let mut i: usize = 0;
    while i < sess.peers.len()
        invariant
            sess == s1,
            i <= s1.peers@.len(),
            outs_view(out@) == broadcast(s1, s1.peers@.subrange(0, i as int), start as int, tick + 1),
        decreases sess.peers.len() - i,
    {
        let ghost out_i = outs_view(out@);
        let mut t: u64 = start as u64;
        while t <= tick as u64
            invariant
                sess == s1,
                i < s1.peers@.len(),
                start <= t <= tick + 1,
                outs_view(out@) == out_i + history(s1, s1.peers@[i as int].addr@, start as int, t as int),
            decreases tick + 1 - t,
        {
            let tt = t as u32;
            let ghost o0 = outs_view(out@);
            match find_tick(&sess.local_inputs, tt) {
                Some(k) => {
                    let mut pkt = build_header(MSG_INPUT, sess.session_id, sess.local_peer_id, tt);
                    let ghost h = pkt@;
                    let mut fr = copy_bytes(&sess.local_inputs[k].1);
                    pkt.append(&mut fr);
                    out.push(Outgoing { addr: copy_string(&sess.peers[i].addr), bytes: pkt });
                    assert(outs_view(out@) =~= o0.push((s1.peers@[i as int].addr@, input_packet(s1, tt))));
                },
                None => {
                    assert(outs_view(out@) =~= o0);
                },
            }
            t += 1;
        }
        assert(s1.peers@.subrange(0, i + 1).drop_last() =~= s1.peers@.subrange(0, i as int));
        i += 1;
    }
    assert(s1.peers@.subrange(0, s1.peers@.len() as int) =~= s1.peers@);
    net.session = Some(sess);
    out
}

// ---------------------------------------------------------------------------
// Collecting inputs
// ---------------------------------------------------------------------------

pub open spec fn entry_view(e: (u8, Vec<u8>)) -> (u8, Seq<u8>) {
    (e.0, e.1@)
}

/// The frames for `t`: the local one first, then each peer's, in table order.
pub open spec fn frames_for(s: Session, t: u32) -> Seq<(u8, Seq<u8>)> {
    seq![(s.local_peer_id, frame_at(s.local_inputs@, t))] + s.peers@.map_values(
        |p: Peer| (p.id, frame_at(p.inputs@, t)),
    )
}

/// The entries of `l` with peer id `id`, in order.
pub open spec fn with_id(l: Seq<(u8, Seq<u8>)>, id: int) -> Seq<(u8, Seq<u8>)>
    decreases l.len(),
{
    if l.len() == 0 {
        Seq::empty()
    } else if l.last().0 == id {
        with_id(l.drop_last(), id).push(l.last())
    } else {
        with_id(l.drop_last(), id)
    }
}

/// `l` ordered by peer id, entries with equal ids kept in their order:
/// the entries of id 0, then of id 1, and so on up to id `k - 1`.
pub open spec fn by_id(l: Seq<(u8, Seq<u8>)>, k: int) -> Seq<(u8, Seq<u8>)>
    decreases k,
{
    if k <= 0 {
        Seq::empty()
    } else {
        by_id(l, k - 1) + with_id(l, k - 1)
    }
}

/// The entries of `v` whose tick is at least `floor`.
pub open spec fn keep_from(v: Seq<(u32, Vec<u8>)>, floor: u32) -> Seq<(u32, Vec<u8>)>
    decreases v.len(),
{
    if v.len() == 0 {
        Seq::empty()
    } else if v.last().0 >= floor {
        keep_from(v.drop_last(), floor).push(v.last())
    } else {
        keep_from(v.drop_last(), floor)
    }
}

proof fn lemma_has_tick_push(v: Seq<(u32, Vec<u8>)>, e: (u32, Vec<u8>), t: u32)
    ensures
        has_tick(v.push(e), t) == (has_tick(v, t) || e.0 == t),
{
    lemma_tick_index_push(v, e, t);
}

proof fn lemma_keep_from_ticks(v: Seq<(u32, Vec<u8>)>, floor: u32, t: u32)
    ensures
        has_tick(keep_from(v, floor), t) == (has_tick(v, t) && t >= floor),
    decreases v.len(),
{
    if v.len() == 0 {
        assert(keep_from(v, floor) =~= Seq::<(u32, Vec<u8>)>::empty());
    } else {
        let p = v.drop_last();
        lemma_keep_from_ticks(p, floor, t);
        assert(p.push(v.last()) =~= v);
        lemma_has_tick_push(p, v.last(), t);
        if v.last().0 >= floor {
            lemma_has_tick_push(keep_from(p, floor), v.last(), t);
        }
    }
}

/// Sending the local frame of a tick is what it waits on from this
/// peer: right after `send_input`, the tick is ready exactly when every
/// expected peer has joined and delivered its frame for it.
pub proof fn law_sent_tick_waits_only_on_peers(s0: Session, s1: Session, t: u32, frame: Vec<u8>)
    requires
        s1.local_inputs@ == stored(s0.local_inputs@, t, frame),
        s1.peers == s0.peers,
        s1.expected_peers == s0.expected_peers,
    ensures
        ready(s1, t) == (s0.peers@.len() >= peers_needed(s0.expected_peers) && forall|i: int|
            0 <= i < s0.peers@.len() ==> has_tick(#[trigger] s0.peers@[i].inputs@, t)),
{
    if !has_tick(s0.local_inputs@, t) {
        lemma_has_tick_push(s0.local_inputs@, (t, frame), t);
    }
}

/// Taking a tick's inputs forgets only ticks more than eight behind it:
/// a tick at or past the floor is ready afterwards exactly when it was
/// before, and one below it never is.
pub proof fn law_take_keeps_recent_ticks(s0: Session, s1: Session, floor: u32, t: u32)
    requires
        s1.local_inputs@ == keep_from(s0.local_inputs@, floor),
        s1.peers@.len() == s0.peers@.len(),
        forall|i: int| 0 <= i < s0.peers@.len() ==> (#[trigger] s1.peers@[i]).inputs@ == keep_from(s0.peers@[i].inputs@, floor),
        s1.expected_peers == s0.expected_peers,
    ensures
        t >= floor ==> ready(s1, t) == ready(s0, t),
        t < floor ==> !ready(s1, t),
{
    lemma_keep_from_ticks(s0.local_inputs@, floor, t);
    assert forall|i: int| 0 <= i < s0.peers@.len() implies has_tick(#[trigger] s1.peers@[i].inputs@, t) == (has_tick(
        s0.peers@[i].inputs@,
        t,
    ) && t >= floor) by {
        lemma_keep_from_ticks(s0.peers@[i].inputs@, floor, t);
    }
    if t >= floor {
        if ready(s0, t) {
            assert forall|i: int| 0 <= i < s1.peers@.len() implies has_tick(#[trigger] s1.peers@[i].inputs@, t) by {
                assert(has_tick(s0.peers@[i].inputs@, t));
            }
        }
        if ready(s1, t) {
            assert forall|i: int| 0 <= i < s0.peers@.len() implies has_tick(#[trigger] s0.peers@[i].inputs@, t) by {
                assert(has_tick(s1.peers@[i].inputs@, t));
            }
        }
    }
}

/// What happens to the local input table: `send_input` stores a frame
/// for a tick, `take_inputs` drops the ticks below a floor.
pub enum LocalOp {
    Store(u32, Vec<u8>),
    Cleanup(u32),
}

/// The local input table after `ops`, in order, from `v`.
pub open spec fn local_after(v: Seq<(u32, Vec<u8>)>, ops: Seq<LocalOp>) -> Seq<(u32, Vec<u8>)>
    decreases ops.len(),
{
    if ops.len() == 0 {
        v
    } else {
        let prev = local_after(v, ops.drop_last());
        match ops.last() {
            LocalOp::Store(t, f) => stored(prev, t, f),
            LocalOp::Cleanup(fl) => keep_from(prev, fl),
        }
    }
}

/// Some `send_input` of tick `t` in `ops` was not followed by a cleanup
/// that dropped it.
pub open spec fn sent_and_kept(ops: Seq<LocalOp>, t: u32) -> bool {
    exists|i: int|
        0 <= i < ops.len() && (#[trigger] ops[i] matches LocalOp::Store(u, _) && u == t) && forall|j: int|
            i < j < ops.len() ==> (#[trigger] ops[j] matches LocalOp::Cleanup(fl) ==> t >= fl)
}

proof fn lemma_local_after(ops: Seq<LocalOp>, t: u32)
    ensures
        has_tick(local_after(Seq::empty(), ops), t) == sent_and_kept(ops, t),
    decreases ops.len(),
{
    if ops.len() == 0 {
        assert(!has_tick(Seq::<(u32, Vec<u8>)>::empty(), t));
    } else {
        let p = ops.drop_last();
        let n = ops.len() - 1;
        lemma_local_after(p, t);
        let prev = local_after(Seq::empty(), p);
        assert(ops[n] == ops.last());
        if sent_and_kept(p, t) {
            let i = choose|i: int|
                0 <= i < p.len() && (#[trigger] p[i] matches LocalOp::Store(u, _) && u == t) && forall|j: int|
                    i < j < p.len() ==> (#[trigger] p[j] matches LocalOp::Cleanup(fl) ==> t >= fl);
            assert(ops[i] == p[i]);
            assert forall|j: int| i < j < n implies (#[trigger] ops[j] matches LocalOp::Cleanup(fl) ==> t >= fl) by {
                assert(ops[j] == p[j]);
            }
        }
        if sent_and_kept(ops, t) {
            let i = choose|i: int|
                0 <= i < ops.len() && (#[trigger] ops[i] matches LocalOp::Store(u, _) && u == t) && forall|j: int|
                    i < j < ops.len() ==> (#[trigger] ops[j] matches LocalOp::Cleanup(fl) ==> t >= fl);
            if i < n {
                assert(p[i] == ops[i]);
                assert forall|j: int| i < j < p.len() implies (#[trigger] p[j] matches LocalOp::Cleanup(fl) ==> t >= fl) by {
                    assert(p[j] == ops[j]);
                }
                assert(sent_and_kept(p, t));
            }
        }
        match ops.last() {
            LocalOp::Store(u, f) => {
                if !has_tick(prev, u) {
                    lemma_has_tick_push(prev, (u, f), t);
                }
                if u == t {
                    assert(ops[n] matches LocalOp::Store(u2, _) && u2 == t);
                }
            },
            LocalOp::Cleanup(fl) => {
                lemma_keep_from_ticks(prev, fl, t);
                if sent_and_kept(p, t) && t >= fl {
                    let i = choose|i: int|
                        0 <= i < p.len() && (#[trigger] p[i] matches LocalOp::Store(u, _) && u == t) && forall|j: int|
                            i < j < p.len() ==> (#[trigger] p[j] matches LocalOp::Cleanup(fl2) ==> t >= fl2);
                    assert(ops[i] == p[i]);
                    assert forall|j: int| i < j < ops.len() implies (#[trigger] ops[j] matches LocalOp::Cleanup(fl2) ==> t >= fl2) by {
                        if j < n {
                            assert(ops[j] == p[j]);
                        }
                    }
                }
                if sent_and_kept(ops, t) {
                    let i = choose|i: int|
                        0 <= i < ops.len() && (#[trigger] ops[i] matches LocalOp::Store(u, _) && u == t) && forall|j: int|
                            i < j < ops.len() ==> (#[trigger] ops[j] matches LocalOp::Cleanup(fl2) ==> t >= fl2);
                    assert(i < n);
                    assert(ops[n] matches LocalOp::Cleanup(fl2) ==> t >= fl2);
                }
            },
        }
    }
}

/// A tick is ready exactly when this peer sent its frame and no cleanup
/// has dropped it since, every expected peer has joined, and each of
/// them delivered its frame for the tick: for a session whose local
/// table was built by the calls `ops` from empty. `tick_ready` answers
/// this, and `take_inputs` succeeds on the same condition.
pub proof fn law_tick_ready_over_history(s: Session, ops: Seq<LocalOp>, t: u32)
    requires
        s.local_inputs@ == local_after(Seq::empty(), ops),
    ensures
        ready(s, t) == (sent_and_kept(ops, t) && s.peers@.len() >= peers_needed(s.expected_peers) && forall|i: int|
            0 <= i < s.peers@.len() ==> has_tick(#[trigger] s.peers@[i].inputs@, t)),
{
    lemma_local_after(ops, t);
}

/// What a call does to the local state hash: `send_state_hash` reports
/// a new one; every other call on an open session keeps it.
pub enum HashStep {
    Reported(u64),
    Kept,
}

/// The local hash after `steps`, in order, from `start`.
pub open spec fn hash_after(start: u64, steps: Seq<HashStep>) -> u64
    decreases steps.len(),
{
    if steps.len() == 0 {
        start
    } else {
        match steps.last() {
            HashStep::Reported(h) => h,
            HashStep::Kept => hash_after(start, steps.drop_last()),
        }
    }
}

/// `local_state_hash` gives the hash of the latest `send_state_hash`
/// (or the starting one if there was none): along states where each
/// call reports a hash or keeps it, the last state's hash is
/// [`hash_after`] of the calls.
pub proof fn law_local_hash_is_last_report(states: Seq<Session>, steps: Seq<HashStep>)
    requires
        states.len() == steps.len() + 1,
        forall|i: int| 0 <= i < steps.len() ==> states[i + 1].last_local_hash == match #[trigger] steps[i] {
            HashStep::Reported(h) => h,
            HashStep::Kept => states[i].last_local_hash,
        },
    ensures
        states.last().last_local_hash == hash_after(states[0].last_local_hash, steps),
    decreases steps.len(),
{
    if steps.len() > 0 {
        let st = states.drop_last();
        let sp = steps.drop_last();
        assert forall|i: int| 0 <= i < sp.len() implies st[i + 1].last_local_hash == match #[trigger] sp[i] {
            HashStep::Reported(h) => h,
            HashStep::Kept => st[i].last_local_hash,
        } by {
            assert(sp[i] == steps[i] && st[i + 1] == states[i + 1] && st[i] == states[i]);
        }
        law_local_hash_is_last_report(st, sp);
        assert(states[steps.len() as int] == states.last());
        assert(steps[steps.len() - 1] == steps.last());
    }
}

/// Handling a datagram keeps the local state hash (a `Kept` step).
pub proof fn law_packet_keeps_local_hash(
    s0: Session,
    s1: Session,
    src: Seq<char>,
    buf: Seq<u8>,
    frame_ok: bool,
    processed: bool,
    replies: Seq<(Seq<char>, Seq<u8>)>,
    desync: Option<Desync>,
)
    requires
        packet_step(s0, s1, src, buf, frame_ok, processed, replies, desync),
    ensures
        s1.last_local_hash == s0.last_local_hash,
{
}

fn retain_from(v: &mut Vec<(u32, Vec<u8>)>, floor: u32)
    ensures
        final(v)@ == keep_from(old(v)@, floor),
{
    let mut src: Vec<(u32, Vec<u8>)> = Vec::new();
    std::mem::swap(&mut src, v);
    let ghost s0 = src@;
    let n = src.len();
    let mut k: usize = 0;
    while k < n
        invariant
            n == s0.len(),
            k <= n,
            src@ == s0.subrange(k as int, n as int),
            v@ == keep_from(s0.subrange(0, k as int), floor),
        decreases n - k,
    {
        let e = src.remove(0);
        assert(src@ =~= s0.subrange(k + 1, n as int));
        assert(s0.subrange(0, k + 1).drop_last() =~= s0.subrange(0, k as int));
        if e.0 >= floor {
            v.push(e);
        }
        k += 1;
    }
    assert(s0.subrange(0, n as int) =~= s0);
}

fn frame_copy(v: &Vec<(u32, Vec<u8>)>, t: u32) -> (r: Vec<u8>)
    requires
        has_tick(v@, t),
    ensures
        r@ == frame_at(v@, t),
{
    match find_tick(v, t) {
        Some(k) => copy_bytes(&v[k].1),
        None => Vec::new(),
    }
}

/// The frames for `tick` ordered by peer id (ties keep table order),
/// or `None` when the tick is not ready. On success the tick is marked
/// consumed and stored frames older than `tick - 2 * DEFAULT_INPUT_DELAY`
/// are dropped.
#[verifier::loop_isolation(false)]
pub fn take_inputs(net: &mut Net, tick: u32) -> (r: Option<Vec<(u8, Vec<u8>)>>)
    ensures
        old(net).session is None ==> r is None && final(net).session is None,
        old(net).session is Some && !ready(old(net).session->0, tick) ==> r is None && final(net).session
            == old(net).session,
        old(net).session is Some && ready(old(net).session->0, tick) ==> (r matches Some(out) && (
        final(net).session matches Some(s1) && {
            let s0 = old(net).session->0;
            let floor = if tick >= 8 { (tick - 8) as u32 } else { 0u32 };
            &&& out@.map_values(|e: (u8, Vec<u8>)| entry_view(e)) == by_id(frames_for(s0, tick), 256)
            &&& s1.last_consumed_tick == (if s0.last_consumed_tick > tick { s0.last_consumed_tick } else { tick })
            &&& s1.local_inputs@ == keep_from(s0.local_inputs@, floor)
            &&& s1.peers@.len() == s0.peers@.len()
            &&& forall|i: int| 0 <= i < s0.peers@.len() ==> {
                &&& (#[trigger] s1.peers@[i]).inputs@ == keep_from(s0.peers@[i].inputs@, floor)
                &&& s1.peers@[i].id == s0.peers@[i].id
                &&& s1.peers@[i].addr == s0.peers@[i].addr
                &&& s1.peers@[i].last_seen_tick == s0.peers@[i].last_seen_tick
            }
            &&& s1.local_peer_id == s0.local_peer_id
            &&& s1.expected_peers == s0.expected_peers
            &&& s1.session_id == s0.session_id
            &&& s1.sent_tick == s0.sent_tick
            &&& s1.redundant_history == s0.redundant_history
            &&& s1.last_local_hash == s0.last_local_hash
            &&& s1.peer_hashes == s0.peer_hashes
            &&& s1.desync_logged == s0.desync_logged
        })),
{
    if !tick_ready(net, tick) {
        return None;
    }
    let mut sess = net.session.take().unwrap();
    let ghost s0 = sess;
    // Gather (id, frame) in table order.
    let mut all: Vec<(u8, Vec<u8>)> = Vec::new();
    all.push((sess.local_peer_id, frame_copy(&sess.local_inputs, tick)));
    let mut i: usize = 0;
    while i < sess.peers.len()
        invariant
            sess == s0,
            ready(s0, tick),
            i <= s0.peers@.len(),
            all@.map_values(|e: (u8, Vec<u8>)| entry_view(e)) == frames_for(s0, tick).subrange(0, i + 1),
        decreases sess.peers.len() - i,
    {
        assert(has_tick(s0.peers@[i as int].inputs@, tick));
        let ghost a0 = all@.map_values(|e: (u8, Vec<u8>)| entry_view(e));
        all.push((sess.peers[i].id, frame_copy(&sess.peers[i].inputs, tick)));
        assert(all@.map_values(|e: (u8, Vec<u8>)| entry_view(e)) =~= frames_for(s0, tick).subrange(0, i + 2));
        i += 1;
    }
    let ghost l = frames_for(s0, tick);
    assert(all@.map_values(|e: (u8, Vec<u8>)| entry_view(e)) =~= l);
    // Order by peer id.
    let mut out: Vec<(u8, Vec<u8>)> = Vec::new();
    let mut id: u16 = 0;
    while id < 256
        invariant
            id <= 256,
            all@.map_values(|e: (u8, Vec<u8>)| entry_view(e)) == l,
            out@.map_values(|e: (u8, Vec<u8>)| entry_view(e)) == by_id(l, id as int),
        decreases 256 - id,
    {
        let ghost o0 = out@.map_values(|e: (u8, Vec<u8>)| entry_view(e));
        let mut j: usize = 0;
        while j < all.len()
            invariant
                id < 256,
                j <= all@.len(),
                all@.map_values(|e: (u8, Vec<u8>)| entry_view(e)) == l,
                out@.map_values(|e: (u8, Vec<u8>)| entry_view(e)) == o0 + with_id(l.subrange(0, j as int), id as int),
            decreases all.len() - j,
        {
            assert(l.subrange(0, j + 1).drop_last() =~= l.subrange(0, j as int));
            assert(l[j as int] == entry_view(all@[j as int]));
            if all[j].0 as u16 == id {
                let ghost o1 = out@.map_values(|e: (u8, Vec<u8>)| entry_view(e));
                out.push((all[j].0, copy_bytes(&all[j].1)));
                assert(out@.map_values(|e: (u8, Vec<u8>)| entry_view(e)) =~= o1.push(l[j as int]));
            }
            j += 1;
        }
        assert(l.subrange(0, all@.len() as int) =~= l);
        id += 1;
    }
    if tick > sess.last_consumed_tick {
        sess.last_consumed_tick = tick;
    }
    let floor: u32 = if tick >= 8 {
        tick - 8
    } else {
        0
    };
    retain_from(&mut sess.local_inputs, floor);
    let ghost lc = sess.last_consumed_tick;
    let ghost li = sess.local_inputs@;
    let np = sess.peers.len();
    let mut p: usize = 0;
    while p < np
        invariant
            np == s0.peers@.len(),
            sess.peers@.len() == np,
            p <= np,
            forall|q: int| 0 <= q < p ==> {
                &&& (#[trigger] sess.peers@[q]).inputs@ == keep_from(s0.peers@[q].inputs@, floor)
                &&& sess.peers@[q].id == s0.peers@[q].id
                &&& sess.peers@[q].addr == s0.peers@[q].addr
                &&& sess.peers@[q].last_seen_tick == s0.peers@[q].last_seen_tick
            },
            forall|q: int| p <= q < np ==> #[trigger] sess.peers@[q] == s0.peers@[q],
            sess.local_peer_id == s0.local_peer_id,
            sess.expected_peers == s0.expected_peers,
            sess.session_id == s0.session_id,
            sess.sent_tick == s0.sent_tick,
            sess.redundant_history == s0.redundant_history,
            sess.last_local_hash == s0.last_local_hash,
            sess.peer_hashes == s0.peer_hashes,
            sess.desync_logged == s0.desync_logged,
            sess.last_consumed_tick == lc,
            sess.local_inputs@ == li,
        decreases np - p,
    {
        let mut peer = sess.peers.remove(p);
        retain_from(&mut peer.inputs, floor);
        sess.peers.insert(p, peer);
        p += 1;
    }
    net.session = Some(sess);
    Some(out)
}

/// Every entry of `with_id(l, id)` has id `id`.
pub proof fn lemma_with_id(l: Seq<(u8, Seq<u8>)>, id: int)
    ensures
        forall|i: int| 0 <= i < with_id(l, id).len() ==> (#[trigger] with_id(l, id)[i]).0 == id,
    decreases l.len(),
{
    if l.len() > 0 {
        lemma_with_id(l.drop_last(), id);
        let w = with_id(l.drop_last(), id);
        if l.last().0 == id {
            assert forall|i: int| 0 <= i < with_id(l, id).len() implies (#[trigger] with_id(l, id)[i]).0 == id by {
                if i < w.len() {
                    assert(with_id(l, id)[i] == w[i]);
                }
            }
        }
    }
}

/// The entries of `by_id(l, k)` have ids below `k`, in non-decreasing order.
pub proof fn lemma_by_id_sorted(l: Seq<(u8, Seq<u8>)>, k: int)
    ensures
        forall|i: int, j: int|
            0 <= i <= j < by_id(l, k).len() ==> (#[trigger] by_id(l, k)[i]).0 <= (#[trigger] by_id(l, k)[j]).0,
        forall|i: int| 0 <= i < by_id(l, k).len() ==> (#[trigger] by_id(l, k)[i]).0 < k,
    decreases k,
{
    if k > 0 {
        lemma_by_id_sorted(l, k - 1);
        lemma_with_id(l, k - 1);
        let a = by_id(l, k - 1);
        let b = with_id(l, k - 1);
        assert(by_id(l, k) == a + b);
        assert forall|i: int| 0 <= i < by_id(l, k).len() implies (#[trigger] by_id(l, k)[i]).0 < k by {
            if i < a.len() {
                assert(by_id(l, k)[i] == a[i]);
            } else {
                assert(by_id(l, k)[i] == b[i - a.len()]);
            }
        }
        assert forall|i: int, j: int|
            0 <= i <= j < by_id(l, k).len() implies (#[trigger] by_id(l, k)[i]).0 <= (#[trigger] by_id(l, k)[j]).0 by {
            if j < a.len() {
                assert(by_id(l, k)[i] == a[i]);
                assert(by_id(l, k)[j] == a[j]);
            } else if i < a.len() {
                assert(by_id(l, k)[i] == a[i]);
                assert(by_id(l, k)[j] == b[j - a.len()]);
            } else {
                assert(by_id(l, k)[i] == b[i - a.len()]);
                assert(by_id(l, k)[j] == b[j - a.len()]);
            }
        }
    }
}

/// The frames `take_inputs` returns come in non-decreasing peer-id order.
pub proof fn law_take_inputs_sorted(s: Session, t: u32)
    ensures
        forall|i: int, j: int|
            0 <= i <= j < by_id(frames_for(s, t), 256).len() ==> (#[trigger] by_id(frames_for(s, t), 256)[i]).0
                <= (#[trigger] by_id(frames_for(s, t), 256)[j]).0,
{
    lemma_by_id_sorted(frames_for(s, t), 256);
}

// ---------------------------------------------------------------------------
// State hashes and desync detection
// ---------------------------------------------------------------------------

/// The hashes reported for tick `t`, in table order.
pub open spec fn hashes_for(ph: Seq<(u8, u32, u64)>, t: u32) -> Seq<u64>
    decreases ph.len(),
{
    if ph.len() == 0 {
        Seq::empty()
    } else if ph.last().1 == t {
        hashes_for(ph.drop_last(), t).push(ph.last().2)
    } else {
        hashes_for(ph.drop_last(), t)
    }
}

/// Every peer reported a hash for `t` and they do not all agree.
pub open spec fn diverged(ph: Seq<(u8, u32, u64)>, expected: u8, t: u32) -> bool {
    let hs = hashes_for(ph, t);
    hs.len() == expected && exists|i: int| 0 <= i < hs.len() && #[trigger] hs[i] != hs[0]
}

pub proof fn lemma_hashes_for_present(ph: Seq<(u8, u32, u64)>, t: u32)
    ensures
        hashes_for(ph, t).len() > 0 ==> exists|i: int| 0 <= i < ph.len() && (#[trigger] ph[i]).1 == t,
    decreases ph.len(),
{
    if ph.len() > 0 {
        lemma_hashes_for_present(ph.drop_last(), t);
        if hashes_for(ph.drop_last(), t).len() > 0 {
            let i = choose|i: int| 0 <= i < ph.drop_last().len() && (#[trigger] ph.drop_last()[i]).1 == t;
            assert(ph[i] == ph.drop_last()[i]);
        } else if ph.last().1 == t {
            assert(ph[ph.len() - 1].1 == t);
        }
    }
}

fn collect_hashes(ph: &Vec<(u8, u32, u64)>, t: u32) -> (r: Vec<u64>)
    ensures
        r@ == hashes_for(ph@, t),
{
    let mut r: Vec<u64> = Vec::new();
    let mut i: usize = 0;
    while i < ph.len()
        invariant
            i <= ph@.len(),
            r@ == hashes_for(ph@.subrange(0, i as int), t),
        decreases ph.len() - i,
    {
        assert(ph@.subrange(0, i + 1).drop_last() =~= ph@.subrange(0, i as int));
        if ph[i].1 == t {
            r.push(ph[i].2);
        }
        i += 1;
    }
    assert(ph@.subrange(0, i as int) =~= ph@);
    r
}

/// Report the first tick (in table order) on which all peers reported a
/// hash and the hashes disagree; such a report is made once per session.
#[verifier::loop_isolation(false)]
pub fn check_desync(sess: &mut Session) -> (r: Option<Desync>)
    ensures
        old(sess).desync_logged ==> r is None && *final(sess) == *old(sess),
        !old(sess).desync_logged ==> (match r {
            Some(d) => diverged(old(sess).peer_hashes@, old(sess).expected_peers, d.tick) && d.hashes@
                == hashes_for(old(sess).peer_hashes@, d.tick) && *final(sess) == (Session {
                desync_logged: true,
                ..*old(sess)
            }),
            None => (forall|t: u32| !diverged(old(sess).peer_hashes@, old(sess).expected_peers, t))
                && *final(sess) == *old(sess),
        }),
{
    if sess.desync_logged {
        return None;
    }
    let mut i: usize = 0;
    while i < sess.peer_hashes.len()
        invariant
            i <= sess.peer_hashes@.len(),
            *sess == *old(sess),
            forall|j: int| 0 <= j < i ==> !diverged(sess.peer_hashes@, sess.expected_peers, (#[trigger] sess.peer_hashes@[j]).1),
        decreases sess.peer_hashes.len() - i,
    {
        let t = sess.peer_hashes[i].1;
        let hs = collect_hashes(&sess.peer_hashes, t);
        if hs.len() == sess.expected_peers as usize {
            let mut k: usize = 0;
            let mut differs = false;
            while k < hs.len()
                invariant
                    k <= hs@.len(),
                    !differs ==> forall|m: int| 0 <= m < k ==> #[trigger] hs@[m] == hs@[0],
                    differs ==> k < hs@.len() && hs@[k as int] != hs@[0],
                decreases hs.len() - k + if differs { 0int } else { 1int },
            {
                if hs[k] != hs[0] {
                    differs = true;
                    break;
                }
                k += 1;
            }
            if differs {
                assert(hs@[k as int] != hs@[0]);
                sess.desync_logged = true;
                return Some(Desync { tick: t, hashes: hs });
            }
        }
        i += 1;
    }
    assert forall|t: u32| !diverged(sess.peer_hashes@, sess.expected_peers, t) by {
        lemma_hashes_for_present(sess.peer_hashes@, t);
        if hashes_for(sess.peer_hashes@, t).len() > 0 {
            let j = choose|j: int| 0 <= j < sess.peer_hashes@.len() && (#[trigger] sess.peer_hashes@[j]).1 == t;
            assert(!diverged(sess.peer_hashes@, sess.expected_peers, sess.peer_hashes@[j].1));
        }
    }
    None
}

/// First index of the entry for peer `id`.
pub open spec fn hash_index(ph: Seq<(u8, u32, u64)>, id: u8, i: int) -> Option<int>
    decreases ph.len() - i,
{
    if i < 0 || i >= ph.len() {
        None
    } else if ph[i].0 == id {
        Some(i)
    } else {
        hash_index(ph, id, i + 1)
    }
}

/// The table after recording `(t, h)` as peer `id`'s latest hash.
pub open spec fn set_hash(ph: Seq<(u8, u32, u64)>, id: u8, t: u32, h: u64) -> Seq<(u8, u32, u64)> {
    match hash_index(ph, id, 0) {
        Some(i) => ph.update(i, (id, t, h)),
        None => ph.push((id, t, h)),
    }
}

fn record_hash(ph: &mut Vec<(u8, u32, u64)>, id: u8, t: u32, h: u64)
    ensures
        final(ph)@ == set_hash(old(ph)@, id, t, h),
{
    let mut i: usize = 0;
    while i < ph.len()
        invariant
            i <= ph@.len(),
            *ph == *old(ph),
            hash_index(ph@, id, 0) == hash_index(ph@, id, i as int),
        decreases ph.len() - i,
    {
        if ph[i].0 == id {
            ph.set(i, (id, t, h));
            return;
        }
        i += 1;
    }
    ph.push((id, t, h));
}

/// Record and broadcast the local state hash for `tick`, then check for
/// a desync. The hash packet (header + 8 little-endian bytes) goes to
/// every peer.
pub fn send_state_hash(net: &mut Net, tick: u32, hash: u64) -> (r: (Vec<Outgoing>, Option<Desync>))
    ensures
        old(net).session is None ==> r.0@.len() == 0 && r.1 is None && final(net).session is None,
        old(net).session matches Some(s0) ==> (final(net).session matches Some(s1) && {
            let mid = Session {
                last_local_hash: hash,
                peer_hashes: s1.peer_hashes,
                desync_logged: s0.desync_logged,
                ..s0
            };
            &&& s1.peer_hashes@ == set_hash(s0.peer_hashes@, s0.local_peer_id, tick, hash)
            &&& outs_view(r.0@) == to_each_peer(
                s0.peers@,
                header_bytes(MSG_HASH, s0.session_id, s0.local_peer_id, tick) + le_bytes(hash as nat, 8),
            )
            &&& s1.last_local_hash == hash
            &&& s1.peers == s0.peers
            &&& s1.local_inputs == s0.local_inputs
            &&& s1.local_peer_id == s0.local_peer_id
            &&& s1.expected_peers == s0.expected_peers
            &&& s1.session_id == s0.session_id
            &&& s1.sent_tick == s0.sent_tick
            &&& s1.last_consumed_tick == s0.last_consumed_tick
            &&& s1.redundant_history == s0.redundant_history
            &&& (s0.desync_logged ==> r.1 is None && s1.desync_logged)
            &&& (!s0.desync_logged ==> match r.1 {
                Some(d) => diverged(s1.peer_hashes@, s0.expected_peers, d.tick) && d.hashes@ == hashes_for(s1.peer_hashes@, d.tick) && s1.desync_logged,
                None => (forall|t: u32| !diverged(s1.peer_hashes@, s0.expected_peers, t)) && !s1.desync_logged,
            })
        }),
{
    if net.session.is_none() {
        return (Vec::new(), None);
    }
    let mut sess = net.session.take().unwrap();
    sess.last_local_hash = hash;
    record_hash(&mut sess.peer_hashes, sess.local_peer_id, tick, hash);
    let mut pkt = build_header(MSG_HASH, sess.session_id, sess.local_peer_id, tick);
    push_le(&mut pkt, hash, 8);
    let outs = send_to_all(&sess.peers, &pkt);
    let d = check_desync(&mut sess);
    net.session = Some(sess);
    (outs, d)
}

// ---------------------------------------------------------------------------
// Incoming packets
// ---------------------------------------------------------------------------

/// What handling one datagram produced: whether it counted as
/// processed, the replies to send, and a desync report if one fired.
pub struct PacketResult {
    pub processed: bool,
    pub replies: Vec<Outgoing>,
    pub desync: Option<Desync>,
}

/// First peer whose address is `a`.
pub open spec fn addr_index(peers: Seq<Peer>, a: Seq<char>, i: int) -> Option<int>
    decreases peers.len() - i,
{
    if i < 0 || i >= peers.len() {
        None
    } else if peers[i].addr@ == a {
        Some(i)
    } else {
        addr_index(peers, a, i + 1)
    }
}

/// `peers` without those at address `a`.
pub open spec fn without_addr(peers: Seq<Peer>, a: Seq<char>) -> Seq<Peer>
    decreases peers.len(),
{
    if peers.len() == 0 {
        Seq::empty()
    } else if peers.last().addr@ == a {
        without_addr(peers.drop_last(), a)
    } else {
        without_addr(peers.drop_last(), a).push(peers.last())
    }
}

fn find_addr(peers: &Vec<Peer>, a: &Vec<char>) -> (r: Option<usize>)
    ensures
        r matches Some(i) ==> addr_index(peers@, a@, 0) == Some(i as int) && i < peers@.len(),
        r is None ==> addr_index(peers@, a@, 0) is None,
{
    let mut i: usize = 0;
    while i < peers.len()
        invariant
            i <= peers@.len(),
            addr_index(peers@, a@, 0) == addr_index(peers@, a@, i as int),
        decreases peers.len() - i,
    {
        let pa = chars_of(peers[i].addr.as_str());
        if chars_eq(&pa, a) {
            return Some(i);
        }
        i += 1;
    }
    None
}

fn remove_addr(peers: &mut Vec<Peer>, a: &Vec<char>)
    ensures
        final(peers)@ == without_addr(old(peers)@, a@),
{
    let mut src: Vec<Peer> = Vec::new();
    std::mem::swap(&mut src, peers);
    let ghost s0 = src@;
    let n = src.len();
    let mut k: usize = 0;
    while k < n
        invariant
            n == s0.len(),
            k <= n,
            src@ == s0.subrange(k as int, n as int),
            peers@ == without_addr(s0.subrange(0, k as int), a@),
        decreases n - k,
    {
        let e = src.remove(0);
        assert(src@ =~= s0.subrange(k + 1, n as int));
        assert(s0.subrange(0, k + 1).drop_last() =~= s0.subrange(0, k as int));
        let ea = chars_of(e.addr.as_str());
        if !chars_eq(&ea, a) {
            peers.push(e);
        }
        k += 1;
    }
    assert(s0.subrange(0, n as int) =~= s0);
}

/// The bytes after the header.
pub open spec fn payload(buf: Seq<u8>) -> Seq<u8> {
    buf.subrange(16, buf.len() as int)
}

/// The effect of one datagram from `src` on session `s0`, given the
/// resulting session `s1`, whether it was processed, the replies and
/// the desync it reports. `frame_ok` says whether the payload decodes
/// as an input frame.
pub open spec fn packet_step(
    s0: Session,
    s1: Session,
    src: Seq<char>,
    buf: Seq<u8>,
    frame_ok: bool,
    processed: bool,
    replies: Seq<(Seq<char>, Seq<u8>)>,
    desync: Option<Desync>,
) -> bool {
    packet_effect(s0, s1, src, buf, frame_ok, processed, replies) && desync_report(s0, s1, buf, desync)
}

/// Whether the datagram is a hash report of this session that gets
/// recorded.
pub open spec fn hash_recorded(s0: Session, buf: Seq<u8>) -> bool {
    match parsed_header(buf) {
        Some(h) => h.msg_type == MSG_HASH && h.session_id == s0.session_id && buf.len() >= 24,
        None => false,
    }
}

/// The desync a datagram reports: only a recorded hash report can
/// report one, the first time every peer's hash for a tick is in and
/// they disagree; after that the session stays marked and reports no
/// more.
pub open spec fn desync_report(s0: Session, s1: Session, buf: Seq<u8>, desync: Option<Desync>) -> bool {
    if hash_recorded(s0, buf) {
        if s0.desync_logged {
            desync is None && s1.desync_logged
        } else {
            match desync {
                Some(d) => diverged(s1.peer_hashes@, s0.expected_peers, d.tick) && d.hashes@ == hashes_for(
                    s1.peer_hashes@,
                    d.tick,
                ) && s1.desync_logged,
                None => (forall|t: u32| !diverged(s1.peer_hashes@, s0.expected_peers, t)) && !s1.desync_logged,
            }
        }
    } else {
        desync is None
    }
}

/// The effect of one datagram on the session, apart from the desync
/// report.
pub open spec fn packet_effect(
    s0: Session,
    s1: Session,
    src: Seq<char>,
    buf: Seq<u8>,
    frame_ok: bool,
    processed: bool,
    replies: Seq<(Seq<char>, Seq<u8>)>,
) -> bool {
    match parsed_header(buf) {
        None => !processed && s1 == s0 && replies.len() == 0,
        Some(h) => if h.msg_type != MSG_HELLO && h.session_id != s0.session_id {
            !processed && s1 == s0 && replies.len() == 0
        } else if h.msg_type == MSG_HELLO && s0.local_peer_id == 0 {
            if s0.peers@.len() + 1 >= s0.expected_peers {
                !processed && s1 == s0 && replies.len() == 0
            } else {
                let assigned = (s0.peers@.len() + 1) as u8;
                &&& processed
                &&& s1 == Session { peers: s1.peers, ..s0 }
                &&& s1.peers@.len() == s0.peers@.len() + 1
                &&& s1.peers@.drop_last() == s0.peers@
                &&& s1.peers@.last().id == assigned
                &&& s1.peers@.last().addr@ == src
                &&& s1.peers@.last().inputs@.len() == 0
                &&& s1.peers@.last().last_seen_tick == 0
                &&& replies == seq![(src, header_bytes(MSG_HELLO, s0.session_id, assigned, 0) + seq![s0.expected_peers, 0u8, 0u8, 0u8])]
            }
        } else if h.msg_type == MSG_INPUT {
            match addr_index(s0.peers@, src, 0) {
                Some(i) => if frame_ok {
                    let p0 = s0.peers@[i];
                    let p1 = s1.peers@[i];
                    &&& processed
                    &&& replies.len() == 0
                    &&& s1 == Session { peers: s1.peers, ..s0 }
                    &&& s1.peers@.len() == s0.peers@.len()
                    &&& forall|j: int| 0 <= j < s0.peers@.len() && j != i ==> #[trigger] s1.peers@[j] == s0.peers@[j]
                    &&& p1.id == p0.id
                    &&& p1.addr == p0.addr
                    &&& p1.last_seen_tick == (if p0.last_seen_tick > h.tick { p0.last_seen_tick } else { h.tick })
                    &&& p1.inputs@.len() == (if has_tick(p0.inputs@, h.tick) { p0.inputs@.len() } else { p0.inputs@.len() + 1 })
                    &&& p1.inputs@.subrange(0, p0.inputs@.len() as int) == p0.inputs@
                    &&& (!has_tick(p0.inputs@, h.tick) ==> p1.inputs@.last().0 == h.tick && p1.inputs@.last().1@ == payload(buf))
                } else {
                    !processed && s1 == s0 && replies.len() == 0
                },
                None => if s0.local_peer_id != 0 && h.peer_id == 0 {
                    &&& !processed
                    &&& replies.len() == 0
                    &&& s1 == Session { peers: s1.peers, ..s0 }
                    &&& s1.peers@.len() == s0.peers@.len() + 1
                    &&& s1.peers@.drop_last() == s0.peers@
                    &&& s1.peers@.last().id == 0
                    &&& s1.peers@.last().addr@ == src
                    &&& s1.peers@.last().inputs@.len() == 0
                    &&& s1.peers@.last().last_seen_tick == 0
                } else {
                    !processed && s1 == s0 && replies.len() == 0
                },
            }
        } else if h.msg_type == MSG_HASH {
            if buf.len() >= 24 {
                &&& processed
                &&& replies.len() == 0
                &&& s1.peer_hashes@ == set_hash(s0.peer_hashes@, h.peer_id, h.tick, le_value(buf.subrange(16, 24)) as u64)
                &&& s1 == Session { peer_hashes: s1.peer_hashes, desync_logged: s1.desync_logged, ..s0 }
            } else {
                !processed && s1 == s0 && replies.len() == 0
            }
        } else if h.msg_type == MSG_BYE {
            &&& processed
            &&& replies.len() == 0
            &&& s1 == Session { peers: s1.peers, ..s0 }
            &&& s1.peers@ == without_addr(s0.peers@, src)
        } else {
            !processed && s1 == s0 && replies.len() == 0
        },
    }
}

fn store_input(peer: &mut Peer, tick: u32, frame: Vec<u8>)
    ensures
        final(peer).id == old(peer).id,
        final(peer).addr == old(peer).addr,
        final(peer).last_seen_tick == (if old(peer).last_seen_tick > tick { old(peer).last_seen_tick } else { tick }),
        final(peer).inputs@.len() == (if has_tick(old(peer).inputs@, tick) { old(peer).inputs@.len() } else { old(peer).inputs@.len() + 1 }),
        final(peer).inputs@.subrange(0, old(peer).inputs@.len() as int) == old(peer).inputs@,
        !has_tick(old(peer).inputs@, tick) ==> final(peer).inputs@.last().0 == tick && final(peer).inputs@.last().1@ == frame@,
{
    store_if_absent(&mut peer.inputs, tick, frame);
    assert(peer.inputs@.subrange(0, old(peer).inputs@.len() as int) =~= old(peer).inputs@);
    if tick > peer.last_seen_tick {
        peer.last_seen_tick = tick;
    }
}

/// Handle one datagram from `src`. `frame_ok` says whether the payload
/// (after the header) is UTF-8 text that decodes as an input frame.
/// Without a session nothing happens.
pub fn handle_packet(net: &mut Net, src: &str, buf: &[u8], frame_ok: bool) -> (r: PacketResult)
    ensures
        old(net).session is None ==> !r.processed && r.replies@.len() == 0 && r.desync is None
            && final(net).session is None,
        old(net).session matches Some(s0) ==> (final(net).session matches Some(s1) && packet_step(
            s0,
            s1,
            src@,
            buf@,
            frame_ok,
            r.processed,
            outs_view(r.replies@),
            r.desync,
        )),
{
    let none = PacketResult { processed: false, replies: Vec::new(), desync: None };
    if net.session.is_none() {
        return none;
    }
    let h = match parse_header(buf) {
        Some(h) => h,
        None => return none,
    };
    let mut sess = net.session.take().unwrap();
    let ghost s0 = sess;
    if h.msg_type != MSG_HELLO && h.session_id != sess.session_id {
        net.session = Some(sess);
        return none;
    }
    if h.msg_type == MSG_HELLO && sess.local_peer_id == 0 {
        if sess.peers.len() >= 255 || sess.peers.len() + 1 >= sess.expected_peers as usize {
            net.session = Some(sess);
            return none;
        }
        let assigned = (sess.peers.len() + 1) as u8;
        sess.peers.push(Peer { id: assigned, addr: owned(src), inputs: Vec::new(), last_seen_tick: 0 });
        let mut ack = build_header(MSG_HELLO, sess.session_id, assigned, 0);
        ack.push(sess.expected_peers);
        ack.push(0);
        ack.push(0);
        ack.push(0);
        assert(ack@ =~= header_bytes(MSG_HELLO, s0.session_id, assigned, 0) + seq![s0.expected_peers, 0u8, 0u8, 0u8]);
        let mut replies: Vec<Outgoing> = Vec::new();
        replies.push(Outgoing { addr: owned(src), bytes: ack });
        assert(sess.peers@.drop_last() =~= s0.peers@);
        assert(outs_view(replies@) =~= seq![(src@, header_bytes(MSG_HELLO, s0.session_id, assigned, 0) + seq![s0.expected_peers, 0u8, 0u8, 0u8])]);
        net.session = Some(sess);
        return PacketResult { processed: true, replies, desync: None };
    }
    if h.msg_type == MSG_INPUT {
        let a = chars_of(src);
        match find_addr(&sess.peers, &a) {
            Some(i) => {
                if !frame_ok {
                    net.session = Some(sess);
                    return none;
                }
                let mut frame: Vec<u8> = Vec::new();
                let mut k: usize = HEADER_LEN;
                while k < buf.len()
                    invariant
                        HEADER_LEN <= k <= buf@.len(),
                        frame@ == buf@.subrange(16, k as int),
                    decreases buf.len() - k,
                {
                    frame.push(buf[k]);
                    assert(frame@ =~= buf@.subrange(16, k + 1));
                    k += 1;
                }
                let mut peer = sess.peers.remove(i);
                store_input(&mut peer, h.tick, frame);
                sess.peers.insert(i, peer);
                assert forall|j: int| 0 <= j < s0.peers@.len() && j != i implies #[trigger] sess.peers@[j] == s0.peers@[j] by {
                    if j < i {
                    } else {
                    }
                }
                net.session = Some(sess);
                return PacketResult { processed: true, replies: Vec::new(), desync: None };
            },
            None => {
                if sess.local_peer_id != 0 && h.peer_id == 0 {
                    sess.peers.push(Peer { id: 0, addr: owned(src), inputs: Vec::new(), last_seen_tick: 0 });
                    assert(sess.peers@.drop_last() =~= s0.peers@);
                }
                net.session = Some(sess);
                return none;
            },
        }
    }
    if h.msg_type == MSG_HASH {
        if buf.len() >= 24 {
            let hash = read_le(buf, 16, 8);
            record_hash(&mut sess.peer_hashes, h.peer_id, h.tick, hash);
            let d = check_desync(&mut sess);
            net.session = Some(sess);
            return PacketResult { processed: true, replies: Vec::new(), desync: d };
        }
        net.session = Some(sess);
        return none;
    }
    if h.msg_type == MSG_BYE {
        let a = chars_of(src);
        remove_addr(&mut sess.peers, &a);
        net.session = Some(sess);
        return PacketResult { processed: true, replies: Vec::new(), desync: None };
    }
    net.session = Some(sess);
    none
}

proof fn lemma_header_then(msg_type: u8, session_id: u32, peer_id: u8, tick: u32, rest: Seq<u8>)
    ensures
        parsed_header(header_bytes(msg_type, session_id, peer_id, tick) + rest) == Some(
            Header { msg_type, session_id, peer_id, tick },
        ),
        (header_bytes(msg_type, session_id, peer_id, tick) + rest).len() == 16 + rest.len(),
        payload(header_bytes(msg_type, session_id, peer_id, tick) + rest) == rest,
{
    law_header_round_trip(msg_type, session_id, peer_id, tick);
    lemma_pow256_values();
    lemma_le_round_trip(session_id as nat, 4);
    lemma_le_round_trip(tick as nat, 4);
    let h = header_bytes(msg_type, session_id, peer_id, tick);
    let b = h + rest;
    assert(h.len() == 16);
    assert(b.subrange(4, 8) =~= h.subrange(4, 8));
    assert(b.subrange(12, 16) =~= h.subrange(12, 16));
    assert(payload(b) =~= rest);
}

/// A state-hash report one peer sends is what a peer of the same
/// session records: the hash, under the sender's id and the tick.
pub proof fn law_hash_report_recorded(
    s0: Session,
    s1: Session,
    src: Seq<char>,
    frame_ok: bool,
    processed: bool,
    replies: Seq<(Seq<char>, Seq<u8>)>,
    desync: Option<Desync>,
    peer_id: u8,
    tick: u32,
    hash: u64,
)
    requires
        packet_step(
            s0,
            s1,
            src,
            header_bytes(MSG_HASH, s0.session_id, peer_id, tick) + le_bytes(hash as nat, 8),
            frame_ok,
            processed,
            replies,
            desync,
        ),
    ensures
        processed,
        replies.len() == 0,
        s1.peer_hashes@ == set_hash(s0.peer_hashes@, peer_id, tick, hash),
{
    lemma_pow256_values();
    assert(pow256(8) == 18446744073709551616nat);
    lemma_le_round_trip(hash as nat, 8);
    let tail = le_bytes(hash as nat, 8);
    lemma_header_then(MSG_HASH, s0.session_id, peer_id, tick, tail);
    let buf = header_bytes(MSG_HASH, s0.session_id, peer_id, tick) + tail;
    assert(buf.subrange(16, 24) =~= payload(buf));
}

/// An input frame one peer sends is what a peer of the same session
/// stores for the sending address at that tick, unless a frame for the
/// tick from that address is already stored.
pub proof fn law_input_frame_stored(
    s0: Session,
    s1: Session,
    src: Seq<char>,
    processed: bool,
    replies: Seq<(Seq<char>, Seq<u8>)>,
    desync: Option<Desync>,
    peer_id: u8,
    tick: u32,
    frame: Seq<u8>,
    i: int,
)
    requires
        addr_index(s0.peers@, src, 0) == Some(i),
        packet_step(
            s0,
            s1,
            src,
            header_bytes(MSG_INPUT, s0.session_id, peer_id, tick) + frame,
            true,
            processed,
            replies,
            desync,
        ),
    ensures
        processed,
        has_tick(s1.peers@[i].inputs@, tick),
        frame_at(s1.peers@[i].inputs@, tick) == (if has_tick(s0.peers@[i].inputs@, tick) {
            frame_at(s0.peers@[i].inputs@, tick)
        } else {
            frame
        }),
{
    lemma_header_then(MSG_INPUT, s0.session_id, peer_id, tick, frame);
    let v0 = s0.peers@[i].inputs@;
    let v1 = s1.peers@[i].inputs@;
    if has_tick(v0, tick) {
        assert(v1 =~= v0) by {
            assert(v1.subrange(0, v0.len() as int) == v0);
        }
    } else {
        assert(v1 =~= v0.push(v1.last())) by {
            assert(v1.subrange(0, v0.len() as int) == v0);
        }
        lemma_tick_index_push(v0, v1.last(), tick);
    }
}

pub open spec fn processed_count(rs: Seq<PacketResult>) -> nat
    decreases rs.len(),
{
    if rs.len() == 0 {
        0
    } else {
        processed_count(rs.drop_last()) + if rs.last().processed { 1nat } else { 0nat }
    }
}

/// The session passes through `states` as the datagrams are handled in order.
pub open spec fn packet_chain(
    states: Seq<Session>,
    packets: Seq<(String, Vec<u8>, bool)>,
    rs: Seq<PacketResult>,
) -> bool {
    &&& states.len() == packets.len() + 1
    &&& rs.len() == packets.len()
    &&& forall|i: int|
        0 <= i < packets.len() ==> packet_step(
            #[trigger] states[i],
            states[i + 1],
            packets[i].0@,
            packets[i].1@,
            packets[i].2,
            rs[i].processed,
            outs_view(rs[i].replies@),
            rs[i].desync,
        )
}

/// Handle the datagrams received since the last poll, in order: each
/// is (source address, bytes, whether its payload decodes as a frame).
/// Returns how many were processed, and each datagram's result.
pub fn poll(net: &mut Net, packets: Vec<(String, Vec<u8>, bool)>) -> (r: (usize, Vec<PacketResult>))
    ensures
        old(net).session is None ==> r.0 == 0 && r.1@.len() == 0 && final(net).session is None,
        old(net).session is Some ==> final(net).session is Some && r.1@.len() == packets@.len() && r.0
            == processed_count(r.1@) && exists|states: Seq<Session>|
            #![trigger states.len()]
            states.len() == packets@.len() + 1 && states[0] == old(net).session->0 && states.last()
                == final(net).session->0 && packet_chain(states, packets@, r.1@),
{
    if net.session.is_none() {
        return (0, Vec::new());
    }
    let ghost s0 = net.session->0;
    let ghost mut states: Seq<Session> = seq![s0];
    let mut results: Vec<PacketResult> = Vec::new();
    let mut count: usize = 0;
    let mut i: usize = 0;
    while i < packets.len()
        invariant
            i <= packets@.len(),
            net.session is Some,
            states.len() == i + 1,
            states[0] == s0,
            states.last() == net.session->0,
            results@.len() == i,
            count == processed_count(results@),
            count <= i,
            forall|j: int|
                0 <= j < i ==> packet_step(
                    #[trigger] states[j],
                    states[j + 1],
                    packets@[j].0@,
                    packets@[j].1@,
                    packets@[j].2,
                    results@[j].processed,
                    outs_view(results@[j].replies@),
                    results@[j].desync,
                ),
        decreases packets.len() - i,
    {
        let ghost before = net.session->0;
        let res = handle_packet(net, packets[i].0.as_str(), &packets[i].1, packets[i].2);
        proof {
            states = states.push(net.session->0);
        }
        let ghost r0 = results@;
        if res.processed {
            count += 1;
        }
        results.push(res);
        assert(results@.drop_last() =~= r0);
        assert forall|j: int|
            0 <= j < i + 1 implies packet_step(
                #[trigger] states[j],
                states[j + 1],
                packets@[j].0@,
                packets@[j].1@,
                packets@[j].2,
                results@[j].processed,
                outs_view(results@[j].replies@),
                results@[j].desync,
            ) by {
            if j < i {
                assert(results@[j] == r0[j]);
            } else {
                assert(states[j] == before);
            }
        }
        i += 1;
    }
    assert(packet_chain(states, packets@, results@));
    (count, results)
}

// ---------------------------------------------------------------------------
// Frame text
// ---------------------------------------------------------------------------

/// The comma-separated fields of `s`; the empty string has none.
pub open spec fn csv_fields(s: Seq<char>) -> Seq<Seq<char>>
    decreases s.len(),
{
    if s.len() == 0 {
        Seq::empty()
    } else {
        split_at_commas(s)
    }
}

/// `str::split(',')`: a non-empty list of pieces.
pub open spec fn split_at_commas(s: Seq<char>) -> Seq<Seq<char>>
    decreases s.len(),
{
    match crate::text::find(s, seq![',']) {
        Some(k) => if 0 <= k < s.len() {
            seq![s.subrange(0, k)] + split_at_commas(s.subrange(k + 1, s.len() as int))
        } else {
            seq![s]
        },
        None => seq![s],
    }
}

/// `split_at_commas` is the split at `','`.
pub proof fn lemma_split_at_commas(s: Seq<char>)
    ensures
        split_at_commas(s) == crate::text::split_char(s, ','),
    decreases s.len(),
{
    let c = seq![','];
    crate::text::lemma_find_from_props(s, c, 0);
    match crate::text::find(s, c) {
        Some(k) => {
            assert(s.subrange(k, k + 1) =~= c);
            assert(s[k] == s.subrange(k, k + 1)[0]);
            let a = s.subrange(0, k);
            let b = s.subrange(k + 1, s.len() as int);
            assert(!crate::text::has_char(a, ',')) by {
                if crate::text::has_char(a, ',') {
                    let i = choose|i: int| 0 <= i < a.len() && a[i] == ',';
                    assert(a[i] == s[i]);
                    assert(s.subrange(i, i + 1) =~= c);
                    assert(crate::text::occurs_at(s, c, i));
                }
            }
            crate::text::lemma_split_char_single(a, ',');
            lemma_split_at_commas(b);
            assert(a + seq![','] + b =~= s);
            crate::text::lemma_split_char_concat(a, b, ',');
        },
        None => {
            assert(!crate::text::has_char(s, ',')) by {
                if crate::text::has_char(s, ',') {
                    let i = choose|i: int| 0 <= i < s.len() && s[i] == ',';
                    assert(s.subrange(i, i + 1) =~= c);
                    assert(crate::text::occurs_at(s, c, i));
                }
            }
            crate::text::lemma_split_char_single(s, ',');
        },
    }
}

/// Names that the comma-separated form gives back: none holds a comma,
/// and the list is not a single empty name (which reads back as no
/// names).
pub open spec fn csv_safe(v: Seq<Seq<char>>) -> bool {
    &&& forall|i: int| 0 <= i < v.len() ==> !crate::text::has_char(#[trigger] v[i], ',')
    &&& !(v.len() == 1 && v[0].len() == 0)
}

/// Joining names with commas and reading the field again gives the
/// names back.
pub proof fn lemma_csv_join(v: Seq<Seq<char>>)
    requires
        csv_safe(v),
    ensures
        csv_fields(crate::text::join_with(v, ',')) == v,
{
    let j = crate::text::join_with(v, ',');
    if v.len() == 0 {
    } else {
        if v.len() >= 2 {
            assert(j[v[0].len() as int] == ',');
        }
        assert(j.len() > 0);
        lemma_split_at_commas(j);
        crate::text::lemma_split_join(v, ',');
    }
}

/// The names of a comma-separated frame field (`""` names nothing).
pub fn split_csv(s: &str) -> (r: Vec<String>)
    ensures
        r@.map_values(|x: String| x@) == csv_fields(s@),
{
    let v = chars_of(s);
    let mut out: Vec<String> = Vec::new();
    if v.len() == 0 {
        assert(out@.map_values(|x: String| x@) =~= csv_fields(s@));
        return out;
    }
    let n = v.len();
    let comma = vec![','];
    let mut pos: usize = 0;
    assert(v@.subrange(0, n as int) =~= v@);
    assert(out@.map_values(|x: String| x@) =~= Seq::<Seq<char>>::empty());
    assert(csv_fields(v@) == split_at_commas(v@));
    loop
        invariant
            n == v@.len(),
            n > 0,
            v@ == s@,
            csv_fields(v@) == split_at_commas(v@),
            pos <= n,
            comma@ == seq![','],
            split_at_commas(v@) == out@.map_values(|x: String| x@) + split_at_commas(v@.subrange(pos as int, n as int)),
        decreases n - pos,
    {
        let rest = crate::text::slice_vec(&v, pos, n);
        let ghost before = out@.map_values(|x: String| x@);
        assert(comma@ =~= seq![',']);
        proof { crate::text::lemma_find_from_props(rest@, seq![','], 0); }
        match crate::text::find_chars(&rest, &comma) {
            Some(k) => {
                let piece = crate::text::slice_vec(&rest, 0, k);
                out.push(crate::text::string_of(&piece));
                assert(rest@.subrange(k + 1, rest@.len() as int) =~= v@.subrange(pos + k + 1, n as int));
                assert(out@.map_values(|x: String| x@) =~= before.push(piece@));
                assert(split_at_commas(rest@) =~= seq![piece@] + split_at_commas(rest@.subrange(k + 1, rest@.len() as int)));
                pos = pos + k + 1;
            },
            None => {
                out.push(crate::text::string_of(&rest));
                assert(out@.map_values(|x: String| x@) =~= before.push(rest@));
                assert(split_at_commas(rest@) =~= seq![rest@]);
                assert(split_at_commas(v@) =~= out@.map_values(|x: String| x@));
                return out;
            },
        }
    }
}

} // verus!
