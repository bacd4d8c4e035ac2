//! Steam P2P transport for the lockstep multiplayer surface: the
//! Steam-id ⇄ peer-id table, the outgoing queue used before a peer is
//! known, the incoming queue drained by the runner, and the lobby
//! bookkeeping.
//!
//! The transport state is a value of [`SteamNet`]. The Steam SDK itself
//! is outside this library: what would be handed to it is returned as
//! [`SteamSend`] actions, and what it delivers is passed in (`poll`,
//! the lobby calls). A `SteamNet::new()` value is the build without the
//! Steam client, where every transport call reports that Steam is not
//! available.
use vstd::prelude::*;

use crate::text::{owned, push_decimal, push_str, dec};

verus! {

/// Steam channel for lockstep inputs (reliable).
pub const CHANNEL_INPUT: u32 = 0;

/// Steam channel for state-hash heartbeats (unreliable).
pub const CHANNEL_HASH: u32 = 1;

/// Soft cap on Steam P2P peers.
pub const MAX_STEAM_PEERS: usize = 4;

/// A remote peer: its lockstep id and its SteamID64.
#[derive(Clone, Copy, Debug)]
pub struct SteamPeerEntry {
    pub internal_id: u8,
    pub steam_id_raw: u64,
}

/// One message for the Steam SDK to send.
#[derive(Clone, Debug)]
pub struct SteamSend {
    pub steam_id_raw: u64,
    pub channel: u32,
    pub payload: Vec<u8>,
}

/// A public lobby record.
#[derive(Clone, Debug, PartialEq)]
pub struct LobbyInfo {
    pub id: u64,
    pub name: String,
    pub peer_count: u32,
    pub max_peers: u32,
}

/// The Steam-side session.
pub struct SteamSession {
    /// 0 for the host, 1..=N-1 for clients (`u8::MAX` until assigned).
    pub local_internal_id: u8,
    /// Total peers including self.
    pub expected_peers: u8,
    /// Lobby id (0 if none).
    pub lobby_id: u64,
    /// Remote peers.
    pub peers: Vec<SteamPeerEntry>,
    /// Packets for peers not yet in the table: (peer id, payload, channel).
    pub pending_outgoing: Vec<(u8, Vec<u8>, u32)>,
    /// Received packets not yet drained: (peer id, payload, channel).
    pub pending_incoming: Vec<(u8, Vec<u8>, u32)>,
}

/// The Steam transport: whether it is the active one, whether the
/// Steam client is available, the local SteamID, and the session.
pub struct SteamNet {
    pub active: bool,
    pub available: bool,
    pub steam_id: u64,
    pub session: Option<SteamSession>,
}

/// The error every transport call gives when Steam is not available.
pub open spec fn unavailable_msg() -> Seq<char> {
    "Steam P2P transport: this build was not compiled with --features steam-net. Rebuild with `cargo build --features steam-net` to enable."@
}

/// A fresh session with no peers and empty queues.
pub open spec fn fresh_session(local: u8, expected: u8, lobby: u64, peers: Seq<SteamPeerEntry>, s: SteamSession) -> bool {
    &&& s.local_internal_id == local
    &&& s.expected_peers == expected
    &&& s.lobby_id == lobby
    &&& s.peers@ == peers
    &&& s.pending_outgoing@.len() == 0
    &&& s.pending_incoming@.len() == 0
}

/// Index of the first peer with `id` in `peers`, if any.
pub open spec fn peer_index(peers: Seq<SteamPeerEntry>, id: u8, i: int) -> Option<int>
    decreases peers.len() - i,
{
    if i < 0 || i >= peers.len() {
        None
    } else if peers[i].internal_id == id {
        Some(i)
    } else {
        peer_index(peers, id, i + 1)
    }
}

/// The internal id of the first peer whose SteamID is `raw`, or `u8::MAX`.
pub open spec fn id_of_steam(peers: Seq<SteamPeerEntry>, raw: u64, i: int) -> u8
    decreases peers.len() - i,
{
    if i < 0 || i >= peers.len() {
        u8::MAX
    } else if peers[i].steam_id_raw == raw {
        peers[i].internal_id
    } else {
        id_of_steam(peers, raw, i + 1)
    }
}

fn unavailable() -> (r: String)
    ensures
        r@ == unavailable_msg(),
{
    steam_unavailable_msg()
}

/// The operator-facing message for a build without the Steam client.
pub fn steam_unavailable_msg() -> (r: String)
    ensures
        r@ == unavailable_msg(),
{
    owned("Steam P2P transport: this build was not compiled with --features steam-net. Rebuild with `cargo build --features steam-net` to enable.")
}

impl SteamNet {
    /// Transport state of a build without the Steam client: inactive,
    /// unavailable, no session.
    pub fn new() -> (r: Self)
        ensures
            !r.active,
            !r.available,
            r.steam_id == 0,
            r.session is None,
    {
        SteamNet { active: false, available: false, steam_id: 0, session: None }
    }

    /// Transport state with a running Steam client whose user is `steam_id`.
    pub fn with_client(steam_id: u64) -> (r: Self)
        ensures
            !r.active,
            r.available,
            r.steam_id == steam_id,
            r.session is None,
    {
        SteamNet { active: false, available: true, steam_id, session: None }
    }
}

/// Whether the Steam session is the active transport.
pub fn is_active(st: &SteamNet) -> (r: bool)
    ensures
        r == st.active,
{
    st.active
}

/// Mark the Steam transport active or not.
pub fn set_active(st: &mut SteamNet, flag: bool)
    ensures
        final(st).active == flag,
        final(st).available == old(st).available,
        final(st).steam_id == old(st).steam_id,
        final(st).session == old(st).session,
{
    st.active = flag;
}

/// Whether the Steam client is available.
pub fn is_available(st: &SteamNet) -> (r: bool)
    ensures
        r == st.available,
{
    st.available
}

/// The local SteamID64, or 0 when Steam is not available.
pub fn local_steam_id(st: &SteamNet) -> (r: u64)
    ensures
        r == (if st.available { st.steam_id } else { 0 }),
{
    if st.available {
        st.steam_id
    } else {
        0
    }
}

/// The error `host_p2p` gives for a peer count outside `2..=4`.
pub open spec fn host_range_msg(expected_peers: u8) -> Seq<char> {
    "net.host_p2p: expected_peers must be 2..=4 (got "@ + dec(expected_peers as nat) + ")"@
}

/// Become host (internal id 0) of a session of `expected_peers` peers.
pub fn host_p2p(st: &mut SteamNet, expected_peers: u8) -> (r: Result<(), String>)
    ensures
        !old(st).available ==> (r matches Err(e) && e@ == unavailable_msg()) && *final(st) == *old(st),
        old(st).available && !(2 <= expected_peers <= 4) ==> (r matches Err(e) && e@
            == host_range_msg(expected_peers)) && *final(st) == *old(st),
        old(st).available && 2 <= expected_peers <= 4 ==> r is Ok && final(st).active
            && (final(st).session matches Some(s) && fresh_session(0, expected_peers, 0, Seq::empty(), s)),
        final(st).available == old(st).available,
        final(st).steam_id == old(st).steam_id,
{
    if !st.available {
        return Err(unavailable());
    }
    if !(2 <= expected_peers && expected_peers <= 4) {
        let mut m = String::new();
        push_str(&mut m, "net.host_p2p: expected_peers must be 2..=4 (got ");
        push_decimal(&mut m, expected_peers as u64);
        push_str(&mut m, ")");
        return Err(m);
    }
    st.session = Some(SteamSession {
        local_internal_id: 0,
        expected_peers,
        lobby_id: 0,
        peers: Vec::new(),
        pending_outgoing: Vec::new(),
        pending_incoming: Vec::new(),
    });
    st.active = true;
    Ok(())
}

/// Open a client session towards `remote_steam_id`, which becomes peer 0.
/// The local id stays `u8::MAX` until the host assigns one.
pub fn connect_p2p(st: &mut SteamNet, remote_steam_id: u64) -> (r: Result<(), String>)
    ensures
        !old(st).available ==> (r matches Err(e) && e@ == unavailable_msg()) && *final(st) == *old(st),
        old(st).available ==> r is Ok && final(st).active && (final(st).session matches Some(s)
            && fresh_session(u8::MAX, 0, 0, seq![SteamPeerEntry { internal_id: 0, steam_id_raw: remote_steam_id }], s)),
        final(st).available == old(st).available,
        final(st).steam_id == old(st).steam_id,
{
    if !st.available {
        return Err(unavailable());
    }
    let host_entry = SteamPeerEntry { internal_id: 0, steam_id_raw: remote_steam_id };
    let mut peers: Vec<SteamPeerEntry> = Vec::new();
    peers.push(host_entry);
    st.session = Some(SteamSession {
        local_internal_id: u8::MAX,
        expected_peers: 0,
        lobby_id: 0,
        peers,
        pending_outgoing: Vec::new(),
        pending_incoming: Vec::new(),
    });
    st.active = true;
    Ok(())
}

fn find_peer(peers: &Vec<SteamPeerEntry>, id: u8) -> (r: Option<usize>)
    ensures
        r matches Some(i) ==> peer_index(peers@, id, 0) == Some(i as int) && i < peers@.len(),
        r is None ==> peer_index(peers@, id, 0) is None,
{
    let mut i: usize = 0;
    while i < peers.len()
        invariant
            i <= peers@.len(),
            peer_index(peers@, id, 0) == peer_index(peers@, id, i as int),
        decreases peers.len() - i,
    {
        if peers[i].internal_id == id {
            return Some(i);
        }
        i += 1;
    }
    None
}

fn copy_bytes(b: &[u8]) -> (r: Vec<u8>)
    ensures
        r@ == b@,
{
    let mut v: Vec<u8> = Vec::new();
    let mut i: usize = 0;
    while i < b.len()
        invariant
            i <= b@.len(),
            v@ == b@.subrange(0, i as int),
        decreases b.len() - i,
    {
        v.push(b[i]);
        assert(v@ =~= b@.subrange(0, i + 1));
        i += 1;
    }
    assert(b@.subrange(0, b@.len() as int) =~= b@);
    v
}

pub open spec fn no_session_msg() -> Seq<char> {
    "net (steam): no active session"@
}

/// Send `payload` to the peer with `internal_peer_id` on `channel`.
/// A known peer yields the message for the SDK; an unknown one has the
/// packet queued until the peer is installed.
pub fn send_to_internal(st: &mut SteamNet, internal_peer_id: u8, payload: &[u8], channel: u32) -> (r: Result<Option<SteamSend>, String>)
    ensures
        final(st).active == old(st).active,
        final(st).available == old(st).available,
        final(st).steam_id == old(st).steam_id,
        !old(st).available ==> (r matches Err(e) && e@ == unavailable_msg()) && *final(st) == *old(st),
        old(st).available && old(st).session is None ==> (r matches Err(e) && e@ == no_session_msg())
            && *final(st) == *old(st),
        old(st).available && old(st).session is Some ==> ({
            let s0 = old(st).session->0;
            let s1 = final(st).session->0;
            &&& final(st).session is Some
            &&& s1.local_internal_id == s0.local_internal_id
            &&& s1.expected_peers == s0.expected_peers
            &&& s1.lobby_id == s0.lobby_id
            &&& s1.peers@ == s0.peers@
            &&& s1.pending_incoming@ == s0.pending_incoming@
            &&& match peer_index(s0.peers@, internal_peer_id, 0) {
                Some(i) => (r matches Ok(Some(m)) && m.steam_id_raw == s0.peers@[i].steam_id_raw
                    && m.channel == channel && m.payload@ == payload@) && s1.pending_outgoing@
                    == s0.pending_outgoing@,
                None => r == Ok::<Option<SteamSend>, String>(None) && s1.pending_outgoing@.len()
                    == s0.pending_outgoing@.len() + 1 && s1.pending_outgoing@.drop_last()
                    == s0.pending_outgoing@ && s1.pending_outgoing@.last().0 == internal_peer_id
                    && s1.pending_outgoing@.last().1@ == payload@ && s1.pending_outgoing@.last().2
                    == channel,
            }
        }),
{
    if !st.available {
        return Err(unavailable());
    }
    match &mut st.session {
        None => Err(owned("net (steam): no active session")),
        Some(sess) => {
            match find_peer(&sess.peers, internal_peer_id) {
                Some(i) => {
                    proof { lemma_peer_index_props(sess.peers@, internal_peer_id, 0); }
                    let raw = sess.peers[i].steam_id_raw;
                    Ok(Some(SteamSend { steam_id_raw: raw, channel, payload: copy_bytes(payload) }))
                },
                None => {
                    sess.pending_outgoing.push((internal_peer_id, copy_bytes(payload), channel));
                    Ok(None)
                },
            }
        },
    }
}

pub proof fn lemma_peer_index_props(peers: Seq<SteamPeerEntry>, id: u8, i: int)
    requires
        0 <= i,
    ensures
        peer_index(peers, id, i) matches Some(k) ==> i <= k < peers.len() && peers[k].internal_id == id,
    decreases peers.len() - i,
{
    if i < peers.len() && peers[i].internal_id != id {
        lemma_peer_index_props(peers, id, i + 1);
    }
}

/// Hand the messages the SDK delivered — (SteamID64, channel, payload) —
/// to the session: each is queued with the sender's internal id
/// (`u8::MAX` for an unknown sender). Returns how many were queued.
/// Without Steam, or without a session, nothing is queued.
#[verifier::loop_isolation(false)]
pub fn poll(st: &mut SteamNet, received: Vec<(u64, u32, Vec<u8>)>) -> (r: usize)
    ensures
        final(st).active == old(st).active,
        final(st).available == old(st).available,
        final(st).steam_id == old(st).steam_id,
        !old(st).available || old(st).session is None ==> r == 0 && *final(st) == *old(st),
        old(st).available && old(st).session is Some ==> ({
            let s0 = old(st).session->0;
            let s1 = final(st).session->0;
            &&& final(st).session is Some
            &&& r == received@.len()
            &&& s1.local_internal_id == s0.local_internal_id
            &&& s1.expected_peers == s0.expected_peers
            &&& s1.lobby_id == s0.lobby_id
            &&& s1.peers@ == s0.peers@
            &&& s1.pending_outgoing@ == s0.pending_outgoing@
            &&& s1.pending_incoming@.len() == s0.pending_incoming@.len() + received@.len()
            &&& s1.pending_incoming@.subrange(0, s0.pending_incoming@.len() as int) == s0.pending_incoming@
            &&& forall|k: int| 0 <= k < received@.len() ==> {
                let m = #[trigger] s1.pending_incoming@[s0.pending_incoming@.len() + k];
                &&& m.0 == id_of_steam(s0.peers@, received@[k].0, 0)
                &&& m.1 == received@[k].2
                &&& m.2 == received@[k].1
            }
        }),
{
    if !st.available {
        return 0;
    }
    if st.session.is_none() {
        return 0;
    }
    let mut sess = st.session.take().unwrap();
    let ghost p0 = sess.pending_incoming@;
    let ghost s0 = sess;
    let n = received.len();
    let mut received = received;
    let mut k: usize = 0;
    let ghost rec = received@;
    while k < n
        invariant
            n == rec.len(),
            k <= n,
            received@ == rec.subrange(k as int, n as int),
            sess.local_internal_id == s0.local_internal_id,
            sess.expected_peers == s0.expected_peers,
            sess.lobby_id == s0.lobby_id,
            sess.peers@ == s0.peers@,
            sess.pending_outgoing@ == s0.pending_outgoing@,
            sess.pending_incoming@.len() == p0.len() + k,
            sess.pending_incoming@.subrange(0, p0.len() as int) == p0,
            forall|j: int| 0 <= j < k ==> {
                let m = #[trigger] sess.pending_incoming@[p0.len() + j];
                &&& m.0 == id_of_steam(sess.peers@, rec[j].0, 0)
                &&& m.1 == rec[j].2
                &&& m.2 == rec[j].1
            },
        decreases n - k,
    {
        let (raw, ch, payload) = received.remove(0);
        assert(received@ =~= rec.subrange(k + 1, n as int));
        let pid = steam_to_internal(&sess.peers, raw);
        let ghost before = sess.pending_incoming@;
        sess.pending_incoming.push((pid, payload, ch));
        assert(sess.pending_incoming@.subrange(0, p0.len() as int) =~= before.subrange(0, p0.len() as int));
        assert(sess.pending_incoming@[p0.len() + k] == (pid, payload, ch));
        k += 1;
    }
    st.session = Some(sess);
    n
}

fn steam_to_internal(peers: &Vec<SteamPeerEntry>, raw: u64) -> (r: u8)
    ensures
        r == id_of_steam(peers@, raw, 0),
{
    let mut i: usize = 0;
    while i < peers.len()
        invariant
            i <= peers@.len(),
            id_of_steam(peers@, raw, 0) == id_of_steam(peers@, raw, i as int),
        decreases peers.len() - i,
    {
        if peers[i].steam_id_raw == raw {
            return peers[i].internal_id;
        }
        i += 1;
    }
    u8::MAX
}

/// Pop the oldest received message (peer id, payload, channel).
pub fn next_incoming(st: &mut SteamNet) -> (r: Option<(u8, Vec<u8>, u32)>)
    ensures
        final(st).active == old(st).active,
        final(st).available == old(st).available,
        final(st).steam_id == old(st).steam_id,
        old(st).session is None ==> r is None && *final(st) == *old(st),
        old(st).session is Some ==> ({
            let s0 = old(st).session->0;
            let s1 = final(st).session->0;
            &&& final(st).session is Some
            &&& s1.local_internal_id == s0.local_internal_id
            &&& s1.expected_peers == s0.expected_peers
            &&& s1.lobby_id == s0.lobby_id
            &&& s1.peers@ == s0.peers@
            &&& s1.pending_outgoing@ == s0.pending_outgoing@
            &&& if s0.pending_incoming@.len() == 0 {
                r is None && s1.pending_incoming@ == s0.pending_incoming@
            } else {
                r == Some(s0.pending_incoming@[0]) && s1.pending_incoming@
                    == s0.pending_incoming@.drop_first()
            }
        }),
{
    if st.session.is_none() {
        return None;
    }
    let mut sess = st.session.take().unwrap();
    let r = if sess.pending_incoming.len() == 0 {
        None
    } else {
        let m = sess.pending_incoming.remove(0);
        Some(m)
    };
    st.session = Some(sess);
    r
}

/// Close the session and mark the transport inactive. Idempotent.
pub fn close(st: &mut SteamNet)
    ensures
        final(st).session is None,
        !final(st).active,
        final(st).available == old(st).available,
        final(st).steam_id == old(st).steam_id,
{
    st.session = None;
    set_active(st, false);
}

/// `(local_internal_id, expected_peers)` of the open session.
pub fn session_state(st: &SteamNet) -> (r: Option<(u8, u8)>)
    ensures
        r == (match st.session {
            Some(s) => Some((s.local_internal_id, s.expected_peers)),
            None => None::<(u8, u8)>,
        }),
{
    match &st.session {
        Some(s) => Some((s.local_internal_id, s.expected_peers)),
        None => None,
    }
}

/// Number of remote peers in the session table (0 without a session).
pub fn accepted_peer_count(st: &SteamNet) -> (r: usize)
    ensures
        r == (match st.session {
            Some(s) => s.peers@.len(),
            None => 0,
        }),
{
    match &st.session {
        Some(s) => s.peers.len(),
        None => 0,
    }
}

/// `peers` without the entries whose internal id is `id`.
pub open spec fn without_id(peers: Seq<SteamPeerEntry>, id: u8) -> Seq<SteamPeerEntry>
    decreases peers.len(),
{
    if peers.len() == 0 {
        Seq::empty()
    } else if peers.last().internal_id == id {
        without_id(peers.drop_last(), id)
    } else {
        without_id(peers.drop_last(), id).push(peers.last())
    }
}

pub open spec fn send_view(m: SteamSend) -> (u64, u32, Seq<u8>) {
    (m.steam_id_raw, m.channel, m.payload@)
}

pub open spec fn queued_view(m: (u8, Vec<u8>, u32)) -> (u8, Seq<u8>, u32) {
    (m.0, m.1@, m.2)
}

/// The messages a flush of `pending` sends: one per queued packet whose
/// peer is in `peers`, addressed to that peer's SteamID.
pub open spec fn flush_sends(peers: Seq<SteamPeerEntry>, pending: Seq<(u8, Vec<u8>, u32)>) -> Seq<(u64, u32, Seq<u8>)>
    decreases pending.len(),
{
    if pending.len() == 0 {
        Seq::empty()
    } else {
        let m = pending.last();
        match peer_index(peers, m.0, 0) {
            Some(i) => flush_sends(peers, pending.drop_last()).push((peers[i].steam_id_raw, m.2, m.1@)),
            None => flush_sends(peers, pending.drop_last()),
        }
    }
}

/// The packets a flush of `pending` queues again: those whose peer is
/// still unknown.
pub open spec fn flush_rest(peers: Seq<SteamPeerEntry>, pending: Seq<(u8, Vec<u8>, u32)>) -> Seq<(u8, Seq<u8>, u32)>
    decreases pending.len(),
{
    if pending.len() == 0 {
        Seq::empty()
    } else {
        let m = pending.last();
        match peer_index(peers, m.0, 0) {
            Some(i) => flush_rest(peers, pending.drop_last()),
            None => flush_rest(peers, pending.drop_last()).push(queued_view(m)),
        }
    }
}

fn remove_peer_id(peers: &mut Vec<SteamPeerEntry>, id: u8)
    ensures
        final(peers)@ == without_id(old(peers)@, id),
{
    let ghost p0 = peers@;
    let mut out: Vec<SteamPeerEntry> = Vec::new();
    let mut i: usize = 0;
    while i < peers.len()
        invariant
            peers@ == p0,
            i <= p0.len(),
            out@ == without_id(p0.subrange(0, i as int), id),
        decreases peers.len() - i,
    {
        assert(p0.subrange(0, i + 1).drop_last() =~= p0.subrange(0, i as int));
        let e = peers[i];
        if e.internal_id != id {
            out.push(e);
        }
        i += 1;
    }
    assert(p0.subrange(0, p0.len() as int) =~= p0);
    *peers = out;
}

proof fn lemma_without_id_lacks(peers: Seq<SteamPeerEntry>, id: u8)
    ensures
        forall|j: int| 0 <= j < without_id(peers, id).len() ==> (#[trigger] without_id(peers, id)[j]).internal_id != id,
    decreases peers.len(),
{
    if peers.len() > 0 {
        lemma_without_id_lacks(peers.drop_last(), id);
        let w = without_id(peers.drop_last(), id);
        if peers.last().internal_id != id {
            assert forall|j: int| 0 <= j < w.push(peers.last()).len() implies (#[trigger] w.push(peers.last())[j]).internal_id
                != id by {
                if j < w.len() {
                    assert(w.push(peers.last())[j] == w[j]);
                }
            }
        }
    }
}

proof fn lemma_peer_index_last(peers: Seq<SteamPeerEntry>, id: u8, i: int)
    requires
        0 <= i < peers.len(),
        peers.last().internal_id == id,
        forall|j: int| i <= j < peers.len() - 1 ==> (#[trigger] peers[j]).internal_id != id,
    ensures
        peer_index(peers, id, i) == Some(peers.len() - 1),
    decreases peers.len() - i,
{
    if i < peers.len() - 1 {
        lemma_peer_index_last(peers, id, i + 1);
    }
}

/// What a call does to the active flag: `set_active(b)` sets it to `b`,
/// `close` to `false`, a successful `host_p2p`, `connect_p2p`,
/// `finish_create_lobby` or `finish_join_lobby` to `true`; every other
/// call keeps it (each function's `ensures` says which it does).
pub enum FlagEffect {
    SetTo(bool),
    Keep,
}

/// The flag after calls with `effects`, in order, from `start`.
pub open spec fn active_after(start: bool, effects: Seq<FlagEffect>) -> bool
    decreases effects.len(),
{
    if effects.len() == 0 {
        start
    } else {
        match effects.last() {
            FlagEffect::SetTo(b) => b,
            FlagEffect::Keep => active_after(start, effects.drop_last()),
        }
    }
}

/// `is_active` answers with the flag the latest flag-setting call left
/// (or the starting flag when no call set it): along states where each
/// call sets or keeps the flag, the last state's flag is
/// [`active_after`] of the calls.
pub proof fn law_is_active_follows_last_setter(states: Seq<SteamNet>, effects: Seq<FlagEffect>)
    requires
        states.len() == effects.len() + 1,
        forall|i: int| 0 <= i < effects.len() ==> states[i + 1].active == match #[trigger] effects[i] {
            FlagEffect::SetTo(b) => b,
            FlagEffect::Keep => states[i].active,
        },
    ensures
        states.last().active == active_after(states[0].active, effects),
        forall|k: int| 0 <= k < effects.len() && (forall|j: int| k < j < effects.len() ==> #[trigger] effects[j] is Keep) ==> (
        #[trigger] effects[k] matches FlagEffect::SetTo(b) ==> states.last().active == b),
    decreases effects.len(),
{
    if effects.len() > 0 {
        let n = effects.len();
        let st = states.drop_last();
        let ef = effects.drop_last();
        assert forall|i: int| 0 <= i < ef.len() implies st[i + 1].active == match #[trigger] ef[i] {
            FlagEffect::SetTo(b) => b,
            FlagEffect::Keep => st[i].active,
        } by {
            assert(ef[i] == effects[i]);
            assert(st[i + 1] == states[i + 1] && st[i] == states[i]);
        }
        law_is_active_follows_last_setter(st, ef);
        assert(states[n as int] == states.last());
        assert(effects[n - 1] == effects.last());
        assert forall|k: int| 0 <= k < effects.len() && (forall|j: int| k < j < effects.len() ==> #[trigger] effects[j] is Keep) implies (
        #[trigger] effects[k] matches FlagEffect::SetTo(b) ==> states.last().active == b) by {
            if k < n - 1 {
                assert(effects[n - 1] is Keep);
                assert(ef[k] == effects[k]);
                assert forall|j: int| k < j < ef.len() implies #[trigger] ef[j] is Keep by {
                    assert(ef[j] == effects[j]);
                }
                assert(st.last() == states[n - 1]);
            }
        }
    }
}

/// At most one entry per internal id.
pub open spec fn unique_ids(peers: Seq<SteamPeerEntry>) -> bool {
    forall|i: int, j: int| 0 <= i < j < peers.len() ==> (#[trigger] peers[i]).internal_id != (#[trigger] peers[j]).internal_id
}

/// Some entry has internal id `id`.
pub open spec fn has_id(peers: Seq<SteamPeerEntry>, id: u8) -> bool {
    exists|i: int| 0 <= i < peers.len() && (#[trigger] peers[i]).internal_id == id
}

proof fn lemma_without_id(peers: Seq<SteamPeerEntry>, id: u8)
    requires
        unique_ids(peers),
    ensures
        unique_ids(without_id(peers, id)),
        without_id(peers, id).len() == peers.len() - (if has_id(peers, id) { 1int } else { 0int }),
        forall|k: int| 0 <= k < without_id(peers, id).len() ==> has_id(peers, (#[trigger] without_id(peers, id)[k]).internal_id),
    decreases peers.len(),
{
    if peers.len() > 0 {
        let p = peers.drop_last();
        let x = peers.last();
        assert(unique_ids(p)) by {
            assert forall|i: int, j: int| 0 <= i < j < p.len() implies (#[trigger] p[i]).internal_id != (#[trigger] p[j]).internal_id by {
                assert(p[i] == peers[i] && p[j] == peers[j]);
            }
        }
        lemma_without_id(p, id);
        let w = without_id(p, id);
        assert forall|k: int| 0 <= k < p.len() implies (#[trigger] p[k]).internal_id != x.internal_id by {
            assert(p[k] == peers[k]);
            assert(peers[peers.len() - 1] == x);
        }
        assert(has_id(peers, id) == (has_id(p, id) || x.internal_id == id)) by {
            if has_id(p, id) {
                let i = choose|i: int| 0 <= i < p.len() && (#[trigger] p[i]).internal_id == id;
                assert(peers[i] == p[i]);
            }
            if has_id(peers, id) {
                let i = choose|i: int| 0 <= i < peers.len() && (#[trigger] peers[i]).internal_id == id;
                if i < p.len() {
                    assert(p[i] == peers[i]);
                }
            }
            if x.internal_id == id {
                assert(peers[peers.len() - 1] == x);
            }
        }
        assert forall|k: int| 0 <= k < p.len() && has_id(p, p[k].internal_id) implies has_id(peers, #[trigger] p[k].internal_id) by {
            assert(peers[k] == p[k]);
        }
        if x.internal_id == id {
            assert(!has_id(p, id));
            assert forall|k: int| 0 <= k < w.len() implies has_id(peers, (#[trigger] w[k]).internal_id) by {
                let i = choose|i: int| 0 <= i < p.len() && (#[trigger] p[i]).internal_id == w[k].internal_id;
                assert(peers[i] == p[i]);
            }
        } else {
            let w2 = w.push(x);
            assert(!has_id(w, x.internal_id)) by {
                if has_id(w, x.internal_id) {
                    let k = choose|k: int| 0 <= k < w.len() && (#[trigger] w[k]).internal_id == x.internal_id;
                    assert(has_id(p, w[k].internal_id));
                    let i = choose|i: int| 0 <= i < p.len() && (#[trigger] p[i]).internal_id == w[k].internal_id;
                }
            }
            assert forall|i: int, j: int| 0 <= i < j < w2.len() implies (#[trigger] w2[i]).internal_id != (#[trigger] w2[j]).internal_id by {
                if j == w.len() {
                    assert(w2[i] == w[i]);
                    assert(w2[j] == x);
                } else {
                    assert(w2[i] == w[i] && w2[j] == w[j]);
                }
            }
            assert forall|k: int| 0 <= k < w2.len() implies has_id(peers, (#[trigger] w2[k]).internal_id) by {
                if k < w.len() {
                    assert(w2[k] == w[k]);
                    let i = choose|i: int| 0 <= i < p.len() && (#[trigger] p[i]).internal_id == w[k].internal_id;
                    assert(peers[i] == p[i]);
                } else {
                    assert(peers[peers.len() - 1] == x);
                }
            }
        }
    }
}

/// Installing a peer keeps one entry per internal id; afterwards the id
/// maps to the given SteamID, and the table grew by one exactly when the
/// id was new.
pub proof fn law_install_keeps_one_entry_per_id(peers0: Seq<SteamPeerEntry>, internal_id: u8, steam_id_raw: u64)
    requires
        unique_ids(peers0),
    ensures
        ({
            let peers1 = without_id(peers0, internal_id).push(SteamPeerEntry { internal_id, steam_id_raw });
            &&& unique_ids(peers1)
            &&& peer_index(peers1, internal_id, 0) == Some(peers1.len() - 1)
            &&& peers1.last().steam_id_raw == steam_id_raw
            &&& peers1.len() == if has_id(peers0, internal_id) { peers0.len() as int } else { peers0.len() + 1int }
        }),
{
    let w = without_id(peers0, internal_id);
    let e = SteamPeerEntry { internal_id, steam_id_raw };
    let peers1 = w.push(e);
    lemma_without_id(peers0, internal_id);
    lemma_without_id_lacks(peers0, internal_id);
    assert forall|i: int, j: int| 0 <= i < j < peers1.len() implies (#[trigger] peers1[i]).internal_id != (#[trigger] peers1[j]).internal_id by {
        assert(peers1[i] == w[i]);
        if j < w.len() {
            assert(peers1[j] == w[j]);
        }
    }
    assert forall|j: int| 0 <= j < peers1.len() - 1 implies (#[trigger] peers1[j]).internal_id != internal_id by {
        assert(peers1[j] == w[j]);
    }
    lemma_peer_index_last(peers1, internal_id, 0);
}

/// Packets queued for a peer before it was known are handed out once it
/// is installed, in queue order and addressed to its SteamID; nothing
/// for it stays queued.
pub proof fn law_install_delivers_queued(
    peers0: Seq<SteamPeerEntry>,
    internal_id: u8,
    steam_id_raw: u64,
    pending: Seq<(u8, Vec<u8>, u32)>,
)
    ensures
        ({
            let peers1 = without_id(peers0, internal_id).push(SteamPeerEntry { internal_id, steam_id_raw });
            &&& forall|j: int| 0 <= j < flush_rest(peers1, pending).len() ==> (#[trigger] flush_rest(peers1, pending)[j]).0
                != internal_id
            &&& (forall|j: int| 0 <= j < pending.len() ==> (#[trigger] pending[j]).0 == internal_id) ==> flush_sends(
                peers1,
                pending,
            ) == pending.map_values(|m: (u8, Vec<u8>, u32)| (steam_id_raw, m.2, m.1@)) && flush_rest(
                peers1,
                pending,
            ).len() == 0
        }),
    decreases pending.len(),
{
    let peers1 = without_id(peers0, internal_id).push(SteamPeerEntry { internal_id, steam_id_raw });
    lemma_without_id_lacks(peers0, internal_id);
    assert forall|j: int| 0 <= j < peers1.len() - 1 implies (#[trigger] peers1[j]).internal_id != internal_id by {
        assert(peers1[j] == without_id(peers0, internal_id)[j]);
    }
    lemma_peer_index_last(peers1, internal_id, 0);
    if pending.len() > 0 {
        let rest = pending.drop_last();
        law_install_delivers_queued(peers0, internal_id, steam_id_raw, rest);
        let m = pending.last();
        if m.0 != internal_id {
            assert forall|j: int| 0 <= j < flush_rest(peers1, pending).len() implies (#[trigger] flush_rest(
                peers1,
                pending,
            )[j]).0 != internal_id by {
                match peer_index(peers1, m.0, 0) {
                    Some(i) => {},
                    None => {
                        let fr = flush_rest(peers1, rest);
                        if j < fr.len() {
                            assert(flush_rest(peers1, pending)[j] == fr[j]);
                        }
                    },
                }
            }
        }
        if forall|j: int| 0 <= j < pending.len() ==> (#[trigger] pending[j]).0 == internal_id {
            assert forall|j: int| 0 <= j < rest.len() implies (#[trigger] rest[j]).0 == internal_id by {
                assert(rest[j] == pending[j]);
            }
            assert(m.0 == internal_id) by {
                assert(pending[pending.len() - 1] == m);
            }
            assert(pending.map_values(|m: (u8, Vec<u8>, u32)| (steam_id_raw, m.2, m.1@)) =~= rest.map_values(
                |m: (u8, Vec<u8>, u32)| (steam_id_raw, m.2, m.1@),
            ).push((steam_id_raw, m.2, m.1@)));
        }
    } else {
        assert(pending.map_values(|m: (u8, Vec<u8>, u32)| (steam_id_raw, m.2, m.1@)) =~= Seq::<(u64, u32, Seq<u8>)>::empty());
    }
}

/// Install (or replace) the peer with `internal_id`, then flush the
/// packets queued for unknown peers: those now addressable are returned
/// as messages to send, the rest stay queued. Without Steam the queued
/// packets are dropped. Without a session nothing changes.
#[verifier::loop_isolation(false)]
pub fn install_peer(st: &mut SteamNet, internal_id: u8, steam_id_raw: u64) -> (r: Vec<SteamSend>)
    ensures
        final(st).active == old(st).active,
        final(st).available == old(st).available,
        final(st).steam_id == old(st).steam_id,
        old(st).session is None ==> r@.len() == 0 && *final(st) == *old(st),
        old(st).session is Some ==> ({
            let s0 = old(st).session->0;
            let s1 = final(st).session->0;
            let peers1 = without_id(s0.peers@, internal_id).push(
                SteamPeerEntry { internal_id, steam_id_raw },
            );
            &&& final(st).session is Some
            &&& s1.local_internal_id == s0.local_internal_id
            &&& s1.expected_peers == s0.expected_peers
            &&& s1.lobby_id == s0.lobby_id
            &&& s1.pending_incoming@ == s0.pending_incoming@
            &&& s1.peers@ == peers1
            &&& if old(st).available {
                &&& r@.map_values(|m: SteamSend| send_view(m)) == flush_sends(peers1, s0.pending_outgoing@)
                &&& s1.pending_outgoing@.map_values(|m: (u8, Vec<u8>, u32)| queued_view(m))
                    == flush_rest(peers1, s0.pending_outgoing@)
            } else {
                r@.len() == 0 && s1.pending_outgoing@.len() == 0
            }
        }),
{
    if st.session.is_none() {
        return Vec::new();
    }
    let mut sess = st.session.take().unwrap();
    let ghost s0 = sess;
    remove_peer_id(&mut sess.peers, internal_id);
    sess.peers.push(SteamPeerEntry { internal_id, steam_id_raw });
    let ghost peers1 = sess.peers@;
    let mut pending: Vec<(u8, Vec<u8>, u32)> = Vec::new();
    std::mem::swap(&mut pending, &mut sess.pending_outgoing);
    let mut sends: Vec<SteamSend> = Vec::new();
    if st.available {
        let n = pending.len();
        let ghost p0 = pending@;
        let mut k: usize = 0;
        while k < n
            invariant
                n == p0.len(),
                k <= n,
                pending@ == p0.subrange(k as int, n as int),
                sess.peers@ == peers1,
                sess.local_internal_id == s0.local_internal_id,
                sess.expected_peers == s0.expected_peers,
                sess.lobby_id == s0.lobby_id,
                sess.pending_incoming@ == s0.pending_incoming@,
                sends@.map_values(|m: SteamSend| send_view(m)) == flush_sends(peers1, p0.subrange(0, k as int)),
                sess.pending_outgoing@.map_values(|m: (u8, Vec<u8>, u32)| queued_view(m))
                    == flush_rest(peers1, p0.subrange(0, k as int)),
            decreases n - k,
        {
            let ghost sub = p0.subrange(0, k + 1);
            assert(sub.drop_last() =~= p0.subrange(0, k as int));
            let m = pending.remove(0);
            assert(pending@ =~= p0.subrange(k + 1, n as int));
            assert(m == sub.last());
            let (pid, payload, ch) = m;
            let ghost sends0 = sends@;
            let ghost out0 = sess.pending_outgoing@;
            match find_peer(&sess.peers, pid) {
                Some(i) => {
                    let raw = sess.peers[i].steam_id_raw;
                    sends.push(SteamSend { steam_id_raw: raw, channel: ch, payload });
                    assert(sends@.map_values(|m: SteamSend| send_view(m)) =~= sends0.map_values(
                        |m: SteamSend| send_view(m),
                    ).push((raw, ch, m.1@)));
                },
                None => {
                    sess.pending_outgoing.push((pid, payload, ch));
                    assert(sess.pending_outgoing@.map_values(|m: (u8, Vec<u8>, u32)| queued_view(m))
                        =~= out0.map_values(|m: (u8, Vec<u8>, u32)| queued_view(m)).push(queued_view(m)));
                },
            }
            k += 1;
        }
        assert(p0.subrange(0, n as int) =~= p0);
    }
    st.session = Some(sess);
    sends
}

/// Record the local id and session size the host assigned.
pub fn set_local_internal_id(st: &mut SteamNet, id: u8, expected_peers: u8)
    ensures
        final(st).active == old(st).active,
        final(st).available == old(st).available,
        final(st).steam_id == old(st).steam_id,
        old(st).session is None ==> final(st).session is None,
        old(st).session is Some ==> ({
            let s0 = old(st).session->0;
            let s1 = final(st).session->0;
            &&& final(st).session is Some
            &&& s1.local_internal_id == id
            &&& s1.expected_peers == expected_peers
            &&& s1.lobby_id == s0.lobby_id
            &&& s1.peers == s0.peers
            &&& s1.pending_outgoing == s0.pending_outgoing
            &&& s1.pending_incoming == s0.pending_incoming
        }),
{
    if let Some(sess) = &mut st.session {
        sess.local_internal_id = id;
        sess.expected_peers = expected_peers;
    }
}

/// Associate a lobby id with the open session.
pub fn set_lobby_id(st: &mut SteamNet, lobby_id: u64)
    ensures
        final(st).active == old(st).active,
        final(st).available == old(st).available,
        final(st).steam_id == old(st).steam_id,
        old(st).session is None ==> final(st).session is None,
        old(st).session is Some ==> ({
            let s0 = old(st).session->0;
            let s1 = final(st).session->0;
            &&& final(st).session is Some
            &&& s1.lobby_id == lobby_id
            &&& s1.local_internal_id == s0.local_internal_id
            &&& s1.expected_peers == s0.expected_peers
            &&& s1.peers == s0.peers
            &&& s1.pending_outgoing == s0.pending_outgoing
            &&& s1.pending_incoming == s0.pending_incoming
        }),
{
    if let Some(sess) = &mut st.session {
        sess.lobby_id = lobby_id;
    }
}

/// The session's lobby id (0 without a session).
pub fn lobby_id(st: &SteamNet) -> (r: u64)
    ensures
        r == (match st.session {
            Some(s) => s.lobby_id,
            None => 0,
        }),
{
    match &st.session {
        Some(s) => s.lobby_id,
        None => 0,
    }
}

/// The error `create_lobby` gives for a peer cap outside `2..=4`.
pub open spec fn lobby_range_msg(max_peers: u32) -> Seq<char> {
    "net.create_lobby: max_peers must be 2..=4 (got "@ + dec(max_peers as nat) + ")"@
}

/// Check a lobby-creation request. `Ok` means the request may go to the
/// Steam SDK; [`finish_create_lobby`] installs the result.
pub fn create_lobby(st: &SteamNet, name: &str, max_peers: u32) -> (r: Result<(), String>)
    ensures
        !st.available ==> (r matches Err(e) && e@ == unavailable_msg()),
        st.available && !(2 <= max_peers <= 4) ==> (r matches Err(e) && e@ == lobby_range_msg(max_peers)),
        st.available && 2 <= max_peers <= 4 ==> r is Ok,
{
    if !st.available {
        return Err(unavailable());
    }
    if !(2 <= max_peers && max_peers <= 4) {
        let mut m = String::new();
        push_str(&mut m, "net.create_lobby: max_peers must be 2..=4 (got ");
        push_decimal(&mut m, max_peers as u64);
        push_str(&mut m, ")");
        return Err(m);
    }
    Ok(())
}

/// Install the host session for a lobby the SDK created: host of
/// `max_peers` peers, with the lobby's id.
pub fn finish_create_lobby(st: &mut SteamNet, max_peers: u32, lobby_raw: u64) -> (r: Result<u64, String>)
    requires
        old(st).available,
        2 <= max_peers <= 4,
    ensures
        r == Ok::<u64, String>(lobby_raw),
        final(st).active,
        final(st).session matches Some(s) && fresh_session(0, max_peers as u8, lobby_raw, Seq::empty(), s),
{
    let h = host_p2p(st, max_peers as u8);
    set_lobby_id(st, lobby_raw);
    Ok(lobby_raw)
}

/// Check a lobby search; `Ok` means the query may go to the Steam SDK.
pub fn find_lobbies(st: &SteamNet, query: &str) -> (r: Result<(), String>)
    ensures
        !st.available ==> (r matches Err(e) && e@ == unavailable_msg()),
        st.available ==> r is Ok,
{
    if !st.available {
        return Err(unavailable());
    }
    Ok(())
}

/// Check a lobby join; `Ok` means the join may go to the Steam SDK.
pub fn join_lobby(st: &SteamNet, lobby_raw: u64) -> (r: Result<(), String>)
    ensures
        !st.available ==> (r matches Err(e) && e@ == unavailable_msg()),
        st.available && lobby_raw == 0 ==> (r matches Err(e) && e@ == "net.join_lobby: lobby id must be non-zero"@),
        st.available && lobby_raw != 0 ==> r is Ok,
{
    if !st.available {
        return Err(unavailable());
    }
    if lobby_raw == 0 {
        return Err(owned("net.join_lobby: lobby id must be non-zero"));
    }
    Ok(())
}

/// Install the client session after the SDK answered a join: `false`
/// (no change) when the join was refused, otherwise a session with the
/// assigned id, the lobby's size, and the owner as peer 0.
pub fn finish_join_lobby(
    st: &mut SteamNet,
    lobby_raw: u64,
    join_ok: bool,
    expected_peers: u8,
    my_internal_id: u8,
    owner_steam_id: u64,
) -> (r: bool)
    ensures
        r == join_ok,
        final(st).available == old(st).available,
        final(st).steam_id == old(st).steam_id,
        !join_ok ==> *final(st) == *old(st),
        join_ok ==> final(st).active && (final(st).session matches Some(s) && fresh_session(
            my_internal_id,
            expected_peers,
            lobby_raw,
            seq![SteamPeerEntry { internal_id: 0, steam_id_raw: owner_steam_id }],
            s,
        )),
{
    if !join_ok {
        return false;
    }
    let mut peers: Vec<SteamPeerEntry> = Vec::new();
    peers.push(SteamPeerEntry { internal_id: 0, steam_id_raw: owner_steam_id });
    st.session = Some(SteamSession {
        local_internal_id: my_internal_id,
        expected_peers,
        lobby_id: lobby_raw,
        peers,
        pending_outgoing: Vec::new(),
        pending_incoming: Vec::new(),
    });
    set_active(st, true);
    true
}

/// Leave the lobby and close the session. Returns the lobby the SDK
/// should leave, when Steam is available and a lobby was open.
pub fn leave_lobby(st: &mut SteamNet) -> (r: Option<u64>)
    ensures
        r == (if old(st).available && (match old(st).session {
            Some(s) => s.lobby_id != 0,
            None => false,
        }) {
            Some(old(st).session->0.lobby_id)
        } else {
            None::<u64>
        }),
        final(st).session is None,
        !final(st).active,
        final(st).available == old(st).available,
        final(st).steam_id == old(st).steam_id,
{
    let id = lobby_id(st);
    let r = if st.available && id != 0 {
        Some(id)
    } else {
        None
    };
    close(st);
    r
}

} // verus!
