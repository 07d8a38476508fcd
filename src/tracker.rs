use vstd::prelude::*;

use crate::compact::{CompactPeer, peers_from_bytes, peers_in};

verus! {

/// Declares `std::io::Error` so that a tracker error can carry a socket failure; nothing is
/// assumed of what it holds.
#[verifier::external_type_specification]
#[verifier::external_body]
pub struct ExIoError(std::io::Error);

/// How a tracker exchange failed.
#[derive(Debug)]
pub enum TrackerUDPClientError {
    /// `announce` before a valid `connect`.
    NotConnected,
    /// A reply too short, or with the wrong action.
    InvalidResponse,
    /// A reply to some other request.
    TransactionIdMismatch,
    /// The socket failed.
    Other(std::io::Error),
}

/// The magic number that opens a connect request.
pub const PROTOCOL_ID: u64 = 0x0000_0417_2710_1980;

/// How long a connection id stays valid, in seconds.
pub const CONNECTION_LIFETIME_SECS: u64 = 60;

/// Four bytes, big-endian.
pub open spec fn be32(x: u32) -> Seq<u8> {
    seq![
        (x / 0x100_0000) as u8,
        ((x / 0x1_0000) % 256) as u8,
        ((x / 256) % 256) as u8,
        (x % 256) as u8,
    ]
}

/// Eight bytes, big-endian.
pub open spec fn be64(x: u64) -> Seq<u8> {
    be32((x / 0x1_0000_0000) as u32) + be32((x % 0x1_0000_0000) as u32)
}

/// The big-endian number in the four bytes of `b` at `off`.
pub open spec fn be32_at(b: Seq<u8>, off: int) -> u32 {
    (b[off] as int * 0x100_0000 + b[off + 1] as int * 0x1_0000 + b[off + 2] as int * 256 + b[off
        + 3] as int) as u32
}

fn push_be32(buf: &mut Vec<u8>, x: u32)
    ensures
        final(buf)@ == old(buf)@ + be32(x),
{
    buf.push((x / 0x100_0000) as u8);
    buf.push(((x / 0x1_0000) % 256) as u8);
    buf.push(((x / 256) % 256) as u8);
    buf.push((x % 256) as u8);
    assert(final(buf)@ =~= old(buf)@ + be32(x));
}

fn push_be64(buf: &mut Vec<u8>, x: u64)
    ensures
        final(buf)@ == old(buf)@ + be64(x),
{
    push_be32(buf, (x / 0x1_0000_0000) as u32);
    push_be32(buf, (x % 0x1_0000_0000) as u32);
    assert(final(buf)@ =~= old(buf)@ + be64(x));
}

fn push_all(buf: &mut Vec<u8>, b: &[u8])
    ensures
        final(buf)@ == old(buf)@ + b@,
{
    let mut i: usize = 0;
    let ghost start = buf@;
    while i < b.len()
        invariant
            i <= b@.len(),
            buf@ == start + b@.subrange(0, i as int),
        decreases b@.len() - i,
    {
        buf.push(b[i]);
        i += 1;
        assert(buf@ =~= start + b@.subrange(0, i as int));
    }
    assert(b@.subrange(0, i as int) =~= b@);
}

fn read_be32(b: &[u8], off: usize) -> (r: u32)
    requires
        off + 4 <= b@.len(),
    ensures
        r == be32_at(b@, off as int),
{
    let _len = b.len();
    let r: u32 = (b[off] as u32) * 0x100_0000 + (b[off + 1] as u32) * 0x1_0000 + (b[off + 2] as u32)
        * 256 + b[off + 3] as u32;
    r
}

/// The connect request: protocol id, action 0, transaction id.
pub open spec fn connect_packet(tid: i32) -> Seq<u8> {
    be64(PROTOCOL_ID) + be32(0) + be32(tid as u32)
}

/// What a peer asks a tracker for in an announce.
#[derive(Debug, Clone, Copy)]
pub struct AnnounceRequest {
    pub info_hash: [u8; 20],
    pub downloaded: i64,
    pub left: i64,
    pub uploaded: i64,
    pub num_want: i32,
    pub ip_address: [u8; 4],
    pub port: i16,
    /// 0 none, 1 completed, 2 started, 3 stopped.
    pub event: i32,
}

impl Default for AnnounceRequest {
    fn default() -> (r: Self)
        ensures
            r.info_hash@ == Seq::new(20, |i: int| 0u8),
            r.downloaded == 0 && r.left == 0 && r.uploaded == 0,
            r.num_want == -1,
            r.ip_address@ == Seq::new(4, |i: int| 0u8),
            r.port == 6969,
            r.event == 0,
    {
        let r = AnnounceRequest {
            info_hash: [0; 20],
            downloaded: 0,
            left: 0,
            uploaded: 0,
            num_want: -1,
            ip_address: [0; 4],
            port: 6969,
            event: 0,
        };
        assert(r.info_hash@ =~= Seq::new(20, |i: int| 0u8));
        assert(r.ip_address@ =~= Seq::new(4, |i: int| 0u8));
        r
    }
}

/// The 98-byte announce request.
pub open spec fn announce_packet(
    connection_id: Seq<u8>,
    tid: i32,
    req: AnnounceRequest,
    peer_id: Seq<u8>,
) -> Seq<u8> {
    connection_id + be32(1) + be32(tid as u32) + req.info_hash@ + peer_id + be64(
        req.downloaded as u64,
    ) + be64(req.left as u64) + be64(req.uploaded as u64) + be32(req.event as u32)
        + req.ip_address@ + be32(0) + be32(req.num_want as u32) + seq![
        ((req.port as u16) / 256) as u8,
        ((req.port as u16) % 256) as u8,
    ]
}

/// A tracker's answer to an announce.
#[derive(Debug)]
pub struct AnnounceResponse {
    pub action: i32,
    pub transaction_id: i32,
    pub interval: i32,
    pub leechers: i32,
    pub seeders: i32,
    pub peers: Vec<CompactPeer>,
}

/// `r` is what the bytes `b` (at least 20 of them) say.
pub open spec fn announce_response_of(r: AnnounceResponse, b: Seq<u8>) -> bool {
    &&& r.action == be32_at(b, 0) as i32
    &&& r.transaction_id == be32_at(b, 4) as i32
    &&& r.interval == be32_at(b, 8) as i32
    &&& r.leechers == be32_at(b, 12) as i32
    &&& r.seeders == be32_at(b, 16) as i32
    &&& peers_in(r.peers@, b.subrange(20, b.len() as int))
}

impl AnnounceResponse {
    /// Reads an announce reply: five 32-bit fields, then 6-byte peers to the end.
    pub fn from_bytes(data: &[u8]) -> (r: Result<Self, TrackerUDPClientError>)
        ensures
            data@.len() < 20 ==> r matches Err(TrackerUDPClientError::InvalidResponse),
            data@.len() >= 20 ==> (r matches Ok(x) && announce_response_of(x, data@)),
    {
        if data.len() < 20 {
            return Err(TrackerUDPClientError::InvalidResponse);
        }
        let action = read_be32(data, 0) as i32;
        let transaction_id = read_be32(data, 4) as i32;
        let interval = read_be32(data, 8) as i32;
        let leechers = read_be32(data, 12) as i32;
        let seeders = read_be32(data, 16) as i32;
        let (_, rest) = data.split_at(20);
        let peers = peers_from_bytes(rest);
        Ok(AnnounceResponse { action, transaction_id, interval, leechers, seeders, peers })
    }
}

/// The client side of the UDP tracker protocol: transaction counter, our id, and the
/// connection id with the time (in seconds) it was granted.
#[derive(Debug)]
pub struct TrackerUDPClient {
    pub transaction_id: i32,
    pub node_id: [u8; 20],
    pub connection_id: Option<[u8; 8]>,
    pub connected_at: u64,
}

/// The transaction id that follows `t`, wrapping past `i32::MAX`.
pub open spec fn next_tid(t: i32) -> i32 {
    if t == i32::MAX {
        i32::MIN
    } else {
        (t + 1) as i32
    }
}

/// A connection granted at `at` is still usable at `now`.
pub open spec fn connection_fresh(at: u64, now: u64) -> bool {
    at <= now && now - at < CONNECTION_LIFETIME_SECS
}

/// Relies on `rand::random`: twenty random bytes, of which nothing is promised.
#[verifier::external_body]
fn random_node_id() -> (r: [u8; 20]) {
    rand::random::<[u8; 20]>()
}

impl TrackerUDPClient {
    /// A disconnected client with a random peer id.
    pub fn new() -> (r: Self)
        ensures
            r.transaction_id == 0,
            r.connection_id is None,
    {
        Self::with_node_id(random_node_id())
    }

    /// A disconnected client with the given peer id.
    pub fn with_node_id(node_id: [u8; 20]) -> (r: Self)
        ensures
            r.transaction_id == 0,
            r.node_id == node_id,
            r.connection_id is None,
    {
        TrackerUDPClient { transaction_id: 0, node_id, connection_id: None, connected_at: 0 }
    }

    /// Hands out a transaction id and moves the counter on.
    pub fn get_unique_transaction_id(&mut self) -> (r: i32)
        ensures
            r == old(self).transaction_id,
            final(self).transaction_id == next_tid(r),
            final(self).node_id == old(self).node_id,
            final(self).connection_id == old(self).connection_id,
            final(self).connected_at == old(self).connected_at,
    {
        let value = self.transaction_id;
        self.transaction_id = if value == i32::MAX { i32::MIN } else { value + 1 };
        value
    }

    /// The connection id, if `connect` succeeded.
    pub fn get_connection_id(&self) -> (r: Result<[u8; 8], TrackerUDPClientError>)
        ensures
            match self.connection_id {
                Some(c) => r matches Ok(x) && x == c,
                None => r matches Err(TrackerUDPClientError::NotConnected),
            },
    {
        match self.connection_id {
            Some(c) => Ok(c),
            None => Err(TrackerUDPClientError::NotConnected),
        }
    }

    /// The connect request to send, with the transaction id it carries.
    pub fn connect_request(&mut self) -> (r: (i32, Vec<u8>))
        ensures
            r.0 == old(self).transaction_id,
            r.1@ == connect_packet(r.0),
            final(self).transaction_id == next_tid(r.0),
            final(self).node_id == old(self).node_id,
            final(self).connection_id == old(self).connection_id,
            final(self).connected_at == old(self).connected_at,
    {
        let tid = self.get_unique_transaction_id();
        let mut packet: Vec<u8> = Vec::new();
        push_be64(&mut packet, PROTOCOL_ID);
        push_be32(&mut packet, 0);
        push_be32(&mut packet, tid as u32);
        assert(packet@ =~= connect_packet(tid));
        (tid, packet)
    }

    /// Takes the tracker's reply to the connect request `tid`, received at `now` (seconds).
    /// A 16-byte reply with action 0 and the same transaction id grants a connection id.
    pub fn handle_connect_response(&mut self, tid: i32, response: &[u8], now: u64) -> (r: Result<
        (),
        TrackerUDPClientError,
    >)
        ensures
            final(self).transaction_id == old(self).transaction_id,
            final(self).node_id == old(self).node_id,
            response@.len() < 16 ==> r matches Err(TrackerUDPClientError::InvalidResponse),
            response@.len() >= 16 && be32_at(response@, 4) as i32 != tid ==> r matches Err(
                TrackerUDPClientError::TransactionIdMismatch,
            ),
            response@.len() >= 16 && be32_at(response@, 4) as i32 == tid && be32_at(response@, 0)
                != 0 ==> r matches Err(TrackerUDPClientError::InvalidResponse),
            response@.len() >= 16 && be32_at(response@, 4) as i32 == tid && be32_at(response@, 0)
                == 0 ==> (r is Ok && (final(self).connection_id matches Some(c) && c@
                == response@.subrange(8, 16)) && final(self).connected_at == now),
            r is Err ==> final(self).connection_id == old(self).connection_id
                && final(self).connected_at == old(self).connected_at,
    {
        if response.len() < 16 {
            return Err(TrackerUDPClientError::InvalidResponse);
        }
        let resp_tid = read_be32(response, 4) as i32;
        if resp_tid != tid {
            return Err(TrackerUDPClientError::TransactionIdMismatch);
        }
        if read_be32(response, 0) != 0 {
            return Err(TrackerUDPClientError::InvalidResponse);
        }
        let c: [u8; 8] = [
            response[8],
            response[9],
            response[10],
            response[11],
            response[12],
            response[13],
            response[14],
            response[15],
        ];
        assert(c@ =~= response@.subrange(8, 16));
        self.connection_id = Some(c);
        self.connected_at = now;
        Ok(())
    }

    /// The announce request to send at `now` (seconds), with the transaction id it carries.
    /// Without a connection id younger than a minute there is none: the client is then
    /// disconnected and must connect again.
    pub fn announce_request(&mut self, request: &AnnounceRequest, now: u64) -> (r: Result<
        (i32, Vec<u8>),
        TrackerUDPClientError,
    >)
        ensures
            final(self).transaction_id == next_tid(old(self).transaction_id),
            final(self).node_id == old(self).node_id,
            match old(self).connection_id {
                Some(c) => if connection_fresh(old(self).connected_at, now) {
                    r matches Ok((tid, p)) && tid == old(self).transaction_id && p@
                        == announce_packet(c@, tid, *request, old(self).node_id@)
                        && final(self).connection_id == old(self).connection_id
                        && final(self).connected_at == old(self).connected_at
                } else {
                    r matches Err(TrackerUDPClientError::NotConnected)
                        && final(self).connection_id is None
                },
                None => r matches Err(TrackerUDPClientError::NotConnected)
                    && final(self).connection_id is None,
            },
    {
        let transaction_id = self.get_unique_transaction_id();
        let connection_id = self.get_connection_id()?;
        if !(self.connected_at <= now && now - self.connected_at < CONNECTION_LIFETIME_SECS) {
            self.connection_id = None;
            return Err(TrackerUDPClientError::NotConnected);
        }
        let mut packet: Vec<u8> = Vec::new();
        // connection_id
        push_all(&mut packet, &connection_id);
        // action
        push_be32(&mut packet, 1);
        // transaction_id
        push_be32(&mut packet, transaction_id as u32);
        // info_hash
        push_all(&mut packet, &request.info_hash);
        // peer_id
        push_all(&mut packet, &self.node_id);
        push_be64(&mut packet, request.downloaded as u64);
        push_be64(&mut packet, request.left as u64);
        push_be64(&mut packet, request.uploaded as u64);
        push_be32(&mut packet, request.event as u32);
        push_all(&mut packet, &request.ip_address);
        // key
        push_be32(&mut packet, 0);
        push_be32(&mut packet, request.num_want as u32);
        let port = request.port as u16;
        packet.push((port / 256) as u8);
        packet.push((port % 256) as u8);
        assert(packet@ =~= announce_packet(connection_id@, transaction_id, *request, self.node_id@));
        Ok((transaction_id, packet))
    }

    /// Takes the tracker's reply to the announce request `tid`. A failed exchange drops the
    /// connection id.
    pub fn handle_announce_response(&mut self, tid: i32, response: &[u8]) -> (r: Result<
        AnnounceResponse,
        TrackerUDPClientError,
    >)
        ensures
            final(self).transaction_id == old(self).transaction_id,
            final(self).node_id == old(self).node_id,
            response@.len() < 20 ==> r matches Err(TrackerUDPClientError::InvalidResponse),
            response@.len() >= 20 && be32_at(response@, 0) as i32 != 1 ==> r matches Err(
                TrackerUDPClientError::InvalidResponse,
            ),
            response@.len() >= 20 && be32_at(response@, 0) as i32 == 1 && be32_at(response@, 4) as i32
                != tid ==> r matches Err(TrackerUDPClientError::TransactionIdMismatch),
            response@.len() >= 20 && be32_at(response@, 0) as i32 == 1 && be32_at(response@, 4) as i32
                == tid ==> (r matches Ok(x) && announce_response_of(x, response@))
                && final(self).connection_id == old(self).connection_id,
            r is Err ==> final(self).connection_id is None,
    {
        let announce_response = match AnnounceResponse::from_bytes(response) {
            Ok(x) => x,
            Err(e) => {
                self.connection_id = None;
                return Err(e);
            },
        };
        if announce_response.action != 1 {
            self.connection_id = None;
            return Err(TrackerUDPClientError::InvalidResponse);
        }
        if announce_response.transaction_id != tid {
            self.connection_id = None;
            return Err(TrackerUDPClientError::TransactionIdMismatch);
        }
        Ok(announce_response)
    }
}

} // verus!
