use vstd::prelude::*;

verus! {

/// `BitTorrent protocol`.
pub open spec fn protocol_name() -> Seq<u8> {
    seq![
        66u8, 105u8, 116u8, 84u8, 111u8, 114u8, 114u8, 101u8, 110u8, 116u8, 32u8, 112u8, 114u8,
        111u8, 116u8, 111u8, 99u8, 111u8, 108u8,
    ]
}

/// The opening of every handshake: the name's length, 19, then the name.
pub open spec fn handshake_prefix() -> Seq<u8> {
    seq![19u8] + protocol_name()
}

/// The 68-byte handshake: prefix, eight zero reserved bytes, infohash, our peer id.
pub open spec fn handshake_bytes(infohash: Seq<u8>, peer_id: Seq<u8>) -> Seq<u8> {
    handshake_prefix() + Seq::new(8, |i: int| 0u8) + infohash + peer_id
}

/// The `interested` message: length 1, id 1.
pub open spec fn interested_bytes() -> Seq<u8> {
    seq![0u8, 0u8, 0u8, 1u8, 1u8]
}

/// Why a peer's handshake was refused.
#[derive(Debug, Clone, Copy, PartialEq, Eq, Structural)]
pub enum HandshakeError {
    /// Fewer than 68 bytes.
    Truncated,
    /// Not the BitTorrent protocol.
    ProtocolMismatch,
    /// The peer serves another torrent.
    InfoHashMismatch,
}

/// The parts of a peer's handshake.
#[derive(Debug, Clone, Copy)]
pub struct PeerHandshake {
    pub reserved: [u8; 8],
    pub info_hash: [u8; 20],
    pub peer_id: [u8; 20],
}

fn prefix_bytes() -> (r: Vec<u8>)
    ensures
        r@ == handshake_prefix(),
{
    let r = vec![
        19u8, 66u8, 105u8, 116u8, 84u8, 111u8, 114u8, 114u8, 101u8, 110u8, 116u8, 32u8, 112u8,
        114u8, 111u8, 116u8, 111u8, 99u8, 111u8, 108u8,
    ];
    assert(r@ =~= handshake_prefix());
    r
}

/// The handshake we send for `infohash` as `peer_id`.
pub fn handshake_message(infohash: &[u8; 20], peer_id: &[u8; 20]) -> (r: Vec<u8>)
    ensures
        r@ == handshake_bytes(infohash@, peer_id@),
        r@.len() == 68,
{
    let mut data = prefix_bytes();
    let mut i: usize = 0;
    while i < 8
        invariant
            i <= 8,
            data@ == handshake_prefix() + Seq::new(i as nat, |j: int| 0u8),
        decreases 8 - i,
    {
        data.push(0u8);
        i += 1;
        assert(data@ =~= handshake_prefix() + Seq::new(i as nat, |j: int| 0u8));
    }
    let ghost mid = data@;
    let mut i: usize = 0;
    while i < 20
        invariant
            i <= 20,
            data@ == mid + infohash@.subrange(0, i as int),
        decreases 20 - i,
    {
        data.push(infohash[i]);
        i += 1;
        assert(data@ =~= mid + infohash@.subrange(0, i as int));
    }
    assert(infohash@.subrange(0, 20) =~= infohash@);
    let ghost mid2 = data@;
    let mut i: usize = 0;
    while i < 20
        invariant
            i <= 20,
            data@ == mid2 + peer_id@.subrange(0, i as int),
        decreases 20 - i,
    {
        data.push(peer_id[i]);
        i += 1;
        assert(data@ =~= mid2 + peer_id@.subrange(0, i as int));
    }
    assert(peer_id@.subrange(0, 20) =~= peer_id@);
    assert(data@ =~= handshake_bytes(infohash@, peer_id@));
    data
}

/// The message that tells a peer we want its pieces.
pub fn interested_message() -> (r: Vec<u8>)
    ensures
        r@ == interested_bytes(),
{
    let r = vec![0u8, 0u8, 0u8, 1u8, 1u8];
    assert(r@ =~= interested_bytes());
    r
}

/// Checks the first 68 bytes a peer sent back against the torrent we asked for.
pub fn check_handshake_reply(reply: &[u8], infohash: &[u8; 20]) -> (r: Result<
    PeerHandshake,
    HandshakeError,
>)
    ensures
        reply@.len() < 68 ==> r == Err::<PeerHandshake, HandshakeError>(HandshakeError::Truncated),
        reply@.len() >= 68 && reply@.subrange(0, 20) != handshake_prefix() ==> r == Err::<
            PeerHandshake,
            HandshakeError,
        >(HandshakeError::ProtocolMismatch),
        reply@.len() >= 68 && reply@.subrange(0, 20) == handshake_prefix() && reply@.subrange(28, 48)
            != infohash@ ==> r == Err::<PeerHandshake, HandshakeError>(
            HandshakeError::InfoHashMismatch,
        ),
        reply@.len() >= 68 && reply@.subrange(0, 20) == handshake_prefix() && reply@.subrange(28, 48)
            == infohash@ ==> (r matches Ok(h) && h.reserved@ == reply@.subrange(20, 28)
            && h.info_hash@ == infohash@ && h.peer_id@ == reply@.subrange(48, 68)),
{
    if reply.len() < 68 {
        return Err(HandshakeError::Truncated);
    }
    let prefix = prefix_bytes();
    let mut i: usize = 0;
    while i < 20
        invariant
            reply@.len() >= 68,
            i <= 20,
            prefix@ == handshake_prefix(),
            forall|j: int| 0 <= j < i ==> reply@[j] == prefix@[j],
        decreases 20 - i,
    {
        if reply[i] != prefix[i] {
            assert(reply@.subrange(0, 20)[i as int] != handshake_prefix()[i as int]);
            return Err(HandshakeError::ProtocolMismatch);
        }
        i += 1;
    }
    assert(reply@.subrange(0, 20) =~= handshake_prefix());
    let mut i: usize = 0;
    while i < 20
        invariant
            reply@.len() >= 68,
            i <= 20,
            reply@.subrange(0, 20) == handshake_prefix(),
            forall|j: int| 0 <= j < i ==> reply@[28 + j] == infohash@[j],
        decreases 20 - i,
    {
        if reply[28 + i] != infohash[i] {
            assert(reply@.subrange(28, 48)[i as int] != infohash@[i as int]);
            return Err(HandshakeError::InfoHashMismatch);
        }
        i += 1;
    }
    assert(reply@.subrange(28, 48) =~= infohash@);
    let mut reserved: [u8; 8] = [0; 8];
    let mut i: usize = 0;
    while i < 8
        invariant
            reply@.len() >= 68,
            i <= 8,
            forall|j: int| 0 <= j < i ==> reserved@[j] == reply@[20 + j],
        decreases 8 - i,
    {
        reserved[i] = reply[20 + i];
        i += 1;
    }
    let mut peer_id: [u8; 20] = [0; 20];
    let mut i: usize = 0;
    while i < 20
        invariant
            reply@.len() >= 68,
            i <= 20,
            forall|j: int| 0 <= j < i ==> peer_id@[j] == reply@[48 + j],
        decreases 20 - i,
    {
        peer_id[i] = reply[48 + i];
        i += 1;
    }
    assert(reserved@ =~= reply@.subrange(20, 28));
    assert(peer_id@ =~= reply@.subrange(48, 68));
    Ok(PeerHandshake { reserved, info_hash: *infohash, peer_id })
}

} // verus!
