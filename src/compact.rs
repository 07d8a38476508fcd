use vstd::prelude::*;

verus! {

/// An IPv4 socket address in compact form: four address bytes and a port.
#[derive(Debug, Clone, Copy, PartialEq, Eq, Hash)]
pub struct CompactPeer {
    pub ip: [u8; 4],
    pub port: u16,
}

/// A DHT node as `nodes` lists it: its id, then its address.
#[derive(Debug, Clone, Copy, PartialEq, Eq, Hash)]
pub struct CompactNodeInfo {
    pub node_id: [u8; 20],
    pub socket_addr: CompactPeer,
}

/// A big-endian 16-bit number from two bytes.
pub open spec fn be16(hi: u8, lo: u8) -> u16 {
    (hi as int * 256 + lo as int) as u16
}

/// `p` is the six bytes of `b` at `off`.
pub open spec fn peer_at(p: CompactPeer, b: Seq<u8>, off: int) -> bool {
    &&& p.ip@ == b.subrange(off, off + 4)
    &&& p.port == be16(b[off + 4], b[off + 5])
}

/// `n` is the 26 bytes of `b` at `off`.
pub open spec fn node_at(n: CompactNodeInfo, b: Seq<u8>, off: int) -> bool {
    &&& n.node_id@ == b.subrange(off, off + 20)
    &&& peer_at(n.socket_addr, b, off + 20)
}

/// `ps` is `b` cut into 6-byte addresses; a trailing part shorter than 6 is dropped.
pub open spec fn peers_in(ps: Seq<CompactPeer>, b: Seq<u8>) -> bool {
    &&& ps.len() == b.len() / 6
    &&& forall|i: int| 0 <= i < ps.len() ==> peer_at(#[trigger] ps[i], b, 6 * i)
}

/// `ns` is `b` cut into 26-byte node records; a trailing part shorter than 26 is dropped.
pub open spec fn nodes_in(ns: Seq<CompactNodeInfo>, b: Seq<u8>) -> bool {
    &&& ns.len() == b.len() / 26
    &&& forall|i: int| 0 <= i < ns.len() ==> node_at(#[trigger] ns[i], b, 26 * i)
}

fn copy_array4(b: &[u8], off: usize) -> (r: [u8; 4])
    requires
        off + 4 <= b@.len(),
    ensures
        r@ == b@.subrange(off as int, off + 4),
{
    let r: [u8; 4] = [b[off], b[off + 1], b[off + 2], b[off + 3]];
    assert(r@ =~= b@.subrange(off as int, off + 4));
    r
}

fn copy_array20(b: &[u8], off: usize) -> (r: [u8; 20])
    requires
        off + 20 <= b@.len(),
    ensures
        r@ == b@.subrange(off as int, off + 20),
{
    let len = b.len();
    let mut r: [u8; 20] = [0; 20];
    let mut i: usize = 0;
    while i < 20
        invariant
            len == b@.len(),
            off + 20 <= b@.len(),
            0 <= i <= 20,
            forall|j: int| 0 <= j < i ==> r@[j] == b@[off + j],
        decreases 20 - i,
    {
        r[i] = b[off + i];
        i += 1;
    }
    assert(r@ =~= b@.subrange(off as int, off + 20));
    r
}

impl CompactPeer {
    /// The address in the six bytes of `b` at `off`.
    pub fn from_bytes(b: &[u8], off: usize) -> (r: CompactPeer)
        requires
            off + 6 <= b@.len(),
        ensures
            peer_at(r, b@, off as int),
    {
        let _len = b.len();
        let ip = copy_array4(b, off);
        let port: u16 = (b[off + 4] as u16) * 256 + b[off + 5] as u16;
        CompactPeer { ip, port }
    }
}

impl CompactNodeInfo {
    /// The node record in the first 26 bytes of `bytes`.
    pub fn from_bytes(bytes: &[u8]) -> (r: CompactNodeInfo)
        requires
            26 <= bytes@.len(),
        ensures
            node_at(r, bytes@, 0),
    {
        let node_id = copy_array20(bytes, 0);
        let socket_addr = CompactPeer::from_bytes(bytes, 20);
        CompactNodeInfo { node_id, socket_addr }
    }

    fn from_bytes_at(bytes: &[u8], off: usize) -> (r: CompactNodeInfo)
        requires
            off + 26 <= bytes@.len(),
        ensures
            node_at(r, bytes@, off as int),
    {
        let _len = bytes.len();
        let node_id = copy_array20(bytes, off);
        let socket_addr = CompactPeer::from_bytes(bytes, off + 20);
        CompactNodeInfo { node_id, socket_addr }
    }
}

/// Cuts `b` into 6-byte addresses, dropping a shorter tail.
pub fn peers_from_bytes(b: &[u8]) -> (r: Vec<CompactPeer>)
    ensures
        peers_in(r@, b@),
{
    let mut r: Vec<CompactPeer> = Vec::new();
    let n = b.len() / 6;
    assert(b@.len() <= usize::MAX);
    let mut i: usize = 0;
    while i < n
        invariant
            n == b@.len() / 6,
            b@.len() <= usize::MAX,
            i <= n,
            r@.len() == i,
            forall|j: int| 0 <= j < i ==> peer_at(#[trigger] r@[j], b@, 6 * j),
        decreases n - i,
    {
        assert(6 * i + 6 <= b@.len()) by (nonlinear_arith)
            requires
                i < n,
                n == b@.len() / 6,
        ;
        let p = CompactPeer::from_bytes(b, 6 * i);
        r.push(p);
        i += 1;
    }
    r
}

/// Cuts `b` into 26-byte node records, dropping a shorter tail.
pub fn nodes_from_bytes(b: &[u8]) -> (r: Vec<CompactNodeInfo>)
    ensures
        nodes_in(r@, b@),
{
    let mut r: Vec<CompactNodeInfo> = Vec::new();
    let n = b.len() / 26;
    assert(b@.len() <= usize::MAX);
    let mut i: usize = 0;
    while i < n
        invariant
            n == b@.len() / 26,
            b@.len() <= usize::MAX,
            i <= n,
            r@.len() == i,
            forall|j: int| 0 <= j < i ==> node_at(#[trigger] r@[j], b@, 26 * j),
        decreases n - i,
    {
        assert(26 * i + 26 <= b@.len()) by (nonlinear_arith)
            requires
                i < n,
                n == b@.len() / 26,
        ;
        let x = CompactNodeInfo::from_bytes_at(b, 26 * i);
        r.push(x);
        i += 1;
    }
    r
}

} // verus!
