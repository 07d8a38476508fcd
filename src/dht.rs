use vstd::prelude::*;

use crate::bencode::{
    Bencode, BencodeDict, BencodeParserError, BencodeValue, lemma_put_last, lex_lt, lookup, parse,
    parse_spec,
};
use crate::compact::{CompactNodeInfo, CompactPeer, nodes_from_bytes, nodes_in, peer_at};

verus! {

// ---------------------------------------------------------------------------
// Keys and fixed strings of the DHT messages

pub open spec fn key_a() -> Seq<u8> {
    seq![97u8]
}

pub open spec fn key_e() -> Seq<u8> {
    seq![101u8]
}

pub open spec fn key_q() -> Seq<u8> {
    seq![113u8]
}

pub open spec fn key_r() -> Seq<u8> {
    seq![114u8]
}

pub open spec fn key_t() -> Seq<u8> {
    seq![116u8]
}

pub open spec fn key_y() -> Seq<u8> {
    seq![121u8]
}

pub open spec fn key_id() -> Seq<u8> {
    seq![105u8, 100u8]
}

pub open spec fn key_info_hash() -> Seq<u8> {
    seq![105u8, 110u8, 102u8, 111u8, 95u8, 104u8, 97u8, 115u8, 104u8]
}

pub open spec fn key_target() -> Seq<u8> {
    seq![116u8, 97u8, 114u8, 103u8, 101u8, 116u8]
}

pub open spec fn key_nodes() -> Seq<u8> {
    seq![110u8, 111u8, 100u8, 101u8, 115u8]
}

pub open spec fn key_values() -> Seq<u8> {
    seq![118u8, 97u8, 108u8, 117u8, 101u8, 115u8]
}

pub open spec fn key_token() -> Seq<u8> {
    seq![116u8, 111u8, 107u8, 101u8, 110u8]
}

pub open spec fn method_get_peers() -> Seq<u8> {
    seq![103u8, 101u8, 116u8, 95u8, 112u8, 101u8, 101u8, 114u8, 115u8]
}

pub open spec fn method_find_node() -> Seq<u8> {
    seq![102u8, 105u8, 110u8, 100u8, 95u8, 110u8, 111u8, 100u8, 101u8]
}

fn bytes_a() -> (r: Vec<u8>)
    ensures
        r@ == key_a(),
{
    let r = vec![97u8];
    assert(r@ =~= key_a());
    r
}

fn bytes_e() -> (r: Vec<u8>)
    ensures
        r@ == key_e(),
{
    let r = vec![101u8];
    assert(r@ =~= key_e());
    r
}

fn bytes_q() -> (r: Vec<u8>)
    ensures
        r@ == key_q(),
{
    let r = vec![113u8];
    assert(r@ =~= key_q());
    r
}

fn bytes_r() -> (r: Vec<u8>)
    ensures
        r@ == key_r(),
{
    let r = vec![114u8];
    assert(r@ =~= key_r());
    r
}

fn bytes_t() -> (r: Vec<u8>)
    ensures
        r@ == key_t(),
{
    let r = vec![116u8];
    assert(r@ =~= key_t());
    r
}

fn bytes_y() -> (r: Vec<u8>)
    ensures
        r@ == key_y(),
{
    let r = vec![121u8];
    assert(r@ =~= key_y());
    r
}

fn bytes_id() -> (r: Vec<u8>)
    ensures
        r@ == key_id(),
{
    let r = vec![105u8, 100u8];
    assert(r@ =~= key_id());
    r
}

fn bytes_info_hash() -> (r: Vec<u8>)
    ensures
        r@ == key_info_hash(),
{
    let r = vec![105u8, 110u8, 102u8, 111u8, 95u8, 104u8, 97u8, 115u8, 104u8];
    assert(r@ =~= key_info_hash());
    r
}

fn bytes_target() -> (r: Vec<u8>)
    ensures
        r@ == key_target(),
{
    let r = vec![116u8, 97u8, 114u8, 103u8, 101u8, 116u8];
    assert(r@ =~= key_target());
    r
}

fn bytes_nodes() -> (r: Vec<u8>)
    ensures
        r@ == key_nodes(),
{
    let r = vec![110u8, 111u8, 100u8, 101u8, 115u8];
    assert(r@ =~= key_nodes());
    r
}

fn bytes_values() -> (r: Vec<u8>)
    ensures
        r@ == key_values(),
{
    let r = vec![118u8, 97u8, 108u8, 117u8, 101u8, 115u8];
    assert(r@ =~= key_values());
    r
}

fn bytes_token() -> (r: Vec<u8>)
    ensures
        r@ == key_token(),
{
    let r = vec![116u8, 111u8, 107u8, 101u8, 110u8];
    assert(r@ =~= key_token());
    r
}

fn bytes_get_peers() -> (r: Vec<u8>)
    ensures
        r@ == method_get_peers(),
{
    let r = vec![103u8, 101u8, 116u8, 95u8, 112u8, 101u8, 101u8, 114u8, 115u8];
    assert(r@ =~= method_get_peers());
    r
}

fn bytes_find_node() -> (r: Vec<u8>)
    ensures
        r@ == method_find_node(),
{
    let r = vec![102u8, 105u8, 110u8, 100u8, 95u8, 110u8, 111u8, 100u8, 101u8];
    assert(r@ =~= method_find_node());
    r
}

// ---------------------------------------------------------------------------
// Queries

/// A transaction id as it travels: two bytes, big-endian.
pub open spec fn tid_bytes(t: u16) -> Seq<u8> {
    seq![(t / 256) as u8, (t % 256) as u8]
}

/// A query envelope: `a` the arguments, `q` the method, `t` the transaction id, `y` = `q`.
pub open spec fn query_model(tid: u16, method: Seq<u8>, args: Seq<(Seq<u8>, Bencode)>) -> Bencode {
    Bencode::Dict(
        seq![
            (key_a(), Bencode::Dict(args)),
            (key_q(), Bencode::Bytes(method)),
            (key_t(), Bencode::Bytes(tid_bytes(tid))),
            (key_y(), Bencode::Bytes(key_q())),
        ],
    )
}

/// `get_peers`: our id and the infohash looked for.
pub open spec fn get_peers_query(tid: u16, node_id: Seq<u8>, infohash: Seq<u8>) -> Bencode {
    query_model(
        tid,
        method_get_peers(),
        seq![(key_id(), Bencode::Bytes(node_id)), (key_info_hash(), Bencode::Bytes(infohash))],
    )
}

/// `find_node`: our id and the target id.
pub open spec fn find_node_query(tid: u16, node_id: Seq<u8>, target: Seq<u8>) -> Bencode {
    query_model(
        tid,
        method_find_node(),
        seq![(key_id(), Bencode::Bytes(node_id)), (key_target(), Bencode::Bytes(target))],
    )
}

fn to_vec20(a: &[u8; 20]) -> (r: Vec<u8>)
    ensures
        r@ == a@,
{
    let mut r: Vec<u8> = Vec::new();
    let mut i: usize = 0;
    while i < 20
        invariant
            0 <= i <= 20,
            r@ == a@.subrange(0, i as int),
        decreases 20 - i,
    {
        r.push(a[i]);
        i += 1;
        assert(r@ =~= a@.subrange(0, i as int));
    }
    assert(a@.subrange(0, 20) =~= a@);
    r
}

fn to_vec(a: &[u8]) -> (r: Vec<u8>)
    ensures
        r@ == a@,
{
    let mut r: Vec<u8> = Vec::new();
    let mut i: usize = 0;
    while i < a.len()
        invariant
            0 <= i <= a@.len(),
            r@ == a@.subrange(0, i as int),
        decreases a@.len() - i,
    {
        r.push(a[i]);
        i += 1;
        assert(r@ =~= a@.subrange(0, i as int));
    }
    assert(a@.subrange(0, a@.len() as int) =~= a@);
    r
}

/// Serialises a query envelope around the arguments `args` (an `id` entry then one more).
fn build_query(tid: u16, method: Vec<u8>, args: BencodeDict) -> (r: Vec<u8>)
    ensures
        r@ == crate::bencode::encode(query_model(tid, method@, args@)),
{
    let ghost m = method@;
    let ghost a = args@;
    let mut root = BencodeDict::new();
    proof {
        reveal_with_fuel(lex_lt, 2);
    }
    proof {
        lemma_put_last(root@, key_a(), Bencode::Dict(a));
    }
    root.insert(bytes_a(), BencodeValue::Dict(args));
    proof {
        lemma_put_last(root@, key_q(), Bencode::Bytes(m));
    }
    root.insert(bytes_q(), BencodeValue::Bytes(method));
    let t: Vec<u8> = vec![(tid / 256) as u8, (tid % 256) as u8];
    assert(t@ =~= tid_bytes(tid));
    proof {
        lemma_put_last(root@, key_t(), Bencode::Bytes(tid_bytes(tid)));
    }
    root.insert(bytes_t(), BencodeValue::Bytes(t));
    proof {
        lemma_put_last(root@, key_y(), Bencode::Bytes(key_q()));
    }
    root.insert(bytes_y(), BencodeValue::Bytes(bytes_q()));
    let value = BencodeValue::Dict(root);
    assert(value@ == query_model(tid, m, a)) by {
        assert(root@ =~= seq![
            (key_a(), Bencode::Dict(a)),
            (key_q(), Bencode::Bytes(m)),
            (key_t(), Bencode::Bytes(tid_bytes(tid))),
            (key_y(), Bencode::Bytes(key_q())),
        ]);
    }
    value.serialize()
}

/// The arguments dictionary `{id: node_id, <key>: value}`, where `key` sorts after `id`.
fn id_args(node_id: &[u8; 20], key: Vec<u8>, value: Vec<u8>) -> (r: BencodeDict)
    requires
        lex_lt(key_id(), key@),
    ensures
        r@ == seq![(key_id(), Bencode::Bytes(node_id@)), (key@, Bencode::Bytes(value@))],
{
    let mut args = BencodeDict::new();
    proof {
        lemma_put_last(args@, key_id(), Bencode::Bytes(node_id@));
    }
    args.insert(bytes_id(), BencodeValue::Bytes(to_vec20(node_id)));
    proof {
        lemma_put_last(args@, key@, Bencode::Bytes(value@));
    }
    let ghost k = key@;
    let ghost v = value@;
    args.insert(key, BencodeValue::Bytes(value));
    assert(args@ =~= seq![(key_id(), Bencode::Bytes(node_id@)), (k, Bencode::Bytes(v))]);
    args
}

/// The client side of the DHT wire protocol: our node id and the transaction counter.
#[derive(Debug)]
pub struct DHTClient {
    pub node_id: [u8; 20],
    pub tx_id: u16,
}

impl DHTClient {
    /// A client for `node_id`, whose first query carries transaction id 0.
    pub fn new(node_id: [u8; 20]) -> (r: Self)
        ensures
            r.node_id == node_id,
            r.tx_id == 0,
    {
        DHTClient { node_id, tx_id: 0 }
    }

    /// Hands out a transaction id and moves the counter on, wrapping after `u16::MAX`.
    pub fn next_transaction_id(&mut self) -> (r: u16)
        ensures
            r == old(self).tx_id,
            final(self).tx_id == (if r == u16::MAX { 0 } else { (r + 1) as u16 }),
            final(self).node_id == old(self).node_id,
    {
        let r = self.tx_id;
        self.tx_id = if r == u16::MAX { 0 } else { r + 1 };
        r
    }

    /// A `get_peers` query for `infohash`, with the transaction id it carries.
    pub fn get_peers(&mut self, infohash: &[u8; 20]) -> (r: (u16, Vec<u8>))
        ensures
            r.0 == old(self).tx_id,
            r.1@ == crate::bencode::encode(get_peers_query(r.0, old(self).node_id@, infohash@)),
            final(self).tx_id == (if r.0 == u16::MAX { 0 } else { (r.0 + 1) as u16 }),
            final(self).node_id == old(self).node_id,
    {
        let tid = self.next_transaction_id();
        proof {
            reveal_with_fuel(lex_lt, 2);
        }
        let args = id_args(&self.node_id, bytes_info_hash(), to_vec20(infohash));
        (tid, build_query(tid, bytes_get_peers(), args))
    }

    /// A `find_node` query for `target`, with the transaction id it carries.
    pub fn find_node(&mut self, target: &[u8]) -> (r: (u16, Vec<u8>))
        ensures
            r.0 == old(self).tx_id,
            r.1@ == crate::bencode::encode(find_node_query(r.0, old(self).node_id@, target@)),
            final(self).tx_id == (if r.0 == u16::MAX { 0 } else { (r.0 + 1) as u16 }),
            final(self).node_id == old(self).node_id,
    {
        let tid = self.next_transaction_id();
        proof {
            reveal_with_fuel(lex_lt, 2);
        }
        let args = id_args(&self.node_id, bytes_target(), to_vec(target));
        (tid, build_query(tid, bytes_find_node(), args))
    }
}

// ---------------------------------------------------------------------------
// Replies

/// Why a datagram is not a usable reply.
#[derive(Debug, Clone, Copy, PartialEq, Eq, Structural)]
pub enum DHTDecodeError {
    /// The datagram is not bencode.
    Bencode(BencodeParserError),
    /// The message is not a dictionary.
    NotADict,
    /// No byte-string `t`.
    MissingTransactionId,
    /// `t` is not the id of the outstanding query: the reply is someone else's.
    TransactionMismatch,
    /// No non-empty byte-string `y`.
    MissingMessageKind,
    /// `y` is neither `r` nor `e`.
    ProtocolError,
    /// No dictionary `r` in a reply.
    MissingResponseDict,
    /// No 20-byte `id` in the reply.
    BadNodeId,
    /// `nodes` missing where required, not a byte string, or not a whole number of records.
    BadNodes,
    /// `values` is not a list of 6-byte strings.
    BadValues,
    /// `e` is not a list starting with an integer code and a byte-string message.
    MalformedError,
}

/// The two shapes a reply takes.
#[derive(Debug, Clone, Copy, PartialEq, Eq, Structural)]
pub enum DHTResponseType {
    Response,
    Error,
}

/// The error codes of the DHT protocol.
#[derive(Debug, Clone, Copy, PartialEq, Eq, Structural)]
pub enum DHTErrorCode {
    GenericError,
    ServerError,
    ProtocolError,
    MethodUnknown,
    UnknownCode(i64),
}

pub open spec fn error_code_of(n: i64) -> DHTErrorCode {
    if n == 201 {
        DHTErrorCode::GenericError
    } else if n == 202 {
        DHTErrorCode::ServerError
    } else if n == 203 {
        DHTErrorCode::ProtocolError
    } else if n == 204 {
        DHTErrorCode::MethodUnknown
    } else {
        DHTErrorCode::UnknownCode(n)
    }
}

impl DHTErrorCode {
    /// The code for the number a responder sent.
    pub fn from_code(value: i64) -> (r: Self)
        ensures
            r == error_code_of(value),
    {
        match value {
            201 => DHTErrorCode::GenericError,
            202 => DHTErrorCode::ServerError,
            203 => DHTErrorCode::ProtocolError,
            204 => DHTErrorCode::MethodUnknown,
            _ => DHTErrorCode::UnknownCode(value),
        }
    }
}

/// What every reply carries.
#[derive(Debug)]
pub struct DHTBaseResponse {
    /// The node id of the replying node.
    pub node_id: [u8; 20],
}

/// A reply to `get_peers`.
#[derive(Debug)]
pub struct DHTGetPeersResponse {
    pub base: DHTBaseResponse,
    /// The token a later `announce_peer` would present.
    pub token: Option<Vec<u8>>,
    /// Nodes closer to the infohash.
    pub nodes: Vec<CompactNodeInfo>,
    /// Peers for the infohash.
    pub values: Vec<CompactPeer>,
}

/// A reply to `find_node`.
#[derive(Debug)]
pub struct DHTFindNodeResponse {
    pub base: DHTBaseResponse,
    pub nodes: Vec<CompactNodeInfo>,
}

/// An error envelope.
#[derive(Debug)]
pub struct DHTErrorResponse {
    pub error_code: DHTErrorCode,
    pub error_message: String,
}

/// A reply: the typed answer, or an error envelope.
#[derive(Debug)]
pub enum DHTResponse<T> {
    DHTError(DHTErrorResponse),
    DHTResponse(T),
}

impl<T> DHTResponse<T> {
    /// The typed answer of a reply known not to be an error.
    pub fn unwrap(self) -> (r: T)
        requires
            self is DHTResponse,
        ensures
            self == DHTResponse::<T>::DHTResponse(r),
    {
        match self {
            DHTResponse::DHTResponse(data) => data,
            DHTResponse::DHTError(_) => unreached(),
        }
    }
}

/// The text that `String::from_utf8_lossy` makes of some bytes.
pub uninterp spec fn lossy_text(b: Seq<u8>) -> Seq<char>;

/// Relies on `String::from_utf8_lossy`: the text depends on the bytes alone.
#[verifier::external_body]
fn utf8_lossy(b: &[u8]) -> (r: String)
    ensures
        r@ == lossy_text(b@),
{
    String::from_utf8_lossy(b).into_owned()
}

/// The first byte of `y`, if `y` is a non-empty byte string.
pub open spec fn message_kind(es: Seq<(Seq<u8>, Bencode)>) -> Option<u8> {
    match lookup(es, key_y()) {
        Some(Bencode::Bytes(y)) => if y.len() >= 1 {
            Some(y[0])
        } else {
            None
        },
        _ => None,
    }
}

/// What is wrong with the envelope of a reply to the query with id `tid`, if anything.
pub open spec fn envelope_error(v: Bencode, tid: u16) -> Option<DHTDecodeError> {
    match v {
        Bencode::Dict(es) => match lookup(es, key_t()) {
            Some(Bencode::Bytes(t)) => if t != tid_bytes(tid) {
                Some(DHTDecodeError::TransactionMismatch)
            } else {
                match message_kind(es) {
                    Some(k) => if k == 114u8 || k == 101u8 {
                        None
                    } else {
                        Some(DHTDecodeError::ProtocolError)
                    },
                    None => Some(DHTDecodeError::MissingMessageKind),
                }
            },
            _ => Some(DHTDecodeError::MissingTransactionId),
        },
        _ => Some(DHTDecodeError::NotADict),
    }
}

pub open spec fn response_dict(es: Seq<(Seq<u8>, Bencode)>) -> Option<Seq<(Seq<u8>, Bencode)>> {
    match lookup(es, key_r()) {
        Some(Bencode::Dict(r)) => Some(r),
        _ => None,
    }
}

pub open spec fn node_id_in(r: Seq<(Seq<u8>, Bencode)>) -> Option<Seq<u8>> {
    match lookup(r, key_id()) {
        Some(Bencode::Bytes(id)) => if id.len() == 20 {
            Some(id)
        } else {
            None
        },
        _ => None,
    }
}

/// `nodes` is a whole number of 26-byte records, or absent where that is allowed.
pub open spec fn nodes_ok(r: Seq<(Seq<u8>, Bencode)>, required: bool) -> bool {
    match lookup(r, key_nodes()) {
        Some(Bencode::Bytes(b)) => b.len() % 26 == 0,
        None => !required,
        _ => false,
    }
}

pub open spec fn nodes_bytes(r: Seq<(Seq<u8>, Bencode)>) -> Seq<u8> {
    match lookup(r, key_nodes()) {
        Some(Bencode::Bytes(b)) => b,
        _ => Seq::empty(),
    }
}

/// `values` is absent, or a list of 6-byte strings.
pub open spec fn values_ok(r: Seq<(Seq<u8>, Bencode)>) -> bool {
    match lookup(r, key_values()) {
        None => true,
        Some(Bencode::List(items)) => forall|i: int|
            0 <= i < items.len() ==> (#[trigger] items[i] matches Bencode::Bytes(b) && b.len()
                == 6),
        _ => false,
    }
}

pub open spec fn values_items(r: Seq<(Seq<u8>, Bencode)>) -> Seq<Bencode> {
    match lookup(r, key_values()) {
        Some(Bencode::List(items)) => items,
        _ => Seq::empty(),
    }
}

pub open spec fn token_matches(t: Option<Vec<u8>>, r: Seq<(Seq<u8>, Bencode)>) -> bool {
    match lookup(r, key_token()) {
        Some(Bencode::Bytes(tk)) => t matches Some(x) && x@ == tk,
        _ => t is None,
    }
}

pub open spec fn values_match(vs: Seq<CompactPeer>, items: Seq<Bencode>) -> bool {
    &&& vs.len() == items.len()
    &&& forall|i: int|
        0 <= i < vs.len() ==> (#[trigger] items[i] matches Bencode::Bytes(b) && peer_at(
            vs[i],
            b,
            0,
        ))
}

/// What is wrong with the body of a `get_peers` reply, if anything.
pub open spec fn get_peers_error(es: Seq<(Seq<u8>, Bencode)>) -> Option<DHTDecodeError> {
    match response_dict(es) {
        None => Some(DHTDecodeError::MissingResponseDict),
        Some(r) => if node_id_in(r) is None {
            Some(DHTDecodeError::BadNodeId)
        } else if !nodes_ok(r, false) {
            Some(DHTDecodeError::BadNodes)
        } else if !values_ok(r) {
            Some(DHTDecodeError::BadValues)
        } else {
            None
        },
    }
}

/// `x` holds what the `r` dictionary `r` says.
pub open spec fn get_peers_fields(x: DHTGetPeersResponse, r: Seq<(Seq<u8>, Bencode)>) -> bool {
    &&& node_id_in(r) == Some(x.base.node_id@)
    &&& token_matches(x.token, r)
    &&& nodes_in(x.nodes@, nodes_bytes(r))
    &&& values_match(x.values@, values_items(r))
}

/// What is wrong with the body of a `find_node` reply, if anything.
pub open spec fn find_node_error(es: Seq<(Seq<u8>, Bencode)>) -> Option<DHTDecodeError> {
    match response_dict(es) {
        None => Some(DHTDecodeError::MissingResponseDict),
        Some(r) => if node_id_in(r) is None {
            Some(DHTDecodeError::BadNodeId)
        } else if !nodes_ok(r, true) {
            Some(DHTDecodeError::BadNodes)
        } else {
            None
        },
    }
}

pub open spec fn find_node_fields(x: DHTFindNodeResponse, r: Seq<(Seq<u8>, Bencode)>) -> bool {
    &&& node_id_in(r) == Some(x.base.node_id@)
    &&& nodes_in(x.nodes@, nodes_bytes(r))
}

/// The code and message of an error envelope, if `e` has that shape.
pub open spec fn error_parts(es: Seq<(Seq<u8>, Bencode)>) -> Option<(int, Seq<u8>)> {
    match lookup(es, key_e()) {
        Some(Bencode::List(l)) => if l.len() >= 2 && l[0] is Integer && l[1] is Bytes {
            Some((l[0]->Integer_0, l[1]->Bytes_0))
        } else {
            None
        },
        _ => None,
    }
}

pub open spec fn error_fields(x: DHTErrorResponse, es: Seq<(Seq<u8>, Bencode)>) -> bool {
    error_parts(es) matches Some((code, msg)) && x.error_code == error_code_of(code as i64)
        && x.error_message@ == lossy_text(msg)
}

/// The dictionary `r` of a reply.
pub fn get_resp_dict(value: &BencodeValue) -> (r: Result<&BencodeDict, DHTDecodeError>)
    ensures
        match value@ {
            Bencode::Dict(es) => match response_dict(es) {
                Some(rd) => r matches Ok(d) && d@ == rd,
                None => r == Err::<&BencodeDict, DHTDecodeError>(
                    DHTDecodeError::MissingResponseDict,
                ),
            },
            _ => r == Err::<&BencodeDict, DHTDecodeError>(DHTDecodeError::NotADict),
        },
{
    let root = match value.as_dict() {
        Some(d) => d,
        None => return Err(DHTDecodeError::NotADict),
    };
    let rv = match root.get(bytes_r().as_slice()) {
        Some(x) => x,
        None => return Err(DHTDecodeError::MissingResponseDict),
    };
    match rv.as_dict() {
        Some(d) => Ok(d),
        None => Err(DHTDecodeError::MissingResponseDict),
    }
}

/// Checks the envelope of a reply to the query with id `tid` and says which shape it has.
pub fn get_response_type(value: &BencodeValue, tid: u16) -> (r: Result<DHTResponseType, DHTDecodeError>)
    ensures
        match envelope_error(value@, tid) {
            Some(e) => r == Err::<DHTResponseType, DHTDecodeError>(e),
            None => value@ matches Bencode::Dict(es) && r == Ok::<DHTResponseType, DHTDecodeError>(
                if message_kind(es) == Some(114u8) {
                    DHTResponseType::Response
                } else {
                    DHTResponseType::Error
                },
            ),
        },
{
    let root = match value.as_dict() {
        Some(d) => d,
        None => return Err(DHTDecodeError::NotADict),
    };
    let t = match root.get(bytes_t().as_slice()) {
        Some(x) => match x.as_bytes() {
            Some(b) => b,
            None => return Err(DHTDecodeError::MissingTransactionId),
        },
        None => return Err(DHTDecodeError::MissingTransactionId),
    };
    if t.len() != 2 || t[0] != (tid / 256) as u8 || t[1] != (tid % 256) as u8 {
        proof {
            if t@.len() == 2 {
                assert(t@ != tid_bytes(tid));
            }
        }
        return Err(DHTDecodeError::TransactionMismatch);
    }
    assert(t@ =~= tid_bytes(tid));
    let y = match root.get(bytes_y().as_slice()) {
        Some(x) => match x.as_bytes() {
            Some(b) => b,
            None => return Err(DHTDecodeError::MissingMessageKind),
        },
        None => return Err(DHTDecodeError::MissingMessageKind),
    };
    if y.len() == 0 {
        return Err(DHTDecodeError::MissingMessageKind);
    }
    if y[0] == 114u8 {
        Ok(DHTResponseType::Response)
    } else if y[0] == 101u8 {
        Ok(DHTResponseType::Error)
    } else {
        Err(DHTDecodeError::ProtocolError)
    }
}

impl DHTBaseResponse {
    /// The responder's id from the `r` dictionary.
    pub fn decode(r: &BencodeDict) -> (res: Result<Self, DHTDecodeError>)
        ensures
            match node_id_in(r@) {
                Some(id) => res matches Ok(x) && x.node_id@ == id,
                None => res is Err && res == Err::<Self, DHTDecodeError>(
                    DHTDecodeError::BadNodeId,
                ),
            },
    {
        let id = match r.get(bytes_id().as_slice()) {
            Some(x) => match x.as_bytes() {
                Some(b) => b,
                None => return Err(DHTDecodeError::BadNodeId),
            },
            None => return Err(DHTDecodeError::BadNodeId),
        };
        if id.len() != 20 {
            return Err(DHTDecodeError::BadNodeId);
        }
        let mut node_id: [u8; 20] = [0; 20];
        let mut i: usize = 0;
        while i < 20
            invariant
                id@.len() == 20,
                0 <= i <= 20,
                forall|j: int| 0 <= j < i ==> node_id@[j] == id@[j],
            decreases 20 - i,
        {
            node_id[i] = id[i];
            i += 1;
        }
        assert(node_id@ =~= id@);
        Ok(DHTBaseResponse { node_id })
    }
}

/// Reads `values`: each 6-byte string is one peer.
fn decode_values(r: &BencodeDict) -> (res: Result<Vec<CompactPeer>, DHTDecodeError>)
    ensures
        values_ok(r@) ==> (res matches Ok(vs) && values_match(vs@, values_items(r@))),
        !values_ok(r@) ==> res == Err::<Vec<CompactPeer>, DHTDecodeError>(
            DHTDecodeError::BadValues,
        ),
{
    let mut out: Vec<CompactPeer> = Vec::new();
    let v = match r.get(bytes_values().as_slice()) {
        Some(v) => v,
        None => {
            assert(values_match(out@, values_items(r@)));
            return Ok(out);
        },
    };
    let items = match v.as_list() {
        Some(l) => l,
        None => return Err(DHTDecodeError::BadValues),
    };
    let ghost m = values_items(r@);
    let mut i: usize = 0;
    while i < items.len()
        invariant
            m == values_items(r@),
            m.len() == items@.len(),
            forall|j: int| 0 <= j < m.len() ==> #[trigger] m[j] == items@[j]@,
            lookup(r@, key_values()) == Some(Bencode::List(m)),
            i <= items@.len(),
            out@.len() == i,
            forall|j: int| 0 <= j < i ==> (#[trigger] m[j] matches Bencode::Bytes(b) && b.len()
                == 6),
            forall|j: int| 0 <= j < i ==> (#[trigger] m[j] matches Bencode::Bytes(b) && peer_at(
                out@[j],
                b,
                0,
            )),
        decreases items@.len() - i,
    {
        let b = match items[i].as_bytes() {
            Some(b) => b,
            None => {
                assert(!(m[i as int] matches Bencode::Bytes(b) && b.len() == 6));
                return Err(DHTDecodeError::BadValues);
            },
        };
        if b.len() != 6 {
            assert(!(m[i as int] matches Bencode::Bytes(b) && b.len() == 6));
            return Err(DHTDecodeError::BadValues);
        }
        let p = CompactPeer::from_bytes(b.as_slice(), 0);
        out.push(p);
        i += 1;
    }
    Ok(out)
}

/// Reads `nodes`; absent counts as none unless `required`.
fn decode_nodes(r: &BencodeDict, required: bool) -> (res: Result<Vec<CompactNodeInfo>, DHTDecodeError>)
    ensures
        nodes_ok(r@, required) ==> (res matches Ok(ns) && nodes_in(ns@, nodes_bytes(r@))),
        !nodes_ok(r@, required) ==> res == Err::<Vec<CompactNodeInfo>, DHTDecodeError>(
            DHTDecodeError::BadNodes,
        ),
{
    match r.get(bytes_nodes().as_slice()) {
        Some(v) => match v.as_bytes() {
            Some(b) => if b.len() % 26 == 0 {
                Ok(nodes_from_bytes(b.as_slice()))
            } else {
                Err(DHTDecodeError::BadNodes)
            },
            None => Err(DHTDecodeError::BadNodes),
        },
        None => {
            if required {
                Err(DHTDecodeError::BadNodes)
            } else {
                let out: Vec<CompactNodeInfo> = Vec::new();
                assert(nodes_in(out@, nodes_bytes(r@)));
                Ok(out)
            }
        },
    }
}

impl DHTGetPeersResponse {
    /// The fields of a `get_peers` reply.
    pub fn decode(value: &BencodeValue) -> (res: Result<Self, DHTDecodeError>)
        ensures
            match value@ {
                Bencode::Dict(es) => match get_peers_error(es) {
                    Some(e) => res == Err::<Self, DHTDecodeError>(e),
                    None => res matches Ok(x) && get_peers_fields(x, response_dict(es)->Some_0),
                },
                _ => res == Err::<Self, DHTDecodeError>(DHTDecodeError::NotADict),
            },
    {
        let r = get_resp_dict(value)?;
        let base = DHTBaseResponse::decode(r)?;
        let token = match r.get(bytes_token().as_slice()) {
            Some(t) => match t.as_bytes() {
                Some(b) => Some(to_vec(b.as_slice())),
                None => None,
            },
            None => None,
        };
        let nodes = decode_nodes(r, false)?;
        let values = decode_values(r)?;
        Ok(DHTGetPeersResponse { base, token, nodes, values })
    }
}

impl DHTFindNodeResponse {
    /// The fields of a `find_node` reply.
    pub fn decode(value: &BencodeValue) -> (res: Result<Self, DHTDecodeError>)
        ensures
            match value@ {
                Bencode::Dict(es) => match find_node_error(es) {
                    Some(e) => res == Err::<Self, DHTDecodeError>(e),
                    None => res matches Ok(x) && find_node_fields(x, response_dict(es)->Some_0),
                },
                _ => res == Err::<Self, DHTDecodeError>(DHTDecodeError::NotADict),
            },
    {
        let r = get_resp_dict(value)?;
        let base = DHTBaseResponse::decode(r)?;
        let nodes = decode_nodes(r, true)?;
        Ok(DHTFindNodeResponse { base, nodes })
    }
}

impl DHTErrorResponse {
    /// The code and message of an error envelope.
    pub fn decode(value: &BencodeValue) -> (res: Result<Self, DHTDecodeError>)
        ensures
            match value@ {
                Bencode::Dict(es) => match error_parts(es) {
                    Some(_) => res matches Ok(x) && error_fields(x, es),
                    None => res == Err::<Self, DHTDecodeError>(DHTDecodeError::MalformedError),
                },
                _ => res == Err::<Self, DHTDecodeError>(DHTDecodeError::NotADict),
            },
    {
        let root = match value.as_dict() {
            Some(d) => d,
            None => return Err(DHTDecodeError::NotADict),
        };
        let e = match root.get(bytes_e().as_slice()) {
            Some(x) => match x.as_list() {
                Some(l) => l,
                None => return Err(DHTDecodeError::MalformedError),
            },
            None => return Err(DHTDecodeError::MalformedError),
        };
        if e.len() < 2 {
            return Err(DHTDecodeError::MalformedError);
        }
        let code = match e[0].as_integer() {
            Some(c) => c,
            None => return Err(DHTDecodeError::MalformedError),
        };
        let msg = match e[1].as_bytes() {
            Some(m) => m,
            None => return Err(DHTDecodeError::MalformedError),
        };
        Ok(DHTErrorResponse {
            error_code: DHTErrorCode::from_code(code),
            error_message: utf8_lossy(msg.as_slice()),
        })
    }
}

/// What decoding `datagram` as the reply to the `get_peers` query `tid` gives.
pub open spec fn get_peers_reply(
    datagram: Seq<u8>,
    tid: u16,
    r: Result<DHTResponse<DHTGetPeersResponse>, DHTDecodeError>,
) -> bool {
    match parse_spec(datagram) {
        Err(e) => r == Err::<DHTResponse<DHTGetPeersResponse>, DHTDecodeError>(
            DHTDecodeError::Bencode(e),
        ),
        Ok(v) => match envelope_error(v, tid) {
            Some(e) => r == Err::<DHTResponse<DHTGetPeersResponse>, DHTDecodeError>(e),
            None => v matches Bencode::Dict(es) && if message_kind(es) == Some(114u8) {
                match get_peers_error(es) {
                    Some(e) => r == Err::<DHTResponse<DHTGetPeersResponse>, DHTDecodeError>(e),
                    None => r matches Ok(DHTResponse::DHTResponse(x)) && get_peers_fields(
                        x,
                        response_dict(es)->Some_0,
                    ),
                }
            } else {
                match error_parts(es) {
                    Some(_) => r matches Ok(DHTResponse::DHTError(x)) && error_fields(x, es),
                    None => r == Err::<DHTResponse<DHTGetPeersResponse>, DHTDecodeError>(
                        DHTDecodeError::MalformedError,
                    ),
                }
            },
        },
    }
}

/// What decoding `datagram` as the reply to the `find_node` query `tid` gives.
pub open spec fn find_node_reply(
    datagram: Seq<u8>,
    tid: u16,
    r: Result<DHTResponse<DHTFindNodeResponse>, DHTDecodeError>,
) -> bool {
    match parse_spec(datagram) {
        Err(e) => r == Err::<DHTResponse<DHTFindNodeResponse>, DHTDecodeError>(
            DHTDecodeError::Bencode(e),
        ),
        Ok(v) => match envelope_error(v, tid) {
            Some(e) => r == Err::<DHTResponse<DHTFindNodeResponse>, DHTDecodeError>(e),
            None => v matches Bencode::Dict(es) && if message_kind(es) == Some(114u8) {
                match find_node_error(es) {
                    Some(e) => r == Err::<DHTResponse<DHTFindNodeResponse>, DHTDecodeError>(e),
                    None => r matches Ok(DHTResponse::DHTResponse(x)) && find_node_fields(
                        x,
                        response_dict(es)->Some_0,
                    ),
                }
            } else {
                match error_parts(es) {
                    Some(_) => r matches Ok(DHTResponse::DHTError(x)) && error_fields(x, es),
                    None => r == Err::<DHTResponse<DHTFindNodeResponse>, DHTDecodeError>(
                        DHTDecodeError::MalformedError,
                    ),
                }
            },
        },
    }
}

/// Decodes a datagram received for the `get_peers` query with transaction id `tid`.
pub fn decode_get_peers_reply(tid: u16, datagram: &[u8]) -> (r: Result<
    DHTResponse<DHTGetPeersResponse>,
    DHTDecodeError,
>)
    ensures
        get_peers_reply(datagram@, tid, r),
{
    let value = match parse(datagram) {
        Ok(v) => v,
        Err(e) => return Err(DHTDecodeError::Bencode(e)),
    };
    let kind = get_response_type(&value, tid)?;
    match kind {
        DHTResponseType::Response => Ok(DHTResponse::DHTResponse(DHTGetPeersResponse::decode(&value)?)),
        DHTResponseType::Error => Ok(DHTResponse::DHTError(DHTErrorResponse::decode(&value)?)),
    }
}

/// Decodes a datagram received for the `find_node` query with transaction id `tid`.
pub fn decode_find_node_reply(tid: u16, datagram: &[u8]) -> (r: Result<
    DHTResponse<DHTFindNodeResponse>,
    DHTDecodeError,
>)
    ensures
        find_node_reply(datagram@, tid, r),
{
    let value = match parse(datagram) {
        Ok(v) => v,
        Err(e) => return Err(DHTDecodeError::Bencode(e)),
    };
    let kind = get_response_type(&value, tid)?;
    match kind {
        DHTResponseType::Response => Ok(DHTResponse::DHTResponse(DHTFindNodeResponse::decode(&value)?)),
        DHTResponseType::Error => Ok(DHTResponse::DHTError(DHTErrorResponse::decode(&value)?)),
    }
}

/// A well-formed message whose `t` is not the outstanding query's id is never taken as its
/// reply: decoding it yields only `TransactionMismatch`, so the wait for the real reply goes on.
pub proof fn lemma_foreign_reply_ignored(
    datagram: Seq<u8>,
    tid: u16,
    r: Result<DHTResponse<DHTGetPeersResponse>, DHTDecodeError>,
)
    requires
        get_peers_reply(datagram, tid, r),
        parse_spec(datagram) matches Ok(Bencode::Dict(es)) && lookup(es, key_t()) matches Some(
            Bencode::Bytes(t),
        ) && t != tid_bytes(tid),
    ensures
        r == Err::<DHTResponse<DHTGetPeersResponse>, DHTDecodeError>(
            DHTDecodeError::TransactionMismatch,
        ),
{
}

} // verus!
