use vstd::prelude::*;

use crate::bencode::{Bencode, BencodeDict, BencodeValue, encode};

verus! {

/// A protocol extension negotiated after the handshake.
pub trait Extension {
    /// The name the extension is advertised under.
    fn name(&self) -> &'static str;

    /// Takes one message of the extension.
    fn process_packet(&self, data: &[u8]);
}

/// The metadata exchange extension: the metadata received so far and its announced size.
#[derive(Debug)]
pub struct UTMetadata {
    data: Vec<u8>,
    total_size: Option<i64>,
}

/// The size of every metadata piece but the last.
pub const MAX_PIECE_SIZE: i64 = 16_384;

/// `a / b` rounded toward zero.
pub open spec fn trunc_div(a: int, b: int) -> int {
    if a >= 0 {
        a / b
    } else {
        -((-a) / b)
    }
}

pub open spec fn key_msg_type() -> Seq<u8> {
    seq![109u8, 115u8, 103u8, 95u8, 116u8, 121u8, 112u8, 101u8]
}

pub open spec fn key_piece() -> Seq<u8> {
    seq![112u8, 105u8, 101u8, 99u8, 101u8]
}

/// A metadata request for piece `index`.
pub open spec fn request_message(index: int) -> Seq<u8> {
    encode(
        Bencode::Dict(
            seq![(key_msg_type(), Bencode::Integer(0)), (key_piece(), Bencode::Integer(index))],
        ),
    )
}

impl Extension for UTMetadata {
    fn name(&self) -> &'static str {
        "ut_metadata"
    }

    fn process_packet(&self, data: &[u8]) {
    }
}

impl UTMetadata {
    /// The piece count of the announced size minus the pieces already held, or 0 with no
    /// size announced yet.
    pub closed spec fn next_piece(&self) -> int {
        match self.total_size {
            Some(total) => trunc_div(total as int, MAX_PIECE_SIZE as int) - (self.data@.len() as int)
                / (MAX_PIECE_SIZE as int),
            None => 0,
        }
    }

    /// Nothing received and no size known.
    pub fn new() -> (r: UTMetadata)
        ensures
            r.next_piece() == 0,
    {
        Self { data: Vec::new(), total_size: None }
    }

    /// The index that `get_request_message` asks for.
    pub fn next_piece_index(&self) -> (r: i64)
        ensures
            r == self.next_piece(),
    {
        if let Some(total_size) = self.total_size {
            let magnitude: u64 = if total_size < 0 {
                (0i128 - total_size as i128) as u64
            } else {
                total_size as u64
            };
            let q = (magnitude / (MAX_PIECE_SIZE as u64)) as i64;
            let total_piece_count: i64 = if total_size < 0 { 0 - q } else { q };
            let held = (self.data.len() / (MAX_PIECE_SIZE as usize)) as i64;
            assert(self.data@.len() <= usize::MAX);
            return total_piece_count - held;
        }
        0
    }

    /// The bencoded request for the next piece: `{msg_type: 0, piece: index}`.
    pub fn get_request_message(&self) -> (r: Vec<u8>)
        ensures
            r@ == request_message(self.next_piece()),
    {
        let index = self.next_piece_index();
        let mut dict = BencodeDict::new();
        let k1 = vec![109u8, 115u8, 103u8, 95u8, 116u8, 121u8, 112u8, 101u8];
        let k2 = vec![112u8, 105u8, 101u8, 99u8, 101u8];
        assert(k1@ =~= key_msg_type());
        assert(k2@ =~= key_piece());
        proof {
            crate::bencode::lemma_put_last(dict@, key_msg_type(), Bencode::Integer(0));
        }
        dict.insert(k1, BencodeValue::Integer(0));
        proof {
            crate::bencode::lemma_put_last(dict@, key_piece(), Bencode::Integer(index as int));
        }
        dict.insert(k2, BencodeValue::Integer(index));
        let value = BencodeValue::Dict(dict);
        assert(dict@ =~= seq![
            (key_msg_type(), Bencode::Integer(0)),
            (key_piece(), Bencode::Integer(index as int)),
        ]);
        value.serialize()
    }
}

} // verus!
