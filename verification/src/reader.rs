//! Memory reader: builds the wire command that asks the debug server
//! for a block of target memory, and parses the reply payload into raw
//! bytes. The transport that carries the bytes lives outside the
//! library; it hands the reply payload in as a plain value, or `None`
//! when the stream closed before a reply arrived.

use vstd::prelude::*;
use crate::hexdata::{
    decode_hex,
    hex_byte_at,
    hex_decodable,
    hex_repr,
    push_hex_u32,
};

verus! {

/// The ASCII byte `m` that opens a read-memory command.
pub const COMMAND_READ_MEMORY: u8 = 109;

/// The ASCII comma between the address and the length.
pub const COMMAND_SEPARATOR: u8 = 44;

/// A request for `length` bytes of target memory at `address`.
#[derive(Clone, Copy, PartialEq, Eq, Structural, Debug)]
pub struct MemoryReadRequest {
    pub address: u32,
    pub length: u32,
}

/// The wire form of a read-memory command:
/// `m<address-hex>,<length-hex>`, both numbers in shortest lowercase
/// hex.
pub open spec fn read_command_spec(address: u32, length: u32) -> Seq<u8> {
    seq![COMMAND_READ_MEMORY] + hex_repr(address as int) + seq![COMMAND_SEPARATOR] + hex_repr(
        length as int,
    )
}

/// Why a reply payload could not be turned into a memory block.
#[derive(Clone, Copy, PartialEq, Eq, Structural, Debug)]
pub enum ReadError {
    /// The payload is not well-formed hex.
    MalformedHex,
    /// The payload decodes to fewer bytes than the value needs.
    Truncated,
}

impl MemoryReadRequest {
    /// Renders the request as its wire command payload.
    pub fn command(&self) -> (r: Vec<u8>)
        ensures
            r@ == read_command_spec(self.address, self.length),
    {
        let mut out: Vec<u8> = Vec::new();
        out.push(COMMAND_READ_MEMORY);
        push_hex_u32(self.address, &mut out);
        out.push(COMMAND_SEPARATOR);
        push_hex_u32(self.length, &mut out);
        proof {
            assert(out@ =~= read_command_spec(self.address, self.length));
        }
        out
    }
}

/// What a closed stream or a reply payload yields as a raw memory
/// block: a closed stream yields the empty block (a deliberate
/// leniency, so one dropped reply shows a stale frame instead of
/// ending the mirror), a well-formed hex payload yields its bytes, and
/// anything else is malformed.
pub open spec fn block_of_response(payload: Option<Seq<u8>>) -> Result<Seq<u8>, ReadError> {
    match payload {
        None => Ok(Seq::empty()),
        Some(p) => if hex_decodable(p) {
            Ok(Seq::new(p.len() / 2 as nat, |i: int| hex_byte_at(p, i)))
        } else {
            Err(ReadError::MalformedHex)
        },
    }
}

/// Parses a reply payload into the raw memory block it carries.
pub fn parse_block_response(payload: Option<Vec<u8>>) -> (r: Result<Vec<u8>, ReadError>)
    ensures
        match r {
            Ok(b) => block_of_response(view_option(payload)) == Ok::<Seq<u8>, ReadError>(b@),
            Err(e) => block_of_response(view_option(payload)) == Err::<Seq<u8>, ReadError>(e),
        },
{
    match payload {
        None => Ok(Vec::new()),
        Some(p) => match decode_hex(&p) {
            Some(b) => {
                proof {
                    assert(b@ =~= Seq::new(p@.len() / 2 as nat, |i: int| hex_byte_at(p@, i)));
                }
                Ok(b)
            },
            None => Err(ReadError::MalformedHex),
        },
    }
}

/// The bytes of a reply payload as they stand; a closed stream yields
/// the empty reply. Used for replies read only for pacing, such as the
/// stop reply after an interrupt.
pub fn response_bytes(payload: Option<Vec<u8>>) -> (r: Vec<u8>)
    ensures
        match view_option(payload) {
            None => r@ == Seq::<u8>::empty(),
            Some(p) => r@ == p,
        },
{
    match payload {
        None => Vec::new(),
        Some(p) => p,
    }
}

/// The view of an optional byte buffer.
pub open spec fn view_option(payload: Option<Vec<u8>>) -> Option<Seq<u8>> {
    match payload {
        None => None,
        Some(p) => Some(p@),
    }
}

/// The 32-bit value spelled by the first four bytes of a block, least
/// significant byte first.
pub open spec fn u32_le_spec(b: Seq<u8>) -> int {
    b[0] + 0x100 * b[1] + 0x1_0000 * b[2] + 0x100_0000 * b[3]
}

/// Parses a reply payload as a little-endian 32-bit value, as the
/// pointer read of each tick uses it. A closed stream yields zero (the
/// same leniency as an empty block); a malformed payload or one
/// decoding to fewer than four bytes is an error.
pub fn parse_u32_response(payload: Option<Vec<u8>>) -> (r: Result<u32, ReadError>)
    ensures
        match view_option(payload) {
            None => r == Ok::<u32, ReadError>(0),
            Some(p) => match r {
                Ok(v) => {
                    &&& hex_decodable(p)
                    &&& p.len() / 2 >= 4
                    &&& v == u32_le_spec(Seq::new(p.len() / 2 as nat, |i: int| hex_byte_at(p, i)))
                },
                Err(e) => if !hex_decodable(p) {
                    e == ReadError::MalformedHex
                } else {
                    p.len() / 2 < 4 && e == ReadError::Truncated
                },
            },
        },
{
    match payload {
        None => Ok(0),
        Some(p) => match decode_hex(&p) {
            None => Err(ReadError::MalformedHex),
            Some(b) => {
                if b.len() < 4 {
                    Err(ReadError::Truncated)
                } else {
                    proof {
                        assert(b@ =~= Seq::new(p@.len() / 2 as nat, |i: int| hex_byte_at(p@, i)));
                    }
                    let v: u32 = b[0] as u32 + 0x100 * (b[1] as u32) + 0x1_0000 * (b[2] as u32)
                        + 0x100_0000 * (b[3] as u32);
                    Ok(v)
                }
            },
        },
    }
}

} // verus!
