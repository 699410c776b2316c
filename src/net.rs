//! Network endpoints: an address family, its raw address bytes and a port.
use crate::cursor::Cursor;
use crate::endian::{be16_bytes, be16_value, lemma_be16_bytes_value, lemma_be16_value_bytes};
use crate::error::CodecError;
use crate::serialize::{
    read_byte_arr, read_outcome, write_byte_arr, Serializable, Serializer,
};
use vstd::array::{spec_array_fill_for_copy_type, spec_array_update};
use vstd::prelude::*;

verus! {

/// An IPv4 or IPv6 endpoint, with the address as its raw bytes in network
/// order.
#[derive(Debug, Clone, Copy, PartialEq, Eq)]
#[allow(inconsistent_fields)]
pub enum SocketAddress {
    V4 { ip: [u8; 4], port: u16 },
    V6 { ip: [u8; 16], port: u16 },
}

/// The family tag of an IPv4 endpoint.
pub const TAG_V4: u8 = 0;

/// The family tag of an IPv6 endpoint.
pub const TAG_V6: u8 = 1;

/// The array whose first `k` items are those of `s`, and zero after them.
pub open spec fn array_from<const N: usize>(s: Seq<u8>, k: nat) -> [u8; N]
    decreases k,
{
    if k == 0 {
        spec_array_fill_for_copy_type::<u8, N>(0u8)
    } else {
        spec_array_update(array_from::<N>(s, (k - 1) as nat), k - 1, s[k - 1])
    }
}

pub proof fn lemma_array_from<const N: usize>(s: Seq<u8>, k: nat)
    requires
        k <= N,
        k <= s.len(),
    ensures
        array_from::<N>(s, k)@.len() == N,
        forall|i: int| 0 <= i < k ==> array_from::<N>(s, k)@[i] == s[i],
    decreases k,
{
    broadcast use vstd::array::group_array_axioms;

    if k > 0 {
        lemma_array_from::<N>(s, (k - 1) as nat);
    }
}

/// The array that holds the bytes of `s`.
pub open spec fn array_of<const N: usize>(s: Seq<u8>) -> [u8; N] {
    array_from::<N>(s, N as nat)
}

pub proof fn lemma_array_of<const N: usize>(a: [u8; N], s: Seq<u8>)
    requires
        a@ == s,
    ensures
        array_of::<N>(s) == a,
{
    broadcast use vstd::array::group_array_axioms;

    lemma_array_from::<N>(s, N as nat);
    assert(array_of::<N>(s) =~= a);
}

impl Serializable for SocketAddress {
    type Output = SocketAddress;

    open spec fn spec_decoded(&self) -> SocketAddress {
        *self
    }

    open spec fn spec_encode(&self) -> Seq<u8> {
        match *self {
            SocketAddress::V4 { ip, port } => seq![TAG_V4] + ip@ + be16_bytes(port),
            SocketAddress::V6 { ip, port } => seq![TAG_V6] + ip@ + be16_bytes(port),
        }
    }

    open spec fn spec_encodable(&self) -> bool {
        true
    }

    open spec fn spec_parse(data: Seq<u8>) -> Result<(SocketAddress, nat), CodecError> {
        if data.len() < 1 {
            Err(CodecError::Underflow)
        } else if data[0] == TAG_V4 {
            if data.len() < 7 {
                Err(CodecError::Underflow)
            } else {
                Ok(
                    (
                        SocketAddress::V4 {
                            ip: array_of::<4>(data.subrange(1, 5)),
                            port: be16_value(data.subrange(5, 7)),
                        },
                        7,
                    ),
                )
            }
        } else if data[0] == TAG_V6 {
            if data.len() < 19 {
                Err(CodecError::Underflow)
            } else {
                Ok(
                    (
                        SocketAddress::V6 {
                            ip: array_of::<16>(data.subrange(1, 17)),
                            port: be16_value(data.subrange(17, 19)),
                        },
                        19,
                    ),
                )
            }
        } else {
            Err(CodecError::InvalidEncoding)
        }
    }

    proof fn lemma_parse_encode(&self, rest: Seq<u8>) {
        let d = self.spec_encode() + rest;
        match *self {
            SocketAddress::V4 { ip, port } => {
                assert(d.subrange(1, 5) =~= ip@);
                assert(d.subrange(5, 7) =~= be16_bytes(port));
                lemma_array_of::<4>(ip, ip@);
                lemma_be16_value_bytes(port);
            },
            SocketAddress::V6 { ip, port } => {
                assert(d.subrange(1, 17) =~= ip@);
                assert(d.subrange(17, 19) =~= be16_bytes(port));
                lemma_array_of::<16>(ip, ip@);
                lemma_be16_value_bytes(port);
            },
        }
    }

    proof fn lemma_parse_canonical(data: Seq<u8>) {
        if data.len() >= 7 && data[0] == TAG_V4 {
            lemma_array_from::<4>(data.subrange(1, 5), 4);
            lemma_be16_bytes_value(data.subrange(5, 7));
            assert(array_of::<4>(data.subrange(1, 5))@ =~= data.subrange(1, 5));
            assert(data.take(7) =~= seq![data[0]] + data.subrange(1, 5) + data.subrange(5, 7));
            let v = SocketAddress::V4 {
                ip: array_of::<4>(data.subrange(1, 5)),
                port: be16_value(data.subrange(5, 7)),
            };
            assert(v.spec_encode() == data.take(7));
        } else if data.len() >= 19 && data[0] == TAG_V6 {
            lemma_array_from::<16>(data.subrange(1, 17), 16);
            lemma_be16_bytes_value(data.subrange(17, 19));
            assert(array_of::<16>(data.subrange(1, 17))@ =~= data.subrange(1, 17));
            assert(data.take(19) =~= seq![data[0]] + data.subrange(1, 17) + data.subrange(17, 19));
            let v = SocketAddress::V6 {
                ip: array_of::<16>(data.subrange(1, 17)),
                port: be16_value(data.subrange(17, 19)),
            };
            assert(v.spec_encode() == data.take(19));
        }
    }

    fn write(&self, buf: &mut Vec<u8>) -> (r: Result<(), CodecError>) {
        write_sock_addr(buf, self)
    }

    fn read(buf: &mut Cursor<'_>) -> (r: Result<SocketAddress, CodecError>) {
        read_sock_addr(buf)
    }

    fn size(&self) -> (r: usize) {
        get_sock_addr_size(self)
    }
}

impl Serializer for SocketAddress {}

/// Writes the family tag, the address bytes and the big-endian port.
pub fn write_sock_addr(buf: &mut Vec<u8>, addr: &SocketAddress) -> (r: Result<(), CodecError>)
    ensures
        r is Ok,
        final(buf)@ == old(buf)@ + addr.spec_encode(),
{
    let port = match addr {
        SocketAddress::V4 { ip, port } => {
            buf.push(TAG_V4);
            write_byte_arr::<4>(buf, ip)?;
            *port
        },
        SocketAddress::V6 { ip, port } => {
            buf.push(TAG_V6);
            write_byte_arr::<16>(buf, ip)?;
            *port
        },
    };
    let r = port.write(buf);
    assert(final(buf)@ =~= old(buf)@ + addr.spec_encode());
    r
}

/// Reads a family tag, then the address bytes of that family and the port;
/// a tag other than `TAG_V4` and `TAG_V6` fails with `InvalidEncoding`.
pub fn read_sock_addr(buf: &mut Cursor<'_>) -> (r: Result<SocketAddress, CodecError>)
    requires
        old(buf).wf(),
    ensures
        read_outcome(SocketAddress::spec_parse(old(buf).rest()), r, *old(buf), *final(buf)),
{
    let tag = buf.read_u8()?;
    let ghost at_ip = buf.rest();
    if tag == TAG_V4 {
        let ip = read_byte_arr::<4>(buf)?;
        let ghost at_port = buf.rest();
        let port = buf.read_u16()?;
        proof {
            assert(at_ip =~= old(buf).rest().skip(1));
            assert(at_port =~= old(buf).rest().skip(5));
            assert(ip@ =~= old(buf).rest().subrange(1, 5));
            assert(at_port.take(2) =~= old(buf).rest().subrange(5, 7));
            lemma_array_of::<4>(ip, ip@);
        }
        Ok(SocketAddress::V4 { ip, port })
    } else if tag == TAG_V6 {
        let ip = read_byte_arr::<16>(buf)?;
        let ghost at_port = buf.rest();
        let port = buf.read_u16()?;
        proof {
            assert(at_ip =~= old(buf).rest().skip(1));
            assert(at_port =~= old(buf).rest().skip(17));
            assert(ip@ =~= old(buf).rest().subrange(1, 17));
            assert(at_port.take(2) =~= old(buf).rest().subrange(17, 19));
            lemma_array_of::<16>(ip, ip@);
        }
        Ok(SocketAddress::V6 { ip, port })
    } else {
        Err(CodecError::InvalidEncoding)
    }
}

/// The length of the encoding of `addr`: the tag, the address and the port,
/// so 7 for IPv4 and 19 for IPv6.
pub fn get_sock_addr_size(addr: &SocketAddress) -> (r: usize)
    ensures
        r == addr.spec_encode().len(),
        r == (if addr is V4 { 7usize } else { 19usize }),
{
    match addr {
        SocketAddress::V4 { .. } => 1 + 4 + 2,
        SocketAddress::V6 { .. } => 1 + 16 + 2,
    }
}

} // verus!
