//! Laws of the format, proved over the specifications of the codecs.
use crate::endian::{be16_bytes, be16_value, be32_bytes, be32_value, lemma_be16_bytes_value,
    lemma_be16_value_bytes, lemma_be32_bytes_value, lemma_be32_value_bytes,
};
use crate::error::CodecError;
use crate::serialize::{
    all_encodable, decoded_all, encode_all, encode_byte_vec, encode_string, encode_vec,
    lemma_parse_all_canonical, lemma_parse_all_encode, lemma_utf8_text_canonical,
    lemma_utf8_text_encode, parse_all, parse_byte_vec, parse_string, parse_vec,
    spec_deserialize, Serializable,
};
use vstd::prelude::*;
use vstd::utf8::encode_utf8;

verus! {

/// Deserializing the serialization of a value gives what the value decodes
/// to: the value itself, for a type that decodes to itself.
pub proof fn lemma_round_trip<T: Serializable>(v: T)
    requires
        v.spec_encodable(),
    ensures
        spec_deserialize::<T>(v.spec_encode()) == Ok::<T::Output, CodecError>(v.spec_decoded()),
{
    v.lemma_parse_encode(Seq::empty());
    assert(v.spec_encode() + Seq::<u8>::empty() =~= v.spec_encode());
}

/// For a type whose values decode to themselves, serializing the value that
/// a whole encoding decodes to gives back that encoding, byte for byte: no
/// value has two encodings.
pub proof fn lemma_reserialize<T: Serializable<Output = T>>(data: Seq<u8>)
    requires
        forall|w: T| #[trigger] w.spec_decoded() == w,
        T::spec_parse(data) matches Ok((v, n)) && n == data.len(),
    ensures
        spec_deserialize::<T>(data) matches Ok(v) && v.spec_encodable() && v.spec_encode()
            == data,
{
    T::lemma_parse_canonical(data);
    assert(data.take(data.len() as int) =~= data);
    if let Ok((v, n)) = T::spec_parse(data) {
        let w = choose|w: T|
            w.spec_encodable() && #[trigger] w.spec_encode() == data.take(n as int)
                && w.spec_decoded() == v;
        assert(w.spec_decoded() == w);
    }
}

/// A byte vector of at most 65535 bytes decodes back from its encoding,
/// whatever follows it.
pub proof fn lemma_byte_vec_round_trip(b: Seq<u8>, rest: Seq<u8>)
    requires
        b.len() <= 0xffff,
    ensures
        parse_byte_vec(encode_byte_vec(b) + rest) == Ok::<(Seq<u8>, nat), CodecError>(
            (b, b.len() + 2),
        ),
{
    let d = encode_byte_vec(b) + rest;
    assert(d.take(2) =~= be16_bytes(b.len() as u16));
    lemma_be16_value_bytes(b.len() as u16);
    assert(d.subrange(2, 2 + b.len() as int) =~= b);
}

/// A decoded byte vector is read from exactly its encoding.
pub proof fn lemma_byte_vec_canonical(data: Seq<u8>)
    ensures
        parse_byte_vec(data) matches Ok((b, n)) ==> b.len() <= 0xffff && n == b.len() + 2
            && data.take(n as int) == encode_byte_vec(b),
{
    if data.len() >= 2 {
        lemma_be16_bytes_value(data.take(2));
        let len = be16_value(data.take(2)) as int;
        if data.len() >= 2 + len {
            assert(data.take(2 + len) =~= encode_byte_vec(data.subrange(2, 2 + len)));
        }
    }
}

/// A text of at most 65535 UTF-8 bytes decodes back from its encoding,
/// whatever follows it.
pub proof fn lemma_string_round_trip(s: Seq<char>, rest: Seq<u8>)
    requires
        encode_utf8(s).len() <= 0xffff,
    ensures
        parse_string(encode_string(s) + rest) == Ok::<(Seq<char>, nat), CodecError>(
            (s, encode_string(s).len()),
        ),
{
    lemma_byte_vec_round_trip(encode_utf8(s), rest);
    lemma_utf8_text_encode(s);
}

/// A decoded text is read from exactly its encoding.
pub proof fn lemma_string_canonical(data: Seq<u8>)
    ensures
        parse_string(data) matches Ok((s, n)) ==> encode_utf8(s).len() <= 0xffff
            && data.take(n as int) == encode_string(s),
{
    lemma_byte_vec_canonical(data);
    if let Ok((b, n)) = parse_byte_vec(data) {
        lemma_utf8_text_canonical(b);
    }
}

/// A vector of at most `u32::MAX` encodable values decodes back from its
/// encoding, whatever follows it.
pub proof fn lemma_vec_round_trip<T: Serializable>(s: Seq<T>, rest: Seq<u8>)
    requires
        s.len() <= u32::MAX,
        all_encodable(s),
    ensures
        parse_vec::<T>(encode_vec(s) + rest) == Ok::<(Seq<T::Output>, nat), CodecError>(
            (decoded_all(s), encode_vec(s).len()),
        ),
{
    let d = encode_vec(s) + rest;
    assert(d.take(4) =~= be32_bytes(s.len() as u32));
    lemma_be32_value_bytes(s.len() as u32);
    assert(d.skip(4) =~= encode_all(s) + rest);
    lemma_parse_all_encode(s, rest);
    assert(Seq::<T::Output>::empty() + decoded_all(s) =~= decoded_all(s));
}

/// `vs` is a vector that can be written, `bytes` is its encoding, and its
/// items decode to `os`.
pub open spec fn encodes_vec<T: Serializable>(vs: Seq<T>, bytes: Seq<u8>, os: Seq<T::Output>) -> bool {
    &&& vs.len() <= u32::MAX
    &&& all_encodable(vs)
    &&& decoded_all(vs) == os
    &&& bytes == encode_vec(vs)
}

/// A decoded vector is read from exactly the encoding of a vector of values
/// that decode to its items; the result is such a vector.
pub proof fn lemma_vec_canonical<T: Serializable>(data: Seq<u8>) -> (vs: Seq<T>)
    ensures
        parse_vec::<T>(data) matches Ok((os, n)) ==> encodes_vec(vs, data.take(n as int), os),
{
    if data.len() >= 4 {
        let count = be32_value(data.take(4));
        lemma_be32_bytes_value(data.take(4));
        let vs = lemma_parse_all_canonical::<T>(data.skip(4), count as nat);
        match parse_all::<T>(data.skip(4), count as nat) {
            Ok((os, m)) => {
                assert(Seq::<T::Output>::empty() + os =~= os);
                assert(decoded_all(vs).len() == vs.len());
                let total: nat = 4 + m;
                assert(data.take(total as int) =~= encode_vec(vs));
                assert(parse_vec::<T>(data) == Ok::<(Seq<T::Output>, nat), CodecError>(
                    (os, total),
                ));
                vs
            },
            Err(_) => Seq::empty(),
        }
    } else {
        Seq::empty()
    }
}

/// Where every value takes at least one byte, a count of values larger
/// than the bytes at hand cannot be decoded.
pub proof fn lemma_count_beyond_input<T: Serializable>(data: Seq<u8>, k: nat)
    requires
        k > data.len(),
        forall|d: Seq<u8>| #[trigger] T::spec_parse(d) matches Ok((v, n)) ==> n >= 1,
    ensures
        parse_all::<T>(data, k) is Err,
    decreases k,
{
    T::lemma_parse_canonical(data);
    if let Ok((v, n)) = T::spec_parse(data) {
        lemma_count_beyond_input::<T>(data.skip(n as int), (k - 1) as nat);
    }
}

/// A vector whose count is larger than the bytes after it cannot be
/// decoded, where every value takes at least one byte.
pub proof fn lemma_vec_count_beyond_input<T: Serializable>(data: Seq<u8>)
    requires
        data.len() >= 4,
        be32_value(data.take(4)) > data.len() - 4,
        forall|d: Seq<u8>| #[trigger] T::spec_parse(d) matches Ok((v, n)) ==> n >= 1,
    ensures
        parse_vec::<T>(data) is Err,
{
    lemma_count_beyond_input::<T>(data.skip(4), be32_value(data.take(4)) as nat);
}

} // verus!
