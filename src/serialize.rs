//! The codec capability and the primitive encodings built on it.
use crate::cursor::Cursor;
use crate::endian::{
    be16_bytes, be16_value, be32_bytes, be32_value, lemma_be16_bytes_value,
    lemma_be16_value_bytes, lemma_be32_bytes_value, lemma_be32_value_bytes, u16_to_be,
    u32_to_be,
};
use crate::error::CodecError;
use vstd::prelude::*;
use vstd::utf8::{
    decode_utf8, decode_utf8_encode_utf8, encode_utf8, encode_utf8_decode_utf8,
    encode_utf8_valid_utf8, valid_utf8,
};

verus! {

/// A type with a binary encoding: `write` appends it, `read` takes it back,
/// `size` tells its length.
pub trait Serializable: Sized {
    /// What `read` produces: most often the type itself, or for a builder
    /// the type that it builds.
    type Output;

    /// The bytes that encode `self`.
    spec fn spec_encode(&self) -> Seq<u8>;

    /// Whether `self` fits the length fields of the format.
    spec fn spec_encodable(&self) -> bool;

    /// The value that decoding the encoding of `self` produces.
    spec fn spec_decoded(&self) -> Self::Output;

    /// Decoding at the start of `data`: the value and the number of bytes it
    /// takes, or why there is none.
    spec fn spec_parse(data: Seq<u8>) -> Result<(Self::Output, nat), CodecError>;

    /// Decoding an encoding gives the decoded value of `self`, whatever
    /// follows it.
    proof fn lemma_parse_encode(&self, rest: Seq<u8>)
        requires
            self.spec_encodable(),
        ensures
            Self::spec_parse(self.spec_encode() + rest) == Ok::<(Self::Output, nat), CodecError>(
                (self.spec_decoded(), self.spec_encode().len()),
            ),
    ;

    /// What decoding takes is exactly the encoding of a value that decodes
    /// to what it gives.
    proof fn lemma_parse_canonical(data: Seq<u8>)
        ensures
            Self::spec_parse(data) matches Ok((o, n)) ==> n <= data.len() && exists|v: Self|
                v.spec_encodable() && #[trigger] v.spec_encode() == data.take(n as int)
                    && v.spec_decoded() == o,
    ;

    /// Appends the encoding of `self`; on failure `buf` is left as it was.
    fn write(&self, buf: &mut Vec<u8>) -> (r: Result<(), CodecError>)
        ensures
            r is Ok <==> self.spec_encodable(),
            r is Ok ==> final(buf)@ == old(buf)@ + self.spec_encode(),
            r is Err ==> final(buf)@ == old(buf)@,
    ;

    /// Decodes a value from the unread bytes of `buf`.
    fn read(buf: &mut Cursor<'_>) -> (r: Result<Self::Output, CodecError>)
        requires
            old(buf).wf(),
        ensures
            read_outcome(Self::spec_parse(old(buf).rest()), r, *old(buf), *final(buf)),
    ;

    /// The length of the encoding of `self`.
    fn size(&self) -> (r: usize)
        requires
            self.spec_encode().len() <= usize::MAX,
        ensures
            r == self.spec_encode().len(),
    ;
}

/// A decoder returned `r` and moved the cursor from `before` to `after`, as
/// the decoding outcome `p` of the unread bytes says.
pub open spec fn read_outcome<'a, T>(
    p: Result<(T, nat), CodecError>,
    r: Result<T, CodecError>,
    before: Cursor<'a>,
    after: Cursor<'a>,
) -> bool {
    &&& after.wf()
    &&& after.data() == before.data()
    &&& match p {
        Ok((v, n)) => r == Ok::<T, CodecError>(v) && after.pos() == before.pos() + n,
        Err(e) => r == Err::<T, CodecError>(e),
    }
}

/// Like `read_outcome`, for decoders that return a sequence as a vector.
pub open spec fn read_seq_outcome<'a, T>(
    p: Result<(Seq<T>, nat), CodecError>,
    r: Result<Vec<T>, CodecError>,
    before: Cursor<'a>,
    after: Cursor<'a>,
) -> bool {
    &&& after.wf()
    &&& after.data() == before.data()
    &&& match p {
        Ok((vs, n)) => r matches Ok(v) && v@ == vs && after.pos() == before.pos() + n,
        Err(e) => r == Err::<Vec<T>, CodecError>(e),
    }
}

/// The encodings of the items of `s`, back to back.
pub open spec fn encode_all<T: Serializable>(s: Seq<T>) -> Seq<u8>
    decreases s.len(),
{
    if s.len() == 0 {
        Seq::empty()
    } else {
        s[0].spec_encode() + encode_all(s.drop_first())
    }
}

pub open spec fn all_encodable<T: Serializable>(s: Seq<T>) -> bool {
    forall|i: int| 0 <= i < s.len() ==> #[trigger] s[i].spec_encodable()
}

/// What the items of `s` decode to.
pub open spec fn decoded_all<T: Serializable>(s: Seq<T>) -> Seq<T::Output> {
    s.map_values(|v: T| v.spec_decoded())
}

/// `vs` can be written, `bytes` is its encoding, and it decodes to `os`.
pub open spec fn encodes_all<T: Serializable>(vs: Seq<T>, bytes: Seq<u8>, os: Seq<T::Output>) -> bool {
    &&& all_encodable(vs)
    &&& encode_all(vs) == bytes
    &&& decoded_all(vs) == os
}

/// `vs` and `n` put in front of a decoding outcome.
pub open spec fn prepend<T>(vs: Seq<T>, n: nat, r: Result<(Seq<T>, nat), CodecError>) -> Result<
    (Seq<T>, nat),
    CodecError,
> {
    match r {
        Ok((ws, m)) => Ok((vs + ws, n + m)),
        Err(e) => Err(e),
    }
}

/// Decoding `k` values one after the other from the start of `data`.
pub open spec fn parse_all<T: Serializable>(data: Seq<u8>, k: nat) -> Result<
    (Seq<T::Output>, nat),
    CodecError,
>
    decreases k,
{
    if k == 0 {
        Ok((Seq::empty(), 0))
    } else {
        match T::spec_parse(data) {
            Ok((v, n)) => prepend(seq![v], n, parse_all::<T>(data.skip(n as int), (k - 1) as nat)),
            Err(e) => Err(e),
        }
    }
}

pub proof fn lemma_prepend_prepend<T>(
    a: Seq<T>,
    n: nat,
    b: Seq<T>,
    m: nat,
    r: Result<(Seq<T>, nat), CodecError>,
)
    ensures
        prepend(a, n, prepend(b, m, r)) == prepend(a + b, n + m, r),
{
    if let Ok((ws, k)) = r {
        assert(a + (b + ws) =~= (a + b) + ws);
    }
}

pub proof fn lemma_encode_all_push<T: Serializable>(s: Seq<T>, x: T)
    ensures
        encode_all(s.push(x)) == encode_all(s) + x.spec_encode(),
    decreases s.len(),
{
    if s.len() == 0 {
        assert(s.push(x).drop_first() =~= Seq::<T>::empty());
        assert(encode_all(s.push(x).drop_first()) == Seq::<u8>::empty());
        assert(s.push(x)[0] == x);
        assert(encode_all(s) == Seq::<u8>::empty());
        assert(encode_all(s.push(x)) =~= encode_all(s) + x.spec_encode());
    } else {
        assert(s.push(x).drop_first() =~= s.drop_first().push(x));
        lemma_encode_all_push(s.drop_first(), x);
        assert(encode_all(s.push(x)) =~= encode_all(s) + x.spec_encode());
    }
}

/// Decoding the encodings of a sequence of values gives the sequence back.
pub proof fn lemma_parse_all_encode<T: Serializable>(s: Seq<T>, rest: Seq<u8>)
    requires
        all_encodable(s),
    ensures
        parse_all::<T>(encode_all(s) + rest, s.len()) == Ok::<(Seq<T::Output>, nat), CodecError>(
            (decoded_all(s), encode_all(s).len()),
        ),
    decreases s.len(),
{
    if s.len() > 0 {
        let tail = s.drop_first();
        let e0 = s[0].spec_encode();
        assert(encode_all(s) + rest =~= e0 + (encode_all(tail) + rest));
        s[0].lemma_parse_encode(encode_all(tail) + rest);
        assert((e0 + (encode_all(tail) + rest)).skip(e0.len() as int) =~= encode_all(tail) + rest);
        assert(all_encodable(tail)) by {
            assert forall|i: int| 0 <= i < tail.len() implies #[trigger] tail[i].spec_encodable() by {
                assert(tail[i] == s[i + 1]);
            }
        }
        lemma_parse_all_encode(tail, rest);
        assert(seq![s[0].spec_decoded()] + decoded_all(tail) =~= decoded_all(s));
    } else {
        assert(Seq::<T::Output>::empty() =~= decoded_all(s));
    }
}

/// What decoding `k` values takes is exactly the encoding of values that
/// decode to what it gives; the result is such values.
pub proof fn lemma_parse_all_canonical<T: Serializable>(data: Seq<u8>, k: nat) -> (vs: Seq<T>)
    ensures
        parse_all::<T>(data, k) matches Ok((os, n)) ==> os.len() == k && n <= data.len()
            && encodes_all(vs, data.take(n as int), os),
    decreases k,
{
    if k == 0 {
        assert(decoded_all(Seq::<T>::empty()) =~= Seq::<T::Output>::empty());
        assert(data.take(0) =~= Seq::<u8>::empty());
        assert(encode_all(Seq::<T>::empty()) == Seq::<u8>::empty());
        Seq::empty()
    } else {
        T::lemma_parse_canonical(data);
        match T::spec_parse(data) {
            Ok((o, n)) => {
                let tail = data.skip(n as int);
                let ws = lemma_parse_all_canonical::<T>(tail, (k - 1) as nat);
                match parse_all::<T>(tail, (k - 1) as nat) {
                    Ok((os, m)) => {
                        let v = choose|v: T|
                            v.spec_encodable() && #[trigger] v.spec_encode() == data.take(n as int)
                                && v.spec_decoded() == o;
                        let vs = seq![v] + ws;
                        assert(vs.drop_first() =~= ws);
                        assert(all_encodable(vs)) by {
                            assert forall|i: int| 0 <= i < vs.len() implies #[trigger] vs[i].spec_encodable() by {
                                if i > 0 {
                                    assert(vs[i] == ws[i - 1]);
                                }
                            }
                        }
                        let total: nat = n + m;
                        assert(data.take(total as int) =~= data.take(n as int) + tail.take(m as int));
                        assert(decoded_all(vs) =~= seq![o] + os);
                        assert(vs[0] == v);
                        assert(encode_all(vs) =~= data.take(total as int));
                        assert(parse_all::<T>(data, k) == Ok::<(Seq<T::Output>, nat), CodecError>(
                            (seq![o] + os, total),
                        ));
                        vs
                    },
                    Err(_) => Seq::empty(),
                }
            },
            Err(_) => Seq::empty(),
        }
    }
}

/// Appends the bytes of `b`.
fn append_bytes(buf: &mut Vec<u8>, b: &[u8])
    ensures
        final(buf)@ == old(buf)@ + b@,
{
    let mut i: usize = 0;
    while i < b.len()
        invariant
            i <= b@.len(),
            buf@ == old(buf)@ + b@.take(i as int),
        decreases b@.len() - i,
    {
        buf.push(b[i]);
        i = i + 1;
        assert(buf@ =~= old(buf)@ + b@.take(i as int));
    }
    assert(b@.take(b@.len() as int) =~= b@);
}

/// Writes the `N` bytes of `arr` as they are, with no length before them.
pub fn write_byte_arr<const N: usize>(buf: &mut Vec<u8>, arr: &[u8; N]) -> (r: Result<
    (),
    CodecError,
>)
    ensures
        r is Ok,
        final(buf)@ == old(buf)@ + arr@,
{
    append_bytes(buf, arr.as_slice());
    Ok(())
}

/// Reads `N` bytes as they are.
pub fn read_byte_arr<const N: usize>(buf: &mut Cursor<'_>) -> (r: Result<[u8; N], CodecError>)
    requires
        old(buf).wf(),
    ensures
        final(buf).wf(),
        final(buf).data() == old(buf).data(),
        N <= old(buf).rest().len() ==> (r matches Ok(a) && a@ == old(buf).rest().take(N as int)
            && final(buf).pos() == old(buf).pos() + N),
        N > old(buf).rest().len() ==> r == Err::<[u8; N], CodecError>(CodecError::Underflow),
{
    let bytes = buf.read_bytes(N)?;
    let mut arr = [0u8; N];
    let mut i: usize = 0;
    while i < N
        invariant
            i <= N,
            bytes@.len() == N,
            forall|j: int| 0 <= j < i ==> arr[j] == bytes@[j],
        decreases N - i,
    {
        arr[i] = bytes[i];
        i = i + 1;
    }
    assert(arr@ =~= bytes@);
    Ok(arr)
}

/// Writes the items of `items` one after the other; on failure `buf` is
/// left as it was.
fn write_elems<T: Serializable>(buf: &mut Vec<u8>, items: &[T]) -> (r: Result<(), CodecError>)
    ensures
        r is Ok <==> all_encodable(items@),
        r is Ok ==> final(buf)@ == old(buf)@ + encode_all(items@),
        r is Err ==> final(buf)@ == old(buf)@,
{
    let start = buf.len();
    let mut i: usize = 0;
    while i < items.len()
        invariant
            i <= items@.len(),
            start == old(buf)@.len(),
            buf@ == old(buf)@ + encode_all(items@.take(i as int)),
            forall|j: int| 0 <= j < i ==> #[trigger] items@[j].spec_encodable(),
        decreases items@.len() - i,
    {
        match items[i].write(buf) {
            Ok(()) => {},
            Err(e) => {
                buf.truncate(start);
                assert(buf@ =~= old(buf)@);
                return Err(e);
            },
        }
        proof {
            lemma_encode_all_push(items@.take(i as int), items@[i as int]);
            assert(items@.take(i + 1) =~= items@.take(i as int).push(items@[i as int]));
        }
        i = i + 1;
    }
    assert(items@.take(i as int) =~= items@);
    Ok(())
}

/// Reads `k` values one after the other.
fn read_elems<T: Serializable>(buf: &mut Cursor<'_>, k: usize) -> (r: Result<
    Vec<T::Output>,
    CodecError,
>)
    requires
        old(buf).wf(),
    ensures
        read_seq_outcome(parse_all::<T>(old(buf).rest(), k as nat), r, *old(buf), *final(buf)),
{
    let ghost start = old(buf).rest();
    let ghost p0 = old(buf).pos();
    let mut out: Vec<T::Output> = Vec::new();
    let mut i: usize = 0;
    while i < k
        invariant
            i <= k,
            buf.wf(),
            buf.data() == old(buf).data(),
            p0 <= buf.pos(),
            start == old(buf).rest(),
            p0 == old(buf).pos(),
            parse_all::<T>(start, k as nat) == prepend(
                out@,
                (buf.pos() - p0) as nat,
                parse_all::<T>(buf.rest(), (k - i) as nat),
            ),
        decreases k - i,
    {
        let ghost before = *buf;
        let v = match T::read(buf) {
            Ok(v) => v,
            Err(e) => {
                assert(parse_all::<T>(before.rest(), (k - i) as nat) == Err::<(Seq<T::Output>, nat), CodecError>(e));
                return Err(e);
            },
        };
        proof {
            if let Ok((w, n)) = T::spec_parse(before.rest()) {
                assert(buf.rest() =~= before.rest().skip(n as int));
                lemma_prepend_prepend(
                    out@,
                    (before.pos() - p0) as nat,
                    seq![w],
                    n,
                    parse_all::<T>(buf.rest(), (k - i - 1) as nat),
                );
                assert(out@ + seq![w] =~= out@.push(w));
            }
        }
        out.push(v);
        i = i + 1;
    }
    assert(out@ + Seq::<T::Output>::empty() =~= out@);
    Ok(out)
}

/// Writes the `N` items of `arr` one after the other, with no count before
/// them; on failure `buf` is left as it was.
pub fn write_arr<T: Serializable, const N: usize>(buf: &mut Vec<u8>, arr: &[T; N]) -> (r: Result<
    (),
    CodecError,
>)
    ensures
        r is Ok <==> all_encodable(arr@),
        r is Ok ==> final(buf)@ == old(buf)@ + encode_all(arr@),
        r is Err ==> final(buf)@ == old(buf)@,
{
    write_elems(buf, arr.as_slice())
}

/// Reads `N` values one after the other.
pub fn read_arr<T: Serializable<Output = T> + Copy + Default, const N: usize>(buf: &mut Cursor<'_>) -> (r:
    Result<[T; N], CodecError>)
    requires
        old(buf).wf(),
    ensures
        final(buf).wf(),
        final(buf).data() == old(buf).data(),
        match parse_all::<T>(old(buf).rest(), N as nat) {
            Ok((vs, n)) => r matches Ok(a) && a@ == vs && final(buf).pos() == old(buf).pos() + n,
            Err(e) => r == Err::<[T; N], CodecError>(e),
        },
{
    let items = read_elems::<T>(buf, N)?;
    proof {
        lemma_parse_all_canonical::<T>(old(buf).rest(), N as nat);
    }
    let mut arr = [T::default(); N];
    let mut i: usize = 0;
    while i < N
        invariant
            i <= N,
            items@.len() == N,
            forall|j: int| 0 <= j < i ==> arr[j] == items@[j],
        decreases N - i,
    {
        arr[i] = items[i];
        i = i + 1;
    }
    assert(arr@ =~= items@);
    Ok(arr)
}

/// The encoding of a byte vector: its length in two bytes, then the bytes.
pub open spec fn encode_byte_vec(b: Seq<u8>) -> Seq<u8> {
    be16_bytes(b.len() as u16) + b
}

/// Decoding a byte vector at the start of `data`.
pub open spec fn parse_byte_vec(data: Seq<u8>) -> Result<(Seq<u8>, nat), CodecError> {
    if data.len() < 2 {
        Err(CodecError::Underflow)
    } else {
        let len = be16_value(data.take(2)) as int;
        if data.len() < 2 + len {
            Err(CodecError::Underflow)
        } else {
            Ok((data.subrange(2, 2 + len), (2 + len) as nat))
        }
    }
}

/// Writes a two-byte length and then the bytes of `b`; more than 65535
/// bytes fail with `MalformedLength` and write nothing.
fn write_len16_bytes(buf: &mut Vec<u8>, b: &[u8]) -> (r: Result<(), CodecError>)
    ensures
        b@.len() <= 0xffff ==> r is Ok && final(buf)@ == old(buf)@ + encode_byte_vec(b@),
        b@.len() > 0xffff ==> r == Err::<(), CodecError>(CodecError::MalformedLength)
            && final(buf)@ == old(buf)@,
{
    if b.len() > 0xffff {
        return Err(CodecError::MalformedLength);
    }
    let len = u16_to_be(b.len() as u16);
    append_bytes(buf, len.as_slice());
    append_bytes(buf, b);
    assert(final(buf)@ =~= old(buf)@ + encode_byte_vec(b@));
    Ok(())
}

/// Writes a two-byte big-endian length and then the bytes of `vec`; a
/// vector longer than 65535 bytes fails with `MalformedLength` and writes
/// nothing.
pub fn write_byte_vec(buf: &mut Vec<u8>, vec: &Vec<u8>) -> (r: Result<(), CodecError>)
    ensures
        vec@.len() <= 0xffff ==> r is Ok && final(buf)@ == old(buf)@ + encode_byte_vec(vec@),
        vec@.len() > 0xffff ==> r == Err::<(), CodecError>(CodecError::MalformedLength)
            && final(buf)@ == old(buf)@,
{
    write_len16_bytes(buf, vec.as_slice())
}

/// Reads a two-byte big-endian length and then that many bytes.
pub fn read_byte_vec(buf: &mut Cursor<'_>) -> (r: Result<Vec<u8>, CodecError>)
    requires
        old(buf).wf(),
    ensures
        read_seq_outcome(parse_byte_vec(old(buf).rest()), r, *old(buf), *final(buf)),
{
    let len = buf.read_u16()?;
    let ghost mid = *buf;
    let bytes = buf.read_bytes(len as usize)?;
    proof {
        assert(mid.rest() =~= old(buf).rest().skip(2));
        assert(bytes@ =~= old(buf).rest().subrange(2, 2 + len));
    }
    Ok(bytes)
}

/// The encoding of a vector of values: the count in four bytes, then the
/// values one after the other.
pub open spec fn encode_vec<T: Serializable>(s: Seq<T>) -> Seq<u8> {
    be32_bytes(s.len() as u32) + encode_all(s)
}

/// Decoding a vector of values at the start of `data`.
pub open spec fn parse_vec<T: Serializable>(data: Seq<u8>) -> Result<
    (Seq<T::Output>, nat),
    CodecError,
> {
    if data.len() < 4 {
        Err(CodecError::Underflow)
    } else {
        prepend(Seq::empty(), 4, parse_all::<T>(data.skip(4), be32_value(data.take(4)) as nat))
    }
}

/// Writes a four-byte big-endian count and then each value; on failure
/// `buf` is left as it was, and a count over `u32::MAX` fails with
/// `MalformedLength`.
pub fn write_vec<T: Serializable>(buf: &mut Vec<u8>, vec: &Vec<T>) -> (r: Result<(), CodecError>)
    ensures
        r is Ok <==> vec@.len() <= u32::MAX && all_encodable(vec@),
        r is Ok ==> final(buf)@ == old(buf)@ + encode_vec(vec@),
        r is Err ==> final(buf)@ == old(buf)@,
        vec@.len() > u32::MAX ==> r == Err::<(), CodecError>(CodecError::MalformedLength),
{
    if vec.len() > 0xffff_ffff {
        return Err(CodecError::MalformedLength);
    }
    let start = buf.len();
    let count = u32_to_be(vec.len() as u32);
    append_bytes(buf, count.as_slice());
    match write_elems(buf, vec.as_slice()) {
        Ok(()) => {},
        Err(e) => {
            buf.truncate(start);
            assert(buf@ =~= old(buf)@);
            return Err(e);
        },
    }
    assert(final(buf)@ =~= old(buf)@ + encode_vec(vec@));
    Ok(())
}

/// Reads a four-byte big-endian count and then that many values. Nothing
/// is reserved ahead for the count: the vector grows only with values that
/// were decoded, so a count larger than the input fails with the error of
/// the value that runs out of bytes.
pub fn read_vec<T: Serializable<Output = T>>(buf: &mut Cursor<'_>) -> (r: Result<Vec<T>, CodecError>)
    requires
        old(buf).wf(),
    ensures
        read_seq_outcome(parse_vec::<T>(old(buf).rest()), r, *old(buf), *final(buf)),
{
    let count = buf.read_u32()?;
    let ghost mid = *buf;
    let r = read_elems::<T>(buf, count as usize);
    proof {
        assert(mid.rest() =~= old(buf).rest().skip(4));
        if let Ok((vs, n)) = parse_all::<T>(mid.rest(), count as nat) {
            assert(Seq::<T>::empty() + vs =~= vs);
        }
    }
    r
}

/// The text that `b` encodes in UTF-8, if it is UTF-8.
#[verifier::opaque]
pub open spec fn utf8_text(b: Seq<u8>) -> Option<Seq<char>> {
    if valid_utf8(b) {
        Some(decode_utf8(b))
    } else {
        None
    }
}

/// The UTF-8 bytes of a text are UTF-8, and encode that text.
pub proof fn lemma_utf8_text_encode(s: Seq<char>)
    ensures
        utf8_text(encode_utf8(s)) == Some(s),
{
    reveal(utf8_text);
    encode_utf8_valid_utf8(s);
    encode_utf8_decode_utf8(s);
}

/// Bytes that are UTF-8 are the UTF-8 bytes of the text they encode.
pub proof fn lemma_utf8_text_canonical(b: Seq<u8>)
    ensures
        utf8_text(b) matches Some(s) ==> encode_utf8(s) == b,
{
    reveal(utf8_text);
    if valid_utf8(b) {
        decode_utf8_encode_utf8(b);
    }
}

/// The encoding of a text: the byte-vector encoding of its UTF-8 bytes.
pub open spec fn encode_string(s: Seq<char>) -> Seq<u8> {
    encode_byte_vec(encode_utf8(s))
}

/// Decoding a text at the start of `data`: a byte vector that must be
/// UTF-8.
pub open spec fn parse_string(data: Seq<u8>) -> Result<(Seq<char>, nat), CodecError> {
    match parse_byte_vec(data) {
        Ok((b, n)) => match utf8_text(b) {
            Some(cs) => Ok((cs, n)),
            None => Err(CodecError::InvalidEncoding),
        },
        Err(e) => Err(e),
    }
}

/// Relies on `String::from_utf8`: it fails exactly on bytes that are not
/// UTF-8, and otherwise holds the text those bytes encode.
#[verifier::external_body]
fn string_from_utf8(b: Vec<u8>) -> (r: Option<String>)
    ensures
        r is Some <==> valid_utf8(b@),
        r matches Some(s) ==> s@ == decode_utf8(b@),
{
    String::from_utf8(b).ok()
}

/// Writes the UTF-8 bytes of `str` as a byte vector; text of more than
/// 65535 bytes fails with `MalformedLength` and writes nothing.
pub fn write_string(buf: &mut Vec<u8>, str: &str) -> (r: Result<(), CodecError>)
    ensures
        encode_utf8(str@).len() <= 0xffff ==> r is Ok && final(buf)@ == old(buf)@
            + encode_string(str@),
        encode_utf8(str@).len() > 0xffff ==> r == Err::<(), CodecError>(
            CodecError::MalformedLength,
        ) && final(buf)@ == old(buf)@,
{
    write_len16_bytes(buf, str.as_bytes())
}

/// Reads a byte vector and takes it as UTF-8 text; bytes that are not
/// UTF-8 fail with `InvalidEncoding`.
pub fn read_string(buf: &mut Cursor<'_>) -> (r: Result<String, CodecError>)
    requires
        old(buf).wf(),
    ensures
        final(buf).wf(),
        final(buf).data() == old(buf).data(),
        match parse_string(old(buf).rest()) {
            Ok((cs, n)) => r matches Ok(s) && s@ == cs && final(buf).pos() == old(buf).pos() + n,
            Err(e) => r == Err::<String, CodecError>(e),
        },
{
    proof {
        reveal(utf8_text);
    }
    let bytes = read_byte_vec(buf)?;
    match string_from_utf8(bytes) {
        Some(s) => Ok(s),
        None => Err(CodecError::InvalidEncoding),
    }
}

impl Serializable for u8 {
    type Output = u8;

    open spec fn spec_decoded(&self) -> u8 {
        *self
    }

    open spec fn spec_encode(&self) -> Seq<u8> {
        seq![*self]
    }

    open spec fn spec_encodable(&self) -> bool {
        true
    }

    open spec fn spec_parse(data: Seq<u8>) -> Result<(u8, nat), CodecError> {
        if data.len() < 1 {
            Err(CodecError::Underflow)
        } else {
            Ok((data[0], 1))
        }
    }

    proof fn lemma_parse_encode(&self, rest: Seq<u8>) {
        assert((seq![*self] + rest)[0] == *self);
    }

    proof fn lemma_parse_canonical(data: Seq<u8>) {
        if data.len() >= 1 {
            assert(data.take(1) =~= seq![data[0]]);
            assert(data[0].spec_encode() == data.take(1));
        }
    }

    fn write(&self, buf: &mut Vec<u8>) -> (r: Result<(), CodecError>) {
        buf.push(*self);
        Ok(())
    }

    fn read(buf: &mut Cursor<'_>) -> (r: Result<u8, CodecError>) {
        buf.read_u8()
    }

    fn size(&self) -> (r: usize) {
        1
    }
}

impl Serializable for u16 {
    type Output = u16;

    open spec fn spec_decoded(&self) -> u16 {
        *self
    }

    open spec fn spec_encode(&self) -> Seq<u8> {
        be16_bytes(*self)
    }

    open spec fn spec_encodable(&self) -> bool {
        true
    }

    open spec fn spec_parse(data: Seq<u8>) -> Result<(u16, nat), CodecError> {
        if data.len() < 2 {
            Err(CodecError::Underflow)
        } else {
            Ok((be16_value(data.take(2)), 2))
        }
    }

    proof fn lemma_parse_encode(&self, rest: Seq<u8>) {
        assert((be16_bytes(*self) + rest).take(2) =~= be16_bytes(*self));
        lemma_be16_value_bytes(*self);
    }

    proof fn lemma_parse_canonical(data: Seq<u8>) {
        if data.len() >= 2 {
            lemma_be16_bytes_value(data.take(2));
            let v = be16_value(data.take(2));
            assert(v.spec_encode() == data.take(2));
        }
    }

    fn write(&self, buf: &mut Vec<u8>) -> (r: Result<(), CodecError>) {
        let b = u16_to_be(*self);
        append_bytes(buf, b.as_slice());
        Ok(())
    }

    fn read(buf: &mut Cursor<'_>) -> (r: Result<u16, CodecError>) {
        buf.read_u16()
    }

    fn size(&self) -> (r: usize) {
        2
    }
}

impl Serializable for u32 {
    type Output = u32;

    open spec fn spec_decoded(&self) -> u32 {
        *self
    }

    open spec fn spec_encode(&self) -> Seq<u8> {
        be32_bytes(*self)
    }

    open spec fn spec_encodable(&self) -> bool {
        true
    }

    open spec fn spec_parse(data: Seq<u8>) -> Result<(u32, nat), CodecError> {
        if data.len() < 4 {
            Err(CodecError::Underflow)
        } else {
            Ok((be32_value(data.take(4)), 4))
        }
    }

    proof fn lemma_parse_encode(&self, rest: Seq<u8>) {
        assert((be32_bytes(*self) + rest).take(4) =~= be32_bytes(*self));
        lemma_be32_value_bytes(*self);
    }

    proof fn lemma_parse_canonical(data: Seq<u8>) {
        if data.len() >= 4 {
            lemma_be32_bytes_value(data.take(4));
            let v = be32_value(data.take(4));
            assert(v.spec_encode() == data.take(4));
        }
    }

    fn write(&self, buf: &mut Vec<u8>) -> (r: Result<(), CodecError>) {
        let b = u32_to_be(*self);
        append_bytes(buf, b.as_slice());
        Ok(())
    }

    fn read(buf: &mut Cursor<'_>) -> (r: Result<u32, CodecError>) {
        buf.read_u32()
    }

    fn size(&self) -> (r: usize) {
        4
    }
}

/// What deserializing `data` gives: the value decoded at its start, or why
/// there is none. Bytes after the value are not looked at.
pub open spec fn spec_deserialize<T: Serializable>(data: Seq<u8>) -> Result<T::Output, CodecError> {
    match T::spec_parse(data) {
        Ok((v, n)) => Ok(v),
        Err(e) => Err(e),
    }
}

/// Whole-value entry points over the codec capability, with no framing of
/// their own.
pub trait Serializer: Serializable {
    /// The encoding of `self` in a fresh buffer.
    fn serialize(&self) -> (r: Result<Vec<u8>, CodecError>)
        ensures
            r is Ok <==> self.spec_encodable(),
            r matches Ok(b) ==> b@ == self.spec_encode(),
    {
        let mut buf: Vec<u8> = Vec::new();
        self.write(&mut buf)?;
        assert(buf@ =~= self.spec_encode());
        Ok(buf)
    }

    /// The value encoded at the start of `buf`.
    fn deserialize(buf: &[u8]) -> (r: Result<Self::Output, CodecError>)
        ensures
            r == spec_deserialize::<Self>(buf@),
    {
        let mut cursor = Cursor::new(buf);
        assert(cursor.rest() =~= buf@);
        Self::read(&mut cursor)
    }
}

impl Serializer for u8 {}

impl Serializer for u16 {}

impl Serializer for u32 {}

} // verus!
