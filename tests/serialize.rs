use wirecodec::cursor::Cursor;
use wirecodec::error::CodecError;
use wirecodec::net::{get_sock_addr_size, read_sock_addr, write_sock_addr, SocketAddress};
use wirecodec::serialize::{
    read_arr, read_byte_arr, read_byte_vec, read_string, read_vec, write_arr, write_byte_arr,
    write_byte_vec, write_string, write_vec, Serializable, Serializer,
};

#[test]
fn serialize_bytes() {
    let bytes = [0u8, 1, 3, 5, 7, 11];
    let mut buf = vec![];
    assert!(write_byte_arr(&mut buf, &bytes).is_ok());
}

#[test]
fn serialize_deserialize() {
    let text = "Hello world.";
    let mut buf = vec![];
    assert!(write_string(&mut buf, text).is_ok());

    let mut cursor = Cursor::new(buf.as_slice());
    let new_text = read_string(&mut cursor).unwrap();
    assert_eq!(text, new_text);
}

#[test]
fn byte_arr_written_as_is_and_read_back() {
    let mut buf = vec![9u8];
    write_byte_arr(&mut buf, &[0u8, 1, 3, 5, 7, 11]).unwrap();
    assert_eq!(buf, vec![9, 0, 1, 3, 5, 7, 11]);
    let mut cursor = Cursor::new(&buf[1..]);
    let arr: [u8; 6] = read_byte_arr(&mut cursor).unwrap();
    assert_eq!(arr, [0, 1, 3, 5, 7, 11]);
    assert_eq!(cursor.position(), 6);
    assert_eq!(cursor.remaining(), 0);
}

#[test]
fn byte_arr_underflow() {
    let data = [1u8, 2, 3];
    let mut cursor = Cursor::new(&data);
    let r: Result<[u8; 4], CodecError> = read_byte_arr(&mut cursor);
    assert_eq!(r, Err(CodecError::Underflow));
}

#[test]
fn typed_arr_round_trip() {
    let mut buf = vec![];
    write_arr(&mut buf, &[0x0102u16, 0xfffe, 7]).unwrap();
    assert_eq!(buf, vec![0x01, 0x02, 0xff, 0xfe, 0x00, 0x07]);
    let mut cursor = Cursor::new(buf.as_slice());
    let arr: [u16; 3] = read_arr(&mut cursor).unwrap();
    assert_eq!(arr, [0x0102, 0xfffe, 7]);
}

#[test]
fn typed_arr_underflow() {
    let data = [0u8, 1, 0];
    let mut cursor = Cursor::new(&data);
    let r: Result<[u16; 2], CodecError> = read_arr(&mut cursor);
    assert_eq!(r, Err(CodecError::Underflow));
}

#[test]
fn byte_vec_length_prefix() {
    let mut buf = vec![];
    write_byte_vec(&mut buf, &vec![0xaa, 0xbb, 0xcc]).unwrap();
    assert_eq!(buf, vec![0x00, 0x03, 0xaa, 0xbb, 0xcc]);
    let mut cursor = Cursor::new(buf.as_slice());
    assert_eq!(read_byte_vec(&mut cursor).unwrap(), vec![0xaa, 0xbb, 0xcc]);
}

#[test]
fn byte_vec_largest_round_trips() {
    let v: Vec<u8> = (0..65535u32).map(|i| (i % 251) as u8).collect();
    let mut buf = vec![];
    write_byte_vec(&mut buf, &v).unwrap();
    assert_eq!(buf.len(), 65537);
    assert_eq!(&buf[..2], &[0xff, 0xff]);
    let mut cursor = Cursor::new(buf.as_slice());
    assert_eq!(read_byte_vec(&mut cursor).unwrap(), v);
}

#[test]
fn byte_vec_one_byte_short_underflows() {
    let mut data = vec![0xffu8, 0xff];
    data.extend(std::iter::repeat(7u8).take(65534));
    let mut cursor = Cursor::new(data.as_slice());
    assert_eq!(read_byte_vec(&mut cursor), Err(CodecError::Underflow));
}

#[test]
fn byte_vec_too_long_is_refused() {
    let v = vec![0u8; 65536];
    let mut buf = vec![1u8];
    assert_eq!(write_byte_vec(&mut buf, &v), Err(CodecError::MalformedLength));
    assert_eq!(buf, vec![1u8]);
}

#[test]
fn byte_vec_missing_length_underflows() {
    let data = [0u8];
    let mut cursor = Cursor::new(&data);
    assert_eq!(read_byte_vec(&mut cursor), Err(CodecError::Underflow));
}

#[test]
fn vec_count_prefix_and_round_trip() {
    let v: Vec<u16> = vec![1, 0x0203];
    let mut buf = vec![];
    write_vec(&mut buf, &v).unwrap();
    assert_eq!(buf, vec![0, 0, 0, 2, 0, 1, 2, 3]);
    let mut cursor = Cursor::new(buf.as_slice());
    let back: Vec<u16> = read_vec(&mut cursor).unwrap();
    assert_eq!(back, v);
}

#[test]
fn vec_count_beyond_input_underflows() {
    let data = [0u8, 0, 0x03, 0xe8, 1, 2, 3];
    let mut cursor = Cursor::new(&data);
    let r: Result<Vec<u32>, CodecError> = read_vec(&mut cursor);
    assert_eq!(r, Err(CodecError::Underflow));

    let data = [0xffu8, 0xff, 0xff, 0xff];
    let mut cursor = Cursor::new(&data);
    let r: Result<Vec<u8>, CodecError> = read_vec(&mut cursor);
    assert_eq!(r, Err(CodecError::Underflow));
}

#[test]
fn string_exact_bytes() {
    let mut buf = vec![];
    write_string(&mut buf, "Hello world.").unwrap();
    let mut expected = vec![0x00u8, 0x0c];
    expected.extend_from_slice(b"Hello world.");
    assert_eq!(buf.len(), 14);
    assert_eq!(buf, expected);
    let mut cursor = Cursor::new(buf.as_slice());
    assert_eq!(read_string(&mut cursor).unwrap(), "Hello world.");
}

#[test]
fn string_multibyte_round_trip() {
    let mut buf = vec![];
    write_string(&mut buf, "héllo ✓").unwrap();
    assert_eq!(&buf[..2], &[0x00, 10]);
    let mut cursor = Cursor::new(buf.as_slice());
    assert_eq!(read_string(&mut cursor).unwrap(), "héllo ✓");
}

#[test]
fn string_invalid_utf8_fails() {
    let data = [0x00u8, 0x01, 0xff];
    let mut cursor = Cursor::new(&data);
    assert_eq!(read_string(&mut cursor), Err(CodecError::InvalidEncoding));
}

#[test]
fn string_too_long_is_refused() {
    let s = "a".repeat(65536);
    let mut buf = vec![];
    assert_eq!(write_string(&mut buf, &s), Err(CodecError::MalformedLength));
    assert!(buf.is_empty());
}

#[test]
fn sock_addr_v4_exact_bytes() {
    let addr = SocketAddress::V4 { ip: [127, 0, 0, 1], port: 8080 };
    let mut buf = vec![];
    write_sock_addr(&mut buf, &addr).unwrap();
    assert_eq!(buf, vec![0x00, 127, 0, 0, 1, 0x1f, 0x90]);
    assert_eq!(get_sock_addr_size(&addr), 7);
    assert_eq!(addr.size(), buf.len());
    let mut cursor = Cursor::new(buf.as_slice());
    assert_eq!(read_sock_addr(&mut cursor).unwrap(), addr);
}

#[test]
fn sock_addr_v6_round_trip() {
    let mut ip = [0u8; 16];
    ip[15] = 1;
    ip[0] = 0xfe;
    let addr = SocketAddress::V6 { ip, port: 443 };
    let bytes = addr.serialize().unwrap();
    assert_eq!(bytes.len(), 19);
    assert_eq!(get_sock_addr_size(&addr), 19);
    assert_eq!(bytes[0], 1);
    assert_eq!(&bytes[17..], &[0x01, 0xbb]);
    assert_eq!(SocketAddress::deserialize(&bytes).unwrap(), addr);
}

#[test]
fn sock_addr_unknown_family_fails() {
    let data = [2u8, 127, 0, 0, 1, 0x1f, 0x90];
    let mut cursor = Cursor::new(&data);
    assert_eq!(read_sock_addr(&mut cursor), Err(CodecError::InvalidEncoding));
    assert_eq!(SocketAddress::deserialize(&[2u8]), Err(CodecError::InvalidEncoding));
}

#[test]
fn sock_addr_truncated_underflows() {
    assert_eq!(SocketAddress::deserialize(&[0u8, 127, 0, 0, 1, 0x1f]), Err(CodecError::Underflow));
    assert_eq!(SocketAddress::deserialize(&[]), Err(CodecError::Underflow));
}

#[test]
fn integers_big_endian() {
    assert_eq!(0x1234u16.serialize().unwrap(), vec![0x12, 0x34]);
    assert_eq!(0x0102_0304u32.serialize().unwrap(), vec![1, 2, 3, 4]);
    assert_eq!(u32::deserialize(&[1, 2, 3, 4]).unwrap(), 0x0102_0304);
    assert_eq!(u16::deserialize(&[0xab, 0xcd, 0xef]).unwrap(), 0xabcd);
    assert_eq!(u16::deserialize(&[0xab]), Err(CodecError::Underflow));
    assert_eq!(0x1234u16.size(), 2);
    assert_eq!(7u8.serialize().unwrap(), vec![7]);
}

#[test]
fn round_trip_and_size_agreement() {
    for v in [0u32, 1, 0xdead_beef, u32::MAX] {
        let bytes = v.serialize().unwrap();
        assert_eq!(bytes.len(), v.size());
        assert_eq!(u32::deserialize(&bytes).unwrap(), v);
    }
    let addr = SocketAddress::V4 { ip: [10, 0, 0, 2], port: 65535 };
    let bytes = addr.serialize().unwrap();
    assert_eq!(bytes.len(), addr.size());
    assert_eq!(SocketAddress::deserialize(&bytes).unwrap(), addr);
}

#[test]
fn reserialize_reproduces_encoding() {
    let data = [0u8, 192, 168, 1, 20, 0x00, 0x50];
    let addr = SocketAddress::deserialize(&data).unwrap();
    assert_eq!(addr.serialize().unwrap(), data.to_vec());
    let data = [0xffu8, 0x00, 0x00, 0x01];
    assert_eq!(u32::deserialize(&data).unwrap().serialize().unwrap(), data.to_vec());
}

#[test]
fn cursor_reads_in_order() {
    let mut buf = vec![];
    write_string(&mut buf, "ab").unwrap();
    0x0506u16.write(&mut buf).unwrap();
    let mut cursor = Cursor::new(buf.as_slice());
    assert_eq!(read_string(&mut cursor).unwrap(), "ab");
    assert_eq!(u16::read(&mut cursor).unwrap(), 0x0506);
    assert_eq!(cursor.remaining(), 0);
    assert_eq!(u8::read(&mut cursor), Err(CodecError::Underflow));
}
