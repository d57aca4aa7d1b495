use kafka_core::codec::{
    get_compact_bytes, get_compact_count, get_compact_i32_array, get_compact_u128_array, get_i16,
    get_i32, get_i64, get_nullable_compact_bytes, get_u128, put_compact_bytes, put_compact_count,
    put_compact_i32_array, put_compact_u128_array, put_i16, put_i32, put_i64, put_u128,
    unsigned_varint_decode, unsigned_varint_encode, varint_decode, varint_encode,
};

fn expected_len(u: u32) -> usize {
    if u == 0 {
        1
    } else {
        let bits = 32 - u.leading_zeros() as usize;
        (bits + 6) / 7
    }
}

#[test]
fn unsigned_varint_round_trip() {
    for u in [0u32, 1, 127, 128, 300, 16383, 16384, 2097151, 2097152, 268435455, 268435456, u32::MAX] {
        let e = unsigned_varint_encode(u);
        assert_eq!(e.len(), expected_len(u), "length of {u}");
        assert_eq!(unsigned_varint_decode(&e, 0), Some((u, e.len())));
    }
}

#[test]
fn unsigned_varint_known_bytes() {
    assert_eq!(unsigned_varint_encode(0), vec![0x00]);
    assert_eq!(unsigned_varint_encode(300), vec![0xac, 0x02]);
    assert_eq!(unsigned_varint_encode(u32::MAX), vec![0xff, 0xff, 0xff, 0xff, 0x0f]);
}

#[test]
fn unsigned_varint_decode_edges() {
    assert_eq!(unsigned_varint_decode(&[], 0), None);
    assert_eq!(unsigned_varint_decode(&[0x80], 0), None);
    assert_eq!(unsigned_varint_decode(&[0x80, 0x00], 0), Some((0, 2)));
    assert_eq!(unsigned_varint_decode(&[0x05, 0xac, 0x02], 1), Some((300, 3)));
    // more than 32 bits
    assert_eq!(unsigned_varint_decode(&[0xff, 0xff, 0xff, 0xff, 0x10], 0), None);
    // six bytes
    assert_eq!(unsigned_varint_decode(&[0x80, 0x80, 0x80, 0x80, 0x80, 0x00], 0), None);
}

#[test]
fn signed_varint_round_trip() {
    for i in [0i32, -1, 1, -2, 2, 63, -64, 64, 1000, -1000, i32::MAX, i32::MIN] {
        let e = varint_encode(i);
        let (v, p) = varint_decode(&e, 0).unwrap();
        assert_eq!(v, i);
        assert_eq!(p, e.len());
    }
    assert_eq!(varint_encode(0), vec![0x00]);
    assert_eq!(varint_encode(-1), vec![0x01]);
    assert_eq!(varint_encode(1), vec![0x02]);
    assert_eq!(varint_encode(-2), vec![0x03]);
    assert_eq!(varint_encode(i32::MIN), vec![0xff, 0xff, 0xff, 0xff, 0x0f]);
}

#[test]
fn fixed_width_big_endian() {
    let mut b = Vec::new();
    put_i16(&mut b, -2);
    put_i32(&mut b, 0x01020304);
    put_i64(&mut b, -1);
    put_u128(&mut b, 0x0102);
    assert_eq!(&b[0..2], &[0xff, 0xfe]);
    assert_eq!(&b[2..6], &[1, 2, 3, 4]);
    assert_eq!(&b[6..14], &[0xff; 8]);
    assert_eq!(&b[14..28], &[0; 14]);
    assert_eq!(&b[28..30], &[1, 2]);
    assert_eq!(get_i16(&b, 0), Some((-2, 2)));
    assert_eq!(get_i32(&b, 2), Some((0x01020304, 6)));
    assert_eq!(get_i64(&b, 6), Some((-1, 14)));
    assert_eq!(get_u128(&b, 14), Some((0x0102, 30)));
    assert_eq!(get_i32(&b, 27), None);
}

#[test]
fn compact_count_prefix() {
    let mut b = Vec::new();
    put_compact_count(&mut b, 0);
    put_compact_count(&mut b, 200);
    assert_eq!(b, vec![0x01, 0xc9, 0x01]);
    assert_eq!(get_compact_count(&b, 0), Some((0, 1)));
    assert_eq!(get_compact_count(&b, 1), Some((200, 3)));
    // null and padded counts are refused
    assert_eq!(get_compact_count(&[0x00], 0), None);
    assert_eq!(get_compact_count(&[0x81, 0x00], 0), None);
}

#[test]
fn compact_bytes_round_trip() {
    let mut b = Vec::new();
    put_compact_bytes(&mut b, b"foo");
    assert_eq!(b, vec![0x04, b'f', b'o', b'o']);
    assert_eq!(get_compact_bytes(&b, 0), Some((b"foo".to_vec(), 4)));
    assert_eq!(get_compact_bytes(&b[..3], 0), None);
    assert_eq!(get_nullable_compact_bytes(&[0x00], 0), Some((None, 1)));
    assert_eq!(get_nullable_compact_bytes(&b, 0), Some((Some(b"foo".to_vec()), 4)));
    let mut e = Vec::new();
    put_compact_bytes(&mut e, b"");
    assert_eq!(e, vec![0x01]);
    assert_eq!(get_nullable_compact_bytes(&e, 0), Some((Some(Vec::new()), 1)));
}

#[test]
fn compact_array_round_trip() {
    for xs in [vec![], vec![7i32], vec![1, -1, i32::MAX, i32::MIN]] {
        let mut b = Vec::new();
        put_compact_i32_array(&mut b, &xs);
        assert_eq!(b.len(), 1 + 4 * xs.len());
        b.push(0xaa);
        assert_eq!(get_compact_i32_array(&b, 0), Some((xs.clone(), b.len() - 1)));
    }
    let ys = vec![0u128, u128::MAX, 42];
    let mut b = Vec::new();
    put_compact_u128_array(&mut b, &ys);
    assert_eq!(get_compact_u128_array(&b, 0), Some((ys, b.len())));
    assert_eq!(get_compact_i32_array(&[0x02, 0, 0], 0), None);
}
