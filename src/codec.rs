//! Big-endian fixed-width integers, varints and compact (length + 1) fields.
use vstd::prelude::*;

verus! {

// ---------------------------------------------------------------------------
// Fixed-width big-endian integers
// ---------------------------------------------------------------------------

pub open spec fn u16_bytes(v: u16) -> Seq<u8> {
    seq![(v >> 8u16) as u8, v as u8]
}

pub open spec fn u32_bytes(v: u32) -> Seq<u8> {
    seq![(v >> 24u32) as u8, (v >> 16u32) as u8, (v >> 8u32) as u8, v as u8]
}

pub open spec fn u64_bytes(v: u64) -> Seq<u8> {
    u32_bytes((v >> 32u64) as u32) + u32_bytes(v as u32)
}

pub open spec fn u128_bytes(v: u128) -> Seq<u8> {
    u64_bytes((v >> 64u128) as u64) + u64_bytes(v as u64)
}

pub open spec fn i8_bytes(v: i8) -> Seq<u8> {
    seq![v as u8]
}

pub open spec fn i16_bytes(v: i16) -> Seq<u8> {
    u16_bytes(v as u16)
}

pub open spec fn i32_bytes(v: i32) -> Seq<u8> {
    u32_bytes(v as u32)
}

pub open spec fn i64_bytes(v: i64) -> Seq<u8> {
    u64_bytes(v as u64)
}

/// The bytes of `b` from `pos` on, `n` of them.
pub open spec fn window(b: Seq<u8>, pos: int, n: int) -> Seq<u8> {
    b.subrange(pos, pos + n)
}

proof fn lemma_u16_pair(a: u8, c: u8, v: u16)
    requires
        v == (((a as u16) << 8u16) | (c as u16)),
    ensures
        (v >> 8u16) as u8 == a,
        v as u8 == c,
{
    assert((v >> 8u16) as u8 == a && v as u8 == c) by (bit_vector)
        requires
            v == (((a as u16) << 8u16) | (c as u16)),
    ;
}

proof fn lemma_u32_quad(a: u8, c: u8, d: u8, e: u8, v: u32)
    requires
        v == (((a as u32) << 24u32) | ((c as u32) << 16u32) | ((d as u32) << 8u32) | (e as u32)),
    ensures
        (v >> 24u32) as u8 == a,
        (v >> 16u32) as u8 == c,
        (v >> 8u32) as u8 == d,
        v as u8 == e,
{
    assert((v >> 24u32) as u8 == a && (v >> 16u32) as u8 == c && (v >> 8u32) as u8 == d
        && v as u8 == e) by (bit_vector)
        requires
            v == (((a as u32) << 24u32) | ((c as u32) << 16u32) | ((d as u32) << 8u32) | (
            e as u32)),
    ;
}

proof fn lemma_u64_halves(h: u32, l: u32, v: u64)
    requires
        v == (((h as u64) << 32u64) | (l as u64)),
    ensures
        (v >> 32u64) as u32 == h,
        v as u32 == l,
{
    assert((v >> 32u64) as u32 == h && v as u32 == l) by (bit_vector)
        requires
            v == (((h as u64) << 32u64) | (l as u64)),
    ;
}

proof fn lemma_u128_halves(h: u64, l: u64, v: u128)
    requires
        v == (((h as u128) << 64u128) | (l as u128)),
    ensures
        (v >> 64u128) as u64 == h,
        v as u64 == l,
{
    assert((v >> 64u128) as u64 == h && v as u64 == l) by (bit_vector)
        requires
            v == (((h as u128) << 64u128) | (l as u128)),
    ;
}

proof fn lemma_sign_casts(a: u8, b: u16, c: u32, d: u64)
    ensures
        (a as i8) as u8 == a,
        (b as i16) as u16 == b,
        (c as i32) as u32 == c,
        (d as i64) as u64 == d,
{
    assert((a as i8) as u8 == a) by (bit_vector);
    assert((b as i16) as u16 == b) by (bit_vector);
    assert((c as i32) as u32 == c) by (bit_vector);
    assert((d as i64) as u64 == d) by (bit_vector);
}

/// Distinct values have distinct encodings.
pub proof fn lemma_u32_bytes_injective(x: u32, y: u32)
    requires
        u32_bytes(x) == u32_bytes(y),
    ensures
        x == y,
{
    assert(u32_bytes(x)[0] == u32_bytes(y)[0] && u32_bytes(x)[1] == u32_bytes(y)[1]
        && u32_bytes(x)[2] == u32_bytes(y)[2] && u32_bytes(x)[3] == u32_bytes(y)[3]);
    assert(x == y) by (bit_vector)
        requires
            (x >> 24u32) as u8 == (y >> 24u32) as u8,
            (x >> 16u32) as u8 == (y >> 16u32) as u8,
            (x >> 8u32) as u8 == (y >> 8u32) as u8,
            x as u8 == y as u8,
    ;
}

pub proof fn lemma_u16_bytes_injective(x: u16, y: u16)
    requires
        u16_bytes(x) == u16_bytes(y),
    ensures
        x == y,
{
    assert(u16_bytes(x)[0] == u16_bytes(y)[0] && u16_bytes(x)[1] == u16_bytes(y)[1]);
    assert(x == y) by (bit_vector)
        requires
            (x >> 8u16) as u8 == (y >> 8u16) as u8,
            x as u8 == y as u8,
    ;
}

pub proof fn lemma_u64_bytes_injective(x: u64, y: u64)
    requires
        u64_bytes(x) == u64_bytes(y),
    ensures
        x == y,
{
    let (hx, lx, hy, ly) = ((x >> 32u64) as u32, x as u32, (y >> 32u64) as u32, y as u32);
    assert(u32_bytes(hx) == u64_bytes(x).subrange(0, 4));
    assert(u32_bytes(lx) == u64_bytes(x).subrange(4, 8));
    assert(u32_bytes(hy) == u64_bytes(y).subrange(0, 4));
    assert(u32_bytes(ly) == u64_bytes(y).subrange(4, 8));
    lemma_u32_bytes_injective(hx, hy);
    lemma_u32_bytes_injective(lx, ly);
    assert(x == y) by (bit_vector)
        requires
            (x >> 32u64) as u32 == (y >> 32u64) as u32,
            x as u32 == y as u32,
    ;
}

pub proof fn lemma_u128_bytes_injective(x: u128, y: u128)
    requires
        u128_bytes(x) == u128_bytes(y),
    ensures
        x == y,
{
    let (hx, lx, hy, ly) = ((x >> 64u128) as u64, x as u64, (y >> 64u128) as u64, y as u64);
    assert(u64_bytes(hx) == u128_bytes(x).subrange(0, 8));
    assert(u64_bytes(lx) == u128_bytes(x).subrange(8, 16));
    assert(u64_bytes(hy) == u128_bytes(y).subrange(0, 8));
    assert(u64_bytes(ly) == u128_bytes(y).subrange(8, 16));
    lemma_u64_bytes_injective(hx, hy);
    lemma_u64_bytes_injective(lx, ly);
    assert(x == y) by (bit_vector)
        requires
            (x >> 64u128) as u64 == (y >> 64u128) as u64,
            x as u64 == y as u64,
    ;
}

pub proof fn lemma_i16_bytes_injective(x: i16, y: i16)
    requires
        i16_bytes(x) == i16_bytes(y),
    ensures
        x == y,
{
    lemma_u16_bytes_injective(x as u16, y as u16);
    assert(x == y) by (bit_vector)
        requires
            x as u16 == y as u16,
    ;
}

pub proof fn lemma_i32_bytes_injective(x: i32, y: i32)
    requires
        i32_bytes(x) == i32_bytes(y),
    ensures
        x == y,
{
    lemma_u32_bytes_injective(x as u32, y as u32);
    assert(x == y) by (bit_vector)
        requires
            x as u32 == y as u32,
    ;
}

pub proof fn lemma_i64_bytes_injective(x: i64, y: i64)
    requires
        i64_bytes(x) == i64_bytes(y),
    ensures
        x == y,
{
    lemma_u64_bytes_injective(x as u64, y as u64);
    assert(x == y) by (bit_vector)
        requires
            x as u64 == y as u64,
    ;
}

/// Appends the bytes of `src`.
pub fn put_bytes(buf: &mut Vec<u8>, src: &[u8])
    ensures
        final(buf)@ == old(buf)@ + src@,
{
    let mut i: usize = 0;
    while i < src.len()
        invariant
            i <= src@.len(),
            buf@ == old(buf)@ + src@.subrange(0, i as int),
        decreases src@.len() - i,
    {
        buf.push(src[i]);
        i += 1;
        assert(src@.subrange(0, i as int) == src@.subrange(0, i - 1) + seq![src@[i - 1]]);
    }
    assert(src@.subrange(0, src@.len() as int) == src@);
}

pub fn put_u8(buf: &mut Vec<u8>, v: u8)
    ensures
        final(buf)@ == old(buf)@.push(v),
{
    buf.push(v);
}

pub fn put_i16(buf: &mut Vec<u8>, v: i16)
    ensures
        final(buf)@ == old(buf)@ + i16_bytes(v),
{
    let u = v as u16;
    buf.push((u >> 8u16) as u8);
    buf.push(u as u8);
    assert(buf@ == old(buf)@ + i16_bytes(v));
}

fn put_u32(buf: &mut Vec<u8>, u: u32)
    ensures
        final(buf)@ == old(buf)@ + u32_bytes(u),
{
    buf.push((u >> 24u32) as u8);
    buf.push((u >> 16u32) as u8);
    buf.push((u >> 8u32) as u8);
    buf.push(u as u8);
    assert(buf@ == old(buf)@ + u32_bytes(u));
}

pub fn put_i32(buf: &mut Vec<u8>, v: i32)
    ensures
        final(buf)@ == old(buf)@ + i32_bytes(v),
{
    put_u32(buf, v as u32);
}

fn put_u64(buf: &mut Vec<u8>, u: u64)
    ensures
        final(buf)@ == old(buf)@ + u64_bytes(u),
{
    put_u32(buf, (u >> 32u64) as u32);
    put_u32(buf, u as u32);
    assert(buf@ == old(buf)@ + u64_bytes(u));
}

pub fn put_i64(buf: &mut Vec<u8>, v: i64)
    ensures
        final(buf)@ == old(buf)@ + i64_bytes(v),
{
    put_u64(buf, v as u64);
}

pub fn put_u128(buf: &mut Vec<u8>, v: u128)
    ensures
        final(buf)@ == old(buf)@ + u128_bytes(v),
{
    put_u64(buf, (v >> 64u128) as u64);
    put_u64(buf, v as u64);
    assert(buf@ == old(buf)@ + u128_bytes(v));
}

pub fn get_u8(b: &[u8], pos: usize) -> (r: Option<(u8, usize)>)
    ensures
        r is Some <==> pos < b@.len(),
        r matches Some((v, p)) ==> p == pos + 1 && v == b@[pos as int],
        forall|v: u8| #[trigger] bytes_at(b@, pos as int, seq![v]) ==> r == Some((v, (pos + 1) as usize)),
{
    if pos < b.len() {
        proof {
            assert forall|v: u8| #[trigger] bytes_at(b@, pos as int, seq![v]) implies v == b@[pos as int] by {
                assert(b@.subrange(pos as int, pos + 1)[0] == b@[pos as int]);
            }
        }
        Some((b[pos], pos + 1))
    } else {
        None
    }
}

pub fn get_i8(b: &[u8], pos: usize) -> (r: Option<(i8, usize)>)
    ensures
        r is Some <==> pos < b@.len(),
        r matches Some((v, p)) ==> p == pos + 1 && i8_bytes(v) == window(b@, pos as int, 1),
        forall|v: i8| #[trigger] bytes_at(b@, pos as int, i8_bytes(v)) ==> r == Some((v, (pos + 1) as usize)),
{
    if pos < b.len() {
        let v = b[pos] as i8;
        proof {
            lemma_sign_casts(b@[pos as int], 0, 0, 0);
            assert forall|x: i8| #[trigger] bytes_at(b@, pos as int, i8_bytes(x)) implies x == v by {
                assert(i8_bytes(x)[0] == b@[pos as int]);
                assert(x == v) by (bit_vector)
                    requires
                        x as u8 == v as u8,
                ;
            }
        }
        assert(i8_bytes(v) == window(b@, pos as int, 1));
        Some((v, pos + 1))
    } else {
        None
    }
}

pub fn get_i16(b: &[u8], pos: usize) -> (r: Option<(i16, usize)>)
    ensures
        r is Some <==> pos + 2 <= b@.len(),
        r matches Some((v, p)) ==> p == pos + 2 && i16_bytes(v) == window(b@, pos as int, 2),
        forall|v: i16| #[trigger] bytes_at(b@, pos as int, i16_bytes(v)) ==> r == Some((v, (pos + 2) as usize)),
{
    if pos < b.len() && b.len() - pos >= 2 {
        let u: u16 = ((b[pos] as u16) << 8u16) | (b[pos + 1] as u16);
        proof {
            lemma_u16_pair(b@[pos as int], b@[pos + 1], u);
        }
        let v = u as i16;
        proof {
            lemma_sign_casts(0, u, 0, 0);
        }
        assert(v as u16 == u);
        assert(i16_bytes(v) == window(b@, pos as int, 2));
        proof {
            assert forall|x: i16| #[trigger] bytes_at(b@, pos as int, i16_bytes(x)) implies x == v by {
                lemma_i16_bytes_injective(x, v);
            }
        }
        Some((v, pos + 2))
    } else {
        None
    }
}

fn get_u32(b: &[u8], pos: usize) -> (r: Option<(u32, usize)>)
    ensures
        r is Some <==> pos + 4 <= b@.len(),
        r matches Some((v, p)) ==> p == pos + 4 && u32_bytes(v) == window(b@, pos as int, 4),
{
    if pos < b.len() && b.len() - pos >= 4 {
        let v: u32 = ((b[pos] as u32) << 24u32) | ((b[pos + 1] as u32) << 16u32) | ((b[pos
            + 2] as u32) << 8u32) | (b[pos + 3] as u32);
        proof {
            lemma_u32_quad(b@[pos as int], b@[pos + 1], b@[pos + 2], b@[pos + 3], v);
        }
        assert(u32_bytes(v) == window(b@, pos as int, 4));
        Some((v, pos + 4))
    } else {
        None
    }
}

pub fn get_i32(b: &[u8], pos: usize) -> (r: Option<(i32, usize)>)
    ensures
        r is Some <==> pos + 4 <= b@.len(),
        r matches Some((v, p)) ==> p == pos + 4 && i32_bytes(v) == window(b@, pos as int, 4),
        forall|v: i32| #[trigger] bytes_at(b@, pos as int, i32_bytes(v)) ==> r == Some((v, (pos + 4) as usize)),
{
    match get_u32(b, pos) {
        Some((u, p)) => {
            let v = u as i32;
            proof {
                lemma_sign_casts(0, 0, u, 0);
            }
            assert(v as u32 == u);
            proof {
                assert forall|x: i32| #[trigger] bytes_at(b@, pos as int, i32_bytes(x)) implies x == v by {
                    lemma_i32_bytes_injective(x, v);
                }
            }
            Some((v, p))
        },
        None => None,
    }
}

fn get_u64(b: &[u8], pos: usize) -> (r: Option<(u64, usize)>)
    ensures
        r is Some <==> pos + 8 <= b@.len(),
        r matches Some((v, p)) ==> p == pos + 8 && u64_bytes(v) == window(b@, pos as int, 8),
{
    if pos < b.len() && b.len() - pos >= 8 {
        let (h, _) = get_u32(b, pos).unwrap();
        let (l, _) = get_u32(b, pos + 4).unwrap();
        let v: u64 = ((h as u64) << 32u64) | (l as u64);
        proof {
            lemma_u64_halves(h, l, v);
        }
        assert(u64_bytes(v) == window(b@, pos as int, 8));
        Some((v, pos + 8))
    } else {
        None
    }
}

pub fn get_i64(b: &[u8], pos: usize) -> (r: Option<(i64, usize)>)
    ensures
        r is Some <==> pos + 8 <= b@.len(),
        r matches Some((v, p)) ==> p == pos + 8 && i64_bytes(v) == window(b@, pos as int, 8),
        forall|v: i64| #[trigger] bytes_at(b@, pos as int, i64_bytes(v)) ==> r == Some((v, (pos + 8) as usize)),
{
    match get_u64(b, pos) {
        Some((u, p)) => {
            let v = u as i64;
            proof {
                lemma_sign_casts(0, 0, 0, u);
            }
            assert(v as u64 == u);
            proof {
                assert forall|x: i64| #[trigger] bytes_at(b@, pos as int, i64_bytes(x)) implies x == v by {
                    lemma_i64_bytes_injective(x, v);
                }
            }
            Some((v, p))
        },
        None => None,
    }
}

pub fn get_u128(b: &[u8], pos: usize) -> (r: Option<(u128, usize)>)
    ensures
        r is Some <==> pos + 16 <= b@.len(),
        r matches Some((v, p)) ==> p == pos + 16 && u128_bytes(v) == window(
            b@,
            pos as int,
            16,
        ),
        forall|v: u128| #[trigger] bytes_at(b@, pos as int, u128_bytes(v)) ==> r == Some((v, (pos + 16) as usize)),
{
    if pos < b.len() && b.len() - pos >= 16 {
        let (h, _) = get_u64(b, pos).unwrap();
        let (l, _) = get_u64(b, pos + 8).unwrap();
        let v: u128 = ((h as u128) << 64u128) | (l as u128);
        proof {
            lemma_u128_halves(h, l, v);
        }
        assert(u128_bytes(v) == window(b@, pos as int, 16));
        proof {
            assert forall|x: u128| #[trigger] bytes_at(b@, pos as int, u128_bytes(x)) implies x == v by {
                lemma_u128_bytes_injective(x, v);
            }
        }
        Some((v, pos + 16))
    } else {
        None
    }
}

// ---------------------------------------------------------------------------
// Varints: seven bits per byte, low group first, high bit set on every byte
// but the last
// ---------------------------------------------------------------------------

pub open spec fn pow128(n: nat) -> nat
    decreases n,
{
    if n == 0 {
        1
    } else {
        128 * pow128((n - 1) as nat)
    }
}

/// The shortest varint encoding of `v`.
pub open spec fn uvarint(v: nat) -> Seq<u8>
    decreases v,
{
    if v < 128 {
        seq![v as u8]
    } else {
        seq![(v % 128 + 128) as u8] + uvarint(v / 128)
    }
}

/// `s` is one whole varint: every byte but the last has its high bit set.
pub open spec fn is_varint(s: Seq<u8>) -> bool {
    &&& s.len() >= 1
    &&& s.last() < 128
    &&& forall|i: int| 0 <= i < s.len() - 1 ==> s[i] >= 128
}

/// The number that the seven-bit groups of `s` spell, low group first.
pub open spec fn varint_value(s: Seq<u8>) -> nat
    decreases s.len(),
{
    if s.len() == 0 {
        0
    } else {
        (s[0] % 128) as nat + 128 * varint_value(s.drop_first())
    }
}

/// Zigzag mapping of a signed number onto the naturals: 0, -1, 1, -2, ...
pub open spec fn zigzag(i: int) -> nat {
    if i >= 0 {
        (2 * i) as nat
    } else {
        (-2 * i - 1) as nat
    }
}

/// Inverse of `zigzag`.
pub open spec fn unzigzag(n: nat) -> int {
    if n % 2 == 0 {
        (n / 2) as int
    } else {
        -((n + 1) / 2)
    }
}

/// Varint of a signed number, zigzag mapped.
pub open spec fn svarint(i: int) -> Seq<u8> {
    uvarint(zigzag(i))
}

/// The count prefix of a compact field with `n` elements: `n + 1` as varint.
pub open spec fn compact_count(n: nat) -> Seq<u8> {
    uvarint(n + 1)
}

proof fn lemma_pow128_grows(n: nat)
    ensures
        pow128(n) >= 1,
        pow128(n + 1) == 128 * pow128(n),
    decreases n,
{
    if n > 0 {
        lemma_pow128_grows((n - 1) as nat);
    }
}

proof fn lemma_varint_value_push(s: Seq<u8>, c: u8)
    ensures
        varint_value(s.push(c)) == varint_value(s) + (c % 128) as nat * pow128(s.len()),
    decreases s.len(),
{
    let x = (c % 128) as nat;
    if s.len() == 0 {
        assert(s.push(c).drop_first() =~= Seq::<u8>::empty());
        assert(varint_value(Seq::<u8>::empty()) == 0);
        assert(varint_value(s.push(c)) == x + 128 * varint_value(s.push(c).drop_first()));
        assert(pow128(0) == 1);
    } else {
        let d = s.drop_first();
        assert(s.push(c).drop_first() =~= d.push(c));
        lemma_varint_value_push(d, c);
        lemma_pow128_grows(d.len());
        let p = pow128(d.len());
        assert(varint_value(s.push(c)) == (s[0] % 128) as nat + 128 * varint_value(d.push(c)));
        assert(varint_value(s) == (s[0] % 128) as nat + 128 * varint_value(d));
        assert(128 * (varint_value(d) + x * p) == 128 * varint_value(d) + x * (128 * p))
            by (nonlinear_arith);
        assert(d.len() + 1 == s.len());
    }
}

proof fn lemma_pow128_five()
    ensures
        pow128(5) == 34359738368,
        pow128(4) == 268435456,
        pow128(1) == 128,
{
    assert(pow128(0) == 1);
    assert(pow128(1) == 128);
    assert(pow128(2) == 16384);
    assert(pow128(3) == 2097152);
    assert(pow128(4) == 268435456);
    assert(pow128(5) == 34359738368);
}

/// The shortest encoding is a whole varint that spells `v`, and it is
/// `k` bytes long exactly when `128^(k-1) <= v < 128^k` (one byte for 0).
pub proof fn lemma_uvarint_shape(v: nat)
    ensures
        is_varint(uvarint(v)),
        varint_value(uvarint(v)) == v,
        v < pow128(uvarint(v).len()),
        uvarint(v).len() == 1 || v >= pow128((uvarint(v).len() - 1) as nat),
        uvarint(v).len() == 1 || uvarint(v).last() != 0,
        v >= 1 ==> uvarint(v)[0] != 0,
    decreases v,
{
    lemma_pow128_five();
    let s = uvarint(v);
    if v < 128 {
        assert(s == seq![v as u8]);
        assert(s.drop_first() =~= Seq::<u8>::empty());
        assert(varint_value(Seq::<u8>::empty()) == 0);
        assert(varint_value(s) == (s[0] % 128) as nat + 128 * varint_value(s.drop_first()));
    } else {
        let t = uvarint(v / 128);
        lemma_uvarint_shape(v / 128);
        assert(s == seq![(v % 128 + 128) as u8] + t);
        assert(s.drop_first() =~= t);
        assert(s.last() == t.last());
        assert forall|i: int| 0 <= i < s.len() - 1 implies s[i] >= 128 by {
            if i > 0 {
                assert(s[i] == t[i - 1]);
            }
        }
        assert(varint_value(s) == (s[0] % 128) as nat + 128 * varint_value(t));
        assert(s[0] % 128 == v % 128);
        lemma_pow128_grows(t.len());
        assert(s.len() == t.len() + 1);
        if t.len() > 1 {
            lemma_pow128_grows((t.len() - 1) as nat);
            assert((t.len() - 1) as nat + 1 == t.len());
        }
    }
}

/// A byte string starts with at most one whole varint.
pub proof fn lemma_varint_end_unique(s: Seq<u8>, j: int, k: int)
    requires
        0 < j <= s.len(),
        0 < k <= s.len(),
        is_varint(s.subrange(0, j)),
        is_varint(s.subrange(0, k)),
    ensures
        j == k,
{
    if j < k {
        assert(s.subrange(0, k)[j - 1] == s.subrange(0, j).last());
    } else if k < j {
        assert(s.subrange(0, j)[k - 1] == s.subrange(0, k).last());
    }
}

/// A varint whose last byte is not zero (or that has one byte) is the
/// shortest encoding of the value it spells.
pub proof fn lemma_canonical_varint(t: Seq<u8>)
    requires
        is_varint(t),
        t.len() == 1 || t.last() != 0,
    ensures
        t == uvarint(varint_value(t)),
        t.len() >= 2 ==> varint_value(t) >= 128,
    decreases t.len(),
{
    let v = varint_value(t);
    if t.len() == 1 {
        assert(t.drop_first() =~= Seq::<u8>::empty());
        assert(varint_value(Seq::<u8>::empty()) == 0);
        assert(v == (t[0] % 128) as nat + 128 * varint_value(t.drop_first()));
        assert(v == t[0]);
        assert(t =~= seq![v as u8]);
    } else {
        let r = t.drop_first();
        assert(r.last() == t.last());
        assert forall|i: int| 0 <= i < r.len() - 1 implies r[i] >= 128 by {
            assert(r[i] == t[i + 1]);
        }
        lemma_canonical_varint(r);
        let w = varint_value(r);
        if r.len() == 1 {
            assert(r.drop_first() =~= Seq::<u8>::empty());
            assert(w == (r[0] % 128) as nat);
        }
        assert(w >= 1);
        let a = (t[0] % 128) as nat;
        assert(v == a + 128 * w);
        assert(v % 128 == a && v / 128 == w) by (nonlinear_arith)
            requires
                v == a + 128 * w,
                a < 128,
        ;
        assert(t[0] == (a + 128) as u8);
        assert(t =~= seq![(v % 128 + 128) as u8] + uvarint(v / 128));
    }
}

/// Unsigned varints round-trip: the encoding of `u` is a whole varint that
/// spells `u`, no shorter prefix of it (followed by anything) is a whole
/// varint, and its length is the least `k >= 1` with `u < 128^k`, which is
/// `ceil(bits(u) / 7)`, or 1 for 0; for a `u32` that is at most five bytes.
pub proof fn lemma_unsigned_varint_round_trip(u: u32, rest: Seq<u8>)
    ensures
        is_varint(uvarint(u as nat)),
        varint_value(uvarint(u as nat)) == u,
        u < pow128(uvarint(u as nat).len()),
        uvarint(u as nat).len() == 1 || u >= pow128((uvarint(u as nat).len() - 1) as nat),
        uvarint(u as nat).len() <= 5,
        forall|k: int|
            0 < k <= (uvarint(u as nat) + rest).len() && is_varint(
                #[trigger] (uvarint(u as nat) + rest).subrange(0, k),
            ) ==> k == uvarint(u as nat).len(),
{
    let s = uvarint(u as nat);
    lemma_uvarint_shape(u as nat);
    lemma_pow128_five();
    lemma_uvarint_length_bound(u as nat, 5);
    let all = s + rest;
    assert(all.subrange(0, s.len() as int) =~= s);
    assert forall|k: int|
        0 < k <= all.len() && is_varint(#[trigger] all.subrange(0, k)) implies k == s.len() by {
        lemma_varint_end_unique(all, k, s.len() as int);
    }
}

proof fn lemma_uvarint_length_bound(v: nat, k: nat)
    requires
        v < pow128(k),
        k == 5,
    ensures
        uvarint(v).len() <= 5,
{
    lemma_uvarint_shape(v);
    lemma_pow128_five();
    let n = uvarint(v).len();
    if n > 5 {
        lemma_pow128_monotone(5, (n - 1) as nat);
    }
}

proof fn lemma_pow128_monotone(a: nat, b: nat)
    requires
        a <= b,
    ensures
        pow128(a) <= pow128(b),
    decreases b - a,
{
    if a < b {
        lemma_pow128_monotone(a, (b - 1) as nat);
        lemma_pow128_grows((b - 1) as nat);
    }
}

/// Signed varints round-trip: zigzag mapping is undone by `unzigzag`, and
/// the mapped value of an `i32` fits an unsigned 32-bit varint.
pub proof fn lemma_signed_varint_round_trip(i: i32)
    ensures
        unzigzag(zigzag(i as int)) == i,
        zigzag(i as int) <= u32::MAX,
        is_varint(svarint(i as int)),
        varint_value(svarint(i as int)) == zigzag(i as int),
{
    lemma_uvarint_shape(zigzag(i as int));
}

/// Appends the shortest varint encoding of `v`.
pub fn put_uvarint(buf: &mut Vec<u8>, v: u128)
    ensures
        final(buf)@ == old(buf)@ + uvarint(v as nat),
{
    let mut x = v;
    while x >= 128
        invariant
            buf@ + uvarint(x as nat) == old(buf)@ + uvarint(v as nat),
        decreases x,
    {
        let c = (x % 128 + 128) as u8;
        let ghost before = buf@;
        buf.push(c);
        proof {
            assert(uvarint(x as nat) == seq![c] + uvarint((x / 128) as nat));
            assert(before + uvarint(x as nat) =~= buf@ + uvarint((x / 128) as nat));
        }
        x = x / 128;
    }
    let ghost before = buf@;
    buf.push(x as u8);
    assert(uvarint(x as nat) =~= seq![x as u8]);
    assert(buf@ =~= before + uvarint(x as nat));
}

/// The shortest varint encoding of `u`.
pub fn unsigned_varint_encode(u: u32) -> (r: Vec<u8>)
    ensures
        r@ == uvarint(u as nat),
{
    let mut r: Vec<u8> = Vec::new();
    put_uvarint(&mut r, u as u128);
    assert(r@ =~= uvarint(u as nat));
    r
}

/// Reads a varint of at most five bytes at `pos` that spells a `u32`.
/// Returns the value and the position after it, or `None` where no such
/// varint starts at `pos`.
pub fn unsigned_varint_decode(b: &[u8], pos: usize) -> (r: Option<(u32, usize)>)
    ensures
        r matches Some((v, p)) ==> pos < p <= b@.len() && p - pos <= 5 && is_varint(
            b@.subrange(pos as int, p as int),
        ) && v == varint_value(b@.subrange(pos as int, p as int)),
        r is None ==> forall|k: int|
            pos < k <= b@.len() && k - pos <= 5 && is_varint(#[trigger] b@.subrange(pos as int, k))
                ==> varint_value(b@.subrange(pos as int, k)) > u32::MAX,
{
    if pos > b.len() {
        return None;
    }
    let mut value: u64 = 0;
    let mut scale: u64 = 1;
    proof {
        lemma_pow128_five();
        assert(b@.subrange(pos as int, pos as int) =~= Seq::<u8>::empty());
    }
    let mut i: usize = 0;
    while i < 5
        invariant
            i <= 5,
            pos + i <= b@.len(),
            forall|j: int| pos <= j < pos + i ==> b@[j] >= 128,
            value == varint_value(b@.subrange(pos as int, pos + i)),
            i < 5 ==> scale == pow128(i as nat),
            value < pow128(i as nat),
        decreases 5 - i,
    {
        if pos >= b.len() || b.len() - pos <= i {
            proof {
                assert forall|k: int|
                    pos < k <= b@.len() && k - pos <= 5 && is_varint(
                        #[trigger] b@.subrange(pos as int, k),
                    ) implies varint_value(b@.subrange(pos as int, k)) > u32::MAX by {
                    assert(b@.subrange(pos as int, k).last() == b@[k - 1]);
                }
            }
            return None;
        }
        let c = b[pos + i];
        proof {
            let s = b@.subrange(pos as int, pos + i);
            assert(b@.subrange(pos as int, pos + i + 1) =~= s.push(c));
            lemma_varint_value_push(s, c);
            lemma_pow128_five();
            lemma_pow128_grows(i as nat);
            lemma_pow128_monotone(i as nat, 4);
            assert((c % 128) as nat * scale <= 127 * 268435456) by (nonlinear_arith)
                requires
                    scale <= 268435456,
                    c % 128 <= 127,
            ;
            assert((c % 128) as nat * scale + value < 128 * scale) by (nonlinear_arith)
                requires
                    value < scale,
                    c % 128 <= 127,
            ;
            if i < 4 {
                lemma_pow128_monotone((i + 1) as nat, 5);
            }
        }
        value = value + (c % 128) as u64 * scale;
        i = i + 1;
        if i < 5 {
            scale = scale * 128;
        }
        if c < 128 {
            proof {
                let t = b@.subrange(pos as int, pos + i);
                assert(t.last() == c);
                assert forall|j: int| 0 <= j < t.len() - 1 implies t[j] >= 128 by {
                    assert(t[j] == b@[pos + j]);
                }
            }
            if value <= 0xffff_ffffu64 {
                return Some((value as u32, pos + i));
            } else {
                proof {
                    assert forall|k: int|
                        pos < k <= b@.len() && k - pos <= 5 && is_varint(
                            #[trigger] b@.subrange(pos as int, k),
                        ) implies varint_value(b@.subrange(pos as int, k)) > u32::MAX by {
                        lemma_varint_end_unique(b@.subrange(pos as int, b@.len() as int), k - pos, i as int);
                        assert(b@.subrange(pos as int, b@.len() as int).subrange(0, k - pos) =~= b@.subrange(pos as int, k));
                        assert(b@.subrange(pos as int, b@.len() as int).subrange(0, i as int) =~= b@.subrange(pos as int, pos + i));
                    }
                }
                return None;
            }
        }
    }
    proof {
        assert forall|k: int|
            pos < k <= b@.len() && k - pos <= 5 && is_varint(#[trigger] b@.subrange(pos as int, k))
            implies varint_value(b@.subrange(pos as int, k)) > u32::MAX by {
            assert(b@.subrange(pos as int, k).last() == b@[k - 1]);
        }
    }
    None
}

/// The zigzag varint encoding of `i`.
pub fn varint_encode(i: i32) -> (r: Vec<u8>)
    ensures
        r@ == svarint(i as int),
{
    let w = i as i64;
    let z: u64 = if w >= 0 {
        2 * (w as u64)
    } else {
        2 * ((-w) as u64) - 1
    };
    let mut r: Vec<u8> = Vec::new();
    put_uvarint(&mut r, z as u128);
    assert(r@ =~= svarint(i as int));
    r
}

/// Reads a zigzag varint of at most five bytes at `pos`.
pub fn varint_decode(b: &[u8], pos: usize) -> (r: Option<(i32, usize)>)
    ensures
        r matches Some((v, p)) ==> pos < p <= b@.len() && p - pos <= 5 && is_varint(
            b@.subrange(pos as int, p as int),
        ) && v == unzigzag(varint_value(b@.subrange(pos as int, p as int))),
        r is None ==> forall|k: int|
            pos < k <= b@.len() && k - pos <= 5 && is_varint(#[trigger] b@.subrange(pos as int, k))
                ==> varint_value(b@.subrange(pos as int, k)) > u32::MAX,
{
    match unsigned_varint_decode(b, pos) {
        Some((u, p)) => {
            let v: i32 = if u % 2 == 0 {
                (u / 2) as i32
            } else {
                -((u / 2) as i32) - 1
            };
            Some((v, p))
        },
        None => None,
    }
}

/// `s` stands in `b` at `pos`.
pub open spec fn bytes_at(b: Seq<u8>, pos: int, s: Seq<u8>) -> bool {
    0 <= pos && pos + s.len() <= b.len() && b.subrange(pos, pos + s.len()) == s
}

/// Where `x + y` stands at `pos`, `x` stands there and `y` right after it.
pub proof fn lemma_bytes_at_concat(b: Seq<u8>, pos: int, x: Seq<u8>, y: Seq<u8>)
    requires
        bytes_at(b, pos, x + y),
    ensures
        bytes_at(b, pos, x),
        bytes_at(b, pos + x.len(), y),
{
    assert(b.subrange(pos, pos + x.len()) =~= (x + y).subrange(0, x.len() as int));
    assert((x + y).subrange(0, x.len() as int) =~= x);
    assert(b.subrange(pos + x.len(), pos + x.len() + y.len()) =~= (x + y).subrange(
        x.len() as int,
        (x + y).len() as int,
    ));
    assert((x + y).subrange(x.len() as int, (x + y).len() as int) =~= y);
}

/// Appends the count prefix of a compact field with `n` elements.
pub fn put_compact_count(buf: &mut Vec<u8>, n: usize)
    ensures
        final(buf)@ == old(buf)@ + compact_count(n as nat),
{
    put_uvarint(buf, n as u128 + 1);
}

/// Reads the count prefix of a compact field: a shortest varint for
/// `n + 1`. A zero (null) or a padded varint is refused.
pub fn get_compact_count(b: &[u8], pos: usize) -> (r: Option<(u32, usize)>)
    ensures
        r matches Some((n, p)) ==> pos < p <= b@.len() && b@.subrange(pos as int, p as int)
            == compact_count(n as nat),
        forall|n: nat|
            n < u32::MAX && #[trigger] bytes_at(b@, pos as int, compact_count(n)) ==> r == Some(
                (n as u32, (pos + compact_count(n).len()) as usize),
            ),
{
    let d = unsigned_varint_decode(b, pos);
    let r = match d {
        Some((raw, p)) => {
            if raw == 0 || (p - pos > 1 && b[p - 1] == 0) {
                None
            } else {
                proof {
                    let t = b@.subrange(pos as int, p as int);
                    assert(t.last() == b@[p - 1]);
                    lemma_canonical_varint(t);
                }
                Some((raw - 1, p))
            }
        },
        None => None,
    };
    proof {
        assert forall|n: nat|
            n < u32::MAX && #[trigger] bytes_at(b@, pos as int, compact_count(n)) implies r == Some(
                (n as u32, (pos + compact_count(n).len()) as usize),
            ) by {
            let c = compact_count(n);
            assert(((n + 1) as u32) as nat == n + 1);
            lemma_unsigned_varint_round_trip((n + 1) as u32, Seq::empty());
            lemma_uvarint_shape(n + 1);
            assert(c + Seq::<u8>::empty() =~= c);
            let k = pos + c.len();
            assert(b@.subrange(pos as int, k) == c);
            match d {
                Some((raw, p)) => {
                    let tail = b@.subrange(pos as int, b@.len() as int);
                    assert(tail.subrange(0, p - pos) =~= b@.subrange(pos as int, p as int));
                    assert(tail.subrange(0, c.len() as int) =~= c);
                    lemma_varint_end_unique(tail, p - pos, c.len() as int);
                    assert(b@[p - 1] == c.last());
                },
                None => {},
            }
        }
    }
    r
}

/// Copies `b[from..to]`.
pub fn copy_range(b: &[u8], from: usize, to: usize) -> (r: Vec<u8>)
    requires
        from <= to <= b@.len(),
    ensures
        r@ == b@.subrange(from as int, to as int),
{
    let mut r: Vec<u8> = Vec::new();
    let mut i = from;
    while i < to
        invariant
            from <= i <= to <= b@.len(),
            r@ == b@.subrange(from as int, i as int),
        decreases to - i,
    {
        r.push(b[i]);
        i += 1;
        assert(r@ =~= b@.subrange(from as int, i as int));
    }
    r
}

/// A compact byte string: its count prefix, then its bytes.
pub open spec fn compact_bytes(s: Seq<u8>) -> Seq<u8> {
    compact_count(s.len()) + s
}

/// A nullable compact byte string: a lone zero byte for null.
pub open spec fn nullable_compact_bytes(s: Option<Seq<u8>>) -> Seq<u8> {
    match s {
        Some(t) => compact_bytes(t),
        None => seq![0u8],
    }
}

pub fn put_compact_bytes(buf: &mut Vec<u8>, s: &[u8])
    ensures
        final(buf)@ == old(buf)@ + compact_bytes(s@),
{
    put_compact_count(buf, s.len());
    put_bytes(buf, s);
    assert(buf@ =~= old(buf)@ + compact_bytes(s@));
}

/// Reads a compact byte string at `pos`.
pub fn get_compact_bytes(b: &[u8], pos: usize) -> (r: Option<(Vec<u8>, usize)>)
    ensures
        r matches Some((s, p)) ==> pos < p <= b@.len() && b@.subrange(pos as int, p as int)
            == compact_bytes(s@),
        forall|s: Seq<u8>|
            s.len() < u32::MAX && #[trigger] bytes_at(b@, pos as int, compact_bytes(s)) ==> (
            r matches Some((t, p)) && t@ == s && p == pos + compact_bytes(s).len()),
{
    let r = match get_compact_count(b, pos) {
        Some((n, q)) => {
            if n as usize <= b.len() - q {
                let s = copy_range(b, q, q + n as usize);
                assert(b@.subrange(pos as int, q + n) =~= b@.subrange(pos as int, q as int)
                    + s@);
                Some((s, q + n as usize))
            } else {
                None
            }
        },
        None => None,
    };
    proof {
        assert forall|s: Seq<u8>|
            s.len() < u32::MAX && #[trigger] bytes_at(b@, pos as int, compact_bytes(s)) implies (
            r matches Some((t, p)) && t@ == s && p == pos + compact_bytes(s).len()) by {
            let c = compact_count(s.len());
            let e = compact_bytes(s);
            assert(b@.subrange(pos as int, pos + c.len()) =~= e.subrange(0, c.len() as int));
            assert(e.subrange(0, c.len() as int) =~= c);
            assert(bytes_at(b@, pos as int, c));
            assert(b@.subrange(pos + c.len(), pos + e.len()) =~= e.subrange(c.len() as int, e.len() as int));
            assert(e.subrange(c.len() as int, e.len() as int) =~= s);
        }
    }
    r
}

/// Reads a nullable compact byte string at `pos`.
pub fn get_nullable_compact_bytes(b: &[u8], pos: usize) -> (r: Option<(Option<Vec<u8>>, usize)>)
    ensures
        r matches Some((s, p)) ==> pos < p <= b@.len() && b@.subrange(pos as int, p as int)
            == nullable_compact_bytes(
            match s {
                Some(t) => Some(t@),
                None => None,
            },
        ),
        pos < b@.len() && b@[pos as int] == 0 ==> r == Some((None::<Vec<u8>>, (pos + 1) as usize)),
        forall|s: Seq<u8>|
            s.len() < u32::MAX && #[trigger] bytes_at(b@, pos as int, compact_bytes(s)) ==> (
            r matches Some((Some(t), p)) && t@ == s && p == pos + compact_bytes(s).len()),
{
    if pos < b.len() && b[pos] == 0 {
        assert(b@.subrange(pos as int, pos + 1) =~= seq![0u8]);
        proof {
            assert forall|s: Seq<u8>|
                s.len() < u32::MAX && #[trigger] bytes_at(b@, pos as int, compact_bytes(s)) implies false by {
                lemma_uvarint_shape(s.len() + 1);
                assert(compact_bytes(s)[0] == uvarint(s.len() + 1)[0]);
                assert(b@.subrange(pos as int, pos + compact_bytes(s).len())[0] == b@[pos as int]);
            }
        }
        return Some((None, pos + 1));
    }
    match get_compact_bytes(b, pos) {
        Some((t, p)) => Some((Some(t), p)),
        None => None,
    }
}

// ---------------------------------------------------------------------------
// Compact arrays
// ---------------------------------------------------------------------------

/// The encodings of the items of `xs`, one after another.
pub open spec fn concat_map<A>(xs: Seq<A>, f: spec_fn(A) -> Seq<u8>) -> Seq<u8>
    decreases xs.len(),
{
    if xs.len() == 0 {
        Seq::empty()
    } else {
        concat_map(xs.drop_last(), f) + f(xs.last())
    }
}

/// A compact array: its count prefix, then each item's encoding.
pub open spec fn compact_array<A>(xs: Seq<A>, f: spec_fn(A) -> Seq<u8>) -> Seq<u8> {
    compact_count(xs.len()) + concat_map(xs, f)
}

/// Item encoding of an array of big-endian `i32`.
pub open spec fn i32_item() -> spec_fn(i32) -> Seq<u8> {
    |v: i32| i32_bytes(v)
}

/// Item encoding of an array of big-endian `u128`.
pub open spec fn u128_item() -> spec_fn(u128) -> Seq<u8> {
    |v: u128| u128_bytes(v)
}

pub proof fn lemma_concat_map_push<A>(xs: Seq<A>, x: A, f: spec_fn(A) -> Seq<u8>)
    ensures
        concat_map(xs.push(x), f) == concat_map(xs, f) + f(x),
{
    assert(xs.push(x).drop_last() =~= xs);
}

/// The encoding of `a + c` is that of `a` followed by that of `c`.
pub proof fn lemma_concat_map_append<A>(a: Seq<A>, c: Seq<A>, f: spec_fn(A) -> Seq<u8>)
    ensures
        concat_map(a + c, f) == concat_map(a, f) + concat_map(c, f),
    decreases c.len(),
{
    if c.len() == 0 {
        assert(a + c =~= a);
        assert(concat_map(a, f) + concat_map(c, f) =~= concat_map(a, f));
    } else {
        assert((a + c).drop_last() =~= a + c.drop_last());
        lemma_concat_map_append(a, c.drop_last(), f);
        assert(concat_map(a + c, f) =~= concat_map(a, f) + concat_map(c, f));
    }
}

/// Where the items of `ys` stand one after another from `q`, item `i`
/// stands right after the first `i`.
pub proof fn lemma_concat_map_item<A>(b: Seq<u8>, q: int, ys: Seq<A>, f: spec_fn(A) -> Seq<u8>, i: int)
    requires
        bytes_at(b, q, concat_map(ys, f)),
        0 <= i < ys.len(),
    ensures
        bytes_at(b, q + concat_map(ys.subrange(0, i), f).len(), f(ys[i])),
        concat_map(ys.subrange(0, i + 1), f) == concat_map(ys.subrange(0, i), f) + f(ys[i]),
{
    let (a, c) = (ys.subrange(0, i + 1), ys.subrange(i + 1, ys.len() as int));
    assert(ys =~= a + c);
    lemma_concat_map_append(a, c, f);
    assert(a.drop_last() =~= ys.subrange(0, i));
    lemma_bytes_at_concat(b, q, concat_map(a, f), concat_map(c, f));
    lemma_bytes_at_concat(b, q, concat_map(ys.subrange(0, i), f), f(ys[i]));
}

/// With items of one fixed width `w`, the encoding of `xs` is `w` bytes per item.
pub proof fn lemma_concat_map_fixed_len<A>(xs: Seq<A>, f: spec_fn(A) -> Seq<u8>, w: nat)
    requires
        forall|a: A| #[trigger] f(a).len() == w,
    ensures
        concat_map(xs, f).len() == xs.len() * w,
    decreases xs.len(),
{
    if xs.len() > 0 {
        lemma_concat_map_fixed_len(xs.drop_last(), f, w);
        assert((xs.len() - 1) * w + w == xs.len() * w) by (nonlinear_arith);
    }
}

/// With an injective item encoding of fixed width `w > 0`, the bytes of `xs`
/// give back `xs`: equal encodings of equal length come from equal arrays.
pub proof fn lemma_concat_map_injective<A>(xs: Seq<A>, ys: Seq<A>, f: spec_fn(A) -> Seq<u8>, w: nat)
    requires
        w > 0,
        forall|a: A| #[trigger] f(a).len() == w,
        forall|a: A, c: A| #[trigger] f(a) == #[trigger] f(c) ==> a == c,
        xs.len() == ys.len(),
        concat_map(xs, f) == concat_map(ys, f),
    ensures
        xs == ys,
    decreases xs.len(),
{
    if xs.len() > 0 {
        let (xp, yp) = (xs.drop_last(), ys.drop_last());
        lemma_concat_map_fixed_len(xp, f, w);
        lemma_concat_map_fixed_len(yp, f, w);
        let n = concat_map(xp, f).len();
        let ex = concat_map(xs, f);
        assert(ex.subrange(0, n as int) =~= concat_map(xp, f));
        assert(ex.subrange(n as int, ex.len() as int) =~= f(xs.last()));
        assert(concat_map(ys, f).subrange(0, n as int) =~= concat_map(yp, f));
        assert(concat_map(ys, f).subrange(n as int, ex.len() as int) =~= f(ys.last()));
        lemma_concat_map_injective(xp, yp, f, w);
        assert(xs =~= xp.push(xs.last()));
        assert(ys =~= yp.push(ys.last()));
    }
}

/// Compact arrays round-trip: for an injective item encoding of fixed width,
/// a byte string that begins with the compact array of `xs` begins with the
/// compact array of no other `ys`, so decoding it yields `xs`.
pub proof fn lemma_compact_array_round_trip<A>(
    xs: Seq<A>,
    ys: Seq<A>,
    f: spec_fn(A) -> Seq<u8>,
    w: nat,
    rest1: Seq<u8>,
    rest2: Seq<u8>,
)
    requires
        w > 0,
        forall|a: A| #[trigger] f(a).len() == w,
        forall|a: A, c: A| #[trigger] f(a) == #[trigger] f(c) ==> a == c,
        xs.len() < u32::MAX,
        ys.len() < u32::MAX,
        compact_array(xs, f) + rest1 == compact_array(ys, f) + rest2,
    ensures
        xs == ys,
{
    let (cx, cy) = (compact_count(xs.len()), compact_count(ys.len()));
    let all = compact_array(xs, f) + rest1;
    lemma_unsigned_varint_round_trip((xs.len() + 1) as u32, concat_map(xs, f) + rest1);
    lemma_unsigned_varint_round_trip((ys.len() + 1) as u32, concat_map(ys, f) + rest2);
    assert(all =~= cx + (concat_map(xs, f) + rest1));
    assert(all =~= cy + (concat_map(ys, f) + rest2));
    assert(all.subrange(0, cx.len() as int) =~= cx);
    assert(all.subrange(0, cy.len() as int) =~= cy);
    lemma_varint_end_unique(all, cx.len() as int, cy.len() as int);
    assert(cx =~= cy);
    lemma_uvarint_shape(xs.len() + 1);
    lemma_uvarint_shape(ys.len() + 1);
    lemma_concat_map_fixed_len(xs, f, w);
    lemma_concat_map_fixed_len(ys, f, w);
    let n = concat_map(xs, f).len();
    assert(all.subrange(cx.len() as int, cx.len() + n as int) =~= concat_map(xs, f));
    assert(all.subrange(cy.len() as int, cy.len() + n as int) =~= concat_map(ys, f));
    lemma_concat_map_injective(xs, ys, f, w);
}

proof fn lemma_i32_item_facts()
    ensures
        forall|a: i32| #[trigger] i32_item()(a).len() == 4,
        forall|a: i32, c: i32| #[trigger] i32_item()(a) == #[trigger] i32_item()(c) ==> a == c,
{
    assert forall|a: i32, c: i32| #[trigger] i32_item()(a) == #[trigger] i32_item()(c) implies a == c by {
        lemma_i32_bytes_injective(a, c);
    }
}

proof fn lemma_u128_item_facts()
    ensures
        forall|a: u128| #[trigger] u128_item()(a).len() == 16,
        forall|a: u128, c: u128| #[trigger] u128_item()(a) == #[trigger] u128_item()(c) ==> a == c,
{
    assert forall|a: u128, c: u128| #[trigger] u128_item()(a) == #[trigger] u128_item()(c) implies a == c by {
        lemma_u128_bytes_injective(a, c);
    }
}

/// Where a compact array stands at `pos`, so does its count prefix.
proof fn lemma_compact_array_count<A>(b: Seq<u8>, pos: int, xs: Seq<A>, f: spec_fn(A) -> Seq<u8>)
    requires
        bytes_at(b, pos, compact_array(xs, f)),
    ensures
        bytes_at(b, pos, compact_count(xs.len())),
        bytes_at(b, pos + compact_count(xs.len()).len(), concat_map(xs, f)),
{
    let c = compact_count(xs.len());
    let e = compact_array(xs, f);
    assert(b.subrange(pos, pos + c.len()) =~= e.subrange(0, c.len() as int));
    assert(e.subrange(0, c.len() as int) =~= c);
    assert(b.subrange(pos + c.len(), pos + e.len()) =~= e.subrange(c.len() as int, e.len() as int));
    assert(e.subrange(c.len() as int, e.len() as int) =~= concat_map(xs, f));
}

/// Two compact arrays of a fixed-width injective encoding that both stand at
/// `pos` are the same array.
proof fn lemma_prefix_arrays<A>(b: Seq<u8>, pos: int, p: int, ys: Seq<A>, xs: Seq<A>, f: spec_fn(A) -> Seq<u8>, w: nat)
    requires
        w > 0,
        forall|a: A| #[trigger] f(a).len() == w,
        forall|a: A, c: A| #[trigger] f(a) == #[trigger] f(c) ==> a == c,
        0 <= pos <= p <= b.len(),
        b.subrange(pos, p) == compact_array(xs, f),
        bytes_at(b, pos, compact_array(ys, f)),
        xs.len() < u32::MAX,
        ys.len() < u32::MAX,
    ensures
        xs == ys,
        p == pos + compact_array(ys, f).len(),
{
    let rest = b.subrange(pos, b.len() as int);
    let ex = compact_array(xs, f);
    let ey = compact_array(ys, f);
    assert(rest =~= ex + b.subrange(p, b.len() as int));
    assert(rest =~= ey + b.subrange(pos + ey.len(), b.len() as int));
    lemma_compact_array_round_trip(xs, ys, f, w, b.subrange(p, b.len() as int), b.subrange(pos + ey.len(), b.len() as int));
}

pub fn put_compact_i32_array(buf: &mut Vec<u8>, xs: &[i32])
    ensures
        final(buf)@ == old(buf)@ + compact_array(xs@, i32_item()),
{
    let ghost f = i32_item();
    put_compact_count(buf, xs.len());
    let ghost start = buf@;
    let mut i: usize = 0;
    while i < xs.len()
        invariant
            i <= xs@.len(),
            f == i32_item(),
            buf@ == start + concat_map(xs@.subrange(0, i as int), f),
        decreases xs@.len() - i,
    {
        put_i32(buf, xs[i]);
        proof {
            assert(xs@.subrange(0, i + 1) =~= xs@.subrange(0, i as int).push(xs@[i as int]));
            lemma_concat_map_push(xs@.subrange(0, i as int), xs@[i as int], f);
        }
        i += 1;
    }
    assert(xs@.subrange(0, xs@.len() as int) =~= xs@);
    assert(buf@ =~= old(buf)@ + compact_array(xs@, f));
}

pub fn put_compact_u128_array(buf: &mut Vec<u8>, xs: &[u128])
    ensures
        final(buf)@ == old(buf)@ + compact_array(xs@, u128_item()),
{
    let ghost f = u128_item();
    put_compact_count(buf, xs.len());
    let ghost start = buf@;
    let mut i: usize = 0;
    while i < xs.len()
        invariant
            i <= xs@.len(),
            f == u128_item(),
            buf@ == start + concat_map(xs@.subrange(0, i as int), f),
        decreases xs@.len() - i,
    {
        put_u128(buf, xs[i]);
        proof {
            assert(xs@.subrange(0, i + 1) =~= xs@.subrange(0, i as int).push(xs@[i as int]));
            lemma_concat_map_push(xs@.subrange(0, i as int), xs@[i as int], f);
        }
        i += 1;
    }
    assert(xs@.subrange(0, xs@.len() as int) =~= xs@);
    assert(buf@ =~= old(buf)@ + compact_array(xs@, f));
}

/// Reads a compact array of big-endian `i32` at `pos`.
pub fn get_compact_i32_array(b: &[u8], pos: usize) -> (r: Option<(Vec<i32>, usize)>)
    ensures
        r matches Some((xs, p)) ==> pos < p <= b@.len() && b@.subrange(pos as int, p as int)
            == compact_array(xs@, i32_item()),
        forall|xs: Seq<i32>|
            xs.len() < u32::MAX && #[trigger] bytes_at(b@, pos as int, compact_array(xs, i32_item()))
                ==> (r matches Some((ys, p)) && ys@ == xs && p == pos + compact_array(xs, i32_item()).len()),
{
    let ghost f = i32_item();
    proof {
        lemma_i32_item_facts();
    }
    let (n, q) = match get_compact_count(b, pos) {
        Some(c) => c,
        None => {
            proof {
                assert forall|xs: Seq<i32>|
                    xs.len() < u32::MAX && #[trigger] bytes_at(b@, pos as int, compact_array(xs, f))
                    implies false by {
                    lemma_compact_array_count(b@, pos as int, xs, f);
                }
            }
            return None;
        },
    };
    proof {
        assert forall|ys: Seq<i32>|
            ys.len() < u32::MAX && #[trigger] bytes_at(b@, pos as int, compact_array(ys, f))
            implies ys.len() == n && q + 4 * n <= b@.len() by {
            lemma_compact_array_count(b@, pos as int, ys, f);
            lemma_concat_map_fixed_len(ys, f, 4);
        }
    }
    let mut xs: Vec<i32> = Vec::new();
    let mut p = q;
    let mut i: u32 = 0;
    while i < n
        invariant
            pos < q <= p <= b@.len(),
            b@.subrange(pos as int, q as int) == compact_count(n as nat),
            xs@.len() == i,
            i <= n,
            f == i32_item(),
            b@.subrange(q as int, p as int) == concat_map(xs@, f),
            p == q + 4 * i,
            forall|ys: Seq<i32>|
                ys.len() < u32::MAX && #[trigger] bytes_at(b@, pos as int, compact_array(ys, f))
                    ==> ys.len() == n && q + 4 * n <= b@.len(),
        decreases n - i,
    {
        let (v, p2) = match get_i32(b, p) {
            Some(x) => x,
            None => {
                proof {
                    assert forall|ys: Seq<i32>|
                        ys.len() < u32::MAX && #[trigger] bytes_at(b@, pos as int, compact_array(ys, f))
                        implies false by {
                        assert(p + 4 <= q + 4 * n) by (nonlinear_arith)
                            requires
                                p == q + 4 * i,
                                i < n,
                        ;
                    }
                }
                return None;
            },
        };
        proof {
            lemma_concat_map_push(xs@, v, f);
            assert(b@.subrange(q as int, p2 as int) =~= b@.subrange(q as int, p as int)
                + b@.subrange(p as int, p2 as int));
        }
        xs.push(v);
        p = p2;
        i += 1;
    }
    assert(b@.subrange(pos as int, p as int) =~= b@.subrange(pos as int, q as int)
        + b@.subrange(q as int, p as int));
    proof {
        assert forall|ys: Seq<i32>|
            ys.len() < u32::MAX && #[trigger] bytes_at(b@, pos as int, compact_array(ys, f))
            implies xs@ == ys && p == pos + compact_array(ys, f).len() by {
            lemma_prefix_arrays(b@, pos as int, p as int, ys, xs@, f, 4);
        }
    }
    Some((xs, p))
}

/// Reads a compact array of big-endian `u128` at `pos`.
pub fn get_compact_u128_array(b: &[u8], pos: usize) -> (r: Option<(Vec<u128>, usize)>)
    ensures
        r matches Some((xs, p)) ==> pos < p <= b@.len() && b@.subrange(pos as int, p as int)
            == compact_array(xs@, u128_item()),
        forall|xs: Seq<u128>|
            xs.len() < u32::MAX && #[trigger] bytes_at(b@, pos as int, compact_array(xs, u128_item()))
                ==> (r matches Some((ys, p)) && ys@ == xs && p == pos + compact_array(xs, u128_item()).len()),
{
    let ghost f = u128_item();
    proof {
        lemma_u128_item_facts();
    }
    let (n, q) = match get_compact_count(b, pos) {
        Some(c) => c,
        None => {
            proof {
                assert forall|xs: Seq<u128>|
                    xs.len() < u32::MAX && #[trigger] bytes_at(b@, pos as int, compact_array(xs, f))
                    implies false by {
                    lemma_compact_array_count(b@, pos as int, xs, f);
                }
            }
            return None;
        },
    };
    proof {
        assert forall|ys: Seq<u128>|
            ys.len() < u32::MAX && #[trigger] bytes_at(b@, pos as int, compact_array(ys, f))
            implies ys.len() == n && q + 16 * n <= b@.len() by {
            lemma_compact_array_count(b@, pos as int, ys, f);
            lemma_concat_map_fixed_len(ys, f, 16);
        }
    }
    let mut xs: Vec<u128> = Vec::new();
    let mut p = q;
    let mut i: u32 = 0;
    while i < n
        invariant
            pos < q <= p <= b@.len(),
            b@.subrange(pos as int, q as int) == compact_count(n as nat),
            xs@.len() == i,
            i <= n,
            f == u128_item(),
            b@.subrange(q as int, p as int) == concat_map(xs@, f),
            p == q + 16 * i,
            forall|ys: Seq<u128>|
                ys.len() < u32::MAX && #[trigger] bytes_at(b@, pos as int, compact_array(ys, f))
                    ==> ys.len() == n && q + 16 * n <= b@.len(),
        decreases n - i,
    {
        let (v, p2) = match get_u128(b, p) {
            Some(x) => x,
            None => {
                proof {
                    assert forall|ys: Seq<u128>|
                        ys.len() < u32::MAX && #[trigger] bytes_at(b@, pos as int, compact_array(ys, f))
                        implies false by {
                        assert(p + 16 <= q + 16 * n) by (nonlinear_arith)
                            requires
                                p == q + 16 * i,
                                i < n,
                        ;
                    }
                }
                return None;
            },
        };
        proof {
            lemma_concat_map_push(xs@, v, f);
            assert(b@.subrange(q as int, p2 as int) =~= b@.subrange(q as int, p as int)
                + b@.subrange(p as int, p2 as int));
        }
        xs.push(v);
        p = p2;
        i += 1;
    }
    assert(b@.subrange(pos as int, p as int) =~= b@.subrange(pos as int, q as int)
        + b@.subrange(q as int, p as int));
    proof {
        assert forall|ys: Seq<u128>|
            ys.len() < u32::MAX && #[trigger] bytes_at(b@, pos as int, compact_array(ys, f))
            implies xs@ == ys && p == pos + compact_array(ys, f).len() by {
            lemma_prefix_arrays(b@, pos as int, p as int, ys, xs@, f, 16);
        }
    }
    Some((xs, p))
}

/// Reads a zigzag varint at `pos` written in its shortest form.
pub fn get_canonical_varint(b: &[u8], pos: usize) -> (r: Option<(i32, usize)>)
    ensures
        r matches Some((v, p)) ==> pos < p <= b@.len() && b@.subrange(pos as int, p as int)
            == svarint(v as int),
        forall|v: i32|
            #[trigger] bytes_at(b@, pos as int, svarint(v as int)) ==> r == Some(
                (v, (pos + svarint(v as int).len()) as usize),
            ),
{
    let d = unsigned_varint_decode(b, pos);
    proof {
        assert forall|v: i32| #[trigger] bytes_at(b@, pos as int, svarint(v as int)) implies
            (d matches Some((raw, p)) && raw == zigzag(v as int) && p == pos + svarint(v as int).len()
            && (p - pos == 1 || b@[p - 1] != 0)) by {
            let c = svarint(v as int);
            lemma_signed_varint_round_trip(v);
            assert((zigzag(v as int) as u32) as nat == zigzag(v as int));
            lemma_unsigned_varint_round_trip(zigzag(v as int) as u32, Seq::empty());
            lemma_uvarint_shape(zigzag(v as int));
            assert(c + Seq::<u8>::empty() =~= c);
            assert(b@.subrange(pos as int, pos + c.len()) == c);
            match d {
                Some((raw, p)) => {
                    let tail = b@.subrange(pos as int, b@.len() as int);
                    assert(tail.subrange(0, p - pos) =~= b@.subrange(pos as int, p as int));
                    assert(tail.subrange(0, c.len() as int) =~= c);
                    lemma_varint_end_unique(tail, p - pos, c.len() as int);
                    assert(b@[p - 1] == c.last());
                },
                None => {},
            }
        }
    }
    match d {
        Some((raw, p)) => {
            if p - pos > 1 && b[p - 1] == 0 {
                None
            } else {
                let v: i32 = if raw % 2 == 0 {
                    (raw / 2) as i32
                } else {
                    -((raw / 2) as i32) - 1
                };
                proof {
                    let t = b@.subrange(pos as int, p as int);
                    assert(t.last() == b@[p - 1]);
                    lemma_canonical_varint(t);
                    assert(zigzag(v as int) == raw);
                    assert forall|x: i32| #[trigger] bytes_at(b@, pos as int, svarint(x as int)) implies x == v by {
                        lemma_signed_varint_round_trip(x);
                    }
                }
                Some((v, p))
            }
        },
        None => None,
    }
}

/// Whether two byte strings are equal.
pub fn bytes_eq(a: &[u8], b: &[u8]) -> (r: bool)
    ensures
        r == (a@ == b@),
{
    if a.len() != b.len() {
        return false;
    }
    let mut i: usize = 0;
    while i < a.len()
        invariant
            a@.len() == b@.len(),
            i <= a@.len(),
            forall|j: int| 0 <= j < i ==> a@[j] == b@[j],
        decreases a@.len() - i,
    {
        if a[i] != b[i] {
            return false;
        }
        i += 1;
    }
    assert(a@ =~= b@);
    true
}

} // verus!
