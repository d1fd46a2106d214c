//! Deterministic benchmark keys: an affine map of the key number (with
//! wrap-around), widened into 128 bits and laid out as 16 little-endian bytes.

use vstd::prelude::*;

verus! {

/// Multiplier of the affine map.
pub const A: u64 = 0x9e3779b97f4a7c15;

/// Offset of the affine map.
pub const B: u64 = 0xd1b54a32d192ed03;

/// 2^64.
pub open spec fn two64() -> int {
    0x1_0000_0000_0000_0000
}

/// `A * x + B` modulo 2^64.
pub open spec fn spec_create(x: u64) -> u64 {
    ((A as int * x as int + B as int) % two64()) as u64
}

/// The key numbered `i`: `create(i)` in the high half, `create(i ^ A)` in the
/// low half.
pub open spec fn spec_generate_key(i: u64) -> u128 {
    (spec_create(i) as int * two64() + spec_create(i ^ A) as int) as u128
}

/// 256 to the power `j`.
pub open spec fn pow256(j: nat) -> nat
    decreases j,
{
    if j == 0 {
        1
    } else {
        256 * pow256((j - 1) as nat)
    }
}

/// Byte `j` (from the least significant) of the number `x`.
pub open spec fn byte_of(x: int, j: nat) -> u8 {
    ((x / pow256(j) as int) % 256) as u8
}

/// The `n` little-endian bytes of `x`.
pub open spec fn le_bytes(x: int, n: nat) -> Seq<u8> {
    Seq::new(n, |j: int| byte_of(x, j as nat))
}

/// `A * x + B` with wrap-around.
pub fn create(x: u64) -> (r: u64)
    ensures
        r == spec_create(x),
{
    proof {
        vstd::arithmetic::div_mod::lemma_add_mod_noop(A as int * x as int, B as int, two64());
        vstd::arithmetic::div_mod::lemma_small_mod(B as nat, two64() as nat);
    }
    A.wrapping_mul(x).wrapping_add(B)
}

/// The key numbered `i`.
pub fn generate_key(i: u64) -> (r: u128)
    ensures
        r == spec_generate_key(i),
{
    let hi = create(i);
    let lo = create(i ^ 0x9e3779b97f4a7c15);
    let r = ((hi as u128) << 64) | (lo as u128);
    assert(((hi as u128) << 64) | (lo as u128) == (hi as u128) * 0x1_0000_0000_0000_0000u128
        + (lo as u128)) by (bit_vector);
    r
}

proof fn lemma_next_byte(k: int, x: int, j: nat)
    requires
        0 <= k,
        x == k / pow256(j) as int,
    ensures
        x / 256 == k / pow256(j + 1) as int,
        pow256(j) > 0,
{
    lemma_pow256_pos(j);
    vstd::arithmetic::div_mod::lemma_div_denominator(k, pow256(j) as int, 256);
    assert(pow256(j + 1) == 256 * pow256(j));
    assert(pow256(j) as int * 256 == pow256(j + 1) as int) by (nonlinear_arith)
        requires
            pow256(j + 1) == 256 * pow256(j),
    ;
}

proof fn lemma_pow256_pos(j: nat)
    ensures
        pow256(j) > 0,
    decreases j,
{
    if j > 0 {
        lemma_pow256_pos((j - 1) as nat);
    }
}

/// The 16 little-endian bytes of a key.
pub fn key_bytes(k: u128) -> (r: [u8; 16])
    ensures
        r@ == le_bytes(k as int, 16),
{
    let mut out = [0u8; 16];
    let mut x = k;
    let mut j: usize = 0;
    assert(pow256(0) == 1);
    while j < 16
        invariant
            0 <= j <= 16,
            out@.len() == 16,
            x as int == k as int / pow256(j as nat) as int,
            forall|t: int| 0 <= t < j ==> out@[t] == byte_of(k as int, t as nat),
        decreases 16 - j,
    {
        proof {
            lemma_next_byte(k as int, x as int, j as nat);
        }
        assert((x & 0xff) as u8 == (x % 256) as u8) by (bit_vector);
        assert(x >> 8 == x / 256) by (bit_vector);
        out[j] = (x & 0xff) as u8;
        x = x >> 8;
        j = j + 1;
    }
    assert(out@ =~= le_bytes(k as int, 16));
    out
}

/// The `n` big-endian bytes of `x`.
pub open spec fn be_bytes(x: int, n: nat) -> Seq<u8> {
    Seq::new(n, |j: int| byte_of(x, (n - 1 - j) as nat))
}

/// The number whose big-endian bytes are `s`.
pub open spec fn be_value(s: Seq<u8>) -> int
    decreases s.len(),
{
    if s.len() == 0 {
        0
    } else {
        be_value(s.drop_last()) * 256 + s.last() as int
    }
}

/// The 16 big-endian bytes of a key.
pub fn key_be_bytes(k: u128) -> (r: [u8; 16])
    ensures
        r@ == be_bytes(k as int, 16),
{
    let mut out = [0u8; 16];
    let mut x = k;
    let mut j: usize = 0;
    assert(pow256(0) == 1);
    while j < 16
        invariant
            0 <= j <= 16,
            out@.len() == 16,
            x as int == k as int / pow256(j as nat) as int,
            forall|t: int| 0 <= t < j ==> out@[15 - t] == #[trigger] byte_of(k as int, t as nat),
        decreases 16 - j,
    {
        proof {
            lemma_next_byte(k as int, x as int, j as nat);
        }
        assert((x & 0xff) as u8 == (x % 256) as u8) by (bit_vector);
        assert(x >> 8 == x / 256) by (bit_vector);
        out[15 - j] = (x & 0xff) as u8;
        x = x >> 8;
        j = j + 1;
    }
    assert(out@ =~= be_bytes(k as int, 16)) by {
        assert forall|i: int| 0 <= i < 16 implies out@[i] == be_bytes(k as int, 16)[i] by {
            assert(out@[15 - (15 - i)] == byte_of(k as int, (15 - i) as nat));
        }
    }
    out
}

proof fn lemma_be_value_bound(s: Seq<u8>)
    ensures
        0 <= be_value(s) < pow256(s.len()),
    decreases s.len(),
{
    if s.len() > 0 {
        let p = pow256((s.len() - 1) as nat);
        lemma_be_value_bound(s.drop_last());
        assert(pow256(s.len()) == 256 * p);
        let v = be_value(s.drop_last());
        let l = s.last() as int;
        assert(0 <= v * 256 + l < 256 * p) by (nonlinear_arith)
            requires
                0 <= v < p,
                0 <= l < 256,
        ;
    }
}

/// The key whose big-endian bytes are `b`.
pub fn key_from_be_bytes(b: &[u8; 16]) -> (r: u128)
    ensures
        r == be_value(b@),
{
    let mut acc: u128 = 0;
    let mut j: usize = 0;
    assert(b@.take(0) =~= Seq::<u8>::empty());
    while j < 16
        invariant
            0 <= j <= 16,
            b@.len() == 16,
            acc as int == be_value(b@.take(j as int)),
        decreases 16 - j,
    {
        proof {
            lemma_be_value_bound(b@.take(j as int));
            lemma_pow256_le(j as nat, 15);
            assert(b@.take(j + 1).drop_last() =~= b@.take(j as int));
        }
        assert(acc * 256 + 255 <= u128::MAX) by (nonlinear_arith)
            requires
                acc < pow256(15),
                pow256(15) == 0x100_0000_0000_0000_0000_0000_0000_0000u128,
        ;
        acc = acc * 256 + b[j] as u128;
        j = j + 1;
    }
    assert(b@.take(16) =~= b@);
    acc
}

proof fn lemma_pow256_le(i: nat, j: nat)
    requires
        i <= j,
    ensures
        pow256(i) <= pow256(j),
        pow256(15) == 0x100_0000_0000_0000_0000_0000_0000_0000u128,
        pow256(16) == 0x1_0000_0000_0000_0000_0000_0000_0000_0000int,
    decreases j,
{
    assert(pow256(0) == 1);
    assert(pow256(1) == 0x100);
    assert(pow256(2) == 0x1_0000);
    assert(pow256(3) == 0x100_0000);
    assert(pow256(4) == 0x1_0000_0000);
    assert(pow256(5) == 0x100_0000_0000);
    assert(pow256(6) == 0x1_0000_0000_0000);
    assert(pow256(7) == 0x100_0000_0000_0000);
    assert(pow256(8) == 0x1_0000_0000_0000_0000);
    assert(pow256(9) == 0x100_0000_0000_0000_0000);
    assert(pow256(10) == 0x1_0000_0000_0000_0000_0000);
    assert(pow256(11) == 0x100_0000_0000_0000_0000_0000);
    assert(pow256(12) == 0x1_0000_0000_0000_0000_0000_0000);
    assert(pow256(13) == 0x100_0000_0000_0000_0000_0000_0000);
    assert(pow256(14) == 0x1_0000_0000_0000_0000_0000_0000_0000);
    assert(pow256(15) == 0x100_0000_0000_0000_0000_0000_0000_0000);
    assert(pow256(16) == 0x1_0000_0000_0000_0000_0000_0000_0000_0000);
    if i < j {
        lemma_pow256_le(i, (j - 1) as nat);
    }
}

proof fn lemma_be_roundtrip(x: int, n: nat)
    requires
        0 <= x,
    ensures
        be_value(be_bytes(x, n)) == x % pow256(n) as int,
    decreases n,
{
    lemma_pow256_pos(n);
    if n > 0 {
        let s = be_bytes(x, n);
        let p = pow256((n - 1) as nat);
        lemma_pow256_pos((n - 1) as nat);
        assert forall|j: int| 0 <= j < n - 1 implies #[trigger] s.drop_last()[j] == be_bytes(
            x / 256,
            (n - 1) as nat,
        )[j] by {
            let t = (n - 2 - j) as nat;
            lemma_pow256_pos(t);
            vstd::arithmetic::div_mod::lemma_div_denominator(x, 256, pow256(t) as int);
            assert(pow256(t + 1) == 256 * pow256(t));
        }
        assert(s.drop_last() =~= be_bytes(x / 256, (n - 1) as nat));
        lemma_be_roundtrip(x / 256, (n - 1) as nat);
        assert(pow256(0) == 1);
        assert(x / 1 == x);
        assert(s.last() as int == x % 256);
        vstd::arithmetic::div_mod::lemma_mod_breakdown(x, 256, p as int);
        assert(pow256(n) == 256 * p);
        assert(be_value(s) == be_value(s.drop_last()) * 256 + s.last() as int);
    } else {
        assert(pow256(0) == 1);
    }
}

/// Reading a key back from its big-endian bytes gives the key.
pub proof fn law_be_bytes_roundtrip(k: u128)
    ensures
        be_value(be_bytes(k as int, 16)) == k,
{
    lemma_be_roundtrip(k as int, 16);
    lemma_pow256_le(16, 16);
}

/// The number whose little-endian bytes are `s`.
pub open spec fn le_value(s: Seq<u8>) -> int
    decreases s.len(),
{
    if s.len() == 0 {
        0
    } else {
        s[0] as int + 256 * le_value(s.drop_first())
    }
}

proof fn lemma_le_roundtrip(x: int, n: nat)
    requires
        0 <= x,
    ensures
        le_value(le_bytes(x, n)) == x % pow256(n) as int,
    decreases n,
{
    lemma_pow256_pos(n);
    assert(pow256(0) == 1);
    if n > 0 {
        let s = le_bytes(x, n);
        let p = pow256((n - 1) as nat);
        lemma_pow256_pos((n - 1) as nat);
        assert forall|j: int| 0 <= j < n - 1 implies #[trigger] s.drop_first()[j] == le_bytes(
            x / 256,
            (n - 1) as nat,
        )[j] by {
            let t = j as nat;
            lemma_pow256_pos(t);
            vstd::arithmetic::div_mod::lemma_div_denominator(x, 256, pow256(t) as int);
            assert(pow256(t + 1) == 256 * pow256(t));
        }
        assert(s.drop_first() =~= le_bytes(x / 256, (n - 1) as nat));
        lemma_le_roundtrip(x / 256, (n - 1) as nat);
        assert(x / 1 == x);
        assert(s[0] as int == x % 256);
        vstd::arithmetic::div_mod::lemma_mod_breakdown(x, 256, p as int);
        assert(pow256(n) == 256 * p);
    }
}

/// Reading a key back from its little-endian bytes gives the key.
pub proof fn law_le_bytes_roundtrip(k: u128)
    ensures
        le_value(le_bytes(k as int, 16)) == k,
{
    lemma_le_roundtrip(k as int, 16);
    lemma_pow256_le(16, 16);
}

/// Multiplying by `A` modulo 2^64 is undone by multiplying by its inverse.
proof fn lemma_create_injective(x: u64, y: u64)
    requires
        spec_create(x) == spec_create(y),
    ensures
        x == y,
{
    let m = two64();
    let a = A as int;
    vstd::arithmetic::div_mod::lemma_add_mod_noop(a * x, B as int, m);
    vstd::arithmetic::div_mod::lemma_add_mod_noop(a * y, B as int, m);
    vstd::arithmetic::div_mod::lemma_small_mod(B as nat, m as nat);
    vstd::arithmetic::div_mod::lemma_mod_bound(a * x, m);
    vstd::arithmetic::div_mod::lemma_mod_bound(a * y, m);
    assert((a * x) % m == (a * y) % m);
    lemma_unmultiply(x);
    lemma_unmultiply(y);
}

proof fn lemma_unmultiply(z: u64)
    ensures
        (0xf1de83e19937733d * ((A as int * z) % two64())) % two64() == z,
{
    let m = two64();
    let inv: int = 0xf1de83e19937733d;
    let a = A as int;
    vstd::arithmetic::div_mod::lemma_mul_mod_noop_right(inv, a * z, m);
    vstd::arithmetic::mul::lemma_mul_is_associative(inv, a, z as int);
    vstd::arithmetic::div_mod::lemma_mul_mod_noop_left(inv * a, z as int, m);
    assert((inv * a) % m == 1);
    vstd::arithmetic::div_mod::lemma_small_mod(z as nat, m as nat);
}

/// Distinct key numbers give distinct keys, and distinct key bytes.
pub proof fn law_keys_distinct(i: u64, j: u64)
    requires
        i != j,
    ensures
        spec_generate_key(i) != spec_generate_key(j),
        le_bytes(spec_generate_key(i) as int, 16) != le_bytes(spec_generate_key(j) as int, 16),
{
    let ki = spec_generate_key(i);
    let kj = spec_generate_key(j);
    let hi = spec_create(i) as int;
    let hj = spec_create(j) as int;
    let li = spec_create(i ^ A) as int;
    let lj = spec_create(j ^ A) as int;
    assert(ki as int == hi * two64() + li);
    assert(kj as int == hj * two64() + lj);
    if ki == kj {
        vstd::arithmetic::div_mod::lemma_fundamental_div_mod_converse(ki as int, two64(), hi, li);
        vstd::arithmetic::div_mod::lemma_fundamental_div_mod_converse(kj as int, two64(), hj, lj);
        lemma_create_injective(i, j);
    }
    lemma_le_roundtrip(ki as int, 16);
    lemma_le_roundtrip(kj as int, 16);
    lemma_pow256_le(16, 16);
}

/// The key numbered `i` carries `create(i)` in its high 64 bits and
/// `create(i XOR A)` in its low 64 bits.
pub proof fn law_key_halves(i: u64)
    ensures
        spec_generate_key(i) as int / two64() == spec_create(i) as int,
        spec_generate_key(i) as int % two64() == spec_create(i ^ A) as int,
{
    let hi = spec_create(i) as int;
    let lo = spec_create(i ^ A) as int;
    assert(0 <= hi * two64() + lo < 0x1_0000_0000_0000_0000_0000_0000_0000_0000) by (nonlinear_arith)
        requires
            0 <= hi < two64(),
            0 <= lo < two64(),
            two64() == 0x1_0000_0000_0000_0000,
    ;
    assert(spec_generate_key(i) as int == hi * two64() + lo);
    vstd::arithmetic::div_mod::lemma_fundamental_div_mod_converse(
        spec_generate_key(i) as int,
        two64(),
        hi,
        lo,
    );
}

/// Writes the 8 little-endian bytes of `v` into `out[offset..offset + 8]`.
pub fn put_le_u64(out: &mut [u8; 16], offset: usize, v: u64)
    requires
        offset <= 8,
    ensures
        final(out)@ == old(out)@.subrange(0, offset as int) + le_bytes(v as int, 8) + old(
            out,
        )@.subrange(offset + 8, 16),
{
    let mut x = v;
    let mut j: usize = 0;
    assert(pow256(0) == 1);
    while j < 8
        invariant
            0 <= j <= 8,
            offset <= 8,
            out@.len() == 16,
            x as int == v as int / pow256(j as nat) as int,
            forall|t: int| 0 <= t < j ==> out@[offset + t] == #[trigger] byte_of(v as int, t as nat),
            forall|t: int|
                0 <= t < 16 && !(offset <= t < offset + 8) ==> out@[t] == old(out)@[t],
        decreases 8 - j,
    {
        proof {
            lemma_next_byte(v as int, x as int, j as nat);
        }
        assert((x & 0xff) as u8 == (x % 256) as u8) by (bit_vector);
        assert(x >> 8 == x / 256) by (bit_vector);
        out[offset + j] = (x & 0xff) as u8;
        x = x >> 8;
        j = j + 1;
    }
    assert(out@ =~= old(out)@.subrange(0, offset as int) + le_bytes(v as int, 8) + old(
        out,
    )@.subrange(offset + 8, 16)) by {
        assert forall|t: int| offset <= t < offset + 8 implies out@[t] == le_bytes(v as int, 8)[t
            - offset] by {
            assert(byte_of(v as int, (t - offset) as nat) == out@[offset + (t - offset)]);
        }
    }
}

/// The keys numbered `start .. start + count`, in order.
pub fn generate_keys_range(start: u64, count: u64) -> (r: Vec<u128>)
    requires
        start + count <= u64::MAX,
    ensures
        r@ == Seq::new(count as nat, |i: int| spec_generate_key((start + i) as u64)),
{
    let mut keys: Vec<u128> = Vec::new();
    let mut i: u64 = 0;
    while i < count
        invariant
            i <= count,
            start + count <= u64::MAX,
            keys@ == Seq::new(i as nat, |t: int| spec_generate_key((start + t) as u64)),
        decreases count - i,
    {
        keys.push(generate_key(start + i));
        i = i + 1;
        assert(keys@ =~= Seq::new(i as nat, |t: int| spec_generate_key((start + t) as u64)));
    }
    keys
}

/// The keys numbered `0 .. count`, in order.
pub fn generate_keys_table(count: u64) -> (r: Vec<u128>)
    ensures
        r@ == Seq::new(count as nat, |i: int| spec_generate_key(i as u64)),
{
    let mut keys: Vec<u128> = Vec::new();
    let mut i: u64 = 0;
    while i < count
        invariant
            i <= count,
            keys@ == Seq::new(i as nat, |t: int| spec_generate_key(t as u64)),
        decreases count - i,
    {
        keys.push(generate_key(i));
        i = i + 1;
        assert(keys@ =~= Seq::new(i as nat, |t: int| spec_generate_key(t as u64)));
    }
    keys
}

} // verus!
