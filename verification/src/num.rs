//! Fixed-width integers as they travel on the wire: two's complement and big-endian byte order.
use vstd::prelude::*;

verus! {

/// The representative of `v` in two's complement with `2^8`, `2^16`, `2^32` or `2^64` as modulus.
pub open spec fn twos8(v: int) -> nat {
    (v % 0x100) as nat
}

pub open spec fn twos16(v: int) -> nat {
    (v % 0x1_0000) as nat
}

pub open spec fn twos32(v: int) -> nat {
    (v % 0x1_0000_0000) as nat
}

pub open spec fn twos64(v: int) -> nat {
    (v % 0x1_0000_0000_0000_0000) as nat
}

/// The signed reading of the low 16, 32 or 64 bits of `n`.
pub open spec fn signed16(n: int) -> i16 {
    if n % 0x1_0000 < 0x8000 {
        (n % 0x1_0000) as i16
    } else {
        (n % 0x1_0000 - 0x1_0000) as i16
    }
}

pub open spec fn signed32(n: int) -> i32 {
    if n % 0x1_0000_0000 < 0x8000_0000 {
        (n % 0x1_0000_0000) as i32
    } else {
        (n % 0x1_0000_0000 - 0x1_0000_0000) as i32
    }
}

pub open spec fn signed64(n: int) -> i64 {
    if n % 0x1_0000_0000_0000_0000 < 0x8000_0000_0000_0000 {
        (n % 0x1_0000_0000_0000_0000) as i64
    } else {
        (n % 0x1_0000_0000_0000_0000 - 0x1_0000_0000_0000_0000) as i64
    }
}

/// The index that a signed 32-bit length turns into: a negative one wraps to the top of `usize`.
pub open spec fn index_of(v: i32) -> int {
    if v < 0 {
        usize::MAX + 1 + v
    } else {
        v as int
    }
}

/// `n` reduced to the range of `usize`.
pub open spec fn wrap_index(n: int) -> int {
    n % (usize::MAX + 1)
}

/// The low `n` bytes of `x`, most significant first.
pub open spec fn be_bytes(x: nat, n: nat) -> Seq<u8>
    decreases n,
{
    if n == 0 {
        Seq::empty()
    } else {
        be_bytes(x / 256, (n - 1) as nat).push((x % 256) as u8)
    }
}

/// The number that `s` spells, most significant byte first.
pub open spec fn be_value(s: Seq<u8>) -> nat
    decreases s.len(),
{
    if s.len() == 0 {
        0
    } else {
        be_value(s.drop_last()) * 256 + s.last() as nat
    }
}

/// `256^n`.
pub open spec fn pow256(n: nat) -> nat
    decreases n,
{
    if n == 0 {
        1
    } else {
        256 * pow256((n - 1) as nat)
    }
}

/// `n` bytes are written.
pub proof fn lemma_be_bytes_len(x: nat, n: nat)
    ensures
        be_bytes(x, n).len() == n,
    decreases n,
{
    if n > 0 {
        lemma_be_bytes_len(x / 256, (n - 1) as nat);
    }
}

/// Reading back the `n` bytes written for a number that fits in them gives that number.
pub proof fn be_round_trip(x: nat, n: nat)
    requires
        x < pow256(n),
    ensures
        be_value(be_bytes(x, n)) == x,
        be_bytes(x, n).len() == n,
    decreases n,
{
    lemma_be_bytes_len(x, n);
    if n > 0 {
        be_round_trip(x / 256, (n - 1) as nat);
        assert(be_bytes(x, n).drop_last() == be_bytes(x / 256, (n - 1) as nat));
    }
}

/// Writing the number read from `s` in as many bytes gives `s` again.
pub proof fn be_read_write(s: Seq<u8>)
    ensures
        be_bytes(be_value(s), s.len()) == s,
        be_value(s) < pow256(s.len()),
    decreases s.len(),
{
    if s.len() > 0 {
        be_read_write(s.drop_last());
        assert(s == s.drop_last().push(s.last()));
    }
}

pub proof fn lemma_pow256_values()
    ensures
        pow256(1) == 0x100,
        pow256(2) == 0x1_0000,
        pow256(4) == 0x1_0000_0000,
        pow256(8) == 0x1_0000_0000_0000_0000,
        pow256(16) == 0x1_0000_0000_0000_0000_0000_0000_0000_0000,
{
    reveal_with_fuel(pow256, 17);
}

pub proof fn lemma_pow256_increases(m: nat, n: nat)
    requires
        m <= n,
    ensures
        pow256(m) <= pow256(n),
    decreases n,
{
    if m < n {
        lemma_pow256_increases(m, (n - 1) as nat);
    }
}

/// Appends the low `n` bytes of `x` to `buf`, most significant first.
pub fn push_be(buf: &mut Vec<u8>, x: u128, n: usize)
    ensures
        final(buf)@ == old(buf)@ + be_bytes(x as nat, n as nat),
    decreases n,
{
    if n > 0 {
        push_be(buf, x / 256, n - 1);
        buf.push((x % 256) as u8);
    }
}

/// The number that `s` spells, most significant byte first.
pub fn read_be(s: &[u8]) -> (value: u128)
    requires
        s@.len() <= 16,
    ensures
        value == be_value(s@),
{
    let mut value: u128 = 0;
    for i in 0..s.len()
        invariant
            s@.len() <= 16,
            value == be_value(s@.take(i as int)),
    {
        proof {
            let next = s@.take(i + 1);
            assert(next.drop_last() == s@.take(i as int));
            be_read_write(next);
            lemma_pow256_increases(next.len(), 16);
            lemma_pow256_values();
        }
        value = value * 256 + s[i] as u128;
    }
    assert(s@.take(s@.len() as int) == s@);
    value
}

/// The two's complement of a signed number in 8 bits.
pub fn i8_bits(v: i8) -> (r: u8)
    ensures
        r == twos8(v as int),
{
    if v >= 0 {
        v as u8
    } else {
        ((v - i8::MIN) as u8) + 0x80
    }
}

/// The two's complement of a signed number in 16 bits.
pub fn i16_bits(v: i16) -> (r: u16)
    ensures
        r == twos16(v as int),
{
    if v >= 0 {
        v as u16
    } else {
        ((v - i16::MIN) as u16) + 0x8000
    }
}

/// The two's complement of a signed number in 32 bits.
pub fn i32_bits(v: i32) -> (r: u32)
    ensures
        r == twos32(v as int),
{
    if v >= 0 {
        v as u32
    } else {
        ((v - i32::MIN) as u32) + 0x8000_0000
    }
}

/// The two's complement of a signed number in 64 bits.
pub fn i64_bits(v: i64) -> (r: u64)
    ensures
        r == twos64(v as int),
{
    if v >= 0 {
        v as u64
    } else {
        ((v - i64::MIN) as u64) + 0x8000_0000_0000_0000
    }
}

/// The signed reading of 16 bits.
pub fn bits_i16(v: u16) -> (r: i16)
    ensures
        r == signed16(v as int),
{
    if v < 0x8000 {
        v as i16
    } else {
        ((v - 0x8000) as i16) + i16::MIN
    }
}

/// The signed reading of 32 bits.
pub fn bits_i32(v: u32) -> (r: i32)
    ensures
        r == signed32(v as int),
{
    if v < 0x8000_0000 {
        v as i32
    } else {
        ((v - 0x8000_0000) as i32) + i32::MIN
    }
}

/// The signed reading of 64 bits.
pub fn bits_i64(v: u64) -> (r: i64)
    ensures
        r == signed64(v as int),
{
    if v < 0x8000_0000_0000_0000 {
        v as i64
    } else {
        ((v - 0x8000_0000_0000_0000) as i64) + i64::MIN
    }
}

/// A length kept in 32 bits: the low 32 bits of `n`, read as a signed number.
pub fn len_i32(n: usize) -> (r: i32)
    ensures
        r == signed32(n as int),
{
    bits_i32((n as u64 % 0x1_0000_0000) as u32)
}

/// A signed length as an index; a negative one wraps to the top of `usize`.
pub fn index_i32(v: i32) -> (r: usize)
    ensures
        r == index_of(v),
{
    if v < 0 {
        usize::MAX - (-(v + 1)) as usize
    } else {
        v as usize
    }
}

} // verus!
