//! Variable-length integers: seven bits per byte, least significant group first, with the top
//! bit of every byte but the last one set.
use vstd::prelude::*;

use crate::num;

verus! {

/// A 32-bit signed integer with the variable-length wire form.
#[derive(Debug, Clone, Copy, PartialEq, Eq, Structural)]
pub struct VarInt(pub i32);

/// What a decoder found at the head of its input.
#[derive(Debug, Clone, Copy, PartialEq, Eq, Structural)]
pub enum DecodeResult {
    /// A complete number.
    Complete(VarInt),
    /// The low 32 bits of a number that goes on, or that does not fit in 32 bits.
    Incomplete(VarInt),
    /// There was no input.
    Empty,
}

/// No number takes more bytes than this.
pub const MAX_LEN: usize = 5;

/// The wire form of `n`.
pub open spec fn wire(n: nat) -> Seq<u8>
    decreases n,
{
    if n < 128 {
        seq![n as u8]
    } else {
        seq![(128 + n % 128) as u8] + wire(n / 128)
    }
}

/// The wire form of a signed number: that of its two's complement.
pub open spec fn wire_i32(v: i32) -> Seq<u8> {
    wire(num::twos32(v as int))
}

/// How many of the first `limit` bytes belong to the number at the head of `data`: all up to and
/// with the first one whose top bit is clear.
pub open spec fn extent(data: Seq<u8>, limit: nat) -> nat
    decreases limit,
{
    if data.len() == 0 || limit == 0 {
        0
    } else if data[0] < 128 {
        1
    } else {
        1 + extent(data.skip(1), (limit - 1) as nat)
    }
}

/// The number that the low seven bits of the bytes spell, least significant group first.
pub open spec fn value(data: Seq<u8>) -> nat
    decreases data.len(),
{
    if data.len() == 0 {
        0
    } else {
        (data[0] % 128) as nat + 128 * value(data.skip(1))
    }
}

/// The number of bytes that the number at the head of `data` takes.
pub open spec fn size(data: Seq<u8>) -> nat {
    extent(data, MAX_LEN as nat)
}

/// The low 32 bits of the number at the head of `data`; 0 if there is none.
pub open spec fn low_bits(data: Seq<u8>) -> i32 {
    num::signed32(value(data.take(size(data) as int)) as int)
}

/// Whether the number at the head of `data` is all there and fits in 32 bits.
pub open spec fn complete(data: Seq<u8>) -> bool {
    let read = size(data) as int;
    &&& data.len() > 0
    &&& data[read - 1] < 128
    &&& value(data.take(read)) < 0x1_0000_0000
}

/// What decoding `data` finds.
pub open spec fn result(data: Seq<u8>) -> DecodeResult {
    if data.len() == 0 {
        DecodeResult::Empty
    } else if complete(data) {
        DecodeResult::Complete(VarInt(low_bits(data)))
    } else {
        DecodeResult::Incomplete(VarInt(low_bits(data)))
    }
}

/// `128^n`.
pub open spec fn pow128(n: nat) -> nat
    decreases n,
{
    if n == 0 {
        1
    } else {
        128 * pow128((n - 1) as nat)
    }
}

pub proof fn lemma_pow128_values()
    ensures
        pow128(0) == 1,
        pow128(1) == 0x80,
        pow128(2) == 0x4000,
        pow128(3) == 0x20_0000,
        pow128(4) == 0x1000_0000,
        pow128(5) == 0x8_0000_0000,
{
    reveal_with_fuel(pow128, 6);
}

pub proof fn lemma_extent_bounds(data: Seq<u8>, limit: nat)
    ensures
        extent(data, limit) <= data.len(),
        extent(data, limit) <= limit,
        data.len() > 0 && limit > 0 ==> extent(data, limit) > 0,
    decreases limit,
{
    if data.len() > 0 && limit > 0 && data[0] >= 128 {
        lemma_extent_bounds(data.skip(1), (limit - 1) as nat);
    }
}

proof fn lemma_value_push(data: Seq<u8>, byte: u8)
    ensures
        value(data.push(byte)) == value(data) + (byte % 128) * pow128(data.len()),
    decreases data.len(),
{
    reveal_with_fuel(value, 2);
    if data.len() == 0 {
        assert(data.push(byte).skip(1) == Seq::<u8>::empty());
        assert(pow128(0) == 1);
    } else {
        lemma_value_push(data.skip(1), byte);
        assert(data.push(byte).skip(1) == data.skip(1).push(byte));
        let p = pow128((data.len() - 1) as nat) as int;
        let b = (byte % 128) as int;
        assert(128 * (b * p) == b * (128 * p)) by (nonlinear_arith);
        assert(value(data.push(byte)) == data[0] % 128 + 128 * value(data.skip(1).push(byte)));
    }
}

pub proof fn lemma_value_bound(data: Seq<u8>)
    ensures
        value(data) < pow128(data.len()),
    decreases data.len(),
{
    if data.len() > 0 {
        lemma_value_bound(data.skip(1));
    }
}

/// One more group adds its seven bits above those of the groups before it.
proof fn lemma_next_group(data: Seq<u8>, i: int)
    requires
        0 <= i < data.len(),
        i < MAX_LEN,
    ensures
        value(data.take(i + 1)) == value(data.take(i)) + (data[i] % 128) * pow128(i as nat),
        value(data.take(i)) < pow128(i as nat),
        value(data.take(i + 1)) < pow128((i + 1) as nat),
{
    assert(data.take(i + 1) == data.take(i).push(data[i]));
    lemma_value_push(data.take(i), data[i]);
    lemma_value_bound(data.take(i));
    lemma_value_bound(data.take(i + 1));
}

/// Of the group of a fifth byte only the lowest four bits count among the low 32.
proof fn lemma_top_group(low: int, byte: u8)
    requires
        0 <= low < 0x1000_0000,
    ensures
        num::signed32(low + (byte % 128) * 0x1000_0000) == num::signed32(
            low + (byte % 16) * 0x1000_0000,
        ),
        low + (byte % 128) * 0x1000_0000 < 0x1_0000_0000 <==> byte % 128 < 16,
{
    let group = (byte % 128) as int;
    assert(byte % 16 == group % 16);
    let high = group / 16;
    assert(group == 16 * high + group % 16);
    assert(low + group * 0x1000_0000 == low + (group % 16) * 0x1000_0000 + high * 0x1_0000_0000);
}

/// A number whose bytes all go on, up to the one at `i`, ends there if that byte does not go on or
/// is the last that a number can have.
pub proof fn lemma_ends_at(data: Seq<u8>, i: int)
    requires
        0 <= i < data.len(),
        i < MAX_LEN,
        forall|j: int| 0 <= j < i ==> data[j] >= 128,
        data[i] < 128 || i == MAX_LEN - 1,
    ensures
        size(data) == i + 1,
{
    lemma_extent_split(data, MAX_LEN as nat, i as nat);
    reveal_with_fuel(extent, 2);
}

/// A number whose bytes all go on takes all the bytes there are, if these are fewer than five.
pub proof fn lemma_runs_out(data: Seq<u8>)
    requires
        data.len() < MAX_LEN,
        forall|j: int| 0 <= j < data.len() ==> data[j] >= 128,
    ensures
        size(data) == data.len(),
{
    lemma_extent_split(data, MAX_LEN as nat, data.len());
}

/// If none of the first `n` bytes ends the number, the number takes those and the rest's extent.
proof fn lemma_extent_split(data: Seq<u8>, limit: nat, n: nat)
    requires
        n <= data.len(),
        n <= limit,
        forall|j: int| 0 <= j < n ==> data[j] >= 128,
    ensures
        extent(data, limit) == n + extent(data.skip(n as int), (limit - n) as nat),
    decreases n,
{
    if n == 0 {
        assert(data.skip(0) == data);
    } else {
        lemma_extent_split(data.skip(1), (limit - 1) as nat, (n - 1) as nat);
        assert(data.skip(1).skip(n - 1) == data.skip(n as int));
    }
}

proof fn lemma_wire_extent(n: nat, rest: Seq<u8>, limit: nat)
    requires
        n < pow128(limit),
        limit > 0,
    ensures
        extent(wire(n) + rest, limit) == wire(n).len(),
        value(wire(n)) == n,
        wire(n).len() > 0,
        wire(n).last() < 128,
        wire(n).len() <= limit,
    decreases n,
{
    reveal_with_fuel(value, 2);
    lemma_pow128_values();
    if n < 128 {
        assert(wire(n).skip(1) == Seq::<u8>::empty());
    } else {
        lemma_wire_extent(n / 128, rest, (limit - 1) as nat);
        assert((wire(n) + rest).skip(1) == wire(n / 128) + rest);
        assert(wire(n).skip(1) == wire(n / 128));
    }
}

/// Decoding the wire form of a number, whatever follows it, finds that number and reads exactly
/// its bytes.
pub proof fn decode_inverts_encode(v: i32, rest: Seq<u8>)
    ensures
        size(wire_i32(v) + rest) == wire_i32(v).len(),
        result(wire_i32(v) + rest) == DecodeResult::Complete(VarInt(v)),
{
    let n = num::twos32(v as int);
    lemma_pow128_values();
    lemma_wire_extent(n, rest, MAX_LEN as nat);
    assert((wire(n) + rest).take(wire(n).len() as int) == wire(n));
}

/// The wire form of a number has one to five bytes.
pub proof fn wire_i32_len(v: i32)
    ensures
        1 <= wire_i32(v).len() <= MAX_LEN,
{
    lemma_pow128_values();
    lemma_wire_extent(num::twos32(v as int), Seq::empty(), MAX_LEN as nat);
}

/// A complete number is found from its own bytes alone: what follows them has no influence.
pub proof fn decode_ignores_what_follows(data: Seq<u8>, rest: Seq<u8>)
    requires
        result(data) is Complete,
    ensures
        result(data + rest) == result(data),
        size(data + rest) == size(data),
{
    lemma_extent_append(data, rest, MAX_LEN as nat);
    lemma_extent_bounds(data, MAX_LEN as nat);
    let read = size(data) as int;
    assert((data + rest).take(read) == data.take(read));
}

/// The last byte of an incomplete number goes on, unless the number has all its five bytes and
/// does not fit in 32 bits.
pub proof fn incomplete_numbers_go_on(data: Seq<u8>)
    requires
        result(data) is Incomplete,
        value(data.take(size(data) as int)) < 0x1_0000_0000,
    ensures
        data[size(data) - 1] >= 128,
{
}

/// However many bytes a number may take, what decoding finds are its low 32 bits.
pub proof fn low_bits_of_any_length(data: Seq<u8>, limit: nat)
    requires
        limit >= MAX_LEN,
    ensures
        low_bits(data) == num::signed32(value(data.take(extent(data, limit) as int)) as int),
{
    let long = extent(data, limit) as int;
    let short = size(data) as int;
    lemma_extent_bounds(data, limit);
    lemma_extent_limit(data, MAX_LEN as nat, limit);
    if long != short {
        let low = data.take(5);
        let high = data.take(long).skip(5);
        assert(data.take(long) == low + high);
        lemma_value_append(low, high);
        lemma_pow128_values();
        assert(data.take(short) == low);
        lemma_far_bits(value(low) as int, value(high) as int);
    }
}

proof fn lemma_far_bits(low: int, high: int)
    ensures
        num::signed32(low + 0x8_0000_0000 * high) == num::signed32(low),
{
    assert((low + 0x8_0000_0000 * high) % 0x1_0000_0000 == low % 0x1_0000_0000);
}

proof fn lemma_extent_limit(data: Seq<u8>, limit: nat, more: nat)
    requires
        limit <= more,
    ensures
        extent(data, limit) == extent(data, more) || (extent(data, limit) == limit && extent(
            data,
            more,
        ) >= limit),
    decreases limit,
{
    if data.len() > 0 && limit > 0 && data[0] >= 128 {
        lemma_extent_limit(data.skip(1), (limit - 1) as nat, (more - 1) as nat);
    }
}

proof fn lemma_value_append(low: Seq<u8>, high: Seq<u8>)
    ensures
        value(low + high) == value(low) + pow128(low.len()) * value(high),
    decreases low.len(),
{
    if low.len() == 0 {
        assert(low + high == high);
        assert(pow128(0) * value(high) == value(high)) by (nonlinear_arith)
            requires
                pow128(0) == 1,
        ;
    } else {
        lemma_value_append(low.skip(1), high);
        assert((low + high).skip(1) == low.skip(1) + high);
        let p = pow128((low.len() - 1) as nat) as int;
        let h = value(high) as int;
        assert(128 * (p * h) == (128 * p) * h) by (nonlinear_arith);
    }
}

proof fn lemma_extent_append(data: Seq<u8>, rest: Seq<u8>, limit: nat)
    requires
        data.len() > 0,
        limit > 0,
        data[extent(data, limit) - 1] < 128,
    ensures
        extent(data + rest, limit) == extent(data, limit),
    decreases limit,
{
    lemma_extent_bounds(data, limit);
    if data[0] >= 128 {
        let tail = data.skip(1);
        assert((data + rest).skip(1) == tail + rest);
        lemma_extent_bounds(tail, (limit - 1) as nat);
        assert(extent(tail, (limit - 1) as nat) > 0) by {
            if extent(tail, (limit - 1) as nat) == 0 {
                assert(data[0] < 128);
            }
        }
        lemma_extent_append(tail, rest, (limit - 1) as nat);
    }
}

impl VarInt {
    /// The number with the variable-length wire form.
    pub fn new(value: i32) -> (r: Self)
        ensures
            r == VarInt(value),
    {
        Self(value)
    }

    /// The number.
    pub fn value(&self) -> (r: i32)
        ensures
            r == self.0,
    {
        self.0
    }

    /// The wire form of the number.
    pub fn encode(&self) -> (out: Vec<u8>)
        ensures
            out@ == wire_i32(self.0),
    {
        let mut out: Vec<u8> = Vec::with_capacity(MAX_LEN);
        let mut rest: u32 = num::i32_bits(self.0);
        while rest >= 128
            invariant
                out@ + wire(rest as nat) == wire_i32(self.0),
            decreases rest,
        {
            out.push((rest % 128) as u8 + 128);
            rest = rest / 128;
        }
        out.push(rest as u8);
        out
    }

    /// Decodes the number at the head of `data`. The first component of the result is the number
    /// of bytes that it takes.
    ///
    /// `Complete` holds a number that is complete and fits in 32 bits, even if more data follows.
    /// `Incomplete` holds the low 32 bits of one that goes on or does not fit, and `Empty` is the
    /// answer to empty input.
    pub fn decode(data: &[u8]) -> (r: (usize, DecodeResult))
        ensures
            r.0 == size(data@),
            r.1 == result(data@),
    {
        if data.is_empty() {
            return (0, DecodeResult::Empty);
        }
        let mut collector: u32 = 0;
        let mut scale: u32 = 1;
        let mut i: usize = 0;
        while i < data.len() && i < 4
            invariant
                data@.len() > 0,
                i <= data@.len(),
                i <= 4,
                scale == pow128(i as nat),
                collector == value(data@.take(i as int)),
                forall|j: int| 0 <= j < i ==> data@[j] >= 128,
            decreases 4 - i,
        {
            let byte: u8 = data[i];
            proof {
                lemma_pow128_values();
                lemma_next_group(data@, i as int);
            }
            collector = collector + (byte % 128) as u32 * scale;
            if byte < 128 {
                proof {
                    lemma_ends_at(data@, i as int);
                }
                return (i + 1, DecodeResult::Complete(VarInt(num::bits_i32(collector))));
            }
            scale = scale * 128;
            i = i + 1;
        }
        if i == data.len() {
            proof {
                lemma_runs_out(data@);
            }
            return (i, DecodeResult::Incomplete(VarInt(num::bits_i32(collector))));
        }
        let byte: u8 = data[4];
        proof {
            lemma_pow128_values();
            lemma_next_group(data@, 4);
            lemma_ends_at(data@, 4);
            lemma_top_group(collector as int, byte);
        }
        let low: i32 = num::bits_i32(collector + (byte % 16) as u32 * 0x1000_0000);
        if byte >= 16 {
            (5, DecodeResult::Incomplete(VarInt(low)))
        } else {
            (5, DecodeResult::Complete(VarInt(low)))
        }
    }

    /// The loosest decoding: the low 32 bits of what is there, 0 for empty input. Never fails.
    pub fn decode_loose(data: &[u8]) -> (r: (usize, VarInt))
        ensures
            r.0 == size(data@),
            r.1 == VarInt(low_bits(data@)),
    {
        let (read, result) = Self::decode(data);
        (
            read,
            match result {
                DecodeResult::Complete(v) | DecodeResult::Incomplete(v) => v,
                DecodeResult::Empty => VarInt(0),
            },
        )
    }

    /// Decodes a number only if it is complete and fits in 32 bits.
    pub fn decode_strict(data: &[u8]) -> (r: (usize, Option<VarInt>))
        ensures
            r.0 == size(data@),
            r.1 == if complete(data@) {
                Some(VarInt(low_bits(data@)))
            } else {
                None
            },
    {
        let (read, result) = Self::decode(data);
        (
            read,
            match result {
                DecodeResult::Complete(v) => Some(v),
                _ => None,
            },
        )
    }
}

} // verus!
