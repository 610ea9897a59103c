//! Numbers on the wire, digit by digit.
use vstd::arithmetic::power::pow;
use vstd::prelude::*;

use crate::num;
use crate::serialize;
use crate::serverbound;
use crate::varint;
use crate::varint::{DecodeResult, VarInt};

verus! {

/// A number of a fixed width is written as its digits to the base 256, the highest first.
pub proof fn bytes_are_digits(x: nat, n: nat, i: int)
    requires
        0 <= i < n,
    ensures
        num::be_bytes(x, n).len() == n,
        num::be_bytes(x, n)[i] == (x as int / pow(256, (n - 1 - i) as nat)) % 256,
    decreases n,
{
    num::lemma_be_bytes_len(x, n);
    num::lemma_be_bytes_len(x / 256, (n - 1) as nat);
    let k = (n - 1 - i) as nat;
    if k == 0 {
        vstd::arithmetic::power::lemma_pow0(256);
        assert(x as int / 1 == x);
    } else {
        bytes_are_digits(x / 256, (n - 1) as nat, i);
        let p = pow(256, (k - 1) as nat);
        assert(pow(256, k) == 256 * p) by {
            reveal(pow);
        }
        vstd::arithmetic::power::lemma_pow_positive(256, (k - 1) as nat);
        vstd::arithmetic::div_mod::lemma_div_denominator(x as int, 256, p);
    }
}

/// A number of a fixed width is read with its first byte the highest.
pub proof fn first_byte_counts_most(first: u8, rest: Seq<u8>)
    ensures
        num::be_value(seq![first] + rest) == first * pow(256, rest.len()) + num::be_value(rest),
    decreases rest.len(),
{
    let s = seq![first] + rest;
    if rest.len() == 0 {
        vstd::arithmetic::power::lemma_pow0(256);
        reveal_with_fuel(num::be_value, 2);
        assert(s.drop_last() =~= Seq::empty());
        assert(first * pow(256, 0) == first) by (nonlinear_arith)
            requires
                pow(256, 0) == 1,
        ;
    } else {
        first_byte_counts_most(first, rest.drop_last());
        assert(s.drop_last() =~= seq![first] + rest.drop_last());
        let p = pow(256, (rest.len() - 1) as nat);
        assert(pow(256, rest.len()) == 256 * p) by {
            reveal(pow);
        }
        assert(first * p * 256 == first * (256 * p)) by (nonlinear_arith);
        assert((first * p + num::be_value(rest.drop_last())) * 256 == first * p * 256
            + num::be_value(rest.drop_last()) * 256) by (nonlinear_arith);
    }
}

/// Bits stand for the numbers that differ from them by multiples of the modulus.
pub proof fn bits_stand_for_their_number(v: int)
    ensures
        num::twos8(v) < 0x100 && (num::twos8(v) - v) % 0x100 == 0,
        num::twos16(v) < 0x1_0000 && (num::twos16(v) - v) % 0x1_0000 == 0,
        num::twos32(v) < 0x1_0000_0000 && (num::twos32(v) - v) % 0x1_0000_0000 == 0,
        num::twos64(v) < 0x1_0000_0000_0000_0000 && (num::twos64(v) - v) % 0x1_0000_0000_0000_0000
            == 0,
        (num::signed16(v) - v) % 0x1_0000 == 0,
        (num::signed32(v) - v) % 0x1_0000_0000 == 0,
        (num::signed64(v) - v) % 0x1_0000_0000_0000_0000 == 0,
{
}

/// An index that wraps around differs from what it was by a multiple of the number of indices.
pub proof fn indices_wrap_around(v: i32, n: int)
    ensures
        0 <= num::index_of(v) <= usize::MAX,
        v >= 0 ==> num::index_of(v) == v,
        v < 0 ==> num::index_of(v) - v == usize::MAX + 1,
        0 <= num::wrap_index(n) <= usize::MAX,
        (n - num::wrap_index(n)) % (usize::MAX + 1) == 0,
        0 <= n <= usize::MAX ==> num::wrap_index(n) == n,
{
    let m = usize::MAX + 1;
    let (q, r) = (n / m, n % m);
    vstd::arithmetic::div_mod::lemma_fundamental_div_mod(n, m);
    vstd::arithmetic::div_mod::lemma_mod_bound(n, m);
    assert(n - r == q * m) by (nonlinear_arith)
        requires
            n == m * q + r,
    ;
    vstd::arithmetic::div_mod::lemma_mod_multiples_basic(q, m);
    if 0 <= n <= usize::MAX {
        vstd::arithmetic::div_mod::lemma_small_mod(n as nat, m as nat);
    }
}

/// The number whose groups of seven bits are those of up to five bytes, the lowest group first.
pub open spec fn grouped(data: Seq<u8>, n: int) -> int {
    (if n > 0 {
        data[0] % 128
    } else {
        0
    }) + (if n > 1 {
        (data[1] % 128) * 0x80
    } else {
        0
    }) + (if n > 2 {
        (data[2] % 128) * 0x4000
    } else {
        0
    }) + (if n > 3 {
        (data[3] % 128) * 0x20_0000
    } else {
        0
    }) + (if n > 4 {
        (data[4] % 128) * 0x1000_0000
    } else {
        0
    })
}

proof fn lemma_grouped(data: Seq<u8>, n: int)
    requires
        0 <= n <= 5,
        n <= data.len(),
    ensures
        varint::value(data.take(n)) == grouped(data, n),
{
    reveal_with_fuel(varint::value, 6);
    let s = data.take(n);
    if n > 0 {
        assert(s.skip(1) =~= data.subrange(1, n));
    }
    if n > 1 {
        assert(data.subrange(1, n).skip(1) =~= data.subrange(2, n));
    }
    if n > 2 {
        assert(data.subrange(2, n).skip(1) =~= data.subrange(3, n));
    }
    if n > 3 {
        assert(data.subrange(3, n).skip(1) =~= data.subrange(4, n));
    }
    if n > 4 {
        assert(data.subrange(4, n).skip(1) =~= data.subrange(5, n));
    }
}

/// A number of variable length ends at the first byte below 128, of which `k` stand before it. It
/// is the number of its groups of seven bits, which must not be more than 32 bits: of a fifth byte
/// only four count.
pub proof fn numbers_end_at_the_first_low_byte(data: Seq<u8>, k: int)
    requires
        0 <= k < 5,
        k < data.len(),
        forall|j: int| 0 <= j < k ==> data[j] >= 128,
        data[k] < 128,
    ensures
        varint::size(data) == k + 1,
        varint::result(data) is Complete <==> k < 4 || data[4] < 16,
        varint::result(data) is Incomplete <==> k == 4 && data[4] >= 16,
        (varint::low_bits(data) - grouped(data, k + 1)) % 0x1_0000_0000 == 0,
        varint::result(data) matches DecodeResult::Complete(v) ==> v.0 == varint::low_bits(data),
        varint::result(data) matches DecodeResult::Incomplete(v) ==> v.0 == varint::low_bits(data),
{
    varint::lemma_ends_at(data, k);
    lemma_grouped(data, k + 1);
}

/// A number whose bytes are all 128 or more is not complete, however many of up to five there are.
/// It is the number of the groups that there are, up to multiples of 2^32.
pub proof fn numbers_without_a_low_byte_are_incomplete(data: Seq<u8>, n: int)
    requires
        0 < n <= 5,
        n <= data.len(),
        n == data.len() || n == 5,
        forall|j: int| 0 <= j < n ==> data[j] >= 128,
    ensures
        varint::size(data) == n,
        varint::result(data) == DecodeResult::Incomplete(VarInt(varint::low_bits(data))),
        (varint::low_bits(data) - grouped(data, n)) % 0x1_0000_0000 == 0,
{
    if n == 5 {
        varint::lemma_ends_at(data, 4);
    } else {
        varint::lemma_runs_out(data);
    }
    lemma_grouped(data, n);
}

/// Of nothing nothing is read.
pub proof fn no_bytes_no_number()
    ensures
        varint::size(Seq::empty()) == 0,
        varint::result(Seq::empty()) == DecodeResult::Empty,
        varint::low_bits(Seq::empty()) == 0,
{
    assert(Seq::<u8>::empty().take(0) =~= Seq::empty());
    lemma_grouped(Seq::empty(), 0);
}

/// A number is written in as few bytes as its groups of seven bits need, the lowest group first;
/// all but the last byte have 128 added.
pub proof fn numbers_are_written_by_groups(v: i32, i: int)
    requires
        0 <= i < varint::wire_i32(v).len(),
    ensures
        ({
            let n = v as int % 0x1_0000_0000;
            let bytes = varint::wire_i32(v);
            &&& bytes.len() == if n < 0x80 {
                1int
            } else if n < 0x4000 {
                2
            } else if n < 0x20_0000 {
                3
            } else if n < 0x1000_0000 {
                4
            } else {
                5
            }
            &&& bytes[i] >= 128 <==> i < bytes.len() - 1
            &&& bytes[i] % 128 == (if i == 0 {
                n
            } else if i == 1 {
                n / 0x80
            } else if i == 2 {
                n / 0x4000
            } else if i == 3 {
                n / 0x20_0000
            } else {
                n / 0x1000_0000
            }) % 128
        }),
{
    let n = num::twos32(v as int);
    reveal_with_fuel(varint::wire, 6);
    assert((n / 128) / 128 == n / 0x4000);
    assert((n / 0x4000) / 128 == n / 0x20_0000);
    assert((n / 0x20_0000) / 128 == n / 0x1000_0000);
    lemma_written(n, i);
}

proof fn lemma_written(n: nat, i: int)
    requires
        n < 0x8_0000_0000,
        0 <= i < varint::wire(n).len(),
    ensures
        ({
            let bytes = varint::wire(n);
            &&& bytes.len() <= 5
            &&& bytes[i] >= 128 <==> i < bytes.len() - 1
            &&& i == 0 ==> bytes[i] % 128 == n % 128
            &&& i == 1 ==> bytes[i] % 128 == (n / 0x80) % 128
            &&& i == 2 ==> bytes[i] % 128 == (n / 0x4000) % 128
            &&& i == 3 ==> bytes[i] % 128 == (n / 0x20_0000) % 128
            &&& i == 4 ==> bytes[i] % 128 == (n / 0x1000_0000) % 128
        }),
    decreases n,
{
    reveal_with_fuel(varint::wire, 6);
    if n >= 128 && i > 0 {
        lemma_written(n / 128, i - 1);
    }
}

/// A count below 2^31 is read back as it is.
pub proof fn counts_are_read_back(n: nat, rest: Seq<u8>)
    requires
        n <= i32::MAX,
    ensures
        varint::result(serialize::count(n) + rest) == DecodeResult::Complete(VarInt(n as i32)),
        varint::size(serialize::count(n) + rest) == serialize::count(n).len(),
{
    varint::decode_inverts_encode(n as i32, rest);
}

/// A block position takes eight bytes: of the number that they spell the highest 26 bits are those
/// of x, the next 26 those of z and the lowest 12 those of y.
pub proof fn positions_are_packed_by_bits(x: int, y: int, z: int)
    ensures
        ({
            let bytes = serialize::position(x, y, z);
            let n = num::be_value(bytes) as int;
            &&& bytes.len() == 8
            &&& n / 0x40_0000_0000 == x % 0x400_0000
            &&& (n / 0x1000) % 0x400_0000 == z % 0x400_0000
            &&& n % 0x1000 == y % 0x1000
        }),
{
    let (a, b, c) = (x % 0x400_0000, z % 0x400_0000, y % 0x1000);
    let packed = a * 0x40_0000_0000 + b * 0x1000 + c;
    assert(packed / 0x40_0000_0000 == a);
    assert(packed / 0x1000 == a * 0x400_0000 + b);
    assert((a * 0x400_0000 + b) % 0x400_0000 == b);
    assert(packed % 0x1000 == c);
    num::lemma_pow256_values();
    num::be_round_trip(packed as nat, 8);
}

/// A block position is read from eight bytes: its coordinates have the bits that stand for them,
/// and a top bit that is set makes a coordinate negative.
pub proof fn positions_are_read_by_bits(data: Seq<u8>, at: int)
    requires
        0 <= at,
        at + 8 <= data.len(),
    ensures
        ({
            let n = num::be_value(data.subrange(at, at + 8)) as int;
            &&& serverbound::position_at(data, at) matches Some((x, y, z))
            &&& x % 0x400_0000 == n / 0x40_0000_0000
            &&& z % 0x400_0000 == (n / 0x1000) % 0x400_0000
            &&& y % 0x1000 == n % 0x1000
            &&& -0x200_0000 <= x < 0x200_0000
            &&& -0x200_0000 <= z < 0x200_0000
            &&& -0x800 <= y < 0x800
        }),
{
    serverbound::positions_are_bounded(data, at);
    num::be_read_write(data.subrange(at, at + 8));
    num::lemma_pow256_values();
}

/// Where fewer than eight bytes are left there is no position.
pub proof fn positions_need_eight_bytes(data: Seq<u8>, at: int)
    requires
        at + 8 > data.len(),
    ensures
        serverbound::position_at(data, at) is None,
{
}

} // verus!
