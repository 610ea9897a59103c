//! Small numbers packed into 64-bit words. Every word holds as many whole entries as fit, the
//! first in its lowest bits; what is left at the top of a word stays clear.
use vstd::prelude::*;

verus! {

/// How many entries of `bits` bits fit in one word.
pub open spec fn per_word(bits: u8) -> int {
    64int / (bits as int)
}

/// The lowest `bits` bits, set.
pub open spec fn mask(bits: u8) -> u64 {
    0xffff_ffff_ffff_ffffu64 >> ((64 - bits) as u64)
}

/// The number of words that `count` entries take.
pub open spec fn word_count(count: int, bits: u8) -> int {
    (count + per_word(bits) - 1) / per_word(bits)
}

/// The word that entry `i` lies in.
pub open spec fn word_index(i: int, bits: u8) -> int {
    i / per_word(bits)
}

/// The lowest bit of entry `i` in its word.
pub open spec fn bit_offset(i: int, bits: u8) -> u64 {
    ((i % per_word(bits)) * bits) as u64
}

/// Entry `i` of the packed words.
pub open spec fn entry(data: Seq<u64>, i: int, bits: u8) -> u64 {
    (data[word_index(i, bits)] >> bit_offset(i, bits)) & mask(bits)
}

/// `word` with the entry at `offset` replaced by the low bits of `value`.
pub open spec fn word_with(word: u64, offset: u64, bits: u8, value: u64) -> u64 {
    (word & !(mask(bits) << offset)) | ((value & mask(bits)) << offset)
}

/// The packed words with entry `i` replaced by the low bits of `value`.
pub open spec fn with_entry(data: Seq<u64>, i: int, bits: u8, value: u64) -> Seq<u64> {
    let w = word_index(i, bits);
    data.update(w, word_with(data[w], bit_offset(i, bits), bits, value))
}

/// The value at `i`, 0 past the end.
pub open spec fn lane(values: Seq<u64>, i: int) -> u64 {
    if 0 <= i < values.len() {
        values[i]
    } else {
        0
    }
}

/// The first `n` entries of word `w`, each in its place.
pub open spec fn word(values: Seq<u64>, bits: u8, w: int, n: nat) -> u64
    decreases n,
{
    if n == 0 {
        0
    } else {
        let j = n - 1;
        word(values, bits, w, j as nat) | ((lane(values, w * per_word(bits) + j) & mask(bits)) << ((
        j * bits) as u64))
    }
}

/// The words that hold `values`, entry by entry.
pub open spec fn pack(values: Seq<u64>, bits: u8) -> Seq<u64> {
    Seq::new(
        word_count(values.len() as int, bits) as nat,
        |w: int| word(values, bits, w, per_word(bits) as nat),
    )
}

/// All entries of the packed words, from the first on.
pub open spec fn unpack(data: Seq<u64>, bits: u8, count: nat) -> Seq<u64> {
    Seq::new(count, |i: int| entry(data, i, bits))
}

/// The number of binary digits of `n`; 0 has none.
pub open spec fn bit_length(n: nat) -> nat
    decreases n,
{
    if n == 0 {
        0
    } else {
        1 + bit_length(n / 2)
    }
}

pub proof fn lemma_per_word(bits: u8)
    requires
        1 <= bits <= 64,
    ensures
        1 <= per_word(bits) <= 64,
        per_word(bits) * bits <= 64,
{
    let b = bits as int;
    assert(1 <= 64int / b <= 64 && (64int / b) * b <= 64) by (nonlinear_arith)
        requires
            1 <= b <= 64,
    ;
}

/// Entry `j` of a word lies in the word.
pub proof fn lemma_lane_fits(j: int, bits: u8)
    requires
        1 <= bits <= 64,
        0 <= j < per_word(bits),
    ensures
        0 <= j * bits,
        j * bits + bits <= 64,
{
    lemma_per_word(bits);
    let b = bits as int;
    let p = per_word(bits);
    assert(0 <= j * b && j * b + b <= p * b) by (nonlinear_arith)
        requires
            0 <= j < p,
            1 <= b,
    ;
}

proof fn lemma_lanes_disjoint(i: int, j: int, bits: u8)
    requires
        1 <= bits <= 64,
        0 <= i < j,
    ensures
        i * bits + bits <= j * bits,
{
    let b = bits as int;
    assert(i * b + b <= j * b) by (nonlinear_arith)
        requires
            0 <= i < j,
            1 <= b,
    ;
}

/// The place of an entry, in its word and in the whole.
pub proof fn lemma_place(i: int, count: int, bits: u8)
    requires
        1 <= bits <= 64,
        0 <= i < count,
    ensures
        0 <= word_index(i, bits) < word_count(count, bits),
        0 <= i % per_word(bits) < per_word(bits),
        i == word_index(i, bits) * per_word(bits) + i % per_word(bits),
        bit_offset(i, bits) + bits <= 64,
        bit_offset(i, bits) == (i % per_word(bits)) * bits,
{
    lemma_per_word(bits);
    let p = per_word(bits);
    assert(0 <= i / p && i / p < (count + p - 1) / p && 0 <= i % p < p && i == (i / p) * p + i % p)
        by (nonlinear_arith)
        requires
            p >= 1,
            0 <= i < count,
    ;
    lemma_lane_fits(i % p, bits);
}

/// Entry `j` of word `w` is entry `w * per_word + j` of the whole.
pub proof fn lemma_place_of(w: int, j: int, bits: u8)
    requires
        1 <= bits <= 64,
        0 <= w,
        0 <= j < per_word(bits),
    ensures
        word_index(w * per_word(bits) + j, bits) == w,
        (w * per_word(bits) + j) % per_word(bits) == j,
{
    lemma_per_word(bits);
    let p = per_word(bits);
    assert((w * p + j) / p == w && (w * p + j) % p == j) by (nonlinear_arith)
        requires
            p >= 1,
            0 <= w,
            0 <= j < p,
    ;
}

proof fn lemma_or_reads(word: u64, v: u64, m: u64, b: u64, a: u64, o: u64)
    by (bit_vector)
    requires
        1 <= b <= 64,
        m == 0xffff_ffff_ffff_ffffu64 >> ((64 - b) as u64),
        a + b <= 64,
        o + b <= 64,
    ensures
        (o + b <= a || a + b <= o) ==> ((word | ((v & m) << a)) >> o) & m == (word >> o) & m,
        a == o ==> ((word | ((v & m) << a)) >> o) & m == ((word >> o) & m) | (v & m),
{
}

proof fn lemma_replace(word: u64, x: u64, v: u64, m: u64, b: u64, a: u64, o: u64)
    by (bit_vector)
    requires
        1 <= b <= 64,
        m == 0xffff_ffff_ffff_ffffu64 >> ((64 - b) as u64),
        a + b <= 64,
        o + b <= 64,
    ensures
        o + b <= a ==> ((word | ((x & m) << a)) & !(m << o)) | ((v & m) << o) == ((word & !(m << o))
            | ((v & m) << o)) | ((x & m) << a),
        a == o && (word >> o) & m == 0 ==> ((word | ((x & m) << a)) & !(m << o)) | ((v & m) << o)
            == word | ((v & m) << o),
{
}

proof fn lemma_or_order(a: u64, b: u64, c: u64)
    by (bit_vector)
    ensures
        (a | b) | c == (a | c) | b,
        0u64 & b == 0,
        a | 0 == a,
        a | (0u64 << c) == a,
{
}

/// Each of the first `n` places of a word reads as its own entry, the others as 0.
pub proof fn lemma_word_reads(values: Seq<u64>, bits: u8, w: int, n: nat, j: int)
    requires
        1 <= bits <= 64,
        n <= per_word(bits),
        0 <= j < per_word(bits),
    ensures
        (word(values, bits, w, n) >> ((j * bits) as u64)) & mask(bits) == if j < n {
            lane(values, w * per_word(bits) + j) & mask(bits)
        } else {
            0
        },
    decreases n,
{
    let o = (j * bits) as u64;
    let m = mask(bits);
    lemma_lane_fits(j, bits);
    if n == 0 {
        assert((0u64 >> o) & m == 0) by (bit_vector);
    } else {
        let last = n - 1;
        let a = (last * bits) as u64;
        let v = lane(values, w * per_word(bits) + last);
        let before = word(values, bits, w, last as nat);
        lemma_lane_fits(last, bits);
        lemma_word_reads(values, bits, w, last as nat, j);
        lemma_or_reads(before, v, m, bits as u64, a, o);
        if j < last {
            lemma_lanes_disjoint(j, last, bits);
        } else if j > last {
            lemma_lanes_disjoint(last, j, bits);
        } else {
            assert(0u64 | (v & m) == v & m) by (bit_vector);
        }
    }
}

/// A word depends on its own entries alone.
proof fn lemma_word_agrees(values: Seq<u64>, other: Seq<u64>, bits: u8, w: int, n: nat)
    requires
        forall|j: int|
            0 <= j < n ==> #[trigger] lane(values, w * per_word(bits) + j) == lane(
                other,
                w * per_word(bits) + j,
            ),
    ensures
        word(values, bits, w, n) == word(other, bits, w, n),
    decreases n,
{
    if n > 0 {
        let j = n - 1;
        assert(lane(values, w * per_word(bits) + j) == lane(other, w * per_word(bits) + j));
        lemma_word_agrees(values, other, bits, w, j as nat);
    }
}

proof fn lemma_word_update(
    values: Seq<u64>,
    other: Seq<u64>,
    bits: u8,
    w: int,
    n: nat,
    j: int,
    v: u64,
)
    requires
        1 <= bits <= 64,
        n <= per_word(bits),
        0 <= j < n,
        lane(other, w * per_word(bits) + j) == v,
        forall|k: int|
            0 <= k < n && k != j ==> #[trigger] lane(values, w * per_word(bits) + k) == lane(
                other,
                w * per_word(bits) + k,
            ),
    ensures
        word(other, bits, w, n) == word_with(word(values, bits, w, n), (j * bits) as u64, bits, v),
    decreases n,
{
    let last = n - 1;
    let o = (j * bits) as u64;
    let a = (last * bits) as u64;
    let m = mask(bits);
    let x = lane(values, w * per_word(bits) + last);
    let before = word(values, bits, w, last as nat);
    lemma_lane_fits(j, bits);
    lemma_lane_fits(last, bits);
    lemma_replace(before, x, v, m, bits as u64, a, o);
    if j == last {
        lemma_word_reads(values, bits, w, last as nat, j);
        lemma_word_agrees(values, other, bits, w, last as nat);
    } else {
        lemma_lanes_disjoint(j, last, bits);
        lemma_word_update(values, other, bits, w, last as nat, j, v);
        assert(lane(values, w * per_word(bits) + last) == lane(other, w * per_word(bits) + last));
    }
}

proof fn lemma_word_fill(
    values: Seq<u64>,
    other: Seq<u64>,
    bits: u8,
    w: int,
    n: nat,
    j: int,
    v: u64,
)
    requires
        1 <= bits <= 64,
        n <= per_word(bits),
        0 <= j < n,
        lane(values, w * per_word(bits) + j) == 0,
        lane(other, w * per_word(bits) + j) == v,
        forall|k: int|
            0 <= k < n && k != j ==> #[trigger] lane(values, w * per_word(bits) + k) == lane(
                other,
                w * per_word(bits) + k,
            ),
    ensures
        word(other, bits, w, n) == word(values, bits, w, n) | ((v & mask(bits)) << ((j
            * bits) as u64)),
    decreases n,
{
    let last = n - 1;
    let o = (j * bits) as u64;
    let a = (last * bits) as u64;
    let m = mask(bits);
    let x = lane(values, w * per_word(bits) + last);
    let before = word(values, bits, w, last as nat);
    if j == last {
        lemma_word_agrees(values, other, bits, w, last as nat);
        lemma_or_order(before, m, a);
    } else {
        lemma_word_fill(values, other, bits, w, last as nat, j, v);
        assert(lane(values, w * per_word(bits) + last) == lane(other, w * per_word(bits) + last));
        lemma_or_order(before, (v & m) << o, (x & m) << a);
    }
}

/// Every entry of the packed words reads as the low bits of the value it was made from, and the
/// places after the last value as 0.
pub proof fn pack_then_read(values: Seq<u64>, bits: u8, i: int)
    requires
        1 <= bits <= 64,
        0 <= i,
        word_index(i, bits) < word_count(values.len() as int, bits),
    ensures
        entry(pack(values, bits), i, bits) == if i < values.len() {
            values[i] & mask(bits)
        } else {
            0
        },
{
    lemma_per_word(bits);
    lemma_place(i, i + 1, bits);
    let w = word_index(i, bits);
    let j = i % per_word(bits);
    lemma_word_reads(values, bits, w, per_word(bits) as nat, j);
    let m = mask(bits);
    assert(0u64 & m == 0) by (bit_vector);
}

/// Replacing an entry of the packed words gives the packed words of the values with that one
/// replaced.
pub proof fn replace_then_pack(values: Seq<u64>, bits: u8, i: int, v: u64)
    requires
        1 <= bits <= 64,
        0 <= i < values.len(),
    ensures
        with_entry(pack(values, bits), i, bits, v) == pack(values.update(i, v), bits),
{
    let other = values.update(i, v);
    let p = per_word(bits);
    lemma_per_word(bits);
    lemma_place(i, values.len() as int, bits);
    let w = word_index(i, bits);
    let j = i % p;
    assert forall|x: int| 0 <= x < word_count(values.len() as int, bits) implies #[trigger] with_entry(
        pack(values, bits),
        i,
        bits,
        v,
    )[x] == pack(other, bits)[x] by {
        if x == w {
            assert forall|k: int| 0 <= k < p && k != j implies #[trigger] lane(values, w * p + k)
                == lane(other, w * p + k) by {}
            lemma_word_update(values, other, bits, w, p as nat, j, v);
        } else {
            assert forall|k: int| 0 <= k < p implies #[trigger] lane(values, x * p + k) == lane(
                other,
                x * p + k,
            ) by {
                lemma_place_of(x, k, bits);
            }
            lemma_word_agrees(values, other, bits, x, p as nat);
        }
    }
    assert(with_entry(pack(values, bits), i, bits, v) =~= pack(other, bits));
}

/// Reading an entry that was just written gives its low bits; every other entry reads as before.
pub proof fn write_then_read(data: Seq<u64>, bits: u8, i: int, v: u64, k: int)
    requires
        1 <= bits <= 64,
        0 <= i,
        0 <= k,
        word_index(i, bits) < data.len(),
        word_index(k, bits) < data.len(),
    ensures
        entry(with_entry(data, i, bits, v), k, bits) == if k == i {
            v & mask(bits)
        } else {
            entry(data, k, bits)
        },
{
    lemma_per_word(bits);
    lemma_place(i, i + 1, bits);
    lemma_place(k, k + 1, bits);
    let m = mask(bits);
    let p = per_word(bits);
    if word_index(i, bits) == word_index(k, bits) {
        let old_word = data[word_index(i, bits)];
        let o = bit_offset(i, bits);
        let r = bit_offset(k, bits);
        let cleared = old_word & !(m << o);
        lemma_or_reads(cleared, v, m, bits as u64, o, r);
        lemma_cleared(old_word, m, bits as u64, o, r);
        if i % p < k % p {
            lemma_lanes_disjoint(i % p, k % p, bits);
        } else if i % p > k % p {
            lemma_lanes_disjoint(k % p, i % p, bits);
        }
    }
}

proof fn lemma_cleared(word: u64, m: u64, b: u64, o: u64, r: u64)
    by (bit_vector)
    requires
        1 <= b <= 64,
        m == 0xffff_ffff_ffff_ffffu64 >> ((64 - b) as u64),
        o + b <= 64,
        r + b <= 64,
    ensures
        (o + b <= r || r + b <= o) ==> ((word & !(m << o)) >> r) & m == (word >> r) & m,
        o == r ==> ((word & !(m << o)) >> r) & m == 0,
        forall|x: u64| #[trigger] (0u64 | x) == x,
{
}

/// A number with at most `bits` binary digits is its own low `bits` bits.
pub proof fn lemma_fits_mask(n: u64, bound: u64, bits: u8)
    requires
        n <= bound,
        bit_length(bound as nat) <= bits,
        1 <= bits <= 64,
    ensures
        n & mask(bits) == n,
{
    lemma_bit_length_zeros(bound);
    vstd::std_specs::bits::axiom_u64_leading_zeros(bound);
    let z = vstd::std_specs::bits::u64_leading_zeros(bound) as u64;
    let b = bits as u64;
    let m = mask(bits);
    assert(n & m == n) by (bit_vector)
        requires
            n <= bound,
            z <= 64,
            64 - z <= b,
            1 <= b <= 64,
            bound >> ((64 - z) as u64) == 0,
            m == 0xffff_ffff_ffff_ffffu64 >> ((64 - b) as u64),
    ;
}

pub proof fn lemma_bit_length_zeros(n: u64)
    ensures
        bit_length(n as nat) == 64 - vstd::std_specs::bits::u64_leading_zeros(n),
        bit_length(n as nat) <= 64,
    decreases n,
{
    vstd::std_specs::bits::axiom_u64_leading_zeros(n);
    reveal(vstd::std_specs::bits::u64_leading_zeros);
    if n != 0 {
        lemma_bit_length_zeros(n / 2);
    }
}

/// A greater number has no fewer binary digits.
pub proof fn lemma_bit_length_grows(m: nat, n: nat)
    requires
        m <= n,
    ensures
        bit_length(m) <= bit_length(n),
    decreases n,
{
    if m > 0 {
        lemma_bit_length_grows(m / 2, n / 2);
    }
}

/// How many entries of `bits` bits fit in one word.
pub fn entries_per_word(bits: u8) -> (r: usize)
    requires
        bits > 0,
    ensures
        r == per_word(bits),
{
    let r: usize = 64 / bits as usize;
    assert(r == 64int / (bits as int));
    r
}

/// The lowest `bits_per_entry` bits, set.
pub fn entry_mask(bits_per_entry: u8) -> (r: u64)
    requires
        1 <= bits_per_entry <= 64,
    ensures
        r == mask(bits_per_entry),
{
    0xffff_ffff_ffff_ffffu64 >> ((64 - bits_per_entry) as u64)
}

/// The number of binary digits that every value up to `max` can be written with, at least 1.
pub fn bits_required_for_value_range(max: u64) -> (r: u8)
    ensures
        r == if max == 0 {
            1
        } else {
            bit_length(max as nat)
        },
        1 <= r <= 64,
{
    proof {
        lemma_bit_length_zeros(max);
    }
    let bits: u32 = 64 - max.leading_zeros();
    if bits == 0 {
        1
    } else {
        bits as u8
    }
}

/// Packs `values`, of each its low `bits_per_entry` bits.
pub fn pack_entries(values: &[u64], bits_per_entry: u8) -> (out: Vec<u64>)
    requires
        1 <= bits_per_entry <= 64,
    ensures
        out@ == pack(values@, bits_per_entry),
{
    let bits = bits_per_entry;
    proof {
        lemma_per_word(bits);
        lemma_word_count_bounds(values@.len() as int, bits);
    }
    let entries_per_word: usize = entries_per_word(bits);
    let count: usize = if values.len() % entries_per_word == 0 {
        values.len() / entries_per_word
    } else {
        values.len() / entries_per_word + 1
    };
    let mut out: Vec<u64> = Vec::new();
    out.resize(count, 0);
    let mask: u64 = entry_mask(bits);
    proof {
        assert forall|w: int| 0 <= w < count implies out@[w] == word(
            values@.take(0),
            bits,
            w,
            per_word(bits) as nat,
        ) by {
            lemma_word_of_zeros(values@.take(0), bits, w, per_word(bits) as nat);
        }
    }
    for i in 0..values.len()
        invariant
            bits == bits_per_entry,
            1 <= bits <= 64,
            entries_per_word == per_word(bits),
            mask == self::mask(bits),
            count == word_count(values@.len() as int, bits),
            out@.len() == count,
            forall|w: int|
                0 <= w < count ==> #[trigger] out@[w] == word(
                    values@.take(i as int),
                    bits,
                    w,
                    per_word(bits) as nat,
                ),
    {
        let ghost before = values@.take(i as int);
        let ghost after = values@.take(i + 1);
        let ghost p = per_word(bits);
        proof {
            lemma_per_word(bits);
            lemma_place(i as int, values@.len() as int, bits);
        }
        let word_index: usize = i / entries_per_word;
        let lane: usize = i % entries_per_word;
        let offset: u64 = (lane * bits as usize) as u64;
        let ghost previous = out@;
        out[word_index] = out[word_index] | ((values[i] & mask) << offset);
        proof {
            assert forall|w: int| 0 <= w < count implies #[trigger] out@[w] == word(
                after,
                bits,
                w,
                p as nat,
            ) by {
                assert(previous[w] == word(before, bits, w, p as nat));
                if w == word_index {
                    assert(w * p + lane == i);
                    assert forall|k: int| 0 <= k < p && k != lane implies #[trigger] self::lane(
                        before,
                        w * p + k,
                    ) == self::lane(after, w * p + k) by {}
                    lemma_word_fill(before, after, bits, w, p as nat, lane as int, values@[i as int]);
                } else {
                    assert forall|k: int| 0 <= k < p implies #[trigger] self::lane(before, w * p + k)
                        == self::lane(after, w * p + k) by {
                        lemma_place_of(w, k, bits);
                    }
                    lemma_word_agrees(before, after, bits, w, p as nat);
                }
            }
        }
    }
    assert(values@.take(values@.len() as int) == values@);
    assert(out@ =~= pack(values@, bits));
    out
}

proof fn lemma_word_of_zeros(values: Seq<u64>, bits: u8, w: int, n: nat)
    requires
        forall|i: int| 0 <= i < values.len() ==> values[i] == 0,
    ensures
        word(values, bits, w, n) == 0,
    decreases n,
{
    if n > 0 {
        lemma_word_of_zeros(values, bits, w, (n - 1) as nat);
        let m = mask(bits);
        let s = ((n - 1) * bits) as u64;
        lemma_or_order(0, m, s);
    }
}

/// Words that are all clear hold zeros.
pub proof fn lemma_pack_zeros(values: Seq<u64>, bits: u8)
    requires
        forall|i: int| 0 <= i < values.len() ==> values[i] == 0,
    ensures
        forall|w: int|
            0 <= w < pack(values, bits).len() ==> #[trigger] pack(values, bits)[w] == 0,
{
    assert forall|w: int| 0 <= w < pack(values, bits).len() implies #[trigger] pack(
        values,
        bits,
    )[w] == 0 by {
        lemma_word_of_zeros(values, bits, w, per_word(bits) as nat);
    }
}

pub proof fn lemma_word_count_bounds(count: int, bits: u8)
    requires
        1 <= bits <= 64,
        0 <= count,
    ensures
        0 <= word_count(count, bits) <= count,
        word_count(count, bits) == count / per_word(bits) + if count % per_word(bits) == 0 {
            0int
        } else {
            1
        },
{
    lemma_per_word(bits);
    let p = per_word(bits);
    assert((count + p - 1) / p == count / p + (if count % p == 0 { 0int } else { 1 }) && 0 <= (count
        + p - 1) / p && (count + p - 1) / p <= count) by (nonlinear_arith)
        requires
            p >= 1,
            0 <= count,
    ;
}

} // verus!
