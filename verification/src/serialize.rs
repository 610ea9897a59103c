//! Values that have a wire form.
use vstd::prelude::*;
use vstd::utf8;

use crate::num;
use crate::varint;
use crate::varint::VarInt;

verus! {

/// A value that can be written to a packet.
pub trait Serialize {
    /// The bytes that the value is written as.
    spec fn wire(&self) -> Seq<u8>;

    /// Whether the value has a wire form.
    open spec fn has_wire(&self) -> bool {
        true
    }

    fn serialize(&self) -> (out: Vec<u8>)
        requires
            self.has_wire(),
        ensures
            out@ == self.wire(),
    ;
}

/// The wire form of a count: its low 32 bits as a variable-length integer.
pub open spec fn count(n: nat) -> Seq<u8> {
    varint::wire_i32(num::signed32(n as int))
}

/// The wire forms of the elements, one after the other.
pub open spec fn each<T: Serialize>(items: Seq<T>) -> Seq<u8>
    decreases items.len(),
{
    if items.len() == 0 {
        Seq::empty()
    } else {
        each(items.drop_last()) + items.last().wire()
    }
}

/// A list: the number of its elements, then each of them.
pub open spec fn list<T: Serialize>(items: Seq<T>) -> Seq<u8> {
    count(items.len()) + each(items)
}

/// A text: the number of bytes in its UTF-8 form, then those bytes.
pub open spec fn text(s: Seq<char>) -> Seq<u8> {
    count(utf8::encode_utf8(s).len()) + utf8::encode_utf8(s)
}

/// A truth value: one byte, 1 or 0.
pub open spec fn flag(b: bool) -> Seq<u8> {
    seq![
        if b {
            1u8
        } else {
            0u8
        },
    ]
}

/// A block position in 64 bits: 26 for x, 26 for z and 12 for y, from the top down, each in two's
/// complement.
pub open spec fn packed_position(x: int, y: int, z: int) -> nat {
    ((x % 0x400_0000) * 0x40_0000_0000 + (z % 0x400_0000) * 0x1000 + (y % 0x1000)) as nat
}

/// The wire form of a block position.
pub open spec fn position(x: int, y: int, z: int) -> Seq<u8> {
    num::be_bytes(packed_position(x, y, z), 8)
}

/// Appends the number of elements of a list.
pub fn push_count(buf: &mut Vec<u8>, n: usize)
    ensures
        final(buf)@ == old(buf)@ + count(n as nat),
{
    let mut head = VarInt::new(num::len_i32(n)).encode();
    buf.append(&mut head);
}

/// Appends the wire form of a value.
pub fn push<T: Serialize + ?Sized>(buf: &mut Vec<u8>, item: &T)
    requires
        item.has_wire(),
    ensures
        final(buf)@ == old(buf)@ + item.wire(),
{
    let mut bytes = item.serialize();
    buf.append(&mut bytes);
}

/// Appends a run of bytes as they are.
pub fn push_bytes(buf: &mut Vec<u8>, bytes: &[u8])
    ensures
        final(buf)@ == old(buf)@ + bytes@,
{
    buf.extend_from_slice(bytes);
    assert(buf@ =~= old(buf)@ + bytes@);
}

impl Serialize for VarInt {
    open spec fn wire(&self) -> Seq<u8> {
        varint::wire_i32(self.0)
    }

    fn serialize(&self) -> (out: Vec<u8>) {
        self.encode()
    }
}

impl Serialize for i32 {
    open spec fn wire(&self) -> Seq<u8> {
        varint::wire_i32(*self)
    }

    fn serialize(&self) -> (out: Vec<u8>) {
        VarInt::new(*self).encode()
    }
}

impl Serialize for u8 {
    open spec fn wire(&self) -> Seq<u8> {
        seq![*self]
    }

    fn serialize(&self) -> (out: Vec<u8>) {
        vec![*self]
    }
}

impl<T: Serialize> Serialize for [T] {
    open spec fn wire(&self) -> Seq<u8> {
        list(self@)
    }

    open spec fn has_wire(&self) -> bool {
        forall|i: int| 0 <= i < self@.len() ==> (#[trigger] self@[i]).has_wire()
    }

    fn serialize(&self) -> (out: Vec<u8>) {
        let mut out: Vec<u8> = Vec::new();
        push_count(&mut out, self.len());
        for i in 0..self.len()
            invariant
                self.has_wire(),
                out@ == count(self@.len()) + each(self@.take(i as int)),
        {
            push(&mut out, &self[i]);
            assert(self@.take(i + 1).drop_last() == self@.take(i as int));
        }
        assert(self@.take(self@.len() as int) == self@);
        out
    }
}

impl<T: Serialize, const N: usize> Serialize for [T; N] {
    open spec fn wire(&self) -> Seq<u8> {
        list(self@)
    }

    open spec fn has_wire(&self) -> bool {
        forall|i: int| 0 <= i < self@.len() ==> (#[trigger] self@[i]).has_wire()
    }

    fn serialize(&self) -> (out: Vec<u8>) {
        self.as_slice().serialize()
    }
}

impl<T: Serialize> Serialize for Option<T> {
    open spec fn wire(&self) -> Seq<u8> {
        match self {
            Some(x) => seq![1u8] + x.wire(),
            None => seq![0u8],
        }
    }

    open spec fn has_wire(&self) -> bool {
        match self {
            Some(x) => x.has_wire(),
            None => true,
        }
    }

    fn serialize(&self) -> (out: Vec<u8>) {
        match self {
            Some(x) => {
                let mut buf: Vec<u8> = vec![1];
                push(&mut buf, x);
                buf
            },
            None => vec![0],
        }
    }
}

impl<T: Serialize> Serialize for Vec<T> {
    open spec fn wire(&self) -> Seq<u8> {
        list(self@)
    }

    open spec fn has_wire(&self) -> bool {
        forall|i: int| 0 <= i < self@.len() ==> (#[trigger] self@[i]).has_wire()
    }

    fn serialize(&self) -> (out: Vec<u8>) {
        self.as_slice().serialize()
    }
}

impl<'a> Serialize for &'a str {
    open spec fn wire(&self) -> Seq<u8> {
        text(self@)
    }

    fn serialize(&self) -> (out: Vec<u8>) {
        let bytes = self.as_bytes();
        let mut buf: Vec<u8> = Vec::new();
        push_count(&mut buf, bytes.len());
        push_bytes(&mut buf, bytes);
        buf
    }
}

impl Serialize for bool {
    open spec fn wire(&self) -> Seq<u8> {
        flag(*self)
    }

    fn serialize(&self) -> (out: Vec<u8>) {
        if *self {
            vec![1]
        } else {
            vec![0]
        }
    }
}

impl Serialize for String {
    open spec fn wire(&self) -> Seq<u8> {
        text(self@)
    }

    fn serialize(&self) -> (out: Vec<u8>) {
        self.as_str().serialize()
    }
}

/// A block position as x, z and y.
impl Serialize for (i32, i32, i16) {
    open spec fn wire(&self) -> Seq<u8> {
        position(self.0 as int, self.2 as int, self.1 as int)
    }

    fn serialize(&self) -> (out: Vec<u8>) {
        let x: u64 = (num::i32_bits(self.0) % 0x400_0000) as u64;
        let z: u64 = (num::i32_bits(self.1) % 0x400_0000) as u64;
        let y: u64 = (num::i16_bits(self.2) % 0x1000) as u64;
        let mut out: Vec<u8> = Vec::new();
        num::push_be(&mut out, (x * 0x40_0000_0000 + z * 0x1000 + y) as u128, 8);
        out
    }
}

} // verus!
