//! A bit-level writer packing bits most-significant-bit first into bytes.

use vstd::prelude::*;

verus! {

/// Whether bit `k` (counting from the most significant) of a byte is set.
pub open spec fn byte_bit(b: u8, k: int) -> bool {
    (b >> ((7 - k) as u8)) & 1 == 1
}

/// Bit `k` of a zero byte is clear.
proof fn lemma_zero_byte_bit(b: u8, k: int)
    requires
        b == 0,
        0 <= k < 8,
    ensures
        !byte_bit(b, k),
{
    let q = (7 - k) as u8;
    assert(b == 0 ==> (b >> q) & 1 == 0) by (bit_vector);
}

/// Setting one bit by mask leaves every other bit unchanged.
proof fn lemma_or_keeps_bit(x: u8, p: u8, q: u8)
    requires
        p < 8,
        q < 8,
        p != q,
    ensures
        byte_bit(x | (1u8 << ((7 - p) as u8)), q as int) == byte_bit(x, q as int),
{
    assert(p < 8 && q < 8 && p != q ==> (((x | (1u8 << ((7 - p) as u8))) >> ((7 - q) as u8)) & 1)
        == ((x >> ((7 - q) as u8)) & 1)) by (bit_vector);
}

/// Setting one bit by mask sets exactly that bit.
proof fn lemma_or_sets_bit(x: u8, p: u8)
    requires
        p < 8,
    ensures
        byte_bit(x | (1u8 << ((7 - p) as u8)), p as int),
{
    assert(p < 8 ==> (((x | (1u8 << ((7 - p) as u8))) >> ((7 - p) as u8)) & 1) == 1)
        by (bit_vector);
}

/// Packs a stream of bits into bytes, most-significant-bit first; the
/// unused low bits of the final byte stay zero.
pub struct BitWriter {
    bits: Vec<u8>,
    len: usize,
}

impl View for BitWriter {
    type V = Seq<bool>;

    closed spec fn view(&self) -> Seq<bool> {
        Seq::new(self.len as nat, |j: int| byte_bit(self.bits@[j / 8], j % 8))
    }
}

impl Default for BitWriter {
    /// An empty writer.
    fn default() -> (r: BitWriter)
        ensures
            r.inv(),
            r@ == Seq::<bool>::empty(),
    {
        BitWriter::new()
    }
}

impl BitWriter {
    /// The writer's internal consistency: one byte for every eight bits
    /// begun, and every bit beyond the stream still zero.
    pub closed spec fn inv(&self) -> bool {
        &&& self.bits@.len() == (self.len + 7) / 8
        &&& forall|j: int|
            self.len <= j < self.bits@.len() * 8 ==> !byte_bit(
                #[trigger] self.bits@[j / 8],
                j % 8,
            )
    }

    /// An empty writer.
    pub fn new() -> (r: BitWriter)
        ensures
            r.inv(),
            r@ == Seq::<bool>::empty(),
    {
        let r = BitWriter { bits: Vec::new(), len: 0 };
        proof {
            assert(r@ =~= Seq::<bool>::empty());
        }
        r
    }

    /// Appends one bit to the stream.
    pub fn emit_bit(&mut self, bit: bool)
        requires
            old(self).inv(),
            old(self)@.len() < usize::MAX,
        ensures
            final(self).inv(),
            final(self)@ == old(self)@.push(bit),
    {
        let pow = self.len % 8;
        if pow == 0 {
            self.bits.push(0);
        }
        proof {
            assert(self.bits@.len() * 8 >= self.len + 1);
            assert forall|j: int|
                self.len <= j < self.bits@.len() * 8 implies !byte_bit(
                #[trigger] self.bits@[j / 8],
                j % 8,
            ) by {
                if j / 8 < old(self).bits@.len() {
                    assert(self.bits@[j / 8] == old(self).bits@[j / 8]);
                } else {
                    lemma_zero_byte_bit(self.bits@[j / 8], j % 8);
                }
            }
        }
        let ghost mid_bits = self.bits@;
        self.len = self.len + 1;
        if bit {
            let idx = self.bits.len() - 1;
            let old_byte = self.bits[idx];
            let mask: u8 = 1u8 << ((7 - pow) as u8);
            let new_byte = old_byte | mask;
            let _ = self.bits.remove(idx);
            self.bits.insert(idx, new_byte);
            proof {
                assert(self.len - 1 == 8 * idx + pow);
                assert forall|j: int|
                    0 <= j < self.len - 1 implies byte_bit(
                    #[trigger] self.bits@[j / 8],
                    j % 8,
                ) == byte_bit(mid_bits[j / 8], j % 8) by {
                    if j / 8 == idx {
                        lemma_or_keeps_bit(old_byte, pow as u8, (j % 8) as u8);
                    }
                }
                lemma_or_sets_bit(old_byte, pow as u8);
                assert(byte_bit(self.bits@[idx as int], pow as int));
                assert forall|j: int|
                    self.len <= j < self.bits@.len() * 8 implies !byte_bit(
                    #[trigger] self.bits@[j / 8],
                    j % 8,
                ) by {
                    if j / 8 == idx {
                        lemma_or_keeps_bit(old_byte, pow as u8, (j % 8) as u8);
                    }
                }
                assert(self@ =~= old(self)@.push(bit));
            }
        } else {
            proof {
                assert(!byte_bit(mid_bits[((self.len - 1) / 8) as int], (self.len - 1) % 8));
                assert(self@ =~= old(self)@.push(bit));
            }
        }
    }

    /// Hands out the packed bytes: every emitted bit in order, packed
    /// most-significant-bit first, the tail of the last byte zero.
    pub fn finish(self) -> (r: Vec<u8>)
        requires
            self.inv(),
        ensures
            r@.len() == (self@.len() + 7) / 8,
            forall|j: int| 0 <= j < self@.len() ==> byte_bit(#[trigger] r@[j / 8], j % 8) == self@[j],
            forall|j: int|
                self@.len() <= j < r@.len() * 8 ==> !byte_bit(#[trigger] r@[j / 8], j % 8),
    {
        self.bits
    }
}

} // verus!
