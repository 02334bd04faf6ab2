use crate::utils::bits::{
    bit_at, bits_msb_first, bits_of_byte, bits_of_bytes, byte_of_bits, flushed_bytes,
    lemma_bits_of_bytes_push, lemma_byte_of_its_bits, lemma_flushed_bytes, pad_to_byte,
    padding_len, twos_complement,
};
use vstd::prelude::*;

verus! {

/// `std::io::Error`: what a sink that does I/O fails with. It is carried, never looked into.
#[verifier::external_type_specification]
#[verifier::external_body]
pub struct ExIoError(std::io::Error);

/// The byte in progress: the bits written since the last whole byte, in the low end of
/// `current_byte`, the oldest of them highest.
struct PartialByte {
    current_byte: u8,
    bits_filled: u8,
}

impl PartialByte {
    #[verifier::type_invariant]
    spec fn fewer_than_eight(&self) -> bool {
        self.bits_filled < 8
    }
}

/// Collects single bits and bit fields into bytes, most significant bit first, and appends each
/// completed byte to a sink in memory. Since the sink is memory, no operation fails.
pub struct BitWriter {
    writer: Vec<u8>,
    partial: PartialByte,
}

impl View for BitWriter {
    type V = Seq<bool>;

    /// Every bit written: those of the bytes in the sink, then those that wait for their byte
    /// to fill.
    open spec fn view(&self) -> Seq<bool> {
        bits_of_bytes(self.bytes()) + self.pending()
    }
}

impl BitWriter {
    /// The bytes in the sink.
    pub closed spec fn bytes(&self) -> Seq<u8> {
        self.writer@
    }

    /// The bits written since the last completed byte, oldest first.
    pub closed spec fn pending(&self) -> Seq<bool> {
        bits_msb_first(self.partial.current_byte as u64, (self.partial.bits_filled % 8) as nat)
    }

    /// At most seven bits wait for their byte to fill.
    pub proof fn lemma_pending_len(&self)
        ensures
            self.pending().len() < 8,
    {
    }

    /// A writer that appends to `writer`, with no bit waiting.
    pub fn new(writer: Vec<u8>) -> (w: Self)
        ensures
            w.bytes() == writer@,
            w.pending() == Seq::<bool>::empty(),
    {
        BitWriter { writer, partial: PartialByte { current_byte: 0, bits_filled: 0 } }
    }

    /// The sink. The bits that wait for their byte to fill are dropped.
    pub fn into_inner(self) -> (sink: Vec<u8>)
        ensures
            sink@ == self.bytes(),
    {
        self.writer
    }

    pub fn get_ref(&self) -> (sink: &Vec<u8>)
        ensures
            sink@ == self.bytes(),
    {
        &self.writer
    }

    /// Appends one bit. The eighth bit of a byte completes it: the byte goes to the sink and a
    /// new one begins.
    pub fn write_bit(&mut self, bit: bool) -> (r: Result<(), std::io::Error>)
        ensures
            r is Ok,
            final(self)@ == old(self)@.push(bit),
            old(self).bytes().is_prefix_of(final(self).bytes()),
            old(self).pending().len() < 7 ==> final(self).bytes() == old(self).bytes()
                && final(self).pending() == old(self).pending().push(bit),
            old(self).pending().len() == 7 ==> final(self).bytes() == old(self).bytes().push(
                byte_of_bits(old(self).pending().push(bit)),
            ) && final(self).pending() == Seq::<bool>::empty(),
    {
        proof {
            use_type_invariant(&self.partial);
        }
        let mut byte = self.partial.current_byte << 1;
        if bit {
            byte |= 1;
        }
        let filled = self.partial.bits_filled + 1;
        proof {
            lemma_shift_in(self.partial.current_byte, byte, bit, self.partial.bits_filled as nat);
        }
        if filled == 8 {
            proof {
                lemma_byte_of_its_bits(byte);
            }
            self.flush_byte(byte)?;
        } else {
            self.partial = PartialByte { current_byte: byte, bits_filled: filled };
        }
        Ok(())
    }

    /// Appends the low `count` bits of `bits`, the most significant of them first.
    pub fn write_bits(&mut self, bits: u64, count: usize) -> (r: Result<(), std::io::Error>)
        requires
            count <= 64,
        ensures
            r is Ok,
            final(self)@ == old(self)@ + bits_msb_first(bits, count as nat),
            old(self).bytes().is_prefix_of(final(self).bytes()),
    {
        let mut i: usize = count;
        while i > 0
            invariant
                i <= count <= 64,
                self@ == old(self)@ + bits_msb_first(bits, count as nat).take(count - i),
                old(self).bytes().is_prefix_of(self.bytes()),
            decreases i,
        {
            i -= 1;
            let bit = ((bits >> i) & 1) != 0;
            proof {
                lemma_bit_test(bits, i as u64);
                assert(bits_msb_first(bits, count as nat).take(count - i) == bits_msb_first(
                    bits,
                    count as nat,
                ).take(count - i - 1).push(bit));
            }
            self.write_bit(bit)?;
        }
        proof {
            assert(bits_msb_first(bits, count as nat).take(count as int) == bits_msb_first(
                bits,
                count as nat,
            ));
        }
        Ok(())
    }

    /// Appends `value` as a `count`-bit two's-complement field, most significant bit first. A
    /// value outside the range of such a field loses its high bits.
    pub fn write_bits_signed(&mut self, value: i64, count: usize) -> (r: Result<(), std::io::Error>)
        requires
            count <= 64,
        ensures
            r is Ok,
            final(self)@ == old(self)@ + bits_msb_first(twos_complement(value), count as nat),
            old(self).bytes().is_prefix_of(final(self).bytes()),
    {
        let bits = if value < 0 {
            let magnitude: u64 = (-(value + 1)) as u64 + 1;
            0u64.wrapping_sub(magnitude)
        } else {
            value as u64
        };
        self.write_bits(bits, count)
    }

    /// Sends one completed byte to the sink and begins a new one.
    fn flush_byte(&mut self, byte: u8) -> (r: Result<(), std::io::Error>)
        ensures
            r is Ok,
            final(self).bytes() == old(self).bytes().push(byte),
            final(self).pending() == Seq::<bool>::empty(),
            final(self)@ == bits_of_bytes(old(self).bytes()) + bits_of_byte(byte),
    {
        proof {
            lemma_bits_of_bytes_push(self.writer@, byte);
        }
        self.writer.push(byte);
        self.partial = PartialByte { current_byte: 0, bits_filled: 0 };
        Ok(())
    }

    /// Completes the byte in progress with zero bits and sends it to the sink. With no bit
    /// waiting, nothing is written.
    pub fn flush(&mut self) -> (r: Result<(), std::io::Error>)
        ensures
            r is Ok,
            final(self)@ == pad_to_byte(old(self)@),
            final(self).pending() == Seq::<bool>::empty(),
            final(self).bytes() == flushed_bytes(old(self).bytes(), old(self).pending()),
            old(self).bytes().is_prefix_of(final(self).bytes()),
    {
        proof {
            use_type_invariant(&self.partial);
            lemma_flushed_bytes(self.bytes(), self.pending());
        }
        if self.partial.bits_filled > 0 {
            let byte = self.partial.current_byte << (8 - self.partial.bits_filled);
            proof {
                lemma_shift_to_top(self.partial.current_byte, byte, self.partial.bits_filled as nat);
                lemma_byte_of_its_bits(byte);
            }
            self.flush_byte(byte)?;
        }
        assert(self@ =~= bits_of_bytes(self.bytes()));
        Ok(())
    }
}

/// Testing a shifted word against zero reads the bit at that place.
proof fn lemma_bit_test(v: u64, i: u64)
    by (bit_vector)
    ensures
        ((v >> i) & 1 != 0) <==> bit_at(v, i),
{
}

/// Bit by bit: what shifting a bit into the low end of a byte does.
proof fn lemma_bit_shifted_in(c: u8, byte: u8, bit: bool, p: u64)
    by (bit_vector)
    requires
        byte == (if bit {
            (c << 1) | 1
        } else {
            c << 1
        }),
        p < 8,
    ensures
        p == 0 ==> ((((byte as u64) >> p) & 1 == 1) <==> bit),
        p > 0 ==> ((((byte as u64) >> p) & 1 == 1) <==> (((c as u64) >> ((p - 1) as u64)) & 1
            == 1)),
{
}

/// Shifting a bit into the low end of a byte appends it to the byte's low bits.
proof fn lemma_shift_in(c: u8, byte: u8, bit: bool, k: nat)
    requires
        byte == (if bit {
            (c << 1) | 1
        } else {
            c << 1
        }),
        k < 8,
    ensures
        bits_msb_first(byte as u64, k + 1) == bits_msb_first(c as u64, k).push(bit),
{
    let a = bits_msb_first(byte as u64, k + 1);
    let b = bits_msb_first(c as u64, k).push(bit);
    assert forall|j: int| 0 <= j < k + 1 implies a[j] == b[j] by {
        lemma_bit_shifted_in(c, byte, bit, (k - j) as u64);
    }
    assert(a =~= b);
}

/// Bit by bit: what shifting the `k` low bits of a byte to its high end does.
proof fn lemma_bit_shifted_up(c: u8, byte: u8, k: u8, p: u64)
    by (bit_vector)
    requires
        0 < k < 8,
        byte == c << ((8 - k) as u8),
        p < 8,
    ensures
        p < 8 - k ==> ((byte as u64) >> p) & 1 == 0,
        p >= 8 - k ==> ((((byte as u64) >> p) & 1 == 1) <==> (((c as u64) >> ((p - (8 - k)) as u64))
            & 1 == 1)),
{
}

/// Shifting the `k` low bits of a byte to its high end leaves zero bits below them.
proof fn lemma_shift_to_top(c: u8, byte: u8, k: nat)
    requires
        0 < k < 8,
        byte == c << ((8 - k) as u8),
    ensures
        bits_of_byte(byte) == pad_to_byte(bits_msb_first(c as u64, k)),
{
    let a = bits_of_byte(byte);
    let b = pad_to_byte(bits_msb_first(c as u64, k));
    assert(padding_len(k) == 8 - k);
    assert forall|j: int| 0 <= j < 8 implies a[j] == b[j] by {
        lemma_bit_shifted_up(c, byte, k as u8, (7 - j) as u64);
    }
    assert(a =~= b);
}

} // verus!
