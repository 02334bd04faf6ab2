use crate::compression::Compressor;
use crate::utils::bits::{bits_msb_first, bits_of_bytes, flushed_bytes, pad_to_byte};
use crate::utils::BitWriter;
use vstd::prelude::*;
use vstd::std_specs::bits::{
    axiom_u64_leading_zeros, axiom_u64_trailing_zeros, u64_leading_zeros, u64_trailing_zeros,
};

verus! {

/// Why a value could not be written: the sink failed. A compressor whose sink is memory never
/// fails; the error is for callers whose sinks do I/O.
#[derive(Debug)]
pub enum ValueCompressionError {
    IoError(std::io::Error),
}

impl From<std::io::Error> for ValueCompressionError {
    fn from(err: std::io::Error) -> (e: Self) {
        ValueCompressionError::IoError(err)
    }
}

impl vstd::std_specs::convert::FromSpecImpl<std::io::Error> for ValueCompressionError {
    open spec fn obeys_from_spec() -> bool {
        true
    }

    open spec fn from_spec(err: std::io::Error) -> Self {
        ValueCompressionError::IoError(err)
    }
}

/// The number of zero bits above the highest set bit of `x`; 64 for 0.
pub open spec fn leading_zeros(x: u64) -> nat {
    u64_leading_zeros(x) as nat
}

/// The number of zero bits below the lowest set bit of `x`; 64 for 0.
pub open spec fn trailing_zeros(x: u64) -> nat {
    u64_trailing_zeros(x) as nat
}

/// The width of the window of `x` between its leading and its trailing zeros.
pub open spec fn meaningful_len(x: u64) -> nat {
    (64 - leading_zeros(x) - trailing_zeros(x)) as nat
}

/// The bits of that window, most significant first.
pub open spec fn meaningful_bits(x: u64) -> Seq<bool> {
    bits_msb_first(x >> (trailing_zeros(x) as u64), meaningful_len(x))
}

/// Whether `xor` has at least as many leading and at least as many trailing zeros as the
/// difference before it had.
pub open spec fn reuses_window(previous_leading: u8, previous_trailing: u8, xor: u64) -> bool {
    leading_zeros(xor) >= previous_leading && trailing_zeros(xor) >= previous_trailing
}

/// The code of one value, given its difference `xor` from the value before and the zero runs of
/// the last difference that was not zero. An unchanged value is one zero bit. A changed one is a
/// one bit, then either a zero bit and the window of `xor`, or a one bit, the low five bits of
/// the count of leading zeros, the low six bits of the window's width, and the window.
pub open spec fn value_code(previous_leading: u8, previous_trailing: u8, xor: u64) -> Seq<bool> {
    if xor == 0 {
        seq![false]
    } else if reuses_window(previous_leading, previous_trailing, xor) {
        seq![true, false] + meaningful_bits(xor)
    } else {
        seq![true, true] + bits_msb_first(leading_zeros(xor) as u64, 5) + bits_msb_first(
            meaningful_len(xor) as u64,
            6,
        ) + meaningful_bits(xor)
    }
}

/// What a value compressor stands for: the bits it has written and what it remembers of the
/// values it has seen.
pub struct ValueStream {
    /// Every bit written, those still waiting for their byte to fill included.
    pub bits: Seq<bool>,
    /// The bit pattern of the value seen last.
    pub previous_value: u64,
    /// The leading zeros of the last difference that was not zero; 0 before the first.
    pub previous_leading: u8,
    /// The trailing zeros of the last difference that was not zero; 0 before the first.
    pub previous_trailing: u8,
}

impl ValueStream {
    /// The stream after the value with the bit pattern `value`.
    pub open spec fn push(self, value: u64) -> ValueStream {
        let xor = self.previous_value ^ value;
        ValueStream {
            bits: self.bits + value_code(self.previous_leading, self.previous_trailing, xor),
            previous_value: value,
            previous_leading: if xor == 0 {
                self.previous_leading
            } else {
                leading_zeros(xor) as u8
            },
            previous_trailing: if xor == 0 {
                self.previous_trailing
            } else {
                trailing_zeros(xor) as u8
            },
        }
    }

    /// The stream after the values `values`, in their order.
    pub open spec fn push_all(self, values: Seq<u64>) -> ValueStream
        decreases values.len(),
    {
        if values.len() == 0 {
            self
        } else {
            self.push_all(values.drop_last()).push(values.last())
        }
    }

    /// The stream with its last byte completed by zero bits.
    pub open spec fn padded(self) -> ValueStream {
        ValueStream { bits: pad_to_byte(self.bits), ..self }
    }
}

/// A difference that is not zero has a set bit, so its zero runs leave room for it.
pub proof fn lemma_zero_runs(x: u64)
    requires
        x != 0,
    ensures
        leading_zeros(x) + trailing_zeros(x) <= 63,
        1 <= meaningful_len(x) <= 64,
{
    axiom_u64_leading_zeros(x);
    axiom_u64_trailing_zeros(x);
    let lz = u64_leading_zeros(x);
    let tz = u64_trailing_zeros(x);
    if lz + tz > 63 {
        let j = (63 - lz) as u64;
        assert((x >> j) & 1u64 == 0u64);
    }
}

/// A changed value whose difference has at least the leading and at least the trailing zeros
/// of the difference before it is coded in the window of that one: its code begins with a one
/// bit and a zero bit, and the window follows.
pub proof fn lemma_window_reused(previous_leading: u8, previous_trailing: u8, xor: u64)
    requires
        xor != 0,
        leading_zeros(xor) >= previous_leading,
        trailing_zeros(xor) >= previous_trailing,
    ensures
        value_code(previous_leading, previous_trailing, xor) == seq![true, false]
            + meaningful_bits(xor),
        value_code(previous_leading, previous_trailing, xor).len() == 2 + meaningful_len(xor),
{
}

/// Before a value has changed, the first changed value is coded as in a known window, whatever
/// its difference is.
pub proof fn lemma_first_change_reuses(xor: u64)
    requires
        xor != 0,
    ensures
        value_code(0, 0, xor) == seq![true, false] + meaningful_bits(xor),
{
}

/// Encodes 64-bit values as their difference from the value before.
pub struct ValueCompressor {
    bit_writer: BitWriter,
    previous_value: u64,
    previous_xor: u32,
}

impl View for ValueCompressor {
    type V = ValueStream;

    open spec fn view(&self) -> ValueStream {
        ValueStream {
            bits: bits_of_bytes(self.bytes()) + self.pending(),
            previous_value: self.previous_value(),
            previous_leading: self.previous_leading(),
            previous_trailing: self.previous_trailing(),
        }
    }
}

impl ValueCompressor {
    /// The bytes in the sink.
    pub closed spec fn bytes(&self) -> Seq<u8> {
        self.bit_writer.bytes()
    }

    /// The bits written since the last completed byte, at most seven.
    pub closed spec fn pending(&self) -> Seq<bool> {
        self.bit_writer.pending()
    }

    /// At most seven bits wait for their byte to fill.
    pub proof fn lemma_pending_len(&self)
        ensures
            self.pending().len() < 8,
    {
        self.bit_writer.lemma_pending_len();
    }

    /// The bit pattern of the value seen last.
    pub closed spec fn previous_value(&self) -> u64 {
        self.previous_value
    }

    /// The leading zeros of the last difference that was not zero; 0 before the first.
    pub closed spec fn previous_leading(&self) -> u8 {
        (self.previous_xor >> 16) as u8
    }

    /// The trailing zeros of the last difference that was not zero; 0 before the first.
    pub closed spec fn previous_trailing(&self) -> u8 {
        (self.previous_xor & 0xFFFF) as u8
    }

    /// A compressor that has seen the value with the bit pattern `initial_value` and written
    /// nothing; its bytes will follow those of `writer`.
    pub fn new(initial_value: u64, writer: Vec<u8>) -> (c: Self)
        ensures
            c.bytes() == writer@,
            c.pending() == Seq::<bool>::empty(),
            c.previous_value() == initial_value,
            c.previous_leading() == 0,
            c.previous_trailing() == 0,
    {
        let previous_value: u64 = initial_value;
        let previous_xor: u32 = 0;
        proof {
            assert((0u32 >> 16u32) as u8 == 0 && (0u32 & 0xFFFF) as u8 == 0) by (bit_vector);
        }
        ValueCompressor { bit_writer: BitWriter::new(writer), previous_value, previous_xor }
    }

    /// Appends the code of the next value and remembers the value; a difference that is not
    /// zero replaces the remembered zero runs by its own.
    pub fn compress(&mut self, value: u64) -> (r: Result<(), ValueCompressionError>)
        ensures
            r is Ok,
            final(self)@ == old(self)@.push(value),
            old(self).bytes().is_prefix_of(final(self).bytes()),
    {
        let current_bits: u64 = value;
        let xor: u64 = self.previous_value ^ current_bits;

        if xor == 0 {
            self.bit_writer.write_bit(false)?;
        } else {
            proof {
                lemma_zero_runs(xor);
            }
            self.bit_writer.write_bit(true)?;

            let leading_zeros: u8 = xor.leading_zeros() as u8;
            let trailing_zeros: u8 = xor.trailing_zeros() as u8;

            if leading_zeros >= (self.previous_xor >> 16) as u8 && trailing_zeros >= (
            self.previous_xor & 0xFFFF) as u8 {
                self.bit_writer.write_bit(false)?;

                let meaningful_bits: u8 = 64 - leading_zeros - trailing_zeros;
                self.bit_writer.write_bits(xor >> trailing_zeros, meaningful_bits as usize)?;
            } else {
                self.bit_writer.write_bit(true)?;

                self.bit_writer.write_bits(leading_zeros as u64, 5)?;
                let meaningful_bits: u8 = 64 - leading_zeros - trailing_zeros;
                self.bit_writer.write_bits(meaningful_bits as u64, 6)?;

                self.bit_writer.write_bits(xor >> trailing_zeros, meaningful_bits as usize)?;
            }

            self.previous_xor = ((leading_zeros as u32) << 16) | (trailing_zeros as u32);
            proof {
                lemma_descriptor(self.previous_xor, leading_zeros, trailing_zeros);
            }
        }

        self.previous_value = current_bits;
        assert(self@.bits =~= old(self)@.push(value).bits);
        Ok(())
    }

    pub fn get_writer(&self) -> (sink: &Vec<u8>)
        ensures
            sink@ == self.bytes(),
    {
        self.bit_writer.get_ref()
    }

    /// Completes the last byte with zero bits and sends it to the sink.
    pub fn flush(&mut self) -> (r: Result<(), ValueCompressionError>)
        ensures
            r is Ok,
            final(self)@ == old(self)@.padded(),
            final(self).pending() == Seq::<bool>::empty(),
            final(self).bytes() == flushed_bytes(old(self).bytes(), old(self).pending()),
            old(self).bytes().is_prefix_of(final(self).bytes()),
    {
        self.bit_writer.flush()?;
        assert(self@.bits =~= old(self)@.padded().bits);
        Ok(())
    }

    pub fn into_inner(self) -> (sink: Vec<u8>)
        ensures
            sink@ == self.bytes(),
    {
        self.bit_writer.into_inner()
    }
}

impl Compressor for ValueCompressor {
    type Output = u64;

    type Error = ValueCompressionError;

    fn compress(&mut self, data: u64) -> (r: Result<(), ValueCompressionError>)
        ensures
            r is Ok,
            final(self)@ == old(self)@.push(data),
    {
        ValueCompressor::compress(self, data)
    }

    fn finalize(&mut self) -> (r: Result<(), ValueCompressionError>)
        ensures
            r is Ok,
            final(self)@ == old(self)@.padded(),
            final(self).pending() == Seq::<bool>::empty(),
    {
        self.flush()
    }
}

proof fn lemma_descriptor(packed: u32, leading: u8, trailing: u8)
    by (bit_vector)
    requires
        packed == ((leading as u32) << 16) | (trailing as u32),
    ensures
        (packed >> 16) as u8 == leading,
        (packed & 0xFFFF) as u8 == trailing,
{
}

} // verus!
