use crate::compression::Compressor;
use crate::utils::bits::{
    bits_msb_first, bits_of_bytes, flushed_bytes, lemma_padded_len, pad_to_byte, twos_complement,
    zero_bits,
};
use crate::utils::BitWriter;
use vstd::prelude::*;

verus! {

/// Why a timestamp could not be written: the sink failed. A compressor whose sink is memory
/// never fails; the error is for callers whose sinks do I/O.
#[derive(Debug)]
pub enum TimestampCompressionError {
    IoError(std::io::Error),
}

impl From<std::io::Error> for TimestampCompressionError {
    fn from(err: std::io::Error) -> (e: Self) {
        TimestampCompressionError::IoError(err)
    }
}

impl vstd::std_specs::convert::FromSpecImpl<std::io::Error> for TimestampCompressionError {
    open spec fn obeys_from_spec() -> bool {
        true
    }

    open spec fn from_spec(err: std::io::Error) -> Self {
        TimestampCompressionError::IoError(err)
    }
}

/// The signed 64-bit number that `x` wraps to.
pub open spec fn wrap_i64(x: int) -> i64 {
    let m = x % 0x1_0000_0000_0000_0000;
    if m < 0x8000_0000_0000_0000 {
        m as i64
    } else {
        (m - 0x1_0000_0000_0000_0000) as i64
    }
}

/// The gap from the timestamp `last` to the timestamp `t`, in signed 64-bit arithmetic.
pub open spec fn timestamp_delta(last: u64, t: u64) -> i64 {
    wrap_i64(t - last)
}

/// How much the gap to `t` differs from the gap before it, in signed 64-bit arithmetic.
pub open spec fn delta_of_delta(last: u64, last_delta: i64, t: u64) -> i64 {
    wrap_i64(timestamp_delta(last, t) - last_delta)
}

/// The code of one delta of deltas: a prefix that names the width of the field, then the field
/// in two's complement. The widest field keeps the low 32 bits of what does not fit.
pub open spec fn timestamp_code(dod: i64) -> Seq<bool> {
    if dod == 0 {
        seq![false]
    } else if -63 <= dod <= 64 {
        seq![true, false] + bits_msb_first(twos_complement(dod), 7)
    } else if -255 <= dod <= 256 {
        seq![true, true, false] + bits_msb_first(twos_complement(dod), 9)
    } else if -2047 <= dod <= 2048 {
        seq![true, true, true, false] + bits_msb_first(twos_complement(dod), 12)
    } else {
        seq![true, true, true, true] + bits_msb_first(twos_complement(dod), 32)
    }
}

/// What a timestamp compressor stands for: the bits it has written and what it remembers of the
/// timestamps it has seen.
pub struct TimestampStream {
    /// Every bit written, those still waiting for their byte to fill included.
    pub bits: Seq<bool>,
    /// The timestamp seen last.
    pub last_timestamp: u64,
    /// The gap between the last two timestamps seen; 0 before the second.
    pub last_delta: i64,
}

impl TimestampStream {
    /// The stream after the timestamp `t`.
    pub open spec fn push(self, t: u64) -> TimestampStream {
        TimestampStream {
            bits: self.bits + timestamp_code(
                delta_of_delta(self.last_timestamp, self.last_delta, t),
            ),
            last_timestamp: t,
            last_delta: timestamp_delta(self.last_timestamp, t),
        }
    }

    /// The stream after the timestamps `ts`, in their order.
    pub open spec fn push_all(self, ts: Seq<u64>) -> TimestampStream
        decreases ts.len(),
    {
        if ts.len() == 0 {
            self
        } else {
            self.push_all(ts.drop_last()).push(ts.last())
        }
    }

    /// The stream with its last byte completed by zero bits.
    pub open spec fn padded(self) -> TimestampStream {
        TimestampStream { bits: pad_to_byte(self.bits), ..self }
    }
}

/// A code has at least one bit and at most thirty-six.
pub proof fn lemma_code_len(dod: i64)
    ensures
        1 <= timestamp_code(dod).len() <= 36,
        dod == 0 <==> timestamp_code(dod).len() == 1,
{
}

/// Timestamps at a constant interval cost the code of the first gap's change and then one zero
/// bit each: of `n` such timestamps the stream grows by fewer than `n + 36` bits.
pub proof fn lemma_constant_interval(start: TimestampStream, ts: Seq<u64>)
    requires
        ts.len() >= 1,
        forall|i: int|
            1 <= i < ts.len() ==> #[trigger] ts[i] - ts[i - 1] == ts[0] - start.last_timestamp,
    ensures
        start.push_all(ts).bits == start.bits + timestamp_code(
            delta_of_delta(start.last_timestamp, start.last_delta, ts[0]),
        ) + zero_bits((ts.len() - 1) as nat),
        start.push_all(ts).last_timestamp == ts.last(),
        start.push_all(ts).last_delta == timestamp_delta(start.last_timestamp, ts[0]),
        start.bits.len() + ts.len() <= start.push_all(ts).bits.len() < start.bits.len() + ts.len()
            + 36,
    decreases ts.len(),
{
    let first = timestamp_code(delta_of_delta(start.last_timestamp, start.last_delta, ts[0]));
    lemma_code_len(delta_of_delta(start.last_timestamp, start.last_delta, ts[0]));
    if ts.len() == 1 {
        assert(ts.drop_last().len() == 0);
        assert(start.push_all(ts.drop_last()) == start);
        assert(start.push_all(ts).bits =~= start.bits + first + zero_bits(0));
    } else {
        let init = ts.drop_last();
        assert(init[0] == ts[0]);
        assert forall|i: int| 1 <= i < init.len() implies #[trigger] init[i] - init[i - 1]
            == init[0] - start.last_timestamp by {
            assert(init[i] == ts[i] && init[i - 1] == ts[i - 1]);
        }
        lemma_constant_interval(start, init);
        let before = start.push_all(init);
        let n = ts.len() as int;
        assert(before.last_timestamp == ts[n - 2]);
        assert(ts[n - 1] - ts[n - 2] == ts[0] - start.last_timestamp);
        assert(timestamp_delta(before.last_timestamp, ts.last()) == before.last_delta);
        assert(delta_of_delta(before.last_timestamp, before.last_delta, ts.last()) == 0);
        assert(timestamp_code(0) =~= seq![false]);
        assert(start.push_all(ts).bits =~= start.bits + first + zero_bits((n - 1) as nat));
    }
}

/// The bytes of `n` timestamps at a constant interval, written to a new stream and padded, are
/// at least `n / 8` and fewer than `n / 8 + 6`.
pub proof fn lemma_constant_interval_bytes(start: TimestampStream, ts: Seq<u64>, bytes: Seq<u8>)
    requires
        start.bits.len() == 0,
        ts.len() >= 1,
        forall|i: int|
            1 <= i < ts.len() ==> #[trigger] ts[i] - ts[i - 1] == ts[0] - start.last_timestamp,
        bits_of_bytes(bytes) == start.push_all(ts).padded().bits,
    ensures
        ts.len() <= 8 * bytes.len() < ts.len() + 43,
{
    lemma_constant_interval(start, ts);
    lemma_padded_len(start.push_all(ts).bits);
}

/// Encodes timestamps as the change of their gaps.
pub struct TimestampCompressor {
    bit_writer: BitWriter,
    last_timestamp: u64,
    last_delta: i64,
}

impl View for TimestampCompressor {
    type V = TimestampStream;

    open spec fn view(&self) -> TimestampStream {
        TimestampStream {
            bits: bits_of_bytes(self.bytes()) + self.pending(),
            last_timestamp: self.last_timestamp(),
            last_delta: self.last_delta(),
        }
    }
}

impl TimestampCompressor {
    /// The bytes in the sink.
    pub closed spec fn bytes(&self) -> Seq<u8> {
        self.bit_writer.bytes()
    }

    /// The bits written since the last completed byte, at most seven.
    pub closed spec fn pending(&self) -> Seq<bool> {
        self.bit_writer.pending()
    }

    /// At most seven bits wait for their byte to fill.
    pub proof fn lemma_pending_len(&self)
        ensures
            self.pending().len() < 8,
    {
        self.bit_writer.lemma_pending_len();
    }

    /// The timestamp seen last.
    pub closed spec fn last_timestamp(&self) -> u64 {
        self.last_timestamp
    }

    /// The gap between the last two timestamps seen; 0 before the second.
    pub closed spec fn last_delta(&self) -> i64 {
        self.last_delta
    }

    /// A compressor that has seen `initial_timestamp` and written nothing; its bytes will follow
    /// those of `writer`.
    pub fn new(initial_timestamp: u64, writer: Vec<u8>) -> (c: Self)
        ensures
            c.bytes() == writer@,
            c.pending() == Seq::<bool>::empty(),
            c.last_timestamp() == initial_timestamp,
            c.last_delta() == 0,
    {
        TimestampCompressor {
            bit_writer: BitWriter::new(writer),
            last_timestamp: initial_timestamp,
            last_delta: 0,
        }
    }

    pub fn get_writer(&self) -> (sink: &Vec<u8>)
        ensures
            sink@ == self.bytes(),
    {
        self.bit_writer.get_ref()
    }

    /// Appends the code of the next timestamp and remembers the timestamp and its gap.
    pub fn compress(&mut self, timestamp: u64) -> (r: Result<(), TimestampCompressionError>)
        ensures
            r is Ok,
            final(self)@ == old(self)@.push(timestamp),
            old(self).bytes().is_prefix_of(final(self).bytes()),
    {
        let delta: i64 = (#[verifier::truncate] (timestamp as i64)).wrapping_sub(
            #[verifier::truncate] (self.last_timestamp as i64),
        );
        let delta_of_delta: i64 = delta.wrapping_sub(self.last_delta);
        proof {
            lemma_gap(self.last_timestamp, timestamp);
            lemma_wrapping_sub(delta, self.last_delta);
            lemma_prefixes();
        }
        self.last_timestamp = timestamp;
        self.last_delta = delta;

        if delta_of_delta == 0 {
            self.bit_writer.write_bit(false)?;
        } else if -63 <= delta_of_delta && delta_of_delta <= 64 {
            self.bit_writer.write_bits(0b10, 2)?;
            self.bit_writer.write_bits_signed(delta_of_delta, 7)?;
        } else if -255 <= delta_of_delta && delta_of_delta <= 256 {
            self.bit_writer.write_bits(0b110, 3)?;
            self.bit_writer.write_bits_signed(delta_of_delta, 9)?;
        } else if -2047 <= delta_of_delta && delta_of_delta <= 2048 {
            self.bit_writer.write_bits(0b1110, 4)?;
            self.bit_writer.write_bits_signed(delta_of_delta, 12)?;
        } else {
            self.bit_writer.write_bits(0b1111, 4)?;
            self.bit_writer.write_bits_signed(delta_of_delta, 32)?;
        }
        assert(self@.bits =~= old(self)@.push(timestamp).bits);
        Ok(())
    }

    /// Completes the last byte with zero bits and sends it to the sink.
    pub fn flush(&mut self) -> (r: Result<(), TimestampCompressionError>)
        ensures
            r is Ok,
            final(self)@ == old(self)@.padded(),
            final(self).pending() == Seq::<bool>::empty(),
            final(self).bytes() == flushed_bytes(old(self).bytes(), old(self).pending()),
            old(self).bytes().is_prefix_of(final(self).bytes()),
    {
        self.bit_writer.flush()?;
        assert(self@.bits =~= old(self)@.padded().bits);
        Ok(())
    }

    pub fn into_inner(self) -> (sink: Vec<u8>)
        ensures
            sink@ == self.bytes(),
    {
        self.bit_writer.into_inner()
    }
}

impl Compressor for TimestampCompressor {
    type Output = u64;

    type Error = TimestampCompressionError;

    fn compress(&mut self, data: u64) -> (r: Result<(), TimestampCompressionError>)
        ensures
            r is Ok,
            final(self)@ == old(self)@.push(data),
    {
        TimestampCompressor::compress(self, data)
    }

    fn finalize(&mut self) -> (r: Result<(), TimestampCompressionError>)
        ensures
            r is Ok,
            final(self)@ == old(self)@.padded(),
            final(self).pending() == Seq::<bool>::empty(),
    {
        self.flush()
    }
}

proof fn lemma_prefixes()
    ensures
        bits_msb_first(0b10, 2) == seq![true, false],
        bits_msb_first(0b110, 3) == seq![true, true, false],
        bits_msb_first(0b1110, 4) == seq![true, true, true, false],
        bits_msb_first(0b1111, 4) == seq![true, true, true, true],
{
    assert((0b10u64 >> 1u64) & 1 == 1 && (0b10u64 >> 0u64) & 1 == 0 && (0b110u64 >> 2u64) & 1 == 1
        && (0b110u64 >> 1u64) & 1 == 1 && (0b110u64 >> 0u64) & 1 == 0 && (0b1110u64 >> 3u64) & 1
        == 1 && (0b1110u64 >> 2u64) & 1 == 1 && (0b1110u64 >> 1u64) & 1 == 1 && (0b1110u64
        >> 0u64) & 1 == 0 && (0b1111u64 >> 3u64) & 1 == 1 && (0b1111u64 >> 2u64) & 1 == 1 && (
    0b1111u64 >> 1u64) & 1 == 1 && (0b1111u64 >> 0u64) & 1 == 1) by (bit_vector);
    assert(bits_msb_first(0b10, 2) =~= seq![true, false]);
    assert(bits_msb_first(0b110, 3) =~= seq![true, true, false]);
    assert(bits_msb_first(0b1110, 4) =~= seq![true, true, true, false]);
    assert(bits_msb_first(0b1111, 4) =~= seq![true, true, true, true]);
}

proof fn lemma_signed_reading(t: u64)
    by (bit_vector)
    ensures
        t < 0x8000_0000_0000_0000 ==> (t as i64) == t,
        t >= 0x8000_0000_0000_0000 ==> (t as i64) == t - 0x1_0000_0000_0000_0000,
{
}

proof fn lemma_wrapping_sub(a: i64, b: i64)
    ensures
        vstd::wrapping::i64_specs::wrapping_sub(a, b) == wrap_i64(a - b),
{
}

proof fn lemma_gap(last: u64, t: u64)
    ensures
        vstd::wrapping::i64_specs::wrapping_sub(t as i64, last as i64) == timestamp_delta(last, t),
{
    lemma_signed_reading(t);
    lemma_signed_reading(last);
}

} // verus!
