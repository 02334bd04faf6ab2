use crate::compression::timestamp_compression::{
    TimestampCompressionError, TimestampCompressor, TimestampStream,
};
use crate::compression::value_compression::{ValueCompressionError, ValueCompressor, ValueStream};
use crate::utils::bits::{bits_of_bytes, flushed_bytes, pad_to_byte};
use vstd::prelude::*;

verus! {

/// Why a sample could not be appended: which of the two streams refused it.
#[derive(Debug)]
pub enum AppendError {
    Timestamp(TimestampCompressionError),
    Value(ValueCompressionError),
}

/// Why a series could not be finished: which of the two streams refused its last byte.
#[derive(Debug)]
pub enum FlushError {
    Timestamp(TimestampCompressionError),
    Value(ValueCompressionError),
}

/// What a series stands for: its name, its two streams and its last sample.
pub struct SeriesView {
    /// The name, as it was given.
    pub key: Seq<char>,
    pub timestamps: TimestampStream,
    pub values: ValueStream,
    /// The timestamp of the last sample.
    pub last_timestamp: u64,
    /// The bit pattern of the value of the last sample.
    pub last_value: u64,
}

impl SeriesView {
    /// The series that holds its first sample only. The first sample seeds the two streams and
    /// is not written to them.
    pub open spec fn start(key: Seq<char>, timestamp: u64, value: u64) -> SeriesView {
        SeriesView {
            key,
            timestamps: TimestampStream {
                bits: Seq::empty(),
                last_timestamp: timestamp,
                last_delta: 0,
            },
            values: ValueStream {
                bits: Seq::empty(),
                previous_value: value,
                previous_leading: 0,
                previous_trailing: 0,
            },
            last_timestamp: timestamp,
            last_value: value,
        }
    }

    /// The series after one more sample.
    pub open spec fn push(self, timestamp: u64, value: u64) -> SeriesView {
        SeriesView {
            key: self.key,
            timestamps: self.timestamps.push(timestamp),
            values: self.values.push(value),
            last_timestamp: timestamp,
            last_value: value,
        }
    }

    /// The series after the samples `samples`, in their order; each is a timestamp and the bit
    /// pattern of a value.
    pub open spec fn push_all(self, samples: Seq<(u64, u64)>) -> SeriesView
        decreases samples.len(),
    {
        if samples.len() == 0 {
            self
        } else {
            self.push_all(samples.drop_last()).push(samples.last().0, samples.last().1)
        }
    }

    /// The series with the last byte of each stream completed by zero bits.
    pub open spec fn padded(self) -> SeriesView {
        SeriesView {
            timestamps: self.timestamps.padded(),
            values: self.values.padded(),
            ..self
        }
    }
}

/// One named series of samples, each a timestamp and the bit pattern of a 64-bit value, held as
/// two compressed streams.
pub struct TimeSeries {
    key: String,
    timestamp_compressor: TimestampCompressor,
    value_compressor: ValueCompressor,
    last_timestamp: u64,
    last_value: u64,
}

impl View for TimeSeries {
    type V = SeriesView;

    open spec fn view(&self) -> SeriesView {
        SeriesView {
            key: self.key(),
            timestamps: self.timestamps()@,
            values: self.values()@,
            last_timestamp: self.last_timestamp(),
            last_value: self.last_value(),
        }
    }
}

impl TimeSeries {
    /// The name, as it was given.
    pub closed spec fn key(&self) -> Seq<char> {
        self.key@
    }

    /// The compressor of the timestamps.
    pub closed spec fn timestamps(&self) -> TimestampCompressor {
        self.timestamp_compressor
    }

    /// The compressor of the values.
    pub closed spec fn values(&self) -> ValueCompressor {
        self.value_compressor
    }

    /// The timestamp of the last sample.
    pub closed spec fn last_timestamp(&self) -> u64 {
        self.last_timestamp
    }

    /// The bit pattern of the value of the last sample.
    pub closed spec fn last_value(&self) -> u64 {
        self.last_value
    }

    pub fn get_key(&self) -> (key: &str)
        ensures
            key@ == self@.key,
    {
        self.key.as_str()
    }

    pub fn get_last_timestamp(&self) -> (t: u64)
        ensures
            t == self@.last_timestamp,
    {
        self.last_timestamp
    }

    /// The bit pattern of the value of the last sample.
    pub fn get_last_value(&self) -> (v: u64)
        ensures
            v == self@.last_value,
    {
        self.last_value
    }

    /// A series that holds its first sample; both buffers are empty.
    pub fn new(key: String, initial_timestamp: u64, initial_value: u64) -> (s: Self)
        ensures
            s@ == SeriesView::start(key@, initial_timestamp, initial_value),
            s.timestamps().bytes() == Seq::<u8>::empty(),
            s.values().bytes() == Seq::<u8>::empty(),
    {
        let compressed_timestamps: Vec<u8> = Vec::new();
        let timestamp_compressor = TimestampCompressor::new(
            initial_timestamp,
            compressed_timestamps,
        );

        let compressed_values: Vec<u8> = Vec::new();
        let value_compressor = ValueCompressor::new(initial_value, compressed_values);

        let s = TimeSeries {
            key,
            timestamp_compressor,
            value_compressor,
            last_timestamp: initial_timestamp,
            last_value: initial_value,
        };
        proof {
            assert(s@.timestamps.bits =~= Seq::<bool>::empty());
            assert(s@.values.bits =~= Seq::<bool>::empty());
        }
        s
    }

    /// Appends one sample to both streams. With its buffers in memory this does not fail.
    pub fn append(&mut self, timestamp: u64, value: u64) -> (r: Result<(), AppendError>)
        ensures
            r is Ok,
            final(self)@ == old(self)@.push(timestamp, value),
            old(self).timestamps().bytes().is_prefix_of(final(self).timestamps().bytes()),
            old(self).values().bytes().is_prefix_of(final(self).values().bytes()),
    {
        match self.timestamp_compressor.compress(timestamp) {
            Ok(()) => {},
            Err(e) => {
                return Err(AppendError::Timestamp(e));
            },
        }
        match self.value_compressor.compress(value) {
            Ok(()) => {},
            Err(e) => {
                return Err(AppendError::Value(e));
            },
        }
        self.last_timestamp = timestamp;
        self.last_value = value;
        Ok(())
    }

    /// Completes the last byte of each stream with zero bits. Nothing is lost: each buffer then
    /// holds its whole stream, followed by that padding.
    pub fn finalize(&mut self) -> (r: Result<(), FlushError>)
        ensures
            r is Ok,
            final(self)@ == old(self)@.padded(),
            final(self).timestamps().pending() == Seq::<bool>::empty(),
            final(self).values().pending() == Seq::<bool>::empty(),
            final(self).timestamps().bytes() == flushed_bytes(
                old(self).timestamps().bytes(),
                old(self).timestamps().pending(),
            ),
            final(self).values().bytes() == flushed_bytes(
                old(self).values().bytes(),
                old(self).values().pending(),
            ),
            bits_of_bytes(final(self).timestamps().bytes()) == pad_to_byte(
                old(self)@.timestamps.bits,
            ),
            bits_of_bytes(final(self).values().bytes()) == pad_to_byte(old(self)@.values.bits),
            old(self).timestamps().bytes().is_prefix_of(final(self).timestamps().bytes()),
            old(self).values().bytes().is_prefix_of(final(self).values().bytes()),
    {
        match self.timestamp_compressor.flush() {
            Ok(()) => {},
            Err(e) => {
                return Err(FlushError::Timestamp(e));
            },
        }
        match self.value_compressor.flush() {
            Ok(()) => {},
            Err(e) => {
                return Err(FlushError::Value(e));
            },
        }
        Ok(())
    }

    /// A copy of the bytes of the timestamp stream that are complete.
    pub fn get_compressed_timestamps(&self) -> (bytes: Vec<u8>)
        ensures
            bytes@ == self.timestamps().bytes(),
    {
        let inner = self.timestamp_compressor.get_writer();
        inner.clone()
    }

    /// A copy of the bytes of the value stream that are complete.
    pub fn get_compressed_values(&self) -> (bytes: Vec<u8>)
        ensures
            bytes@ == self.values().bytes(),
    {
        let inner = self.value_compressor.get_writer();
        inner.clone()
    }
}

} // verus!
