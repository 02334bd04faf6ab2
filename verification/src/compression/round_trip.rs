//! Reading the two streams back, as a reader does that keeps the state the compressor kept, and
//! the samples for which what is read is what was written.
use crate::compression::timestamp_compression::{
    delta_of_delta, timestamp_code, timestamp_delta, wrap_i64, TimestampStream,
};
use crate::data_structures::time_series::SeriesView;
use crate::utils::bits::{
    bits_msb_first, lemma_word_of_low_bits, low_mask, padding_len, twos_complement, word_of_bits,
    zero_bits,
};
use crate::compression::value_compression::{
    leading_zeros, lemma_zero_runs, meaningful_bits, meaningful_len, reuses_window,
    trailing_zeros, value_code, ValueStream,
};
use vstd::prelude::*;
use vstd::std_specs::bits::{axiom_u64_leading_zeros, axiom_u64_trailing_zeros};

verus! {

/// The unsigned 64-bit number that `x` wraps to.
pub open spec fn wrap_u64(x: int) -> u64 {
    (x % 0x1_0000_0000_0000_0000) as u64
}

/// A field read as a change of gaps: the numbers up to `top` stand for themselves, those above
/// it for the negative numbers, `modulus` less.
pub open spec fn change_of_field(field: Seq<bool>, top: int, modulus: int) -> int {
    let u = word_of_bits(field) as int;
    if u <= top {
        u
    } else {
        u - modulus
    }
}

/// Whether a change of gaps fits the widest field, so that its code says which change it is.
pub open spec fn change_fits(dod: i64) -> bool {
    -0x7fff_ffff <= dod <= 0x8000_0000
}

/// A reader of a timestamp stream: the bits not yet read, and what the compressor remembered
/// when it wrote them.
pub struct TimestampReader {
    pub bits: Seq<bool>,
    pub last_timestamp: u64,
    pub last_delta: i64,
}

impl TimestampReader {
    /// The change of gaps that the next code stands for, and the length of that code. There is
    /// none where the bits end within the code.
    pub open spec fn next_change(self) -> Option<(int, nat)> {
        let b = self.bits;
        if b.len() >= 1 && !b[0] {
            Some((0int, 1nat))
        } else if b.len() >= 9 && b[0] && !b[1] {
            Some((change_of_field(b.subrange(2, 9), 0x40, 0x80), 9nat))
        } else if b.len() >= 12 && b[0] && b[1] && !b[2] {
            Some((change_of_field(b.subrange(3, 12), 0x100, 0x200), 12nat))
        } else if b.len() >= 16 && b[0] && b[1] && b[2] && !b[3] {
            Some((change_of_field(b.subrange(4, 16), 0x800, 0x1000), 16nat))
        } else if b.len() >= 36 && b[0] && b[1] && b[2] && b[3] {
            Some((change_of_field(b.subrange(4, 36), 0x8000_0000, 0x1_0000_0000), 36nat))
        } else {
            None
        }
    }

    /// The next timestamp, and the reader after it.
    pub open spec fn read(self) -> Option<(u64, TimestampReader)> {
        match self.next_change() {
            None => None,
            Some((change, len)) => {
                let delta = wrap_i64(self.last_delta + change);
                let t = wrap_u64(self.last_timestamp + delta);
                Some(
                    (
                        t,
                        TimestampReader {
                            bits: self.bits.skip(len as int),
                            last_timestamp: t,
                            last_delta: delta,
                        },
                    ),
                )
            },
        }
    }

    /// The next `n` timestamps, and the reader after them.
    pub open spec fn read_n(self, n: nat) -> Option<(Seq<u64>, TimestampReader)>
        decreases n,
    {
        if n == 0 {
            Some((Seq::empty(), self))
        } else {
            match self.read_n((n - 1) as nat) {
                None => None,
                Some((ts, reader)) => match reader.read() {
                    None => None,
                    Some((t, after)) => Some((ts.push(t), after)),
                },
            }
        }
    }
}

impl TimestampStream {
    /// Whether each of the timestamps `ts`, written after this stream, changes the gap by an
    /// amount that fits the widest field.
    pub open spec fn changes_fit(self, ts: Seq<u64>) -> bool
        decreases ts.len(),
    {
        ts.len() == 0 || {
            let before = self.push_all(ts.drop_last());
            &&& self.changes_fit(ts.drop_last())
            &&& change_fits(delta_of_delta(before.last_timestamp, before.last_delta, ts.last()))
        }
    }

    /// The bits that the timestamps `ts` add to this stream.
    pub open spec fn written(self, ts: Seq<u64>) -> Seq<bool> {
        self.push_all(ts).bits.skip(self.bits.len() as int)
    }
}

proof fn lemma_low_bits_are_remainders(x: u64)
    by (bit_vector)
    ensures
        x & ((((1u64 << 7) - 1) as u64)) == x % 0x80,
        x & ((((1u64 << 9) - 1) as u64)) == x % 0x200,
        x & ((((1u64 << 12) - 1) as u64)) == x % 0x1000,
        x & ((((1u64 << 32) - 1) as u64)) == x % 0x1_0000_0000,
{
}

/// The low bits of a two's-complement pattern, as a number.
proof fn lemma_pattern_remainders(dod: i64)
    ensures
        0 <= dod < 0x80 ==> twos_complement(dod) % 0x80 == dod,
        -0x80 <= dod < 0 ==> twos_complement(dod) % 0x80 == dod + 0x80,
        0 <= dod < 0x200 ==> twos_complement(dod) % 0x200 == dod,
        -0x200 <= dod < 0 ==> twos_complement(dod) % 0x200 == dod + 0x200,
        0 <= dod < 0x1000 ==> twos_complement(dod) % 0x1000 == dod,
        -0x1000 <= dod < 0 ==> twos_complement(dod) % 0x1000 == dod + 0x1000,
        0 <= dod < 0x1_0000_0000 ==> twos_complement(dod) % 0x1_0000_0000 == dod,
        -0x1_0000_0000 <= dod < 0 ==> twos_complement(dod) % 0x1_0000_0000 == dod
            + 0x1_0000_0000,
{
    if dod < 0 {
        let x: int = dod + 0x1_0000_0000_0000_0000;
        assert(twos_complement(dod) == x);
        if -0x80 <= dod {
            assert(x == 0x80 * 0x1ff_ffff_ffff_ffff + (dod + 0x80));
        }
        if -0x200 <= dod {
            assert(x == 0x200 * 0x7f_ffff_ffff_ffff + (dod + 0x200));
        }
        if -0x1000 <= dod {
            assert(x == 0x1000 * 0xf_ffff_ffff_ffff + (dod + 0x1000));
        }
        if -0x1_0000_0000 <= dod {
            assert(x == 0x1_0000_0000 * 0xffff_ffff + (dod + 0x1_0000_0000));
        }
    }
}

/// A change of gaps within the range of its field is read back from the field.
proof fn lemma_field_read_back(dod: i64)
    ensures
        -0x40 < dod <= 0x40 ==> change_of_field(
            bits_msb_first(twos_complement(dod), 7),
            0x40,
            0x80,
        ) == dod,
        -0x100 < dod <= 0x100 ==> change_of_field(
            bits_msb_first(twos_complement(dod), 9),
            0x100,
            0x200,
        ) == dod,
        -0x800 < dod <= 0x800 ==> change_of_field(
            bits_msb_first(twos_complement(dod), 12),
            0x800,
            0x1000,
        ) == dod,
        -0x8000_0000 < dod <= 0x8000_0000 ==> change_of_field(
            bits_msb_first(twos_complement(dod), 32),
            0x8000_0000,
            0x1_0000_0000,
        ) == dod,
{
    let x = twos_complement(dod);
    lemma_low_bits_are_remainders(x);
    lemma_pattern_remainders(dod);
    lemma_word_of_low_bits(x, 7);
    lemma_word_of_low_bits(x, 9);
    lemma_word_of_low_bits(x, 12);
    lemma_word_of_low_bits(x, 32);
}

/// The reader's arithmetic undoes the compressor's: the gap is the last gap and its change,
/// the timestamp the last timestamp and the gap.
proof fn lemma_gap_restored(last: u64, last_delta: i64, t: u64)
    ensures
        wrap_i64(last_delta + delta_of_delta(last, last_delta, t)) == timestamp_delta(last, t),
        wrap_u64(last + timestamp_delta(last, t)) == t,
{
    let delta = timestamp_delta(last, t);
    assert(delta == t - last || delta == t - last - 0x1_0000_0000_0000_0000 || delta == t - last
        + 0x1_0000_0000_0000_0000);
    let dod = delta_of_delta(last, last_delta, t);
    assert(dod == delta - last_delta || dod == delta - last_delta - 0x1_0000_0000_0000_0000 || dod
        == delta - last_delta + 0x1_0000_0000_0000_0000);
}

/// The code of a change of gaps that fits is read as that change, whatever follows.
proof fn lemma_change_read_back(dod: i64, tail: Seq<bool>, last: u64, last_delta: i64)
    requires
        change_fits(dod),
    ensures
        (TimestampReader {
            bits: timestamp_code(dod) + tail,
            last_timestamp: last,
            last_delta,
        }).next_change() == Some((dod as int, timestamp_code(dod).len())),
        (timestamp_code(dod) + tail).skip(timestamp_code(dod).len() as int) == tail,
{
    let code = timestamp_code(dod);
    let b = code + tail;
    lemma_field_read_back(dod);
    assert(b.skip(code.len() as int) =~= tail);
    if dod == 0 {
    } else if -63 <= dod <= 64 {
        assert(b.subrange(2, 9) =~= bits_msb_first(twos_complement(dod), 7));
    } else if -255 <= dod <= 256 {
        assert(b.subrange(3, 12) =~= bits_msb_first(twos_complement(dod), 9));
    } else if -2047 <= dod <= 2048 {
        assert(b.subrange(4, 16) =~= bits_msb_first(twos_complement(dod), 12));
    } else {
        assert(b.subrange(4, 36) =~= bits_msb_first(twos_complement(dod), 32));
    }
}

/// One timestamp whose change of gaps fits is read back from its code, whatever follows.
pub proof fn lemma_timestamp_read_back(last: u64, last_delta: i64, t: u64, tail: Seq<bool>)
    requires
        change_fits(delta_of_delta(last, last_delta, t)),
    ensures
        (TimestampReader {
            bits: timestamp_code(delta_of_delta(last, last_delta, t)) + tail,
            last_timestamp: last,
            last_delta,
        }).read() == Some(
            (
                t,
                TimestampReader {
                    bits: tail,
                    last_timestamp: t,
                    last_delta: timestamp_delta(last, t),
                },
            ),
        ),
{
    lemma_gap_restored(last, last_delta, t);
    lemma_change_read_back(delta_of_delta(last, last_delta, t), tail, last, last_delta);
}

/// Pushing timestamps only adds bits.
pub proof fn lemma_timestamps_extend(start: TimestampStream, ts: Seq<u64>)
    ensures
        start.bits.is_prefix_of(start.push_all(ts).bits),
        start.push_all(ts).bits == start.bits + start.written(ts),
    decreases ts.len(),
{
    if ts.len() > 0 {
        lemma_timestamps_extend(start, ts.drop_last());
    }
    assert(start.push_all(ts).bits =~= start.bits + start.written(ts));
}

/// Timestamps whose changes of gaps all fit are read back from the bits that they added to a
/// stream, by a reader that starts where the compressor started, whatever follows those bits.
pub proof fn lemma_timestamps_read_back(start: TimestampStream, ts: Seq<u64>, tail: Seq<bool>)
    requires
        start.changes_fit(ts),
    ensures
        (TimestampReader {
            bits: start.written(ts) + tail,
            last_timestamp: start.last_timestamp,
            last_delta: start.last_delta,
        }).read_n(ts.len()) == Some(
            (
                ts,
                TimestampReader {
                    bits: tail,
                    last_timestamp: start.push_all(ts).last_timestamp,
                    last_delta: start.push_all(ts).last_delta,
                },
            ),
        ),
    decreases ts.len(),
{
    let reader = TimestampReader {
        bits: start.written(ts) + tail,
        last_timestamp: start.last_timestamp,
        last_delta: start.last_delta,
    };
    if ts.len() == 0 {
        assert(start.written(ts) + tail =~= tail);
    } else {
        let init = ts.drop_last();
        let before = start.push_all(init);
        let code = timestamp_code(
            delta_of_delta(before.last_timestamp, before.last_delta, ts.last()),
        );
        lemma_timestamps_extend(start, init);
        lemma_timestamps_extend(start, ts);
        assert(start.written(ts) + tail =~= start.written(init) + (code + tail));
        lemma_timestamps_read_back(start, init, code + tail);
        lemma_timestamp_read_back(before.last_timestamp, before.last_delta, ts.last(), tail);
        assert(init.push(ts.last()) =~= ts);
    }
}

/// Whether the code of a value says which value it is: its difference `xor` from the value
/// before is zero, or has the very zero runs of the last difference that was not zero, or is
/// coded in a window of its own with fewer than thirty-two leading zeros.
pub open spec fn difference_fits(previous_leading: u8, previous_trailing: u8, xor: u64) -> bool {
    ||| xor == 0
    ||| leading_zeros(xor) == previous_leading && trailing_zeros(xor) == previous_trailing
    ||| !reuses_window(previous_leading, previous_trailing, xor) && leading_zeros(xor) < 32
}

/// A reader of a value stream: the bits not yet read, and what the compressor remembered when
/// it wrote them.
pub struct ValueReader {
    pub bits: Seq<bool>,
    pub previous_value: u64,
    pub previous_leading: u8,
    pub previous_trailing: u8,
}

impl ValueReader {
    /// The next value, and the reader after it. An unchanged value is the value before. A
    /// changed one is the value before with the bits of a window changed: the window of the
    /// last difference, or the one that the code names by its leading zeros and its width,
    /// where a width of 0 stands for 64. There is none where the bits end within the code or
    /// the window does not fit a word.
    pub open spec fn read(self) -> Option<(u64, ValueReader)> {
        let b = self.bits;
        if b.len() >= 1 && !b[0] {
            Some((self.previous_value, ValueReader { bits: b.skip(1), ..self }))
        } else if b.len() >= 2 && b[0] && !b[1] {
            let width = 64 - self.previous_leading - self.previous_trailing;
            if width >= 1 && b.len() >= 2 + width {
                let xor = word_of_bits(b.subrange(2, 2 + width)) << (self.previous_trailing as u64);
                let value = self.previous_value ^ xor;
                Some((value, ValueReader { bits: b.skip(2 + width), previous_value: value, ..self }))
            } else {
                None
            }
        } else if b.len() >= 13 && b[0] && b[1] {
            let leading = word_of_bits(b.subrange(2, 7)) as int;
            let width_field = word_of_bits(b.subrange(7, 13)) as int;
            let width = if width_field == 0 {
                64
            } else {
                width_field
            };
            if leading + width <= 64 && b.len() >= 13 + width {
                let trailing = 64 - leading - width;
                let xor = word_of_bits(b.subrange(13, 13 + width)) << (trailing as u64);
                let value = self.previous_value ^ xor;
                Some(
                    (
                        value,
                        ValueReader {
                            bits: b.skip(13 + width),
                            previous_value: value,
                            previous_leading: leading as u8,
                            previous_trailing: trailing as u8,
                        },
                    ),
                )
            } else {
                None
            }
        } else {
            None
        }
    }

    /// The next `n` values, and the reader after them.
    pub open spec fn read_n(self, n: nat) -> Option<(Seq<u64>, ValueReader)>
        decreases n,
    {
        if n == 0 {
            Some((Seq::empty(), self))
        } else {
            match self.read_n((n - 1) as nat) {
                None => None,
                Some((values, reader)) => match reader.read() {
                    None => None,
                    Some((value, after)) => Some((values.push(value), after)),
                },
            }
        }
    }
}

impl ValueStream {
    /// Whether the code of each of the values `values`, written after this stream, says which
    /// value it is.
    pub open spec fn differences_fit(self, values: Seq<u64>) -> bool
        decreases values.len(),
    {
        values.len() == 0 || {
            let before = self.push_all(values.drop_last());
            &&& self.differences_fit(values.drop_last())
            &&& difference_fits(
                before.previous_leading,
                before.previous_trailing,
                before.previous_value ^ values.last(),
            )
        }
    }

    /// The bits that the values `values` add to this stream.
    pub open spec fn written(self, values: Seq<u64>) -> Seq<bool> {
        self.push_all(values).bits.skip(self.bits.len() as int)
    }
}

/// A window shifted down, cut to its width and shifted up again is the word it came from.
proof fn lemma_window_restored(x: u64, lz: u64, tz: u64, mask: u64)
    by (bit_vector)
    requires
        lz + tz <= 63,
        x >> ((64 - lz) as u64) == 0,
        x << ((64 - tz) as u64) == 0,
        mask == (if 64 - lz - tz >= 64 {
            0xffff_ffff_ffff_ffffu64
        } else {
            ((1u64 << ((64 - lz - tz) as u64)) - 1) as u64
        }),
    ensures
        ((x >> tz) & mask) << tz == x,
{
}

/// The two fields that name a window, read back.
proof fn lemma_window_named(lz: u64, width: u64)
    by (bit_vector)
    requires
        1 <= width <= 64,
    ensures
        lz < 32 ==> lz & (((1u64 << 5) - 1) as u64) == lz,
        width < 64 ==> width & (((1u64 << 6) - 1) as u64) == width,
        width == 64 ==> width & (((1u64 << 6) - 1) as u64) == 0,
{
}

proof fn lemma_xor_undone(a: u64, b: u64)
    by (bit_vector)
    ensures
        a ^ (a ^ b) == b,
        a ^ b == 0 ==> a == b,
{
}

/// The window of a difference that is not zero, read back and put in its place, is the
/// difference.
proof fn lemma_window_read_back(xor: u64)
    requires
        xor != 0,
    ensures
        word_of_bits(meaningful_bits(xor)) << (trailing_zeros(xor) as u64) == xor,
{
    lemma_zero_runs(xor);
    axiom_u64_leading_zeros(xor);
    axiom_u64_trailing_zeros(xor);
    let lz = leading_zeros(xor) as u64;
    let tz = trailing_zeros(xor) as u64;
    lemma_word_of_low_bits(xor >> tz, meaningful_len(xor));
    lemma_window_restored(xor, lz, tz, low_mask(meaningful_len(xor)));
}

/// One value whose code says which value it is is read back from the code, whatever follows.
pub proof fn lemma_value_read_back(start: ValueStream, value: u64, tail: Seq<bool>)
    requires
        difference_fits(
            start.previous_leading,
            start.previous_trailing,
            start.previous_value ^ value,
        ),
    ensures
        (ValueReader {
            bits: value_code(
                start.previous_leading,
                start.previous_trailing,
                start.previous_value ^ value,
            ) + tail,
            previous_value: start.previous_value,
            previous_leading: start.previous_leading,
            previous_trailing: start.previous_trailing,
        }).read() == Some(
            (
                value,
                ValueReader {
                    bits: tail,
                    previous_value: value,
                    previous_leading: start.push(value).previous_leading,
                    previous_trailing: start.push(value).previous_trailing,
                },
            ),
        ),
{
    let xor = start.previous_value ^ value;
    let code = value_code(start.previous_leading, start.previous_trailing, xor);
    let b = code + tail;
    lemma_xor_undone(start.previous_value, value);
    if xor == 0 {
        assert(b.skip(1) =~= tail);
    } else {
        lemma_zero_runs(xor);
        lemma_window_read_back(xor);
        let width = meaningful_len(xor) as int;
        if reuses_window(start.previous_leading, start.previous_trailing, xor) {
            assert(b.subrange(2, 2 + width) =~= meaningful_bits(xor));
            assert(b.skip(2 + width) =~= tail);
            } else {
            let lz = leading_zeros(xor) as u64;
            lemma_window_named(lz, width as u64);
            lemma_word_of_low_bits(lz, 5);
            lemma_word_of_low_bits(width as u64, 6);
            assert(b.subrange(2, 7) =~= bits_msb_first(lz, 5));
            assert(b.subrange(7, 13) =~= bits_msb_first(width as u64, 6));
            assert(b.subrange(13, 13 + width) =~= meaningful_bits(xor));
            assert(b.skip(13 + width) =~= tail);
            }
    }
}

/// Pushing values only adds bits.
pub proof fn lemma_values_extend(start: ValueStream, values: Seq<u64>)
    ensures
        start.bits.is_prefix_of(start.push_all(values).bits),
        start.push_all(values).bits == start.bits + start.written(values),
    decreases values.len(),
{
    if values.len() > 0 {
        lemma_values_extend(start, values.drop_last());
    }
    assert(start.push_all(values).bits =~= start.bits + start.written(values));
}

/// Values whose codes each say which value it is are read back from the bits that they added
/// to a stream, by a reader that starts where the compressor started, whatever follows those
/// bits.
pub proof fn lemma_values_read_back(start: ValueStream, values: Seq<u64>, tail: Seq<bool>)
    requires
        start.differences_fit(values),
    ensures
        (ValueReader {
            bits: start.written(values) + tail,
            previous_value: start.previous_value,
            previous_leading: start.previous_leading,
            previous_trailing: start.previous_trailing,
        }).read_n(values.len()) == Some(
            (
                values,
                ValueReader {
                    bits: tail,
                    previous_value: start.push_all(values).previous_value,
                    previous_leading: start.push_all(values).previous_leading,
                    previous_trailing: start.push_all(values).previous_trailing,
                },
            ),
        ),
    decreases values.len(),
{
    if values.len() == 0 {
        assert(start.written(values) + tail =~= tail);
    } else {
        let init = values.drop_last();
        let before = start.push_all(init);
        let code = value_code(
            before.previous_leading,
            before.previous_trailing,
            before.previous_value ^ values.last(),
        );
        lemma_values_extend(start, init);
        lemma_values_extend(start, values);
        assert(start.written(values) + tail =~= start.written(init) + (code + tail));
        lemma_values_read_back(start, init, code + tail);
        lemma_value_read_back(before, values.last(), tail);
        assert(init.push(values.last()) =~= values);
    }
}

/// The timestamps of a sequence of samples.
pub open spec fn timestamps_of(samples: Seq<(u64, u64)>) -> Seq<u64> {
    samples.map_values(|sample: (u64, u64)| sample.0)
}

/// The values of a sequence of samples.
pub open spec fn values_of(samples: Seq<(u64, u64)>) -> Seq<u64> {
    samples.map_values(|sample: (u64, u64)| sample.1)
}

/// The two streams of a series take its samples apart: one the timestamps, one the values.
pub proof fn lemma_series_streams(start: SeriesView, samples: Seq<(u64, u64)>)
    ensures
        start.push_all(samples).timestamps == start.timestamps.push_all(timestamps_of(samples)),
        start.push_all(samples).values == start.values.push_all(values_of(samples)),
        start.push_all(samples).key == start.key,
    decreases samples.len(),
{
    if samples.len() > 0 {
        let init = samples.drop_last();
        lemma_series_streams(start, init);
        assert(timestamps_of(samples).drop_last() =~= timestamps_of(init));
        assert(values_of(samples).drop_last() =~= values_of(init));
    }
}

/// A series gives its samples back. Of a new series that was fed `samples` and then finished,
/// a reader that knows the first sample and the number of the others reads the timestamps out
/// of the one stream and the values out of the other, provided that each change of gaps fits
/// the widest field and the code of each value says which value it is.
pub proof fn lemma_series_read_back(
    key: Seq<char>,
    first_timestamp: u64,
    first_value: u64,
    samples: Seq<(u64, u64)>,
)
    requires
        SeriesView::start(key, first_timestamp, first_value).timestamps.changes_fit(
            timestamps_of(samples),
        ),
        SeriesView::start(key, first_timestamp, first_value).values.differences_fit(
            values_of(samples),
        ),
    ensures
        ({
            let finished = SeriesView::start(key, first_timestamp, first_value).push_all(
                samples,
            ).padded();
            let timestamps = (TimestampReader {
                bits: finished.timestamps.bits,
                last_timestamp: first_timestamp,
                last_delta: 0,
            }).read_n(samples.len());
            let values = (ValueReader {
                bits: finished.values.bits,
                previous_value: first_value,
                previous_leading: 0,
                previous_trailing: 0,
            }).read_n(samples.len());
            &&& timestamps matches Some(read) && read.0 == timestamps_of(samples)
            &&& values matches Some(read) && read.0 == values_of(samples)
        }),
{
    let start = SeriesView::start(key, first_timestamp, first_value);
    let end = start.push_all(samples);
    let ts = timestamps_of(samples);
    let vs = values_of(samples);
    lemma_series_streams(start, samples);
    lemma_timestamps_extend(start.timestamps, ts);
    lemma_values_extend(start.values, vs);
    let t_tail = zero_bits(padding_len(end.timestamps.bits.len()));
    let v_tail = zero_bits(padding_len(end.values.bits.len()));
    lemma_timestamps_read_back(start.timestamps, ts, t_tail);
    lemma_values_read_back(start.values, vs, v_tail);
    assert(end.padded().timestamps.bits =~= start.timestamps.written(ts) + t_tail);
    assert(end.padded().values.bits =~= start.values.written(vs) + v_tail);
}

} // verus!
