//! Bit sequences and their packing into bytes, most significant bit first.
use vstd::prelude::*;

verus! {

/// Whether bit `i` of `v` is set; bit 0 is the least significant.
pub open spec fn bit_at(v: u64, i: u64) -> bool {
    (v >> i) & 1 == 1
}

/// The low `count` bits of `v`, most significant first.
pub open spec fn bits_msb_first(v: u64, count: nat) -> Seq<bool> {
    Seq::new(count, |j: int| bit_at(v, (count - 1 - j) as u64))
}

/// The 64-bit two's-complement pattern of a signed value.
pub open spec fn twos_complement(value: i64) -> u64 {
    if value < 0 {
        (value + 0x1_0000_0000_0000_0000) as u64
    } else {
        value as u64
    }
}

/// The number whose binary digits, most significant first, are `bits`. Of more than 64 bits
/// the last 64 count.
pub open spec fn word_of_bits(bits: Seq<bool>) -> u64
    decreases bits.len(),
{
    if bits.len() == 0 {
        0
    } else {
        (word_of_bits(bits.drop_last()) << 1) | (if bits.last() {
            1u64
        } else {
            0u64
        })
    }
}

/// The word whose `n` low bits are set and no other.
pub open spec fn low_mask(n: nat) -> u64 {
    if n >= 64 {
        0xffff_ffff_ffff_ffff
    } else {
        ((1u64 << (n as u64)) - 1) as u64
    }
}

/// The eight bits of a byte, most significant first.
pub open spec fn bits_of_byte(b: u8) -> Seq<bool> {
    bits_msb_first(b as u64, 8)
}

/// A bit as a number.
pub open spec fn bit_value(b: bool) -> u8 {
    if b {
        1
    } else {
        0
    }
}

/// The byte whose bits, most significant first, are `p[0]` to `p[7]`.
pub open spec fn byte_of_bits(p: Seq<bool>) -> u8 {
    (bit_value(p[0]) << 7) | (bit_value(p[1]) << 6) | (bit_value(p[2]) << 5) | (bit_value(p[3])
        << 4) | (bit_value(p[4]) << 3) | (bit_value(p[5]) << 2) | (bit_value(p[6]) << 1)
        | bit_value(p[7])
}

/// The bits of a byte sequence: byte by byte, each most significant bit first.
pub open spec fn bits_of_bytes(bytes: Seq<u8>) -> Seq<bool> {
    Seq::new(8 * bytes.len(), |j: int| bits_of_byte(bytes[j / 8])[j % 8])
}

/// `n` zero bits.
pub open spec fn zero_bits(n: nat) -> Seq<bool> {
    Seq::new(n, |j: int| false)
}

/// How many zero bits bring a stream of `n` bits to a whole number of bytes.
pub open spec fn padding_len(n: nat) -> nat {
    ((8 - n % 8) % 8) as nat
}

/// `bits`, followed by the zero bits that complete its last byte.
pub open spec fn pad_to_byte(bits: Seq<bool>) -> Seq<bool> {
    bits + zero_bits(padding_len(bits.len()))
}

/// The bytes of a sink once the bits that wait for their byte are sent too: they fill the high
/// end of one more byte, whose low end is zero. With no bit waiting the sink stays as it is.
pub open spec fn flushed_bytes(bytes: Seq<u8>, pending: Seq<bool>) -> Seq<u8> {
    if pending.len() == 0 {
        bytes
    } else {
        bytes.push(byte_of_bits(pad_to_byte(pending)))
    }
}

/// Packing the bits of a byte gives the byte back.
pub proof fn lemma_byte_of_its_bits(b: u8)
    ensures
        byte_of_bits(bits_of_byte(b)) == b,
{
    let p = bits_of_byte(b);
    let v = b as u64;
    assert(p =~= seq![
        bit_at(v, 7),
        bit_at(v, 6),
        bit_at(v, 5),
        bit_at(v, 4),
        bit_at(v, 3),
        bit_at(v, 2),
        bit_at(v, 1),
        bit_at(v, 0),
    ]);
    assert(byte_of_bits(
        seq![
            bit_at(b as u64, 7),
            bit_at(b as u64, 6),
            bit_at(b as u64, 5),
            bit_at(b as u64, 4),
            bit_at(b as u64, 3),
            bit_at(b as u64, 2),
            bit_at(b as u64, 1),
            bit_at(b as u64, 0),
        ],
    ) == b) by (bit_vector);
}

/// Eight bits packed into a byte are the bits of that byte.
pub proof fn lemma_bits_of_their_byte(p: Seq<bool>)
    requires
        p.len() == 8,
    ensures
        bits_of_byte(byte_of_bits(p)) == p,
{
    let b = byte_of_bits(p);
    let (x0, x1, x2, x3, x4, x5, x6, x7) = (p[0], p[1], p[2], p[3], p[4], p[5], p[6], p[7]);
    assert(b == byte_of_bits(seq![x0, x1, x2, x3, x4, x5, x6, x7]));
    assert({
        let b = byte_of_bits(seq![x0, x1, x2, x3, x4, x5, x6, x7]);
        &&& bit_at(b as u64, 7) == x0
        &&& bit_at(b as u64, 6) == x1
        &&& bit_at(b as u64, 5) == x2
        &&& bit_at(b as u64, 4) == x3
        &&& bit_at(b as u64, 3) == x4
        &&& bit_at(b as u64, 2) == x5
        &&& bit_at(b as u64, 1) == x6
        &&& bit_at(b as u64, 0) == x7
    }) by (bit_vector);
    assert(bits_of_byte(b) =~= p);
}

/// Bit by bit: what halving a word does, and what one more low bit adds to a masked word.
proof fn lemma_halved(v: u64, i: u64, n: u64)
    by (bit_vector)
    ensures
        i < 63 ==> ((((v >> 1) >> i) & 1 == 1) <==> ((v >> ((i + 1) as u64)) & 1 == 1)),
        n < 64 ==> ((((v >> 1) & (if n >= 64 {
            0xffff_ffff_ffff_ffffu64
        } else {
            ((1u64 << n) - 1) as u64
        })) << 1) | (if (v >> 0) & 1 == 1 {
            1u64
        } else {
            0u64
        })) == v & (if n + 1 >= 64 {
            0xffff_ffff_ffff_ffffu64
        } else {
            ((1u64 << ((n + 1) as u64)) - 1) as u64
        }),
        v & (((1u64 << 0) - 1) as u64) == 0,
{
}

/// Reading back the low `n` bits of a word gives the word without its higher bits.
pub proof fn lemma_word_of_low_bits(v: u64, n: nat)
    requires
        n <= 64,
    ensures
        word_of_bits(bits_msb_first(v, n)) == v & low_mask(n),
    decreases n,
{
    let bits = bits_msb_first(v, n);
    if n == 0 {
        lemma_halved(v, 0, 0);
    } else {
        let m = (n - 1) as nat;
        let init = bits_msb_first(v >> 1, m);
        assert forall|j: int| 0 <= j < m implies bits.drop_last()[j] == init[j] by {
            lemma_halved(v, (m - 1 - j) as u64, 0);
        }
        assert(bits.drop_last() =~= init);
        assert(bits.last() == bit_at(v, 0));
        lemma_word_of_low_bits(v >> 1, m);
        lemma_halved(v, 0, m as u64);
    }
}

/// The bits of a byte sequence grow by the bits of each byte appended.
pub proof fn lemma_bits_of_bytes_push(bytes: Seq<u8>, b: u8)
    ensures
        bits_of_bytes(bytes.push(b)) == bits_of_bytes(bytes) + bits_of_byte(b),
{
    let x = bits_of_bytes(bytes.push(b));
    let y = bits_of_bytes(bytes) + bits_of_byte(b);
    assert(x.len() == y.len());
    assert forall|j: int| 0 <= j < x.len() implies x[j] == y[j] by {
        if j < 8 * bytes.len() {
            assert(bytes.push(b)[j / 8] == bytes[j / 8]);
        } else {
            assert(j / 8 == bytes.len());
            assert(j % 8 == j - 8 * bytes.len());
        }
    }
    assert(x =~= y);
}

/// Two byte sequences with the same bits are the same bytes.
pub proof fn lemma_bits_of_bytes_injective(a: Seq<u8>, b: Seq<u8>)
    requires
        bits_of_bytes(a) == bits_of_bytes(b),
    ensures
        a == b,
{
    assert(bits_of_bytes(a).len() == 8 * a.len());
    assert(bits_of_bytes(b).len() == 8 * b.len());
    assert forall|i: int| 0 <= i < a.len() implies a[i] == b[i] by {
        assert forall|j: int| 0 <= j < 8 implies bits_of_byte(a[i])[j] == bits_of_byte(b[i])[j] by {
            let n = 8 * i + j;
            assert(n / 8 == i && n % 8 == j);
            assert(bits_of_bytes(a)[n] == bits_of_byte(a[i])[j]);
            assert(bits_of_bytes(b)[n] == bits_of_byte(b[i])[j]);
        }
        assert(bits_of_byte(a[i]) =~= bits_of_byte(b[i]));
        lemma_byte_of_its_bits(a[i]);
        lemma_byte_of_its_bits(b[i]);
    }
    assert(a =~= b);
}

/// Padding adds fewer than eight bits and ends on a whole byte; a stream that ends on a whole
/// byte gets none.
pub proof fn lemma_padded_len(bits: Seq<bool>)
    ensures
        pad_to_byte(bits).len() % 8 == 0,
        bits.len() <= pad_to_byte(bits).len() < bits.len() + 8,
        bits.len() % 8 == 0 ==> pad_to_byte(bits) == bits,
        pad_to_byte(pad_to_byte(bits)) == pad_to_byte(bits),
{
    assert(bits.len() % 8 == 0 ==> pad_to_byte(bits) =~= bits);
    assert(pad_to_byte(pad_to_byte(bits)) =~= pad_to_byte(bits));
}

/// Sending the waiting bits loses nothing: the sink then holds the whole stream, followed by
/// the zero bits that complete its last byte.
pub proof fn lemma_flushed_bytes(bytes: Seq<u8>, pending: Seq<bool>)
    requires
        pending.len() < 8,
    ensures
        bits_of_bytes(flushed_bytes(bytes, pending)) == pad_to_byte(
            bits_of_bytes(bytes) + pending,
        ),
{
    let stream = bits_of_bytes(bytes) + pending;
    assert(stream.len() == 8 * bytes.len() + pending.len());
    if pending.len() == 0 {
        assert(padding_len(stream.len()) == 0);
        assert(bits_of_bytes(bytes) =~= pad_to_byte(stream));
    } else {
        let last = pad_to_byte(pending);
        assert(padding_len(pending.len()) == 8 - pending.len());
        assert(padding_len(stream.len()) == 8 - pending.len());
        lemma_bits_of_their_byte(last);
        lemma_bits_of_bytes_push(bytes, byte_of_bits(last));
        assert(bits_of_bytes(bytes) + last =~= pad_to_byte(stream));
    }
}

} // verus!
