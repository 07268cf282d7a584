//! The shared bit-packing convention of the codec.
//!
//! Both sides of the codec traverse bytes least-significant-bit first. The
//! encoder collects bits and packs them into bytes with [`pack_bits`]; the
//! decoder walks bytes bit by bit with one shared cursor, [`BitIterator`], so
//! that every field crosses byte boundaries the same way on both sides.

use vstd::prelude::*;
use vstd::arithmetic::div_mod::{lemma_fundamental_div_mod, lemma_fundamental_div_mod_converse};

verus! {

/// Bit `k` of byte `b`, counting from the least significant bit.
pub open spec fn bit_at(b: u8, k: u8) -> bool {
    (b >> k) & 1 == 1
}

/// The bit sequence a byte sequence stands for: all bits of all bytes, least
/// significant first within each byte.
pub open spec fn stream_bits(bytes: Seq<u8>) -> Seq<bool> {
    Seq::new(bytes.len() * 8, |i: int| bit_at(bytes[i / 8], (i % 8) as u8))
}

/// Bit `i` of a bit sequence, reading `false` past either end.
pub open spec fn bit_in(bits: Seq<bool>, i: int) -> bool {
    0 <= i < bits.len() && bits[i]
}

/// `1` for a set bit, `0` for a clear one.
pub open spec fn bit_u8(b: bool) -> u8 {
    if b {
        1
    } else {
        0
    }
}

/// The byte holding bits `i..i + 8` of a bit sequence, padded with zeros past
/// the end.
pub open spec fn byte_of_bits(bits: Seq<bool>, i: int) -> u8 {
    bit_u8(bit_in(bits, i)) | (bit_u8(bit_in(bits, i + 1)) << 1u8) | (bit_u8(
        bit_in(bits, i + 2),
    ) << 2u8) | (bit_u8(bit_in(bits, i + 3)) << 3u8) | (bit_u8(bit_in(bits, i + 4)) << 4u8)
        | (bit_u8(bit_in(bits, i + 5)) << 5u8) | (bit_u8(bit_in(bits, i + 6)) << 6u8) | (bit_u8(
        bit_in(bits, i + 7),
    ) << 7u8)
}

/// The bytes a bit sequence packs into: as many bytes as needed, the last one
/// padded with zero bits.
pub open spec fn bytes_of_bits(bits: Seq<bool>) -> Seq<u8> {
    Seq::new((((bits.len() + 7) as int / 8) as nat), |j: int| byte_of_bits(bits, 8 * j))
}

/// Reading bit `k` out of a packed byte gives back the bit that was packed.
pub proof fn lemma_byte_of_bits(bits: Seq<bool>, i: int, k: u8)
    requires
        k < 8,
    ensures
        bit_at(byte_of_bits(bits, i), k) == bit_in(bits, i + k),
{
    let b0 = bit_u8(bit_in(bits, i));
    let b1 = bit_u8(bit_in(bits, i + 1));
    let b2 = bit_u8(bit_in(bits, i + 2));
    let b3 = bit_u8(bit_in(bits, i + 3));
    let b4 = bit_u8(bit_in(bits, i + 4));
    let b5 = bit_u8(bit_in(bits, i + 5));
    let b6 = bit_u8(bit_in(bits, i + 6));
    let b7 = bit_u8(bit_in(bits, i + 7));
    let byte = byte_of_bits(bits, i);
    assert(byte == b0 | (b1 << 1u8) | (b2 << 2u8) | (b3 << 3u8) | (b4 << 4u8) | (b5 << 5u8) | (b6
        << 6u8) | (b7 << 7u8));
    assert(((b0 | (b1 << 1u8) | (b2 << 2u8) | (b3 << 3u8) | (b4 << 4u8) | (b5 << 5u8) | (b6 << 6u8)
        | (b7 << 7u8)) >> k) & 1 == (if k == 0 {
        b0
    } else if k == 1 {
        b1
    } else if k == 2 {
        b2
    } else if k == 3 {
        b3
    } else if k == 4 {
        b4
    } else if k == 5 {
        b5
    } else if k == 6 {
        b6
    } else {
        b7
    })) by (bit_vector)
        requires
            b0 <= 1 && b1 <= 1 && b2 <= 1 && b3 <= 1 && b4 <= 1 && b5 <= 1 && b6 <= 1 && b7 <= 1
                && k < 8,
    ;
}

/// The packed form of a bit sequence spells out exactly that sequence,
/// followed by zero padding up to the next byte boundary.
pub proof fn lemma_stream_of_packed(bits: Seq<bool>)
    ensures
        stream_bits(bytes_of_bits(bits)).len() == 8 * ((bits.len() + 7) as int / 8),
        bits.len() <= stream_bits(bytes_of_bits(bits)).len() < bits.len() + 8,
        forall|i: int|
            0 <= i < bits.len() ==> #[trigger] stream_bits(bytes_of_bits(bits))[i] == bits[i],
        forall|i: int|
            bits.len() <= i < stream_bits(bytes_of_bits(bits)).len() ==> !(
            #[trigger] stream_bits(bytes_of_bits(bits))[i]),
{
    let bytes = bytes_of_bits(bits);
    let n = bits.len() as int;
    assert(bytes.len() == (n + 7) / 8);
    lemma_fundamental_div_mod_converse(n + 7, 8, (n + 7) / 8, (n + 7) % 8);
    assert(8 * ((n + 7) / 8) >= n);
    assert(8 * ((n + 7) / 8) < n + 8);
    assert forall|i: int| 0 <= i < 8 * bytes.len() implies #[trigger] stream_bits(bytes)[i] == bit_in(
        bits,
        i,
    ) by {
        let q = i / 8;
        let r = i % 8;
        lemma_fundamental_div_mod_converse(i, 8, q, r);
        assert(stream_bits(bytes)[i] == bit_at(bytes[q], r as u8));
        assert(bytes[q] == byte_of_bits(bits, 8 * q));
        lemma_byte_of_bits(bits, 8 * q, r as u8);
        assert(8 * q + r == i);
    }
}

/// Bits inside a byte-aligned window of a stream read the same through the
/// whole stream and through the window alone.
pub proof fn lemma_stream_bits_slice(bytes: Seq<u8>, a: int, n: int)
    requires
        0 <= a,
        0 <= n,
        a + n <= bytes.len(),
    ensures
        forall|t: int|
            0 <= t < 8 * n ==> #[trigger] stream_bits(bytes)[8 * a + t] == stream_bits(
                bytes.subrange(a, a + n),
            )[t],
{
    assert forall|t: int| 0 <= t < 8 * n implies #[trigger] stream_bits(bytes)[8 * a + t]
        == stream_bits(bytes.subrange(a, a + n))[t] by {
        let q = t / 8;
        let r = t % 8;
        lemma_fundamental_div_mod_converse(t, 8, q, r);
        lemma_fundamental_div_mod_converse(8 * a + t, 8, a + q, r);
        assert(stream_bits(bytes)[8 * a + t] == bit_at(bytes[a + q], r as u8));
        assert(stream_bits(bytes.subrange(a, a + n))[t] == bit_at(
            bytes.subrange(a, a + n)[q],
            r as u8,
        ));
        assert(bytes.subrange(a, a + n)[q] == bytes[a + q]);
    }
}

/// Reads whether bit `i` of the buffer is within range and set.
fn bit_in_exec(bits: &Vec<bool>, i: usize) -> (r: bool)
    ensures
        r == bit_in(bits@, i as int),
{
    i < bits.len() && bits[i]
}

/// Packs a bit buffer into bytes, least-significant-bit first, padding the
/// last byte with zeros.
pub fn pack_bits(bits: &Vec<bool>) -> (r: Vec<u8>)
    requires
        bits@.len() + 8 <= usize::MAX,
    ensures
        r@ == bytes_of_bits(bits@),
{
    let ghost target = bytes_of_bits(bits@);
    let mut r: Vec<u8> = Vec::new();
    let n_bytes = (bits.len() + 7) / 8;
    proof {
        lemma_fundamental_div_mod((bits@.len() + 7) as int, 8);
    }
    assert(8 * (n_bytes as int) <= bits@.len() + 7);
    let mut j: usize = 0;
    while j < n_bytes
        invariant
            n_bytes == (bits@.len() + 7) as int / 8,
            8 * (n_bytes as int) <= bits@.len() + 7,
            bits@.len() + 8 <= usize::MAX,
            0 <= j <= n_bytes,
            r@ =~= target.take(j as int),
            target == bytes_of_bits(bits@),
        decreases n_bytes - j,
    {
        assert(8 * (j as int) + 8 <= 8 * (n_bytes as int));
        let base = j * 8;
        assert(base == 8 * j) by {
            assert(j * 8 == 8 * j) by (nonlinear_arith);
        }
        let b0 = if bit_in_exec(bits, base) {
            1u8
        } else {
            0u8
        };
        let b1 = if bit_in_exec(bits, base + 1) {
            1u8
        } else {
            0u8
        };
        let b2 = if bit_in_exec(bits, base + 2) {
            1u8
        } else {
            0u8
        };
        let b3 = if bit_in_exec(bits, base + 3) {
            1u8
        } else {
            0u8
        };
        let b4 = if bit_in_exec(bits, base + 4) {
            1u8
        } else {
            0u8
        };
        let b5 = if bit_in_exec(bits, base + 5) {
            1u8
        } else {
            0u8
        };
        let b6 = if bit_in_exec(bits, base + 6) {
            1u8
        } else {
            0u8
        };
        let b7 = if bit_in_exec(bits, base + 7) {
            1u8
        } else {
            0u8
        };
        let byte = b0 | (b1 << 1u8) | (b2 << 2u8) | (b3 << 3u8) | (b4 << 4u8) | (b5 << 5u8) | (b6
            << 6u8) | (b7 << 7u8);
        assert(byte == byte_of_bits(bits@, 8 * (j as int)));
        r.push(byte);
        assert(r@ =~= target.take(j + 1));
        j = j + 1;
    }
    assert(r@ =~= target);
    r
}

/// A cursor over the bit stream of a byte buffer: the byte most recently
/// fetched and how many of its bits were handed out. `read` past 7 means the
/// next bit comes from a fresh byte.
pub struct BitIterator {
    pub byte: u8,
    pub read: u8,
}

impl BitIterator {
    /// The index of the next bit to hand out, given how many bytes were
    /// fetched so far.
    pub open spec fn cursor(self, pos: int) -> int {
        if self.read >= 8 {
            8 * pos
        } else {
            8 * (pos - 1) + self.read
        }
    }

    /// The cursor is consistent with the buffer and the byte index.
    pub open spec fn wf(self, bytes: Seq<u8>, pos: int) -> bool {
        &&& 0 <= pos <= bytes.len()
        &&& (self.read < 8 ==> pos >= 1 && self.byte == bytes[pos - 1])
    }

    /// A fresh cursor, positioned before any bit of whatever buffer it is
    /// first used on.
    pub fn new() -> (r: Self)
        ensures
            r.read >= 8,
            forall|bytes: Seq<u8>, pos: int| 0 <= pos <= bytes.len() ==> r.wf(bytes, pos),
            forall|pos: int| #[trigger] r.cursor(pos) == 8 * pos,
    {
        Self { byte: 0, read: u8::MAX }
    }

    /// Hands out the next bit of the stream, fetching `bytes[*pos]` and
    /// advancing `*pos` whenever a fresh byte is needed; `None` once the
    /// buffer is exhausted.
    #[verifier::rlimit(100)]
    pub fn next(&mut self, bytes: &Vec<u8>, pos: &mut usize) -> (r: Option<bool>)
        requires
            old(self).wf(bytes@, *old(pos) as int),
        ensures
            final(self).wf(bytes@, *final(pos) as int),
            final(self).read >= 1,
            *old(pos) <= *final(pos) <= bytes@.len(),
            ({
                let c = old(self).cursor(*old(pos) as int);
                if c < 8 * bytes@.len() {
                    &&& r == Some(stream_bits(bytes@)[c])
                    &&& final(self).cursor(*final(pos) as int) == c + 1
                } else {
                    &&& r == None::<bool>
                    &&& *final(pos) == *old(pos)
                    &&& *final(self) == *old(self)
                }
            }),
    {
        if self.read >= 8 {
            if *pos >= bytes.len() {
                return None;
            }
            self.byte = bytes[*pos];
            *pos = *pos + 1;
            self.read = 0;
        }
        proof {
            lemma_fundamental_div_mod_converse(
                8 * (*pos as int - 1) + self.read as int,
                8,
                *pos as int - 1,
                self.read as int,
            );
        }
        let out = (self.byte >> self.read) & 1 != 0;
        assert(out == bit_at(self.byte, self.read)) by {
            let b = self.byte;
            let k = self.read;
            assert(((b >> k) & 1 == 1) == ((b >> k) & 1 != 0)) by (bit_vector);
        }
        self.read = self.read + 1;
        Some(out)
    }
}

} // verus!
