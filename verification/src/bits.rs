//! Bit-level view of byte buffers, and a cursor that writes a buffer bit by
//! bit.  The DNS header packs several fields into single bytes, so both the
//! encoder and the decoder need to address individual bits; everything after
//! the header is byte-aligned.

use vstd::prelude::*;

verus! {

/// `2^n`.
pub open spec fn pow2n(n: nat) -> nat
    decreases n,
{
    if n == 0 {
        1
    } else {
        2 * pow2n((n - 1) as nat)
    }
}

/// The bit at position `i` of a byte buffer, counting the most significant
/// bit of byte 0 as position 0.
pub open spec fn spec_bit(bytes: Seq<u8>, i: int) -> bool {
    (bytes[i / 8] >> ((7 - (i % 8)) as u8)) & 1 == 1
}

/// The unsigned value, most significant bit first, of the `n` bits starting
/// at bit position `pos`.
pub open spec fn spec_bits_num(bytes: Seq<u8>, pos: int, n: nat) -> nat
    decreases n,
{
    if n == 0 {
        0
    } else {
        2 * spec_bits_num(bytes, pos, (n - 1) as nat) + (if spec_bit(bytes, pos + n - 1) {
            1nat
        } else {
            0nat
        })
    }
}

/// Every bit of a byte buffer, most significant bit of each byte first.
pub open spec fn all_bits(bytes: Seq<u8>) -> Seq<bool> {
    Seq::new(bytes.len() * 8, |i: int| spec_bit(bytes, i))
}

/// The low `n` bits of `v` as a sequence, most significant first.
pub open spec fn num_bits(v: u16, n: nat) -> Seq<bool> {
    Seq::new(n, |i: int| (v >> ((n - 1 - i) as u16)) & 1 == 1)
}

/// The values of `2^n` for the widths the codec uses.
pub proof fn lemma_pow2n_values()
    ensures
        pow2n(0) == 1,
        pow2n(1) == 2,
        pow2n(3) == 8,
        pow2n(4) == 16,
        pow2n(8) == 256,
        pow2n(14) == 16384,
        pow2n(15) == 32768,
        pow2n(16) == 65536,
{
    reveal_with_fuel(pow2n, 18);
}

/// `2^n` does not decrease.
pub proof fn lemma_pow2n_increases(a: nat, b: nat)
    requires
        a <= b,
    ensures
        pow2n(a) <= pow2n(b),
    decreases b,
{
    if a < b {
        lemma_pow2n_increases(a, (b - 1) as nat);
    }
}

/// Reading `n` bits that hold the bit pattern of `v` yields `v` again.
pub proof fn lemma_bits_num_of_num_bits(bytes: Seq<u8>, pos: int, v: u16, n: nat)
    requires
        n <= 16,
        (v as nat) < pow2n(n),
        forall|i: int| 0 <= i < n ==> spec_bit(bytes, pos + i) == num_bits(v, n)[i],
    ensures
        spec_bits_num(bytes, pos, n) == v,
    decreases n,
{
    if n == 0 {
        assert(v == 0);
    } else {
        let half = v >> 1u16;
        assert((v >> 1u16) == v / 2 && (v & 1) == v % 2) by (bit_vector);
        assert forall|i: int| 0 <= i < n - 1 implies #[trigger] spec_bit(bytes, pos + i)
            == num_bits(half, (n - 1) as nat)[i] by {
            let s = ((n - 2 - i) as u16);
            assert(((v >> 1u16) >> s) & 1 == (v >> ((s + 1) as u16)) & 1) by (bit_vector)
                requires
                    s < 16,
            ;
            assert(num_bits(v, n)[i] == ((v >> ((n - 1 - i) as u16)) & 1 == 1));
        }
        lemma_bits_num_of_num_bits(bytes, pos, half, (n - 1) as nat);
        assert(spec_bit(bytes, pos + n - 1) == num_bits(v, n)[n - 1]);
        assert(num_bits(v, n)[n - 1] == ((v >> 0u16) & 1 == 1));
        assert((v >> 0u16) & 1 == v % 2) by (bit_vector);
    }
}

proof fn lemma_high_bit_byte(j: u8)
    by (bit_vector)
    requires
        j < 8,
    ensures
        ((128u8 >> ((7 - j) as u8)) & 1 == 1) == (j == 0),
        (0u8 >> ((7 - j) as u8)) & 1 == 0,
{
}

proof fn lemma_or_mask_bit(cur: u8, j: u8, k: u8)
    by (bit_vector)
    requires
        j < 8,
        k < 8,
    ensures
        ((cur | (1u8 << ((7 - k) as u8))) >> ((7 - j) as u8)) & 1 == (if j == k {
            1u8
        } else {
            (cur >> ((7 - j) as u8)) & 1
        }),
{
}

/// The two big-endian bytes of `v`.
pub open spec fn spec_u16_bytes(v: u16) -> Seq<u8> {
    seq![(v >> 8u16) as u8, v as u8]
}

/// The two big-endian bytes of `v` hold the value `v`.
pub proof fn lemma_u16_bytes_value(v: u16)
    by (bit_vector)
    ensures
        (((v >> 8u16) as u8) as int) * 256 + ((v as u8) as int) == v as int,
{
}

/// The bit at offset `k` of the byte at position `p`.
pub proof fn lemma_bit_of_byte(s: Seq<u8>, p: int, k: int)
    requires
        0 <= k < 8,
    ensures
        spec_bit(s, 8 * p + k) == ((s[p] >> ((7 - k) as u8)) & 1 == 1),
{
    vstd::arithmetic::div_mod::lemma_fundamental_div_mod_converse(8 * p + k, 8, p, k);
}

proof fn lemma_u16_byte_bits(v: u16, j: u8)
    by (bit_vector)
    requires
        j < 8,
    ensures
        ((((v >> 8u16) as u8) >> ((7 - j) as u8)) & 1 == 1) == (((v >> ((15 - j) as u16)) & 1)
            == 1),
        (((v as u8) >> ((7 - j) as u8)) & 1 == 1) == (((v >> ((7 - j) as u16)) & 1) == 1),
{
}

/// The bits of the two big-endian bytes of `v` are the bit pattern of `v`.
pub proof fn lemma_u16_bytes_bits(v: u16)
    ensures
        all_bits(spec_u16_bytes(v)) =~= num_bits(v, 16),
{
    assert forall|i: int| 0 <= i < 16 implies #[trigger] all_bits(spec_u16_bytes(v))[i]
        == num_bits(v, 16)[i] by {
        let p = i / 8;
        let k = i % 8;
        lemma_bit_of_byte(spec_u16_bytes(v), p, k);
        lemma_u16_byte_bits(v, k as u8);
    }
}

proof fn lemma_u8_as_u16_bits(b: u8, j: u8)
    by (bit_vector)
    requires
        j < 8,
    ensures
        ((b >> ((7 - j) as u8)) & 1 == 1) == ((((b as u16)) >> ((7 - j) as u16)) & 1 == 1),
{
}

/// The bits of one byte are the bit pattern of its value.
pub proof fn lemma_byte_bits(b: u8)
    ensures
        all_bits(seq![b]) =~= num_bits(b as u16, 8),
{
    assert forall|i: int| 0 <= i < 8 implies #[trigger] all_bits(seq![b])[i] == num_bits(
        b as u16,
        8,
    )[i] by {
        lemma_bit_of_byte(seq![b], 0, i);
        lemma_u8_as_u16_bits(b, i as u8);
    }
}

/// Concatenating byte buffers concatenates their bits.
pub proof fn lemma_all_bits_concat(a: Seq<u8>, b: Seq<u8>)
    ensures
        all_bits(a + b) =~= all_bits(a) + all_bits(b),
{
    assert forall|i: int| 0 <= i < 8 * (a.len() + b.len()) implies #[trigger] all_bits(a + b)[i]
        == (all_bits(a) + all_bits(b))[i] by {
        if i < 8 * a.len() {
            assert(i / 8 < a.len());
            assert((a + b)[i / 8] == a[i / 8]);
        } else {
            let k = i - 8 * a.len();
            vstd::arithmetic::div_mod::lemma_fundamental_div_mod_converse(
                i,
                8,
                a.len() + k / 8,
                k % 8,
            );
            assert((a + b)[i / 8] == b[k / 8]);
        }
    }
}

proof fn lemma_byte_eq_bits(x: u8, y: u8)
    by (bit_vector)
    requires
        ((x >> 7u8) & 1 == 1) == ((y >> 7u8) & 1 == 1),
        ((x >> 6u8) & 1 == 1) == ((y >> 6u8) & 1 == 1),
        ((x >> 5u8) & 1 == 1) == ((y >> 5u8) & 1 == 1),
        ((x >> 4u8) & 1 == 1) == ((y >> 4u8) & 1 == 1),
        ((x >> 3u8) & 1 == 1) == ((y >> 3u8) & 1 == 1),
        ((x >> 2u8) & 1 == 1) == ((y >> 2u8) & 1 == 1),
        ((x >> 1u8) & 1 == 1) == ((y >> 1u8) & 1 == 1),
        ((x >> 0u8) & 1 == 1) == ((y >> 0u8) & 1 == 1),
    ensures
        x == y,
{
}

/// Byte ranges agree where their bits agree.
pub proof fn lemma_bits_determine_bytes(a: Seq<u8>, b: Seq<u8>, apos: int, bpos: int, n: int)
    requires
        0 <= apos,
        0 <= bpos,
        0 <= n,
        apos + n <= a.len(),
        bpos + n <= b.len(),
        forall|i: int| 0 <= i < 8 * n ==> #[trigger] spec_bit(a, 8 * apos + i) == spec_bit(b, 8 * bpos + i),
    ensures
        a.subrange(apos, apos + n) =~= b.subrange(bpos, bpos + n),
{
    assert forall|j: int| 0 <= j < n implies #[trigger] a[apos + j] == b[bpos + j] by {
        let x = a[apos + j];
        let y = b[bpos + j];
        assert forall|s: u8| s < 8 implies ((x >> s) & 1 == 1) == ((#[trigger] ((y >> s) & 1))
            == 1) by {
            let k = 7 - (s as int);
            lemma_bit_of_byte(a, apos + j, k);
            lemma_bit_of_byte(b, bpos + j, k);
            assert(spec_bit(a, 8 * apos + (8 * j + k)) == spec_bit(b, 8 * bpos + (8 * j + k)));
            assert(8 * apos + (8 * j + k) == 8 * (apos + j) + k);
            assert((7 - k) as u8 == s);
            assert((y >> s) & 1 == 0 || (y >> s) & 1 == 1) by (bit_vector);
        }
        lemma_byte_eq_bits(x, y);
    }
    assert forall|k: int| 0 <= k < n implies #[trigger] a.subrange(apos, apos + n)[k]
        == b.subrange(bpos, bpos + n)[k] by {
        assert(a[apos + k] == b[bpos + k]);
    }
}

/// A cursor that appends bits to a byte buffer, most significant bit of each
/// byte first, so that the header's sub-byte fields can be packed exactly.
pub struct BitWriter {
    bytes: Vec<u8>,
    nbits: usize,
}

impl BitWriter {
    /// The bits written so far.
    pub closed spec fn bits(&self) -> Seq<bool> {
        Seq::new(self.nbits as nat, |i: int| spec_bit(self.bytes@, i))
    }

    /// The buffer holds exactly the bits written, padded with zero bits to a
    /// whole byte.
    pub closed spec fn wf(&self) -> bool {
        &&& self.nbits <= 8 * self.bytes@.len()
        &&& 8 * self.bytes@.len() <= self.nbits + 7
        &&& forall|i: int|
            self.nbits <= i < 8 * self.bytes@.len() ==> !spec_bit(self.bytes@, i)
    }

    pub fn new() -> (w: BitWriter)
        ensures
            w.wf(),
            w.bits() == Seq::<bool>::empty(),
    {
        let w = BitWriter { bytes: Vec::new(), nbits: 0 };
        proof {
            assert(w.bits() =~= Seq::<bool>::empty());
        }
        w
    }

    /// Append one bit.
    pub fn push_bit(&mut self, b: bool)
        requires
            old(self).wf(),
            old(self).bits().len() < usize::MAX - 8,
        ensures
            final(self).wf(),
            final(self).bits() == old(self).bits().push(b),
    {
        let ghost prev = *self;
        if self.nbits % 8 == 0 {
            let v: u8 = if b {
                128
            } else {
                0
            };
            self.bytes.push(v);
            proof {
                assert(8 * self.bytes@.len() == self.nbits + 8);
                assert forall|i: int| 0 <= i < self.nbits + 8 implies spec_bit(self.bytes@, i) == (
                if i < self.nbits {
                    spec_bit(prev.bytes@, i)
                } else {
                    i == self.nbits && b
                }) by {
                    if i < self.nbits {
                        assert(i / 8 < prev.bytes@.len());
                        assert(self.bytes@[i / 8] == prev.bytes@[i / 8]);
                    } else {
                        assert(i / 8 == prev.bytes@.len());
                        assert(self.bytes@[i / 8] == v);
                        let j = (i % 8) as u8;
                        lemma_high_bit_byte(j);
                    }
                }
            }
            self.nbits = self.nbits + 1;
            proof {
                assert(self.bits() =~= prev.bits().push(b));
            }
        } else {
            let idx = self.nbits / 8;
            assert(idx < self.bytes@.len());
            if b {
                let k: u8 = (self.nbits % 8) as u8;
                let mask: u8 = 1u8 << ((7 - k) as u8);
                let cur: u8 = self.bytes[idx];
                self.bytes[idx] = cur | mask;
                proof {
                    let nb = (cur | mask) as u8;
                    assert forall|i: int| 0 <= i < 8 * self.bytes@.len() implies spec_bit(
                        self.bytes@,
                        i,
                    ) == (if i == self.nbits {
                        true
                    } else {
                        spec_bit(prev.bytes@, i)
                    }) by {
                        if i / 8 == idx {
                            let j = (i % 8) as u8;
                            assert(i == 8 * idx + j);
                            assert(self.nbits == 8 * idx + k);
                            lemma_or_mask_bit(cur, j, k);
                            if j != k {
                                assert(spec_bit(self.bytes@, i) == spec_bit(prev.bytes@, i));
                            } else {
                                assert(!spec_bit(prev.bytes@, i));
                            }
                        } else {
                            assert(self.bytes@[i / 8] == prev.bytes@[i / 8]);
                        }
                    }
                }
            } else {
                proof {
                    assert(!spec_bit(self.bytes@, self.nbits as int));
                }
            }
            self.nbits = self.nbits + 1;
            proof {
                assert(self.bits() =~= prev.bits().push(b));
            }
        }
    }

    /// Append the low `n` bits of `v`, most significant first.
    pub fn write_bits(&mut self, v: u16, n: u16)
        requires
            old(self).wf(),
            n <= 16,
            (v as nat) < pow2n(n as nat),
            old(self).bits().len() + 16 < usize::MAX - 8,
        ensures
            final(self).wf(),
            final(self).bits() == old(self).bits() + num_bits(v, n as nat),
    {
        let ghost base = old(self).bits();
        let mut i: u16 = 0;
        while i < n
            invariant
                self.wf(),
                i <= n <= 16,
                (v as nat) < pow2n(n as nat),
                base.len() + 16 < usize::MAX - 8,
                self.bits() == base + num_bits(v, n as nat).take(i as int),
            decreases n - i,
        {
            let k: u16 = n - 1 - i;
            let bit = ((v >> k) & 1) == 1;
            proof {
                assert(num_bits(v, n as nat)[i as int] == bit);
                assert(num_bits(v, n as nat).take(i as int + 1) =~= num_bits(v, n as nat).take(
                    i as int,
                ).push(bit));
            }
            self.push_bit(bit);
            i = i + 1;
        }
        proof {
            assert(num_bits(v, n as nat).take(n as int) =~= num_bits(v, n as nat));
        }
    }

    /// Append one whole byte.
    pub fn write_byte(&mut self, b: u8)
        requires
            old(self).wf(),
            old(self).bits().len() + 16 < usize::MAX - 8,
        ensures
            final(self).wf(),
            final(self).bits() == old(self).bits() + all_bits(seq![b]),
    {
        proof {
            lemma_pow2n_values();
            lemma_byte_bits(b);
        }
        self.write_bits(b as u16, 8);
    }

    /// Append a 16-bit value as its two big-endian bytes.
    pub fn write_u16_be(&mut self, v: u16)
        requires
            old(self).wf(),
            old(self).bits().len() + 16 < usize::MAX - 8,
        ensures
            final(self).wf(),
            final(self).bits() == old(self).bits() + all_bits(spec_u16_bytes(v)),
    {
        proof {
            lemma_pow2n_values();
            lemma_u16_bytes_bits(v);
        }
        self.write_bits(v, 16);
    }

    /// The number of bits written so far.
    pub fn bit_len(&self) -> (r: usize)
        ensures
            r == self.bits().len(),
    {
        self.nbits
    }

    /// Hand back the finished buffer; the bits written must fill whole bytes.
    pub fn finish(self) -> (r: Vec<u8>)
        requires
            self.wf(),
            self.bits().len() % 8 == 0,
        ensures
            8 * r@.len() == self.bits().len(),
            all_bits(r@) == self.bits(),
    {
        proof {
            let q = (self.nbits / 8) as int;
            assert(self.nbits == 8 * q);
            assert(8 * q <= 8 * self.bytes@.len() <= 8 * q + 7);
            assert(self.bytes@.len() == q);
            assert(all_bits(self.bytes@) =~= self.bits());
        }
        self.bytes
    }
}

} // verus!
