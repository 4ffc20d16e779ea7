//! Writing bits, and packing them into bytes.
use vstd::prelude::*;
use vstd::arithmetic::power2::pow2;
use vstd::bits::lemma_u32_shr_is_div;
use crate::intcode::{
    fib, zeckendorf, fib_code, is_fib_width, lemma_fib_step, lemma_fib_width,
};
use crate::bitstream::{byte_bits, bytes_bits, low_bits, lemma_bytes_bits_push};

verus! {

/// The zero bits that pad `n` bits up to whole bytes.
pub open spec fn padding(n: nat) -> Seq<bool> {
    Seq::new(((8 - n % 8) % 8) as nat, |i: int| false)
}

proof fn lemma_bit_of(v: u32, i: u32)
    requires
        i < 32,
    ensures
        (v & (1u32 << i) != 0) == ((v as nat / pow2(i as nat)) % 2 == 1),
{
    lemma_u32_shr_is_div(v, i);
    assert((v & (1u32 << i) != 0) == ((v >> i) % 2 == 1)) by (bit_vector)
        requires
            i < 32,
    ;
}

proof fn lemma_set_bit(b: u8, j: u8)
    requires
        j < 8,
    ensures
        forall|i: u8| i < 8 ==> ((#[trigger] ((b | (1u8 << j)) >> i)) & 1 == 1) == (i == j || (b >> i) & 1 == 1),
{
    assert(forall|i: u8| i < 8 ==> ((#[trigger] ((b | (1u8 << j)) >> i)) & 1 == 1) == (i == j || (b >> i) & 1 == 1)) by (bit_vector)
        requires
            j < 8,
    ;
}

/// A growable sequence of bits.
pub struct BitVec {
    data: Vec<bool>,
}

impl View for BitVec {
    type V = Seq<bool>;

    closed spec fn view(&self) -> Seq<bool> {
        self.data@
    }
}

impl BitVec {
    /// An empty sequence.
    pub fn new() -> (r: BitVec)
        ensures
            r@ == Seq::<bool>::empty(),
    {
        BitVec { data: Vec::new() }
    }

    /// Appends one bit.
    pub fn write(&mut self, v: bool)
        ensures
            final(self)@ == old(self)@.push(v),
    {
        self.data.push(v);
    }

    /// Appends the `count` lowest bits of `v`, lowest first.
    pub fn write_bits(&mut self, v: u32, count: u32)
        requires
            count <= 32,
        ensures
            final(self)@ == old(self)@ + low_bits(v as nat, count as nat),
    {
        let mut i: u32 = 0;
        while i < count
            invariant
                i <= count <= 32,
                self@ == old(self)@ + low_bits(v as nat, i as nat),
            decreases count - i,
        {
            proof {
                lemma_bit_of(v, i);
            }
            self.write(v & (1u32 << i) != 0);
            assert(low_bits(v as nat, (i + 1) as nat) =~= low_bits(v as nat, i as nat).push(
                (v as nat / pow2(i as nat)) % 2 == 1,
            ));
            i = i + 1;
        }
    }

    /// Appends the code word of `v >= 1` in the Fibonacci code.
    fn write_fibonacci(&mut self, v: u32)
        requires
            v >= 1,
        ensures
            final(self)@ == old(self)@ + fib_code(v as nat),
    {
        // n terms of the sequence do not exceed v: lo == fib(n - 1), hi == fib(n)
        let mut n: usize = 1;
        let mut lo: u64 = 1;
        let mut hi: u64 = 2;
        while hi <= v as u64
            invariant
                n >= 1,
                lo == fib((n - 1) as nat),
                hi == fib(n as nat),
                lo <= v,
                n <= lo,
            decreases v - lo,
        {
            proof {
                lemma_fib_step((n - 1) as nat);
                lemma_fib_step(n as nat);
            }
            let next = lo + hi;
            lo = hi;
            hi = next;
            n = n + 1;
        }
        assert(is_fib_width(v as nat, n as nat));
        proof {
            lemma_fib_width(v as nat, n as nat);
        }
        // digits from the highest term down; lo == fib(k - 1), hi == fib(k)
        let mut digits: Vec<bool> = vec![false; n];
        let mut rem: u64 = v as u64;
        let mut k: usize = n;
        assert(digits@.subrange(n as int, n as int) =~= Seq::<bool>::empty());
        assert(zeckendorf(v as nat, n as nat) =~= zeckendorf(v as nat, n as nat) + digits@.subrange(
            n as int,
            n as int,
        ));
        while k > 0
            invariant
                k <= n,
                digits@.len() == n,
                rem <= v,
                k >= 1 ==> lo == fib((k - 1) as nat) && hi == fib(k as nat),
                zeckendorf(v as nat, n as nat) == zeckendorf(rem as nat, k as nat) + digits@.subrange(
                    k as int,
                    n as int,
                ),
            decreases k,
        {
            let ghost before = digits@;
            let take = rem >= lo;
            if take {
                rem = rem - lo;
            }
            digits.set(k - 1, take);
            assert(digits@.subrange(k - 1, n as int) =~= seq![take] + before.subrange(
                k as int,
                n as int,
            ));
            assert(zeckendorf(v as nat, n as nat) == zeckendorf(rem as nat, (k - 1) as nat)
                + digits@.subrange(k - 1, n as int));
            if k >= 2 {
                assert(fib(k as nat) == fib((k - 1) as nat) + fib((k - 2) as nat));
                let below = hi - lo;
                hi = lo;
                lo = below;
            }
            k = k - 1;
        }
        assert(digits@.subrange(0, n as int) =~= digits@);
        assert(zeckendorf(rem as nat, 0) =~= Seq::<bool>::empty());
        self.data.append(&mut digits);
        self.data.push(true);
        assert(self@ =~= old(self)@ + fib_code(v as nat));
    }

    /// Appends `v >= 1` in the integer code of the stream.
    pub fn write_int(&mut self, v: u32)
        requires
            v >= 1,
        ensures
            final(self)@ == old(self)@ + fib_code(v as nat),
    {
        self.write_fibonacci(v);
    }

    /// The number of bits.
    pub fn len(&self) -> (r: usize)
        ensures
            r == self@.len(),
    {
        self.data.len()
    }

    /// The number of bytes that `dump` packs the bits into.
    pub fn bytes(&self) -> (r: usize)
        ensures
            r == (self@.len() + 7) / 8,
    {
        self.data.len() / 8 + if self.data.len() % 8 == 0 {
            0
        } else {
            1
        }
    }

    /// Appends all bits of `other`.
    pub fn append(&mut self, other: &BitVec)
        ensures
            final(self)@ == old(self)@ + other@,
    {
        let mut i: usize = 0;
        while i < other.data.len()
            invariant
                i <= other@.len(),
                self@ == old(self)@ + other@.subrange(0, i as int),
            decreases other@.len() - i,
        {
            assert(other@.subrange(0, (i + 1) as int) =~= other@.subrange(0, i as int).push(
                other@[i as int],
            ));
            self.data.push(other.data[i]);
            i = i + 1;
        }
        assert(other@.subrange(0, i as int) =~= other@);
    }

    /// Packs the bits into bytes, eight to a byte, the first bit of each
    /// byte in its lowest bit; the last byte is padded with zero bits.
    pub fn dump(&self) -> (r: Vec<u8>)
        ensures
            bytes_bits(r@) == self@ + padding(self@.len()),
            r@.len() == (self@.len() + 7) / 8,
    {
        let len = self.data.len();
        let nbytes = len / 8 + if len % 8 == 0 {
            0
        } else {
            1
        };
        let ghost padded = self@ + padding(self@.len());
        let mut out: Vec<u8> = Vec::new();
        let mut k: usize = 0;
        assert(padded.len() == 8 * nbytes);
        assert(bytes_bits(out@) =~= padded.subrange(0, 0));
        while k < nbytes
            invariant
                len == self@.len(),
                nbytes == (len + 7) / 8,
                padded == self@ + padding(self@.len()),
                padded.len() == 8 * nbytes,
                k <= nbytes,
                out@.len() == k,
                bytes_bits(out@) == padded.subrange(0, 8 * k),
            decreases nbytes - k,
        {
            let start = 8 * k;
            let mut byte: u8 = 0;
            let mut j: u8 = 0;
            assert(forall|i: u8| i < 8 ==> (((#[trigger] (0u8 >> i)) & 1 == 1) == false)) by (bit_vector);
            while j < 8
                invariant
                    len == self@.len(),
                    padded == self@ + padding(self@.len()),
                    start + 8 <= padded.len(),
                    start <= len,
                    j <= 8,
                    forall|i: u8| i < 8 ==> (((#[trigger] (byte >> i)) & 1 == 1) == (i < j && padded[start + i])),
                decreases 8 - j,
            {
                if (j as usize) < len - start && self.data[start + j as usize] {
                    proof {
                        lemma_set_bit(byte, j);
                    }
                    byte = byte | (1u8 << j);
                } else {
                    assert(padded[start + j] == false);
                    proof {
                        lemma_set_bit(byte, j);
                    }
                    assert(forall|i: u8| i < 8 ==> (((#[trigger] (byte >> i)) & 1 == 1) == (i < j + 1 && padded[start + i])));
                }
                j = j + 1;
            }
            proof {
                lemma_bytes_bits_push(out@, byte);
            }
            assert(byte_bits(byte) =~= padded.subrange(start as int, start + 8)) by {
                assert forall|i: int| 0 <= i < 8 implies byte_bits(byte)[i] == padded[start + i] by {
                    assert(((byte >> (i as u8)) & 1 == 1) == (padded[start + (i as u8)]));
                }
            }
            out.push(byte);
            assert(padded.subrange(0, start + 8) =~= padded.subrange(0, start as int)
                + padded.subrange(start as int, start + 8));
            k = k + 1;
        }
        assert(padded.subrange(0, 8 * k) =~= padded);
        out
    }
}

} // verus!
