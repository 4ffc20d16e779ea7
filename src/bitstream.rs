//! Reading bits, least significant first within each byte, and the integer code.
use vstd::prelude::*;
use vstd::arithmetic::power2::{pow2, lemma_pow2_unfold, lemma_pow2_pos, lemma2_to64};
use vstd::arithmetic::div_mod::lemma_mod_breakdown;
use vstd::bits::{lemma_u32_shl_is_mul, lemma_u32_pow2_no_overflow};
use crate::intcode::{fib, fib_decode, fib_parse, lemma_fib_step};

verus! {

/// The eight bits of a byte, bit `i` (value `1 << i`) at position `i`.
pub open spec fn byte_bits(b: u8) -> Seq<bool> {
    Seq::new(8, |i: int| (b >> (i as u8)) & 1 == 1)
}

/// The bits of a byte sequence, byte after byte.
pub open spec fn bytes_bits(s: Seq<u8>) -> Seq<bool>
    decreases s.len(),
{
    if s.len() == 0 {
        seq![]
    } else {
        byte_bits(s[0]) + bytes_bits(s.drop_first())
    }
}

/// The number whose binary digits are `s`, least significant first.
pub open spec fn bits_value(s: Seq<bool>) -> nat
    decreases s.len(),
{
    if s.len() == 0 {
        0
    } else {
        bits_value(s.drop_last()) + if s.last() {
            pow2((s.len() - 1) as nat)
        } else {
            0
        }
    }
}

/// The `n` lowest binary digits of `v`, least significant first.
pub open spec fn low_bits(v: nat, n: nat) -> Seq<bool> {
    Seq::new(n, |i: int| (v / pow2(i as nat)) % 2 == 1)
}

proof fn lemma_low_bits_value(v: nat, n: nat)
    ensures
        bits_value(low_bits(v, n)) == v % pow2(n),
    decreases n,
{
    if n == 0 {
        lemma2_to64();
        assert(low_bits(v, 0) =~= Seq::<bool>::empty());
    } else {
        let m = (n - 1) as nat;
        lemma_low_bits_value(v, m);
        assert(low_bits(v, n).drop_last() =~= low_bits(v, m));
        lemma_pow2_unfold(n);
        lemma_pow2_pos(m);
        lemma_mod_breakdown(v as int, pow2(m) as int, 2);
        assert(pow2(m) * 2 == pow2(n));
        assert(((v / pow2(m)) % 2 == 1) == (low_bits(v, n).last()));
        if (v / pow2(m)) % 2 != 1 {
            assert((v / pow2(m)) % 2 == 0);
        }
    }
}

/// Bit field round trip: the `n` lowest bits of `v`, as `write_bits` puts
/// them, followed by anything, read back as `read_bits` reads them, give
/// `v` modulo `2^n`.
pub proof fn lemma_bit_field_round_trip(v: nat, n: nat, rest: Seq<bool>)
    ensures
        bits_value((low_bits(v, n) + rest).take(n as int)) == v % pow2(n),
{
    assert((low_bits(v, n) + rest).take(n as int) =~= low_bits(v, n));
    lemma_low_bits_value(v, n);
}

pub proof fn lemma_bits_value_bound(s: Seq<bool>)
    ensures
        bits_value(s) < pow2(s.len()),
    decreases s.len(),
{
    if s.len() > 0 {
        lemma_bits_value_bound(s.drop_last());
        lemma_pow2_unfold(s.len());
    } else {
        lemma2_to64();
    }
}

pub proof fn lemma_bytes_bits_len(s: Seq<u8>)
    ensures
        bytes_bits(s).len() == 8 * s.len(),
    decreases s.len(),
{
    if s.len() > 0 {
        lemma_bytes_bits_len(s.drop_first());
    }
}

pub proof fn lemma_bytes_bits_push(s: Seq<u8>, b: u8)
    ensures
        bytes_bits(s.push(b)) == bytes_bits(s) + byte_bits(b),
    decreases s.len(),
{
    if s.len() == 0 {
        assert(s.push(b).drop_first() =~= s);
        assert(bytes_bits(s.push(b)) =~= bytes_bits(s) + byte_bits(b));
    } else {
        assert(s.push(b).drop_first() =~= s.drop_first().push(b));
        lemma_bytes_bits_push(s.drop_first(), b);
        assert(bytes_bits(s.push(b)) =~= bytes_bits(s) + byte_bits(b));
    }
}

proof fn lemma_test_bit(b: u8, i: u8)
    requires
        i < 8,
    ensures
        (b & (1u8 << i) != 0) == ((b >> i) & 1 == 1),
{
    assert((b & (1u8 << i) != 0) == ((b >> i) & 1 == 1)) by (bit_vector)
        requires
            i < 8,
    ;
}

proof fn lemma_add_high_bit(bits: u32, i: u32)
    requires
        i < 32,
        bits < pow2(i as nat),
    ensures
        bits | (1u32 << i) == bits + pow2(i as nat),
        (1u32 << i) == pow2(i as nat),
{
    lemma_u32_pow2_no_overflow(i as nat);
    lemma_u32_shl_is_mul(1, i);
    let p = 1u32 << i;
    assert(bits < p ==> bits | p == bits + p) by (bit_vector)
        requires
            i < 32,
            p == 1u32 << i,
    ;
}

/// What reading a code word yields whenever the value read so far, or the
/// next term that a digit could add, is past `u32::MAX`: no value, or one past it.
proof fn lemma_parse_too_large(s: Seq<bool>, i: nat, acc: nat, prev: bool)
    requires
        acc > u32::MAX || (!prev && fib(i) > u32::MAX),
    ensures
        match fib_parse(s, i, acc, prev) {
            Some((w, _)) => w > u32::MAX,
            None => true,
        },
    decreases s.len() - i,
{
    if i < s.len() && !(s[i as int] && prev) {
        lemma_fib_step(i);
        lemma_parse_too_large(s, i + 1, if s[i as int] { acc + fib(i) } else { acc }, s[i as int]);
    }
}

/// A reader of bits from a byte slice.
pub struct BitStream<'a> {
    from: &'a [u8],
    pos: usize,
    current: u8,
    current_bit: u8,
}

impl<'a> View for BitStream<'a> {
    type V = Seq<bool>;

    /// The bits not yet read.
    closed spec fn view(&self) -> Seq<bool> {
        byte_bits(self.current).subrange(self.current_bit as int, 8) + bytes_bits(
            self.from@.subrange(self.pos as int, self.from@.len() as int),
        )
    }
}

impl<'a> BitStream<'a> {
    pub closed spec fn wf(&self) -> bool {
        &&& self.current_bit <= 8
        &&& self.pos <= self.from@.len()
    }

    /// A reader positioned at the first bit of `from`.
    pub fn new(from: &'a [u8]) -> (r: BitStream<'a>)
        ensures
            r.wf(),
            r@ == bytes_bits(from@),
    {
        let r = BitStream { from, pos: 0, current: 0, current_bit: 8 };
        assert(from@.subrange(0, from@.len() as int) =~= from@);
        assert(r@ =~= bytes_bits(from@));
        r
    }

    /// Reads `count` bits into the low bits of a number, the first bit read
    /// lowest; `None` when fewer than `count` bits are left, all of them then consumed.
    pub fn read_bits(&mut self, count: u8) -> (r: Option<u32>)
        requires
            old(self).wf(),
            count <= 32,
        ensures
            final(self).wf(),
            old(self)@.len() >= count ==> r == Some(bits_value(old(self)@.take(count as int)) as u32)
                && final(self)@ == old(self)@.skip(count as int),
            old(self)@.len() < count ==> r is None && final(self)@.len() == 0,
    {
        let ghost s = self@;
        let mut bits: u32 = 0;
        let mut i: u8 = 0;
        assert(s.take(0) =~= Seq::<bool>::empty());
        assert(s.skip(0) =~= s);
        proof {
            lemma2_to64();
        }
        while i < count
            invariant
                self.wf(),
                s == old(self)@,
                i <= count <= 32,
                i <= s.len(),
                self@ == s.skip(i as int),
                bits as nat == bits_value(s.take(i as int)),
                bits < pow2(i as nat),
            decreases count - i,
        {
            let ghost before = self@;
            let next = self.read_one();
            match next {
                None => {
                    assert(before.len() == 0);
                    assert(s.len() == i);
                    assert(self@.len() == 0);
                    return None;
                },
                Some(b) => {
                    proof {
                        lemma_pow2_unfold((i + 1) as nat);
                        lemma_pow2_pos(i as nat);
                        assert(s.take(i + 1).drop_last() =~= s.take(i as int));
                        assert(s.skip(i as int)[0] == s[i as int]);
                        assert(s.skip((i + 1) as int) =~= s.skip(i as int).drop_first());
                    }
                    if b {
                        proof {
                            lemma_add_high_bit(bits, i as u32);
                        }
                        bits = bits | (1u32 << i);
                    }
                },
            }
            i = i + 1;
        }
        Some(bits)
    }

    /// Reads one bit; `None` when none is left.
    pub fn read_one(&mut self) -> (r: Option<bool>)
        requires
            old(self).wf(),
        ensures
            final(self).wf(),
            old(self)@.len() == 0 ==> r is None && final(self)@ == old(self)@,
            old(self)@.len() > 0 ==> r == Some(old(self)@[0]) && final(self)@ == old(self)@.drop_first(),
    {
        proof {
            lemma_bytes_bits_len(self.from@.subrange(self.pos as int, self.from@.len() as int));
        }
        if self.current_bit == 8 {
            if self.pos >= self.from.len() {
                return None;
            }
            let ghost rest = self.from@.subrange(self.pos as int, self.from@.len() as int);
            assert(rest.drop_first() =~= self.from@.subrange(self.pos + 1, self.from@.len() as int));
            self.current = self.from[self.pos];
            self.pos = self.pos + 1;
            self.current_bit = 0;
            assert(byte_bits(self.current).subrange(0, 8) =~= byte_bits(self.current));
        }
        let ghost before = self@;
        proof {
            lemma_test_bit(self.current, self.current_bit);
        }
        let result = self.current & (1u8 << self.current_bit) != 0;
        self.current_bit = self.current_bit + 1;
        assert(self@ =~= before.drop_first());
        Some(result)
    }

    /// Reads one code word of the integer code: its value, or `None` when the
    /// bits run out first or the value does not fit in a `u32`.
    fn read_fibonacci(&mut self) -> (r: Option<u32>)
        requires
            old(self).wf(),
        ensures
            final(self).wf(),
            match fib_decode(old(self)@) {
                Some((v, n)) => if v <= u32::MAX {
                    r == Some(v as u32) && final(self)@ == old(self)@.skip(n as int)
                } else {
                    r is None
                },
                None => r is None,
            },
    {
        let ghost s = self@;
        let ghost mut i: nat = 0;
        let mut v: u64 = 0;
        let mut a: u64 = 1;
        let mut b: u64 = 2;
        let mut prev = false;
        assert(s.skip(0) =~= s);
        loop
            invariant
                self.wf(),
                s == old(self)@,
                i <= s.len(),
                self@ == s.skip(i as int),
                a == fib(i),
                b == fib(i + 1),
                v <= u32::MAX,
                a <= 0x2_0000_0000,
                fib_decode(s) == fib_parse(s, i, v as nat, prev),
            decreases self@.len(),
        {
            proof {
                lemma_fib_step(i);
                lemma_fib_step(i + 1);
            }
            let ghost before = self@;
            let next = match self.read_one() {
                Some(x) => x,
                None => {
                    assert(before.len() == 0);
                    assert(s.len() == i);
                    assert(fib_decode(s) is None);
                    return None;
                },
            };
            assert(next == s[i as int]);
            assert(s.skip((i + 1) as int) =~= s.skip(i as int).drop_first());
            if next {
                if prev {
                    return Some(v as u32);
                }
                if v + a > u32::MAX as u64 {
                    assert(fib_parse(s, i, v as nat, prev) == fib_parse(s, i + 1, (v + a) as nat, true));
                    proof {
                        lemma_parse_too_large(s, i + 1, (v + a) as nat, true);
                    }
                    assert(match fib_decode(s) {
                    Some((w, _)) => w > u32::MAX,
                    None => true,
                });
                    return None;
                }
                v = v + a;
            } else if b > u32::MAX as u64 {
                assert(fib_parse(s, i, v as nat, prev) == fib_parse(s, i + 1, v as nat, false));
                proof {
                    lemma_parse_too_large(s, i + 1, v as nat, false);
                }
                assert(match fib_decode(s) {
                    Some((w, _)) => w > u32::MAX,
                    None => true,
                });
                return None;
            }
            let c = a + b;
            a = b;
            b = c;
            prev = next;
            proof {
                i = i + 1;
            }
        }
    }

    /// Reads one integer (at least 1) of the integer code.
    pub fn read_int(&mut self) -> (r: Option<u32>)
        requires
            old(self).wf(),
        ensures
            final(self).wf(),
            match fib_decode(old(self)@) {
                Some((v, n)) => if v <= u32::MAX {
                    r == Some(v as u32) && final(self)@ == old(self)@.skip(n as int)
                } else {
                    r is None
                },
                None => r is None,
            },
    {
        self.read_fibonacci()
    }
}

} // verus!
