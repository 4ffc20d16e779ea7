//! The universal integer code of the bitstream: Fibonacci (Zeckendorf) coding.
use vstd::prelude::*;

verus! {

/// The offset Fibonacci sequence 1, 2, 3, 5, 8, 13, ...
pub open spec fn fib(i: nat) -> nat
    decreases i,
{
    if i == 0 {
        1
    } else if i == 1 {
        2
    } else {
        fib((i - 1) as nat) + fib((i - 2) as nat)
    }
}

/// Greedy Zeckendorf digits of `v` over the terms `fib(0) .. fib(n - 1)`,
/// least significant term first.
pub open spec fn zeckendorf(v: nat, n: nat) -> Seq<bool>
    decreases n,
{
    if n == 0 {
        seq![]
    } else if v >= fib((n - 1) as nat) {
        zeckendorf((v - fib((n - 1) as nat)) as nat, (n - 1) as nat).push(true)
    } else {
        zeckendorf(v, (n - 1) as nat).push(false)
    }
}

/// `n` is the number of terms of the sequence that do not exceed `v`.
pub open spec fn is_fib_width(v: nat, n: nat) -> bool {
    n >= 1 && fib((n - 1) as nat) <= v < fib(n)
}

/// The number of terms of the sequence that do not exceed `v` (for `v >= 1`).
pub open spec fn fib_width(v: nat) -> nat {
    choose|n: nat| is_fib_width(v, n)
}

/// The code word of `v >= 1`: its Zeckendorf digits, then a terminating one.
pub open spec fn fib_code(v: nat) -> Seq<bool> {
    zeckendorf(v, fib_width(v)).push(true)
}

/// The value whose digits are `s` (least significant term first).
pub open spec fn fib_value(s: Seq<bool>) -> nat
    decreases s.len(),
{
    if s.len() == 0 {
        0
    } else {
        fib_value(s.drop_last()) + if s.last() {
            fib((s.len() - 1) as nat)
        } else {
            0
        }
    }
}

/// Reads a code word from position `i` of `s`, with `acc` the value of the
/// digits read so far and `prev` the last digit read: the value and the
/// position just past the two ones that end the word, or `None` when `s` ends first.
pub open spec fn fib_parse(s: Seq<bool>, i: nat, acc: nat, prev: bool) -> Option<(nat, nat)>
    decreases s.len() - i,
{
    if i >= s.len() {
        None
    } else if s[i as int] && prev {
        Some((acc, i + 1))
    } else {
        fib_parse(s, i + 1, if s[i as int] { acc + fib(i) } else { acc }, s[i as int])
    }
}

/// Decodes the code word at the start of `s`: its value and its length.
pub open spec fn fib_decode(s: Seq<bool>) -> Option<(nat, nat)> {
    fib_parse(s, 0, 0, false)
}

/// No two adjacent digits are both one.
pub open spec fn no_adjacent_ones(s: Seq<bool>) -> bool {
    forall|i: int| 0 < i < s.len() ==> !(#[trigger] s[i] && s[i - 1])
}

pub proof fn lemma_fib_step(i: nat)
    ensures
        fib(i) >= 1,
        fib(i) < fib(i + 1),
        fib(i + 1) <= 2 * fib(i),
        fib(i) > i,
    decreases i,
{
    if i > 0 {
        lemma_fib_step((i - 1) as nat);
    }
}

pub proof fn lemma_fib_increasing(i: nat, j: nat)
    requires
        i < j,
    ensures
        fib(i) < fib(j),
    decreases j,
{
    lemma_fib_step((j - 1) as nat);
    if i < j - 1 {
        lemma_fib_increasing(i, (j - 1) as nat);
    }
}

/// The width of `v` is the one `n` that `is_fib_width` admits.
pub proof fn lemma_fib_width(v: nat, n: nat)
    requires
        is_fib_width(v, n),
    ensures
        fib_width(v) == n,
{
    let m = fib_width(v);
    assert(is_fib_width(v, m));
    if m < n {
        lemma_fib_increasing(m, (n - 1) as nat);
    } else if n < m {
        lemma_fib_increasing(n, (m - 1) as nat);
    }
}

/// The greedy digits of `v < fib(n)` sum to `v`, hold no two adjacent ones,
/// and end in a one when `fib(n - 1) <= v`.
pub proof fn lemma_zeckendorf(v: nat, n: nat)
    requires
        v < fib(n),
    ensures
        zeckendorf(v, n).len() == n,
        fib_value(zeckendorf(v, n)) == v,
        no_adjacent_ones(zeckendorf(v, n)),
        n >= 1 && v >= fib((n - 1) as nat) ==> zeckendorf(v, n).last(),
        n >= 1 && v < fib((n - 1) as nat) ==> !zeckendorf(v, n).last(),
    decreases n,
{
    if n == 0 {
        assert(v == 0);
    } else {
        let m = (n - 1) as nat;
        let z = zeckendorf(v, n);
        if v >= fib(m) {
            let r = (v - fib(m)) as nat;
            if m >= 1 {
                assert(fib(n) == fib(m) + fib((m - 1) as nat));
            }
            if m == 0 {
                assert(r == 0);
            }
            assert(r < fib(m)) by {
                lemma_fib_step(m);
            }
            lemma_zeckendorf(r, m);
            assert(z.drop_last() =~= zeckendorf(r, m));
            assert(no_adjacent_ones(z)) by {
                assert forall|i: int| 0 < i < z.len() implies !(#[trigger] z[i] && z[i - 1]) by {
                    if i < z.len() - 1 {
                        assert(z[i] == zeckendorf(r, m)[i]);
                        assert(z[i - 1] == zeckendorf(r, m)[i - 1]);
                    } else if m >= 1 {
                        assert(z[i - 1] == zeckendorf(r, m).last());
                    }
                }
            }
        } else {
            lemma_fib_step(m);
            lemma_zeckendorf(v, m);
            assert(z.drop_last() =~= zeckendorf(v, m));
            assert(no_adjacent_ones(z)) by {
                assert forall|i: int| 0 < i < z.len() implies !(#[trigger] z[i] && z[i - 1]) by {
                    if i < z.len() - 1 {
                        assert(z[i] == zeckendorf(v, m)[i]);
                        assert(z[i - 1] == zeckendorf(v, m)[i - 1]);
                    }
                }
            }
        }
    }
}

proof fn lemma_parse_digits(z: Seq<bool>, rest: Seq<bool>, i: nat)
    requires
        z.len() >= 1,
        z.last(),
        no_adjacent_ones(z),
        i <= z.len(),
    ensures
        fib_parse(z.push(true) + rest, i, fib_value(z.take(i as int)), i > 0 && z[i - 1])
            == Some((fib_value(z), z.len() + 1)),
    decreases z.len() - i,
{
    let s = z.push(true) + rest;
    let acc = fib_value(z.take(i as int));
    let prev = i > 0 && z[i - 1];
    assert(s[i as int] == if i < z.len() { z[i as int] } else { true });
    if i == z.len() {
        assert(z.take(i as int) =~= z);
    } else {
        assert(!(s[i as int] && prev)) by {
            if i > 0 {
                assert(!(z[i as int] && z[i - 1]));
            }
        }
        let t = z.take((i + 1) as int);
        assert(t.drop_last() =~= z.take(i as int));
        assert(t.last() == z[i as int]);
        lemma_parse_digits(z, rest, i + 1);
    }
}

/// Integer code round trip: decoding the code word of `v >= 1`, whatever
/// follows it, gives back `v` and consumes exactly the code word.
pub proof fn lemma_int_code_round_trip(v: nat, rest: Seq<bool>)
    requires
        v >= 1,
    ensures
        fib_decode(fib_code(v) + rest) == Some((v, fib_code(v).len())),
{
    let n = fib_width(v);
    lemma_fib_step(0);
    assert(exists|m: nat| is_fib_width(v, m)) by {
        lemma_fib_width_exists(v, 0);
    }
    assert(is_fib_width(v, n));
    lemma_zeckendorf(v, n);
    let z = zeckendorf(v, n);
    assert(z.take(0) =~= Seq::<bool>::empty());
    lemma_parse_digits(z, rest, 0);
}

/// Some `n >= k + 1` is the width of `v`, for `v >= fib(k)`.
pub proof fn lemma_fib_width_exists(v: nat, k: nat)
    requires
        fib(k) <= v,
    ensures
        exists|m: nat| is_fib_width(v, m),
    decreases v - k,
{
    lemma_fib_step(k);
    lemma_fib_step(k + 1);
    if v < fib(k + 1) {
        assert(is_fib_width(v, k + 1));
    } else {
        lemma_fib_width_exists(v, k + 1);
    }
}

} // verus!
