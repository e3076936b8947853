//! Numbers as big-endian byte strings.

use vstd::arithmetic::div_mod::{lemma_mod_breakdown, lemma_small_mod};
use vstd::prelude::*;

verus! {

/// The digit of weight `256^j` when `v` is written in base 256.
pub open spec fn digit_of(v: nat, j: nat) -> u8
    decreases j,
{
    if j == 0 {
        (v % 256) as u8
    } else {
        digit_of(v / 256, (j - 1) as nat)
    }
}

/// The sixteen bytes of a 128-bit number, most significant first.
pub open spec fn be_bytes(v: u128) -> Seq<u8> {
    Seq::new(16, |i: int| digit_of(v as nat, (15 - i) as nat))
}

/// The number that a byte string writes in base 256, most significant byte
/// first.
pub open spec fn be_value(bytes: Seq<u8>) -> nat
    decreases bytes.len(),
{
    if bytes.len() == 0 {
        0
    } else {
        be_value(bytes.drop_last()) * 256 + bytes.last() as nat
    }
}

/// `256^k`.
pub open spec fn radix(k: nat) -> nat
    decreases k,
{
    if k == 0 {
        1
    } else {
        256 * radix((k - 1) as nat)
    }
}

/// A string of `k` bytes writes a number below `256^k`.
pub proof fn lemma_be_value_bound(bytes: Seq<u8>)
    ensures
        be_value(bytes) < radix(bytes.len()),
    decreases bytes.len(),
{
    if bytes.len() > 0 {
        lemma_be_value_bound(bytes.drop_last());
    }
}

/// `256^16` is `2^128`.
pub proof fn lemma_radix_16()
    ensures
        radix(16) == 0x1_0000_0000_0000_0000_0000_0000_0000_0000nat,
{
    reveal_with_fuel(radix, 17);
}

/// The bytes of `v`, most significant first.
pub fn to_be_bytes(v: u128) -> (out: Vec<u8>)
    ensures
        out@ == be_bytes(v),
{
    let mut out: Vec<u8> = Vec::new();
    let mut k: usize = 0;
    while k < 16
        invariant
            k <= 16,
            out@.len() == k,
        decreases 16 - k,
    {
        out.push(0u8);
        k += 1;
    }
    let mut x: u128 = v;
    let mut j: usize = 0;
    while j < 16
        invariant
            j <= 16,
            out@.len() == 16,
            forall|t: nat| digit_of(v as nat, j as nat + t) == #[trigger] digit_of(x as nat, t),
            forall|i: int| 16 - j <= i < 16 ==> out@[i] == digit_of(v as nat, (15 - i) as nat),
        decreases 16 - j,
    {
        let b: u8 = (x % 256) as u8;
        proof {
            assert(digit_of(v as nat, j as nat + 0) == digit_of(x as nat, 0));
            assert forall|t: nat|
                digit_of(v as nat, (j + 1) as nat + t) == #[trigger] digit_of(
                    (x / 256) as nat,
                    t,
                ) by {
                assert(digit_of(v as nat, j as nat + (t + 1)) == digit_of(x as nat, t + 1));
            }
        }
        out.set(15 - j, b);
        x = x / 256;
        j += 1;
    }
    proof {
        assert(out@ =~= be_bytes(v));
    }
    out
}

/// The first sixteen bytes of a string, or all of it where it has fewer.
pub open spec fn prefix16(bytes: Seq<u8>) -> Seq<u8> {
    if bytes.len() <= 16 {
        bytes
    } else {
        bytes.take(16)
    }
}

/// The number that the first sixteen bytes of `bytes` write, most
/// significant byte first.
pub fn from_be_prefix(bytes: &Vec<u8>) -> (v: u128)
    ensures
        v == be_value(prefix16(bytes@)),
{
    let n: usize = if bytes.len() <= 16 { bytes.len() } else { 16 };
    let mut acc: u128 = 0;
    let mut i: usize = 0;
    while i < n
        invariant
            i <= n <= 16,
            n <= bytes.len(),
            acc == be_value(bytes@.take(i as int)),
        decreases n - i,
    {
        proof {
            lemma_be_value_bound(bytes@.take(i as int));
            lemma_be_value_bound(bytes@.take(i + 1));
            assert(bytes@.take(i + 1).drop_last() =~= bytes@.take(i as int));
            lemma_radix_16();
            lemma_radix_monotone((i + 1) as nat, 16);
        }
        acc = acc * 256 + bytes[i] as u128;
        i += 1;
    }
    proof {
        if bytes.len() <= 16 {
            assert(bytes@.take(n as int) =~= bytes@);
        }
    }
    acc
}

/// The `k` lowest base-256 digits of `v`, most significant first, write
/// `v mod 256^k`.
pub proof fn lemma_digits_write(v: nat, k: nat)
    ensures
        be_value(Seq::new(k, |i: int| digit_of(v, (k - 1 - i) as nat))) == v % radix(k),
    decreases k,
{
    let s = Seq::new(k, |i: int| digit_of(v, (k - 1 - i) as nat));
    if k > 0 {
        let k1 = (k - 1) as nat;
        let upper = Seq::new(k1, |i: int| digit_of(v / 256, (k1 - 1 - i) as nat));
        lemma_digits_write(v / 256, k1);
        assert(s.drop_last() =~= upper);
        lemma_radix_positive(k1);
        lemma_mod_breakdown(v as int, 256, radix(k1) as int);
        assert(s.last() == digit_of(v, 0));
    }
}

/// `256^k` is positive.
pub proof fn lemma_radix_positive(k: nat)
    ensures
        radix(k) > 0,
    decreases k,
{
    if k > 0 {
        lemma_radix_positive((k - 1) as nat);
    }
}

/// The sixteen bytes of a number write that number.
pub proof fn lemma_be_bytes_round_trip(v: u128)
    ensures
        be_bytes(v).len() == 16,
        be_value(be_bytes(v)) == v,
{
    lemma_digits_write(v as nat, 16);
    lemma_radix_16();
    lemma_small_mod(v as nat, radix(16));
    assert(be_bytes(v) =~= Seq::new(16, |i: int| digit_of(v as nat, (16 - 1 - i) as nat)));
}

/// `256^k` grows with `k`.
pub proof fn lemma_radix_monotone(a: nat, b: nat)
    requires
        a <= b,
    ensures
        radix(a) <= radix(b),
    decreases b,
{
    if a < b {
        lemma_radix_monotone(a, (b - 1) as nat);
    }
}

} // verus!
