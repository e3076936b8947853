//! Arithmetic on encrypted words, built from boolean gates: ripple-carry
//! addition, two's-complement subtraction, scaling by a known number, and
//! the masked equality test.

use crate::error::PsiError;
use crate::gates::GateScheme;
use vstd::arithmetic::div_mod::{lemma_fundamental_div_mod_converse, lemma_mod_breakdown, lemma_small_mod};
use vstd::arithmetic::power2::{lemma2_to64, lemma_pow2_pos, lemma_pow2_unfold, pow2};
use vstd::prelude::*;

pub mod laws;

verus! {

/// 1 for `true`, 0 for `false`.
pub open spec fn bit_value(b: bool) -> nat {
    if b {
        1
    } else {
        0
    }
}

/// The booleans that the bits of an encrypted word stand for.
pub open spec fn plains<S: GateScheme>(word: Seq<S::Bit>) -> Seq<bool> {
    Seq::new(word.len(), |i: int| S::plain(word[i]))
}

/// The number that a word of bits writes, least significant bit first.
pub open spec fn word_value(bits: Seq<bool>) -> nat
    decreases bits.len(),
{
    if bits.len() == 0 {
        0
    } else {
        word_value(bits.drop_last()) + bit_value(bits.last()) * pow2((bits.len() - 1) as nat)
    }
}

/// The sum bit of a full adder.
pub open spec fn adder_sum(a: bool, b: bool, c: bool) -> bool {
    (a != b) != c
}

/// The carry bit of a full adder.
pub open spec fn adder_carry(a: bool, b: bool, c: bool) -> bool {
    (a && b) || ((a != b) && c)
}

/// The carry out of the lowest `k` bits when `a` and `b` are added with
/// carry-in `c`.
pub open spec fn ripple_carry(a: Seq<bool>, b: Seq<bool>, c: bool, k: nat) -> bool
    decreases k,
{
    if k == 0 {
        c
    } else {
        adder_carry(a[k - 1], b[k - 1], ripple_carry(a, b, c, (k - 1) as nat))
    }
}

/// The sum bits when `a` and `b` are added with carry-in `c`.
pub open spec fn ripple_sum(a: Seq<bool>, b: Seq<bool>, c: bool) -> Seq<bool> {
    Seq::new(a.len(), |i: int| adder_sum(a[i], b[i], ripple_carry(a, b, c, i as nat)))
}

/// A full adder on encrypted bits: `sum = (a xor b) xor c` and
/// `carry = (a and b) or ((a xor b) and c)`.
pub fn full_adder<S: GateScheme>(
    server_key: &S::CloudKey,
    ct_a: &S::Bit,
    ct_b: &S::Bit,
    ct_c: &S::Bit,
) -> (r: (S::Bit, S::Bit))
    ensures
        S::plain(r.0) == adder_sum(S::plain(*ct_a), S::plain(*ct_b), S::plain(*ct_c)),
        S::plain(r.1) == adder_carry(S::plain(*ct_a), S::plain(*ct_b), S::plain(*ct_c)),
        bit_value(S::plain(r.0)) + 2 * bit_value(S::plain(r.1)) == bit_value(S::plain(*ct_a))
            + bit_value(S::plain(*ct_b)) + bit_value(S::plain(*ct_c)),
{
    let a_xor_b = S::xor(ct_a, ct_b, server_key);
    let a_and_b = S::and(ct_a, ct_b, server_key);
    let a_xor_b_and_c = S::and(&a_xor_b, ct_c, server_key);
    let ct_sum = S::xor(&a_xor_b, ct_c, server_key);
    let ct_carry = S::or(&a_and_b, &a_xor_b_and_c, server_key);
    (ct_sum, ct_carry)
}

/// The bitwise negation of a word.
pub open spec fn negated(bits: Seq<bool>) -> Seq<bool> {
    Seq::new(bits.len(), |i: int| !bits[i])
}

/// The eight bits of a byte, least significant first.
pub open spec fn bits_of(y: u8) -> Seq<bool> {
    Seq::new(8, |i: int| (y as nat / pow2(i as nat)) % 2 == 1)
}

/// What double-and-add leaves in the accumulator: for each bit of `x`, from
/// the lowest, the base is added where the bit is set, and then doubled.
/// Every addition also adds the carry-in `c`, and wraps at `w` bits.
pub open spec fn scaled(base: nat, acc: nat, c: nat, x: nat, w: nat) -> nat
    decreases x,
{
    if x == 0 {
        acc
    } else {
        scaled(
            (base + base + c) % pow2(w),
            if x % 2 == 1 {
                (acc + base + c) % pow2(w)
            } else {
                acc
            },
            c,
            x / 2,
            w,
        )
    }
}

/// What the masked equality test leaves, on words of `w` bits: `y` is
/// scaled from `one` onto `zero`, subtracted from `x` with the negated
/// carry-in as borrow-in, and the difference is scaled by `r` onto `zero`.
pub open spec fn masked_test(x: nat, one: nat, zero: nat, c: bool, y: nat, r: nat, w: nat) -> nat {
    let ey = scaled(one, zero, bit_value(c), y, w);
    let diff = ((x + (pow2(w) - 1 - ey) + bit_value(!c)) % (pow2(w) as int)) as nat;
    scaled(diff, zero, bit_value(c), r, w)
}

/// A word of `k` bits writes a number below `2^k`.
pub proof fn lemma_word_value_bound(bits: Seq<bool>)
    ensures
        word_value(bits) < pow2(bits.len()),
    decreases bits.len(),
{
    if bits.len() == 0 {
        lemma2_to64();
    } else {
        lemma_word_value_bound(bits.drop_last());
        lemma_pow2_unfold(bits.len());
    }
}

/// Ripple-carry addition adds: the lowest `k` sum bits and the carry out of
/// them write the sum of the lowest `k` bits of both words and the carry-in.
pub proof fn lemma_ripple_adds(a: Seq<bool>, b: Seq<bool>, c: bool, k: nat)
    requires
        a.len() == b.len(),
        k <= a.len(),
    ensures
        word_value(ripple_sum(a, b, c).take(k as int)) + pow2(k) * bit_value(
            ripple_carry(a, b, c, k),
        ) == word_value(a.take(k as int)) + word_value(b.take(k as int)) + bit_value(c),
    decreases k,
{
    let s = ripple_sum(a, b, c);
    if k == 0 {
        lemma2_to64();
        assert(word_value(s.take(0)) == 0);
        assert(word_value(a.take(0)) == 0);
        assert(word_value(b.take(0)) == 0);
    } else {
        let k1 = (k - 1) as nat;
        lemma_ripple_adds(a, b, c, k1);
        assert(s.take(k as int).drop_last() =~= s.take(k1 as int));
        assert(a.take(k as int).drop_last() =~= a.take(k1 as int));
        assert(b.take(k as int).drop_last() =~= b.take(k1 as int));
        lemma_pow2_unfold(k);
        let cin = ripple_carry(a, b, c, k1);
        let p = pow2(k1);
        let sb = bit_value(adder_sum(a[k1 as int], b[k1 as int], cin));
        let cb = bit_value(adder_carry(a[k1 as int], b[k1 as int], cin));
        let ab = bit_value(a[k1 as int]);
        let bb = bit_value(b[k1 as int]);
        assert(sb + 2 * cb == ab + bb + bit_value(cin));
        assert(sb * p + (2 * p) * cb == ab * p + bb * p + p * bit_value(cin)) by (nonlinear_arith)
            requires
                sb + 2 * cb == ab + bb + bit_value(cin),
        ;
    }
}

/// The negation of a word of `w` bits writes `2^w - 1` less what the word
/// writes.
pub proof fn lemma_negated_value(bits: Seq<bool>)
    ensures
        word_value(negated(bits)) + word_value(bits) + 1 == pow2(bits.len()),
    decreases bits.len(),
{
    if bits.len() == 0 {
        lemma2_to64();
    } else {
        lemma_negated_value(bits.drop_last());
        assert(negated(bits).drop_last() =~= negated(bits.drop_last()));
        lemma_pow2_unfold(bits.len());
        let p = pow2((bits.len() - 1) as nat);
        assert(bit_value(!bits.last()) * p + bit_value(bits.last()) * p == p) by (nonlinear_arith)
            requires
                bit_value(!bits.last()) + bit_value(bits.last()) == 1,
        ;
    }
}

/// The lowest `k` binary digits of `v` write `v mod 2^k`.
pub proof fn lemma_digits_value(v: nat, k: nat)
    ensures
        word_value(Seq::new(k, |i: int| (v / pow2(i as nat)) % 2 == 1)) == v % pow2(k),
    decreases k,
{
    let bits = Seq::new(k, |i: int| (v / pow2(i as nat)) % 2 == 1);
    if k == 0 {
        lemma2_to64();
    } else {
        let k1 = (k - 1) as nat;
        lemma_digits_value(v, k1);
        assert(bits.drop_last() =~= Seq::new(k1, |i: int| (v / pow2(i as nat)) % 2 == 1));
        lemma_pow2_unfold(k);
        lemma_pow2_pos(k1);
        lemma_mod_breakdown(v as int, pow2(k1) as int, 2);
        let p = pow2(k1);
        let d = (v / p) % 2;
        assert(bit_value(d == 1) == d);
        assert(p * 2 == 2 * p);
        assert(bit_value(d == 1) * p == p * d) by (nonlinear_arith)
            requires
                bit_value(d == 1) == d,
        ;
    }
}

/// A copy of an encrypted word.
pub fn copy_word<S: GateScheme>(word: &Vec<S::Bit>) -> (out: Vec<S::Bit>)
    ensures
        out@ == word@,
{
    let mut out: Vec<S::Bit> = Vec::new();
    let mut i: usize = 0;
    while i < word.len()
        invariant
            i <= word.len(),
            out@ == word@.take(i as int),
        decreases word.len() - i,
    {
        out.push(word[i]);
        proof {
            assert(out@ =~= word@.take(i + 1));
        }
        i += 1;
    }
    proof {
        assert(word@.take(word.len() as int) =~= word@);
    }
    out
}

/// Ripple-carry addition of two encrypted words of one width, from the least
/// significant bit, with carry-in `cin`: the sum word and the carry out.
pub fn add<S: GateScheme>(
    server_key: &S::CloudKey,
    a: &Vec<S::Bit>,
    b: &Vec<S::Bit>,
    cin: S::Bit,
) -> (res: Result<(Vec<S::Bit>, S::Bit), PsiError>)
    ensures
        match res {
            Ok(out) => {
                &&& a.len() == b.len()
                &&& plains::<S>(out.0@) == ripple_sum(
                    plains::<S>(a@),
                    plains::<S>(b@),
                    S::plain(cin),
                )
                &&& S::plain(out.1) == ripple_carry(
                    plains::<S>(a@),
                    plains::<S>(b@),
                    S::plain(cin),
                    a@.len(),
                )
                &&& word_value(plains::<S>(out.0@)) + pow2(a@.len()) * bit_value(S::plain(out.1))
                    == word_value(plains::<S>(a@)) + word_value(plains::<S>(b@)) + bit_value(
                    S::plain(cin),
                )
            },
            Err(e) => e == PsiError::WidthMismatch && a.len() != b.len(),
        },
{
    if a.len() != b.len() {
        return Err(PsiError::WidthMismatch);
    }
    let ghost pa = plains::<S>(a@);
    let ghost pb = plains::<S>(b@);
    let ghost c = S::plain(cin);
    let mut result: Vec<S::Bit> = Vec::new();
    let mut carry: S::Bit = cin;
    let mut i: usize = 0;
    while i < a.len()
        invariant
            i <= a.len(),
            a.len() == b.len(),
            pa == plains::<S>(a@),
            pb == plains::<S>(b@),
            result@.len() == i,
            S::plain(carry) == ripple_carry(pa, pb, c, i as nat),
            forall|j: int|
                0 <= j < i ==> S::plain(#[trigger] result@[j]) == adder_sum(
                    pa[j],
                    pb[j],
                    ripple_carry(pa, pb, c, j as nat),
                ),
        decreases a.len() - i,
    {
        let (sum, next) = full_adder::<S>(server_key, &a[i], &b[i], &carry);
        carry = next;
        result.push(sum);
        i += 1;
    }
    proof {
        let sums = ripple_sum(pa, pb, c);
        assert(plains::<S>(result@) =~= sums);
        lemma_ripple_adds(pa, pb, c, pa.len());
        assert(sums.take(pa.len() as int) =~= sums);
        assert(pa.take(pa.len() as int) =~= pa);
        assert(pb.take(pa.len() as int) =~= pb);
    }
    Ok((result, carry))
}

/// The sum word of `add`, without the carry out: the sum modulo `2^w`.
pub fn add2<S: GateScheme>(
    server_key: &S::CloudKey,
    a: &Vec<S::Bit>,
    b: &Vec<S::Bit>,
    cin: S::Bit,
) -> (res: Result<Vec<S::Bit>, PsiError>)
    ensures
        match res {
            Ok(sum) => {
                &&& a.len() == b.len()
                &&& sum.len() == a.len()
                &&& plains::<S>(sum@) == ripple_sum(
                    plains::<S>(a@),
                    plains::<S>(b@),
                    S::plain(cin),
                )
                &&& word_value(plains::<S>(sum@)) == (word_value(plains::<S>(a@)) + word_value(
                    plains::<S>(b@),
                ) + bit_value(S::plain(cin))) % pow2(a@.len())
            },
            Err(e) => e == PsiError::WidthMismatch && a.len() != b.len(),
        },
{
    match self::add::<S>(server_key, a, b, cin) {
        Ok(out) => {
            proof {
                let w = a@.len();
                let total = word_value(plains::<S>(a@)) + word_value(plains::<S>(b@)) + bit_value(
                    S::plain(cin),
                );
                lemma_word_value_bound(plains::<S>(out.0@));
                lemma_pow2_pos(w);
                assert(plains::<S>(out.0@).len() == w);
                assert(bit_value(S::plain(out.1)) * pow2(w) == pow2(w) * bit_value(
                    S::plain(out.1),
                )) by (nonlinear_arith);
                lemma_fundamental_div_mod_converse(
                    total as int,
                    pow2(w) as int,
                    bit_value(S::plain(out.1)) as int,
                    word_value(plains::<S>(out.0@)) as int,
                );
            }
            Ok(out.0)
        },
        Err(e) => Err(e),
    }
}

/// Subtraction by two's complement: every bit of `b` is negated, and the
/// result is added to `a` with carry-in `cin`. With `cin` an encrypted 1
/// the difference word writes `a - b` modulo `2^w`; with an encrypted 0 it
/// writes one less.
pub fn sub<S: GateScheme>(
    server_key: &S::CloudKey,
    a: &Vec<S::Bit>,
    b: &Vec<S::Bit>,
    cin: S::Bit,
) -> (res: Result<(Vec<S::Bit>, S::Bit), PsiError>)
    ensures
        match res {
            Ok(out) => {
                &&& a.len() == b.len()
                &&& plains::<S>(out.0@) == ripple_sum(
                    plains::<S>(a@),
                    negated(plains::<S>(b@)),
                    S::plain(cin),
                )
                &&& S::plain(out.1) == ripple_carry(
                    plains::<S>(a@),
                    negated(plains::<S>(b@)),
                    S::plain(cin),
                    a@.len(),
                )
                &&& word_value(plains::<S>(out.0@)) + pow2(a@.len()) * bit_value(S::plain(out.1))
                    == word_value(plains::<S>(a@)) + (pow2(a@.len()) - 1 - word_value(
                    plains::<S>(b@),
                )) + bit_value(S::plain(cin))
            },
            Err(e) => e == PsiError::WidthMismatch && a.len() != b.len(),
        },
{
    if a.len() != b.len() {
        return Err(PsiError::WidthMismatch);
    }
    let mut not_b: Vec<S::Bit> = Vec::new();
    let mut i: usize = 0;
    while i < b.len()
        invariant
            i <= b.len(),
            not_b@.len() == i,
            forall|j: int| 0 <= j < i ==> S::plain(#[trigger] not_b@[j]) == !S::plain(b@[j]),
        decreases b.len() - i,
    {
        not_b.push(S::not(&b[i]));
        i += 1;
    }
    proof {
        assert(plains::<S>(not_b@) =~= negated(plains::<S>(b@)));
        lemma_negated_value(plains::<S>(b@));
    }
    self::add::<S>(server_key, a, &not_b, cin)
}

/// Scales an encrypted word by a known number, by double-and-add: for each
/// bit of `x`, from the lowest, `base` is added to `result` where the bit is
/// set, and then doubled by adding it to itself. Every addition takes `cin`
/// as its carry-in; with an encrypted 0 the outcome writes
/// `result + x * base` modulo `2^w`.
pub fn get_enc_x<S: GateScheme>(
    base: Vec<S::Bit>,
    result: Vec<S::Bit>,
    cin: S::Bit,
    x: u8,
    server_key: &S::CloudKey,
) -> (res: Result<Vec<S::Bit>, PsiError>)
    ensures
        match res {
            Ok(out) => {
                &&& base.len() == result.len()
                &&& out.len() == base.len()
                &&& word_value(plains::<S>(out@)) == scaled(
                    word_value(plains::<S>(base@)),
                    word_value(plains::<S>(result@)),
                    bit_value(S::plain(cin)),
                    x as nat,
                    base@.len(),
                )
            },
            Err(e) => e == PsiError::WidthMismatch && base.len() != result.len(),
        },
{
    if base.len() != result.len() {
        return Err(PsiError::WidthMismatch);
    }
    let ghost goal = scaled(
        word_value(plains::<S>(base@)),
        word_value(plains::<S>(result@)),
        bit_value(S::plain(cin)),
        x as nat,
        base@.len(),
    );
    let ghost w = base@.len();
    let mut base = base;
    let mut result = result;
    let mut x: u8 = x;
    while x > 0
        invariant
            base@.len() == w,
            result@.len() == w,
            scaled(
                word_value(plains::<S>(base@)),
                word_value(plains::<S>(result@)),
                bit_value(S::plain(cin)),
                x as nat,
                w,
            ) == goal,
        decreases x,
    {
        if x % 2 == 1 {
            result = match add2::<S>(server_key, &result, &base, cin) {
                Ok(sum) => sum,
                Err(e) => {
                    return Err(e);
                },
            };
        }
        base = match add2::<S>(server_key, &base, &base, cin) {
            Ok(sum) => sum,
            Err(e) => {
                return Err(e);
            },
        };
        x = x / 2;
    }
    Ok(result)
}

/// Encrypts a byte bit by bit, least significant bit first.
pub fn uint_to_cipher<S: GateScheme>(y: u8, secret_key: &S::SecretKey) -> (out: Vec<S::Bit>)
    ensures
        out.len() == 8,
        plains::<S>(out@) == bits_of(y),
        word_value(plains::<S>(out@)) == y,
{
    let mut out: Vec<S::Bit> = Vec::new();
    let mut rest: u8 = y;
    let mut i: usize = 0;
    proof {
        lemma2_to64();
    }
    while i < 8
        invariant
            i <= 8,
            out@.len() == i,
            rest == y as nat / pow2(i as nat),
            forall|j: int|
                0 <= j < i ==> S::plain(#[trigger] out@[j]) == ((y as nat / pow2(j as nat)) % 2
                    == 1),
        decreases 8 - i,
    {
        out.push(S::encrypt(rest % 2 == 1, secret_key));
        proof {
            lemma_pow2_unfold((i + 1) as nat);
            lemma_pow2_pos(i as nat);
            vstd::arithmetic::div_mod::lemma_div_denominator(y as int, pow2(i as nat) as int, 2);
        }
        rest = rest / 2;
        i += 1;
    }
    proof {
        assert(plains::<S>(out@) =~= bits_of(y));
        lemma_digits_value(y as nat, 8);
        lemma2_to64();
        lemma_small_mod(y as nat, 256);
    }
    out
}

/// Decrypts a word of at most eight bits, least significant bit first, to
/// the byte that it writes.
pub fn cipher_to_uint<S: GateScheme>(c: &Vec<S::Bit>, secret_key: &S::SecretKey) -> (res: Result<
    u8,
    PsiError,
>)
    ensures
        match res {
            Ok(v) => c.len() <= 8 && v == word_value(plains::<S>(c@)),
            Err(e) => e == PsiError::WidthMismatch && c.len() > 8,
        },
{
    if c.len() > 8 {
        return Err(PsiError::WidthMismatch);
    }
    let ghost bits = plains::<S>(c@);
    let mut acc: u16 = 0;
    let mut weight: u16 = 1;
    let mut i: usize = 0;
    proof {
        lemma2_to64();
    }
    while i < c.len()
        invariant
            i <= c.len() <= 8,
            bits == plains::<S>(c@),
            weight == pow2(i as nat),
            acc == word_value(bits.take(i as int)),
        decreases c.len() - i,
    {
        proof {
            lemma_word_value_bound(bits.take(i as int));
            lemma_pow2_unfold((i + 1) as nat);
            assert(bits.take(i + 1).drop_last() =~= bits.take(i as int));
            lemma2_to64();
            assert(i <= 7);
            assert(pow2(i as nat) <= 128) by {
                if i < 7 {
                    vstd::arithmetic::power2::lemma_pow2_strictly_increases(i as nat, 7);
                }
            }
            assert(bit_value(bits[i as int]) * pow2(i as nat) == if bits[i as int] {
                pow2(i as nat)
            } else {
                0
            }) by (nonlinear_arith);
        }
        if S::decrypt(&c[i], secret_key) {
            acc = acc + weight;
        }
        weight = weight * 2;
        i += 1;
    }
    proof {
        assert(bits.take(c.len() as int) =~= bits);
        lemma_word_value_bound(bits);
        lemma2_to64();
        if c.len() < 8 {
            vstd::arithmetic::power2::lemma_pow2_strictly_increases(c.len() as nat, 8);
        }
    }
    Ok(acc as u8)
}

/// The responder's masked equality test on one encrypted word. The
/// responder's own byte `yi` is scaled from `cone` onto `czero`, the result
/// is subtracted from `enc_xi` with the negation of `cin` as borrow-in, and
/// the difference is scaled by `server_r` onto `czero`. With `cone` an
/// encrypted 1, `czero` an encrypted 0 and `cin` an encrypted 0 the outcome
/// writes `server_r * (xi - yi)` modulo `2^w`.
pub fn server<S: GateScheme>(
    enc_xi: &Vec<S::Bit>,
    cone: &Vec<S::Bit>,
    czero: &Vec<S::Bit>,
    cin: S::Bit,
    yi: u8,
    server_r: u8,
    server_key: &S::CloudKey,
) -> (res: Result<Vec<S::Bit>, PsiError>)
    ensures
        match res {
            Ok(out) => {
                &&& enc_xi.len() == cone.len() == czero.len() == out.len()
                &&& word_value(plains::<S>(out@)) == masked_test(
                    word_value(plains::<S>(enc_xi@)),
                    word_value(plains::<S>(cone@)),
                    word_value(plains::<S>(czero@)),
                    S::plain(cin),
                    yi as nat,
                    server_r as nat,
                    enc_xi@.len(),
                )
            },
            Err(e) => e == PsiError::WidthMismatch && (enc_xi.len() != cone.len() || enc_xi.len()
                != czero.len()),
        },
{
    if enc_xi.len() != cone.len() || enc_xi.len() != czero.len() {
        return Err(PsiError::WidthMismatch);
    }
    let ghost w = enc_xi@.len();
    let enc_yi = match get_enc_x::<S>(
        copy_word::<S>(cone),
        copy_word::<S>(czero),
        cin,
        yi,
        server_key,
    ) {
        Ok(word) => word,
        Err(e) => {
            return Err(e);
        },
    };
    let borrow = S::not(&cin);
    let test_equal = match self::sub::<S>(server_key, enc_xi, &enc_yi, borrow) {
        Ok(out) => {
            proof {
                let total = word_value(plains::<S>(enc_xi@)) + (pow2(w) - 1 - word_value(
                    plains::<S>(enc_yi@),
                )) + bit_value(S::plain(borrow));
                lemma_word_value_bound(plains::<S>(out.0@));
                lemma_word_value_bound(plains::<S>(enc_yi@));
                lemma_pow2_pos(w);
                assert(plains::<S>(out.0@).len() == w);
                assert(bit_value(S::plain(out.1)) * pow2(w) == pow2(w) * bit_value(
                    S::plain(out.1),
                )) by (nonlinear_arith);
                lemma_fundamental_div_mod_converse(
                    total,
                    pow2(w) as int,
                    bit_value(S::plain(out.1)) as int,
                    word_value(plains::<S>(out.0@)) as int,
                );
            }
            out.0
        },
        Err(e) => {
            return Err(e);
        },
    };
    get_enc_x::<S>(test_equal, copy_word::<S>(czero), cin, server_r, server_key)
}

} // verus!
