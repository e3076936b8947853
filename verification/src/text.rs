//! Payloads as text: lists of numbers in base ten, and digests in
//! hexadecimal.

use crate::error::PsiError;
use vstd::prelude::*;

verus! {

/// The byte that separates the numbers of a payload: a space.
pub const SEPARATOR: u8 = 32;

/// The fields of a byte string: what stands between its separators. A
/// string without a separator is one field; an empty string is one empty
/// field.
pub open spec fn fields(bytes: Seq<u8>) -> Seq<Seq<u8>>
    decreases bytes.len(),
{
    if bytes.len() == 0 {
        seq![Seq::empty()]
    } else {
        let before = fields(bytes.drop_last());
        if bytes.last() == SEPARATOR {
            before.push(Seq::empty())
        } else {
            before.drop_last().push(before.last().push(bytes.last()))
        }
    }
}

/// Whether every byte of a string is an ASCII digit.
pub open spec fn all_digits(s: Seq<u8>) -> bool {
    forall|i: int| 0 <= i < s.len() ==> 48 <= #[trigger] s[i] <= 57
}

/// The number that a string of ASCII digits writes in base ten.
pub open spec fn digits_value(s: Seq<u8>) -> nat
    decreases s.len(),
{
    if s.len() == 0 {
        0
    } else {
        digits_value(s.drop_last()) * 10 + (s.last() - 48) as nat
    }
}

/// A field without its sign: a leading `+` is dropped.
pub open spec fn unsigned_part(field: Seq<u8>) -> Seq<u8> {
    if field.len() > 0 && field[0] == 43 {
        field.skip(1)
    } else {
        field
    }
}

/// The number that a field writes: after an optional `+`, one or more ASCII
/// digits whose value fits in 128 bits. Any other field writes none.
pub open spec fn number_of(field: Seq<u8>) -> Option<u128> {
    let body = unsigned_part(field);
    if body.len() > 0 && all_digits(body) && digits_value(body) <= u128::MAX {
        Some(digits_value(body) as u128)
    } else {
        None
    }
}

/// The numbers that a payload writes, separated by single spaces; none where
/// some field writes no number.
pub open spec fn numbers_of(bytes: Seq<u8>) -> Option<Seq<u128>> {
    let f = fields(bytes);
    if forall|i: int| 0 <= i < f.len() ==> (#[trigger] number_of(f[i])) is Some {
        Some(Seq::new(f.len(), |i: int| number_of(f[i])->Some_0))
    } else {
        None
    }
}

/// A byte string has at least one field.
pub proof fn lemma_fields_nonempty(bytes: Seq<u8>)
    ensures
        fields(bytes).len() >= 1,
    decreases bytes.len(),
{
    if bytes.len() > 0 {
        lemma_fields_nonempty(bytes.drop_last());
    }
}

/// A longer string of digits writes no smaller a number than its beginning.
pub proof fn lemma_digits_value_grows(s: Seq<u8>, k: int)
    requires
        all_digits(s),
        0 <= k <= s.len(),
    ensures
        digits_value(s.take(k)) <= digits_value(s),
    decreases s.len() - k,
{
    if k < s.len() {
        lemma_digits_value_grows(s, k + 1);
        assert(s.take(k + 1).drop_last() =~= s.take(k));
        assert(s.take(k + 1).last() == s[k]);
    } else {
        assert(s.take(k) =~= s);
    }
}

/// The fields of a byte string, in order.
pub fn split_fields(bytes: &Vec<u8>) -> (out: Vec<Vec<u8>>)
    ensures
        out@.len() == fields(bytes@).len(),
        forall|i: int| 0 <= i < out@.len() ==> (#[trigger] out@[i])@ == fields(bytes@)[i],
{
    let mut out: Vec<Vec<u8>> = Vec::new();
    let mut current: Vec<u8> = Vec::new();
    let mut i: usize = 0;
    while i < bytes.len()
        invariant
            i <= bytes.len(),
            fields(bytes@.take(i as int)).len() == out@.len() + 1,
            fields(bytes@.take(i as int)).last() == current@,
            forall|j: int|
                0 <= j < out@.len() ==> (#[trigger] out@[j])@ == fields(bytes@.take(i as int))[j],
        decreases bytes.len() - i,
    {
        let b: u8 = bytes[i];
        proof {
            assert(bytes@.take(i + 1).drop_last() =~= bytes@.take(i as int));
            assert(bytes@.take(i + 1).last() == b);
        }
        if b == SEPARATOR {
            out.push(current);
            current = Vec::new();
        } else {
            current.push(b);
        }
        i += 1;
    }
    proof {
        assert(bytes@.take(bytes.len() as int) =~= bytes@);
    }
    out.push(current);
    out
}

/// The number that a field writes, if it writes one.
pub fn parse_number(field: &Vec<u8>) -> (r: Option<u128>)
    ensures
        r == number_of(field@),
{
    let start: usize = if field.len() > 0 && field[0] == 43 { 1 } else { 0 };
    let ghost body = unsigned_part(field@);
    if start >= field.len() {
        return None;
    }
    let mut value: u128 = 0;
    let mut i: usize = start;
    while i < field.len()
        invariant
            start <= i <= field.len(),
            start <= 1,
            body == field@.skip(start as int),
            body == unsigned_part(field@),
            all_digits(body.take(i - start)),
            value == digits_value(body.take(i - start)),
        decreases field.len() - i,
    {
        let b: u8 = field[i];
        if b < 48 || b > 57 {
            proof {
                assert(body[i - start] == b);
            }
            return None;
        }
        proof {
            assert(body.take(i + 1 - start).drop_last() =~= body.take(i - start));
            assert(body.take(i + 1 - start).last() == b);
            assert(all_digits(body.take(i + 1 - start))) by {
                assert forall|j: int| 0 <= j < i + 1 - start implies 48 <= #[trigger] body.take(
                    i + 1 - start,
                )[j] <= 57 by {
                    if j < i - start {
                        assert(body.take(i - start)[j] == body[j]);
                    }
                }
            }
            if all_digits(body) {
                lemma_digits_value_grows(body, i + 1 - start);
            } else {
            }
        }
        let scaled: u128 = match value.checked_mul(10) {
            Some(s) => s,
            None => {
                return None;
            },
        };
        value = match scaled.checked_add((b - 48) as u128) {
            Some(v) => v,
            None => {
                return None;
            },
        };
        i += 1;
    }
    proof {
        assert(body.take(field.len() - start) =~= body);
    }
    Some(value)
}

/// The numbers that a payload writes, separated by single spaces. A field
/// is a number in base ten, with an optional `+` before it; a payload with
/// an empty field, a byte that is no digit, or a number too large for 128
/// bits is malformed.
pub fn parse_numbers(bytes: &Vec<u8>) -> (res: Result<Vec<u128>, PsiError>)
    ensures
        match res {
            Ok(v) => numbers_of(bytes@) == Some(v@),
            Err(e) => e == PsiError::MalformedPayload && numbers_of(bytes@) is None,
        },
{
    let parts = split_fields(bytes);
    let ghost f = fields(bytes@);
    let mut out: Vec<u128> = Vec::new();
    let mut i: usize = 0;
    while i < parts.len()
        invariant
            i <= parts.len(),
            f == fields(bytes@),
            parts@.len() == f.len(),
            forall|j: int| 0 <= j < parts@.len() ==> (#[trigger] parts@[j])@ == f[j],
            out@.len() == i,
            forall|j: int| 0 <= j < i ==> (#[trigger] number_of(f[j])) is Some,
            forall|j: int| 0 <= j < i ==> #[trigger] out@[j] == number_of(f[j])->Some_0,
        decreases parts.len() - i,
    {
        match parse_number(&parts[i]) {
            Some(v) => {
                out.push(v);
            },
            None => {
                proof {
                    assert(parts@[i as int]@ == f[i as int]);
                    assert(number_of(f[i as int]) is None);
                }
                return Err(PsiError::MalformedPayload);
            },
        }
        i += 1;
    }
    proof {
        assert(out@ =~= Seq::new(f.len(), |i: int| number_of(f[i])->Some_0));
    }
    Ok(out)
}

/// The digits of `n` in base ten, as ASCII, without leading zeros.
pub open spec fn decimal_of(n: nat) -> Seq<u8>
    decreases n,
{
    if n < 10 {
        seq![(48 + n) as u8]
    } else {
        decimal_of(n / 10).push((48 + n % 10) as u8)
    }
}

/// The numbers in base ten, with one separator between neighbours.
pub open spec fn joined(numbers: Seq<u128>) -> Seq<u8>
    decreases numbers.len(),
{
    if numbers.len() == 0 {
        Seq::empty()
    } else if numbers.len() == 1 {
        decimal_of(numbers[0] as nat)
    } else {
        joined(numbers.drop_last()).push(SEPARATOR) + decimal_of(numbers.last() as nat)
    }
}

/// The character of a digit below sixteen, in lower case; `f` for any
/// other number.
pub open spec fn hex_digit(n: u8) -> char {
    if n == 0 {
        '0'
    } else if n == 1 {
        '1'
    } else if n == 2 {
        '2'
    } else if n == 3 {
        '3'
    } else if n == 4 {
        '4'
    } else if n == 5 {
        '5'
    } else if n == 6 {
        '6'
    } else if n == 7 {
        '7'
    } else if n == 8 {
        '8'
    } else if n == 9 {
        '9'
    } else if n == 10 {
        'a'
    } else if n == 11 {
        'b'
    } else if n == 12 {
        'c'
    } else if n == 13 {
        'd'
    } else if n == 14 {
        'e'
    } else {
        'f'
    }
}

/// Two lower-case hexadecimal digits for each byte, in order.
pub open spec fn hex_of(bytes: Seq<u8>) -> Seq<char>
    decreases bytes.len(),
{
    if bytes.len() == 0 {
        Seq::empty()
    } else {
        hex_of(bytes.drop_last()).push(hex_digit(bytes.last() / 16)).push(
            hex_digit(bytes.last() % 16),
        )
    }
}

/// The characters of `n` in base ten.
pub open spec fn decimal_chars(n: nat) -> Seq<char> {
    Seq::new(decimal_of(n).len(), |i: int| hex_digit((decimal_of(n)[i] - 48) as u8))
}

/// A sequence read backwards.
pub open spec fn backwards(s: Seq<u8>) -> Seq<u8> {
    Seq::new(s.len(), |i: int| s[s.len() - 1 - i])
}

/// The digits of `n` in base ten, as ASCII, without leading zeros.
pub fn decimal(n: u128) -> (out: Vec<u8>)
    ensures
        out@ == decimal_of(n as nat),
{
    let mut low: Vec<u8> = Vec::new();
    let mut x: u128 = n;
    while x >= 10
        invariant
            decimal_of(n as nat) == decimal_of(x as nat) + backwards(low@),
        decreases x,
    {
        let d: u8 = (48 + x % 10) as u8;
        proof {
            let old_low = low@;
            assert(decimal_of((x / 10) as nat) + backwards(old_low.push(d)) =~= decimal_of(
                (x / 10) as nat,
            ).push(d) + backwards(old_low));
        }
        low.push(d);
        x = x / 10;
    }
    let mut out: Vec<u8> = Vec::new();
    out.push((48 + x) as u8);
    let mut k: usize = low.len();
    while k > 0
        invariant
            k <= low.len(),
            out@ == seq![(48 + x) as u8] + backwards(low@).take(low.len() - k),
        decreases k,
    {
        k -= 1;
        out.push(low[k]);
        proof {
            assert(out@ =~= seq![(48 + x) as u8] + backwards(low@).take(low.len() - k));
        }
    }
    proof {
        assert(backwards(low@).take(low.len() as int) =~= backwards(low@));
    }
    out
}

/// The numbers in base ten, with one separator between neighbours.
pub fn join_numbers(numbers: &Vec<u128>) -> (out: Vec<u8>)
    ensures
        out@ == joined(numbers@),
{
    let mut out: Vec<u8> = Vec::new();
    let mut i: usize = 0;
    while i < numbers.len()
        invariant
            i <= numbers.len(),
            out@ == joined(numbers@.take(i as int)),
        decreases numbers.len() - i,
    {
        proof {
            assert(numbers@.take(i + 1).drop_last() =~= numbers@.take(i as int));
        }
        if i > 0 {
            out.push(SEPARATOR);
        }
        let mut digits = decimal(numbers[i]);
        out.append(&mut digits);
        i += 1;
    }
    proof {
        assert(numbers@.take(numbers.len() as int) =~= numbers@);
    }
    out
}

/// The one-character string of a digit below sixteen.
fn digit_str(n: u8) -> (s: &'static str)
    ensures
        s@ == seq![hex_digit(n)],
{
    if n == 0 {
        proof {
            reveal_strlit("0");
        }
        "0"
    } else if n == 1 {
        proof {
            reveal_strlit("1");
        }
        "1"
    } else if n == 2 {
        proof {
            reveal_strlit("2");
        }
        "2"
    } else if n == 3 {
        proof {
            reveal_strlit("3");
        }
        "3"
    } else if n == 4 {
        proof {
            reveal_strlit("4");
        }
        "4"
    } else if n == 5 {
        proof {
            reveal_strlit("5");
        }
        "5"
    } else if n == 6 {
        proof {
            reveal_strlit("6");
        }
        "6"
    } else if n == 7 {
        proof {
            reveal_strlit("7");
        }
        "7"
    } else if n == 8 {
        proof {
            reveal_strlit("8");
        }
        "8"
    } else if n == 9 {
        proof {
            reveal_strlit("9");
        }
        "9"
    } else if n == 10 {
        proof {
            reveal_strlit("a");
        }
        "a"
    } else if n == 11 {
        proof {
            reveal_strlit("b");
        }
        "b"
    } else if n == 12 {
        proof {
            reveal_strlit("c");
        }
        "c"
    } else if n == 13 {
        proof {
            reveal_strlit("d");
        }
        "d"
    } else if n == 14 {
        proof {
            reveal_strlit("e");
        }
        "e"
    } else {
        proof {
            reveal_strlit("f");
        }
        "f"
    }
}

/// Two lower-case hexadecimal digits for each byte, in order.
pub fn hex(bytes: &Vec<u8>) -> (out: String)
    ensures
        out@ == hex_of(bytes@),
{
    let mut out = String::new();
    let mut i: usize = 0;
    while i < bytes.len()
        invariant
            i <= bytes.len(),
            out@ == hex_of(bytes@.take(i as int)),
        decreases bytes.len() - i,
    {
        let b: u8 = bytes[i];
        proof {
            assert(bytes@.take(i + 1).drop_last() =~= bytes@.take(i as int));
        }
        out.append(digit_str(b / 16));
        out.append(digit_str(b % 16));
        proof {
            assert(out@ =~= hex_of(bytes@.take(i + 1)));
        }
        i += 1;
    }
    proof {
        assert(bytes@.take(bytes.len() as int) =~= bytes@);
    }
    out
}

/// Every byte of the decimal digits of a number is an ASCII digit.
pub proof fn lemma_decimal_digits(n: nat)
    ensures
        decimal_of(n).len() >= 1,
        all_digits(decimal_of(n)),
    decreases n,
{
    if n >= 10 {
        lemma_decimal_digits(n / 10);
    }
}

/// Appends the characters of `n` in base ten to `out`.
pub fn append_decimal(out: &mut String, n: u128)
    ensures
        final(out)@ == old(out)@ + decimal_chars(n as nat),
{
    let digits = decimal(n);
    let ghost before = out@;
    let mut i: usize = 0;
    proof {
        lemma_decimal_digits(n as nat);
    }
    while i < digits.len()
        invariant
            i <= digits.len(),
            digits@ == decimal_of(n as nat),
            all_digits(digits@),
            out@ == before + decimal_chars(n as nat).take(i as int),
        decreases digits.len() - i,
    {
        let d: u8 = digits[i];
        out.append(digit_str(d - 48));
        proof {
            assert(out@ =~= before + decimal_chars(n as nat).take(i + 1));
        }
        i += 1;
    }
    proof {
        assert(decimal_chars(n as nat).take(digits.len() as int) =~= decimal_chars(n as nat));
    }
}

/// The decimal digits of a number write that number.
pub proof fn lemma_digits_value_of_decimal(n: nat)
    ensures
        digits_value(decimal_of(n)) == n,
    decreases n,
{
    let s = decimal_of(n);
    if n < 10 {
        assert(s.drop_last() =~= Seq::<u8>::empty());
        assert(digits_value(s.drop_last()) == 0);
        assert(s.last() == 48 + n);
    } else {
        lemma_digits_value_of_decimal(n / 10);
        assert(s.drop_last() =~= decimal_of(n / 10));
        assert(s.last() == 48 + n % 10);
    }
}

/// A number written in base ten is a field that writes that number.
pub proof fn lemma_number_of_decimal(n: u128)
    ensures
        number_of(decimal_of(n as nat)) == Some(n),
{
    lemma_decimal_digits(n as nat);
    lemma_digits_value_of_decimal(n as nat);
    assert(decimal_of(n as nat)[0] != 43);
}

/// Bytes without a separator, put behind a string, lengthen its last field.
pub proof fn lemma_fields_extend(head: Seq<u8>, tail: Seq<u8>)
    requires
        forall|i: int| 0 <= i < tail.len() ==> tail[i] != SEPARATOR,
    ensures
        fields(head).len() >= 1,
        fields(head + tail) == fields(head).drop_last().push(fields(head).last() + tail),
    decreases tail.len(),
{
    lemma_fields_nonempty(head);
    let f = fields(head);
    if tail.len() == 0 {
        assert(head + tail =~= head);
        assert(f.last() + tail =~= f.last());
        assert(f.drop_last().push(f.last()) =~= f);
    } else {
        let shorter = tail.drop_last();
        lemma_fields_extend(head, shorter);
        assert((head + tail).drop_last() =~= head + shorter);
        assert((head + tail).last() == tail.last());
        let before = fields(head + shorter);
        assert(before.drop_last() =~= f.drop_last());
        assert((f.last() + shorter).push(tail.last()) =~= f.last() + tail);
    }
}

/// The fields of a joined list are its numbers in base ten.
pub proof fn lemma_fields_of_joined(numbers: Seq<u128>)
    requires
        numbers.len() >= 1,
    ensures
        fields(joined(numbers)) == Seq::new(numbers.len(), |i: int| decimal_of(numbers[i] as nat)),
    decreases numbers.len(),
{
    let last = decimal_of(numbers.last() as nat);
    let expected = Seq::new(numbers.len(), |i: int| decimal_of(numbers[i] as nat));
    lemma_decimal_digits(numbers.last() as nat);
    if numbers.len() == 1 {
        lemma_fields_extend(Seq::empty(), last);
        assert(Seq::<u8>::empty() + last =~= last);
        assert(fields(joined(numbers)) =~= expected);
    } else {
        let front = numbers.drop_last();
        lemma_fields_of_joined(front);
        let head = joined(front).push(SEPARATOR);
        assert(head.drop_last() =~= joined(front));
        lemma_fields_extend(head, last);
        assert(Seq::<u8>::empty() + last =~= last);
        assert(fields(head).drop_last() =~= fields(joined(front)));
        assert(fields(joined(numbers)) =~= expected);
    }
}

/// Parsing undoes joining: a list of at least one number, written in base
/// ten with single spaces, is read back as that list.
pub proof fn lemma_parse_undoes_join(numbers: Seq<u128>)
    requires
        numbers.len() >= 1,
    ensures
        numbers_of(joined(numbers)) == Some(numbers),
{
    lemma_fields_of_joined(numbers);
    let f = fields(joined(numbers));
    assert forall|i: int| 0 <= i < f.len() implies #[trigger] number_of(f[i]) == Some(
        numbers[i],
    ) by {
        lemma_number_of_decimal(numbers[i]);
    }
    assert(Seq::new(f.len(), |i: int| number_of(f[i])->Some_0) =~= numbers);
}

} // verus!
