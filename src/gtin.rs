//! The GTIN-13 check-digit engine.
use vstd::prelude::*;
use vstd::string::StringSliceAdditionalSpecFns;

verus! {

/// Is `c` one of the ASCII digits `'0'..='9'` (bytes 48 to 57)?
pub open spec fn is_digit(c: u8) -> bool {
    48 <= c <= 57
}

/// Numeric value of an ASCII digit.
pub open spec fn digit_value(c: u8) -> u32 {
    (c - 48) as u32
}

/// Weight of the digit at 0-based position `i`: 1 at even positions, 3 at odd ones.
pub open spec fn weight(i: int) -> int {
    if i % 2 == 0 {
        1
    } else {
        3
    }
}

/// Weighted sum of the first `n` digits of `d`.
pub open spec fn weighted_sum(d: Seq<u32>, n: int) -> int
    decreases n,
{
    if n <= 0 {
        0
    } else {
        weighted_sum(d, n - 1) + weight(n - 1) * d[n - 1]
    }
}

/// The check digit owed by the first twelve digits of `d`.
pub open spec fn check_digit(d: Seq<u32>) -> int {
    (10 - weighted_sum(d, 12) % 10) % 10
}

/// `s` with every leading `'0'` removed.
pub open spec fn strip_zeros(s: Seq<u8>) -> Seq<u8>
    decreases s.len(),
{
    if s.len() > 0 && s[0] == 48 {
        strip_zeros(s.drop_first())
    } else {
        s
    }
}

/// The digits of `t` as values, left-padded with zeros to thirteen (the last
/// thirteen where `t` is longer).
pub open spec fn padded(t: Seq<u8>) -> Seq<u32> {
    Seq::new(13, |j: int| if j < 13 - t.len() { 0u32 } else { digit_value(t[j - (13 - t.len())]) })
}

/// A candidate is a GTIN-13 code when, once its leading zeros are gone, it
/// holds between three and thirteen digits and nothing else, and the last of
/// the thirteen zero-padded digits is the check digit of the twelve before it.
pub open spec fn is_gtin13(s: Seq<u8>) -> bool {
    let t = strip_zeros(s);
    &&& 3 <= t.len() <= 13
    &&& forall|i: int| 0 <= i < t.len() ==> is_digit(#[trigger] t[i])
    &&& check_digit(padded(t)) == padded(t)[12] as int
}

/// Check digit of a GTIN-13 code from its first twelve digits: the weighted
/// sum (weights 1, 3, 1, 3, ...) taken to the next multiple of ten.
pub fn gtin_13_checksum(ean: &Vec<u32>) -> (r: u32)
    requires
        ean.len() >= 12,
        forall|i: int| 0 <= i < 12 ==> ean[i] <= 9,
    ensures
        r as int == check_digit(ean@),
        r <= 9,
{
    let mut sum: u32 = 0;
    let mut i: usize = 0;
    while i < 12
        invariant
            i <= 12,
            ean.len() >= 12,
            forall|j: int| 0 <= j < 12 ==> ean[j] <= 9,
            sum as int == weighted_sum(ean@, i as int),
            sum <= 27 * i,
        decreases 12 - i,
    {
        if i % 2 == 0 {
            sum = sum + ean[i];
        } else {
            sum = sum + 3 * ean[i];
        }
        i = i + 1;
    }
    if sum % 10 == 0 {
        0
    } else {
        10 - sum % 10
    }
}

/// Is the byte string `b` a GTIN-13 code (see [`is_gtin13`])?
pub fn is_valid_gtin_13_bytes(b: &[u8]) -> (r: bool)
    ensures
        r == is_gtin13(b@),
{
    let n = b.len();
    let mut k: usize = 0;
    assert(b@.subrange(0, n as int) =~= b@);
    while k < n && b[k] == 48
        invariant
            k <= n,
            n == b@.len(),
            strip_zeros(b@) == strip_zeros(b@.subrange(k as int, n as int)),
        decreases n - k,
    {
        assert(b@.subrange(k as int + 1, n as int) =~= b@.subrange(k as int, n as int).drop_first());
        k = k + 1;
    }
    let ghost t = b@.subrange(k as int, n as int);
    assert(strip_zeros(t) == t);
    let m = n - k;
    if m > 13 || m < 3 {
        return false;
    }
    let pad = 13 - m;
    let mut ean: Vec<u32> = Vec::new();
    while ean.len() < pad
        invariant
            ean.len() <= pad,
            forall|j: int| 0 <= j < ean.len() ==> ean[j] == 0,
        decreases pad - ean.len(),
    {
        ean.push(0);
    }
    let mut i: usize = k;
    while i < n
        invariant
            k <= i <= n,
            n == b@.len(),
            t == b@.subrange(k as int, n as int),
            t == strip_zeros(b@),
            pad == 13 - t.len(),
            ean.len() == pad + (i - k),
            forall|j: int| 0 <= j < i - k ==> is_digit(#[trigger] t[j]),
            forall|j: int| 0 <= j < ean.len() ==> ean[j] == #[trigger] padded(t)[j],
        decreases n - i,
    {
        let c = b[i];
        if c < 48 || c > 57 {
            assert(t[i - k] == c);
            assert(!is_digit(t[i - k]));
            return false;
        }
        ean.push((c - 48) as u32);
        i = i + 1;
    }
    assert(ean@ =~= padded(t));
    let expected = gtin_13_checksum(&ean);
    expected == ean[12]
}

/// Is the string `ean_str` a GTIN-13 code? Judged on its UTF-8 bytes, so any
/// character outside `'0'..='9'` after the leading zeros makes it invalid.
pub fn is_valid_gtin_13(ean_str: &str) -> (r: bool)
    ensures
        r == is_gtin13(ean_str.spec_bytes()),
{
    is_valid_gtin_13_bytes(ean_str.as_bytes())
}

/// The values of a sequence of ASCII digits.
pub open spec fn digit_values(s: Seq<u8>) -> Seq<u32> {
    s.map_values(|c: u8| digit_value(c))
}

/// The ASCII digits that spell a sequence of digit values.
pub open spec fn digits_text(d: Seq<u32>) -> Seq<u8> {
    d.map_values(|x: u32| (x + 48) as u8)
}

/// `n` ASCII zeros.
pub open spec fn zeros(n: nat) -> Seq<u8> {
    Seq::new(n, |_i: int| 48u8)
}

/// Stripping leading zeros leaves a suffix of `s`, and all that it removed is zeros.
proof fn lemma_strip_suffix(s: Seq<u8>)
    ensures
        strip_zeros(s).len() <= s.len(),
        strip_zeros(s) =~= s.subrange(s.len() - strip_zeros(s).len(), s.len() as int),
        forall|i: int| 0 <= i < s.len() - strip_zeros(s).len() ==> s[i] == 48,
        strip_zeros(s).len() > 0 ==> strip_zeros(s)[0] != 48,
    decreases s.len(),
{
    if s.len() > 0 && s[0] == 48 {
        lemma_strip_suffix(s.drop_first());
        assert forall|i: int| 0 <= i < s.len() - strip_zeros(s).len() implies s[i] == 48 by {
            if i > 0 {
                assert(s[i] == s.drop_first()[i - 1]);
            }
        }
    }
}

/// Leading zeros do not change the last thirteen (padded) digits.
proof fn lemma_padded_strip(s: Seq<u8>)
    ensures
        padded(strip_zeros(s)) == padded(s),
    decreases s.len(),
{
    if s.len() > 0 && s[0] == 48 {
        lemma_padded_strip(s.drop_first());
        assert(padded(s.drop_first()) =~= padded(s));
    }
}

/// Zeros put in front are all stripped again.
proof fn lemma_strip_zeros_prefix(n: nat, s: Seq<u8>)
    ensures
        strip_zeros(zeros(n) + s) == strip_zeros(s),
    decreases n,
{
    if n > 0 {
        assert((zeros(n) + s).drop_first() =~= zeros((n - 1) as nat) + s);
        lemma_strip_zeros_prefix((n - 1) as nat, s);
    } else {
        assert(zeros(n) + s =~= s);
    }
}

/// The weighted sum of the first `n` digits reads those digits only.
proof fn lemma_weighted_sum_prefix(a: Seq<u32>, b: Seq<u32>, n: int)
    requires
        0 <= n <= a.len(),
        n <= b.len(),
        forall|i: int| 0 <= i < n ==> a[i] == b[i],
    ensures
        weighted_sum(a, n) == weighted_sum(b, n),
    decreases n,
{
    if n > 0 {
        lemma_weighted_sum_prefix(a, b, n - 1);
    }
}

/// A thirteen-digit string that does not start with zero, and whose last digit
/// is the check digit of the twelve before it, is a GTIN-13 code; it stays one
/// with any number of zeros put in front of it.
pub proof fn lemma_thirteen_digit_code(s: Seq<u8>, n: nat)
    requires
        s.len() == 13,
        forall|i: int| 0 <= i < 13 ==> is_digit(#[trigger] s[i]),
        s[0] != 48,
        check_digit(digit_values(s)) == digit_value(s[12]) as int,
    ensures
        is_gtin13(s),
        is_gtin13(zeros(n) + s),
{
    assert(strip_zeros(s) == s);
    assert(padded(s) =~= digit_values(s));
    lemma_strip_zeros_prefix(n, s);
}

/// Twelve digits followed by their check digit make a GTIN-13 code, provided
/// one of the first eleven is not zero (else fewer than three digits are left
/// once the leading zeros go).
pub proof fn lemma_check_digit_appended(d: Seq<u32>)
    requires
        d.len() == 12,
        forall|i: int| 0 <= i < 12 ==> #[trigger] d[i] <= 9,
        exists|i: int| 0 <= i < 11 && #[trigger] d[i] != 0,
    ensures
        is_gtin13(digits_text(d.push(check_digit(d) as u32))),
{
    let full = d.push(check_digit(d) as u32);
    let s = digits_text(full);
    let t = strip_zeros(s);
    lemma_strip_suffix(s);
    lemma_padded_strip(s);
    let i = choose|i: int| 0 <= i < 11 && #[trigger] d[i] != 0;
    assert(s[i] != 48);
    assert(t.len() >= 3);
    assert forall|j: int| 0 <= j < t.len() implies is_digit(#[trigger] t[j]) by {
        assert(t[j] == s[13 - t.len() + j]);
    }
    assert(padded(s) =~= full);
    lemma_weighted_sum_prefix(full, d, 12);
}

/// Replacing the last digit of a GTIN-13 code with any other digit gives a
/// string that is no GTIN-13 code.
pub proof fn lemma_changed_check_digit(s: Seq<u8>, c: u8)
    requires
        is_gtin13(s),
        is_digit(c),
        c != s[s.len() - 1],
    ensures
        !is_gtin13(s.update(s.len() - 1, c)),
{
    lemma_strip_suffix(s);
    lemma_changed_digit(s, s.len() - 1, c);
}

/// Changing the digit at position `j` changes the weighted sum by that
/// position's weight times the difference.
proof fn lemma_weighted_sum_update(a: Seq<u32>, j: int, v: u32, n: int)
    requires
        0 <= j < n <= a.len(),
    ensures
        weighted_sum(a.update(j, v), n) == weighted_sum(a, n) + weight(j) * (v - a[j]),
    decreases n,
{
    if n - 1 > j {
        lemma_weighted_sum_update(a, j, v, n - 1);
        assert(a.update(j, v)[n - 1] == a[n - 1]);
    } else {
        lemma_weighted_sum_prefix(a.update(j, v), a, n - 1);
        assert(weight(j) * (v - a[j]) == weight(j) * v - weight(j) * a[j]) by (nonlinear_arith);
    }
}

/// Moving a sum by one or three times a nonzero digit difference moves its
/// check digit.
proof fn lemma_check_digit_moves(a: int, w: int, d: int)
    requires
        w == 1 || w == 3,
        d != 0,
        -9 <= d <= 9,
    ensures
        (10 - a % 10) % 10 != (10 - (a + w * d) % 10) % 10,
{
    if w == 1 {
        assert((10 - a % 10) % 10 != (10 - (a + d) % 10) % 10);
    } else {
        assert((10 - a % 10) % 10 != (10 - (a + 3 * d) % 10) % 10);
    }
}

/// Replacing any one digit of a GTIN-13 code with another digit gives a
/// string that is no GTIN-13 code: the weights 1 and 3 share no factor with
/// ten, so every such change moves the weighted sum off its check digit.
pub proof fn lemma_changed_digit(s: Seq<u8>, i: int, c: u8)
    requires
        is_gtin13(s),
        0 <= i < s.len(),
        is_digit(c),
        c != s[i],
    ensures
        !is_gtin13(s.update(i, c)),
{
    let s2 = s.update(i, c);
    let len = s.len();
    let t = strip_zeros(s);
    let t2 = strip_zeros(s2);
    lemma_strip_suffix(s);
    lemma_strip_suffix(s2);
    lemma_padded_strip(s);
    lemma_padded_strip(s2);
    let k = len - t.len();
    let k2 = len - t2.len();
    if is_gtin13(s2) {
        if i < len - 13 {
            assert(s[i] == 48);
            assert(k2 <= i) by {
                if k2 > i {
                    assert(s2[i] == 48);
                }
            }
            assert(false);
        } else {
            let j = i - (len - 13);
            assert(forall|x: int| 0 <= x < len ==> is_digit(#[trigger] s[x])) by {
                assert forall|x: int| 0 <= x < len implies is_digit(#[trigger] s[x]) by {
                    if x >= k {
                        assert(s[x] == t[x - k]);
                    }
                }
            }
            assert(padded(s2) =~= padded(s).update(j, digit_value(c)));
            if j == 12 {
                lemma_weighted_sum_prefix(padded(s), padded(s2), 12);
            } else {
                lemma_weighted_sum_update(padded(s), j, digit_value(c), 12);
                let d = digit_value(c) - padded(s)[j];
                assert(d != 0 && -9 <= d <= 9);
                assert(padded(s2)[12] == padded(s)[12]);
                lemma_check_digit_moves(weighted_sum(padded(s), 12), weight(j), d);
                assert(check_digit(padded(s2)) != check_digit(padded(s)));
            }
        }
    }
}

} // verus!
