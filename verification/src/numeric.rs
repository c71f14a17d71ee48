//! Numeric field grammar: unsigned integers and unsigned fixed-point decimal
//! amounts with up to four fractional digits, the precision the ledger keeps.
//!
//! An amount string is `digits`, `digits.digits`, `digits.` or `.digits`
//! (at least one digit in all), and its value is the count of
//! ten-thousandths of a currency unit it denotes. Anything else — a sign, a
//! second point, more than four fractional digits, a value past the machine
//! bound — is malformed.

use vstd::prelude::*;

verus! {

/// True of an ASCII decimal digit.
pub open spec fn is_digit(b: u8) -> bool {
    48 <= b <= 57
}

/// True when every byte of `s` is an ASCII digit.
pub open spec fn all_digits(s: Seq<u8>) -> bool {
    forall|i: int| 0 <= i < s.len() ==> is_digit(#[trigger] s[i])
}

/// The value a digit string denotes in base ten (0 for the empty string).
pub open spec fn digits_val(s: Seq<u8>) -> int
    decreases s.len(),
{
    if s.len() == 0 {
        0
    } else {
        digits_val(s.drop_last()) * 10 + (s.last() - 48)
    }
}

/// Ten to the `n`-th power.
pub open spec fn pow10(n: int) -> int
    decreases n,
{
    if n <= 0 {
        1
    } else {
        10 * pow10(n - 1)
    }
}

/// A digit string's value is non-negative.
pub proof fn lemma_digits_val_nonneg(s: Seq<u8>)
    requires
        all_digits(s),
    ensures
        digits_val(s) >= 0,
    decreases s.len(),
{
    if s.len() > 0 {
        assert(all_digits(s.drop_last()));
        lemma_digits_val_nonneg(s.drop_last());
    }
}

/// A string of `n` digits denotes a value below ten to the `n`-th.
pub proof fn lemma_digits_val_upper(s: Seq<u8>)
    requires
        all_digits(s),
    ensures
        digits_val(s) < pow10(s.len() as int),
    decreases s.len(),
{
    if s.len() > 0 {
        assert(all_digits(s.drop_last()));
        lemma_digits_val_upper(s.drop_last());
    }
}

/// A digit string's value never shrinks as the string is extended to the
/// right.
pub proof fn lemma_digits_val_prefix_le(s: Seq<u8>, i: int)
    requires
        all_digits(s),
        0 <= i <= s.len(),
    ensures
        digits_val(s.take(i)) <= digits_val(s),
    decreases s.len() - i,
{
    if i < s.len() {
        lemma_digits_val_prefix_le(s, i + 1);
        assert(s.take(i + 1).drop_last() =~= s.take(i));
        assert(all_digits(s.take(i)));
        lemma_digits_val_nonneg(s.take(i));
        assert(digits_val(s.take(i + 1)) == digits_val(s.take(i)) * 10 + (s[i] - 48));
    } else {
        assert(s.take(i) =~= s);
    }
}

/// First index of byte `b` in `s`, if any.
pub open spec fn find_byte(s: Seq<u8>, b: u8) -> Option<int>
    decreases s.len(),
{
    if s.len() == 0 {
        Option::None
    } else if s[0] == b {
        Option::Some(0)
    } else {
        match find_byte(s.drop_first(), b) {
            Option::None => Option::None,
            Option::Some(i) => Option::Some(i + 1),
        }
    }
}

/// `find_byte` finds the first occurrence, and nothing when there is none.
pub proof fn lemma_find_byte(s: Seq<u8>, b: u8)
    ensures
        match find_byte(s, b) {
            Option::None => forall|j: int| 0 <= j < s.len() ==> s[j] != b,
            Option::Some(i) => 0 <= i < s.len() && s[i] == b && forall|j: int|
                0 <= j < i ==> s[j] != b,
        },
    decreases s.len(),
{
    if s.len() > 0 && s[0] != b {
        lemma_find_byte(s.drop_first(), b);
        match find_byte(s.drop_first(), b) {
            Option::None => {
                assert forall|j: int| 0 <= j < s.len() implies s[j] != b by {
                    if j > 0 {
                        assert(s.drop_first()[j - 1] == s[j]);
                    }
                }
            },
            Option::Some(i) => {
                assert(s.drop_first()[i] == s[i + 1]);
                assert forall|j: int| 0 <= j < i + 1 implies s[j] != b by {
                    if j > 0 {
                        assert(s.drop_first()[j - 1] == s[j]);
                    }
                }
            },
        }
    }
}

/// Conversely, the first occurrence determines `find_byte`.
pub proof fn lemma_find_byte_at(s: Seq<u8>, b: u8, i: int)
    requires
        0 <= i < s.len(),
        s[i] == b,
        forall|j: int| 0 <= j < i ==> s[j] != b,
    ensures
        find_byte(s, b) == Option::Some(i),
    decreases s.len(),
{
    if i > 0 {
        lemma_find_byte_at(s.drop_first(), b, i - 1);
    }
}

/// And a string without the byte maps to `None`.
pub proof fn lemma_find_byte_none(s: Seq<u8>, b: u8)
    requires
        forall|j: int| 0 <= j < s.len() ==> s[j] != b,
    ensures
        find_byte(s, b) is None,
    decreases s.len(),
{
    if s.len() > 0 {
        lemma_find_byte_none(s.drop_first(), b);
    }
}

/// Finds the first occurrence of `b` in `s`.
pub fn find(s: &[u8], b: u8) -> (r: Option<usize>)
    ensures
        match r {
            Option::Some(i) => find_byte(s@, b) == Option::Some(i as int),
            Option::None => find_byte(s@, b) is None,
        },
{
    let mut i: usize = 0;
    while i < s.len()
        invariant
            0 <= i <= s@.len(),
            forall|j: int| 0 <= j < i ==> s@[j] != b,
        decreases s@.len() - i,
    {
        if s[i] == b {
            proof {
                lemma_find_byte_at(s@, b, i as int);
            }
            return Option::Some(i);
        }
        i = i + 1;
    }
    proof {
        lemma_find_byte_none(s@, b);
    }
    Option::None
}

/// Reads a digit string (possibly empty) as a base-ten value, rejecting any
/// non-digit and any value past the machine bound.
pub fn digits_value(s: &[u8]) -> (r: Option<u64>)
    ensures
        match r {
            Option::Some(n) => all_digits(s@) && digits_val(s@) == n,
            Option::None => !all_digits(s@) || digits_val(s@) > u64::MAX,
        },
{
    let mut acc: u64 = 0;
    let mut i: usize = 0;
    while i < s.len()
        invariant
            0 <= i <= s@.len(),
            all_digits(s@.take(i as int)),
            acc == digits_val(s@.take(i as int)),
        decreases s@.len() - i,
    {
        let b = s[i];
        if b < 48 || b > 57 {
            return Option::None;
        }
        let d = (b - 48) as u64;
        proof {
            assert(s@.take(i + 1).drop_last() =~= s@.take(i as int));
            assert(s@.take(i + 1).last() == s@[i as int]);
        }
        if acc > (u64::MAX - d) / 10 {
            proof {
                assert(acc * 10 + d > u64::MAX) by {
                    let m = (u64::MAX - d) as int;
                    vstd::arithmetic::div_mod::lemma_fundamental_div_mod(m, 10);
                    assert(m % 10 < 10);
                    assert(acc >= m / 10 + 1);
                    assert(acc * 10 >= (m / 10 + 1) * 10) by (nonlinear_arith)
                        requires
                            acc >= m / 10 + 1,
                    ;
                    assert((m / 10 + 1) * 10 == (m / 10) * 10 + 10);
                    assert((m / 10) * 10 > m - 10);
                }
                assert(digits_val(s@.take(i + 1)) == acc * 10 + d);
                assert(digits_val(s@.take(i + 1)) > u64::MAX);
                if all_digits(s@) {
                    lemma_digits_val_prefix_le(s@, i + 1);
                }
            }
            return Option::None;
        }
        acc = acc * 10 + d;
        i = i + 1;
    }
    proof {
        assert(s@.take(i as int) =~= s@);
    }
    Option::Some(acc)
}

/// The exact meaning of an unsigned integer field: all digits, at least one,
/// value within `u32`.
pub open spec fn spec_parse_u32(s: Seq<u8>) -> Option<int> {
    if s.len() > 0 && all_digits(s) && digits_val(s) <= u32::MAX {
        Option::Some(digits_val(s))
    } else {
        Option::None
    }
}

/// Parses an unsigned integer field, e.g. a client or transaction id.
pub fn parse_u32(s: &[u8]) -> (r: Option<u32>)
    ensures
        match r {
            Option::Some(n) => spec_parse_u32(s@) == Option::Some(n as int),
            Option::None => spec_parse_u32(s@) is None,
        },
{
    if s.len() == 0 {
        return Option::None;
    }
    match digits_value(s) {
        Option::Some(n) => {
            if n <= u32::MAX as u64 {
                Option::Some(n as u32)
            } else {
                Option::None
            }
        },
        Option::None => Option::None,
    }
}

/// The exact meaning of an amount field, as a count of ten-thousandths:
/// either a plain digit string, or integer and fractional digit parts around
/// one point, the fraction at most four digits, at least one digit in all,
/// and the resulting count within the machine bound.
pub open spec fn spec_parse_amount(s: Seq<u8>) -> Option<int> {
    match find_byte(s, 46) {
        Option::None => {
            if s.len() > 0 && all_digits(s) && digits_val(s) * 10000 <= u64::MAX {
                Option::Some(digits_val(s) * 10000)
            } else {
                Option::None
            }
        },
        Option::Some(i) => {
            let ip = s.take(i);
            let fp = s.skip(i + 1);
            if ip.len() + fp.len() > 0 && all_digits(ip) && all_digits(fp) && fp.len() <= 4
                && digits_val(ip) * 10000 + digits_val(fp) * pow10(4 - fp.len()) <= u64::MAX {
                Option::Some(digits_val(ip) * 10000 + digits_val(fp) * pow10(4 - fp.len()))
            } else {
                Option::None
            }
        },
    }
}

/// Parses an amount field into ten-thousandths of a currency unit.
pub fn parse_amount(s: &[u8]) -> (r: Option<u64>)
    ensures
        match r {
            Option::Some(n) => spec_parse_amount(s@) == Option::Some(n as int),
            Option::None => spec_parse_amount(s@) is None,
        },
{
    proof {
        assert(pow10(0) == 1);
        assert(pow10(1) == 10);
        assert(pow10(2) == 100);
        assert(pow10(3) == 1000);
        assert(pow10(4) == 10000);
    }
    match find(s, 46) {
        Option::None => {
            if s.len() == 0 {
                return Option::None;
            }
            match digits_value(s) {
                Option::Some(n) => {
                    proof {
                        lemma_digits_val_nonneg(s@);
                    }
                    if n <= u64::MAX / 10000 {
                        proof {
                            lemma_scale_within_bound(n as int);
                        }
                        Option::Some(n * 10000)
                    } else {
                        proof {
                            lemma_scale_past_bound(n as int);
                        }
                        Option::None
                    }
                },
                Option::None => {
                    proof {
                        if all_digits(s@) {
                            lemma_digits_val_nonneg(s@);
                            assert(digits_val(s@) * 10000 >= digits_val(s@)) by (nonlinear_arith)
                                requires
                                    digits_val(s@) >= 0,
                            ;
                        }
                    }
                    Option::None
                },
            }
        },
        Option::Some(i) => {
            proof {
                lemma_find_byte(s@, 46);
            }
            assert(i < s.len());
            let ip: &[u8] = &s[0..i];
            let fp: &[u8] = &s[i + 1..s.len()];
            proof {
                assert(ip@ =~= s@.take(i as int));
                assert(fp@ =~= s@.skip(i + 1));
            }
            let fl = fp.len();
            if ip.len() == 0 && fl == 0 {
                return Option::None;
            }
            if fl > 4 {
                return Option::None;
            }
            let ip_val = match digits_value(ip) {
                Option::Some(n) => n,
                Option::None => {
                    proof {
                        if all_digits(ip@) && all_digits(fp@) {
                            lemma_digits_val_nonneg(ip@);
                            lemma_digits_val_nonneg(fp@);
                            assert(digits_val(ip@) * 10000 >= digits_val(ip@))
                                by (nonlinear_arith)
                                requires
                                    digits_val(ip@) >= 0,
                            ;
                            assert(digits_val(fp@) * pow10(4 - fp@.len()) >= 0)
                                by (nonlinear_arith)
                                requires
                                    digits_val(fp@) >= 0,
                                    pow10(4 - fp@.len()) >= 0,
                            ;
                        }
                    }
                    return Option::None;
                },
            };
            let fp_val = match digits_value(fp) {
                Option::Some(n) => n,
                Option::None => {
                    proof {
                        if all_digits(fp@) {
                            lemma_digits_val_upper(fp@);
                        }
                    }
                    return Option::None;
                },
            };
            proof {
                lemma_digits_val_nonneg(ip@);
                lemma_digits_val_nonneg(fp@);
                lemma_digits_val_upper(fp@);
            }
            let fp_scaled: u64 = if fl == 0 {
                0
            } else if fl == 1 {
                assert(fp_val < 10);
                fp_val * 1000
            } else if fl == 2 {
                assert(fp_val < 100);
                fp_val * 100
            } else if fl == 3 {
                assert(fp_val < 1000);
                fp_val * 10
            } else {
                assert(fp_val < 10000);
                fp_val
            };
            assert(fp_scaled == digits_val(fp@) * pow10(4 - fp@.len()));
            assert(fp_scaled < 10000);
            if ip_val > (u64::MAX - fp_scaled) / 10000 {
                proof {
                    let m = (u64::MAX - fp_scaled) as int;
                    vstd::arithmetic::div_mod::lemma_fundamental_div_mod(m, 10000);
                    assert(m % 10000 < 10000);
                    assert(ip_val * 10000 >= (m / 10000 + 1) * 10000) by (nonlinear_arith)
                        requires
                            ip_val >= m / 10000 + 1,
                    ;
                    assert((m / 10000 + 1) * 10000 == (m / 10000) * 10000 + 10000);
                }
                Option::None
            } else {
                proof {
                    let m = (u64::MAX - fp_scaled) as int;
                    vstd::arithmetic::div_mod::lemma_fundamental_div_mod(m, 10000);
                    assert(m % 10000 < 10000);
                    assert(ip_val * 10000 <= (m / 10000) * 10000) by (nonlinear_arith)
                        requires
                            0 <= ip_val <= m / 10000,
                    ;
                    assert((m / 10000) * 10000 <= m);
                }
                Option::Some(ip_val * 10000 + fp_scaled)
            }
        },
    }
}

/// If a value fits below the bound divided by the scale, scaling keeps it in
/// bounds.
proof fn lemma_scale_within_bound(n: int)
    requires
        0 <= n <= u64::MAX as int / 10000,
    ensures
        n * 10000 <= u64::MAX,
{
    let m = u64::MAX as int;
    vstd::arithmetic::div_mod::lemma_fundamental_div_mod(m, 10000);
    assert(m % 10000 < 10000);
    assert(n * 10000 <= (m / 10000) * 10000) by (nonlinear_arith)
        requires
            0 <= n <= m / 10000,
    ;
}

/// And past it, scaling leaves the bound behind.
proof fn lemma_scale_past_bound(n: int)
    requires
        n > u64::MAX as int / 10000,
    ensures
        n * 10000 > u64::MAX,
{
    let m = u64::MAX as int;
    vstd::arithmetic::div_mod::lemma_fundamental_div_mod(m, 10000);
    assert(m % 10000 < 10000);
    assert(n * 10000 >= (m / 10000 + 1) * 10000) by (nonlinear_arith)
        requires
            n >= m / 10000 + 1,
    ;
    assert((m / 10000 + 1) * 10000 == (m / 10000) * 10000 + 10000);
}

} // verus!
