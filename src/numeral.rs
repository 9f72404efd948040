//! Fixed-width positional numerals over the alphabet `0-9a-zA-Z`.
//!
//! The first `b` symbols of the alphabet are the digits of base `b`, so the
//! hexadecimal digits `0-9a-f` are a prefix of the base-62 digits.

use vstd::prelude::*;
use vstd::arithmetic::power::pow;
use vstd::utf8::is_ascii_chars;

verus! {

/// ASCII `0`.
pub const DIGIT_0: u8 = 0x30;
/// ASCII `9`.
pub const DIGIT_9: u8 = 0x39;
/// ASCII `a`.
pub const LOWER_A: u8 = 0x61;
/// ASCII `z`.
pub const LOWER_Z: u8 = 0x7a;
/// ASCII `A`.
pub const UPPER_A: u8 = 0x41;
/// ASCII `Z`.
pub const UPPER_Z: u8 = 0x5a;

/// Value of an alphabet symbol, or -1 for a byte outside the alphabet.
pub open spec fn symbol_value(c: u8) -> int {
    if DIGIT_0 <= c <= DIGIT_9 {
        c - DIGIT_0
    } else if LOWER_A <= c <= LOWER_Z {
        c - LOWER_A + 10
    } else if UPPER_A <= c <= UPPER_Z {
        c - UPPER_A + 36
    } else {
        -1
    }
}

/// The alphabet symbol of digit value `d`, for `0 <= d < 62`.
pub open spec fn symbol(d: int) -> u8 {
    if d < 10 {
        (DIGIT_0 + d) as u8
    } else if d < 36 {
        (LOWER_A + (d - 10)) as u8
    } else {
        (UPPER_A + (d - 36)) as u8
    }
}

/// Whether `c` is a digit of base `base`.
pub open spec fn is_digit_of(c: u8, base: int) -> bool {
    0 <= symbol_value(c) < base
}

/// Whether every byte of `s` is a digit of base `base`.
pub open spec fn all_digits(s: Seq<u8>, base: int) -> bool {
    forall|i: int| 0 <= i < s.len() ==> is_digit_of(#[trigger] s[i], base)
}

/// Value of the numeral `s` in base `base`, most significant symbol first.
pub open spec fn numeral_value(s: Seq<u8>, base: int) -> int
    decreases s.len(),
{
    if s.len() == 0 {
        0
    } else {
        numeral_value(s.drop_last(), base) * base + symbol_value(s.last())
    }
}

/// The `width` least significant digits of `n` in base `base`, most
/// significant first, padded on the left with the zero symbol.
pub open spec fn numeral_text(n: nat, base: nat, width: nat) -> Seq<u8>
    decreases width,
{
    if width == 0 || base == 0 {
        Seq::empty()
    } else {
        numeral_text(n / base, base, (width - 1) as nat).push(symbol((n % base) as int))
    }
}

/// The bytes of an ASCII text, one per character.
pub open spec fn ascii_bytes(s: Seq<char>) -> Seq<u8> {
    Seq::new(s.len(), |i: int| s[i] as u8)
}

pub proof fn lemma_symbol_value(d: int)
    requires
        0 <= d < 62,
    ensures
        symbol_value(symbol(d)) == d,
        symbol(d) < 128,
{
}

/// Looks a byte up in the alphabet.
pub fn value_of_symbol(c: u8) -> (r: Option<u8>)
    ensures
        r == (if symbol_value(c) >= 0 {
            Some(symbol_value(c) as u8)
        } else {
            None::<u8>
        }),
{
    if DIGIT_0 <= c && c <= DIGIT_9 {
        Some(c - DIGIT_0)
    } else if LOWER_A <= c && c <= LOWER_Z {
        Some(c - LOWER_A + 10)
    } else if UPPER_A <= c && c <= UPPER_Z {
        Some(c - UPPER_A + 36)
    } else {
        None
    }
}

/// The alphabet symbol of a digit value.
pub fn symbol_of(d: u8) -> (r: u8)
    requires
        d < 62,
    ensures
        r == symbol(d as int),
{
    if d < 10 {
        DIGIT_0 + d
    } else if d < 36 {
        LOWER_A + (d - 10)
    } else {
        UPPER_A + (d - 36)
    }
}

/// Largest value plus one of a 128-bit unsigned integer.
pub open spec fn u128_limit() -> int {
    u128::MAX as int + 1
}

pub proof fn lemma_text_shape(n: nat, base: nat, width: nat)
    requires
        2 <= base <= 62,
    ensures
        numeral_text(n, base, width).len() == width,
        all_digits(numeral_text(n, base, width), base as int),
        forall|i: int| 0 <= i < width ==> #[trigger] numeral_text(n, base, width)[i] < 128,
    decreases width,
{
    if width > 0 {
        lemma_text_shape(n / base, base, (width - 1) as nat);
        lemma_symbol_value((n % base) as int);
        let t = numeral_text(n, base, width);
        let p = numeral_text(n / base, base, (width - 1) as nat);
        assert(t =~= p.push(symbol((n % base) as int)));
        assert forall|i: int| 0 <= i < width implies is_digit_of(#[trigger] t[i], base as int)
            && t[i] < 128 by {
            if i < width - 1 {
                assert(t[i] == p[i]);
            }
        }
    }
}

/// A numeral read back gives the value it was written from, when the
/// value fits in the width.
pub proof fn lemma_text_value(n: nat, base: nat, width: nat)
    requires
        2 <= base <= 62,
        n < pow(base as int, width),
    ensures
        numeral_value(numeral_text(n, base, width), base as int) == n,
    decreases width,
{
    reveal(pow);
    if width == 0 {
        assert(pow(base as int, 0) == 1);
    } else {
        let w1 = (width - 1) as nat;
        let q = n / base;
        assert(pow(base as int, width) == base * pow(base as int, w1));
        assert(q < pow(base as int, w1)) by (nonlinear_arith)
            requires
                n < base * pow(base as int, w1),
                q == n / base,
                base >= 2,
        ;
        lemma_text_value(q, base, w1);
        lemma_symbol_value((n % base) as int);
        let t = numeral_text(n, base, width);
        assert(t.drop_last() =~= numeral_text(q, base, w1));
        assert(n == q * base + n % base) by (nonlinear_arith)
            requires
                q == n / base,
                base >= 2,
        ;
    }
}

/// A numeral of valid digits is below the base raised to its length.
pub proof fn lemma_value_bound(s: Seq<u8>, base: int)
    requires
        base >= 1,
        all_digits(s, base),
    ensures
        0 <= numeral_value(s, base) < pow(base, s.len()),
    decreases s.len(),
{
    reveal(pow);
    if s.len() > 0 {
        let p = s.drop_last();
        assert(all_digits(p, base)) by {
            assert forall|i: int| 0 <= i < p.len() implies is_digit_of(#[trigger] p[i], base) by {
                assert(p[i] == s[i]);
            }
        }
        lemma_value_bound(p, base);
        let v = numeral_value(p, base);
        let d = symbol_value(s.last());
        let k = pow(base, p.len());
        assert(is_digit_of(s[s.len() - 1], base));
        assert(p.len() == (s.len() - 1) as nat);
        assert(pow(base, s.len()) == base * pow(base, (s.len() - 1) as nat));
        assert(0 <= v * base + d < base * k) by (nonlinear_arith)
            requires
                0 <= v < k,
                0 <= d < base,
        ;
    }
}

/// A numeral of valid digits is at least as large as any of its prefixes.
pub proof fn lemma_value_prefix(s: Seq<u8>, base: int, i: int)
    requires
        base >= 1,
        all_digits(s, base),
        0 <= i <= s.len(),
    ensures
        numeral_value(s.subrange(0, i), base) <= numeral_value(s, base),
    decreases s.len(),
{
    if i < s.len() {
        let p = s.drop_last();
        assert(all_digits(p, base)) by {
            assert forall|j: int| 0 <= j < p.len() implies is_digit_of(#[trigger] p[j], base) by {
                assert(p[j] == s[j]);
            }
        }
        lemma_value_prefix(p, base, i);
        assert(p.subrange(0, i) =~= s.subrange(0, i));
        lemma_value_bound(p, base);
        let v = numeral_value(p, base);
        assert(is_digit_of(s[s.len() - 1], base));
        assert(v <= v * base + symbol_value(s.last())) by (nonlinear_arith)
            requires
                v >= 0,
                base >= 1,
                symbol_value(s.last()) >= 0,
        ;
    } else {
        assert(s.subrange(0, i) =~= s);
    }
}

/// Reads a numeral of base `base`; `None` when a byte is not a digit of
/// that base or the value does not fit in 128 bits.
pub fn decode_numeral(s: &[u8], base: u8) -> (r: Option<u128>)
    requires
        2 <= base <= 62,
    ensures
        r == (if all_digits(s@, base as int) && numeral_value(s@, base as int) < u128_limit() {
            Some(numeral_value(s@, base as int) as u128)
        } else {
            None::<u128>
        }),
{
    let mut n: u128 = 0;
    let mut i: usize = 0;
    while i < s.len()
        invariant
            2 <= base <= 62,
            0 <= i <= s@.len(),
            all_digits(s@.subrange(0, i as int), base as int),
            n as int == numeral_value(s@.subrange(0, i as int), base as int),
        decreases s@.len() - i,
    {
        let c = s[i];
        let prefix = Ghost(s@.subrange(0, i as int));
        let next = Ghost(s@.subrange(0, i as int + 1));
        assert(next@.drop_last() =~= prefix@);
        assert(next@.last() == c);
        let d = match value_of_symbol(c) {
            Some(d) if d < base => d,
            _ => {
                assert(!all_digits(s@, base as int)) by {
                    assert(!is_digit_of(s@[i as int], base as int));
                }
                return None;
            },
        };
        assert(all_digits(next@, base as int)) by {
            assert forall|j: int| 0 <= j < next@.len() implies is_digit_of(
                #[trigger] next@[j],
                base as int,
            ) by {
                if j < i {
                    assert(next@[j] == prefix@[j]);
                }
            }
        }
        let step = match n.checked_mul(base as u128) {
            Some(m) => m.checked_add(d as u128),
            None => None,
        };
        match step {
            Some(m) => {
                n = m;
            },
            None => {
                proof {
                    if all_digits(s@, base as int) {
                        lemma_value_prefix(s@, base as int, i as int + 1);
                        lemma_value_bound(prefix@, base as int);
                        assert(n * base <= n * base + d) by (nonlinear_arith)
                            requires
                                d >= 0,
                        ;
                    }
                }
                return None;
            },
        }
        i = i + 1;
    }
    assert(s@.subrange(0, s@.len() as int) =~= s@);
    Some(n)
}

/// Writes the `width` least significant digits of `n` in base `base`.
pub fn encode_numeral(n: u128, base: u8, width: usize) -> (r: Vec<u8>)
    requires
        2 <= base <= 62,
    ensures
        r@ == numeral_text(n as nat, base as nat, width as nat),
{
    let mut r: Vec<u8> = Vec::new();
    let mut k: usize = 0;
    while k < width
        invariant
            k <= width,
            r@.len() == k,
        decreases width - k,
    {
        r.push(DIGIT_0);
        k = k + 1;
    }
    let mut rest: u128 = n;
    let mut i: usize = 0;
    while i < width
        invariant
            2 <= base <= 62,
            i <= width,
            r@.len() == width,
            numeral_text(n as nat, base as nat, width as nat) == numeral_text(
                rest as nat,
                base as nat,
                (width - i) as nat,
            ) + r@.subrange(width - i, width as int),
        decreases width - i,
    {
        let d = (rest % (base as u128)) as u8;
        let old_r = Ghost(r@);
        let old_rest = Ghost(rest as nat);
        r[width - 1 - i] = symbol_of(d);
        rest = rest / (base as u128);
        assert(numeral_text(old_rest@, base as nat, (width - i) as nat) == numeral_text(
            rest as nat,
            base as nat,
            (width - i - 1) as nat,
        ).push(symbol(d as int)));
        assert(r@.subrange(width - i - 1, width as int) =~= seq![symbol(d as int)]
            + old_r@.subrange(width - i, width as int));
        i = i + 1;
    }
    assert(r@.subrange(0, width as int) =~= r@);
    r
}

/// The 32 hex digits and the 22 base-62 digits both hold any 128-bit value;
/// 32 hex digits hold no more.
pub proof fn lemma_widths()
    ensures
        pow(16, 32) == u128_limit(),
        u128_limit() < pow(62, 22),
{
    reveal_with_fuel(pow, 33);
}

/// Relies on `String::from_utf8`: ASCII bytes are valid UTF-8, one
/// character per byte.
#[verifier::external_body]
pub(crate) fn ascii_string(bytes: Vec<u8>) -> (r: String)
    requires
        forall|i: int| 0 <= i < bytes@.len() ==> #[trigger] bytes@[i] < 128,
    ensures
        is_ascii_chars(r@),
        ascii_bytes(r@) == bytes@,
{
    String::from_utf8(bytes).unwrap()
}

} // verus!
