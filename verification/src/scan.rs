//! Token recognition: decimal integers as `u32::from_str` and `i32::from_str`
//! accept them, and float literals by the grammar of `f32::from_str`.

use vstd::prelude::*;
use vstd::string::*;

verus! {

/// An ASCII decimal digit.
pub open spec fn is_digit(c: char) -> bool {
    0x30 <= c as u32 && c as u32 <= 0x39
}

/// The numeric value of a decimal digit.
pub open spec fn digit_val(c: char) -> int {
    c as u32 - 0x30
}

/// Every character of the sequence is a decimal digit.
pub open spec fn all_digits(s: Seq<char>) -> bool {
    forall|i: int| 0 <= i < s.len() ==> is_digit(#[trigger] s[i])
}

/// The value of a sequence of decimal digits, most significant first.
pub open spec fn digits_val(s: Seq<char>) -> int
    decreases s.len(),
{
    if s.len() == 0 {
        0
    } else {
        digits_val(s.drop_last()) * 10 + digit_val(s.last())
    }
}

/// Ten to the given power.
pub open spec fn pow10(n: nat) -> int
    decreases n,
{
    if n == 0 {
        1
    } else {
        10 * pow10((n - 1) as nat)
    }
}

/// The value of a digit sequence is bounded by ten to its length.
pub proof fn lemma_digits_val_bound(s: Seq<char>)
    requires
        all_digits(s),
    ensures
        0 <= digits_val(s) < pow10(s.len()),
    decreases s.len(),
{
    if s.len() > 0 {
        lemma_digits_val_bound(s.drop_last());
        assert(0 <= digit_val(s.last()) <= 9);
    }
}

/// A sequence with a leading `'+'` or `'-'` loses it; any other stays.
pub open spec fn strip_sign(s: Seq<char>) -> Seq<char> {
    if s.len() > 0 && (s[0] == '+' || s[0] == '-') {
        s.drop_first()
    } else {
        s
    }
}

/// What `str::parse::<u32>` returns: an optional `'+'`, then at least one
/// digit and nothing else, with a value that fits; anything else fails.
pub open spec fn spec_parse_u32(s: Seq<char>) -> Option<u32> {
    let body = if s.len() > 0 && s[0] == '+' {
        s.drop_first()
    } else {
        s
    };
    if body.len() >= 1 && all_digits(body) && digits_val(body) <= u32::MAX {
        Some(digits_val(body) as u32)
    } else {
        None
    }
}

/// What `str::parse::<i32>` returns: an optional sign, then at least one
/// digit and nothing else, with a value that fits; anything else fails.
pub open spec fn spec_parse_i32(s: Seq<char>) -> Option<i32> {
    let neg = s.len() > 0 && s[0] == '-';
    let body = strip_sign(s);
    if body.len() >= 1 && all_digits(body) {
        let v = digits_val(body);
        if neg && -v >= i32::MIN {
            Some((-v) as i32)
        } else if !neg && v <= i32::MAX {
            Some(v as i32)
        } else {
            None
        }
    } else {
        None
    }
}

/// The value of the digits in `s[from..to]`, accumulated left to right.
fn digits_value_range(s: &str, from: usize, to: usize) -> (r: Option<u32>)
    requires
        from <= to <= s@.len(),
        to - from <= 8,
    ensures
        all_digits(s@.subrange(from as int, to as int)) ==> r == Some(
            digits_val(s@.subrange(from as int, to as int)) as u32,
        ),
        !all_digits(s@.subrange(from as int, to as int)) ==> r is None,
{
    let mut acc: u32 = 0;
    let mut i: usize = from;
    proof {
        assert(s@.subrange(from as int, from as int) =~= Seq::<char>::empty());
    }
    while i < to
        invariant
            from <= i <= to <= s@.len(),
            to - from <= 8,
            all_digits(s@.subrange(from as int, i as int)),
            acc == digits_val(s@.subrange(from as int, i as int)),
        decreases to - i,
    {
        let c = s.get_char(i);
        let u = c as u32;
        if u < 0x30 || u > 0x39 {
            proof {
                assert(s@.subrange(from as int, to as int)[i - from] == s@[i as int]);
                assert(!all_digits(s@.subrange(from as int, to as int)));
            }
            return None;
        }
        proof {
            let pre = s@.subrange(from as int, i as int);
            lemma_digits_val_bound(pre);
            lemma_pow10_mono(pre.len(), 7);
            assert(pow10(7) == 10000000) by {
                reveal_with_fuel(pow10, 8);
            }
            assert(acc < 10000000);
            assert(s@.subrange(from as int, i as int + 1) =~= pre.push(s@[i as int]));
            assert(pre.push(s@[i as int]).drop_last() =~= pre);
        }
        acc = acc * 10 + (u - 0x30);
        i += 1;
    }
    Some(acc)
}

/// Ten to any power is positive.
pub proof fn lemma_pow10_pos(n: nat)
    ensures
        pow10(n) >= 1,
    decreases n,
{
    if n > 0 {
        lemma_pow10_pos((n - 1) as nat);
    }
}

/// Ten to a power does not shrink as the power grows.
pub proof fn lemma_pow10_mono(a: nat, b: nat)
    requires
        a <= b,
    ensures
        1 <= pow10(a) <= pow10(b),
    decreases b,
{
    lemma_pow10_pos(a);
    if a < b {
        lemma_pow10_mono(a, (b - 1) as nat);
        lemma_pow10_pos((b - 1) as nat);
    }
}

/// Parse an unsigned decimal number, as `str::parse::<u32>` does.
pub fn parse_u32(s: &str) -> (r: Option<u32>)
    requires
        s@.len() <= 8,
    ensures
        r == spec_parse_u32(s@),
{
    let n = s.unicode_len();
    let start: usize = if n > 0 && s.get_char(0) == '+' {
        1
    } else {
        0
    };
    proof {
        if start == 1 {
            assert(s@.subrange(1, n as int) =~= s@.drop_first());
        } else {
            assert(s@.subrange(0, n as int) =~= s@);
        }
    }
    if start == n {
        return None;
    }
    proof {
        let body = s@.subrange(start as int, n as int);
        if all_digits(body) {
            lemma_digits_val_bound(body);
            lemma_pow10_mono(body.len(), 8);
            assert(pow10(8) == 100000000) by {
                reveal_with_fuel(pow10, 9);
            }
        }
    }
    digits_value_range(s, start, n)
}

/// Parse a signed decimal number, as `str::parse::<i32>` does.
pub fn parse_i32(s: &str) -> (r: Option<i32>)
    requires
        s@.len() <= 8,
    ensures
        r == spec_parse_i32(s@),
{
    let n = s.unicode_len();
    let mut neg = false;
    let mut start: usize = 0;
    if n > 0 {
        let c = s.get_char(0);
        if c == '-' {
            neg = true;
            start = 1;
        } else if c == '+' {
            start = 1;
        }
    }
    proof {
        if start == 1 {
            assert(s@.subrange(1, n as int) =~= s@.drop_first());
        } else {
            assert(s@.subrange(0, n as int) =~= s@);
        }
    }
    if start == n {
        return None;
    }
    proof {
        let body = s@.subrange(start as int, n as int);
        if all_digits(body) {
            lemma_digits_val_bound(body);
            lemma_pow10_mono(body.len(), 8);
            assert(pow10(8) == 100000000) by {
                reveal_with_fuel(pow10, 9);
            }
        }
    }
    match digits_value_range(s, start, n) {
        None => None,
        Some(v) => {
            if neg {
                Some(0i32 - (v as i32))
            } else {
                Some(v as i32)
            }
        },
    }
}

/// Case-insensitive match of one character against a lower/upper pair.
pub open spec fn ci(c: char, lo: char, up: char) -> bool {
    c == lo || c == up
}

/// The word `inf`, in any case.
pub open spec fn is_inf_seq(b: Seq<char>) -> bool {
    b.len() == 3 && ci(b[0], 'i', 'I') && ci(b[1], 'n', 'N') && ci(b[2], 'f', 'F')
}

/// The word `infinity`, in any case.
pub open spec fn is_infinity_seq(b: Seq<char>) -> bool {
    b.len() == 8 && ci(b[0], 'i', 'I') && ci(b[1], 'n', 'N') && ci(b[2], 'f', 'F') && ci(
        b[3],
        'i',
        'I',
    ) && ci(b[4], 'n', 'N') && ci(b[5], 'i', 'I') && ci(b[6], 't', 'T') && ci(b[7], 'y', 'Y')
}

/// The word `nan`, in any case.
pub open spec fn is_nan_seq(b: Seq<char>) -> bool {
    b.len() == 3 && ci(b[0], 'n', 'N') && ci(b[1], 'a', 'A') && ci(b[2], 'n', 'N')
}

/// The index of the first exponent marker `e` or `E`, or the length.
pub open spec fn first_e(b: Seq<char>) -> int
    decreases b.len(),
{
    if b.len() == 0 {
        0
    } else if b[0] == 'e' || b[0] == 'E' {
        0
    } else {
        1 + first_e(b.drop_first())
    }
}

/// The first exponent marker stands where no earlier character is one.
pub proof fn lemma_first_e_at(b: Seq<char>, k: int)
    requires
        0 <= k <= b.len(),
        forall|j: int| 0 <= j < k ==> #[trigger] b[j] != 'e' && b[j] != 'E',
        k == b.len() || b[k] == 'e' || b[k] == 'E',
    ensures
        first_e(b) == k,
    decreases k,
{
    if k == 0 {
        if b.len() > 0 && !(b[0] == 'e' || b[0] == 'E') {
            assert(false);
        }
    } else {
        let t = b.drop_first();
        assert(forall|j: int| 0 <= j < k - 1 ==> #[trigger] t[j] != 'e' && t[j] != 'E');
        lemma_first_e_at(t, k - 1);
    }
}

/// A mantissa: at least one digit, only digits and at most one point.
pub open spec fn is_mantissa(m: Seq<char>) -> bool {
    &&& exists|i: int| 0 <= i < m.len() && is_digit(#[trigger] m[i])
    &&& forall|i: int| 0 <= i < m.len() ==> is_digit(#[trigger] m[i]) || m[i] == '.'
    &&& forall|i: int, j: int|
        0 <= i < m.len() && 0 <= j < m.len() && #[trigger] m[i] == '.' && #[trigger] m[j] == '.'
            ==> i == j
}

/// An exponent part: a marker, an optional sign, then at least one digit.
pub open spec fn is_exp_seq(x: Seq<char>) -> bool {
    &&& x.len() >= 1
    &&& (x[0] == 'e' || x[0] == 'E')
    &&& {
        let d = strip_sign(x.drop_first());
        d.len() >= 1 && all_digits(d)
    }
}

/// A number: a mantissa up to the first exponent marker, then, if that
/// marker exists, an exponent part.
pub open spec fn is_number_seq(b: Seq<char>) -> bool {
    let k = first_e(b);
    is_mantissa(b.subrange(0, k)) && (k == b.len() || is_exp_seq(b.subrange(k, b.len() as int)))
}

/// A token that `str::parse::<f32>` accepts: an optional sign, then `inf`,
/// `infinity` or `nan` in any case, or a number. Parsing such a token never
/// fails, and every value, however large, is taken (to an infinity at worst),
/// so acceptance depends on the shape of the token alone.
pub open spec fn is_float_token(s: Seq<char>) -> bool {
    let b = strip_sign(s);
    is_inf_seq(b) || is_infinity_seq(b) || is_nan_seq(b) || is_number_seq(b)
}

/// Whether the token is a float literal, by the grammar of `f32::from_str`.
#[verifier::rlimit(80)]
pub fn is_float(s: &str) -> (r: bool)
    ensures
        r == is_float_token(s@),
{
    let n = s.unicode_len();
    let off: usize = if n > 0 {
        let c0 = s.get_char(0);
        if c0 == '+' || c0 == '-' {
            1
        } else {
            0
        }
    } else {
        0
    };
    let ghost b = strip_sign(s@);
    proof {
        if off == 1 {
            assert(s@.subrange(1, n as int) =~= b);
        } else {
            assert(s@.subrange(0, n as int) =~= b);
        }
        assert(b.len() == n - off);
        assert(forall|j: int| 0 <= j < b.len() ==> b[j] == s@[j + off]);
    }
    let m = n - off;
    // the named special values, in any case
    if m == 3 {
        let c0 = s.get_char(off);
        let c1 = s.get_char(off + 1);
        let c2 = s.get_char(off + 2);
        if (c0 == 'i' || c0 == 'I') && (c1 == 'n' || c1 == 'N') && (c2 == 'f' || c2 == 'F') {
            return true;
        }
        if (c0 == 'n' || c0 == 'N') && (c1 == 'a' || c1 == 'A') && (c2 == 'n' || c2 == 'N') {
            return true;
        }
    }
    if m == 8 {
        let c0 = s.get_char(off);
        let c1 = s.get_char(off + 1);
        let c2 = s.get_char(off + 2);
        let c3 = s.get_char(off + 3);
        let c4 = s.get_char(off + 4);
        let c5 = s.get_char(off + 5);
        let c6 = s.get_char(off + 6);
        let c7 = s.get_char(off + 7);
        if (c0 == 'i' || c0 == 'I') && (c1 == 'n' || c1 == 'N') && (c2 == 'f' || c2 == 'F') && (c3
            == 'i' || c3 == 'I') && (c4 == 'n' || c4 == 'N') && (c5 == 'i' || c5 == 'I') && (c6
            == 't' || c6 == 'T') && (c7 == 'y' || c7 == 'Y') {
            return true;
        }
    }
    proof {
        assert(!is_inf_seq(b) && !is_infinity_seq(b) && !is_nan_seq(b));
    }
    // find the first exponent marker
    let mut k: usize = off;
    while k < n && s.get_char(k) != 'e' && s.get_char(k) != 'E'
        invariant
            n == s@.len(),
            off <= k <= n,
            forall|j: int| off <= j < k ==> #[trigger] s@[j] != 'e' && s@[j] != 'E',
        decreases n - k,
    {
        k += 1;
    }
    proof {
        assert(forall|j: int| 0 <= j < k - off ==> #[trigger] b[j] != 'e' && b[j] != 'E');
        lemma_first_e_at(b, k - off);
    }
    let ghost mant = b.subrange(0, k - off);
    // scan the mantissa: digits, at most one point, at least one digit
    let mut found_digit = false;
    let mut found_dot = false;
    let mut i: usize = off;
    while i < k
        invariant
            n == s@.len(),
            off <= i <= k <= n,
            mant == b.subrange(0, k - off),
            b == strip_sign(s@),
            b.len() == n - off,
            k - off == first_e(b),
            !is_inf_seq(b),
            !is_infinity_seq(b),
            !is_nan_seq(b),
            forall|j: int| 0 <= j < b.len() ==> b[j] == s@[j + off],
            found_digit == exists|j: int| off <= j < i && is_digit(#[trigger] s@[j]),
            forall|j: int| off <= j < i ==> is_digit(#[trigger] s@[j]) || s@[j] == '.',
            found_dot == exists|j: int| off <= j < i && #[trigger] s@[j] == '.',
            forall|j1: int, j2: int|
                off <= j1 < i && off <= j2 < i && #[trigger] s@[j1] == '.' && #[trigger] s@[j2]
                    == '.' ==> j1 == j2,
        decreases k - i,
    {
        let c = s.get_char(i);
        let u = c as u32;
        if 0x30 <= u && u <= 0x39 {
            found_digit = true;
        } else if c == '.' {
            if found_dot {
                proof {
                    let w1 = choose|j: int| off <= j < i && #[trigger] s@[j] == '.';
                    assert(mant[w1 - off] == '.');
                    assert(mant[i - off] == '.');
                    assert(!is_mantissa(mant));
                }
                return false;
            }
            found_dot = true;
        } else {
            proof {
                assert(mant[i - off] == s@[i as int]);
                assert(!is_mantissa(mant));
            }
            return false;
        }
        i += 1;
    }
    if !found_digit {
        proof {
            assert(forall|j: int| 0 <= j < mant.len() ==> mant[j] == s@[j + off]);
            assert(!is_mantissa(mant));
        }
        return false;
    }
    proof {
        assert(forall|j: int| 0 <= j < mant.len() ==> mant[j] == s@[j + off]);
        let wd = choose|j: int| off <= j < k && is_digit(#[trigger] s@[j]);
        assert(is_digit(mant[wd - off]));
        assert(is_mantissa(mant));
    }
    if k == n {
        return true;
    }
    // the exponent part: an optional sign, then at least one digit
    let ghost xp = b.subrange(k - off, b.len() as int);
    proof {
        assert(xp.len() == n - k);
        assert(forall|j: int| 0 <= j < xp.len() ==> xp[j] == s@[j + k]);
        assert(xp[0] == 'e' || xp[0] == 'E');
    }
    let has_sign: bool = k + 1 < n && (s.get_char(k + 1) == '+' || s.get_char(k + 1) == '-');
    let q: usize = if has_sign {
        k + 2
    } else {
        k + 1
    };
    let ghost d = strip_sign(xp.drop_first());
    proof {
        assert(forall|j: int| 0 <= j < xp.drop_first().len() ==> xp.drop_first()[j] == s@[j + k
            + 1]);
        if has_sign {
            assert(xp.drop_first().len() > 0);
            assert(xp.drop_first()[0] == s@[k + 1]);
            assert(d =~= xp.drop_first().drop_first());
        } else {
            if k + 1 < n {
                assert(xp.drop_first()[0] == s@[k + 1]);
                assert(s@[k + 1] != '+' && s@[k + 1] != '-');
                assert(d == xp.drop_first());
            } else {
                assert(xp.drop_first().len() == 0);
                assert(d == xp.drop_first());
            }
        }
        assert(d.len() == n - q);
        assert(forall|j: int| 0 <= j < d.len() ==> d[j] == s@[j + q]);
    }
    if q == n {
        proof {
            assert(!is_exp_seq(xp));
        }
        return false;
    }
    let mut j: usize = q;
    while j < n
        invariant
            n == s@.len(),
            q <= j <= n,
            d.len() == n - q,
            forall|t: int| 0 <= t < d.len() ==> d[t] == s@[t + q],
            forall|t: int| q <= t < j ==> is_digit(#[trigger] s@[t]),
            b == strip_sign(s@),
            b.len() == n - off,
            xp == b.subrange(k - off, b.len() as int),
            d == strip_sign(xp.drop_first()),
            off <= k < n,
            k - off == first_e(b),
            k + 1 <= q < n,
            is_mantissa(b.subrange(0, k - off)),
            !is_inf_seq(b),
            !is_infinity_seq(b),
            !is_nan_seq(b),
        decreases n - j,
    {
        let c = s.get_char(j);
        let u = c as u32;
        if u < 0x30 || u > 0x39 {
            proof {
                assert(d[j - q] == s@[j as int]);
                assert(!all_digits(d));
                assert(!is_exp_seq(xp));
            }
            return false;
        }
        j += 1;
    }
    proof {
        assert(forall|t: int| 0 <= t < d.len() ==> is_digit(#[trigger] d[t]));
        assert(is_exp_seq(xp));
        assert(is_number_seq(b));
    }
    true
}

} // verus!
