//! Parsing of decimal numerals and of comma-separated records.
//!
//! A numeral is an optional sign, then decimal digits with at most one
//! point: at most twelve digits before the point and at most six after
//! it, and at least one digit in all. Its value is read exactly into
//! micro-units. A record is two such fields separated by a comma, the
//! label first; text after a second comma is ignored.

use vstd::prelude::*;

verus! {

/// Whether `c` is a decimal digit.
pub open spec fn is_digit(c: char) -> bool {
    48 <= c as u32 <= 57
}

/// The value of a digit character.
pub open spec fn digit_val(c: char) -> int {
    c as u32 - 48
}

/// Whether every character of `s` is a decimal digit.
pub open spec fn all_digits(s: Seq<char>) -> bool {
    forall|i: int| 0 <= i < s.len() ==> is_digit(s[i])
}

/// The value of a digit string read in base ten.
pub open spec fn digits_val(s: Seq<char>) -> int
    decreases s.len(),
{
    if s.len() == 0 {
        0
    } else {
        digits_val(s.drop_last()) * 10 + digit_val(s.last())
    }
}

/// Ten to the `k`.
pub open spec fn pow10(k: nat) -> int
    decreases k,
{
    if k == 0 {
        1
    } else {
        10 * pow10((k - 1) as nat)
    }
}

/// The index of the first occurrence of `c` in `s`, or `s.len()` if
/// `c` does not occur.
pub open spec fn first_at(s: Seq<char>, c: char) -> int
    decreases s.len(),
{
    if s.len() == 0 {
        0
    } else if s[0] == c {
        0
    } else {
        1 + first_at(s.subrange(1, s.len() as int), c)
    }
}

/// `first_at` is the one index with nothing equal to `c` before it and
/// `c` at it unless the string ends there.
pub proof fn lemma_first_at_is(s: Seq<char>, c: char, i: int)
    requires
        0 <= i <= s.len(),
        forall|j: int| 0 <= j < i ==> s[j] != c,
        i < s.len() ==> s[i] == c,
    ensures
        first_at(s, c) == i,
    decreases i,
{
    if i == 0 {
        if s.len() > 0 && s[0] != c {
            assert(false);
        }
    } else {
        assert(s[0] != c);
        let t = s.subrange(1, s.len() as int);
        assert(forall|j: int| 0 <= j < i - 1 ==> t[j] == s[j + 1] && t[j] != c);
        assert(i - 1 < t.len() ==> t[i - 1] == c);
        lemma_first_at_is(t, c, i - 1);
    }
}

/// A digit string of length `n` names a value below ten to the `n`.
pub proof fn lemma_digits_val_bound(s: Seq<char>)
    requires
        all_digits(s),
    ensures
        0 <= digits_val(s) < pow10(s.len()),
    decreases s.len(),
{
    if s.len() > 0 {
        lemma_digits_val_bound(s.drop_last());
        assert(is_digit(s.last()));
    }
}

/// The body of a numeral: what follows the sign, if there is one.
pub open spec fn num_body(s: Seq<char>) -> Seq<char> {
    if s.len() > 0 && (s[0] == '-' || s[0] == '+') {
        s.subrange(1, s.len() as int)
    } else {
        s
    }
}

/// Whether the numeral is negative.
pub open spec fn num_neg(s: Seq<char>) -> bool {
    s.len() > 0 && s[0] == '-'
}

/// The integer-part digits of a numeral's body.
pub open spec fn int_digits(b: Seq<char>) -> Seq<char> {
    b.subrange(0, first_at(b, '.'))
}

/// The fraction digits of a numeral's body: empty when there is no point.
pub open spec fn frac_digits(b: Seq<char>) -> Seq<char> {
    if first_at(b, '.') < b.len() {
        b.subrange(first_at(b, '.') + 1, b.len() as int)
    } else {
        Seq::empty()
    }
}

/// Whether `s` is a well-formed numeral: sign, at most twelve integer
/// digits, at most one point, at most six fraction digits, at least one
/// digit in all. A second point cannot pass, since a point is no digit.
pub open spec fn num_wf(s: Seq<char>) -> bool {
    let b = num_body(s);
    let ip = int_digits(b);
    let fp = frac_digits(b);
    &&& all_digits(ip)
    &&& all_digits(fp)
    &&& ip.len() <= 12
    &&& fp.len() <= 6
    &&& ip.len() + fp.len() >= 1
}

/// The exact value of a well-formed numeral, in micro-units: the
/// fraction digits are read as if padded with zeros to six places.
pub open spec fn num_val(s: Seq<char>) -> int {
    let b = num_body(s);
    let mag = digits_val(int_digits(b)) * 1_000_000 + digits_val(frac_digits(b)) * pow10(
        (6 - frac_digits(b).len()) as nat,
    );
    if num_neg(s) {
        -mag
    } else {
        mag
    }
}

/// Fraction digits scaled to six places stay below one whole unit.
proof fn lemma_frac_scaled_bound(fp: Seq<char>)
    requires
        all_digits(fp),
        fp.len() <= 6,
    ensures
        0 <= digits_val(fp) * pow10((6 - fp.len()) as nat) < 1_000_000,
{
    lemma_digits_val_bound(fp);
    let k = (6 - fp.len()) as nat;
    lemma_pow10_pos(k);
    assert(digits_val(fp) * pow10(k) <= (pow10(fp.len()) - 1) * pow10(k)) by (nonlinear_arith)
        requires
            digits_val(fp) <= pow10(fp.len()) - 1,
            pow10(k) >= 1,
    ;
    assert(pow10(fp.len()) * pow10(k) == pow10((fp.len() + k) as nat)) by {
        lemma_pow10_adds(fp.len(), k);
    }
    assert((pow10(fp.len()) - 1) * pow10(k) == pow10(fp.len()) * pow10(k) - pow10(k))
        by (nonlinear_arith);
    lemma_pow10_vals();
    assert(digits_val(fp) * pow10(k) >= 0) by (nonlinear_arith)
        requires
            digits_val(fp) >= 0,
            pow10(k) >= 1,
    ;
}

/// The concrete powers of ten the parser works with.
pub proof fn lemma_pow10_vals()
    ensures
        pow10(6nat) == 1_000_000,
        pow10(11nat) == 100_000_000_000,
        pow10(12nat) == 1_000_000_000_000,
{
    reveal_with_fuel(pow10, 13);
}

/// Ten to the `k` is positive.
pub proof fn lemma_pow10_pos(k: nat)
    ensures
        pow10(k) >= 1,
    decreases k,
{
    if k > 0 {
        lemma_pow10_pos((k - 1) as nat);
    }
}

/// Ten to the `k` grows with `k`.
pub proof fn lemma_pow10_mono(a: nat, b: nat)
    requires
        a <= b,
    ensures
        pow10(a) <= pow10(b),
    decreases b,
{
    if a < b {
        lemma_pow10_mono(a, (b - 1) as nat);
        lemma_pow10_pos((b - 1) as nat);
    }
}

/// Powers of ten multiply by adding exponents.
pub proof fn lemma_pow10_adds(a: nat, b: nat)
    ensures
        pow10(a) * pow10(b) == pow10(a + b),
    decreases a,
{
    if a == 0 {
    } else {
        lemma_pow10_adds((a - 1) as nat, b);
        assert(10 * pow10((a - 1) as nat) * pow10(b) == 10 * (pow10((a - 1) as nat) * pow10(b)))
            by (nonlinear_arith);
    }
}

/// The index of the first occurrence of `c` in `s` at or after `from`,
/// or the length of `s` if there is none.
pub fn find_char(s: &str, from: usize, c: char) -> (r: usize)
    requires
        from <= s@.len(),
    ensures
        from <= r <= s@.len(),
        forall|j: int| from <= j < r ==> s@[j] != c,
        r < s@.len() ==> s@[r as int] == c,
{
    let n = s.unicode_len();
    let mut i = from;
    while i < n
        invariant
            from <= i <= n,
            n == s@.len(),
            forall|j: int| from <= j < i ==> s@[j] != c,
        decreases n - i,
    {
        if s.get_char(i) == c {
            return i;
        }
        i += 1;
    }
    n
}

/// Reads the digit string `s@[from..to]` in base ten.
fn scan_digits(s: &str, from: usize, to: usize) -> (r: Option<u64>)
    requires
        from <= to <= s@.len(),
        to - from <= 12,
    ensures
        all_digits(s@.subrange(from as int, to as int)) ==> r == Some(
            digits_val(s@.subrange(from as int, to as int)) as u64,
        ),
        !all_digits(s@.subrange(from as int, to as int)) ==> r is None,
{
    let ghost whole = s@.subrange(from as int, to as int);
    let mut acc: u64 = 0;
    let mut i = from;
    while i < to
        invariant
            from <= i <= to <= s@.len(),
            to - from <= 12,
            whole == s@.subrange(from as int, to as int),
            all_digits(s@.subrange(from as int, i as int)),
            acc == digits_val(s@.subrange(from as int, i as int)),
            0 <= acc < pow10((i - from) as nat),
        decreases to - i,
    {
        let c = s.get_char(i);
        let u = c as u32;
        if u < 48 || u > 57 {
            proof {
                assert(whole[i - from] == c);
            }
            return None;
        }
        proof {
            lemma_pow10_mono((i - from) as nat, 11);
            lemma_pow10_vals();
            assert(s@.subrange(from as int, i + 1).drop_last() =~= s@.subrange(
                from as int,
                i as int,
            ));
            assert(s@.subrange(from as int, i + 1).last() == c);
        }
        acc = acc * 10 + (u - 48) as u64;
        i += 1;
    }
    proof {
        assert(s@.subrange(from as int, i as int) =~= whole);
    }
    Some(acc)
}

/// Ten to the `k`, for small `k`.
fn pow10_u64(k: usize) -> (r: u64)
    requires
        k <= 6,
    ensures
        r == pow10(k as nat),
{
    let mut r: u64 = 1;
    let mut i: usize = 0;
    while i < k
        invariant
            i <= k <= 6,
            r == pow10(i as nat),
            r <= 1_000_000,
        decreases k - i,
    {
        proof {
            lemma_pow10_mono((i + 1) as nat, 6);
            lemma_pow10_vals();
        }
        r = r * 10;
        i += 1;
    }
    r
}

/// Reads one numeral field exactly into micro-units, or reports that it
/// is malformed.
pub fn parse_number(s: &str) -> (r: Option<i64>)
    ensures
        num_wf(s@) ==> r == Some(num_val(s@) as i64),
        !num_wf(s@) ==> r is None,
{
    let n = s.unicode_len();
    let mut start: usize = 0;
    let mut neg = false;
    if n > 0 {
        let c0 = s.get_char(0);
        if c0 == '-' {
            neg = true;
            start = 1;
        } else if c0 == '+' {
            start = 1;
        }
    }
    let ghost b = num_body(s@);
    proof {
        assert(b =~= s@.subrange(start as int, n as int));
        assert(neg == num_neg(s@));
    }
    let dot = find_char(s, start, '.');
    proof {
        assert(forall|j: int| 0 <= j < dot - start ==> b[j] == s@[j + start] && b[j] != '.');
        assert(dot < n ==> b[dot - start] == '.');
        lemma_first_at_is(b, '.', dot - start);
    }
    let ilen = dot - start;
    let flen = if dot < n {
        n - dot - 1
    } else {
        0
    };
    proof {
        assert(int_digits(b) =~= s@.subrange(start as int, dot as int));
        if dot < n {
            assert(frac_digits(b) =~= s@.subrange(dot + 1, n as int));
        } else {
            assert(frac_digits(b) =~= Seq::<char>::empty());
        }
    }
    if ilen > 12 || flen > 6 || ilen + flen == 0 {
        return None;
    }
    let iv = match scan_digits(s, start, dot) {
        Some(v) => v,
        None => {
            return None;
        },
    };
    let fv = match if dot < n {
        scan_digits(s, dot + 1, n)
    } else {
        Some(0u64)
    } {
        Some(v) => v,
        None => {
            return None;
        },
    };
    proof {
        lemma_digits_val_bound(int_digits(b));
        lemma_digits_val_bound(frac_digits(b));
        lemma_pow10_vals();
        lemma_pow10_mono(int_digits(b).len(), 12);
        lemma_pow10_mono(frac_digits(b).len(), 6);
        lemma_frac_scaled_bound(frac_digits(b));
    }
    let pw = pow10_u64(6 - flen);
    proof {
        assert(iv == digits_val(int_digits(b)));
        assert(fv == digits_val(frac_digits(b)));
        assert(flen == frac_digits(b).len());
        assert((fv as int) * (pw as int) < 1_000_000);
    }
    let scaled_frac = fv * pw;
    let mag: u64 = iv * 1_000_000 + scaled_frac;
    proof {
        assert(mag == digits_val(int_digits(b)) * 1_000_000 + digits_val(frac_digits(b)) * pow10(
            (6 - frac_digits(b).len()) as nat,
        ));
    }
    if neg {
        Some(-(mag as i64))
    } else {
        Some(mag as i64)
    }
}

} // verus!
