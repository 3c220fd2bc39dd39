use vstd::prelude::*;

verus! {

/// Fixed-point scale of a parsed quantity: 10^9 units of it make one.
pub const SCALE: u64 = 1_000_000_000;

/// Most digits a quantity may carry after its decimal point.
pub const MAX_FRACTION_DIGITS: usize = 9;

pub open spec fn is_digit(c: char) -> bool {
    '0' <= c && c <= '9'
}

pub open spec fn digit_value(c: char) -> nat {
    (c as int - '0' as int) as nat
}

pub open spec fn all_digits(s: Seq<char>) -> bool {
    forall|i: int| 0 <= i < s.len() ==> is_digit(#[trigger] s[i])
}

/// The number that a run of decimal digits spells.
pub open spec fn digits_value(s: Seq<char>) -> nat
    decreases s.len(),
{
    if s.len() == 0 {
        0
    } else {
        digits_value(s.drop_last()) * 10 + digit_value(s.last())
    }
}

pub open spec fn pow10(n: nat) -> nat
    decreases n,
{
    if n == 0 {
        1
    } else {
        10 * pow10((n - 1) as nat)
    }
}

/// `s` is `digits '.' digits`, with at least one digit before the point and
/// at most nine after it, the point standing at `i`.
pub open spec fn point_at(s: Seq<char>, i: int) -> bool {
    &&& 0 < i < s.len()
    &&& s[i] == '.'
    &&& all_digits(s.take(i))
    &&& all_digits(s.skip(i + 1))
    &&& s.len() - i - 1 <= MAX_FRACTION_DIGITS
}

/// The value in billionths that a decimal text spells, before any range check.
pub open spec fn decimal_nanos(s: Seq<char>) -> Option<nat> {
    if s.len() > 0 && all_digits(s) {
        Some((digits_value(s) * SCALE) as nat)
    } else if exists|i: int| point_at(s, i) {
        let i = choose|i: int| point_at(s, i);
        let frac = s.skip(i + 1);
        Some(
            (digits_value(s.take(i)) * SCALE + digits_value(frac) * pow10(
                (MAX_FRACTION_DIGITS - frac.len()) as nat,
            )) as nat,
        )
    } else {
        None
    }
}

/// The quantity, in billionths, that a text field holds: a non-negative
/// decimal whose value in billionths fits in a `u64`.
pub open spec fn amount_of(s: Seq<char>) -> Option<nat> {
    match decimal_nanos(s) {
        Some(v) => if v <= u64::MAX {
            Some(v)
        } else {
            None
        },
        None => None,
    }
}

proof fn lemma_digits_grow(s: Seq<char>, i: int, j: int)
    requires
        0 <= i <= j <= s.len(),
    ensures
        digits_value(s.take(i)) <= digits_value(s.take(j)),
    decreases j - i,
{
    if i < j {
        lemma_digits_grow(s, i, j - 1);
        assert(s.take(j).drop_last() =~= s.take(j - 1));
    }
}

proof fn lemma_digits_bound(s: Seq<char>)
    requires
        all_digits(s),
    ensures
        digits_value(s) < pow10(s.len()),
    decreases s.len(),
{
    if s.len() > 0 {
        let p = s.drop_last();
        assert(all_digits(p)) by {
            assert forall|i: int| 0 <= i < p.len() implies is_digit(#[trigger] p[i]) by {
                assert(p[i] == s[i]);
            }
        }
        lemma_digits_bound(p);
        assert(is_digit(s[s.len() - 1]));
    }
}

/// Where a prefix is all digits and a non-digit follows it, a decimal point
/// can stand only right after that prefix.
proof fn lemma_point_place(s: Seq<char>, i: int, k: int)
    requires
        0 <= i <= s.len(),
        all_digits(s.take(i)),
        point_at(s, k),
    ensures
        k >= i,
        i < s.len() && !is_digit(s[i]) ==> k == i,
{
    if k < i {
        assert(s.take(i)[k] == s[k]);
    }
    if i < s.len() && !is_digit(s[i]) && k > i {
        assert(s.take(k)[i] == s[i]);
    }
}

/// Largest whole part whose value in billionths fits in a `u64`.
pub const WHOLE_LIMIT: u64 = 18_446_744_073;

/// Reads a quantity from its decimal text, in billionths; `None` when the
/// text is not a decimal number or its value does not fit.
pub fn parse_amount(s: &str) -> (r: Option<u64>)
    ensures
        match r {
            Some(v) => amount_of(s@) == Some(v as nat),
            None => amount_of(s@) is None,
        },
{
    let ghost t = s@;
    let n = s.unicode_len();
    let mut i: usize = 0;
    let mut whole: u64 = 0;
    while i < n
        invariant
            n == t.len(),
            t == s@,
            i <= n,
            all_digits(t.take(i as int)),
            whole as nat == digits_value(t.take(i as int)),
            whole <= WHOLE_LIMIT,
        ensures
            i <= n,
            all_digits(t.take(i as int)),
            whole as nat == digits_value(t.take(i as int)),
            whole <= WHOLE_LIMIT,
            i < n ==> !is_digit(t[i as int]),
        decreases n - i,
    {
        let c = s.get_char(i);
        if !('0' <= c && c <= '9') {
            break;
        }
        assert(t.take(i + 1).drop_last() =~= t.take(i as int));
        let d = (c as u32 - '0' as u32) as u64;
        let next = whole * 10 + d;
        proof {
            assert(all_digits(t.take(i + 1))) by {
                assert forall|j: int| 0 <= j < i + 1 implies is_digit(#[trigger] t.take(i + 1)[j]) by {
                    if j < i {
                        assert(t.take(i + 1)[j] == t.take(i as int)[j]);
                    }
                }
            }
        }
        if next > WHOLE_LIMIT {
            proof {
                lemma_whole_too_large(t, (i + 1) as int);
            }
            return None;
        }
        whole = next;
        i = i + 1;
    }
    assert(whole as nat * SCALE <= u64::MAX) by (nonlinear_arith)
        requires whole <= WHOLE_LIMIT;
    if i == n {
        if n == 0 {
            return None;
        }
        assert(t.take(n as int) =~= t);
        return Some(whole * SCALE);
    }
    let c = s.get_char(i);
    if c != '.' || i == 0 {
        proof {
            if exists|k: int| point_at(t, k) {
                let k = choose|k: int| point_at(t, k);
                lemma_point_place(t, i as int, k);
            }
            assert(!is_digit(t[i as int]) || !all_digits(t));
            assert(!all_digits(t));
        }
        return None;
    }
    let first = i + 1;
    let mut j: usize = first;
    let mut frac: u64 = 0;
    while j < n
        invariant
            n == t.len(),
            t == s@,
            first <= j <= n,
            first == i + 1,
            0 < i < n,
            t[i as int] == '.',
            all_digits(t.take(i as int)),
            j - first <= MAX_FRACTION_DIGITS,
            all_digits(t.subrange(first as int, j as int)),
            frac as nat == digits_value(t.subrange(first as int, j as int)),
            (frac as nat) < pow10((j - first) as nat),
        decreases n - j,
    {
        let c = s.get_char(j);
        if !('0' <= c && c <= '9') || j - first == MAX_FRACTION_DIGITS {
            proof {
                lemma_bad_fraction(t, i as int, j as int);
            }
            return None;
        }
        let ghost part = t.subrange(first as int, j + 1);
        assert(part.drop_last() =~= t.subrange(first as int, j as int));
        let d = (c as u32 - '0' as u32) as u64;
        proof {
            assert(all_digits(part)) by {
                assert forall|m: int| 0 <= m < part.len() implies is_digit(#[trigger] part[m]) by {
                    if m < part.len() - 1 {
                        assert(part[m] == t.subrange(first as int, j as int)[m]);
                    }
                }
            }
            lemma_digits_bound(part);
            lemma_pow_mono((j - first) as nat, 8);
            reveal_with_fuel(pow10, 10);
            assert(pow10((j + 1 - first) as nat) == 10 * pow10((j - first) as nat));
        }
        frac = frac * 10 + d;
        j = j + 1;
    }
    let ghost fpart = t.subrange(first as int, n as int);
    assert(fpart =~= t.skip(first as int));
    assert(point_at(t, i as int));
    proof {
        let k = choose|k: int| point_at(t, k);
        lemma_point_place(t, i as int, k);
        assert(!is_digit(t[i as int]));
        assert(!all_digits(t));
    }
    assert(pow10(0) == 1);
    assert(frac as nat * 1 == frac as nat);
    let mut k: usize = n - first;
    let mut scaled: u64 = frac;
    while k < MAX_FRACTION_DIGITS
        invariant
            n - first <= k <= MAX_FRACTION_DIGITS,
            scaled as nat == frac as nat * pow10((k - (n - first)) as nat),
            (scaled as nat) < pow10(k as nat),
        decreases MAX_FRACTION_DIGITS - k,
    {
        proof {
            assert(pow10((k + 1 - (n - first)) as nat) == 10 * pow10((k - (n - first)) as nat));
            assert(pow10((k + 1) as nat) == 10 * pow10(k as nat));
            reveal_with_fuel(pow10, 10);
            assert(pow10(9) == 1_000_000_000);
            lemma_pow_mono(k as nat, 9);
            assert(frac as nat * (10 * pow10((k - (n - first)) as nat)) == 10 * (frac as nat
                * pow10((k - (n - first)) as nat))) by (nonlinear_arith);
        }
        scaled = scaled * 10;
        k = k + 1;
    }
    assert(whole as nat == digits_value(t.take(i as int)));
    let base = whole * SCALE;
    match base.checked_add(scaled) {
        Some(v) => Some(v),
        None => None,
    }
}

proof fn lemma_bad_fraction(t: Seq<char>, i: int, j: int)
    requires
        0 < i < j < t.len(),
        t[i] == '.',
        all_digits(t.take(i)),
        all_digits(t.subrange(i + 1, j)),
        !is_digit(t[j]) || j - i - 1 == MAX_FRACTION_DIGITS,
    ensures
        amount_of(t) is None,
{
    if exists|k: int| point_at(t, k) {
        let k = choose|k: int| point_at(t, k);
        lemma_point_place(t, i, k);
        assert(!is_digit(t[i]));
        let tail = t.skip(i + 1);
        assert(tail[j - i - 1] == t[j]);
    }
    assert(!is_digit(t[i]));
    assert(!all_digits(t));
}

proof fn lemma_pow_mono(a: nat, b: nat)
    requires
        a <= b,
    ensures
        pow10(a) <= pow10(b),
    decreases b,
{
    if a < b {
        lemma_pow_mono(a, (b - 1) as nat);
    }
}

proof fn lemma_whole_too_large(t: Seq<char>, i: int)
    requires
        0 < i <= t.len(),
        all_digits(t.take(i)),
        digits_value(t.take(i)) > WHOLE_LIMIT,
    ensures
        amount_of(t) is None,
{
    if t.len() > 0 && all_digits(t) {
        lemma_digits_grow(t, i, t.len() as int);
        assert(t.take(t.len() as int) =~= t);
        assert(digits_value(t) * SCALE > u64::MAX) by (nonlinear_arith)
            requires digits_value(t) > WHOLE_LIMIT;
    } else if exists|k: int| point_at(t, k) {
        let k = choose|k: int| point_at(t, k);
        lemma_point_place(t, i, k);
        lemma_digits_grow(t, i, k);
        let w = digits_value(t.take(k));
        let f = digits_value(t.skip(k + 1)) * pow10((MAX_FRACTION_DIGITS - t.skip(k + 1).len()) as nat);
        assert(w * SCALE + f > u64::MAX) by (nonlinear_arith)
            requires w > WHOLE_LIMIT, f >= 0;
    }
}

} // verus!
