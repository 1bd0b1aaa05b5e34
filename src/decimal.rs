//! Decimal text such as `"123.4500"` read as a fixed-point integer: with `scale`
//! digits after the point, `"1.5"` at scale 2 is 150 ticks. Fraction digits beyond
//! the scale are dropped.
use vstd::prelude::*;

verus! {

pub open spec fn is_digit(b: u8) -> bool {
    48 <= b <= 57
}

pub open spec fn digit_of(b: u8) -> int {
    b - 48
}

pub open spec fn all_digits(s: Seq<u8>) -> bool {
    forall|i: int| 0 <= i < s.len() ==> is_digit(#[trigger] s[i])
}

/// Value of a run of decimal digits.
pub open spec fn digits_value(s: Seq<u8>) -> int
    decreases s.len(),
{
    if s.len() == 0 {
        0
    } else {
        10 * digits_value(s.drop_last()) + digit_of(s.last())
    }
}

pub open spec fn pow10(k: nat) -> int
    decreases k,
{
    if k == 0 {
        1
    } else {
        10 * pow10((k - 1) as nat)
    }
}

/// The first `scale` digits of `f` as an integer, a missing digit counting as 0.
pub open spec fn frac_value(f: Seq<u8>, scale: nat) -> int
    decreases scale,
{
    if scale == 0 {
        0
    } else {
        10 * frac_value(f, (scale - 1) as nat) + if scale - 1 < f.len() {
            digit_of(f[scale - 1])
        } else {
            0
        }
    }
}

/// End of the run of digits that starts at `i`.
pub open spec fn digit_run(s: Seq<u8>, i: int) -> int
    decreases s.len() - i,
{
    if 0 <= i < s.len() && is_digit(s[i]) {
        digit_run(s, i + 1)
    } else {
        i
    }
}

/// Ticks of the decimal text `s`: one or more digits, optionally followed by a point
/// and zero or more digits. `None` for any other text.
pub open spec fn decimal_ticks(s: Seq<u8>, scale: nat) -> Option<int> {
    let k = digit_run(s, 0);
    if k == 0 {
        None
    } else if k == s.len() {
        Some(digits_value(s) * pow10(scale))
    } else if s[k] == 46 && all_digits(s.subrange(k + 1, s.len() as int)) {
        Some(digits_value(s.subrange(0, k)) * pow10(scale) + frac_value(
            s.subrange(k + 1, s.len() as int),
            scale,
        ))
    } else {
        None
    }
}

proof fn lemma_digit_run(s: Seq<u8>, i: int)
    requires
        0 <= i <= s.len(),
    ensures
        i <= digit_run(s, i) <= s.len(),
        forall|j: int| i <= j < digit_run(s, i) ==> is_digit(#[trigger] s[j]),
        digit_run(s, i) < s.len() ==> !is_digit(s[digit_run(s, i)]),
    decreases s.len() - i,
{
    if i < s.len() && is_digit(s[i]) {
        lemma_digit_run(s, i + 1);
    }
}

proof fn lemma_digits_nonneg(s: Seq<u8>)
    requires
        all_digits(s),
    ensures
        digits_value(s) >= 0,
    decreases s.len(),
{
    if s.len() > 0 {
        assert(all_digits(s.drop_last())) by {
            assert forall|i: int| 0 <= i < s.drop_last().len() implies is_digit(
                #[trigger] s.drop_last()[i],
            ) by {
                assert(s.drop_last()[i] == s[i]);
            }
        }
        lemma_digits_nonneg(s.drop_last());
        assert(is_digit(s[s.len() - 1]));
    }
}

proof fn lemma_frac_bounds(f: Seq<u8>, scale: nat)
    requires
        all_digits(f),
    ensures
        0 <= frac_value(f, scale) < pow10(scale),
    decreases scale,
{
    if scale > 0 {
        lemma_frac_bounds(f, (scale - 1) as nat);
        if scale - 1 < f.len() {
            assert(is_digit(f[scale - 1]));
        }
    }
}

/// Value of the digits `s[lo..hi)`, `None` when it exceeds `u64::MAX`.
fn read_digits(s: &[u8], lo: usize, hi: usize) -> (r: Option<u64>)
    requires
        lo <= hi <= s@.len(),
        all_digits(s@.subrange(lo as int, hi as int)),
    ensures
        r.is_some() == (digits_value(s@.subrange(lo as int, hi as int)) <= u64::MAX),
        r.is_some() ==> r.unwrap() == digits_value(s@.subrange(lo as int, hi as int)),
{
    let mut acc: u64 = 0;
    let mut i: usize = lo;
    while i < hi
        invariant
            lo <= i <= hi <= s@.len(),
            all_digits(s@.subrange(lo as int, hi as int)),
            acc == digits_value(s@.subrange(lo as int, i as int)),
        decreases hi - i,
    {
        let b = s[i];
        proof {
            assert(s@.subrange(lo as int, i + 1).drop_last() =~= s@.subrange(lo as int, i as int));
            assert(s@.subrange(lo as int, hi as int)[i - lo] == b);
            assert(is_digit(b));
        }
        let d = (b - 48) as u64;
        if acc > (u64::MAX - d) / 10 {
            proof {
                lemma_digits_grow(s@, lo as int, i + 1, hi as int);
            }
            return None;
        }
        acc = acc * 10 + d;
        i = i + 1;
    }
    Some(acc)
}

/// More digits never make the value smaller.
proof fn lemma_digits_grow(s: Seq<u8>, lo: int, i: int, j: int)
    requires
        0 <= lo <= i <= j <= s.len(),
        all_digits(s.subrange(lo, j)),
    ensures
        digits_value(s.subrange(lo, i)) <= digits_value(s.subrange(lo, j)),
    decreases j - i,
{
    if i < j {
        lemma_digits_grow(s, lo, i, j - 1);
        assert(s.subrange(lo, j).drop_last() =~= s.subrange(lo, j - 1));
        assert(all_digits(s.subrange(lo, j - 1))) by {
            assert forall|k: int| 0 <= k < s.subrange(lo, j - 1).len() implies is_digit(
                #[trigger] s.subrange(lo, j - 1)[k],
            ) by {
                assert(s.subrange(lo, j - 1)[k] == s.subrange(lo, j)[k]);
            }
        }
        lemma_digits_nonneg(s.subrange(lo, j - 1));
        assert(is_digit(s.subrange(lo, j)[j - 1 - lo]));
    }
}

/// Reads decimal text as ticks with `scale` digits after the point; `None` when the
/// text is not a decimal or the value exceeds `u64::MAX`.
pub fn parse_ticks(text: &[u8], scale: usize) -> (r: Option<u64>)
    requires
        scale <= 18,
    ensures
        r.is_some() == (decimal_ticks(text@, scale as nat).is_some() && decimal_ticks(
            text@,
            scale as nat,
        ).unwrap() <= u64::MAX),
        r.is_some() ==> r.unwrap() == decimal_ticks(text@, scale as nat).unwrap(),
{
    let len = text.len();
    let mut k: usize = 0;
    while k < len && 48 <= text[k] && text[k] <= 57
        invariant
            k <= len == text@.len(),
            digit_run(text@, 0) == digit_run(text@, k as int),
        decreases len - k,
    {
        k = k + 1;
    }
    proof {
        lemma_digit_run(text@, 0);
        assert(all_digits(text@.subrange(0, k as int))) by {
            assert forall|j: int| 0 <= j < k implies is_digit(#[trigger] text@.subrange(0, k as int)[j]) by {
                assert(text@.subrange(0, k as int)[j] == text@[j]);
            }
        }
    }
    if k == 0 {
        return None;
    }
    let mut p: u64 = 1;
    let mut e: usize = 0;
    while e < scale
        invariant
            e <= scale <= 18,
            p == pow10(e as nat),
            p <= 1_000_000_000_000_000_000,
        decreases scale - e,
    {
        proof {
            assert(pow10((e + 1) as nat) == 10 * pow10(e as nat));
            assert(e + 1 <= 18);
            lemma_pow10_bound((e + 1) as nat);
        }
        p = p * 10;
        e = e + 1;
    }
    proof {
        assert(digit_run(text@, k as int) == k);
        lemma_pow10_bound(scale as nat);
    }
    let int_part = match read_digits(text, 0, k) {
        Some(v) => v,
        None => {
            proof {
                if decimal_ticks(text@, scale as nat).is_some() {
                    lemma_ticks_at_least(text@, scale as nat);
                }
            }
            return None;
        },
    };
    let mut frac: u64 = 0;
    if k < len {
        if text[k] != 46 {
            return None;
        }
        let mut j: usize = k + 1;
        while j < len
            invariant
                k + 1 <= j <= len == text@.len(),
                0 < k,
                digit_run(text@, 0) == k,
                text@[k as int] == 46,
                forall|m: int| k + 1 <= m < j ==> is_digit(#[trigger] text@[m]),
            decreases len - j,
        {
            if text[j] < 48 || text[j] > 57 {
                proof {
                    let f = text@.subrange(k + 1, len as int);
                    assert(f[j - k - 1] == text@[j as int]);
                    assert(!is_digit(f[j - k - 1]));
                    assert(!all_digits(f));
                    assert(decimal_ticks(text@, scale as nat).is_none());
                }
                return None;
            }
            j = j + 1;
        }
        let ghost f = text@.subrange(k + 1, len as int);
        proof {
            assert forall|m: int| 0 <= m < f.len() implies is_digit(#[trigger] f[m]) by {
                assert(f[m] == text@[k + 1 + m]);
            }
        }
        let mut t: usize = 0;
        while t < scale
            invariant
                t <= scale <= 18,
                k < len == text@.len(),
                0 < k,
                digit_run(text@, 0) == k,
                text@[k as int] == 46,
                int_part == digits_value(text@.subrange(0, k as int)),
                p == pow10(scale as nat),
                p <= 1_000_000_000_000_000_000,
                f == text@.subrange(k + 1, len as int),
                all_digits(f),
                frac == frac_value(f, t as nat),
                frac < pow10(t as nat),
            decreases scale - t,
        {
            let d: u64 = if t < len - k - 1 {
                proof {
                    assert(f[t as int] == text@[k + 1 + t]);
                    assert(is_digit(f[t as int]));
                }
                (text[k + 1 + t] - 48) as u64
            } else {
                0
            };
            proof {
                lemma_pow10_bound((t + 1) as nat);
                assert(pow10((t + 1) as nat) == 10 * pow10(t as nat));
            }
            frac = frac * 10 + d;
            t = t + 1;
        }
    } else {
        proof {
            assert(text@.subrange(0, k as int) =~= text@);
        }
    }
    proof {
        assert(int_part * p <= 0xffff_ffff_ffff_ffff * 1_000_000_000_000_000_000) by (
        nonlinear_arith)
            requires
                int_part <= 0xffff_ffff_ffff_ffff,
                p <= 1_000_000_000_000_000_000,
        ;
    }
    let total: u128 = (int_part as u128) * (p as u128) + frac as u128;
    if total > u64::MAX as u128 {
        None
    } else {
        Some(total as u64)
    }
}

proof fn lemma_pow10_bound(k: nat)
    requires
        k <= 18,
    ensures
        1 <= pow10(k) <= 1_000_000_000_000_000_000,
{
    lemma_pow10_mono(k, 18);
    lemma_pow10_mono(0, k);
    reveal_with_fuel(pow10, 19);
    assert(pow10(18) == 1_000_000_000_000_000_000);
}

proof fn lemma_pow10_mono(k: nat, m: nat)
    requires
        k <= m,
    ensures
        1 <= pow10(k) <= pow10(m),
    decreases m,
{
    if m > k {
        lemma_pow10_mono(k, (m - 1) as nat);
    } else if k > 0 {
        lemma_pow10_mono((k - 1) as nat, (k - 1) as nat);
    }
}

/// A decimal is worth at least its integer digits.
proof fn lemma_ticks_at_least(s: Seq<u8>, scale: nat)
    requires
        scale <= 18,
        decimal_ticks(s, scale).is_some(),
    ensures
        decimal_ticks(s, scale).unwrap() >= digits_value(s.subrange(0, digit_run(s, 0))),
{
    lemma_digit_run(s, 0);
    lemma_pow10_bound(scale);
    let k = digit_run(s, 0);
    let iv = digits_value(s.subrange(0, k));
    assert(all_digits(s.subrange(0, k))) by {
        assert forall|j: int| 0 <= j < k implies is_digit(#[trigger] s.subrange(0, k)[j]) by {
            assert(s.subrange(0, k)[j] == s[j]);
        }
    }
    lemma_digits_nonneg(s.subrange(0, k));
    assert(iv * pow10(scale) >= iv) by (nonlinear_arith)
        requires
            iv >= 0,
            pow10(scale) >= 1,
    ;
    if k == s.len() {
        assert(s.subrange(0, k) =~= s);
    } else {
        lemma_frac_bounds(s.subrange(k + 1, s.len() as int), scale);
    }
}

} // verus!

verus! {

/// Reads decimal text as ticks (see `parse_ticks`), from its UTF-8 bytes.
pub fn parse_decimal(text: &str, scale: usize) -> (r: Option<u64>)
    requires
        scale <= 18,
    ensures
        r.is_some() == (decimal_ticks(vstd::utf8::encode_utf8(text@), scale as nat).is_some()
            && decimal_ticks(vstd::utf8::encode_utf8(text@), scale as nat).unwrap() <= u64::MAX),
        r.is_some() ==> r.unwrap() == decimal_ticks(
            vstd::utf8::encode_utf8(text@),
            scale as nat,
        ).unwrap(),
{
    parse_ticks(text.as_bytes(), scale)
}

impl crate::config::OpenInterest {
    /// The open interest in ticks of `scale` decimals; 0 when the text does not read.
    pub fn open_interest_ticks(&self, scale: usize) -> (r: u64)
        requires
            scale <= 18,
        ensures
            ({
                let v = decimal_ticks(vstd::utf8::encode_utf8(self.open_interest@), scale as nat);
                r == if v.is_some() && v.unwrap() <= u64::MAX {
                    v.unwrap()
                } else {
                    0
                }
            }),
    {
        match parse_decimal(self.open_interest.as_str(), scale) {
            Some(v) => v,
            None => 0,
        }
    }
}

impl crate::config::OpenInterestHist {
    /// The summed open interest in ticks of `scale` decimals; 0 when the text does not read.
    pub fn sum_open_interest_ticks(&self, scale: usize) -> (r: u64)
        requires
            scale <= 18,
        ensures
            ({
                let v = decimal_ticks(
                    vstd::utf8::encode_utf8(self.sum_open_interest@),
                    scale as nat,
                );
                r == if v.is_some() && v.unwrap() <= u64::MAX {
                    v.unwrap()
                } else {
                    0
                }
            }),
    {
        match parse_decimal(self.sum_open_interest.as_str(), scale) {
            Some(v) => v,
            None => 0,
        }
    }
}

} // verus!
