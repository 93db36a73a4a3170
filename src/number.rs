//! Recognizing the textual forms of option values: decimal integers (signed or
//! unsigned, with the range of the target type) and decimal floating-point
//! literals.

use vstd::prelude::*;

verus! {

pub open spec fn is_digit(c: char) -> bool {
    '0' <= c <= '9'
}

/// Every character of `s` is a decimal digit (`s` may be empty).
pub open spec fn digits_only(s: Seq<char>) -> bool {
    forall|i: int| 0 <= i < s.len() ==> is_digit(#[trigger] s[i])
}

/// The value of a decimal digit.
pub open spec fn digit_value(c: char) -> int {
    c as int - '0' as int
}

/// The value of a string of decimal digits.
pub open spec fn digits_value(s: Seq<char>) -> int
    decreases s.len(),
{
    if s.len() == 0 {
        0
    } else {
        digits_value(s.drop_last()) * 10 + digit_value(s.last())
    }
}

/// The integer written by `s`: an optional sign (`-` only when `signed`)
/// followed by one or more decimal digits.
pub open spec fn integer_text_value(s: Seq<char>, signed: bool) -> Option<int> {
    if s.len() > 0 && (s[0] == '+' || (signed && s[0] == '-')) {
        let d = s.skip(1);
        if d.len() > 0 && digits_only(d) {
            if s[0] == '-' {
                Some(-(digits_value(d)))
            } else {
                Some(digits_value(d))
            }
        } else {
            None
        }
    } else if s.len() > 0 && digits_only(s) {
        Some(digits_value(s) as int)
    } else {
        None
    }
}

/// The `isize` that `s` denotes, if it is a signed integer within range.
pub open spec fn isize_of(s: Seq<char>) -> Option<isize> {
    match integer_text_value(s, true) {
        Some(v) => if isize::MIN <= v <= isize::MAX {
            Some(v as isize)
        } else {
            None
        },
        None => None,
    }
}

/// The `usize` that `s` denotes, if it is an unsigned integer within range.
pub open spec fn usize_of(s: Seq<char>) -> Option<usize> {
    match integer_text_value(s, false) {
        Some(v) => if 0 <= v <= usize::MAX {
            Some(v as usize)
        } else {
            None
        },
        None => None,
    }
}

/// The number of decimal digits at the start of `s`.
pub open spec fn leading_digits(s: Seq<char>) -> nat
    decreases s.len(),
{
    if s.len() > 0 && is_digit(s[0]) {
        1 + leading_digits(s.skip(1))
    } else {
        0
    }
}

/// An exponent: `e` or `E`, an optional sign, and one or more digits.
pub open spec fn is_exponent(s: Seq<char>) -> bool {
    &&& s.len() >= 2
    &&& (s[0] == 'e' || s[0] == 'E')
    &&& {
        let t = if s[1] == '+' || s[1] == '-' {
            s.skip(2)
        } else {
            s.skip(1)
        };
        t.len() > 0 && digits_only(t)
    }
}

/// The length of the mantissa at the start of `s`: digits, optionally followed
/// by a point and more digits, with at least one digit in all; 0 if there is none.
pub open spec fn mantissa_len(s: Seq<char>) -> nat {
    let a = leading_digits(s);
    if a < s.len() && s[a as int] == '.' {
        let b = leading_digits(s.skip((a + 1) as int));
        if a + b > 0 {
            a + 1 + b
        } else {
            0
        }
    } else {
        a
    }
}

/// A mantissa, optionally followed by an exponent, and nothing else.
pub open spec fn is_decimal_number(s: Seq<char>) -> bool {
    let m = mantissa_len(s);
    m > 0 && (m == s.len() || is_exponent(s.skip(m as int)))
}

/// `s` spells the same word as `lower`, each character in the case of
/// `lower` or of `upper`.
pub open spec fn matches_either_case(s: Seq<char>, lower: Seq<char>, upper: Seq<char>) -> bool {
    &&& s.len() == lower.len()
    &&& s.len() == upper.len()
    &&& forall|i: int| 0 <= i < s.len() ==> #[trigger] s[i] == lower[i] || s[i] == upper[i]
}

/// A decimal floating-point literal: an optional sign, then `inf`, `infinity`
/// or `nan` in any case, or a decimal number.
pub open spec fn is_float_text(s: Seq<char>) -> bool {
    let body = if s.len() > 0 && (s[0] == '+' || s[0] == '-') {
        s.skip(1)
    } else {
        s
    };
    ||| matches_either_case(body, seq!['i', 'n', 'f'], seq!['I', 'N', 'F'])
    ||| matches_either_case(
        body,
        seq!['i', 'n', 'f', 'i', 'n', 'i', 't', 'y'],
        seq!['I', 'N', 'F', 'I', 'N', 'I', 'T', 'Y'],
    )
    ||| matches_either_case(body, seq!['n', 'a', 'n'], seq!['N', 'A', 'N'])
    ||| is_decimal_number(body)
}

proof fn lemma_digits_value_step(s: Seq<char>, i: int)
    requires
        0 <= i < s.len(),
    ensures
        digits_value(s.take(i + 1)) == digits_value(s.take(i)) * 10 + digit_value(s[i]),
{
    assert(s.take(i + 1).drop_last() =~= s.take(i));
}

proof fn lemma_digits_value_nonneg(s: Seq<char>)
    requires
        digits_only(s),
    ensures
        digits_value(s) >= 0,
    decreases s.len(),
{
    if s.len() > 0 {
        assert(digits_only(s.drop_last())) by {
            assert forall|k: int| 0 <= k < s.drop_last().len() implies is_digit(
                #[trigger] s.drop_last()[k],
            ) by {
                assert(s.drop_last()[k] == s[k]);
            }
        }
        lemma_digits_value_nonneg(s.drop_last());
        assert(is_digit(s[s.len() - 1]));
    }
}

proof fn lemma_digits_only_take(s: Seq<char>, i: int)
    requires
        0 <= i <= s.len(),
        digits_only(s),
    ensures
        digits_only(s.take(i)),
{
    assert forall|k: int| 0 <= k < s.take(i).len() implies is_digit(#[trigger] s.take(i)[k]) by {
        assert(s.take(i)[k] == s[k]);
    }
}

proof fn lemma_digits_value_monotone(s: Seq<char>, i: int)
    requires
        0 <= i <= s.len(),
        digits_only(s),
    ensures
        digits_value(s.take(i)) <= digits_value(s),
    decreases s.len() - i,
{
    if i < s.len() {
        lemma_digits_value_step(s, i);
        lemma_digits_only_take(s, i);
        lemma_digits_value_nonneg(s.take(i));
        assert(is_digit(s[i]));
        lemma_digits_value_monotone(s, i + 1);
    } else {
        assert(s.take(i) =~= s);
    }
}

/// Reads the digits of `s` from `start` on as a non-negative value (or, with
/// `negative`, its negation) into an `isize`; `None` if any character there is
/// not a digit or the value is out of range.
fn accumulate_isize(s: &str, start: usize, negative: bool) -> (r: Option<isize>)
    requires
        start <= s@.len(),
    ensures
        ({
            let d = s@.skip(start as int);
            let v = if negative { -(digits_value(d)) } else { digits_value(d) };
            r == if digits_only(d) && isize::MIN <= v <= isize::MAX {
                Some(v as isize)
            } else {
                None::<isize>
            }
        }),
{
    let n = s.unicode_len();
    let ghost d = s@.skip(start as int);
    let mut acc: isize = 0;
    let mut i: usize = start;
    while i < n
        invariant
            start <= i <= n,
            n == s@.len(),
            d == s@.skip(start as int),
            digits_only(d.take(i - start)),
            acc as int == if negative {
                -(digits_value(d.take(i - start)))
            } else {
                digits_value(d.take(i - start))
            },
        decreases n - i,
    {
        let c = s.get_char(i);
        proof {
            lemma_digits_value_step(d, i - start);
            assert(d[i - start] == c);
        }
        if !('0' <= c && c <= '9') {
            assert(!digits_only(d));
            return None;
        }
        let digit = (c as u32 - '0' as u32) as isize;
        let next = match acc.checked_mul(10) {
            Some(m) => if negative { m.checked_sub(digit) } else { m.checked_add(digit) },
            None => None,
        };
        match next {
            Some(v) => {
                acc = v;
            },
            None => {
                proof {
                    assert(digits_only(d.take(i - start + 1))) by {
                        assert forall|k: int| 0 <= k < d.take(i - start + 1).len() implies is_digit(
                            #[trigger] d.take(i - start + 1)[k],
                        ) by {
                            if k < i - start {
                                assert(d.take(i - start + 1)[k] == d.take(i - start)[k]);
                            }
                        }
                    }
                    lemma_digits_value_nonneg(d.take(i - start));
                    if digits_only(d) {
                        lemma_digits_value_monotone(d, i - start + 1);
                    }
                }
                return None;
            },
        }
        proof {
            assert forall|k: int| 0 <= k < d.take(i - start + 1).len() implies is_digit(
                #[trigger] d.take(i - start + 1)[k],
            ) by {
                if k < i - start {
                    assert(d.take(i - start + 1)[k] == d.take(i - start)[k]);
                }
            }
        }
        i = i + 1;
    }
    assert(d.take(i - start) =~= d);
    Some(acc)
}

/// Parses `s` as a decimal signed integer: an optional `+` or `-` and one or
/// more digits, within the range of `isize`.
pub fn parse_isize(s: &str) -> (r: Option<isize>)
    ensures
        r == isize_of(s@),
{
    let n = s.unicode_len();
    if n == 0 {
        return None;
    }
    let c = s.get_char(0);
    if c == '+' || c == '-' {
        if n == 1 {
            return None;
        }
        accumulate_isize(s, 1, c == '-')
    } else {
        assert(s@.skip(0) =~= s@);
        accumulate_isize(s, 0, false)
    }
}

fn accumulate_usize(s: &str, start: usize) -> (r: Option<usize>)
    requires
        start <= s@.len(),
    ensures
        ({
            let d = s@.skip(start as int);
            r == if digits_only(d) && digits_value(d) <= usize::MAX {
                Some(digits_value(d) as usize)
            } else {
                None::<usize>
            }
        }),
{
    let n = s.unicode_len();
    let ghost d = s@.skip(start as int);
    let mut acc: usize = 0;
    let mut i: usize = start;
    while i < n
        invariant
            start <= i <= n,
            n == s@.len(),
            d == s@.skip(start as int),
            digits_only(d.take(i - start)),
            acc as int == digits_value(d.take(i - start)),
        decreases n - i,
    {
        let c = s.get_char(i);
        proof {
            lemma_digits_value_step(d, i - start);
            assert(d[i - start] == c);
        }
        if !('0' <= c && c <= '9') {
            assert(!digits_only(d));
            return None;
        }
        let digit = (c as u32 - '0' as u32) as usize;
        proof {
            assert forall|k: int| 0 <= k < d.take(i - start + 1).len() implies is_digit(
                #[trigger] d.take(i - start + 1)[k],
            ) by {
                if k < i - start {
                    assert(d.take(i - start + 1)[k] == d.take(i - start)[k]);
                }
            }
        }
        let next = match acc.checked_mul(10) {
            Some(m) => m.checked_add(digit),
            None => None,
        };
        match next {
            Some(v) => {
                acc = v;
            },
            None => {
                proof {
                    if digits_only(d) {
                        lemma_digits_value_monotone(d, i - start + 1);
                    }
                }
                return None;
            },
        }
        i = i + 1;
    }
    assert(d.take(i - start) =~= d);
    Some(acc)
}

/// Parses `s` as a decimal unsigned integer: an optional `+` and one or more
/// digits, within the range of `usize`.
pub fn parse_usize(s: &str) -> (r: Option<usize>)
    ensures
        r == usize_of(s@),
{
    let n = s.unicode_len();
    if n == 0 {
        return None;
    }
    let c = s.get_char(0);
    if c == '+' {
        if n == 1 {
            return None;
        }
        proof {
            if digits_only(s@.skip(1)) {
                lemma_digits_value_nonneg(s@.skip(1));
            }
        }
        accumulate_usize(s, 1)
    } else {
        assert(s@.skip(0) =~= s@);
        proof {
            if digits_only(s@) {
                lemma_digits_value_nonneg(s@);
            }
        }
        accumulate_usize(s, 0)
    }
}

proof fn lemma_skip_skip(s: Seq<char>, i: int)
    requires
        0 <= i < s.len(),
    ensures
        s.skip(i).skip(1) == s.skip(i + 1),
        s.skip(i)[0] == s[i],
{
    assert(s.skip(i).skip(1) =~= s.skip(i + 1));
}

fn digit_at(s: &str, i: usize) -> (r: bool)
    requires
        i < s@.len(),
    ensures
        r == is_digit(s@[i as int]),
{
    let c = s.get_char(i);
    '0' <= c && c <= '9'
}

/// The number of decimal digits in `s` from `from` on.
fn count_digits(s: &str, from: usize) -> (k: usize)
    requires
        from <= s@.len(),
    ensures
        k == leading_digits(s@.skip(from as int)),
        from + k <= s@.len(),
{
    let n = s.unicode_len();
    let mut i: usize = from;
    while i < n && digit_at(s, i)
        invariant
            from <= i <= n,
            n == s@.len(),
            leading_digits(s@.skip(from as int)) == (i - from) + leading_digits(s@.skip(i as int)),
        decreases n - i,
    {
        proof {
            lemma_skip_skip(s@, i as int);
        }
        i = i + 1;
    }
    if i < n {
        proof {
            lemma_skip_skip(s@, i as int);
        }
    }
    i - from
}

/// Whether `s` from `from` on spells the word of `lower` and `upper`, each
/// character in either case.
fn matches_word(s: &str, from: usize, lower: &str, upper: &str) -> (r: bool)
    requires
        from <= s@.len(),
        lower@.len() == upper@.len(),
    ensures
        r == matches_either_case(s@.skip(from as int), lower@, upper@),
{
    let n = s.unicode_len();
    let len = lower.unicode_len();
    if n - from != len {
        return false;
    }
    let ghost t = s@.skip(from as int);
    let mut i: usize = 0;
    while i < len
        invariant
            i <= len,
            len == lower@.len(),
            len == upper@.len(),
            from + len == n,
            n == s@.len(),
            t == s@.skip(from as int),
            forall|k: int| 0 <= k < i ==> #[trigger] t[k] == lower@[k] || t[k] == upper@[k],
        decreases len - i,
    {
        let c = s.get_char(from + i);
        assert(t[i as int] == c);
        if c != lower.get_char(i) && c != upper.get_char(i) {
            return false;
        }
        i = i + 1;
    }
    true
}

/// Whether `s` from `from` on is a decimal number: a mantissa with at least
/// one digit and an optional point, optionally followed by an exponent.
fn decimal_number_from(s: &str, from: usize) -> (r: bool)
    requires
        from <= s@.len(),
    ensures
        r == is_decimal_number(s@.skip(from as int)),
{
    let ghost t = s@.skip(from as int);
    let n = s.unicode_len();
    let a = count_digits(s, from);
    let mut m: usize = a;
    if from + a < n && s.get_char(from + a) == '.' {
        proof {
            assert(t[a as int] == s@[from + a]);
            assert(t.skip(a + 1) =~= s@.skip(from + a + 1));
        }
        let b = count_digits(s, from + a + 1);
        if a + b == 0 {
            return false;
        }
        m = a + 1 + b;
    } else {
        if from + a < n {
            assert(t[a as int] == s@[from + a]);
        }
    }
    assert(m == mantissa_len(t));
    if m == 0 {
        return false;
    }
    let e = from + m;
    if e == n {
        return true;
    }
    proof {
        assert(t.skip(m as int) =~= s@.skip(e as int));
    }
    let ghost x = s@.skip(e as int);
    if n - e < 2 {
        return false;
    }
    let c0 = s.get_char(e);
    assert(x[0] == c0);
    if c0 != 'e' && c0 != 'E' {
        return false;
    }
    let c1 = s.get_char(e + 1);
    assert(x[1] == c1);
    let digits_from = if c1 == '+' || c1 == '-' { e + 2 } else { e + 1 };
    proof {
        assert(x.skip(digits_from - e) =~= s@.skip(digits_from as int));
    }
    if digits_from == n {
        return false;
    }
    let k = count_digits(s, digits_from);
    proof {
        let y = s@.skip(digits_from as int);
        lemma_leading_digits_all(y);
    }
    digits_from + k == n
}

proof fn lemma_leading_digits_all(s: Seq<char>)
    ensures
        leading_digits(s) <= s.len(),
        digits_only(s) <==> leading_digits(s) == s.len(),
    decreases s.len(),
{
    if s.len() > 0 {
        lemma_leading_digits_all(s.skip(1));
        if digits_only(s) {
            assert(is_digit(s[0]));
            assert(digits_only(s.skip(1))) by {
                assert forall|k: int| 0 <= k < s.skip(1).len() implies is_digit(#[trigger] s.skip(1)[k]) by {
                    assert(s.skip(1)[k] == s[k + 1]);
                }
            }
        }
        if leading_digits(s) == s.len() {
            assert(is_digit(s[0]));
            assert forall|k: int| 0 <= k < s.len() implies is_digit(#[trigger] s[k]) by {
                if k > 0 {
                    assert(s.skip(1)[k - 1] == s[k]);
                }
            }
        }
    }
}

/// Whether `s` is a decimal floating-point literal: an optional sign, then
/// `inf`, `infinity` or `nan` in any case, or a decimal number with an optional
/// exponent.
pub fn is_float_literal(s: &str) -> (r: bool)
    ensures
        r == is_float_text(s@),
{
    let n = s.unicode_len();
    let mut from: usize = 0;
    if n > 0 {
        let c = s.get_char(0);
        if c == '+' || c == '-' {
            from = 1;
        }
    }
    assert(from == 0 ==> s@.skip(0) =~= s@);
    proof {
        reveal_strlit("inf");
        reveal_strlit("INF");
        reveal_strlit("infinity");
        reveal_strlit("INFINITY");
        reveal_strlit("nan");
        reveal_strlit("NAN");
        assert("inf"@ =~= seq!['i', 'n', 'f']);
        assert("INF"@ =~= seq!['I', 'N', 'F']);
        assert("infinity"@ =~= seq!['i', 'n', 'f', 'i', 'n', 'i', 't', 'y']);
        assert("INFINITY"@ =~= seq!['I', 'N', 'F', 'I', 'N', 'I', 'T', 'Y']);
        assert("nan"@ =~= seq!['n', 'a', 'n']);
        assert("NAN"@ =~= seq!['N', 'A', 'N']);
    }
    matches_word(s, from, "inf", "INF") || matches_word(s, from, "infinity", "INFINITY")
        || matches_word(s, from, "nan", "NAN") || decimal_number_from(s, from)
}

} // verus!
