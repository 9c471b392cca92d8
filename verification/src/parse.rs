use vstd::prelude::*;

verus! {

/// ASCII digit test on a single character.
pub open spec fn is_ascii_digit(c: char) -> bool {
    48 <= (c as u32) && (c as u32) <= 57
}

/// Numeric value of an ASCII digit.
pub open spec fn digit_val(c: char) -> int {
    (c as u32) - 48
}

/// Every character of `s` is an ASCII digit.
pub open spec fn all_digits(s: Seq<char>) -> bool {
    forall|i: int| 0 <= i < s.len() ==> is_ascii_digit(#[trigger] s[i])
}

/// Value of a digit string read most-significant first.
pub open spec fn digits_val(s: Seq<char>) -> int
    decreases s.len(),
{
    if s.len() == 0 {
        0
    } else {
        digits_val(s.drop_last()) * 10 + digit_val(s.last())
    }
}

/// The digits of an integer literal, the optional leading sign dropped.
pub open spec fn unsigned_part(s: Seq<char>) -> Seq<char> {
    if s.len() > 0 && (s[0] == '-' || s[0] == '+') {
        s.drop_first()
    } else {
        s
    }
}

/// Signed value of an integer literal.
pub open spec fn int_of_decimal(s: Seq<char>) -> int {
    if s.len() > 0 && s[0] == '-' {
        -digits_val(unsigned_part(s))
    } else {
        digits_val(unsigned_part(s))
    }
}

/// The grammar of `str::parse::<i32>`: an optional `+` or `-` sign followed
/// by one or more ASCII digits, the value within `i32` range.
pub open spec fn spec_parse_i32(s: Seq<char>) -> Option<i32> {
    let ds = unsigned_part(s);
    if ds.len() > 0 && all_digits(ds) && i32::MIN <= int_of_decimal(s) <= i32::MAX {
        Some(int_of_decimal(s) as i32)
    } else {
        None
    }
}

proof fn lemma_digits_val_nonneg(s: Seq<char>)
    requires
        all_digits(s),
    ensures
        digits_val(s) >= 0,
    decreases s.len(),
{
    if s.len() > 0 {
        assert(all_digits(s.drop_last())) by {
            assert(forall|i: int|
                0 <= i < s.len() - 1 ==> is_ascii_digit(#[trigger] s.drop_last()[i]));
        }
        lemma_digits_val_nonneg(s.drop_last());
    }
}

proof fn lemma_digits_val_step(s: Seq<char>, i: int)
    requires
        0 <= i < s.len(),
    ensures
        digits_val(s.subrange(0, i + 1)) == digits_val(s.subrange(0, i)) * 10 + digit_val(s[i]),
{
    let t = s.subrange(0, i + 1);
    assert(t.drop_last() =~= s.subrange(0, i));
    assert(t.last() == s[i]);
}

/// Magnitude accumulator cap: one more than `i32::MAX`, so that the value of
/// `i32::MIN` is still tracked exactly.
const MAG_LIMIT: i64 = 2147483648;

/// Saturation marker for a magnitude that has left `i32` range.
const MAG_OVER: i64 = 3000000000;

/// Parses a signed decimal integer exactly as `str::parse::<i32>` does:
/// `None` on an empty or signless-and-digitless string, on any non-digit
/// character after the sign, and on overflow.
pub fn parse_i32(s: &str) -> (r: Option<i32>)
    ensures
        r == spec_parse_i32(s@),
{
    let n = s.unicode_len();
    if n == 0 {
        return None;
    }
    let c0 = s.get_char(0);
    let neg = c0 == '-';
    let start: usize = if c0 == '-' || c0 == '+' {
        1
    } else {
        0
    };
    if start == n {
        return None;
    }
    let ghost ds = s@.subrange(start as int, n as int);
    assert(ds =~= unsigned_part(s@));
    let mut i: usize = start;
    let mut acc: i64 = 0;
    while i < n
        invariant
            start <= i <= n,
            start <= 1,
            n == s@.len(),
            ds == s@.subrange(start as int, n as int),
            ds == unsigned_part(s@),
            neg <==> (s@[0] == '-'),
            forall|j: int| start <= j < i ==> is_ascii_digit(#[trigger] s@[j]),
            0 <= acc,
            acc == MAG_OVER || acc <= MAG_LIMIT,
            digits_val(s@.subrange(start as int, i as int)) <= MAG_LIMIT ==> acc == digits_val(
                s@.subrange(start as int, i as int),
            ),
            digits_val(s@.subrange(start as int, i as int)) > MAG_LIMIT ==> acc == MAG_OVER,
        decreases n - i,
    {
        let ghost prefix = s@.subrange(start as int, i as int);
        let c = s.get_char(i);
        let d = c as u32;
        if d < 48 || d > 57 {
            assert(!is_ascii_digit(ds[i - start]));
            assert(!all_digits(ds));
            return None;
        }
        let ghost prefix1 = s@.subrange(start as int, i + 1);
        proof {
            assert(prefix1.drop_last() =~= prefix);
            assert(prefix1.last() == s@[i as int]);
            assert(all_digits(prefix)) by {
                assert(forall|k: int|
                    0 <= k < prefix.len() ==> is_ascii_digit(#[trigger] prefix[k]));
            }
            lemma_digits_val_nonneg(prefix);
        }
        if acc == MAG_OVER {
            proof {
                assert(digits_val(prefix1) == digits_val(prefix) * 10 + digit_val(s@[i as int]));
            }
        } else {
            let dv: i64 = (d - 48) as i64;
            let next = acc * 10 + dv;
            proof {
                assert(digits_val(prefix1) == digits_val(prefix) * 10 + digit_val(s@[i as int]));
            }
            if next > MAG_LIMIT {
                acc = MAG_OVER;
            } else {
                acc = next;
            }
        }
        i += 1;
    }
    assert(s@.subrange(start as int, i as int) =~= ds);
    assert(all_digits(ds));
    proof {
        lemma_digits_val_nonneg(ds);
    }
    if neg {
        if acc <= MAG_LIMIT {
            assert(int_of_decimal(s@) == -digits_val(ds));
            Some((-acc) as i32)
        } else {
            assert(int_of_decimal(s@) < i32::MIN);
            None
        }
    } else {
        if acc <= MAG_LIMIT - 1 {
            assert(int_of_decimal(s@) == digits_val(ds));
            Some(acc as i32)
        } else {
            assert(int_of_decimal(s@) > i32::MAX);
            None
        }
    }
}

/// Index of the first ASCII digit of `s`, or `s.len()` if there is none.
pub open spec fn first_digit_idx(s: Seq<char>) -> int
    decreases s.len(),
{
    if s.len() == 0 {
        0
    } else if is_ascii_digit(s[0]) {
        0
    } else {
        1 + first_digit_idx(s.drop_first())
    }
}

/// Length of the run of ASCII digits at the head of `s`.
pub open spec fn leading_run_len(s: Seq<char>) -> int
    decreases s.len(),
{
    if s.len() == 0 || !is_ascii_digit(s[0]) {
        0
    } else {
        1 + leading_run_len(s.drop_first())
    }
}

/// The first maximal run of ASCII digits in `s`; empty when `s` has none.
pub open spec fn first_digit_run(s: Seq<char>) -> Seq<char> {
    let i = first_digit_idx(s);
    s.subrange(i, i + leading_run_len(s.skip(i)))
}

proof fn lemma_first_digit_idx_at(s: Seq<char>, i: int)
    requires
        0 <= i <= s.len(),
        forall|j: int| 0 <= j < i ==> !is_ascii_digit(#[trigger] s[j]),
        i < s.len() ==> is_ascii_digit(s[i]),
    ensures
        first_digit_idx(s) == i,
    decreases i,
{
    if i > 0 {
        assert(!is_ascii_digit(s[0]));
        let t = s.drop_first();
        assert(forall|j: int| 0 <= j < i - 1 ==> !is_ascii_digit(#[trigger] t[j]));
        lemma_first_digit_idx_at(t, i - 1);
    }
}

proof fn lemma_leading_run_len_at(s: Seq<char>, i: int)
    requires
        0 <= i <= s.len(),
        forall|j: int| 0 <= j < i ==> is_ascii_digit(#[trigger] s[j]),
        i < s.len() ==> !is_ascii_digit(s[i]),
    ensures
        leading_run_len(s) == i,
    decreases i,
{
    if i > 0 {
        assert(is_ascii_digit(s[0]));
        let t = s.drop_first();
        assert(forall|j: int| 0 <= j < i - 1 ==> is_ascii_digit(#[trigger] t[j]));
        lemma_leading_run_len_at(t, i - 1);
    }
}

/// Whether the character of `s` at `i` is an ASCII digit.
fn is_digit_at(s: &str, i: usize) -> (b: bool)
    requires
        i < s@.len(),
    ensures
        b == is_ascii_digit(s@[i as int]),
{
    let d = s.get_char(i) as u32;
    48 <= d && d <= 57
}

/// Extracts the first run of digits in `s`, as its own string.
pub fn extract_digit_run(s: &str) -> (r: String)
    ensures
        r@ == first_digit_run(s@),
{
    let n = s.unicode_len();
    let mut i: usize = 0;
    while i < n && !is_digit_at(s, i)
        invariant
            0 <= i <= n,
            n == s@.len(),
            forall|j: int| 0 <= j < i ==> !is_ascii_digit(#[trigger] s@[j]),
        decreases n - i,
    {
        i += 1;
    }
    proof {
        lemma_first_digit_idx_at(s@, i as int);
    }
    let mut j: usize = i;
    while j < n && is_digit_at(s, j)
        invariant
            i <= j <= n,
            n == s@.len(),
            forall|k: int| i <= k < j ==> is_ascii_digit(#[trigger] s@[k]),
        decreases n - j,
    {
        j += 1;
    }
    proof {
        let t = s@.skip(i as int);
        assert(forall|k: int| 0 <= k < j - i ==> is_ascii_digit(#[trigger] t[k]));
        lemma_leading_run_len_at(t, j - i);
    }
    let r = s.substring_char(i, j);
    assert(r@ =~= first_digit_run(s@));
    r.to_owned()
}

/// Grade values are carried in hundredths; `-1.00`, the canonical marker for
/// an absent or unparsable average, is `-100`.
pub const GRADE_ABSENT: i32 = -100;

/// Largest whole part a grade literal may carry, in units.
pub const GRADE_UNITS_LIMIT: i32 = 10000000;

/// Index of the first `.` of `s`, or `s.len()` if there is none.
pub open spec fn dot_idx(s: Seq<char>) -> int
    decreases s.len(),
{
    if s.len() == 0 {
        0
    } else if s[0] == '.' {
        0
    } else {
        1 + dot_idx(s.drop_first())
    }
}

/// The decimal-grade grammar: one or more digits, optionally followed by a
/// point and one or two fraction digits; the value is returned in
/// hundredths. The whole part is capped at `GRADE_UNITS_LIMIT` so every
/// representable grade fits an `i32`.
pub open spec fn spec_parse_grade(s: Seq<char>) -> Option<int> {
    let d = dot_idx(s);
    if d == s.len() {
        if s.len() > 0 && all_digits(s) && digits_val(s) <= GRADE_UNITS_LIMIT {
            Some(digits_val(s) * 100)
        } else {
            None
        }
    } else {
        let ip = s.subrange(0, d);
        let fp = s.subrange(d + 1, s.len() as int);
        if ip.len() > 0 && all_digits(ip) && digits_val(ip) <= GRADE_UNITS_LIMIT && 1 <= fp.len()
            <= 2 && all_digits(fp) {
            Some(
                digits_val(ip) * 100 + if fp.len() == 1 {
                    digits_val(fp) * 10
                } else {
                    digits_val(fp)
                },
            )
        } else {
            None
        }
    }
}

proof fn lemma_dot_idx_at(s: Seq<char>, i: int)
    requires
        0 <= i <= s.len(),
        forall|j: int| 0 <= j < i ==> #[trigger] s[j] != '.',
        i < s.len() ==> s[i] == '.',
    ensures
        dot_idx(s) == i,
    decreases i,
{
    if i > 0 {
        let t = s.drop_first();
        assert(forall|j: int| 0 <= j < i - 1 ==> #[trigger] t[j] != '.');
        lemma_dot_idx_at(t, i - 1);
    }
}

/// Upper bound of `digits_val` over two fraction digits.
proof fn lemma_two_digits_bound(s: Seq<char>)
    requires
        all_digits(s),
        s.len() <= 2,
    ensures
        0 <= digits_val(s) <= 99,
{
    lemma_digits_val_nonneg(s);
    if s.len() == 1 {
        assert(is_ascii_digit(s[0]));
        assert(s.drop_last() =~= Seq::<char>::empty());
        assert(digits_val(s.drop_last()) == 0);
        assert(digits_val(s) == digit_val(s.last()));
    } else if s.len() == 2 {
        let t = s.drop_last();
        assert(is_ascii_digit(s[0]));
        assert(is_ascii_digit(s[1]));
        assert(t.last() == s[0]);
        assert(t.drop_last() =~= Seq::<char>::empty());
        assert(digits_val(t.drop_last()) == 0);
        assert(digits_val(t) == digit_val(t.last()));
        assert(digits_val(t) <= 9);
        assert(digits_val(s) == digits_val(t) * 10 + digit_val(s.last()));
    }
}

/// Every parsed grade value is non-negative: the grade grammar has no
/// sign, so the absence marker lies strictly below every parsed value.
pub proof fn lemma_parse_grade_nonneg(s: Seq<char>)
    ensures
        spec_parse_grade(s) is Some ==> spec_parse_grade(s)->Some_0 >= 0,
{
    if spec_parse_grade(s) is Some {
        let d = dot_idx(s);
        if d == s.len() {
            lemma_digits_val_nonneg(s);
        } else {
            let ip = s.subrange(0, d);
            let fp = s.subrange(d + 1, s.len() as int);
            lemma_digits_val_nonneg(ip);
            lemma_digits_val_nonneg(fp);
        }
    }
}

/// Parses the whole-part digits `s[from..to]`, which the caller has checked
/// to be all digits, saturating above `GRADE_UNITS_LIMIT`.
fn parse_units(s: &str, from: usize, to: usize) -> (r: i64)
    requires
        from <= to <= s@.len(),
        forall|j: int| from <= j < to ==> is_ascii_digit(#[trigger] s@[j]),
    ensures
        0 <= r,
        digits_val(s@.subrange(from as int, to as int)) <= GRADE_UNITS_LIMIT ==> r == digits_val(
            s@.subrange(from as int, to as int),
        ),
        digits_val(s@.subrange(from as int, to as int)) > GRADE_UNITS_LIMIT ==> r
            > GRADE_UNITS_LIMIT,
{
    let mut i: usize = from;
    let mut acc: i64 = 0;
    while i < to
        invariant
            from <= i <= to <= s@.len(),
            forall|j: int| from <= j < to ==> is_ascii_digit(#[trigger] s@[j]),
            0 <= acc,
            acc == MAG_OVER || acc <= GRADE_UNITS_LIMIT as i64,
            digits_val(s@.subrange(from as int, i as int)) <= GRADE_UNITS_LIMIT ==> acc
                == digits_val(s@.subrange(from as int, i as int)),
            digits_val(s@.subrange(from as int, i as int)) > GRADE_UNITS_LIMIT ==> acc == MAG_OVER,
        decreases to - i,
    {
        let ghost prefix = s@.subrange(from as int, i as int);
        let ghost prefix1 = s@.subrange(from as int, i + 1);
        let d = s.get_char(i) as u32;
        assert(is_ascii_digit(s@[i as int]));
        proof {
            assert(prefix1.drop_last() =~= prefix);
            assert(prefix1.last() == s@[i as int]);
            assert(all_digits(prefix)) by {
                assert(forall|k: int|
                    0 <= k < prefix.len() ==> is_ascii_digit(#[trigger] prefix[k]));
            }
            lemma_digits_val_nonneg(prefix);
        }
        if acc != MAG_OVER {
            let next = acc * 10 + (d - 48) as i64;
            if next > GRADE_UNITS_LIMIT as i64 {
                acc = MAG_OVER;
            } else {
                acc = next;
            }
        }
        i += 1;
    }
    assert(s@.subrange(from as int, i as int) =~= s@.subrange(from as int, to as int));
    acc
}

/// Parses a grade literal to hundredths, exactly per `spec_parse_grade`.
pub fn parse_grade(s: &str) -> (r: Option<i32>)
    ensures
        r is Some <==> spec_parse_grade(s@) is Some,
        r is Some ==> spec_parse_grade(s@) == Some(r->Some_0 as int),
{
    let n = s.unicode_len();
    let mut i: usize = 0;
    while i < n && s.get_char(i) != '.'
        invariant
            0 <= i <= n,
            n == s@.len(),
            forall|j: int| 0 <= j < i ==> #[trigger] s@[j] != '.',
        decreases n - i,
    {
        i += 1;
    }
    proof {
        lemma_dot_idx_at(s@, i as int);
    }
    if i == 0 {
        // Empty whole part (or an empty string altogether).
        return None;
    }
    // The whole part must be all digits.
    let mut k: usize = 0;
    while k < i
        invariant
            0 <= k <= i <= n,
            n == s@.len(),
            dot_idx(s@) == i,
            forall|j: int| 0 <= j < k ==> is_ascii_digit(#[trigger] s@[j]),
        decreases i - k,
    {
        let d = s.get_char(k) as u32;
        if d < 48 || d > 57 {
            assert(!all_digits(s@.subrange(0, i as int))) by {
                assert(s@.subrange(0, i as int)[k as int] == s@[k as int]);
            }
            assert(!all_digits(s@)) by {
                assert(s@[k as int] == s@[k as int]);
            }
            return None;
        }
        k += 1;
    }
    let ghost ip = s@.subrange(0, i as int);
    assert(all_digits(ip)) by {
        assert(forall|j: int| 0 <= j < ip.len() ==> is_ascii_digit(#[trigger] ip[j]));
    }
    proof {
        lemma_digits_val_nonneg(ip);
    }
    let units = parse_units(s, 0, i);
    if i == n {
        // No point: the whole string is the whole part.
        assert(ip =~= s@);
        if units <= GRADE_UNITS_LIMIT as i64 {
            return Some((units * 100) as i32);
        } else {
            return None;
        }
    }
    // A point at `i`: one or two fraction digits must follow.
    let flen = n - i - 1;
    if flen < 1 || flen > 2 {
        return None;
    }
    let ghost fp = s@.subrange(i + 1, n as int);
    let mut f: usize = i + 1;
    while f < n
        invariant
            i + 1 <= f <= n,
            n == s@.len(),
            i < n,
            dot_idx(s@) == i,
            fp == s@.subrange(i + 1, n as int),
            1 <= fp.len() <= 2,
            forall|j: int| i + 1 <= j < f ==> is_ascii_digit(#[trigger] s@[j]),
        decreases n - f,
    {
        let d = s.get_char(f) as u32;
        if d < 48 || d > 57 {
            assert(!all_digits(fp)) by {
                assert(fp[f - (i + 1)] == s@[f as int]);
            }
            return None;
        }
        f += 1;
    }
    assert(all_digits(fp)) by {
        assert(forall|j: int| 0 <= j < fp.len() ==> is_ascii_digit(#[trigger] fp[j]));
    }
    proof {
        lemma_two_digits_bound(fp);
    }
    if units > GRADE_UNITS_LIMIT as i64 {
        return None;
    }
    let frac = parse_units(s, i + 1, n);
    assert(frac == digits_val(fp));
    let scaled: i64 = if flen == 1 {
        frac * 10
    } else {
        frac
    };
    Some((units * 100 + scaled) as i32)
}

} // verus!
