use vstd::prelude::*;

verus! {

/// The largest whole part that the parser accumulates exactly; past it the
/// amount is out of range in any case.
const WHOLE_LIMIT: u64 = 100_000_000_000_000_000;

pub open spec fn is_digit(c: char) -> bool {
    '0' <= c && c <= '9'
}

pub open spec fn digit_of(c: char) -> int {
    c as int - '0' as int
}

pub open spec fn all_digits(s: Seq<char>) -> bool {
    forall|i: int| 0 <= i < s.len() ==> is_digit(#[trigger] s[i])
}

/// The number that a run of decimal digits writes.
pub open spec fn digits_value(s: Seq<char>) -> int
    decreases s.len(),
{
    if s.len() == 0 {
        0
    } else {
        10 * digits_value(s.drop_last()) + digit_of(s.last())
    }
}

/// The cents that an unsigned decimal writes: one or more digits, then
/// optionally a point and one or two digits of fraction.
pub open spec fn unsigned_cents(s: Seq<char>) -> Option<int> {
    let n = s.len();
    if n > 0 && all_digits(s) {
        Some(100 * digits_value(s))
    } else if n >= 3 && s[n - 2] == '.' && all_digits(s.take(n - 2)) && is_digit(s[n - 1]) {
        Some(100 * digits_value(s.take(n - 2)) + 10 * digit_of(s[n - 1]))
    } else if n >= 4 && s[n - 3] == '.' && all_digits(s.take(n - 3)) && all_digits(s.skip(n - 2)) {
        Some(100 * digits_value(s.take(n - 3)) + digits_value(s.skip(n - 2)))
    } else {
        None
    }
}

/// The cents that a decimal amount writes, with an optional leading minus,
/// where the text has that shape and the amount fits in `i64`.
pub open spec fn amount_cents(s: Seq<char>) -> Option<int> {
    let v = if s.len() > 0 && s[0] == '-' {
        match unsigned_cents(s.skip(1)) {
            Some(x) => Some(-x),
            None => None,
        }
    } else {
        unsigned_cents(s)
    };
    match v {
        Some(x) => if i64::MIN <= x <= i64::MAX { Some(x) } else { None },
        None => None,
    }
}

proof fn lemma_digits_grow(s: Seq<char>)
    requires
        s.len() > 0,
        all_digits(s),
    ensures
        digits_value(s) >= digits_value(s.drop_last()),
        digits_value(s) >= 0,
    decreases s.len(),
{
    if s.len() > 1 {
        lemma_digits_grow(s.drop_last());
    }
    assert(is_digit(s[s.len() - 1]));
}

/// The unsigned part of an amount text: what follows a leading minus, if any.
pub open spec fn magnitude_text(s: Seq<char>) -> Seq<char> {
    if s.len() > 0 && s[0] == '-' { s.skip(1) } else { s }
}

/// Whether what follows the digits of the whole part, from position `i` of
/// `v` on, is a point and one or two digits.
spec fn fraction_at(v: Seq<char>, i: int) -> bool {
    &&& 0 <= i < v.len()
    &&& v[i] == '.'
    &&& (v.len() - i == 2 && is_digit(v[i + 1])) || (v.len() - i == 3 && is_digit(v[i + 1])
        && is_digit(v[i + 2]))
}

/// A run of digits that ends where a non-digit stands ends at the first non-digit.
proof fn lemma_run_end(b: Seq<char>, k: int, m: int)
    requires
        0 <= k <= b.len(),
        all_digits(b.take(k)),
        k == b.len() || !is_digit(b[k]),
        0 <= m <= b.len(),
        all_digits(b.take(m)),
        m == b.len() || !is_digit(b[m]),
    ensures
        k == m,
{
    if k < m {
        assert(b.take(m)[k] == b[k]);
    } else if m < k {
        assert(b.take(k)[m] == b[m]);
    }
}

/// Where the digits of the whole part run from `start` to `i` in `v`, the text
/// is an amount only where what follows is empty or a short fraction, and the
/// whole part is small enough.
proof fn lemma_shape(v: Seq<char>, start: int, i: int)
    requires
        start == v.len() - magnitude_text(v).len(),
        start <= i <= v.len(),
        all_digits(v.subrange(start, i)),
        i == v.len() || !is_digit(v[i]),
    ensures
        unsigned_cents(magnitude_text(v)) is Some ==> i > start && (i == v.len() || fraction_at(v, i)),
        unsigned_cents(magnitude_text(v)) matches Some(x) ==> x >= 100 * digits_value(v.subrange(start, i)),
{
    let b = magnitude_text(v);
    let n = b.len() as int;
    let k = i - start;
    assert(b =~= v.subrange(start, v.len() as int));
    assert(b.take(k) =~= v.subrange(start, i));
    if k < n {
        assert(b[k] == v[i]);
    }
    if n > 0 && all_digits(b) {
        assert(b.take(n) =~= b);
        lemma_run_end(b, k, n);
        assert(b =~= v.subrange(start, i));
    } else if n >= 3 && b[n - 2] == '.' && all_digits(b.take(n - 2)) && is_digit(b[n - 1]) {
        lemma_run_end(b, k, n - 2);
        assert(b.take(n - 2) =~= v.subrange(start, i));
        assert(is_digit(b[n - 1]));
        assert(v[i + 1] == b[n - 1]);
    } else if n >= 4 && b[n - 3] == '.' && all_digits(b.take(n - 3)) && all_digits(b.skip(n - 2)) {
        lemma_run_end(b, k, n - 3);
        assert(b.take(n - 3) =~= v.subrange(start, i));
        assert(b.skip(n - 2)[0] == v[i + 1]);
        assert(b.skip(n - 2)[1] == v[i + 2]);
        lemma_nonneg(b.skip(n - 2));
    }
}

proof fn lemma_nonneg(s: Seq<char>)
    requires
        all_digits(s),
    ensures
        digits_value(s) >= 0,
    decreases s.len(),
{
    if s.len() > 0 {
        lemma_digits_grow(s);
    }
}

/// The cents that the fraction from position `i` of `v` on writes: nothing,
/// or a point and one or two digits.
spec fn fraction_value(v: Seq<char>, i: int) -> int {
    if i == v.len() {
        0
    } else if v.len() - i == 2 {
        10 * digit_of(v[i + 1])
    } else {
        10 * digit_of(v[i + 1]) + digit_of(v[i + 2])
    }
}

/// Where the whole part is a nonempty run of digits followed by nothing or a
/// short fraction, the unsigned amount is the two put together.
proof fn lemma_value(v: Seq<char>, start: int, i: int)
    requires
        start == v.len() - magnitude_text(v).len(),
        start < i <= v.len(),
        all_digits(v.subrange(start, i)),
        i == v.len() || fraction_at(v, i),
    ensures
        unsigned_cents(magnitude_text(v)) == Some(
            100 * digits_value(v.subrange(start, i)) + fraction_value(v, i),
        ),
{
    let b = magnitude_text(v);
    let n = b.len() as int;
    let run = v.subrange(start, i);
    assert(b =~= v.subrange(start, v.len() as int));
    if i == v.len() {
        assert(b =~= run);
    } else {
        assert(!is_digit(b[i - start]));
        assert(!all_digits(b));
        if v.len() - i == 2 {
            assert(b.take(n - 2) =~= run);
            assert(b[n - 2] == v[i]);
            assert(b[n - 1] == v[i + 1]);
        } else {
            let t = b.skip(n - 2);
            let one = seq![v[i + 1]];
            assert(t =~= seq![v[i + 1], v[i + 2]]);
            assert(t.drop_last() =~= one);
            assert(one.drop_last() =~= Seq::<char>::empty());
            assert(digits_value(Seq::<char>::empty()) == 0);
            assert(one.last() == v[i + 1]);
            assert(digits_value(one.drop_last()) == 0);
            assert(digits_value(one) == digit_of(v[i + 1]));
            assert(digits_value(t) == 10 * digit_of(v[i + 1]) + digit_of(v[i + 2]));
            assert(all_digits(t));
            assert(b.take(n - 3) =~= run);
            assert(b[n - 3] == v[i]);
            assert(b[n - 2] == v[i + 1]);
        }
    }
}

/// Scans the digits of `s` from `start` on: where they end, and their value
/// while it stays within the limit (the flag says that it went past it).
fn digit_run(s: &str, start: usize) -> (r: (usize, u64, bool))
    requires
        start <= s@.len(),
    ensures
        start <= r.0 <= s@.len(),
        all_digits(s@.subrange(start as int, r.0 as int)),
        r.0 == s@.len() || !is_digit(s@[r.0 as int]),
        !r.2 ==> r.1 as int == digits_value(s@.subrange(start as int, r.0 as int)),
        !r.2 ==> r.1 <= WHOLE_LIMIT,
        r.2 ==> digits_value(s@.subrange(start as int, r.0 as int)) > WHOLE_LIMIT,
{
    let ghost v = s@;
    let n = s.unicode_len();
    let mut i = start;
    let mut whole: u64 = 0;
    let mut big = false;
    while i < n && '0' <= s.get_char(i) && s.get_char(i) <= '9'
        invariant
            start <= i <= n,
            n == v.len(),
            v == s@,
            all_digits(v.subrange(start as int, i as int)),
            !big ==> whole as int == digits_value(v.subrange(start as int, i as int)),
            !big ==> whole <= WHOLE_LIMIT,
            big ==> digits_value(v.subrange(start as int, i as int)) > WHOLE_LIMIT,
        decreases n - i,
    {
        let c = s.get_char(i);
        let ghost p = v.subrange(start as int, i as int);
        let ghost q = v.subrange(start as int, i + 1);
        assert(q.drop_last() =~= p);
        assert(q.last() == c);
        assert(all_digits(q)) by {
            assert forall|k: int| 0 <= k < q.len() implies is_digit(#[trigger] q[k]) by {
                if k < p.len() {
                    assert(q[k] == p[k]);
                }
            }
        }
        proof {
            lemma_digits_grow(q);
        }
        if !big {
            let d = (c as u32 - '0' as u32) as u64;
            let next = whole * 10 + d;
            if next > WHOLE_LIMIT {
                big = true;
            } else {
                whole = next;
            }
        }
        i = i + 1;
    }
    (i, whole, big)
}

/// Reads the fraction from position `i` of `s` on: nothing, or a point and
/// one or two digits; `None` where something else stands there.
fn fraction(s: &str, i: usize) -> (r: Option<u64>)
    requires
        i <= s@.len(),
    ensures
        r is Some <==> (i == s@.len() || fraction_at(s@, i as int)),
        r matches Some(f) ==> f as int == fraction_value(s@, i as int),
{
    let n = s.unicode_len();
    if i == n {
        return Some(0);
    }
    if s.get_char(i) != '.' || i + 1 >= n || n - i > 3 {
        return None;
    }
    let c1 = s.get_char(i + 1);
    if c1 < '0' || c1 > '9' {
        return None;
    }
    let tenths = (c1 as u32 - '0' as u32) as u64 * 10;
    if n - i == 2 {
        return Some(tenths);
    }
    let c2 = s.get_char(i + 2);
    if c2 < '0' || c2 > '9' {
        return None;
    }
    Some(tenths + (c2 as u32 - '0' as u32) as u64)
}

/// Reads a decimal amount such as `-12.34`, `7` or `0.5` as a whole number of
/// cents; `None` where the text has another shape or the amount does not fit.
pub fn parse_amount(s: &str) -> (r: Option<i64>)
    ensures
        r is Some <==> amount_cents(s@) is Some,
        r matches Some(c) ==> amount_cents(s@) == Some(c as int),
{
    let ghost v = s@;
    let n = s.unicode_len();
    let neg = n > 0 && s.get_char(0) == '-';
    let start: usize = if neg { 1 } else { 0 };
    let (i, whole, big) = digit_run(s, start);
    proof {
        lemma_shape(v, start as int, i as int);
    }
    if i == start || big {
        return None;
    }
    let frac = match fraction(s, i) {
        Some(f) => f,
        None => {
            return None;
        },
    };
    proof {
        lemma_value(v, start as int, i as int);
    }
    let cents = whole * 100 + frac;
    if neg {
        if cents > 9_223_372_036_854_775_808 {
            None
        } else if cents == 9_223_372_036_854_775_808 {
            Some(i64::MIN)
        } else {
            Some(-(cents as i64))
        }
    } else if cents > i64::MAX as u64 {
        None
    } else {
        Some(cents as i64)
    }
}

} // verus!
