use vstd::prelude::*;
use vstd::string::StrSliceExecFns;
use vstd::arithmetic::div_mod::{
    lemma_fundamental_div_mod, lemma_div_is_ordered, lemma_div_multiples_vanish,
    lemma_div_pos_is_pos, lemma_hoist_over_denominator,
};

verus! {

// ---------------------------------------------------------------------------
// Character classes
// ---------------------------------------------------------------------------

pub open spec fn is_digit(c: char) -> bool {
    48 <= c as int && c as int <= 57
}

pub open spec fn digit_val(c: char) -> int {
    c as int - 48
}

/// Ascii whitespace, as used to separate class tokens in a class attribute.
pub open spec fn is_ws(c: char) -> bool {
    c as int == 32 || c as int == 9 || c as int == 10 || c as int == 13 || c as int == 12
}

pub fn digit_of(c: char) -> (r: Option<u64>)
    ensures
        match r {
            Some(d) => is_digit(c) && d == digit_val(c),
            None => !is_digit(c),
        },
{
    let u = c as u32;
    if 48 <= u && u <= 57 {
        Some((u - 48) as u64)
    } else {
        None
    }
}

pub fn ws_char(c: char) -> (r: bool)
    ensures
        r == is_ws(c),
{
    let u = c as u32;
    u == 32 || u == 9 || u == 10 || u == 13 || u == 12
}

// ---------------------------------------------------------------------------
// String equality
// ---------------------------------------------------------------------------

pub fn str_eq(a: &str, b: &str) -> (r: bool)
    ensures
        r == (a@ == b@),
{
    let an = a.unicode_len();
    let bn = b.unicode_len();
    if an != bn {
        assert(a@ != b@) by {
            assert(a@.len() != b@.len());
        }
        return false;
    }
    let mut i: usize = 0;
    while i < an
        invariant
            an == a@.len(),
            an == b@.len(),
            0 <= i <= an,
            forall|k: int| 0 <= k < i ==> a@[k] == b@[k],
        decreases an - i,
    {
        if a.get_char(i) != b.get_char(i) {
            return false;
        }
        i += 1;
    }
    proof {
        assert(a@ =~= b@);
    }
    true
}

// ---------------------------------------------------------------------------
// Substring occurrence
// ---------------------------------------------------------------------------

/// The pattern `p` occurs in `s` starting at position `i`.
pub open spec fn match_at(s: Seq<char>, p: Seq<char>, i: int) -> bool {
    0 <= i && i + p.len() <= s.len() && s.subrange(i, i + p.len() as int) == p
}

/// The pattern `p` occurs somewhere in `s`.
pub open spec fn contains_pat(s: Seq<char>, p: Seq<char>) -> bool {
    exists|i: int| match_at(s, p, i)
}

/// Position of the first occurrence of `p` at or after `i`, if any.
pub open spec fn first_match_from(s: Seq<char>, p: Seq<char>, i: int) -> Option<int>
    decreases s.len() - i,
{
    if p.len() <= 0 || i < 0 || i + p.len() > s.len() {
        None
    } else if match_at(s, p, i) {
        Some(i)
    } else {
        first_match_from(s, p, i + 1)
    }
}

/// Position of the last occurrence of `p` at or before `i`, if any.
pub open spec fn last_match_from(s: Seq<char>, p: Seq<char>, i: int) -> Option<int>
    decreases i + 1,
{
    if i < 0 {
        None
    } else if match_at(s, p, i) {
        Some(i)
    } else {
        last_match_from(s, p, i - 1)
    }
}

/// A first match found from position `i` lies at or after `i` and is a match.
pub proof fn lemma_first_match_lb(s: Seq<char>, p: Seq<char>, i: int)
    ensures
        first_match_from(s, p, i) matches Some(f) ==> i <= f && match_at(s, p, f),
    decreases s.len() - i,
{
    if p.len() <= 0 || i < 0 || i + p.len() > s.len() {
    } else if match_at(s, p, i) {
    } else {
        lemma_first_match_lb(s, p, i + 1);
    }
}

/// Compares `p` against `s` at position `i`.
fn match_at_exec(s: &str, p: &str, i: usize) -> (r: bool)
    requires
        i + p@.len() <= s@.len(),
    ensures
        r == match_at(s@, p@, i as int),
{
    let n = s.unicode_len();
    let m = p.unicode_len();
    let mut t: usize = 0;
    while t < m
        invariant
            n == s@.len(),
            m == p@.len(),
            i + m <= n,
            0 <= t <= m,
            forall|k: int| 0 <= k < t ==> s@[i + k] == p@[k],
        decreases m - t,
    {
        if s.get_char(i + t) != p.get_char(t) {
            proof {
                assert(s@.subrange(i as int, i + m) != p@) by {
                    assert(s@.subrange(i as int, i + m)[t as int] == s@[i + t]);
                }
            }
            return false;
        }
        t += 1;
    }
    proof {
        assert(s@.subrange(i as int, i + m) =~= p@);
    }
    true
}

/// Whether `p` occurs anywhere in `s`.
pub fn contains_str(s: &str, p: &str) -> (r: bool)
    ensures
        r == contains_pat(s@, p@),
{
    let n = s.unicode_len();
    let m = p.unicode_len();
    if m == 0 {
        proof {
            assert(match_at(s@, p@, 0)) by {
                assert(s@.subrange(0, 0) =~= p@);
            }
        }
        return true;
    }
    if m > n {
        proof {
            assert(forall|i: int| !match_at(s@, p@, i));
        }
        return false;
    }
    let last = n - m;
    let mut i: usize = 0;
    while i <= last
        invariant
            n == s@.len(),
            m == p@.len(),
            0 < m <= n,
            last == n - m,
            0 <= i <= last + 1,
            forall|k: int| 0 <= k < i ==> !match_at(s@, p@, k),
        decreases last - i + 1,
    {
        if match_at_exec(s, p, i) {
            proof {
                assert(match_at(s@, p@, i as int));
            }
            return true;
        }
        i += 1;
    }
    proof {
        assert forall|k: int| !match_at(s@, p@, k) by {
            if 0 <= k && k + p@.len() <= s@.len() {
                assert(k < i as int);
            }
        }
    }
    false
}

/// Position of the first occurrence of `p` in `s`, if any.
pub fn find_first(s: &str, p: &str) -> (r: Option<usize>)
    requires
        p@.len() > 0,
    ensures
        match r {
            Some(i) => first_match_from(s@, p@, 0) == Some(i as int),
            None => first_match_from(s@, p@, 0) is None,
        },
{
    let n = s.unicode_len();
    let m = p.unicode_len();
    if m > n {
        return None;
    }
    let last = n - m;
    let mut i: usize = 0;
    while i <= last
        invariant
            n == s@.len(),
            m == p@.len(),
            0 < m <= n,
            last == n - m,
            0 <= i <= last + 1,
            first_match_from(s@, p@, 0) == first_match_from(s@, p@, i as int),
        decreases last - i + 1,
    {
        if match_at_exec(s, p, i) {
            return Some(i);
        }
        i += 1;
    }
    None
}

/// Position of the last occurrence of `p` in `s`, if any.
pub fn find_last(s: &str, p: &str) -> (r: Option<usize>)
    requires
        p@.len() > 0,
    ensures
        match r {
            Some(i) => last_match_from(s@, p@, s@.len() - p@.len()) == Some(i as int),
            None => last_match_from(s@, p@, s@.len() - p@.len()) is None,
        },
{
    let n = s.unicode_len();
    let m = p.unicode_len();
    if m > n {
        return None;
    }
    let mut j: usize = n - m + 1;
    while j > 0
        invariant
            n == s@.len(),
            m == p@.len(),
            0 < m <= n,
            0 <= j <= n - m + 1,
            last_match_from(s@, p@, s@.len() - p@.len()) == last_match_from(s@, p@, j - 1),
        decreases j,
    {
        if match_at_exec(s, p, j - 1) {
            return Some(j - 1);
        }
        j -= 1;
    }
    None
}

// ---------------------------------------------------------------------------
// Class tokens: whitespace-separated words of a class attribute
// ---------------------------------------------------------------------------

/// `t` stands as a whole whitespace-delimited token of `s` at position `i`.
pub open spec fn token_at(s: Seq<char>, t: Seq<char>, i: int) -> bool {
    t.len() > 0 && match_at(s, t, i) && (i == 0 || is_ws(s[i - 1])) && (i + t.len() == s.len()
        || is_ws(s[i + t.len() as int]))
}

/// The class attribute value `s` contains the token `t`.
pub open spec fn has_token(s: Seq<char>, t: Seq<char>) -> bool {
    exists|i: int| token_at(s, t, i)
}

/// Whether `t` occurs as a whole whitespace-delimited token of `s`.
pub fn has_token_exec(s: &str, t: &str) -> (r: bool)
    requires
        t@.len() > 0,
    ensures
        r == has_token(s@, t@),
{
    let n = s.unicode_len();
    let m = t.unicode_len();
    if m > n {
        proof {
            assert(forall|i: int| !token_at(s@, t@, i));
        }
        return false;
    }
    let last = n - m;
    let mut i: usize = 0;
    while i <= last
        invariant
            n == s@.len(),
            m == t@.len(),
            0 < m <= n,
            last == n - m,
            0 <= i <= last + 1,
            forall|k: int| 0 <= k < i ==> !token_at(s@, t@, k),
        decreases last - i + 1,
    {
        if match_at_exec(s, t, i) {
            let pre = i == 0 || ws_char(s.get_char(i - 1));
            let post = i + m == n || ws_char(s.get_char(i + m));
            if pre && post {
                proof {
                    assert(token_at(s@, t@, i as int));
                }
                return true;
            }
        }
        i += 1;
    }
    proof {
        assert forall|k: int| !token_at(s@, t@, k) by {
            if 0 <= k && k + t@.len() <= s@.len() {
                assert(k < i as int);
            }
        }
    }
    false
}

// ---------------------------------------------------------------------------
// Decimal digit strings
// ---------------------------------------------------------------------------

pub open spec fn all_digits(s: Seq<char>) -> bool {
    forall|i: int| 0 <= i < s.len() ==> is_digit(#[trigger] s[i])
}

/// The numeric value of a digit string, most significant digit first.
pub open spec fn dv(s: Seq<char>) -> int
    decreases s.len(),
{
    if s.len() == 0 {
        0
    } else {
        dv(s.drop_last()) * 10 + digit_val(s.last())
    }
}

pub open spec fn pow10(n: nat) -> int
    decreases n,
{
    if n == 0 {
        1
    } else {
        10 * pow10((n - 1) as nat)
    }
}

pub proof fn lemma_pow10_pos(n: nat)
    ensures
        pow10(n) >= 1,
    decreases n,
{
    if n > 0 {
        lemma_pow10_pos((n - 1) as nat);
    }
}

pub proof fn lemma_dv_bound(s: Seq<char>)
    requires
        all_digits(s),
    ensures
        0 <= dv(s) < pow10(s.len()),
    decreases s.len(),
{
    if s.len() == 0 {
    } else {
        assert(all_digits(s.drop_last()));
        lemma_dv_bound(s.drop_last());
        assert(is_digit(s.last()));
    }
}

/// dv splits across concatenation: the left part is shifted by the length of
/// the right part.
pub proof fn lemma_dv_concat(a: Seq<char>, b: Seq<char>)
    ensures
        dv(a + b) == dv(a) * pow10(b.len()) + dv(b),
    decreases b.len(),
{
    if b.len() == 0 {
        assert(a + b =~= a);
        assert(dv(a) * 1 == dv(a)) by (nonlinear_arith);
    } else {
        lemma_dv_concat(a, b.drop_last());
        assert((a + b).drop_last() =~= a + b.drop_last());
        assert((a + b).last() == b.last());
        assert((dv(a) * pow10((b.len() - 1) as nat) + dv(b.drop_last())) * 10 == dv(a) * (10
            * pow10((b.len() - 1) as nat)) + dv(b.drop_last()) * 10) by (nonlinear_arith);
    }
}

/// dv decomposed on the first digit.
pub proof fn lemma_dv_first(s: Seq<char>)
    requires
        s.len() > 0,
    ensures
        dv(s) == digit_val(s[0]) * pow10((s.len() - 1) as nat) + dv(s.skip(1)),
{
    assert(s =~= seq![s[0]] + s.skip(1));
    lemma_dv_concat(seq![s[0]], s.skip(1));
    assert(dv(seq![s[0]]) == digit_val(s[0])) by {
        reveal_with_fuel(dv, 2);
        assert(seq![s[0]].len() == 1);
        assert(seq![s[0]].last() == s[0]);
        assert(seq![s[0]].drop_last() =~= Seq::<char>::empty());
    }
}

/// Growing a digit string by one digit on the right.
pub proof fn lemma_dv_push(s: Seq<char>, i: int)
    requires
        0 <= i < s.len(),
    ensures
        dv(s.take(i + 1)) == dv(s.take(i)) * 10 + digit_val(s[i]),
{
    assert(s.take(i + 1).drop_last() =~= s.take(i));
    assert(s.take(i + 1).last() == s[i]);
}

/// A digit-string prefix never exceeds the whole string's value.
pub proof fn lemma_dv_prefix(s: Seq<char>, i: int)
    requires
        all_digits(s),
        0 <= i <= s.len(),
    ensures
        dv(s.take(i)) <= dv(s),
{
    assert(s =~= s.take(i) + s.skip(i));
    lemma_dv_concat(s.take(i), s.skip(i));
    assert(all_digits(s.take(i)));
    assert(all_digits(s.skip(i)));
    lemma_dv_bound(s.take(i));
    lemma_dv_bound(s.skip(i));
    lemma_pow10_pos((s.len() - i) as nat);
    assert(dv(s.take(i)) * pow10((s.len() - i) as nat) >= dv(s.take(i))) by (nonlinear_arith)
        requires
            dv(s.take(i)) >= 0,
            pow10((s.len() - i) as nat) >= 1,
    ;
}

// ---------------------------------------------------------------------------
// Unsigned integer parsing
// ---------------------------------------------------------------------------

/// If the running value already exceeds `(cap - dig) / 10`, appending the
/// digit pushes it past `cap`.
proof fn lemma_digit_overflow(val: int, dig: int, cap: int)
    requires
        val >= 0,
        0 <= dig <= 9,
        cap >= 9,
        val > (cap - dig) / 10,
    ensures
        val * 10 + dig > cap,
{
    let x = cap - dig;
    lemma_fundamental_div_mod(x, 10);
    assert(0 <= x % 10 < 10) by (nonlinear_arith)
        requires
            x >= 0,
    ;
    assert(val * 10 >= (x / 10 + 1) * 10) by (nonlinear_arith)
        requires
            val >= x / 10 + 1,
    ;
    assert((x / 10 + 1) * 10 == 10 * (x / 10) + 10);
}

/// The value of `s` read as an unsigned decimal integer: an optional leading
/// `+`, then at least one digit, the value fitting in 64 bits.
pub open spec fn spec_parse_u64(s: Seq<char>) -> Option<u64> {
    let d = if s.len() > 0 && s[0] == '+' {
        s.skip(1)
    } else {
        s
    };
    if d.len() > 0 && all_digits(d) && dv(d) <= u64::MAX {
        Some(dv(d) as u64)
    } else {
        None
    }
}

pub fn parse_u64(s: &str) -> (r: Option<u64>)
    ensures
        r == spec_parse_u64(s@),
{
    let n = s.unicode_len();
    let start: usize = if n > 0 && s.get_char(0) == '+' {
        1
    } else {
        0
    };
    let ghost d = if s@.len() > 0 && s@[0] == '+' {
        s@.skip(1)
    } else {
        s@
    };
    assert(d =~= s@.subrange(start as int, n as int));
    if start >= n {
        assert(d.len() == 0);
        return None;
    }
    let mut val: u64 = 0;
    let mut i: usize = start;
    while i < n
        invariant
            n == s@.len(),
            start <= i <= n,
            start < n,
            start == 0 || start == 1,
            d == (if s@.len() > 0 && s@[0] == '+' {
                s@.skip(1)
            } else {
                s@
            }),
            d =~= s@.subrange(start as int, n as int),
            all_digits(d.take(i - start)),
            val == dv(d.take(i - start)),
        decreases n - i,
    {
        let c = s.get_char(i);
        match digit_of(c) {
            None => {
                proof {
                    assert(d[i - start] == s@[i as int]);
                    assert(!all_digits(d));
                }
                return None;
            },
            Some(dig) => {
                proof {
                    assert(d[i - start] == s@[i as int]);
                    lemma_dv_push(d, i - start);
                }
                if val > (u64::MAX - dig) / 10 {
                    proof {
                        lemma_digit_overflow(val as int, dig as int, u64::MAX as int);
                        assert(dv(d.take(i - start + 1)) > u64::MAX);
                        if all_digits(d) {
                            lemma_dv_prefix(d, i - start + 1);
                        }
                    }
                    return None;
                }
                val = val * 10 + dig;
                i += 1;
            },
        }
    }
    proof {
        assert(d.take(n - start) =~= d);
    }
    Some(val)
}

// ---------------------------------------------------------------------------
// Decimal number parsing with a unit multiplier
// ---------------------------------------------------------------------------

/// Where the decimal literal starting at `i` ends: digits, with one dot
/// allowed, consumed greedily.
pub open spec fn num_end(t: Seq<char>, i: int, seen_dot: bool) -> int
    decreases t.len() - i,
{
    if i < 0 {
        0
    } else if i >= t.len() {
        i
    } else if is_digit(t[i]) {
        num_end(t, i + 1, seen_dot)
    } else if t[i] == '.' && !seen_dot {
        num_end(t, i + 1, true)
    } else {
        i
    }
}

/// Splits a decimal literal into integer and fractional digit strings:
/// an optional leading `+`, digits with at most one `.`, at least one digit.
pub open spec fn spec_number_parts(t: Seq<char>) -> Option<(Seq<char>, Seq<char>)> {
    let u = if t.len() > 0 && t[0] == '+' {
        t.skip(1)
    } else {
        t
    };
    match first_match_from(u, seq!['.'], 0) {
        Some(p) => {
            let ip = u.subrange(0, p);
            let fp = u.subrange(p + 1, u.len() as int);
            if all_digits(ip) && all_digits(fp) && ip.len() + fp.len() > 0 {
                Some((ip, fp))
            } else {
                None
            }
        },
        None => {
            if u.len() > 0 && all_digits(u) {
                Some((u, Seq::<char>::empty()))
            } else {
                None
            }
        },
    }
}

/// The number denoted by `t` times `mult`, truncated toward zero and
/// saturated at `u64::MAX`; `None` when `t` is not a valid decimal literal.
pub open spec fn spec_scaled_value(t: Seq<char>, mult: u64) -> Option<u64> {
    match spec_number_parts(t) {
        None => None,
        Some((ip, fp)) => {
            let v = (dv(ip + fp) * mult) / pow10(fp.len());
            Some(
                if v > u64::MAX {
                    u64::MAX as u64
                } else {
                    v as u64
                },
            )
        },
    }
}

/// (a*m + b) / m == a for 0 <= b < m: the quotient of a near-multiple.
proof fn lemma_near_multiple_div(a: int, b: int, m: int)
    requires
        m > 0,
        0 <= b < m,
        a >= 0,
    ensures
        (a * m + b) / m == a,
{
    assert((a * m + b) / m == a) by (nonlinear_arith)
        requires
            m > 0,
            0 <= b < m,
            a >= 0,
    ;
}

/// Floor-division step used when folding fractional digits from the right:
/// (a + floor(b/p)) / 10 == (a*p + b) / (10*p).
proof fn lemma_carry_step(a: int, b: int, p: int)
    requires
        a >= 0,
        b >= 0,
        p >= 1,
    ensures
        (a + b / p) / 10 == (a * p + b) / (10 * p),
{
    let q = b / p;
    let r = b % p;
    lemma_fundamental_div_mod(b, p);
    assert(0 <= r < p) by (nonlinear_arith)
        requires
            p >= 1,
            b >= 0,
            r == b % p,
    ;
    lemma_div_pos_is_pos(b, p);
    let s = (a + q) / 10;
    let u = (a + q) % 10;
    lemma_fundamental_div_mod(a + q, 10);
    assert(0 <= u < 10) by (nonlinear_arith)
        requires
            a + q >= 0,
            u == (a + q) % 10,
    ;
    assert(s >= 0) by {
        lemma_div_pos_is_pos(a + q, 10);
    }
    assert(a * p + b == s * (10 * p) + (u * p + r)) by (nonlinear_arith)
        requires
            b == p * q + r,
            a + q == 10 * s + u,
    ;
    assert(0 <= u * p + r < 10 * p) by (nonlinear_arith)
        requires
            0 <= u < 10,
            0 <= r < p,
            p >= 1,
    ;
    lemma_near_multiple_div(s, u * p + r, 10 * p);
}

/// Parses `t` as a decimal number, multiplies by `mult`, truncates toward
/// zero, and saturates at `u64::MAX`.
pub fn parse_scaled(t: &str, mult: u64) -> (r: Option<u64>)
    requires
        1 <= mult <= 0x40000000,
    ensures
        r == spec_scaled_value(t@, mult),
{
    let n = t.unicode_len();
    let start: usize = if n > 0 && t.get_char(0) == '+' {
        1
    } else {
        0
    };
    let ghost u = if t@.len() > 0 && t@[0] == '+' {
        t@.skip(1)
    } else {
        t@
    };
    assert(u =~= t@.subrange(start as int, n as int));

    // Locate the dot and check every other character is a digit.
    let mut dot: Option<usize> = None;
    let mut i: usize = start;
    let mut ndigits: usize = 0;
    while i < n
        invariant
            n == t@.len(),
            start <= i <= n,
            start == 0 || start == 1,
            u == (if t@.len() > 0 && t@[0] == '+' {
                t@.skip(1)
            } else {
                t@
            }),
            u =~= t@.subrange(start as int, n as int),
            match dot {
                Some(p) => start <= p < i && first_match_from(u, seq!['.'], 0) == Some(
                    p - start,
                ) && all_digits(u.subrange(0, p - start)) && all_digits(
                    u.subrange(p - start + 1, i - start),
                ) && ndigits == i - start - 1,
                None => first_match_from(u, seq!['.'], 0) == first_match_from(
                    u,
                    seq!['.'],
                    i - start,
                ) && all_digits(u.subrange(0, i - start)) && ndigits == i - start,
            },
        decreases n - i,
    {
        let c = t.get_char(i);
        proof {
            assert(u[i - start] == t@[i as int]);
        }
        if c == '.' {
            match dot {
                Some(p) => {
                    proof {
                        let pp = p as int - start;
                        assert(u.subrange(pp + 1, u.len() as int)[i - start - pp - 1] == u[i
                            - start]);
                        assert(!all_digits(u.subrange(pp + 1, u.len() as int)));
                    }
                    return None;
                },
                None => {
                    proof {
                        assert(match_at(u, seq!['.'], i - start)) by {
                            assert(u.subrange(i - start, i - start + 1) =~= seq!['.']);
                        }
                    }
                    dot = Some(i);
                },
            }
        } else {
            match digit_of(c) {
                None => {
                    proof {
                        match dot {
                            Some(p) => {
                                let pp = p as int - start;
                                assert(u.subrange(pp + 1, u.len() as int)[i - start - pp - 1]
                                    == u[i - start]);
                                assert(!all_digits(u.subrange(pp + 1, u.len() as int)));
                            },
                            None => {
                                if first_match_from(u, seq!['.'], 0) is Some {
                                    let f = first_match_from(u, seq!['.'], 0)->Some_0;
                                    lemma_first_match_lb(u, seq!['.'], i - start);
                                    assert(u.subrange(f, f + 1)[0] == u[f]);
                                    assert(u[f] == '.');
                                    assert(f > i - start);
                                    assert(u.subrange(0, f)[i - start] == u[i - start]);
                                    assert(!all_digits(u.subrange(0, f)));
                                } else {
                                    assert(!is_digit(u[i - start]));
                                    assert(!all_digits(u));
                                }
                            },
                        }
                    }
                    return None;
                },
                Some(_) => {
                    proof {
                        match dot {
                            Some(p) => {
                                let pp = p as int - start;
                                assert(u.subrange(pp + 1, i - start + 1) =~= u.subrange(
                                    pp + 1,
                                    i - start,
                                ).push(u[i - start]));
                            },
                            None => {
                                assert(u.subrange(0, i - start + 1) =~= u.subrange(
                                    0,
                                    i - start,
                                ).push(u[i - start]));
                                assert(!match_at(u, seq!['.'], i - start)) by {
                                    if match_at(u, seq!['.'], i - start) {
                                        assert(u.subrange(i - start, i - start + 1)[0] == u[i
                                            - start]);
                                        assert(seq!['.'][0] == '.');
                                    }
                                }
                            },
                        }
                    }
                    ndigits += 1;
                },
            }
        }
        i += 1;
    }
    if ndigits == 0 {
        proof {
            match dot {
                Some(p) => {
                    assert(u.subrange(0, p - start).len() + u.subrange(
                        p - start + 1,
                        u.len() as int,
                    ).len() == 0);
                },
                None => {
                    assert(u.len() == 0);
                },
            }
        }
        return None;
    }
    let ip_end: usize = match dot {
        Some(p) => p,
        None => n,
    };
    let ghost ip = u.subrange(0, ip_end - start);
    let ghost fp = match dot {
        Some(p) => u.subrange(p as int - start + 1, u.len() as int),
        None => Seq::<char>::empty(),
    };
    proof {
        if dot is None {
            assert(u.subrange(0, n - start) =~= u);
        }
        assert(spec_number_parts(t@) == Some((ip, fp)));
        assert(all_digits(ip));
        assert(all_digits(fp));
    }

    // Integer part, watching for overflow past u64::MAX.
    let mut ival: u64 = 0;
    let mut hi = false;
    let mut j: usize = start;
    while j < ip_end
        invariant
            n == t@.len(),
            start <= j <= ip_end <= n,
            start == 0 || start == 1,
            u =~= t@.subrange(start as int, n as int),
            ip =~= u.subrange(0, ip_end - start),
            all_digits(ip),
            !hi ==> ival == dv(ip.take(j - start)),
            hi ==> dv(ip) > u64::MAX,
        decreases ip_end - j,
    {
        if !hi {
            let c = t.get_char(j);
            proof {
                assert(ip[j - start] == u[j - start]);
                assert(u[j - start] == t@[j as int]);
            }
            let dig = match digit_of(c) {
                Some(dg) => dg,
                None => {
                    proof {
                        assert(false);
                    }
                    0
                },
            };
            proof {
                lemma_dv_push(ip, j - start);
            }
            if ival > (u64::MAX - dig) / 10 {
                proof {
                    lemma_digit_overflow(ival as int, dig as int, u64::MAX as int);
                    assert(dv(ip.take(j - start + 1)) > u64::MAX);
                    lemma_dv_prefix(ip, j - start + 1);
                }
                hi = true;
            } else {
                ival = ival * 10 + dig;
            }
        }
        j += 1;
    }
    proof {
        if !hi {
            assert(ip.take(ip_end - start) =~= ip);
        }
    }

    // Fractional part, folded from the right with a bounded carry.
    let fp_start: usize = match dot {
        Some(p) => p + 1,
        None => n,
    };
    let mut carry: u64 = 0;
    let mut k: usize = n;
    proof {
        assert(fp =~= u.subrange(fp_start - start, n - start));
        assert(fp.skip(n - fp_start) =~= Seq::<char>::empty());
    }
    while k > fp_start
        invariant
            n == t@.len(),
            fp_start <= k <= n,
            start == 0 || start == 1,
            start <= fp_start <= n,
            u =~= t@.subrange(start as int, n as int),
            fp =~= u.subrange(fp_start - start, n - start),
            all_digits(fp),
            1 <= mult <= 0x40000000,
            carry <= mult,
            carry == (dv(fp.skip(k - fp_start)) * mult) / pow10((n - k) as nat),
        decreases k,
    {
        let c = t.get_char(k - 1);
        proof {
            assert(fp[k - 1 - fp_start] == u[k - 1 - start]);
            assert(u[k - 1 - start] == t@[k - 1]);
        }
        let dig = match digit_of(c) {
            Some(dg) => dg,
            None => {
                proof {
                    assert(false);
                }
                0
            },
        };
        let ghost old_carry = carry as int;
        proof {
            assert(mult * dig + carry <= 10 * mult && 10 * mult <= 0x280000000)
                by (nonlinear_arith)
                requires
                    dig <= 9,
                    carry <= mult,
                    1 <= mult <= 0x40000000,
            ;
        }
        carry = (mult * dig + carry) / 10;
        proof {
            let tail = fp.skip(k - fp_start);
            let tail1 = fp.skip(k - 1 - fp_start);
            assert(tail1[0] == fp[k - 1 - fp_start]);
            assert(tail1.skip(1) =~= tail);
            lemma_dv_first(tail1);
            lemma_pow10_pos((n - k) as nat);
            lemma_dv_bound(tail);
            assert(dv(tail) * mult >= 0) by (nonlinear_arith)
                requires
                    dv(tail) >= 0,
                    mult >= 1,
            ;
            lemma_carry_step(mult as int * dig as int, dv(tail) * mult, pow10((n - k) as nat));
            assert((mult * dig) * pow10((n - k) as nat) + dv(tail) * mult == dv(tail1) * mult)
                by (nonlinear_arith)
                requires
                    dv(tail1) == digit_val(fp[k - 1 - fp_start]) * pow10((n - k) as nat) + dv(
                        tail,
                    ),
                    dig == digit_val(fp[k - 1 - fp_start]),
            ;
            assert(pow10((n - k + 1) as nat) == 10 * pow10((n - k) as nat));
            assert(carry <= mult) by {
                lemma_div_is_ordered(mult as int * dig as int + old_carry, 10 * mult, 10);
                lemma_div_multiples_vanish(mult as int, 10);
            }
        }
        k -= 1;
    }
    proof {
        assert(fp.skip(0) =~= fp);
        assert((n - fp_start) as nat == fp.len());
    }

    // Combine.
    let ghost v = (dv(ip + fp) * mult) / pow10(fp.len());
    proof {
        lemma_dv_concat(ip, fp);
        lemma_dv_bound(ip);
        lemma_dv_bound(fp);
        lemma_pow10_pos(fp.len());
    }
    if hi {
        proof {
            assert(dv(ip + fp) >= dv(ip) * pow10(fp.len())) by (nonlinear_arith)
                requires
                    dv(ip + fp) == dv(ip) * pow10(fp.len()) + dv(fp),
                    dv(fp) >= 0,
            ;
            assert(dv(ip) * pow10(fp.len()) * mult <= dv(ip + fp) * mult) by (nonlinear_arith)
                requires
                    dv(ip) * pow10(fp.len()) <= dv(ip + fp),
                    mult >= 1,
            ;
            lemma_div_is_ordered(dv(ip) * pow10(fp.len()) * mult, dv(ip + fp) * mult, pow10(
                fp.len(),
            ));
            assert(dv(ip) * pow10(fp.len()) * mult == (dv(ip) * mult) * pow10(fp.len()))
                by (nonlinear_arith);
            lemma_near_multiple_div(dv(ip) * mult, 0, pow10(fp.len()));
            assert(dv(ip) * mult >= dv(ip)) by (nonlinear_arith)
                requires
                    mult >= 1,
                    dv(ip) >= 0,
            ;
            assert(v > u64::MAX);
        }
        return Some(u64::MAX);
    }
    proof {
        assert(ival as int * mult as int + carry <= 0xffffffffffffffff * 0x40000000
            + 0x40000000) by (nonlinear_arith)
            requires
                ival <= 0xffffffffffffffff,
                carry <= mult,
                1 <= mult <= 0x40000000,
        ;
    }
    let tot: u128 = (ival as u128) * (mult as u128) + (carry as u128);
    proof {
        assert(dv(ip + fp) * mult == dv(fp) * mult + (dv(ip) * mult) * pow10(fp.len()))
            by (nonlinear_arith)
            requires
                dv(ip + fp) == dv(ip) * pow10(fp.len()) + dv(fp),
        ;
        assert(dv(fp) * mult >= 0) by (nonlinear_arith)
            requires
                dv(fp) >= 0,
                mult >= 1,
        ;
        assert(dv(ip) * mult >= 0) by (nonlinear_arith)
            requires
                dv(ip) >= 0,
                mult >= 1,
        ;
        lemma_hoist_over_denominator(dv(fp) * mult, dv(ip) * mult, pow10(fp.len()) as nat);
        assert(v == dv(ip) * mult + (dv(fp) * mult) / pow10(fp.len()));
        assert(tot == v);
    }
    if tot > u64::MAX as u128 {
        Some(u64::MAX)
    } else {
        Some(tot as u64)
    }
}

} // verus!
