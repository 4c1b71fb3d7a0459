use vstd::prelude::*;

use crate::protocol::{parse_timestamp, timestamp_value};

verus! {

/// A temperature reading as a decimal number: `units / 10^scale`.
///
/// The scale is the number of digits the sensor wrote after the decimal point, so a
/// reading written back out shows the same digits it came in with.
#[derive(Clone, Copy, Debug, PartialEq, Eq, Structural)]
pub struct Reading {
    pub units: i64,
    pub scale: usize,
}

impl Reading {
    pub fn new(units: i64, scale: usize) -> (r: Reading)
        ensures
            r.units == units,
            r.scale == scale,
    {
        Reading { units, scale }
    }
}

pub open spec fn is_digit(c: char) -> bool {
    '0' <= c && c <= '9'
}

pub open spec fn digit_value(c: char) -> nat {
    (c as int - '0' as int) as nat
}

pub open spec fn digit_char(d: nat) -> char {
    ((d + 48) as u8) as char
}

/// How many decimal points `s` holds.
pub open spec fn dots(s: Seq<char>) -> nat
    decreases s.len(),
{
    if s.len() == 0 {
        0
    } else {
        dots(s.drop_last()) + if s.last() == '.' { 1nat } else { 0nat }
    }
}

/// How many decimal digits `s` holds.
pub open spec fn digit_count(s: Seq<char>) -> nat
    decreases s.len(),
{
    if s.len() == 0 {
        0
    } else {
        digit_count(s.drop_last()) + if is_digit(s.last()) { 1nat } else { 0nat }
    }
}

/// The digits of `s`, the decimal point skipped, read as one base-ten number.
pub open spec fn mantissa(s: Seq<char>) -> nat
    decreases s.len(),
{
    if s.len() == 0 {
        0
    } else if s.last() == '.' {
        mantissa(s.drop_last())
    } else {
        mantissa(s.drop_last()) * 10 + digit_value(s.last())
    }
}

/// How many characters follow the decimal point of `s`; zero where it has none.
pub open spec fn fraction_len(s: Seq<char>) -> nat
    decreases s.len(),
{
    if s.len() == 0 {
        0
    } else if s.last() == '.' {
        0
    } else if dots(s.drop_last()) > 0 {
        fraction_len(s.drop_last()) + 1
    } else {
        0
    }
}

/// Digits with at most one decimal point among them, and at least one digit.
pub open spec fn is_unsigned_decimal(s: Seq<char>) -> bool {
    &&& forall|i: int| 0 <= i < s.len() ==> is_digit(#[trigger] s[i]) || s[i] == '.'
    &&& dots(s) <= 1
    &&& digit_count(s) >= 1
}

pub open spec fn has_sign(s: Seq<char>) -> bool {
    s.len() > 0 && (s[0] == '+' || s[0] == '-')
}

pub open spec fn unsigned_part(s: Seq<char>) -> Seq<char> {
    if has_sign(s) {
        s.drop_first()
    } else {
        s
    }
}

/// The largest magnitude the digits of `s` may read as: that of `i64::MIN` after a minus
/// sign, `i64::MAX` otherwise.
pub open spec fn magnitude_limit(s: Seq<char>) -> int {
    if s.len() > 0 && s[0] == '-' {
        i64::MAX + 1
    } else {
        i64::MAX as int
    }
}

pub open spec fn is_exponent_mark(c: char) -> bool {
    c == 'e' || c == 'E'
}

/// Where the first exponent mark of `s` stands; `s.len()` where it has none.
pub open spec fn mark_index(s: Seq<char>) -> nat
    decreases s.len(),
{
    if s.len() == 0 {
        0
    } else if is_exponent_mark(s[0]) {
        0
    } else {
        1 + mark_index(s.drop_first())
    }
}

pub open spec fn pow10(k: nat) -> nat
    decreases k,
{
    if k == 0 {
        1
    } else {
        10 * pow10((k - 1) as nat)
    }
}

/// The power of ten an exponent `x` writes: an optional sign, then digits that read as
/// at most `u64::MAX`.
pub open spec fn exponent_value(x: Seq<char>) -> Option<int> {
    if x.len() > 0 && x[0] == '-' {
        let r = x.drop_first();
        if r.len() > 0 && r[0] == '+' {
            None
        } else {
            match timestamp_value(r) {
                Some(v) => Some(-(v as int)),
                None => None,
            }
        }
    } else {
        match timestamp_value(x) {
            Some(v) => Some(v as int),
            None => None,
        }
    }
}

pub open spec fn signed(neg: bool, m: int) -> int {
    if neg {
        -m
    } else {
        m
    }
}

/// The reading `m / 10^f * 10^e`, negated where `neg` holds: kept with `f - e` digits
/// after the point where `e <= f`, else as a whole number, whose magnitude may not
/// exceed `limit`.
pub open spec fn scaled(neg: bool, m: nat, f: nat, e: int, limit: int) -> Option<Reading> {
    if e <= f {
        if f - e <= usize::MAX {
            Some(Reading { units: signed(neg, m as int) as i64, scale: (f - e) as usize })
        } else {
            None
        }
    } else if m * pow10((e - f) as nat) <= limit {
        Some(Reading { units: signed(neg, (m * pow10((e - f) as nat)) as int) as i64, scale: 0 })
    } else {
        None
    }
}

/// The reading that `s` writes: an optional sign, then digits with at most one decimal
/// point and at least one digit, then optionally `e` or `E` and a power of ten. The
/// digits, and the value, must fit in an `i64`.
pub open spec fn decimal_value(s: Seq<char>) -> Option<Reading> {
    let b = unsigned_part(s);
    let k = mark_index(b) as int;
    let d = b.subrange(0, k);
    let limit = magnitude_limit(s);
    let e = if k >= b.len() {
        Some(0int)
    } else {
        exponent_value(b.subrange(k + 1, b.len() as int))
    };
    if is_unsigned_decimal(d) && mantissa(d) <= limit && e is Some {
        scaled(s.len() > 0 && s[0] == '-', mantissa(d), fraction_len(d), e->Some_0, limit)
    } else {
        None
    }
}

/// The decimal digits of `m`, most significant first, with no leading zero.
pub open spec fn whole_text(m: nat) -> Seq<char>
    decreases m,
{
    if m < 10 {
        seq![digit_char(m)]
    } else {
        whole_text(m / 10).push(digit_char(m % 10))
    }
}

/// `m / 10^f` written with exactly `f` digits after the decimal point.
pub open spec fn number_text(m: nat, f: nat) -> Seq<char>
    decreases f,
{
    if f == 0 {
        whole_text(m)
    } else if f == 1 {
        whole_text(m / 10).push('.').push(digit_char(m % 10))
    } else {
        number_text(m / 10, (f - 1) as nat).push(digit_char(m % 10))
    }
}

pub open spec fn magnitude(x: i64) -> nat {
    if x < 0 {
        (-(x as int)) as nat
    } else {
        x as nat
    }
}

/// How a reading is written out: a minus sign where it is negative, then its digits
/// with `scale` of them after the decimal point.
pub open spec fn reading_text(r: Reading) -> Seq<char> {
    let t = number_text(magnitude(r.units), r.scale as nat);
    if r.units < 0 {
        seq!['-'] + t
    } else {
        t
    }
}

/// Neither count shrinks as `s` grows: what holds of a prefix bounds the whole.
pub proof fn lemma_prefix_bounds(s: Seq<char>, k: int)
    requires
        0 <= k <= s.len(),
    ensures
        dots(s.subrange(0, k)) <= dots(s),
        mantissa(s.subrange(0, k)) <= mantissa(s),
    decreases s.len(),
{
    if k < s.len() {
        assert(s.drop_last().subrange(0, k) =~= s.subrange(0, k));
        lemma_prefix_bounds(s.drop_last(), k);
    } else {
        assert(s.subrange(0, k) =~= s);
    }
}

/// Reads the digits and decimal point of `s[b..hi]`: the number they make, and how
/// many digits follow the point, where that number is at most `limit`.
pub fn scan_decimal(s: &Vec<char>, b: usize, hi: usize, limit: u64) -> (r: Option<(u64, usize)>)
    requires
        b <= hi <= s.len(),
        limit >= 9,
    ensures
        ({
            let d = s@.subrange(b as int, hi as int);
            match r {
                Some((m, f)) => is_unsigned_decimal(d) && mantissa(d) <= limit && m == mantissa(d)
                    && f == fraction_len(d),
                None => !(is_unsigned_decimal(d) && mantissa(d) <= limit),
            }
        }),
{
    let ghost body = s@.subrange(b as int, hi as int);
    let mut i: usize = b;
    let mut mag: u64 = 0;
    let mut seen_dot = false;
    let mut any_digit = false;
    let mut scale: usize = 0;
    while i < hi
        invariant
            b <= i <= hi <= s.len(),
            body == s@.subrange(b as int, hi as int),
            forall|k: int| b <= k < i ==> is_digit(#[trigger] s@[k]) || s@[k] == '.',
            seen_dot == (dots(s@.subrange(b as int, i as int)) > 0),
            dots(s@.subrange(b as int, i as int)) <= 1,
            scale == fraction_len(s@.subrange(b as int, i as int)),
            !seen_dot ==> scale == 0,
            scale <= i - b,
            any_digit == (digit_count(s@.subrange(b as int, i as int)) >= 1),
            mag == mantissa(s@.subrange(b as int, i as int)),
            mag <= limit,
            limit >= 9,
        decreases hi - i,
    {
        let c = s[i];
        let ghost p = s@.subrange(b as int, i as int);
        let ghost grown = s@.subrange(b as int, i + 1);
        assert(grown.drop_last() =~= p);
        assert(grown =~= body.subrange(0, i + 1 - b));
        if c == '.' {
            if seen_dot {
                proof {
                    assert(dots(grown) == dots(p) + 1);
                    lemma_prefix_bounds(body, i + 1 - b);
                    assert(!is_unsigned_decimal(body));
                }
                return None;
            }
            seen_dot = true;
            scale = 0;
        } else if '0' <= c && c <= '9' {
            let d = (c as u32 - '0' as u32) as u64;
            if mag > (limit - d) / 10 {
                proof {
                    assert(mag * 10 + d > limit) by (nonlinear_arith)
                        requires
                            mag > (limit - d) / 10,
                            d <= 9,
                            limit >= 9,
                    ;
                    assert(digit_value(c) == d);
                    assert(mantissa(grown) == mag * 10 + d);
                    lemma_prefix_bounds(body, i + 1 - b);
                    assert(mantissa(body) > limit);
                }
                return None;
            }
            assert(mag * 10 + d <= limit) by (nonlinear_arith)
                requires
                    mag <= (limit - d) / 10,
                    d <= 9,
                    limit >= 9,
            ;
            mag = mag * 10 + d;
            if seen_dot {
                scale = scale + 1;
            }
            any_digit = true;
        } else {
            assert(body[i - b] == c);
            assert(!is_digit(body[i - b]) && body[i - b] != '.');
            assert(!is_unsigned_decimal(body));
            return None;
        }
        i = i + 1;
    }
    assert(s@.subrange(b as int, i as int) =~= body);
    if !any_digit {
        return None;
    }
    Some((mag, scale))
}

/// Where the first exponent mark of `s[b..hi]` stands, or `hi` where it has none.
pub fn find_mark(s: &Vec<char>, b: usize, hi: usize) -> (k: usize)
    requires
        b <= hi <= s.len(),
    ensures
        b <= k <= hi,
        k - b == mark_index(s@.subrange(b as int, hi as int)),
{
    let mut k: usize = b;
    while k < hi && s[k] != 'e' && s[k] != 'E'
        invariant
            b <= k <= hi <= s.len(),
            mark_index(s@.subrange(b as int, hi as int)) == (k - b) + mark_index(
                s@.subrange(k as int, hi as int),
            ),
        decreases hi - k,
    {
        assert(s@.subrange(k as int, hi as int).drop_first() =~= s@.subrange(k + 1, hi as int));
        k = k + 1;
    }
    k
}

pub proof fn lemma_mark_index_none(s: Seq<char>)
    requires
        forall|i: int| 0 <= i < s.len() ==> !is_exponent_mark(#[trigger] s[i]),
    ensures
        mark_index(s) == s.len(),
    decreases s.len(),
{
    if s.len() > 0 {
        assert forall|i: int| 0 <= i < s.drop_first().len() implies !is_exponent_mark(
            #[trigger] s.drop_first()[i],
        ) by {
            assert(s.drop_first()[i] == s[i + 1]);
        }
        lemma_mark_index_none(s.drop_first());
    }
}

proof fn lemma_pow10_grows(j: nat, k: nat)
    requires
        j <= k,
    ensures
        pow10(j) <= pow10(k),
        pow10(j) >= 1,
    decreases k,
{
    if j < k {
        lemma_pow10_grows(j, (k - 1) as nat);
    } else if k > 0 {
        lemma_pow10_grows(0, (k - 1) as nat);
    }
}

fn signed_units(neg: bool, u: u64, limit: u64) -> (units: i64)
    requires
        u <= limit,
        limit == if neg { 9223372036854775808u64 } else { 9223372036854775807u64 },
    ensures
        units == signed(neg, u as int),
{
    if neg {
        (0i128 - u as i128) as i64
    } else {
        u as i64
    }
}

/// The reading `m / 10^f * 10^e`, `e` being `e_val` negated where `e_neg` holds.
pub fn scale_reading(neg: bool, m: u64, f: usize, e_neg: bool, e_val: u64, limit: u64) -> (r:
    Option<Reading>)
    requires
        m <= limit,
        limit == if neg { 9223372036854775808u64 } else { 9223372036854775807u64 },
    ensures
        r == scaled(neg, m as nat, f as nat, signed(e_neg, e_val as int), limit as int),
{
    if e_neg {
        let sc: u128 = f as u128 + e_val as u128;
        if sc > usize::MAX as u128 {
            return None;
        }
        return Some(Reading { units: signed_units(neg, m, limit), scale: sc as usize });
    }
    if e_val <= f as u64 {
        return Some(Reading { units: signed_units(neg, m, limit), scale: f - e_val as usize });
    }
    let shift: u64 = e_val - f as u64;
    assert((signed(e_neg, e_val as int) - f) as nat == shift as nat);
    if m == 0 {
        assert(m * pow10(shift as nat) == 0) by (nonlinear_arith)
            requires
                m == 0,
        ;
        return Some(Reading { units: 0, scale: 0 });
    }
    let mut u: u64 = m;
    let mut j: u64 = 0;
    while j < shift
        invariant
            1 <= m <= u <= limit,
            j <= shift,
            u == m * pow10(j as nat),
            limit <= 9223372036854775808u64,
            (signed(e_neg, e_val as int) - f) as nat == shift as nat,
            signed(e_neg, e_val as int) > f,
        decreases shift - j,
    {
        if u > limit / 10 {
            proof {
                assert(u * 10 > limit) by (nonlinear_arith)
                    requires
                        u > limit / 10,
                ;
                assert(j + 1 <= shift);
                lemma_pow10_grows((j + 1) as nat, shift as nat);
                assert(pow10((j + 1) as nat) == 10 * pow10(j as nat));
                assert(m * pow10(shift as nat) >= m * pow10((j + 1) as nat)) by (nonlinear_arith)
                    requires
                        pow10((j + 1) as nat) <= pow10(shift as nat),
                        m >= 1,
                ;
                assert(m * pow10((j + 1) as nat) == u * 10) by (nonlinear_arith)
                    requires
                        pow10((j + 1) as nat) == 10 * pow10(j as nat),
                        u == m * pow10(j as nat),
                ;
                assert(m * pow10(shift as nat) > limit);
                assert(!(m * pow10((signed(e_neg, e_val as int) - f) as nat) <= limit));
            }
            return None;
        }
        proof {
            assert(pow10((j + 1) as nat) == 10 * pow10(j as nat));
            assert(m * pow10((j + 1) as nat) == u * 10) by (nonlinear_arith)
                requires
                    pow10((j + 1) as nat) == 10 * pow10(j as nat),
                    u == m * pow10(j as nat),
            ;
        }
        u = u * 10;
        j = j + 1;
    }
    Some(Reading { units: signed_units(neg, u, limit), scale: 0 })
}

/// Reads the reading that `s[lo..hi]` writes.
#[verifier::rlimit(40)]
pub fn parse_decimal(s: &Vec<char>, lo: usize, hi: usize) -> (r: Option<Reading>)
    requires
        lo <= hi <= s.len(),
    ensures
        r == decimal_value(s@.subrange(lo as int, hi as int)),
{
    let ghost t = s@.subrange(lo as int, hi as int);
    let mut b: usize = lo;
    let mut neg = false;
    if lo < hi && (s[lo] == '+' || s[lo] == '-') {
        neg = s[lo] == '-';
        b = lo + 1;
    }
    let limit: u64 = if neg {
        9223372036854775808u64
    } else {
        9223372036854775807u64
    };
    let ghost body = s@.subrange(b as int, hi as int);
    assert(body =~= unsigned_part(t));
    assert(neg == (t.len() > 0 && t[0] == '-'));
    let k = find_mark(s, b, hi);
    let ghost d = s@.subrange(b as int, k as int);
    assert(body.subrange(0, k - b) =~= d);
    let ghost e_spec = if k - b >= body.len() {
        Some(0int)
    } else {
        exponent_value(body.subrange(k - b + 1, body.len() as int))
    };
    assert(decimal_value(t) == if is_unsigned_decimal(d) && mantissa(d) <= limit && e_spec is Some {
        scaled(neg, mantissa(d), fraction_len(d), e_spec->Some_0, limit as int)
    } else {
        None
    });
    let (m, f) = match scan_decimal(s, b, k, limit) {
        None => {
            return None;
        },
        Some(x) => x,
    };
    if k == hi {
        assert(e_spec == Some(0int));
        return scale_reading(neg, m, f, false, 0, limit);
    }
    assert(body.subrange(k - b + 1, body.len() as int) =~= s@.subrange(k + 1, hi as int));
    assert(e_spec == exponent_value(s@.subrange(k + 1, hi as int)));
    match parse_exponent(s, k + 1, hi) {
        None => None,
        Some((e_neg, e_val)) => scale_reading(neg, m, f, e_neg, e_val, limit),
    }
}

/// Reads the power of ten that `s[lo..hi]` writes, as its sign and magnitude.
pub fn parse_exponent(s: &Vec<char>, lo: usize, hi: usize) -> (r: Option<(bool, u64)>)
    requires
        lo <= hi <= s.len(),
    ensures
        match r {
            Some((neg, v)) => exponent_value(s@.subrange(lo as int, hi as int)) == Some(
                signed(neg, v as int),
            ),
            None => exponent_value(s@.subrange(lo as int, hi as int)) is None,
        },
{
    let ghost x = s@.subrange(lo as int, hi as int);
    if lo < hi && s[lo] == '-' {
        assert(x.drop_first() =~= s@.subrange(lo + 1, hi as int));
        if lo + 1 < hi && s[lo + 1] == '+' {
            return None;
        }
        match parse_timestamp(s, lo + 1, hi) {
            None => None,
            Some(v) => Some((true, v)),
        }
    } else {
        match parse_timestamp(s, lo, hi) {
            None => None,
            Some(v) => Some((false, v)),
        }
    }
}

pub fn digit_to_char(d: u64) -> (c: char)
    requires
        d < 10,
    ensures
        c == digit_char(d as nat),
{
    (d as u8 + 48u8) as char
}

pub fn push_whole(m: u64, out: &mut Vec<char>)
    ensures
        final(out)@ == old(out)@ + whole_text(m as nat),
    decreases m,
{
    if m < 10 {
        out.push(digit_to_char(m));
        assert(final(out)@ =~= old(out)@ + whole_text(m as nat));
    } else {
        push_whole(m / 10, out);
        out.push(digit_to_char(m % 10));
        assert(final(out)@ =~= old(out)@ + whole_text(m as nat));
    }
}

fn push_number(m: u64, f: usize, out: &mut Vec<char>)
    ensures
        final(out)@ == old(out)@ + number_text(m as nat, f as nat),
    decreases f,
{
    if f == 0 {
        push_whole(m, out);
    } else if f == 1 {
        push_whole(m / 10, out);
        out.push('.');
        out.push(digit_to_char(m % 10));
        assert(final(out)@ =~= old(out)@ + number_text(m as nat, f as nat));
    } else {
        push_number(m / 10, f - 1, out);
        out.push(digit_to_char(m % 10));
        assert(final(out)@ =~= old(out)@ + number_text(m as nat, f as nat));
    }
}

/// The characters a reading is written out as.
pub fn reading_chars(r: Reading) -> (t: Vec<char>)
    ensures
        t@ == reading_text(r),
{
    let mut out: Vec<char> = Vec::new();
    if r.units < 0 {
        out.push('-');
        push_number((0 - (r.units as i128)) as u64, r.scale, &mut out);
    } else {
        push_number(r.units as u64, r.scale, &mut out);
    }
    assert(out@ =~= reading_text(r));
    out
}

proof fn lemma_digit_char(d: nat)
    requires
        d < 10,
    ensures
        is_digit(digit_char(d)),
        digit_value(digit_char(d)) == d,
{
}

proof fn lemma_push(x: Seq<char>, c: char)
    ensures
        x.push(c).drop_last() == x,
        x.push(c).last() == c,
        x.len() > 0 ==> x.push(c)[0] == x[0],
{
    assert(x.push(c).drop_last() =~= x);
}

pub proof fn lemma_whole_text(m: nat)
    ensures
        whole_text(m).len() >= 1,
        forall|i: int| 0 <= i < whole_text(m).len() ==> is_digit(#[trigger] whole_text(m)[i]),
        dots(whole_text(m)) == 0,
        digit_count(whole_text(m)) >= 1,
        mantissa(whole_text(m)) == m,
    decreases m,
{
    lemma_digit_char(m % 10);
    let c = digit_char(m % 10);
    let t = whole_text(m);
    if m < 10 {
        let e = Seq::<char>::empty();
        lemma_push(e, c);
        assert(t =~= e.push(c));
        assert(dots(e) == 0 && mantissa(e) == 0 && digit_count(e) == 0);
        assert(c != '.');
        assert(dots(t) == dots(e));
        assert(mantissa(t) == mantissa(e) * 10 + digit_value(c));
    } else {
        let w = whole_text(m / 10);
        lemma_whole_text(m / 10);
        lemma_push(w, c);
        assert(c != '.');
        assert(mantissa(t) == mantissa(w) * 10 + digit_value(c));
        assert(m == (m / 10) * 10 + m % 10);
    }
}

pub proof fn lemma_number_text(m: nat, f: nat)
    ensures
        number_text(m, f).len() >= 1,
        is_digit(number_text(m, f)[0]),
        forall|i: int|
            0 <= i < number_text(m, f).len() ==> is_digit(#[trigger] number_text(m, f)[i])
                || number_text(m, f)[i] == '.',
        dots(number_text(m, f)) == if f > 0 { 1nat } else { 0nat },
        digit_count(number_text(m, f)) >= 1,
        mantissa(number_text(m, f)) == m,
        fraction_len(number_text(m, f)) == f,
    decreases f,
{
    lemma_digit_char(m % 10);
    let c = digit_char(m % 10);
    let t = number_text(m, f);
    assert(c != '.');
    assert(m == (m / 10) * 10 + m % 10);
    if f == 0 {
        lemma_whole_text(m);
        assert(is_digit(t[0]));
        if t.len() > 0 {
            assert(is_digit(t[t.len() - 1]));
        }
    } else if f == 1 {
        lemma_whole_text(m / 10);
        let w = whole_text(m / 10);
        let wd = w.push('.');
        lemma_push(w, '.');
        lemma_push(wd, c);
        assert(is_digit(w[0]));
        assert(dots(wd) == dots(w) + 1);
        assert(dots(t) == dots(wd));
        assert(mantissa(wd) == mantissa(w));
        assert(mantissa(t) == mantissa(wd) * 10 + digit_value(c));
        assert(fraction_len(wd) == 0);
        assert(fraction_len(t) == fraction_len(wd) + 1);
        assert forall|i: int| 0 <= i < t.len() implies is_digit(#[trigger] t[i]) || t[i] == '.' by {
            if i < w.len() {
                assert(t[i] == w[i]);
            }
        }
    } else {
        let p = number_text(m / 10, (f - 1) as nat);
        lemma_number_text(m / 10, (f - 1) as nat);
        lemma_push(p, c);
        assert(dots(t) == dots(p));
        assert(mantissa(t) == mantissa(p) * 10 + digit_value(c));
        assert(fraction_len(t) == fraction_len(p) + 1);
    }
}

/// A reading written out reads back as the same reading.
pub proof fn lemma_reading_text_round_trip(r: Reading)
    ensures
        decimal_value(reading_text(r)) == Some(r),
{
    let m = magnitude(r.units);
    let t = number_text(m, r.scale as nat);
    lemma_number_text(m, r.scale as nat);
    lemma_mark_index_none(t);
    assert(t.subrange(0, t.len() as int) =~= t);
    if r.units < 0 {
        let s = seq!['-'] + t;
        assert(s.drop_first() =~= t);
        assert(s[0] == '-');
        assert(unsigned_part(s) == t);
    } else {
        assert(unsigned_part(t) == t);
    }
}

} // verus!
