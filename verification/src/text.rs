//! Character classes and the textual forms of numbers that the s-expression
//! format relies on: Unicode white space, the integer and float literal
//! grammars that `i64` and `f64` accept, decimal printing, and UTF-8 widths.
use vstd::prelude::*;
use vstd::utf8::encode_utf8;
use vstd::utf8::encode_scalar;

verus! {

// ---------------------------------------------------------------------------
// Character classes
// ---------------------------------------------------------------------------

/// The characters with the Unicode `White_Space` property (what
/// `char::is_whitespace` answers `true` for).
pub open spec fn is_ws(c: char) -> bool {
    ||| ('\u{9}' <= c && c <= '\u{d}')
    ||| c == ' '
    ||| c == '\u{85}'
    ||| c == '\u{a0}'
    ||| c == '\u{1680}'
    ||| ('\u{2000}' <= c && c <= '\u{200a}')
    ||| c == '\u{2028}'
    ||| c == '\u{2029}'
    ||| c == '\u{202f}'
    ||| c == '\u{205f}'
    ||| c == '\u{3000}'
}

/// Whether `c` has the Unicode `White_Space` property.
pub fn is_whitespace(c: char) -> (b: bool)
    ensures
        b == is_ws(c),
{
    ('\u{9}' <= c && c <= '\u{d}') || c == ' ' || c == '\u{85}' || c == '\u{a0}' || c == '\u{1680}'
        || ('\u{2000}' <= c && c <= '\u{200a}') || c == '\u{2028}' || c == '\u{2029}' || c
        == '\u{202f}' || c == '\u{205f}' || c == '\u{3000}'
}

/// An ASCII decimal digit.
pub open spec fn is_digit_char(c: char) -> bool {
    '0' <= c && c <= '9'
}

/// Every character of `s` is an ASCII decimal digit.
pub open spec fn all_digits(s: Seq<char>) -> bool {
    forall|i: int| 0 <= i < s.len() ==> is_digit_char(#[trigger] s[i])
}

/// The value of the digit character `c`.
pub open spec fn digit_value(c: char) -> int {
    c as int - '0' as int
}

/// `s` contains the character `c`.
pub open spec fn has_char(s: Seq<char>, c: char) -> bool {
    exists|i: int| 0 <= i < s.len() && s[i] == c
}

/// `s` contains a white-space character.
pub open spec fn has_ws(s: Seq<char>) -> bool {
    exists|i: int| 0 <= i < s.len() && is_ws(#[trigger] s[i])
}

// ---------------------------------------------------------------------------
// Integer literals: what `i64::from_str` accepts
// ---------------------------------------------------------------------------

/// `s` without a leading `+` or `-`.
pub open spec fn strip_sign(s: Seq<char>) -> Seq<char> {
    if s.len() > 0 && (s[0] == '+' || s[0] == '-') {
        s.drop_first()
    } else {
        s
    }
}

/// The number written by the decimal digits `ds`.
pub open spec fn digits_value(ds: Seq<char>) -> int
    decreases ds.len(),
{
    if ds.len() == 0 {
        0
    } else {
        digits_value(ds.drop_last()) * 10 + digit_value(ds.last())
    }
}

/// What `i64::from_str` returns on `s`: an optional sign followed by at least
/// one decimal digit, whose value fits in an `i64`.
pub open spec fn int_value(s: Seq<char>) -> Option<i64> {
    let body = strip_sign(s);
    if body.len() == 0 || !all_digits(body) {
        None
    } else {
        let v = if s[0] == '-' {
            -digits_value(body)
        } else {
            digits_value(body)
        };
        if i64::MIN <= v <= i64::MAX {
            Some(v as i64)
        } else {
            None
        }
    }
}

proof fn lemma_digits_value_nonneg(ds: Seq<char>)
    requires
        all_digits(ds),
    ensures
        digits_value(ds) >= 0,
    decreases ds.len(),
{
    if ds.len() > 0 {
        lemma_digits_value_nonneg(ds.drop_last());
    }
}

/// A longer run of digits is worth at least as much as its prefix.
proof fn lemma_digits_value_prefix(ds: Seq<char>, k: int)
    requires
        all_digits(ds),
        0 <= k <= ds.len(),
    ensures
        digits_value(ds) >= digits_value(ds.take(k)),
    decreases ds.len() - k,
{
    if k < ds.len() {
        lemma_digits_value_prefix(ds.drop_last(), k);
        assert(ds.drop_last().take(k) =~= ds.take(k));
        lemma_digits_value_nonneg(ds.drop_last());
    } else {
        assert(ds.take(k) =~= ds);
    }
}

/// The value of an ASCII digit character.
fn digit_of(c: char) -> (d: u64)
    requires
        is_digit_char(c),
    ensures
        d == digit_value(c),
        d < 10,
{
    (c as u32 - '0' as u32) as u64
}

/// Reads `s` as `i64::from_str` does: `Some` of the value exactly when `s`
/// is an integer literal that fits in an `i64`.
#[verifier::loop_isolation(false)]
pub fn parse_i64(s: &[char]) -> (r: Option<i64>)
    ensures
        r == int_value(s@),
{
    let n = s.len();
    if n == 0 {
        return None;
    }
    let negative = s[0] == '-';
    let start: usize = if s[0] == '-' || s[0] == '+' {
        1
    } else {
        0
    };
    let ghost body = strip_sign(s@);
    assert(body =~= s@.skip(start as int));
    if start == n {
        return None;
    }
    let limit: u64 = 0x8000_0000_0000_0000;
    let mut mag: u64 = 0;
    let mut i: usize = start;
    while i < n
        invariant
            start <= i <= n,
            n == s@.len(),
            limit == 0x8000_0000_0000_0000,
            body =~= s@.skip(start as int),
            all_digits(body.take(i - start)),
            mag == digits_value(body.take(i - start)),
            mag <= limit,
        decreases n - i,
    {
        let c = s[i];
        if !('0' <= c && c <= '9') {
            assert(!is_digit_char(body[i - start]));
            return None;
        }
        let d = digit_of(c);
        let ghost pre = body.take(i - start);
        let ghost next = body.take(i - start + 1);
        assert(next.drop_last() =~= pre);
        assert(next.last() == c);
        if mag > (limit - d) / 10 {
            proof {
                assert(digits_value(next) > limit) by (nonlinear_arith)
                    requires
                        digits_value(next) == mag * 10 + d,
                        mag > (limit - d) / 10,
                        d < 10,
                        limit == 0x8000_0000_0000_0000,
                ;
                if all_digits(body) {
                    lemma_digits_value_prefix(body, i - start + 1);
                }
            }
            return None;
        }
        assert(mag * 10 + d <= limit) by (nonlinear_arith)
            requires
                mag <= (limit - d) / 10,
                d < 10,
                limit == 0x8000_0000_0000_0000,
        ;
        mag = mag * 10 + d;
        i = i + 1;
        assert(all_digits(body.take(i - start))) by {
            assert forall|j: int| 0 <= j < next.len() implies is_digit_char(#[trigger] next[j]) by {
                if j < next.len() - 1 {
                    assert(next[j] == pre[j]);
                }
            }
        }
    }
    assert(body.take(n - start) =~= body);
    if negative {
        if mag == limit {
            Some(i64::MIN)
        } else {
            Some(-(mag as i64))
        }
    } else {
        if mag > 0x7fff_ffff_ffff_ffff {
            None
        } else {
            Some(mag as i64)
        }
    }
}

// ---------------------------------------------------------------------------
// Float literals: what `f64::from_str` accepts
// ---------------------------------------------------------------------------

/// `t` spells the word whose lower-case letters are `lo` and upper-case
/// letters are `up`, each letter in either case.
pub open spec fn spells(t: Seq<char>, lo: Seq<char>, up: Seq<char>) -> bool {
    t.len() == lo.len() && forall|i: int| 0 <= i < t.len() ==> #[trigger] t[i] == lo[i] || t[i] == up[i]
}

/// The named float values: `inf`, `infinity` and `nan`, in any case.
pub open spec fn is_special_float(t: Seq<char>) -> bool {
    ||| spells(t, seq!['i', 'n', 'f'], seq!['I', 'N', 'F'])
    ||| spells(
        t,
        seq!['i', 'n', 'f', 'i', 'n', 'i', 't', 'y'],
        seq!['I', 'N', 'F', 'I', 'N', 'I', 'T', 'Y'],
    )
    ||| spells(t, seq!['n', 'a', 'n'], seq!['N', 'A', 'N'])
}

/// How many times `c` occurs in `s`.
pub open spec fn count_char(s: Seq<char>, c: char) -> nat
    decreases s.len(),
{
    if s.len() == 0 {
        0
    } else {
        count_char(s.drop_last(), c) + if s.last() == c {
            1nat
        } else {
            0nat
        }
    }
}

/// The exponent marker of a float literal.
pub open spec fn is_exp_mark(c: char) -> bool {
    c == 'e' || c == 'E'
}

/// The index of the first exponent marker in `s`, or its length.
pub open spec fn first_exp(s: Seq<char>) -> int
    decreases s.len(),
{
    if s.len() == 0 {
        0
    } else if is_exp_mark(s[0]) {
        0
    } else {
        1 + first_exp(s.drop_first())
    }
}

/// The part of a float literal before its exponent: digits with at most one
/// `.` and at least one digit (`Digit+ | Digit+ '.' Digit* | Digit* '.' Digit+`).
pub open spec fn is_mantissa(m: Seq<char>) -> bool {
    &&& forall|i: int| 0 <= i < m.len() ==> is_digit_char(#[trigger] m[i]) || m[i] == '.'
    &&& count_char(m, '.') <= 1
    &&& m.len() > count_char(m, '.')
}

/// The exponent of a float literal: nothing, or `e`/`E`, an optional sign
/// and at least one digit.
pub open spec fn is_exponent(x: Seq<char>) -> bool {
    x.len() == 0 || (is_exp_mark(x[0]) && strip_sign(x.drop_first()).len() > 0 && all_digits(
        strip_sign(x.drop_first()),
    ))
}

/// A decimal float literal without its sign.
pub open spec fn is_number_text(t: Seq<char>) -> bool {
    is_mantissa(t.take(first_exp(t))) && is_exponent(t.skip(first_exp(t)))
}

/// What `f64::from_str` accepts: an optional sign, then `inf`, `infinity`,
/// `nan` (in any case) or a decimal number with an optional exponent.
pub open spec fn is_float_text(s: Seq<char>) -> bool {
    is_special_float(strip_sign(s)) || is_number_text(strip_sign(s))
}

/// Whether `t[from..]` spells the word with lower-case letters `lo` and
/// upper-case letters `up`, each letter in either case.
#[verifier::loop_isolation(false)]
fn spells_from(t: &[char], from: usize, lo: &[char], up: &[char]) -> (b: bool)
    requires
        from <= t@.len(),
        lo@.len() == up@.len(),
    ensures
        b == spells(t@.skip(from as int), lo@, up@),
{
    let ghost u = t@.skip(from as int);
    if t.len() - from != lo.len() {
        return false;
    }
    let mut k: usize = from;
    while k < t.len()
        invariant
            u == t@.skip(from as int),
            u.len() == lo@.len(),
            from <= k <= t@.len(),
            forall|j: int| 0 <= j < k - from ==> #[trigger] u[j] == lo@[j] || u[j] == up@[j],
        decreases t.len() - k,
    {
        let a = t[k];
        assert(a == u[k - from]);
        if !(a == lo[k - from] || a == up[k - from]) {
            return false;
        }
        k = k + 1;
    }
    true
}

/// Whether `m[from..to]` is the mantissa of a float literal.
#[verifier::loop_isolation(false)]
fn mantissa_from(m: &[char], from: usize, to: usize) -> (b: bool)
    requires
        from <= to <= m@.len(),
    ensures
        b == is_mantissa(m@.subrange(from as int, to as int)),
{
    let ghost u = m@.subrange(from as int, to as int);
    let mut dots: usize = 0;
    let mut i: usize = from;
    assert(u.take(0) =~= Seq::<char>::empty());
    while i < to
        invariant
            from <= i <= to <= m@.len(),
            u == m@.subrange(from as int, to as int),
            dots == count_char(u.take(i - from), '.'),
            dots <= i - from,
            forall|j: int| 0 <= j < i - from ==> is_digit_char(#[trigger] u[j]) || u[j] == '.',
        decreases to - i,
    {
        let c = m[i];
        assert(c == u[i - from]);
        assert(u.take(i - from + 1).drop_last() =~= u.take(i - from));
        if c == '.' {
            dots = dots + 1;
        } else if !('0' <= c && c <= '9') {
            return false;
        }
        i = i + 1;
    }
    assert(u.take(to - from) =~= u);
    dots <= 1 && to - from > dots
}

/// Whether `s[from..]` is `inf`, `infinity` or `nan`, in any case.
fn special_from(s: &[char], from: usize) -> (b: bool)
    requires
        from <= s@.len(),
    ensures
        b == is_special_float(s@.skip(from as int)),
{
    let inf = ['i', 'n', 'f'];
    let inf_up = ['I', 'N', 'F'];
    let infinity = ['i', 'n', 'f', 'i', 'n', 'i', 't', 'y'];
    let infinity_up = ['I', 'N', 'F', 'I', 'N', 'I', 'T', 'Y'];
    let nan = ['n', 'a', 'n'];
    let nan_up = ['N', 'A', 'N'];
    assert(inf@ =~= seq!['i', 'n', 'f']);
    assert(inf_up@ =~= seq!['I', 'N', 'F']);
    assert(infinity@ =~= seq!['i', 'n', 'f', 'i', 'n', 'i', 't', 'y']);
    assert(infinity_up@ =~= seq!['I', 'N', 'F', 'I', 'N', 'I', 'T', 'Y']);
    assert(nan@ =~= seq!['n', 'a', 'n']);
    assert(nan_up@ =~= seq!['N', 'A', 'N']);
    let b1 = spells_from(s, from, inf.as_slice(), inf_up.as_slice());
    let b2 = spells_from(s, from, infinity.as_slice(), infinity_up.as_slice());
    let b3 = spells_from(s, from, nan.as_slice(), nan_up.as_slice());
    b1 || b2 || b3
}

/// Whether `s[e..]` is the exponent of a float literal.
#[verifier::loop_isolation(false)]
fn exponent_from(s: &[char], e: usize) -> (b: bool)
    requires
        e <= s@.len(),
    ensures
        b == is_exponent(s@.skip(e as int)),
{
    let n = s.len();
    let ghost x = s@.skip(e as int);
    if e == n {
        return true;
    }
    if !(s[e] == 'e' || s[e] == 'E') {
        return false;
    }
    let mut d: usize = e + 1;
    if d < n && (s[d] == '+' || s[d] == '-') {
        d = d + 1;
    }
    assert(strip_sign(x.drop_first()) =~= s@.skip(d as int));
    if d == n {
        return false;
    }
    let mut k: usize = d;
    while k < n
        invariant
            d <= k <= n,
            n == s@.len(),
            forall|j: int| d <= j < k ==> is_digit_char(#[trigger] s@[j]),
        decreases n - k,
    {
        if !('0' <= s[k] && s[k] <= '9') {
            assert(!is_digit_char(s@.skip(d as int)[k - d]));
            return false;
        }
        k = k + 1;
    }
    assert(all_digits(s@.skip(d as int)));
    true
}

/// The index of the first exponent marker at or after `from`, or the end.
#[verifier::loop_isolation(false)]
fn exp_mark_from(s: &[char], from: usize) -> (e: usize)
    requires
        from <= s@.len(),
    ensures
        from <= e <= s@.len(),
        first_exp(s@.skip(from as int)) == e - from,
{
    let ghost t = s@.skip(from as int);
    let mut e: usize = from;
    while e < s.len() && !(s[e] == 'e' || s[e] == 'E')
        invariant
            from <= e <= s@.len(),
            forall|j: int| 0 <= j < e - from ==> !is_exp_mark(#[trigger] t[j]),
        decreases s@.len() - e,
    {
        assert(t[e - from] == s@[e as int]);
        e = e + 1;
    }
    proof {
        if e < s@.len() {
            assert(t[e - from] == s@[e as int]);
        }
        lemma_first_exp(t, e - from);
    }
    e
}

/// Whether `s` is a float literal that `f64::from_str` accepts.
pub fn parse_float_text(s: &[char]) -> (b: bool)
    ensures
        b == is_float_text(s@),
{
    let n = s.len();
    let start: usize = if n > 0 && (s[0] == '-' || s[0] == '+') {
        1
    } else {
        0
    };
    let ghost t = strip_sign(s@);
    assert(t =~= s@.skip(start as int));
    if special_from(s, start) {
        return true;
    }
    let e = exp_mark_from(s, start);
    assert(t.take(e - start) =~= s@.subrange(start as int, e as int));
    assert(t.skip(e - start) =~= s@.skip(e as int));
    let m = mantissa_from(s, start, e);
    let x = exponent_from(s, e);
    m && x
}

/// `first_exp` is the first index holding an exponent marker.
pub proof fn lemma_first_exp(t: Seq<char>, e: int)
    requires
        0 <= e <= t.len(),
        forall|j: int| 0 <= j < e ==> !is_exp_mark(#[trigger] t[j]),
        e == t.len() || is_exp_mark(t[e]),
    ensures
        first_exp(t) == e,
    decreases e,
{
    if e > 0 {
        assert(!is_exp_mark(t[0]));
        assert forall|j: int| 0 <= j < e - 1 implies !is_exp_mark(#[trigger] t.drop_first()[j]) by {
            assert(t.drop_first()[j] == t[j + 1]);
        }
        lemma_first_exp(t.drop_first(), e - 1);
    }
}

// ---------------------------------------------------------------------------
// Decimal printing
// ---------------------------------------------------------------------------

/// The character of the decimal digit `d`.
pub open spec fn digit_char(d: nat) -> char {
    if d == 0 {
        '0'
    } else if d == 1 {
        '1'
    } else if d == 2 {
        '2'
    } else if d == 3 {
        '3'
    } else if d == 4 {
        '4'
    } else if d == 5 {
        '5'
    } else if d == 6 {
        '6'
    } else if d == 7 {
        '7'
    } else if d == 8 {
        '8'
    } else {
        '9'
    }
}

/// The decimal digits of `n`, without leading zeros.
pub open spec fn nat_digits(n: nat) -> Seq<char>
    decreases n,
{
    if n < 10 {
        seq![digit_char(n)]
    } else {
        nat_digits(n / 10).push(digit_char(n % 10))
    }
}

/// The decimal text of `i`, as `Display` writes it: a `-` for negative
/// numbers, then the digits.
pub open spec fn int_text(i: int) -> Seq<char> {
    if i < 0 {
        seq!['-'] + nat_digits((-i) as nat)
    } else {
        nat_digits(i as nat)
    }
}

/// The digit character for `d`.
fn digit_to_char(d: u64) -> (c: char)
    requires
        d < 10,
    ensures
        c == digit_char(d as nat),
        is_digit_char(c),
{
    if d == 0 {
        '0'
    } else if d == 1 {
        '1'
    } else if d == 2 {
        '2'
    } else if d == 3 {
        '3'
    } else if d == 4 {
        '4'
    } else if d == 5 {
        '5'
    } else if d == 6 {
        '6'
    } else if d == 7 {
        '7'
    } else if d == 8 {
        '8'
    } else {
        '9'
    }
}

/// The decimal digits of `n`.
pub fn u64_digits(n: u64) -> (v: Vec<char>)
    ensures
        v@ == nat_digits(n as nat),
{
    let mut rev: Vec<char> = Vec::new();
    let mut m: u64 = n;
    while m >= 10
        invariant
            nat_digits(n as nat) == nat_digits(m as nat) + rev@.reverse(),
        decreases m,
    {
        let d = m % 10;
        let c = digit_to_char(d);
        let ghost old_rev = rev@;
        rev.push(c);
        assert(nat_digits(m as nat) == nat_digits((m / 10) as nat).push(c));
        assert(rev@.reverse() =~= seq![c] + old_rev.reverse());
        assert(nat_digits(m as nat) + old_rev.reverse() =~= nat_digits((m / 10) as nat) + rev@.reverse());
        m = m / 10;
    }
    let c = digit_to_char(m);
    rev.push(c);
    assert(rev@.reverse() =~= nat_digits(n as nat));
    let mut out: Vec<char> = Vec::new();
    let mut i: usize = rev.len();
    while i > 0
        invariant
            i <= rev@.len(),
            out@ == rev@.reverse().take(rev@.len() - i),
        decreases i,
    {
        i = i - 1;
        out.push(rev[i]);
        assert(out@ =~= rev@.reverse().take(rev@.len() - i));
    }
    assert(rev@.reverse().take(rev@.len() as int) =~= rev@.reverse());
    out
}

/// The digits of a number are digits, and read back as the number.
pub proof fn lemma_nat_digits_value(n: nat)
    ensures
        all_digits(nat_digits(n)),
        digits_value(nat_digits(n)) == n,
        nat_digits(n).len() > 0,
    decreases n,
{
    if n >= 10 {
        lemma_nat_digits_value(n / 10);
        let p = nat_digits(n / 10);
        let q = p.push(digit_char(n % 10));
        assert(q.drop_last() =~= p);
        assert(digit_value(digit_char(n % 10)) == n % 10);
        assert(nat_digits(n) == q);
        assert(q.last() == digit_char(n % 10));
        assert(digits_value(q) == digits_value(p) * 10 + digit_value(q.last()));
        assert(n == (n / 10) * 10 + n % 10);
        assert forall|i: int| 0 <= i < q.len() implies is_digit_char(#[trigger] q[i]) by {
            if i < p.len() {
                assert(q[i] == p[i]);
            }
        }
    } else {
        let q = seq![digit_char(n)];
        assert(q.drop_last() =~= Seq::<char>::empty());
        assert(digit_value(digit_char(n)) == n);
        assert(q.last() == digit_char(n));
        assert(nat_digits(n) == q);
        assert(digits_value(Seq::<char>::empty()) == 0);
        assert(digits_value(q) == digits_value(q.drop_last()) * 10 + digit_value(q.last()));
    }
}

/// The text that `Display` gives an integer is an integer literal for it.
pub proof fn lemma_int_text_value(i: i64)
    ensures
        int_value(int_text(i as int)) == Some(i),
        int_text(i as int).len() > 0,
        forall|k: int|
            0 <= k < int_text(i as int).len() ==> is_digit_char(#[trigger] int_text(i as int)[k])
                || int_text(i as int)[k] == '-',
{
    let t = int_text(i as int);
    if i < 0 {
        let m = (-i) as nat;
        lemma_nat_digits_value(m);
        assert(strip_sign(t) =~= nat_digits(m));
    } else {
        lemma_nat_digits_value(i as nat);
        assert(strip_sign(t) =~= nat_digits(i as nat));
    }
    assert forall|k: int| 0 <= k < t.len() implies is_digit_char(#[trigger] t[k]) || t[k] == '-' by {
        if i < 0 && k > 0 {
            assert(t[k] == strip_sign(t)[k - 1]);
        }
    }
}

// ---------------------------------------------------------------------------
// UTF-8 widths
// ---------------------------------------------------------------------------

/// The number of bytes of the UTF-8 encoding of `c`.
pub fn utf8_width(c: char) -> (w: usize)
    ensures
        w == encode_scalar(c as u32).len(),
        1 <= w <= 4,
{
    let u = c as u32;
    if u <= 0x7f {
        1
    } else if u <= 0x7ff {
        2
    } else if u <= 0xffff {
        proof {
            vstd::utf8::char_is_scalar(c);
        }
        3
    } else {
        4
    }
}

/// The UTF-8 encoding of a concatenation is the concatenation of encodings.
pub proof fn lemma_encode_utf8_concat(a: Seq<char>, b: Seq<char>)
    ensures
        encode_utf8(a + b) == encode_utf8(a) + encode_utf8(b),
    decreases a.len(),
{
    if a.len() == 0 {
        assert(a + b =~= b);
    } else {
        lemma_encode_utf8_concat(a.drop_first(), b);
        assert((a + b).drop_first() =~= a.drop_first() + b);
    }
}

/// Appending a character adds its width to the encoded length.
pub proof fn lemma_encode_utf8_push(a: Seq<char>, c: char)
    ensures
        encode_utf8(a.push(c)).len() == encode_utf8(a).len() + encode_scalar(c as u32).len(),
{
    lemma_encode_utf8_concat(a, seq![c]);
    assert(a.push(c) =~= a + seq![c]);
    assert(seq![c].drop_first() =~= Seq::<char>::empty());
    assert(encode_utf8(Seq::<char>::empty()) =~= Seq::<u8>::empty());
    assert(encode_utf8(seq![c]) == encode_scalar(c as u32) + encode_utf8(seq![c].drop_first()));
}

/// A longer prefix never has a shorter encoding.
pub proof fn lemma_encode_utf8_prefix(s: Seq<char>, i: int, j: int)
    requires
        0 <= i <= j <= s.len(),
    ensures
        encode_utf8(s.take(i)).len() <= encode_utf8(s.take(j)).len(),
        encode_utf8(s.take(j)).len() <= encode_utf8(s).len(),
{
    lemma_encode_utf8_concat(s.take(i), s.subrange(i, j));
    assert(s.take(i) + s.subrange(i, j) =~= s.take(j));
    lemma_encode_utf8_concat(s.take(j), s.skip(j));
    assert(s.take(j) + s.skip(j) =~= s);
}

// ---------------------------------------------------------------------------
// Strings
// ---------------------------------------------------------------------------

/// Appends `c` to `s`: the one call of `String::push`, whose documentation
/// says that it appends the character to the end of the string.
#[verifier::external_body]
pub fn push_char(s: &mut String, c: char)
    ensures
        final(s)@ == old(s)@.push(c),
{
    s.push(c);
}

/// The characters of `s`, in order.
pub fn chars_of(s: &str) -> (v: Vec<char>)
    ensures
        v@ == s@,
{
    broadcast use vstd::string::group_string_axioms;

    let mut v: Vec<char> = Vec::new();
    for c in it: s.chars()
        invariant
            it.seq() == s@,
            v.len() == it.index(),
            forall|j: int| 0 <= j < v.len() ==> v@[j] == it.seq()[j],
    {
        v.push(c);
    }
    assert(v@ =~= s@);
    v
}

} // verus!
