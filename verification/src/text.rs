//! Character-level ground work: classifying characters, reading and writing
//! decimal integers, and moving between `String` and `Vec<char>`.

use vstd::prelude::*;
use vstd::string::StrSliceExecFns;

verus! {

// ---------------------------------------------------------------------------
// Character classes
// ---------------------------------------------------------------------------

pub open spec fn is_space_char(c: char) -> bool {
    c == ' ' || c == '\t'
}

pub open spec fn is_digit_char(c: char) -> bool {
    48 <= c as u32 <= 57
}

pub open spec fn is_alpha_char(c: char) -> bool {
    (65 <= c as u32 <= 90) || (97 <= c as u32 <= 122)
}

/// Characters that may continue an identifier.
pub open spec fn is_ident_char(c: char) -> bool {
    is_alpha_char(c) || is_digit_char(c) || c == '_'
}

pub open spec fn digit_val(c: char) -> int {
    c as u32 - 48
}

pub open spec fn all_digits(s: Seq<char>) -> bool {
    forall|i: int| 0 <= i < s.len() ==> is_digit_char(#[trigger] s[i])
}

// ---------------------------------------------------------------------------
// Decimal integers: value of a digit run, text of an integer
// ---------------------------------------------------------------------------

/// The value of a run of decimal digits (most significant first).
pub open spec fn dec_val(s: Seq<char>) -> int
    decreases s.len(),
{
    if s.len() == 0 {
        0
    } else {
        dec_val(s.drop_last()) * 10 + digit_val(s.last())
    }
}

/// `-?[0-9]+`, the shape of an integer literal.
pub open spec fn is_int_literal(s: Seq<char>) -> bool {
    if s.len() > 0 && s[0] == '-' {
        s.len() > 1 && all_digits(s.subrange(1, s.len() as int))
    } else {
        s.len() > 0 && all_digits(s)
    }
}

/// The signed value of an integer literal.
pub open spec fn int_literal_val(s: Seq<char>) -> int {
    if s.len() > 0 && s[0] == '-' {
        -dec_val(s.subrange(1, s.len() as int))
    } else {
        dec_val(s)
    }
}

pub open spec fn in_i64_range(n: int) -> bool {
    i64::MIN <= n <= i64::MAX
}

pub open spec fn digit_char(d: int) -> char {
    if d == 0 { '0' }
    else if d == 1 { '1' }
    else if d == 2 { '2' }
    else if d == 3 { '3' }
    else if d == 4 { '4' }
    else if d == 5 { '5' }
    else if d == 6 { '6' }
    else if d == 7 { '7' }
    else if d == 8 { '8' }
    else { '9' }
}

/// Decimal text of a non-negative integer, no leading zeros.
pub open spec fn u_dec_seq(n: int) -> Seq<char>
    decreases n,
{
    if n < 10 {
        seq![digit_char(n)]
    } else {
        u_dec_seq(n / 10).push(digit_char(n % 10))
    }
}

/// Decimal text of an integer: an optional minus sign, then digits.
pub open spec fn int_dec_seq(n: int) -> Seq<char> {
    if n < 0 {
        seq!['-'] + u_dec_seq(-n)
    } else {
        u_dec_seq(n)
    }
}

/// The decimal text of a non-negative integer reads back as its value.
pub proof fn lemma_u_dec_seq(n: int)
    requires
        n >= 0,
    ensures
        u_dec_seq(n).len() >= 1,
        all_digits(u_dec_seq(n)),
        dec_val(u_dec_seq(n)) == n,
    decreases n,
{
    assert(is_digit_char(digit_char(n % 10)) && digit_val(digit_char(n % 10)) == (if 0 <= n % 10
        <= 9 {
        n % 10
    } else {
        9
    }));
    if n < 10 {
        let s = u_dec_seq(n);
        assert(s.len() == 1);
        assert(s.drop_last() =~= Seq::<char>::empty());
        assert(s.last() == digit_char(n));
        assert(is_digit_char(digit_char(n)) && digit_val(digit_char(n)) == n);
        assert(dec_val(s) == dec_val(s.drop_last()) * 10 + digit_val(s.last()));
    } else {
        lemma_u_dec_seq(n / 10);
        let s = u_dec_seq(n);
        assert(s.drop_last() =~= u_dec_seq(n / 10));
        assert(s.last() == digit_char(n % 10));
        assert(0 <= n % 10 <= 9 && n / 10 >= 0 && (n / 10) * 10 + n % 10 == n) by (nonlinear_arith)
            requires
                n >= 10;
        assert(digit_val(digit_char(n % 10)) == n % 10);
        assert(dec_val(s) == dec_val(s.drop_last()) * 10 + digit_val(s.last()));
        assert(dec_val(s.drop_last()) == n / 10);
    }
}

/// The decimal text of a signed integer is a well-formed integer literal
/// with that value.
pub proof fn lemma_int_dec_seq(n: int)
    ensures
        int_dec_seq(n).len() >= 1,
        is_int_literal(int_dec_seq(n)),
        int_literal_val(int_dec_seq(n)) == n,
        is_digit_char(int_dec_seq(n)[0]) || int_dec_seq(n)[0] == '-',
        forall|k: int| 1 <= k < int_dec_seq(n).len() ==> is_digit_char(#[trigger] int_dec_seq(n)[k]),
{
    let s = int_dec_seq(n);
    if n < 0 {
        lemma_u_dec_seq(-n);
        assert(s[0] == '-');
        assert(s.subrange(1, s.len() as int) =~= u_dec_seq(-n));
        assert(s.len() > 1);
        assert(forall|k: int| 1 <= k < s.len() ==> s[k] == u_dec_seq(-n)[k - 1]);
    } else {
        lemma_u_dec_seq(n);
        assert(s[0] != '-') by {
            assert(is_digit_char(s[0]));
            assert('-' as u32 == 45);
        }
        assert(forall|k: int| 1 <= k < s.len() ==> is_digit_char(#[trigger] s[k]));
    }
}

// ---------------------------------------------------------------------------
// Exec: String <-> Vec<char>
// ---------------------------------------------------------------------------

/// All the characters of a string, in order.
pub fn chars_of(s: &str) -> (v: Vec<char>)
    ensures
        v@ == s@,
{
    let n = s.unicode_len();
    let mut v: Vec<char> = Vec::new();
    let mut i: usize = 0;
    while i < n
        invariant
            i <= n,
            n == s@.len(),
            v@ == s@.subrange(0, i as int),
        decreases n - i,
    {
        let c = s.get_char(i);
        v.push(c);
        proof {
            assert(v@ =~= s@.subrange(0, i + 1 as int));
        }
        i = i + 1;
    }
    proof {
        assert(v@ =~= s@);
    }
    v
}

/// Relies on `String: FromIterator<char>`: collecting an iterator of
/// characters yields the string made of exactly those characters in order.
#[verifier::external_body]
pub(crate) fn string_from_chars(v: &Vec<char>) -> (r: String)
    ensures
        r@ == v@,
{
    v.iter().collect()
}

fn digit_to_char(d: u64) -> (c: char)
    requires
        d < 10,
    ensures
        c == digit_char(d as int),
{
    if d == 0 { '0' }
    else if d == 1 { '1' }
    else if d == 2 { '2' }
    else if d == 3 { '3' }
    else if d == 4 { '4' }
    else if d == 5 { '5' }
    else if d == 6 { '6' }
    else if d == 7 { '7' }
    else if d == 8 { '8' }
    else { '9' }
}

/// Appends the decimal digits of `n` to `out`, most significant first.
pub fn push_u_dec(out: &mut Vec<char>, n: u64)
    ensures
        final(out)@ == old(out)@ + u_dec_seq(n as int),
    decreases n,
{
    if n < 10 {
        let c = digit_to_char(n);
        out.push(c);
        proof {
            assert(out@ =~= old(out)@ + u_dec_seq(n as int));
        }
    } else {
        push_u_dec(out, n / 10);
        let c = digit_to_char(n % 10);
        out.push(c);
        proof {
            assert(u_dec_seq(n as int) == u_dec_seq(n as int / 10).push(
                digit_char(n as int % 10),
            ));
            assert(out@ =~= old(out)@ + u_dec_seq(n as int));
        }
    }
}

/// The decimal text of an integer: digits preceded by `-` when negative.
pub fn int_text(i: i64) -> (r: String)
    ensures
        r@ == int_dec_seq(i as int),
{
    let mut out: Vec<char> = Vec::new();
    if i < 0 {
        out.push('-');
        let m: u64 = ((-(i + 1)) as u64) + 1;
        proof {
            assert(m as int == -(i as int));
        }
        push_u_dec(&mut out, m);
        proof {
            assert(out@ =~= seq!['-'] + u_dec_seq(-(i as int)));
        }
    } else {
        push_u_dec(&mut out, i as u64);
        proof {
            assert(out@ =~= u_dec_seq(i as int));
        }
    }
    string_from_chars(&out)
}

/// Appends every character of `s` to `out`.
pub fn append_str_chars(out: &mut Vec<char>, s: &str)
    ensures
        final(out)@ == old(out)@ + s@,
{
    let n = s.unicode_len();
    let mut i: usize = 0;
    while i < n
        invariant
            i <= n,
            n == s@.len(),
            out@ == old(out)@ + s@.subrange(0, i as int),
        decreases n - i,
    {
        let c = s.get_char(i);
        out.push(c);
        proof {
            assert(out@ =~= old(out)@ + s@.subrange(0, i + 1 as int));
        }
        i = i + 1;
    }
    proof {
        assert(out@ =~= old(out)@ + s@);
    }
}

// ---------------------------------------------------------------------------
// Exec: reading an integer out of characters
// ---------------------------------------------------------------------------

pub proof fn lemma_dec_val_nonneg(s: Seq<char>)
    requires
        all_digits(s),
    ensures
        dec_val(s) >= 0,
    decreases s.len(),
{
    if s.len() > 0 {
        assert(all_digits(s.drop_last()));
        lemma_dec_val_nonneg(s.drop_last());
    }
}

/// Appending digits to a run never shrinks its value.
proof fn lemma_dec_val_prefix(s: Seq<char>, i: int)
    requires
        all_digits(s),
        0 <= i <= s.len(),
    ensures
        dec_val(s) >= dec_val(s.subrange(0, i)),
    decreases s.len() - i,
{
    if i < s.len() {
        lemma_dec_val_prefix(s, i + 1);
        let p = s.subrange(0, i + 1);
        assert(p.drop_last() =~= s.subrange(0, i));
        assert(all_digits(s.subrange(0, i)));
        lemma_dec_val_nonneg(s.subrange(0, i));
        assert(dec_val(p) == dec_val(s.subrange(0, i)) * 10 + digit_val(s[i]));
        assert(dec_val(s.subrange(0, i)) * 10 >= dec_val(s.subrange(0, i))) by (nonlinear_arith)
            requires dec_val(s.subrange(0, i)) >= 0;
        assert(digit_val(s[i]) >= 0);
    } else {
        assert(s.subrange(0, i) =~= s);
    }
}

/// Reads the digit run `v[start..end]` as an unsigned value.
/// Returns `None` exactly when the run is empty, holds a non-digit, or its
/// value exceeds `bound`.
fn read_digits(v: &Vec<char>, start: usize, end: usize, bound: u64) -> (r: Option<u64>)
    requires
        start <= end <= v@.len(),
        bound >= 9,
    ensures
        ({
            let s = v@.subrange(start as int, end as int);
            match r {
                Some(x) => s.len() > 0 && all_digits(s) && x == dec_val(s) && x <= bound,
                None => !(s.len() > 0 && all_digits(s) && dec_val(s) <= bound),
            }
        }),
{
    let ghost s = v@.subrange(start as int, end as int);
    if start >= end {
        return None;
    }
    let mut acc: u64 = 0;
    let mut p: usize = start;
    while p < end
        invariant
            start <= p <= end <= v@.len(),
            bound >= 9,
            s == v@.subrange(start as int, end as int),
            all_digits(v@.subrange(start as int, p as int)),
            acc == dec_val(v@.subrange(start as int, p as int)),
            acc <= bound,
        decreases end - p,
    {
        let c = v[p];
        let cu = c as u32;
        if !(48 <= cu && cu <= 57) {
            proof {
                assert(s[p - start] == v@[p as int]);
                assert(!is_digit_char(s[p - start]));
            }
            return None;
        }
        let d: u64 = (cu - 48) as u64;
        proof {
            assert(v@.subrange(start as int, p + 1 as int).drop_last() =~= v@.subrange(
                start as int,
                p as int,
            ));
        }
        if acc > (bound - d) / 10 {
            proof {
                let pre = v@.subrange(start as int, p + 1 as int);
                assert(dec_val(pre) == acc * 10 + d);
                assert(acc * 10 + d > bound) by (nonlinear_arith)
                    requires
                        acc > (bound - d) / 10,
                        0 <= d <= 9,
                        d <= bound,
                        acc >= 0;
                if s.len() > 0 && all_digits(s) {
                    assert(pre =~= s.subrange(0, (p + 1 - start) as int));
                    lemma_dec_val_prefix(s, (p + 1 - start) as int);
                    assert(dec_val(s) > bound);
                }
            }
            return None;
        }
        let acc2 = acc * 10 + d;
        proof {
            assert(dec_val(v@.subrange(start as int, p + 1 as int)) == acc * 10 + d);
        }
        acc = acc2;
        p = p + 1;
    }
    proof {
        assert(v@.subrange(start as int, p as int) =~= s);
    }
    Some(acc)
}

/// Reads `v[start..end]` as a signed 64-bit integer literal.
/// Returns `Some` exactly when the run matches `-?[0-9]+` and its value fits
/// in an `i64`.
pub fn chars_to_i64(v: &Vec<char>, start: usize, end: usize) -> (r: Option<i64>)
    requires
        start <= end <= v@.len(),
    ensures
        ({
            let s = v@.subrange(start as int, end as int);
            match r {
                Some(x) => is_int_literal(s) && in_i64_range(int_literal_val(s)) && x
                    == int_literal_val(s),
                None => !(is_int_literal(s) && in_i64_range(int_literal_val(s))),
            }
        }),
{
    let ghost s = v@.subrange(start as int, end as int);
    if start >= end {
        return None;
    }
    if v[start] == '-' {
        proof {
            assert(s[0] == '-');
            assert(v@.subrange(start + 1 as int, end as int) =~= s.subrange(1, s.len() as int));
        }
        match read_digits(v, start + 1, end, 9223372036854775808u64) {
            Some(mag) => {
                proof {
                    lemma_dec_val_nonneg(s.subrange(1, s.len() as int));
                }
                if mag == 9223372036854775808u64 {
                    Some(i64::MIN)
                } else {
                    Some(-(mag as i64))
                }
            },
            None => None,
        }
    } else {
        proof {
            assert(s[0] != '-');
            assert(v@.subrange(start as int, end as int) =~= s);
        }
        match read_digits(v, start, end, 9223372036854775807u64) {
            Some(x) => Some(x as i64),
            None => None,
        }
    }
}

// ---------------------------------------------------------------------------
// Lexicographic order on character sequences
// ---------------------------------------------------------------------------

/// Strict lexicographic order by code point; a proper prefix sorts first.
pub open spec fn char_seq_lt(a: Seq<char>, b: Seq<char>) -> bool
    decreases a.len(),
{
    if b.len() == 0 {
        false
    } else if a.len() == 0 {
        true
    } else if a[0] != b[0] {
        (a[0] as u32) < (b[0] as u32)
    } else {
        char_seq_lt(a.subrange(1, a.len() as int), b.subrange(1, b.len() as int))
    }
}

/// A copy of `v[a..b]`.
pub fn copy_range(v: &Vec<char>, a: usize, b: usize) -> (r: Vec<char>)
    requires
        a <= b <= v@.len(),
    ensures
        r@ == v@.subrange(a as int, b as int),
{
    let mut out: Vec<char> = Vec::new();
    let mut j: usize = a;
    while j < b
        invariant
            a <= j <= b <= v@.len(),
            out@ == v@.subrange(a as int, j as int),
        decreases b - j,
    {
        let c = v[j];
        out.push(c);
        proof {
            assert(out@ =~= v@.subrange(a as int, j + 1 as int));
        }
        j = j + 1;
    }
    out
}

/// Whether two strings hold the same characters.
pub fn str_eq(a: &str, b: &str) -> (r: bool)
    ensures
        r == (a@ == b@),
{
    let na = a.unicode_len();
    let nb = b.unicode_len();
    if na != nb {
        proof {
            assert(a@ != b@) by {
                if a@ == b@ {
                    assert(a@.len() == b@.len());
                }
            }
        }
        return false;
    }
    let mut i: usize = 0;
    while i < na
        invariant
            i <= na,
            na == a@.len(),
            na == b@.len(),
            forall|j: int| 0 <= j < i ==> a@[j] == b@[j],
        decreases na - i,
    {
        let ca = a.get_char(i);
        let cb = b.get_char(i);
        if ca as u32 != cb as u32 {
            proof {
                assert(a@[i as int] != b@[i as int]) by {
                    if a@[i as int] == b@[i as int] {
                    }
                }
            }
            return false;
        }
        proof {
            vstd::utf8::char_u32_cast(ca, ca as u32);
            vstd::utf8::char_u32_cast(cb, cb as u32);
        }
        i = i + 1;
    }
    proof {
        assert(a@ =~= b@);
    }
    true
}

/// Whether `a` sorts strictly before `b` by code point.
pub fn str_lt(a: &str, b: &str) -> (r: bool)
    ensures
        r == char_seq_lt(a@, b@),
{
    let na = a.unicode_len();
    let nb = b.unicode_len();
    let mut i: usize = 0;
    proof {
        assert(a@.subrange(0, na as int) =~= a@);
        assert(b@.subrange(0, nb as int) =~= b@);
    }
    while i < na && i < nb
        invariant
            i <= na,
            i <= nb,
            na == a@.len(),
            nb == b@.len(),
            char_seq_lt(a@, b@) == char_seq_lt(
                a@.subrange(i as int, na as int),
                b@.subrange(i as int, nb as int),
            ),
        decreases na - i,
    {
        let ca = a.get_char(i);
        let cb = b.get_char(i);
        proof {
            let ra = a@.subrange(i as int, na as int);
            let rb = b@.subrange(i as int, nb as int);
            assert(ra[0] == a@[i as int]);
            assert(rb[0] == b@[i as int]);
            assert(ra.subrange(1, ra.len() as int) =~= a@.subrange(i + 1 as int, na as int));
            assert(rb.subrange(1, rb.len() as int) =~= b@.subrange(i + 1 as int, nb as int));
        }
        if ca as u32 != cb as u32 {
            proof {
                assert(ca != cb);
            }
            return (ca as u32) < (cb as u32);
        }
        proof {
            assert(ca == cb) by {
                assert(ca as u32 == cb as u32);
                vstd::utf8::char_u32_cast(ca, ca as u32);
                vstd::utf8::char_u32_cast(cb, cb as u32);
            }
        }
        i = i + 1;
    }
    if i >= nb {
        proof {
            assert(b@.subrange(i as int, nb as int).len() == 0);
        }
        false
    } else {
        proof {
            assert(a@.subrange(i as int, na as int).len() == 0);
            assert(b@.subrange(i as int, nb as int).len() > 0);
        }
        true
    }
}

/// Two character sequences are lexicographically ordered one way or the
/// other, or they are equal.
pub proof fn lemma_char_seq_lt_trichotomy(a: Seq<char>, b: Seq<char>)
    ensures
        char_seq_lt(a, b) || char_seq_lt(b, a) || a == b,
    decreases a.len(),
{
    if a.len() == 0 && b.len() == 0 {
        assert(a =~= b);
    } else if a.len() > 0 && b.len() > 0 {
        if a[0] == b[0] {
            let ta = a.subrange(1, a.len() as int);
            let tb = b.subrange(1, b.len() as int);
            lemma_char_seq_lt_trichotomy(ta, tb);
            if ta == tb {
                assert(ta.len() == a.len() - 1);
                assert(tb.len() == b.len() - 1);
                assert(ta.len() == tb.len());
                assert(a.len() == b.len());
                assert forall|i: int| 0 <= i < a.len() implies a[i] == b[i] by {
                    if i > 0 {
                        assert(a[i] == ta[i - 1]);
                        assert(b[i] == tb[i - 1]);
                    }
                }
                assert(a =~= b);
            }
        } else {
            vstd::utf8::char_u32_cast(a[0], a[0] as u32);
            vstd::utf8::char_u32_cast(b[0], b[0] as u32);
            assert(a[0] as u32 != b[0] as u32);
        }
    }
}

/// Nothing sorts strictly below itself.
pub proof fn lemma_char_seq_lt_irrefl(a: Seq<char>)
    ensures
        !char_seq_lt(a, a),
    decreases a.len(),
{
    if a.len() > 0 {
        lemma_char_seq_lt_irrefl(a.subrange(1, a.len() as int));
    }
}

/// Lexicographic order is transitive.
pub proof fn lemma_char_seq_lt_trans(a: Seq<char>, b: Seq<char>, c: Seq<char>)
    requires
        char_seq_lt(a, b),
        char_seq_lt(b, c),
    ensures
        char_seq_lt(a, c),
    decreases a.len(),
{
    if a.len() > 0 && b.len() > 0 && c.len() > 0 {
        let ua = a[0] as u32;
        let ub = b[0] as u32;
        let uc = c[0] as u32;
        vstd::utf8::char_u32_cast(a[0], ua);
        vstd::utf8::char_u32_cast(b[0], ub);
        vstd::utf8::char_u32_cast(c[0], uc);
        if a[0] == b[0] && b[0] == c[0] {
            lemma_char_seq_lt_trans(
                a.subrange(1, a.len() as int),
                b.subrange(1, b.len() as int),
                c.subrange(1, c.len() as int),
            );
        } else {
            assert(ua <= ub && ub <= uc && ua < uc);
            assert(a[0] != c[0]);
        }
    }
}

// ---------------------------------------------------------------------------
// Numeric comparison of digit runs
// ---------------------------------------------------------------------------

pub open spec fn pow10(n: nat) -> int
    decreases n,
{
    if n == 0 {
        1
    } else {
        10 * pow10((n - 1) as nat)
    }
}

pub proof fn lemma_pow10_pos(n: nat)
    ensures
        pow10(n) >= 1,
    decreases n,
{
    if n > 0 {
        lemma_pow10_pos((n - 1) as nat);
    }
}

pub proof fn lemma_pow10_add(m: nat, n: nat)
    ensures
        pow10(m + n) == pow10(m) * pow10(n),
    decreases n,
{
    if n == 0 {
        assert(pow10(m + 0) == pow10(m) * 1);
    } else {
        lemma_pow10_add(m, (n - 1) as nat);
        assert(pow10(m + n) == 10 * pow10((m + n - 1) as nat));
        assert(pow10(m) * pow10(n) == pow10(m) * (10 * pow10((n - 1) as nat)));
        assert(pow10(m) * (10 * pow10((n - 1) as nat)) == 10 * (pow10(m) * pow10(
            (n - 1) as nat,
        ))) by (nonlinear_arith);
    }
}

/// The value of a concatenation of digit runs.
pub proof fn lemma_dec_val_concat(a: Seq<char>, b: Seq<char>)
    ensures
        dec_val(a + b) == dec_val(a) * pow10(b.len()) + dec_val(b),
    decreases b.len(),
{
    if b.len() == 0 {
        assert(a + b =~= a);
        assert(dec_val(a) * 1 == dec_val(a));
    } else {
        lemma_dec_val_concat(a, b.drop_last());
        assert((a + b).drop_last() =~= a + b.drop_last());
        assert((a + b).last() == b.last());
        assert(dec_val(a + b) == (dec_val(a) * pow10((b.len() - 1) as nat) + dec_val(b.drop_last()))
            * 10 + digit_val(b.last()));
        assert((dec_val(a) * pow10((b.len() - 1) as nat)) * 10 == dec_val(a) * (10 * pow10(
            (b.len() - 1) as nat,
        ))) by (nonlinear_arith);
    }
}

/// A digit run's value is below `pow10` of its length.
pub proof fn lemma_dec_val_bound(s: Seq<char>)
    requires
        all_digits(s),
    ensures
        0 <= dec_val(s) < pow10(s.len()),
    decreases s.len(),
{
    if s.len() > 0 {
        assert(all_digits(s.drop_last()));
        lemma_dec_val_bound(s.drop_last());
        let p = pow10((s.len() - 1) as nat);
        assert(dec_val(s.drop_last()) * 10 <= (p - 1) * 10) by (nonlinear_arith)
            requires dec_val(s.drop_last()) <= p - 1;
        assert(0 <= digit_val(s.last()) <= 9);
    }
}

pub open spec fn zero_seq(k: nat) -> Seq<char> {
    Seq::new(k, |i: int| '0')
}

pub proof fn lemma_zero_seq_val(k: nat)
    ensures
        all_digits(zero_seq(k)),
        dec_val(zero_seq(k)) == 0,
    decreases k,
{
    if k > 0 {
        lemma_zero_seq_val((k - 1) as nat);
        assert(zero_seq(k).drop_last() =~= zero_seq((k - 1) as nat));
        assert(zero_seq(k).last() == '0');
    }
}

/// Appends `k` zero digits to `out`.
pub fn push_zeros(out: &mut Vec<char>, k: usize)
    ensures
        final(out)@ == old(out)@ + zero_seq(k as nat),
{
    let mut j: usize = 0;
    while j < k
        invariant
            j <= k,
            out@ == old(out)@ + zero_seq(j as nat),
        decreases k - j,
    {
        out.push('0');
        proof {
            assert(out@ =~= old(out)@ + zero_seq((j + 1) as nat));
        }
        j = j + 1;
    }
}

/// Appends every character of `v` to `out`.
pub fn append_vec_chars(out: &mut Vec<char>, v: &Vec<char>)
    ensures
        final(out)@ == old(out)@ + v@,
{
    let n = v.len();
    let mut j: usize = 0;
    while j < n
        invariant
            j <= n,
            n == v@.len(),
            out@ == old(out)@ + v@.subrange(0, j as int),
        decreases n - j,
    {
        let c = v[j];
        out.push(c);
        proof {
            assert(out@ =~= old(out)@ + v@.subrange(0, j + 1 as int));
        }
        j = j + 1;
    }
    proof {
        assert(out@ =~= old(out)@ + v@);
    }
}

/// Three-way numeric comparison of two equally long digit runs.
/// Returns 0, 1 or 2 as the first value is below, equal to, or above the
/// second.
pub fn cmp_digit_seqs(a: &Vec<char>, b: &Vec<char>) -> (r: u8)
    requires
        a@.len() == b@.len(),
        all_digits(a@),
        all_digits(b@),
    ensures
        r == 0 <==> dec_val(a@) < dec_val(b@),
        r == 1 <==> dec_val(a@) == dec_val(b@),
        r == 2 <==> dec_val(a@) > dec_val(b@),
{
    let n = a.len();
    let mut i: usize = 0;
    while i < n
        invariant
            i <= n,
            n == a@.len(),
            n == b@.len(),
            all_digits(a@),
            all_digits(b@),
            a@.subrange(0, i as int) =~= b@.subrange(0, i as int),
        decreases n - i,
    {
        let ca = a[i];
        let cb = b[i];
        if ca as u32 != cb as u32 {
            proof {
                lemma_cmp_at_difference(a@, b@, i as int);
            }
            if (ca as u32) < (cb as u32) {
                return 0;
            } else {
                return 2;
            }
        }
        proof {
            assert(a@[i as int] as u32 == b@[i as int] as u32);
            vstd::utf8::char_u32_cast(a@[i as int], a@[i as int] as u32);
            vstd::utf8::char_u32_cast(b@[i as int], b@[i as int] as u32);
            assert(a@.subrange(0, i + 1 as int) =~= b@.subrange(0, i + 1 as int));
        }
        i = i + 1;
    }
    proof {
        assert(a@.subrange(0, n as int) =~= a@);
        assert(b@.subrange(0, n as int) =~= b@);
        assert(a@ =~= b@);
    }
    1
}

/// At the first differing digit, the run with the smaller digit has the
/// smaller value.
proof fn lemma_cmp_at_difference(a: Seq<char>, b: Seq<char>, i: int)
    requires
        a.len() == b.len(),
        all_digits(a),
        all_digits(b),
        0 <= i < a.len(),
        a.subrange(0, i) =~= b.subrange(0, i),
        a[i] != b[i],
    ensures
        (a[i] as u32) < (b[i] as u32) ==> dec_val(a) < dec_val(b),
        (a[i] as u32) > (b[i] as u32) ==> dec_val(a) > dec_val(b),
{
    let n = a.len() as int;
    let pa = a.subrange(0, i + 1);
    let pb = b.subrange(0, i + 1);
    let ra = a.subrange(i + 1, n);
    let rb = b.subrange(i + 1, n);
    let k = (n - i - 1) as nat;
    assert(a =~= pa + ra);
    assert(b =~= pb + rb);
    assert(all_digits(pa) && all_digits(pb) && all_digits(ra) && all_digits(rb));
    lemma_dec_val_concat(pa, ra);
    lemma_dec_val_concat(pb, rb);
    lemma_dec_val_bound(ra);
    lemma_dec_val_bound(rb);
    assert(pa.drop_last() =~= a.subrange(0, i));
    assert(pb.drop_last() =~= b.subrange(0, i));
    assert(dec_val(pa) == dec_val(a.subrange(0, i)) * 10 + digit_val(a[i]));
    assert(dec_val(pb) == dec_val(a.subrange(0, i)) * 10 + digit_val(b[i]));
    let p = pow10(k);
    lemma_pow10_pos(k);
    if (a[i] as u32) < (b[i] as u32) {
        assert(dec_val(pa) + 1 <= dec_val(pb));
        assert(dec_val(pa) * p + p <= dec_val(pb) * p) by (nonlinear_arith)
            requires dec_val(pa) + 1 <= dec_val(pb), p >= 1;
        assert(dec_val(a) < dec_val(b));
    }
    if (a[i] as u32) > (b[i] as u32) {
        assert(dec_val(pb) + 1 <= dec_val(pa));
        assert(dec_val(pb) * p + p <= dec_val(pa) * p) by (nonlinear_arith)
            requires dec_val(pb) + 1 <= dec_val(pa), p >= 1;
        assert(dec_val(b) < dec_val(a));
    }
}

} // verus!
