//! The value model: primitive values, declared column types, records, and
//! the primary-key capability.

use vstd::prelude::*;
use crate::error::{DbError, DbResult};
use crate::text::{
    all_digits, append_str_chars, char_seq_lt, cmp_digit_seqs, dec_val, digit_val, is_digit_char,
    pow10, push_zeros, append_vec_chars, lemma_dec_val_concat, lemma_dec_val_bound, lemma_dec_val_nonneg,
    lemma_pow10_pos, lemma_pow10_add, lemma_zero_seq_val, str_lt, zero_seq,
};

verus! {

// ---------------------------------------------------------------------------
// Decimal numbers
// ---------------------------------------------------------------------------

/// A decimal number kept exactly as it was written: a sign, the digits
/// before the point, and the digits after it.
#[derive(Debug, Clone, PartialEq)]
pub struct Decimal {
    pub neg: bool,
    pub int_digits: Vec<char>,
    pub frac_digits: Vec<char>,
}

/// The mathematical content of a `Decimal`.
#[verifier::ext_equal]
pub struct DecimalView {
    pub neg: bool,
    pub int_digits: Seq<char>,
    pub frac_digits: Seq<char>,
}

impl View for Decimal {
    type V = DecimalView;

    open spec fn view(&self) -> DecimalView {
        DecimalView {
            neg: self.neg,
            int_digits: self.int_digits@,
            frac_digits: self.frac_digits@,
        }
    }
}

/// Both digit runs are non-empty and hold digits only.
pub open spec fn dec_wf(d: DecimalView) -> bool {
    &&& d.int_digits.len() > 0
    &&& d.frac_digits.len() > 0
    &&& all_digits(d.int_digits)
    &&& all_digits(d.frac_digits)
}

/// The magnitude of a decimal, scaled by `10^(number of fraction digits)`.
pub open spec fn dec_mag(d: DecimalView) -> int {
    dec_val(d.int_digits) * pow10(d.frac_digits.len()) + dec_val(d.frac_digits)
}

/// The signed scaled value.
pub open spec fn dec_signed(d: DecimalView) -> int {
    if d.neg {
        -dec_mag(d)
    } else {
        dec_mag(d)
    }
}

/// Numeric equality of two decimals (cross-multiplied to a common scale),
/// so `1.50 == 1.5` and `-0.0 == 0.0`.
pub open spec fn dec_eq(a: DecimalView, b: DecimalView) -> bool {
    dec_signed(a) * pow10(b.frac_digits.len()) == dec_signed(b) * pow10(a.frac_digits.len())
}

/// Strict numeric order of two decimals.
pub open spec fn dec_lt(a: DecimalView, b: DecimalView) -> bool {
    dec_signed(a) * pow10(b.frac_digits.len()) < dec_signed(b) * pow10(a.frac_digits.len())
}

impl Decimal {
    pub open spec fn wf(&self) -> bool {
        dec_wf(self@)
    }

    /// An exact copy.
    pub fn dup(&self) -> (r: Decimal)
        ensures
            r@ == self@,
    {
        let mut ip: Vec<char> = Vec::new();
        append_vec_chars(&mut ip, &self.int_digits);
        let mut fp: Vec<char> = Vec::new();
        append_vec_chars(&mut fp, &self.frac_digits);
        proof {
            assert(ip@ =~= self.int_digits@);
            assert(fp@ =~= self.frac_digits@);
        }
        Decimal { neg: self.neg, int_digits: ip, frac_digits: fp }
    }
}

proof fn lemma_dec_mag_nonneg(d: DecimalView)
    requires
        dec_wf(d),
    ensures
        dec_mag(d) >= 0,
{
    lemma_dec_val_bound(d.int_digits);
    lemma_dec_val_bound(d.frac_digits);
    lemma_pow10_pos(d.frac_digits.len());
    assert(dec_val(d.int_digits) * pow10(d.frac_digits.len()) >= 0) by (nonlinear_arith)
        requires
            dec_val(d.int_digits) >= 0,
            pow10(d.frac_digits.len()) >= 1;
}

/// The combined, padded digit run of a decimal: `M` digits before the
/// point, `F` after it.
spec fn dec_combined(d: DecimalView, m: nat, f: nat) -> Seq<char> {
    zero_seq((m - d.int_digits.len()) as nat) + d.int_digits + d.frac_digits + zero_seq(
        (f - d.frac_digits.len()) as nat,
    )
}

proof fn lemma_dec_combined_val(d: DecimalView, m: nat, f: nat)
    requires
        dec_wf(d),
        d.int_digits.len() <= m,
        d.frac_digits.len() <= f,
    ensures
        all_digits(dec_combined(d, m, f)),
        dec_combined(d, m, f).len() == m + f,
        dec_val(dec_combined(d, m, f)) == dec_mag(d) * pow10((f - d.frac_digits.len()) as nat),
{
    let zl = zero_seq((m - d.int_digits.len()) as nat);
    let zr = zero_seq((f - d.frac_digits.len()) as nat);
    let c = dec_combined(d, m, f);
    lemma_zero_seq_val((m - d.int_digits.len()) as nat);
    lemma_zero_seq_val((f - d.frac_digits.len()) as nat);
    assert(c =~= zl + (d.int_digits + d.frac_digits + zr));
    lemma_dec_val_concat(zl, d.int_digits + d.frac_digits + zr);
    assert(d.int_digits + d.frac_digits + zr =~= (d.int_digits + d.frac_digits) + zr);
    lemma_dec_val_concat(d.int_digits + d.frac_digits, zr);
    lemma_dec_val_concat(d.int_digits, d.frac_digits);
    assert(dec_val(zl) == 0);
    assert(dec_val(zr) == 0);
    assert(dec_val(c) == dec_val(d.int_digits + d.frac_digits) * pow10(zr.len()));
    assert(forall|i: int| 0 <= i < c.len() ==> is_digit_char(#[trigger] c[i]));
}

/// Comparing the two padded runs decides the numeric order.
proof fn lemma_scale_cmp(x: int, y: int, fa: nat, fb: nat, f: nat)
    requires
        fa <= f,
        fb <= f,
    ensures
        (x * pow10((f - fa) as nat) < y * pow10((f - fb) as nat)) == (x * pow10(fb) < y * pow10(
            fa,
        )),
        (x * pow10((f - fa) as nat) == y * pow10((f - fb) as nat)) == (x * pow10(fb) == y * pow10(
            fa,
        )),
{
    let pa = pow10((f - fa) as nat);
    let pb = pow10((f - fb) as nat);
    lemma_pow10_pos(fa);
    lemma_pow10_pos(fb);
    lemma_pow10_pos((f - fa) as nat);
    lemma_pow10_pos((f - fb) as nat);
    lemma_pow10_add((f - fa) as nat, fa);
    lemma_pow10_add((f - fb) as nat, fb);
    lemma_pow10_pos(f);
    assert((x * pa < y * pb) == (x * pa * (pow10(fa) * pow10(fb)) < y * pb * (pow10(fa) * pow10(
        fb,
    )))) by (nonlinear_arith)
        requires
            pow10(fa) >= 1,
            pow10(fb) >= 1;
    assert(x * pa * (pow10(fa) * pow10(fb)) == x * pow10(fb) * pow10(f)) by (nonlinear_arith)
        requires
            pa * pow10(fa) == pow10(f);
    assert(y * pb * (pow10(fa) * pow10(fb)) == y * pow10(fa) * pow10(f)) by (nonlinear_arith)
        requires
            pb * pow10(fb) == pow10(f);
    assert((x * pow10(fb) * pow10(f) < y * pow10(fa) * pow10(f)) == (x * pow10(fb) < y * pow10(
        fa,
    ))) by (nonlinear_arith)
        requires
            pow10(f) >= 1;
    assert((x * pa == y * pb) == (x * pa * (pow10(fa) * pow10(fb)) == y * pb * (pow10(fa) * pow10(
        fb,
    )))) by (nonlinear_arith)
        requires
            pow10(fa) >= 1,
            pow10(fb) >= 1;
    assert((x * pow10(fb) * pow10(f) == y * pow10(fa) * pow10(f)) == (x * pow10(fb) == y * pow10(
        fa,
    ))) by (nonlinear_arith)
        requires
            pow10(f) >= 1;
}

/// Whether a digit run is all zeros, i.e. has value zero.
fn all_zero_digits(v: &Vec<char>) -> (r: bool)
    requires
        all_digits(v@),
    ensures
        r == (dec_val(v@) == 0),
{
    let n = v.len();
    let mut i: usize = 0;
    while i < n
        invariant
            i <= n,
            n == v@.len(),
            all_digits(v@),
            forall|j: int| 0 <= j < i ==> v@[j] == '0',
        decreases n - i,
    {
        let c = v[i];
        if c as u32 != 48 {
            proof {
                lemma_dec_val_zero_iff(v@);
                assert(v@[i as int] != '0') by {
                    assert('0' as u32 == 48);
                }
            }
            return false;
        }
        proof {
            assert(v@[i as int] == '0') by {
                assert('0' as u32 == 48);
                vstd::utf8::char_u32_cast(v@[i as int], 48);
            }
        }
        i = i + 1;
    }
    proof {
        lemma_dec_val_zero_iff(v@);
    }
    true
}

proof fn lemma_dec_val_zero_iff(s: Seq<char>)
    requires
        all_digits(s),
    ensures
        (dec_val(s) == 0) <==> (forall|i: int| 0 <= i < s.len() ==> s[i] == '0'),
    decreases s.len(),
{
    if s.len() > 0 {
        assert(all_digits(s.drop_last()));
        lemma_dec_val_zero_iff(s.drop_last());
        lemma_dec_val_nonneg(s.drop_last());
        let d = digit_val(s.last());
        assert(0 <= d <= 9);
        assert(dec_val(s) == dec_val(s.drop_last()) * 10 + d);
        assert(dec_val(s.drop_last()) * 10 >= 0) by (nonlinear_arith)
            requires dec_val(s.drop_last()) >= 0;
        if dec_val(s) == 0 {
            assert(dec_val(s.drop_last()) * 10 == 0 - d + dec_val(s));
            assert(dec_val(s.drop_last()) == 0) by (nonlinear_arith)
                requires
                    dec_val(s.drop_last()) >= 0,
                    dec_val(s.drop_last()) * 10 <= 9;
            assert(d == 0);
            assert(s.last() == '0') by {
                assert(s.last() as u32 == 48);
                assert('0' as u32 == 48);
                vstd::utf8::char_u32_cast(s.last(), 48);
            }
            assert(forall|i: int| 0 <= i < s.len() - 1 ==> s[i] == s.drop_last()[i]);
        }
        if forall|i: int| 0 <= i < s.len() ==> s[i] == '0' {
            assert(forall|i: int| 0 <= i < s.len() - 1 ==> s.drop_last()[i] == s[i]);
            assert(dec_val(s.drop_last()) == 0);
            assert(s.last() == '0');
            assert('0' as u32 == 48);
        }
    }
}

/// Builds the padded digit run of `d`: `m` digits before the point, `f`
/// after it.
fn build_combined(d: &Decimal, m: usize, f: usize) -> (r: Vec<char>)
    requires
        d@.int_digits.len() <= m,
        d@.frac_digits.len() <= f,
    ensures
        r@ == dec_combined(d@, m as nat, f as nat),
{
    let mut out: Vec<char> = Vec::new();
    push_zeros(&mut out, m - d.int_digits.len());
    append_vec_chars(&mut out, &d.int_digits);
    append_vec_chars(&mut out, &d.frac_digits);
    push_zeros(&mut out, f - d.frac_digits.len());
    proof {
        assert(out@ =~= dec_combined(d@, m as nat, f as nat));
    }
    out
}

/// Three-way numeric comparison of two decimals.
/// Returns 0, 1 or 2 as the first is below, equal to, or above the second.
pub fn dec_cmp(a: &Decimal, b: &Decimal) -> (r: u8)
    requires
        a.wf(),
        b.wf(),
    ensures
        r == 0 <==> dec_lt(a@, b@),
        r == 1 <==> dec_eq(a@, b@),
        r == 2 <==> dec_lt(b@, a@),
{
    let m = if a.int_digits.len() >= b.int_digits.len() {
        a.int_digits.len()
    } else {
        b.int_digits.len()
    };
    let f = if a.frac_digits.len() >= b.frac_digits.len() {
        a.frac_digits.len()
    } else {
        b.frac_digits.len()
    };
    let ca = build_combined(a, m, f);
    let cb = build_combined(b, m, f);
    proof {
        lemma_dec_combined_val(a@, m as nat, f as nat);
        lemma_dec_combined_val(b@, m as nat, f as nat);
        lemma_dec_mag_nonneg(a@);
        lemma_dec_mag_nonneg(b@);
    }
    let cmp = cmp_digit_seqs(&ca, &cb);
    let ghost fa = a@.frac_digits.len();
    let ghost fb = b@.frac_digits.len();
    proof {
        lemma_scale_cmp(dec_mag(a@), dec_mag(b@), fa, fb, f as nat);
        lemma_scale_cmp(dec_mag(b@), dec_mag(a@), fb, fa, f as nat);
    }
    if !a.neg && !b.neg {
        cmp
    } else if a.neg && b.neg {
        proof {
            lemma_scale_neg(dec_mag(a@), dec_mag(b@), fa, fb);
        }
        if cmp == 0 {
            2
        } else if cmp == 2 {
            0
        } else {
            1
        }
    } else {
        let za = all_zero_digits(&ca);
        let zb = all_zero_digits(&cb);
        proof {
            lemma_pow10_pos((f - fa) as nat);
            lemma_pow10_pos((f - fb) as nat);
            assert((dec_mag(a@) * pow10((f - fa) as nat) == 0) == (dec_mag(a@) == 0))
                by (nonlinear_arith)
                requires
                    pow10((f - fa) as nat) >= 1,
                    dec_mag(a@) >= 0;
            assert((dec_mag(b@) * pow10((f - fb) as nat) == 0) == (dec_mag(b@) == 0))
                by (nonlinear_arith)
                requires
                    pow10((f - fb) as nat) >= 1,
                    dec_mag(b@) >= 0;
            lemma_pow10_pos(fa);
            lemma_pow10_pos(fb);
            lemma_sign_cases(dec_mag(a@), dec_mag(b@), fa, fb);
            lemma_sign_cases(dec_mag(b@), dec_mag(a@), fb, fa);
        }
        if za && zb {
            1
        } else if a.neg {
            0
        } else {
            2
        }
    }
}

/// Negating both sides flips the scaled comparison.
proof fn lemma_scale_neg(x: int, y: int, fa: nat, fb: nat)
    ensures
        ((-x) * pow10(fb) < (-y) * pow10(fa)) == (y * pow10(fa) < x * pow10(fb)),
        ((-x) * pow10(fb) == (-y) * pow10(fa)) == (y * pow10(fa) == x * pow10(fb)),
{
    assert((-x) * pow10(fb) == -(x * pow10(fb))) by (nonlinear_arith);
    assert((-y) * pow10(fa) == -(y * pow10(fa))) by (nonlinear_arith);
}

/// A non-positive value is below a non-negative one unless both are zero.
proof fn lemma_sign_cases(x: int, y: int, fa: nat, fb: nat)
    requires
        x >= 0,
        y >= 0,
        pow10(fa) >= 1,
        pow10(fb) >= 1,
    ensures
        ((-x) * pow10(fb) == y * pow10(fa)) == (x == 0 && y == 0),
        (x != 0 || y != 0) ==> ((-x) * pow10(fb) < y * pow10(fa)),
        ((-x) * pow10(fb) > y * pow10(fa)) == false,
{
    assert((-x) * pow10(fb) == -(x * pow10(fb))) by (nonlinear_arith);
    assert(x * pow10(fb) >= x) by (nonlinear_arith)
        requires
            x >= 0,
            pow10(fb) >= 1;
    assert(y * pow10(fa) >= y) by (nonlinear_arith)
        requires
            y >= 0,
            pow10(fa) >= 1;
    assert(x * pow10(fb) == 0 ==> x == 0) by (nonlinear_arith)
        requires
            pow10(fb) >= 1,
            x >= 0;
    assert(y * pow10(fa) == 0 ==> y == 0) by (nonlinear_arith)
        requires
            pow10(fa) >= 1,
            y >= 0;
    assert(x == 0 ==> x * pow10(fb) == 0) by (nonlinear_arith);
    assert(y == 0 ==> y * pow10(fa) == 0) by (nonlinear_arith);
}

// ---------------------------------------------------------------------------
// Values and declared types
// ---------------------------------------------------------------------------

/// A primitive value: a 64-bit integer, a text, a boolean, or an exact
/// decimal number.
#[derive(Debug, Clone, PartialEq)]
pub enum Value {
    Int(i64),
    String(String),
    Bool(bool),
    Float(Decimal),
}

/// The mathematical content of a `Value`.
pub enum ValueView {
    Int(i64),
    Str(Seq<char>),
    Bool(bool),
    Float(DecimalView),
}

impl View for Value {
    type V = ValueView;

    open spec fn view(&self) -> ValueView {
        match self {
            Value::Int(n) => ValueView::Int(*n),
            Value::String(s) => ValueView::Str(s@),
            Value::Bool(b) => ValueView::Bool(*b),
            Value::Float(d) => ValueView::Float(d@),
        }
    }
}

/// Every decimal payload is well formed.
pub open spec fn value_wf(v: ValueView) -> bool {
    match v {
        ValueView::Float(d) => dec_wf(d),
        _ => true,
    }
}

impl Value {
    pub open spec fn wf(&self) -> bool {
        value_wf(self@)
    }

    /// An exact copy.
    pub fn dup(&self) -> (r: Value)
        ensures
            r@ == self@,
    {
        match self {
            Value::Int(n) => Value::Int(*n),
            Value::String(s) => Value::String(s.clone()),
            Value::Bool(b) => Value::Bool(*b),
            Value::Float(d) => Value::Float(d.dup()),
        }
    }
}

/// One declared column type per `Value` variant.
#[derive(Debug, Clone, Copy, PartialEq, Eq, Structural)]
pub enum DataType {
    Bool,
    Int,
    Float,
    String,
}

/// Whether a value's variant is exactly the declared type.
pub open spec fn value_matches_type(v: ValueView, t: DataType) -> bool {
    match (v, t) {
        (ValueView::Bool(_), DataType::Bool) => true,
        (ValueView::Int(_), DataType::Int) => true,
        (ValueView::Str(_), DataType::String) => true,
        (ValueView::Float(_), DataType::Float) => true,
        _ => false,
    }
}

/// Structural / numeric equality of two values; values of different
/// variants are never equal.
pub open spec fn value_eq_spec(a: ValueView, b: ValueView) -> bool {
    match (a, b) {
        (ValueView::Int(x), ValueView::Int(y)) => x == y,
        (ValueView::Str(x), ValueView::Str(y)) => x == y,
        (ValueView::Bool(x), ValueView::Bool(y)) => x == y,
        (ValueView::Float(x), ValueView::Float(y)) => dec_eq(x, y),
        _ => false,
    }
}

/// Strict order of two values; values of different variants are unordered
/// (never strictly below one another).
pub open spec fn value_lt_spec(a: ValueView, b: ValueView) -> bool {
    match (a, b) {
        (ValueView::Int(x), ValueView::Int(y)) => x < y,
        (ValueView::Str(x), ValueView::Str(y)) => char_seq_lt(x, y),
        (ValueView::Bool(x), ValueView::Bool(y)) => !x && y,
        (ValueView::Float(x), ValueView::Float(y)) => dec_lt(x, y),
        _ => false,
    }
}

/// Whether `a == b` under the value equality above.
pub fn value_eq(a: &Value, b: &Value) -> (r: bool)
    requires
        a.wf(),
        b.wf(),
    ensures
        r == value_eq_spec(a@, b@),
{
    match (a, b) {
        (Value::Int(x), Value::Int(y)) => *x == *y,
        (Value::String(x), Value::String(y)) => *x == *y,
        (Value::Bool(x), Value::Bool(y)) => *x == *y,
        (Value::Float(x), Value::Float(y)) => dec_cmp(x, y) == 1,
        _ => false,
    }
}

/// Whether `a` sorts strictly below `b` under the value order above.
pub fn value_lt(a: &Value, b: &Value) -> (r: bool)
    requires
        a.wf(),
        b.wf(),
    ensures
        r == value_lt_spec(a@, b@),
{
    match (a, b) {
        (Value::Int(x), Value::Int(y)) => *x < *y,
        (Value::String(x), Value::String(y)) => str_lt(x.as_str(), y.as_str()),
        (Value::Bool(x), Value::Bool(y)) => !*x && *y,
        (Value::Float(x), Value::Float(y)) => dec_cmp(x, y) == 0,
        _ => false,
    }
}

// ---------------------------------------------------------------------------
// Rendering values as text
// ---------------------------------------------------------------------------

/// The text of a decimal: optional minus sign, integer digits, a point,
/// fraction digits — exactly as it was written.
pub open spec fn dec_text(d: DecimalView) -> Seq<char> {
    (if d.neg {
        seq!['-']
    } else {
        Seq::<char>::empty()
    }) + d.int_digits + seq!['.'] + d.frac_digits
}

/// The display text of a value: decimal digits for an integer, the bare
/// characters of a text, `true`/`false` for a boolean, and the decimal's
/// own text.
pub open spec fn value_text(v: ValueView) -> Seq<char> {
    match v {
        ValueView::Int(i) => crate::text::int_dec_seq(i as int),
        ValueView::Str(s) => s,
        ValueView::Bool(b) => if b {
            "true"@
        } else {
            "false"@
        },
        ValueView::Float(d) => dec_text(d),
    }
}

/// Appends the display text of `v` to `out`.
pub fn append_value_text(out: &mut Vec<char>, v: &Value)
    ensures
        final(out)@ == old(out)@ + value_text(v@),
{
    match v {
        Value::Int(n) => {
            let s = crate::text::int_text(*n);
            append_str_chars(out, s.as_str());
        },
        Value::String(s) => {
            append_str_chars(out, s.as_str());
        },
        Value::Bool(b) => {
            if *b {
                append_str_chars(out, "true");
            } else {
                append_str_chars(out, "false");
            }
        },
        Value::Float(d) => {
            let ghost pre = out@;
            if d.neg {
                out.push('-');
            }
            append_vec_chars(out, &d.int_digits);
            out.push('.');
            append_vec_chars(out, &d.frac_digits);
            proof {
                assert(out@ =~= pre + dec_text(d@));
            }
        },
    }
}

// ---------------------------------------------------------------------------
// Records and schemas
// ---------------------------------------------------------------------------

/// One row's worth of column-name / value pairs.  A lookup takes the first
/// pair with the wanted name.
#[derive(Debug, Clone)]
pub struct Record {
    pub fields: Vec<(String, Value)>,
}

impl View for Record {
    type V = Seq<(Seq<char>, ValueView)>;

    open spec fn view(&self) -> Seq<(Seq<char>, ValueView)> {
        self.fields@.map_values(|p: (String, Value)| (p.0@, p.1@))
    }
}

/// First-match lookup of a column in a record's content.
pub open spec fn rec_get(r: Seq<(Seq<char>, ValueView)>, col: Seq<char>) -> Option<ValueView>
    decreases r.len(),
{
    if r.len() == 0 {
        None
    } else if r[0].0 == col {
        Some(r[0].1)
    } else {
        rec_get(r.subrange(1, r.len() as int), col)
    }
}

/// The schema view: column names and their declared types, in order.
pub open spec fn schema_view(s: Seq<(String, DataType)>) -> Seq<(Seq<char>, DataType)> {
    s.map_values(|p: (String, DataType)| (p.0@, p.1))
}

/// Every value in the record is well formed.
pub open spec fn record_wf(r: Seq<(Seq<char>, ValueView)>) -> bool {
    forall|i: int| 0 <= i < r.len() ==> value_wf(#[trigger] r[i].1)
}

/// A schema column is satisfied: present in the record with the declared
/// variant.
pub open spec fn col_ok(
    r: Seq<(Seq<char>, ValueView)>,
    name: Seq<char>,
    ty: DataType,
) -> bool {
    match rec_get(r, name) {
        Some(v) => value_matches_type(v, ty),
        None => false,
    }
}

/// Every column of the schema is satisfied by the record.
pub open spec fn validate_ok(
    r: Seq<(Seq<char>, ValueView)>,
    s: Seq<(Seq<char>, DataType)>,
) -> bool {
    forall|i: int| 0 <= i < s.len() ==> col_ok(r, #[trigger] s[i].0, s[i].1)
}

/// A value found in a well-formed record is itself well formed.
pub proof fn lemma_rec_get_wf(r: Seq<(Seq<char>, ValueView)>, col: Seq<char>)
    requires
        record_wf(r),
        rec_get(r, col) is Some,
    ensures
        value_wf(rec_get(r, col).unwrap()),
    decreases r.len(),
{
    if r.len() > 0 && r[0].0 != col {
        let t = r.subrange(1, r.len() as int);
        assert(forall|i: int| 0 <= i < t.len() ==> t[i] == r[i + 1]);
        assert(record_wf(t));
        lemma_rec_get_wf(t, col);
    }
}

proof fn lemma_rec_get_step(r: Seq<(Seq<char>, ValueView)>, col: Seq<char>, i: int)
    requires
        0 <= i <= r.len(),
        forall|j: int| 0 <= j < i ==> r[j].0 != col,
    ensures
        rec_get(r, col) == rec_get(r.subrange(i, r.len() as int), col),
    decreases i,
{
    if i > 0 {
        assert(r[0].0 != col);
        let r1 = r.subrange(1, r.len() as int);
        assert(forall|j: int| 0 <= j < i - 1 ==> r1[j].0 != col);
        lemma_rec_get_step(r1, col, i - 1);
        assert(r1.subrange(i - 1, r1.len() as int) =~= r.subrange(i, r.len() as int));
    } else {
        assert(r.subrange(0, r.len() as int) =~= r);
    }
}

impl Record {
    pub open spec fn wf(&self) -> bool {
        record_wf(self@)
    }

    /// First-match lookup of a column.
    pub fn get(&self, col: &String) -> (r: Option<&Value>)
        ensures
            match r {
                Some(v) => rec_get(self@, col@) == Some(v@),
                None => rec_get(self@, col@) is None,
            },
    {
        let n = self.fields.len();
        let mut i: usize = 0;
        while i < n
            invariant
                i <= n,
                n == self.fields@.len(),
                forall|j: int| 0 <= j < i ==> self@[j].0 != col@,
            decreases n - i,
        {
            if self.fields[i].0 == *col {
                proof {
                    lemma_rec_get_step(self@, col@, i as int);
                    let rest = self@.subrange(i as int, self@.len() as int);
                    assert(rest[0] == self@[i as int]);
                }
                return Some(&self.fields[i].1);
            }
            proof {
                assert(self@[i as int].0 == self.fields@[i as int].0@);
            }
            i = i + 1;
        }
        proof {
            lemma_rec_get_step(self@, col@, n as int);
            assert(self@.subrange(n as int, self@.len() as int).len() == 0);
        }
        None
    }

    /// An exact copy.
    pub fn dup(&self) -> (r: Record)
        ensures
            r@ == self@,
    {
        let n = self.fields.len();
        let mut out: Vec<(String, Value)> = Vec::new();
        let mut i: usize = 0;
        while i < n
            invariant
                i <= n,
                n == self.fields@.len(),
                out@.len() == i,
                forall|j: int| 0 <= j < i ==> (#[trigger] out@[j].0)@ == self.fields@[j].0@
                    && out@[j].1@ == self.fields@[j].1@,
            decreases n - i,
        {
            let name = self.fields[i].0.clone();
            let val = self.fields[i].1.dup();
            out.push((name, val));
            i = i + 1;
        }
        let r = Record { fields: out };
        proof {
            assert(r@ =~= self@);
        }
        r
    }

    /// A record satisfies a schema exactly when every declared column is
    /// present with the declared variant.  On failure, the first violated
    /// schema entry decides the error: `ColumnNotFound` for an absent
    /// column, `TypeMismatch` for a present value of the wrong variant.
    pub fn validate(&self, schema: &Vec<(String, DataType)>) -> (r: DbResult<()>)
        ensures
            (r is Ok) == validate_ok(self@, schema_view(schema@)),
            r matches Err(e) ==> {
                let s = schema_view(schema@);
                exists|j: int|
                    0 <= j < s.len() && !col_ok(self@, #[trigger] s[j].0, s[j].1) && (forall|k: int|
                        0 <= k < j ==> col_ok(self@, #[trigger] s[k].0, s[k].1)) && (match rec_get(
                        self@,
                        s[j].0,
                    ) {
                        Option::None => e matches DbError::ColumnNotFound(c) && c@ == s[j].0,
                        Option::Some(_) => e is TypeMismatch,
                    })
            },
    {
        let n = schema.len();
        let mut i: usize = 0;
        while i < n
            invariant
                i <= n,
                n == schema@.len(),
                forall|k: int|
                    0 <= k < i ==> col_ok(
                        self@,
                        #[trigger] schema_view(schema@)[k].0,
                        schema_view(schema@)[k].1,
                    ),
            decreases n - i,
        {
            let ghost s = schema_view(schema@);
            match self.get(&schema[i].0) {
                Some(v) => {
                    let ok = match (v, &schema[i].1) {
                        (Value::Bool(_), DataType::Bool) => true,
                        (Value::Int(_), DataType::Int) => true,
                        (Value::String(_), DataType::String) => true,
                        (Value::Float(_), DataType::Float) => true,
                        _ => false,
                    };
                    if !ok {
                        proof {
                            assert(s[i as int].0 == schema@[i as int].0@);
                            assert(!col_ok(self@, s[i as int].0, s[i as int].1));
                        }
                        return Err(DbError::TypeMismatch("Invalid type".to_owned()));
                    }
                    proof {
                        assert(s[i as int].0 == schema@[i as int].0@);
                        assert(col_ok(self@, s[i as int].0, s[i as int].1));
                    }
                },
                None => {
                    proof {
                        assert(s[i as int].0 == schema@[i as int].0@);
                        assert(!col_ok(self@, s[i as int].0, s[i as int].1));
                    }
                    return Err(DbError::ColumnNotFound(schema[i].0.clone()));
                },
            }
            i = i + 1;
        }
        Ok(())
    }
}

// ---------------------------------------------------------------------------
// Primary keys
// ---------------------------------------------------------------------------

/// The mathematical content of a primary key: an integer or a text.
pub enum KeyModel {
    Int(i64),
    Str(Seq<char>),
}

/// Strict total order on key models.  Within a table all keys share one
/// variant; across variants the order is fixed arbitrarily.
pub open spec fn key_model_lt(a: KeyModel, b: KeyModel) -> bool {
    match (a, b) {
        (KeyModel::Int(x), KeyModel::Int(y)) => x < y,
        (KeyModel::Str(x), KeyModel::Str(y)) => char_seq_lt(x, y),
        (KeyModel::Int(_), KeyModel::Str(_)) => true,
        (KeyModel::Str(_), KeyModel::Int(_)) => false,
    }
}

/// Any two key models are ordered one way or the other, or equal.
pub proof fn lemma_key_model_lt_trichotomy(a: KeyModel, b: KeyModel)
    ensures
        key_model_lt(a, b) || key_model_lt(b, a) || a == b,
{
    match (a, b) {
        (KeyModel::Str(x), KeyModel::Str(y)) => {
            crate::text::lemma_char_seq_lt_trichotomy(x, y);
        },
        _ => {},
    }
}

/// No key model sorts strictly below itself.
pub proof fn lemma_key_model_lt_irrefl(m: KeyModel)
    ensures
        !key_model_lt(m, m),
{
    if let KeyModel::Str(x) = m {
        crate::text::lemma_char_seq_lt_irrefl(x);
    }
}

/// The key-model order is transitive.
pub proof fn lemma_key_model_lt_trans(a: KeyModel, b: KeyModel, c: KeyModel)
    requires
        key_model_lt(a, b),
        key_model_lt(b, c),
    ensures
        key_model_lt(a, c),
{
    match (a, b) {
        (KeyModel::Str(x), KeyModel::Str(y)) => {
            if let KeyModel::Str(z) = c {
                crate::text::lemma_char_seq_lt_trans(x, y, z);
            }
        },
        _ => {},
    }
}

/// The capability a type needs to serve as a table's primary key: a model,
/// a total order, and a narrowing conversion from `Value`.
pub trait DatabaseKey: Sized {
    /// The mathematical content of this key.
    spec fn model(&self) -> KeyModel;

    /// Which key model, if any, this key type reads out of a value.
    spec fn spec_from_value(v: ValueView) -> Option<KeyModel>;

    /// Narrowing conversion: `Some` exactly when the value's variant is the
    /// key type's own.
    fn from_value(val: &Value) -> (r: Option<Self>)
        ensures
            (r is Some) == (Self::spec_from_value(val@) is Some),
            r matches Some(k) ==> Self::spec_from_value(val@) == Some(k.model()),
    ;

    /// Whether this key sorts strictly below `other`.
    fn key_less(&self, other: &Self) -> (r: bool)
        ensures
            r == key_model_lt(self.model(), other.model()),
    ;

    /// Whether this key equals `other`.
    fn key_equal(&self, other: &Self) -> (r: bool)
        ensures
            r == (self.model() == other.model()),
    ;
}

impl DatabaseKey for i64 {
    open spec fn model(&self) -> KeyModel {
        KeyModel::Int(*self)
    }

    open spec fn spec_from_value(v: ValueView) -> Option<KeyModel> {
        match v {
            ValueView::Int(n) => Some(KeyModel::Int(n)),
            _ => None,
        }
    }

    fn from_value(val: &Value) -> (r: Option<Self>) {
        if let Value::Int(n) = val {
            Some(*n)
        } else {
            None
        }
    }

    fn key_less(&self, other: &Self) -> (r: bool) {
        *self < *other
    }

    fn key_equal(&self, other: &Self) -> (r: bool) {
        *self == *other
    }
}

impl DatabaseKey for String {
    open spec fn model(&self) -> KeyModel {
        KeyModel::Str(self@)
    }

    open spec fn spec_from_value(v: ValueView) -> Option<KeyModel> {
        match v {
            ValueView::Str(s) => Some(KeyModel::Str(s)),
            _ => None,
        }
    }

    fn from_value(val: &Value) -> (r: Option<Self>) {
        if let Value::String(s) = val {
            Some(s.clone())
        } else {
            None
        }
    }

    fn key_less(&self, other: &Self) -> (r: bool) {
        str_lt(self.as_str(), other.as_str())
    }

    fn key_equal(&self, other: &Self) -> (r: bool) {
        *self == *other
    }
}

} // verus!
