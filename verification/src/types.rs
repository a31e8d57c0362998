//! The typed value model and the literal resolver.
//!
//! A raw `Symbol` leaf is classified, in a fixed order, as an integer,
//! a floating-point literal, a boolean, a quoted string, a variable
//! reference (`&name`), a function reference (`$name`), or an opaque
//! symbol.  A raw `List` resolves its children and becomes an explicit
//! call node when its first resolved child is a function reference.
//!
//! A floating-point value is carried as its literal text: the
//! resolver, the renderer and truncation toward zero all work on the
//! text, while binary arithmetic on it is a host capability (see
//! `FloatOps`), since this crate itself holds no floating-point code.
use vstd::prelude::*;

use crate::parser::ParserToken;
use crate::parser::TokV;
use crate::text::chars_of;
use crate::text::push_chars;
use crate::text::string_from_chars;
use crate::text::subchars;

verus! {

/// Mathematical shape of a typed value.
pub enum ValV {
    Integer(i64),
    FloatingPoint(Seq<char>),
    Boolean(bool),
    String(Seq<char>),
    Variable(Seq<char>),
    Function(Seq<char>),
    Symbol(Seq<char>),
    List(Seq<ValV>),
    Executable(Seq<char>, Seq<ValV>),
}

/// A typed value: a classified literal, a reference, a plain list, or a
/// call node (`Executable`) holding a function name and its unevaluated
/// arguments.
#[derive(Debug, PartialEq, Eq)]
pub enum LispToken {
    Integer(i64),
    FloatingPoint(String),
    Boolean(bool),
    String(String),
    Variable(String),
    Function(String),
    Symbol(String),
    List(Vec<LispToken>),
    Executable(String, Vec<LispToken>),
}

impl View for LispToken {
    type V = ValV;

    open spec fn view(&self) -> ValV
        decreases self,
    {
        match self {
            LispToken::Integer(i) => ValV::Integer(*i),
            LispToken::FloatingPoint(t) => ValV::FloatingPoint(t@),
            LispToken::Boolean(b) => ValV::Boolean(*b),
            LispToken::String(s) => ValV::String(s@),
            LispToken::Variable(s) => ValV::Variable(s@),
            LispToken::Function(s) => ValV::Function(s@),
            LispToken::Symbol(s) => ValV::Symbol(s@),
            LispToken::List(l) => ValV::List(vals_view(l@)),
            LispToken::Executable(f, a) => ValV::Executable(f@, vals_view(a@)),
        }
    }
}

/// The views of a sequence of typed values, in order.
pub open spec fn vals_view(l: Seq<LispToken>) -> Seq<ValV>
    decreases l,
{
    if l.len() == 0 {
        Seq::empty()
    } else {
        vals_view(l.subrange(0, l.len() - 1)).push(l[l.len() - 1]@)
    }
}

pub proof fn lemma_vals_view_elems(l: Seq<LispToken>)
    ensures
        vals_view(l).len() == l.len(),
        forall|i: int| 0 <= i < l.len() ==> vals_view(l)[i] == #[trigger] l[i]@,
    decreases l.len(),
{
    if l.len() > 0 {
        let sub = l.subrange(0, l.len() - 1);
        lemma_vals_view_elems(sub);
        assert(vals_view(l) == vals_view(sub).push(l[l.len() - 1]@));
        assert forall|i: int| 0 <= i < l.len() implies vals_view(l)[i] == #[trigger] l[i]@ by {
            if i < l.len() - 1 {
                assert(vals_view(l)[i] == vals_view(sub)[i]);
                assert(sub[i] == l[i]);
            }
        }
    }
}

// ---------------------------------------------------------------------
// Integer literals
// ---------------------------------------------------------------------
pub open spec fn is_digit(c: char) -> bool {
    '0' <= c && c <= '9'
}

pub open spec fn digit_val(c: char) -> int {
    c as u32 - '0' as u32
}

pub open spec fn all_digits(s: Seq<char>) -> bool {
    forall|i: int| 0 <= i < s.len() ==> is_digit(#[trigger] s[i])
}

pub open spec fn digits_value(s: Seq<char>) -> int
    decreases s.len(),
{
    if s.len() == 0 {
        0
    } else {
        digits_value(s.take(s.len() - 1)) * 10 + digit_val(s[s.len() - 1])
    }
}

/// The text after one optional leading sign.
pub open spec fn sign_body(s: Seq<char>) -> Seq<char> {
    if s.len() > 0 && (s[0] == '+' || s[0] == '-') {
        s.drop_first()
    } else {
        s
    }
}

pub open spec fn sign_of(s: Seq<char>) -> int {
    if s.len() > 0 && s[0] == '-' {
        -1
    } else {
        1
    }
}

/// An optional sign followed by at least one decimal digit.
pub open spec fn is_int_shape(s: Seq<char>) -> bool {
    sign_body(s).len() > 0 && all_digits(sign_body(s))
}

pub open spec fn int_value(s: Seq<char>) -> int {
    sign_of(s) * digits_value(sign_body(s))
}

/// What `i64::from_str` accepts, and the value it gives: a signed string
/// of decimal digits whose value fits the type.
pub open spec fn i64_from_text(s: Seq<char>) -> Option<i64> {
    if is_int_shape(s) && i64::MIN <= int_value(s) && int_value(s) <= i64::MAX {
        Some(int_value(s) as i64)
    } else {
        None
    }
}

/// Relies on `str::parse::<i64>` (`i64::from_str`): it accepts an
/// optional sign followed by decimal digits, exactly when the value
/// fits the type, and returns that value.
#[verifier::external_body]
pub fn parse_integer(s: &str) -> (r: Option<i64>)
    ensures
        r == i64_from_text(s@),
{
    s.parse::<i64>().ok()
}

// ---------------------------------------------------------------------
// Floating-point literals
// ---------------------------------------------------------------------
/// `c` equals the lowercase letter `lc`, ignoring ASCII case.
pub open spec fn eq_ci(c: char, lc: char) -> bool {
    c == lc || c as u32 + 32 == lc as u32
}

pub open spec fn match_ci(s: Seq<char>, w: Seq<char>) -> bool {
    s.len() == w.len() && forall|i: int| 0 <= i < s.len() ==> eq_ci(#[trigger] s[i], w[i])
}

pub open spec fn is_inf_nan(b: Seq<char>) -> bool {
    ||| match_ci(b, seq!['i', 'n', 'f'])
    ||| match_ci(b, seq!['i', 'n', 'f', 'i', 'n', 'i', 't', 'y'])
    ||| match_ci(b, seq!['n', 'a', 'n'])
}

/// The index of the first exponent marker (`e` or `E`), or -1.
pub open spec fn find_exp(s: Seq<char>) -> int
    decreases s.len(),
{
    if s.len() == 0 {
        -1
    } else if s[0] == 'e' || s[0] == 'E' {
        0
    } else {
        let r = find_exp(s.drop_first());
        if r < 0 {
            -1
        } else {
            r + 1
        }
    }
}

pub proof fn lemma_find_exp(s: Seq<char>)
    ensures
        find_exp(s) == -1 ==> forall|i: int|
            0 <= i < s.len() ==> (#[trigger] s[i]) != 'e' && s[i] != 'E',
        find_exp(s) >= 0 ==> {
            &&& find_exp(s) < s.len()
            &&& (s[find_exp(s)] == 'e' || s[find_exp(s)] == 'E')
            &&& forall|i: int| 0 <= i < find_exp(s) ==> (#[trigger] s[i]) != 'e' && s[i] != 'E'
        },
    decreases s.len(),
{
    if s.len() > 0 && !(s[0] == 'e' || s[0] == 'E') {
        let r = s.drop_first();
        lemma_find_exp(r);
        if find_exp(r) < 0 {
            assert forall|i: int| 0 <= i < s.len() implies (#[trigger] s[i]) != 'e' && s[i]
                != 'E' by {
                if i >= 1 {
                    assert(s[i] == r[i - 1]);
                }
            }
        } else {
            assert(find_exp(s) == find_exp(r) + 1);
            assert(s[find_exp(s)] == r[find_exp(r)]);
            assert forall|i: int| 0 <= i < find_exp(s) implies (#[trigger] s[i]) != 'e' && s[i]
                != 'E' by {
                if i >= 1 {
                    assert(s[i] == r[i - 1]);
                }
            }
        }
    }
}

/// Decimal digits holding at most one dot and at least one digit.
pub open spec fn is_mantissa(m: Seq<char>) -> bool {
    ||| (m.len() > 0 && all_digits(m))
    ||| (exists|k: int|
        0 <= k < m.len() && #[trigger] m[k] == '.' && all_digits(m.take(k)) && all_digits(
            m.skip(k + 1),
        ) && m.len() > 1)
}

/// An optional sign followed by at least one decimal digit.
pub open spec fn is_exp_part(x: Seq<char>) -> bool {
    sign_body(x).len() > 0 && all_digits(sign_body(x))
}

/// What `f64::from_str` accepts: an optional sign, then `inf`,
/// `infinity` or `nan` ignoring case, or a mantissa of digits with at
/// most one dot and at least one digit, optionally followed by an
/// exponent marker, an optional sign and digits.  Every such string
/// parses to a floating-point value (out-of-range values overflow to
/// infinity), so acceptance depends on the shape alone.
pub open spec fn is_float_text(s: Seq<char>) -> bool {
    let b = sign_body(s);
    ||| is_inf_nan(b)
    ||| {
        let k = find_exp(b);
        if k < 0 {
            is_mantissa(b)
        } else {
            is_mantissa(b.take(k)) && is_exp_part(b.skip(k + 1))
        }
    }
}

// ---------------------------------------------------------------------
// Truncation of a floating-point text toward zero
// ---------------------------------------------------------------------
/// The index of the first dot, or -1.
pub open spec fn find_dot(s: Seq<char>) -> int
    decreases s.len(),
{
    if s.len() == 0 {
        -1
    } else if s[0] == '.' {
        0
    } else {
        let r = find_dot(s.drop_first());
        if r < 0 {
            -1
        } else {
            r + 1
        }
    }
}

pub proof fn lemma_find_dot(s: Seq<char>)
    ensures
        find_dot(s) == -1 ==> forall|i: int| 0 <= i < s.len() ==> (#[trigger] s[i]) != '.',
        find_dot(s) >= 0 ==> {
            &&& find_dot(s) < s.len()
            &&& s[find_dot(s)] == '.'
            &&& forall|i: int| 0 <= i < find_dot(s) ==> (#[trigger] s[i]) != '.'
        },
    decreases s.len(),
{
    if s.len() > 0 && s[0] != '.' {
        let r = s.drop_first();
        lemma_find_dot(r);
        if find_dot(r) < 0 {
            assert forall|i: int| 0 <= i < s.len() implies (#[trigger] s[i]) != '.' by {
                if i >= 1 {
                    assert(s[i] == r[i - 1]);
                }
            }
        } else {
            assert(find_dot(s) == find_dot(r) + 1);
            assert(s[find_dot(s)] == r[find_dot(r)]);
            assert forall|i: int| 0 <= i < find_dot(s) implies (#[trigger] s[i]) != '.' by {
                if i >= 1 {
                    assert(s[i] == r[i - 1]);
                }
            }
        }
    }
}

/// The digits of the signless body before any exponent marker, the dot
/// included.
pub open spec fn mantissa_of(b: Seq<char>) -> Seq<char> {
    if find_exp(b) < 0 {
        b
    } else {
        b.take(find_exp(b))
    }
}

/// The signed value of the exponent, zero when there is none.
pub open spec fn exp_value_of(b: Seq<char>) -> int {
    if find_exp(b) < 0 {
        0
    } else {
        let x = b.skip(find_exp(b) + 1);
        sign_of(x) * digits_value(sign_body(x))
    }
}

pub open spec fn int_part_of(m: Seq<char>) -> Seq<char> {
    if find_dot(m) < 0 {
        m
    } else {
        m.take(find_dot(m))
    }
}

pub open spec fn frac_part_of(m: Seq<char>) -> Seq<char> {
    if find_dot(m) < 0 {
        Seq::empty()
    } else {
        m.skip(find_dot(m) + 1)
    }
}

pub open spec fn zero_chars(n: nat) -> Seq<char>
    decreases n,
{
    if n == 0 {
        Seq::empty()
    } else {
        zero_chars((n - 1) as nat).push('0')
    }
}

pub open spec fn pow10(n: nat) -> int
    decreases n,
{
    if n == 0 {
        1
    } else {
        10 * pow10((n - 1) as nat)
    }
}

/// The digits of the number's integer part once the decimal point is
/// shifted by the exponent: fraction digits move up (zeros appended
/// past their end), integer digits are cut from the right for a
/// negative exponent.
pub open spec fn shifted_digits(ip: Seq<char>, fp: Seq<char>, e: int) -> Seq<char> {
    if e >= 0 {
        if e <= fp.len() {
            ip + fp.take(e)
        } else {
            ip + fp + zero_chars((e - fp.len()) as nat)
        }
    } else {
        if ip.len() + e <= 0 {
            Seq::empty()
        } else {
            ip.take(ip.len() + e)
        }
    }
}

/// Truncation of a floating-point text toward zero, as an integer: the
/// written number's integer part, read exactly from the text — sign,
/// mantissa and decimal exponent — saturating at the `i64` bounds, with
/// `nan` as zero and the infinities at the bounds, the rule the `f64`
/// to `i64` cast documents.  A text that is no floating-point literal
/// truncates to zero.
pub open spec fn trunc_of_text(s: Seq<char>) -> i64 {
    if !is_float_text(s) {
        0
    } else {
        let neg = s.len() > 0 && s[0] == '-';
        let b = sign_body(s);
        if is_inf_nan(b) {
            if match_ci(b, seq!['n', 'a', 'n']) {
                0
            } else if neg {
                i64::MIN
            } else {
                i64::MAX
            }
        } else {
            let m = mantissa_of(b);
            let v = digits_value(shifted_digits(int_part_of(m), frac_part_of(m), exp_value_of(b)));
            let sv: int = if neg {
                -v
            } else {
                v
            };
            if sv < i64::MIN {
                i64::MIN
            } else if sv > i64::MAX {
                i64::MAX
            } else {
                sv as i64
            }
        }
    }
}

/// `digits_value`, restarted from a running accumulator.
pub open spec fn dv_from(acc: int, s: Seq<char>) -> int
    decreases s.len(),
{
    if s.len() == 0 {
        acc
    } else {
        dv_from(acc, s.take(s.len() - 1)) * 10 + digit_val(s[s.len() - 1])
    }
}

pub proof fn lemma_digit_val_bounds(c: char)
    requires
        is_digit(c),
    ensures
        0 <= digit_val(c) <= 9,
{
}

pub proof fn lemma_dv_is_dv_from(s: Seq<char>)
    ensures
        digits_value(s) == dv_from(0, s),
    decreases s.len(),
{
    if s.len() > 0 {
        lemma_dv_is_dv_from(s.take(s.len() - 1));
        assert(dv_from(0, s) == dv_from(0, s.take(s.len() - 1)) * 10 + digit_val(s[s.len() - 1]));
    }
}

pub proof fn lemma_dv_from_concat(acc: int, x: Seq<char>, y: Seq<char>)
    ensures
        dv_from(acc, x + y) == dv_from(dv_from(acc, x), y),
    decreases y.len(),
{
    if y.len() == 0 {
        assert(x + y =~= x);
    } else {
        let y0 = y.take(y.len() - 1);
        assert((x + y).take((x + y).len() - 1) =~= x + y0);
        assert((x + y)[(x + y).len() - 1] == y[y.len() - 1]);
        lemma_dv_from_concat(acc, x, y0);
    }
}

/// Reading further digits never shrinks a non-negative accumulator.
pub proof fn lemma_dv_from_grows(acc: int, s: Seq<char>)
    requires
        acc >= 0,
        all_digits(s),
    ensures
        dv_from(acc, s) >= acc,
    decreases s.len(),
{
    if s.len() > 0 {
        let s0 = s.take(s.len() - 1);
        assert(all_digits(s0)) by {
            assert(forall|i: int| 0 <= i < s0.len() ==> s0[i] == #[trigger] s[i]);
        }
        lemma_dv_from_grows(acc, s0);
        lemma_digit_val_bounds(s[s.len() - 1]);
    }
}

pub proof fn lemma_dv_from_zeros(acc: int, n: nat)
    ensures
        dv_from(acc, zero_chars(n)) == acc * pow10(n),
    decreases n,
{
    if n > 0 {
        let z0 = zero_chars((n - 1) as nat);
        assert(zero_chars(n).take(zero_chars(n).len() - 1) =~= z0);
        assert(zero_chars(n)[zero_chars(n).len() - 1] == '0');
        lemma_dv_from_zeros(acc, (n - 1) as nat);
        assert(dv_from(acc, zero_chars(n)) == acc * pow10((n - 1) as nat) * 10 + 0);
        assert(acc * pow10((n - 1) as nat) * 10 == acc * (10 * pow10((n - 1) as nat)))
            by (nonlinear_arith);
    }
}

pub proof fn lemma_pow10_pos(n: nat)
    ensures
        pow10(n) >= 1,
    decreases n,
{
    if n > 0 {
        lemma_pow10_pos((n - 1) as nat);
    }
}

pub proof fn lemma_pow10_mono(a: nat, b: nat)
    requires
        a <= b,
    ensures
        pow10(a) <= pow10(b),
    decreases b,
{
    if a < b {
        lemma_pow10_mono(a, (b - 1) as nat);
        lemma_pow10_pos((b - 1) as nat);
    }
}

pub proof fn lemma_pow10_21()
    ensures
        pow10(21) == 1000000000000000000000,
{
    assert(pow10(0) == 1);
    assert(pow10(1) == 10);
    assert(pow10(2) == 100);
    assert(pow10(3) == 1000);
    assert(pow10(4) == 10000);
    assert(pow10(5) == 100000);
    assert(pow10(6) == 1000000);
    assert(pow10(7) == 10000000);
    assert(pow10(8) == 100000000);
    assert(pow10(9) == 1000000000);
    assert(pow10(10) == 10000000000);
    assert(pow10(11) == 100000000000);
    assert(pow10(12) == 1000000000000);
    assert(pow10(13) == 10000000000000);
    assert(pow10(14) == 100000000000000);
    assert(pow10(15) == 1000000000000000);
    assert(pow10(16) == 10000000000000000);
    assert(pow10(17) == 100000000000000000);
    assert(pow10(18) == 1000000000000000000);
    assert(pow10(19) == 10000000000000000000);
    assert(pow10(20) == 100000000000000000000);
    assert(pow10(21) == 1000000000000000000000);
}

/// Reads the decimal digits in `[from, to)` onto `acc0`: the value is
/// exact while it stays under `bound`; a result at or above `bound`
/// means the exact value is at least that large.
fn accum_digits(v: &Vec<char>, from: usize, to: usize, acc0: u128, bound: u128) -> (r: u128)
    requires
        from <= to <= v@.len(),
        forall|j: int| from <= j < to ==> is_digit(#[trigger] v@[j]),
        1 <= bound <= 0x100000000000000000000u128,
        acc0 < bound,
    ensures
        r < bound ==> r == dv_from(acc0 as int, v@.subrange(from as int, to as int)),
        r >= bound ==> dv_from(acc0 as int, v@.subrange(from as int, to as int)) >= bound,
{
    let ghost s = v@.subrange(from as int, to as int);
    let mut acc: u128 = acc0;
    let mut i: usize = from;
    while i < to
        invariant
            from <= i <= to <= v@.len(),
            s == v@.subrange(from as int, to as int),
            forall|j: int| from <= j < to ==> is_digit(#[trigger] v@[j]),
            1 <= bound <= 0x100000000000000000000u128,
            acc < bound,
            acc == dv_from(acc0 as int, s.take(i - from)),
        decreases to - i,
    {
        let c = v[i];
        proof {
            assert(s[i - from] == v@[i as int]);
            lemma_digit_val_bounds(v@[i as int]);
        }
        let d: u128 = ((c as u32) - ('0' as u32)) as u128;
        let next: u128 = acc * 10 + d;
        proof {
            let k = i - from;
            assert(s.take(k + 1).take(k) =~= s.take(k));
            assert(s.take(k + 1)[k] == s[k]);
            assert(next as int == dv_from(acc0 as int, s.take(k + 1)));
        }
        i = i + 1;
        if next >= bound {
            proof {
                let k = i - from;
                assert(s =~= s.take(k) + s.skip(k));
                lemma_dv_from_concat(acc0 as int, s.take(k), s.skip(k));
                assert(all_digits(s.skip(k))) by {
                    assert(forall|j: int|
                        0 <= j < s.skip(k).len() ==> s.skip(k)[j] == #[trigger] s[j + k]);
                    assert(forall|j: int| 0 <= j < s.len() ==> s[j] == #[trigger] v@[j + from]);
                }
                lemma_dv_from_grows(next as int, s.skip(k));
            }
            return next;
        }
        acc = next;
    }
    proof {
        assert(s.take(to - from) =~= s);
    }
    acc
}

/// A mantissa's integer and fraction parts hold digits only.
pub proof fn lemma_mantissa_parts_digits(m: Seq<char>)
    requires
        is_mantissa(m),
    ensures
        all_digits(int_part_of(m)),
        all_digits(frac_part_of(m)),
{
    lemma_find_dot(m);
    let ip = int_part_of(m);
    let fp = frac_part_of(m);
    if find_dot(m) < 0 {
        assert(all_digits(m));
        assert(all_digits(ip)) by {
            assert(forall|j: int| 0 <= j < ip.len() ==> ip[j] == #[trigger] m[j]);
        }
    } else {
        let k0 = choose|k0: int|
            0 <= k0 < m.len() && #[trigger] m[k0] == '.' && all_digits(m.take(k0)) && all_digits(
                m.skip(k0 + 1),
            ) && m.len() > 1;
        assert(k0 == find_dot(m)) by {
            if k0 > find_dot(m) {
                assert(m.take(k0)[find_dot(m)] == m[find_dot(m)]);
            }
        }
        assert(all_digits(ip)) by {
            assert(forall|j: int| 0 <= j < ip.len() ==> ip[j] == #[trigger] m.take(k0)[j]);
        }
        assert(all_digits(fp)) by {
            assert(forall|j: int| 0 <= j < fp.len() ==> fp[j] == #[trigger] m.skip(k0 + 1)[j]);
        }
    }
}

/// Scales a positive magnitude by ten-to-the-`z`, exactly while the
/// value stays under 2^64, else reporting it at least that large.
fn scale_by_pow10(m0: u128, z: u128, total: Ghost<int>) -> (r: u128)
    requires
        1 <= m0 < 0x10000000000000000u128,
        total@ == m0 as int * pow10(z as nat),
    ensures
        r < 0x10000000000000000u128 ==> r as int == total@,
        r >= 0x10000000000000000u128 ==> total@ >= 0x10000000000000000,
{
    let mut mag: u128 = m0;
    let mut zleft: u128 = z;
    while zleft > 0 && mag < 0x10000000000000000u128
        invariant
            1 <= mag < 0xa0000000000000000u128,
            mag < 0x10000000000000000u128 ==> total@ == mag as int * pow10(zleft as nat),
            mag >= 0x10000000000000000u128 ==> total@ >= 0x10000000000000000,
            zleft == 0 && mag < 0x10000000000000000u128 ==> total@ == mag as int,
        decreases zleft,
    {
        let ghost old_mag = mag as int;
        let ghost old_z = zleft as nat;
        mag = mag * 10;
        zleft = zleft - 1;
        proof {
            assert(pow10(old_z) == 10 * pow10((old_z - 1) as nat));
            assert(old_mag * pow10(old_z) == (old_mag * 10) * pow10((old_z - 1) as nat))
                by (nonlinear_arith)
                requires
                    pow10(old_z) == 10 * pow10((old_z - 1) as nat),
            ;
            assert(total@ == mag as int * pow10((old_z - 1) as nat));
            if mag >= 0x10000000000000000u128 {
                lemma_pow10_pos((old_z - 1) as nat);
                assert(total@ >= mag as int) by (nonlinear_arith)
                    requires
                        total@ == mag as int * pow10((old_z - 1) as nat),
                        pow10((old_z - 1) as nat) >= 1,
                        mag as int >= 0,
                ;
            }
        }
    }
    proof {
        if zleft == 0 && mag < 0x10000000000000000u128 {
            assert(pow10(0) == 1);
        }
    }
    mag
}

/// The magnitude of the shifted integer part: the value of the digits
/// in the integer range, then those fraction digits the exponent pulls
/// up, scaled by the remaining power of ten — exact under 2^64, else
/// at least that large.
#[verifier::rlimit(100)]
fn shifted_magnitude(
    chars: &Vec<char>,
    ip_s: usize,
    ip_e: usize,
    fp_s: usize,
    fp_e: usize,
    e_neg: bool,
    e_mag: u128,
    e_big: bool,
    e: Ghost<int>,
) -> (r: u128)
    requires
        ip_s <= ip_e <= chars@.len(),
        fp_s <= fp_e <= chars@.len(),
        forall|j: int| ip_s <= j < ip_e ==> is_digit(#[trigger] chars@[j]),
        forall|j: int| fp_s <= j < fp_e ==> is_digit(#[trigger] chars@[j]),
        !e_big ==> e@ == if e_neg {
            -(e_mag as int)
        } else {
            e_mag as int
        },
        !e_big ==> e_mag < 0x100000000000000000000u128,
        e_big && e_neg ==> e@ <= -0x100000000000000000000,
        e_big && !e_neg ==> e@ >= 0x100000000000000000000,
    ensures
        ({
            let v = digits_value(
                shifted_digits(
                    chars@.subrange(ip_s as int, ip_e as int),
                    chars@.subrange(fp_s as int, fp_e as int),
                    e@,
                ),
            );
            &&& (r < 0x10000000000000000u128 ==> r as int == v)
            &&& (r >= 0x10000000000000000u128 ==> v >= 0x10000000000000000)
        }),
{
    let ghost big: int = 0x10000000000000000;
    let ghost ip = chars@.subrange(ip_s as int, ip_e as int);
    let ghost fp = chars@.subrange(fp_s as int, fp_e as int);
    let ghost shifted = shifted_digits(ip, fp, e@);
    let ghost vref = digits_value(shifted);
    let ip_len: usize = ip_e - ip_s;
    let fp_len: usize = fp_e - fp_s;
    if e_neg && (e_big || e_mag > 0) {
        // a negative exponent cuts digits off the right of the
        // integer part
        if e_big || e_mag >= ip_len as u128 {
            proof {
                assert(ip.len() <= usize::MAX);
                assert(ip.len() + e@ <= 0);
                assert(shifted =~= Seq::<char>::empty());
                assert(vref == 0);
            }
            return 0;
        }
        let keep: usize = ip_len - (e_mag as usize);
        proof {
            assert(shifted =~= chars@.subrange(ip_s as int, (ip_s + keep) as int));
            lemma_dv_is_dv_from(shifted);
        }
        let a = accum_digits(chars, ip_s, ip_s + keep, 0, 0x10000000000000000u128);
        proof {
            assert(a < 0x10000000000000000u128 ==> a as int == vref);
            assert(a >= 0x10000000000000000u128 ==> vref >= big);
        }
        return a;
    }
    // a non-negative exponent pulls fraction digits up and appends
    // zeros past their end
    proof {
        assert(e@ >= 0);
    }
    let fp_take: usize = if e_big || e_mag >= fp_len as u128 {
        fp_len
    } else {
        e_mag as usize
    };
    let ghost digits_part = ip + chars@.subrange(fp_s as int, (fp_s + fp_take) as int);
    proof {
        if e@ <= fp.len() {
            assert(shifted =~= digits_part);
        } else {
            assert(fp_take == fp_len);
            assert(ip + fp =~= digits_part);
            assert(shifted =~= digits_part + zero_chars((e@ - fp.len()) as nat));
        }
        lemma_dv_is_dv_from(digits_part);
        lemma_dv_from_concat(0, ip, chars@.subrange(fp_s as int, (fp_s + fp_take) as int));
        lemma_dv_is_dv_from(ip);
        lemma_dv_from_grows(0, ip);
    }
    let a1 = accum_digits(chars, ip_s, ip_e, 0, 0x10000000000000000u128);
    let digits_mag: u128 = if a1 >= 0x10000000000000000u128 {
        proof {
            let x2 = chars@.subrange(fp_s as int, (fp_s + fp_take) as int);
            assert(all_digits(x2)) by {
                assert(forall|j: int| 0 <= j < x2.len() ==> x2[j] == #[trigger] chars@[j + fp_s]);
            }
            lemma_dv_from_grows(dv_from(0, ip), x2);
        }
        a1
    } else {
        accum_digits(chars, fp_s, fp_s + fp_take, a1, 0x10000000000000000u128)
    };
    let ghost dv0 = digits_value(digits_part);
    proof {
        assert(digits_mag < 0x10000000000000000u128 ==> digits_mag as int == dv0);
        assert(digits_mag >= 0x10000000000000000u128 ==> dv0 >= big);
    }
    if !(e_big || e_mag > fp_len as u128) {
        // no zeros follow
        proof {
            assert(shifted =~= digits_part);
            assert(digits_mag < 0x10000000000000000u128 ==> digits_mag as int == vref);
            assert(digits_mag >= 0x10000000000000000u128 ==> vref >= big);
        }
        return digits_mag;
    }
    // zeros follow: the value is the digits' value scaled
    let ghost z = (e@ - fp.len()) as nat;
    proof {
        lemma_dv_from_concat(0, digits_part, zero_chars(z));
        lemma_dv_from_zeros(dv0, z);
        lemma_dv_is_dv_from(shifted);
        assert(shifted =~= digits_part + zero_chars(z));
        assert(vref == dv0 * pow10(z));
        lemma_pow10_pos(z);
    }
    if digits_mag == 0 {
        proof {
            assert(vref == 0) by (nonlinear_arith)
                requires
                    vref == dv0 * pow10(z),
                    dv0 == 0,
            ;
        }
        return 0;
    }
    if digits_mag >= 0x10000000000000000u128 {
        proof {
            assert(vref >= dv0) by (nonlinear_arith)
                requires
                    vref == dv0 * pow10(z),
                    pow10(z) >= 1,
                    dv0 >= 0,
            ;
            assert(vref >= big);
        }
        return digits_mag;
    }
    if e_big {
        // the digits are not all zero and at least twenty-one zeros
        // follow: the value is past every bound
        proof {
            assert(z >= 21) by {
                assert(e@ >= 0x100000000000000000000);
                assert(fp.len() <= usize::MAX);
            }
            lemma_pow10_mono(21, z);
            lemma_pow10_21();
            assert(vref >= pow10(z)) by (nonlinear_arith)
                requires
                    vref == dv0 * pow10(z),
                    dv0 >= 1,
                    pow10(z) >= 0,
            ;
            assert(pow10(z) >= 1000000000000000000000);
            assert(vref >= big);
        }
        return 0xffffffffffffffffffffffffu128;
    }
    proof {
        assert(z == (e_mag - fp_len) as nat);
    }
    let scaled = scale_by_pow10(digits_mag, e_mag - fp_len as u128, Ghost(vref));
    proof {
        assert(scaled < 0x10000000000000000u128 ==> scaled as int == vref);
        assert(scaled >= 0x10000000000000000u128 ==> vref >= big);
    }
    scaled
}

/// Truncation of a floating-point text toward zero, exactly as
/// `trunc_of_text` states it.
#[verifier::rlimit(100)]
pub fn truncate_text(s: &str) -> (r: i64)
    ensures
        r == trunc_of_text(s@),
{
    let ghost big: int = 0x10000000000000000;
    let chars = chars_of(s);
    if !check_float(&chars) {
        return 0;
    }
    let neg = chars.len() > 0 && chars[0] == '-';
    let start: usize = if chars.len() > 0 && (chars[0] == '+' || chars[0] == '-') {
        1
    } else {
        0
    };
    let ghost b = sign_body(s@);
    proof {
        assert(b =~= chars@.skip(start as int));
    }
    let word_inf: Vec<char> = vec!['i', 'n', 'f'];
    let word_infinity: Vec<char> = vec!['i', 'n', 'f', 'i', 'n', 'i', 't', 'y'];
    let word_nan: Vec<char> = vec!['n', 'a', 'n'];
    if match_word_ci(&chars, start, &word_nan) {
        return 0;
    }
    if match_word_ci(&chars, start, &word_inf) || match_word_ci(&chars, start, &word_infinity) {
        if neg {
            return i64::MIN;
        } else {
            return i64::MAX;
        }
    }
    // the exponent marker, if any
    let mut e_at: usize = 0;
    let mut e_found: bool = false;
    let mut i: usize = start;
    while i < chars.len() && !e_found
        invariant
            start <= i <= chars@.len(),
            b == chars@.skip(start as int),
            !e_found ==> forall|j: int|
                0 <= j < i - start ==> (#[trigger] b[j]) != 'e' && b[j] != 'E',
            e_found ==> start <= e_at < chars@.len() && (b[e_at - start] == 'e' || b[e_at - start]
                == 'E'),
            e_found ==> forall|j: int|
                0 <= j < e_at - start ==> (#[trigger] b[j]) != 'e' && b[j] != 'E',
        decreases chars@.len() - i, (if e_found {
            0int
        } else {
            1int
        }),
    {
        let c = chars[i];
        proof {
            assert(b[i - start] == chars@[i as int]);
        }
        if c == 'e' || c == 'E' {
            e_found = true;
            e_at = i;
        } else {
            i = i + 1;
        }
    }
    proof {
        lemma_find_exp(b);
        if e_found {
            assert(find_exp(b) == e_at - start);
        } else {
            assert(find_exp(b) == -1);
        }
    }
    let m_end: usize = if e_found {
        e_at
    } else {
        chars.len()
    };
    let ghost m = mantissa_of(b);
    proof {
        assert(m =~= chars@.subrange(start as int, m_end as int));
        assert(is_mantissa(m));
    }
    // the dot, if any
    let mut d_at: usize = 0;
    let mut d_found: bool = false;
    let mut i2: usize = start;
    while i2 < m_end && !d_found
        invariant
            start <= i2 <= m_end <= chars@.len(),
            m == chars@.subrange(start as int, m_end as int),
            !d_found ==> forall|j: int| 0 <= j < i2 - start ==> (#[trigger] m[j]) != '.',
            d_found ==> start <= d_at < m_end && m[d_at - start] == '.',
            d_found ==> forall|j: int| 0 <= j < d_at - start ==> (#[trigger] m[j]) != '.',
        decreases m_end - i2, (if d_found {
            0int
        } else {
            1int
        }),
    {
        let c = chars[i2];
        proof {
            assert(m[i2 - start] == chars@[i2 as int]);
        }
        if c == '.' {
            d_found = true;
            d_at = i2;
        } else {
            i2 = i2 + 1;
        }
    }
    proof {
        lemma_find_dot(m);
        if d_found {
            assert(find_dot(m) == d_at - start);
        } else {
            assert(find_dot(m) == -1);
        }
    }
    let ip_end: usize = if d_found {
        d_at
    } else {
        m_end
    };
    let fp_start: usize = if d_found {
        d_at + 1
    } else {
        m_end
    };
    let ghost ip = int_part_of(m);
    let ghost fp = frac_part_of(m);
    proof {
        assert(ip =~= chars@.subrange(start as int, ip_end as int));
        assert(fp =~= chars@.subrange(fp_start as int, m_end as int));
        lemma_mantissa_parts_digits(m);
        assert(forall|j: int| start <= j < ip_end ==> is_digit(#[trigger] chars@[j])) by {
            assert(forall|j: int| start <= j < ip_end ==> chars@[j] == ip[j - start]);
        }
        assert(forall|j: int| fp_start <= j < m_end ==> is_digit(#[trigger] chars@[j])) by {
            assert(forall|j: int| fp_start <= j < m_end ==> chars@[j] == fp[j - fp_start]);
        }
    }
    // the exponent's sign and magnitude
    let ghost e = exp_value_of(b);
    let mut e_neg: bool = false;
    let mut e_mag: u128 = 0;
    let mut e_big: bool = false;
    if e_found {
        let xs = e_at + 1;
        let ds: usize = if xs < chars.len() && (chars[xs] == '+' || chars[xs] == '-') {
            xs + 1
        } else {
            xs
        };
        e_neg = xs < chars.len() && chars[xs] == '-';
        let ghost x = b.skip(find_exp(b) + 1);
        let ghost xb = sign_body(x);
        proof {
            assert(is_exp_part(x));
            assert(x =~= chars@.subrange(xs as int, chars@.len() as int));
            assert(xb =~= chars@.subrange(ds as int, chars@.len() as int));
            assert(forall|j: int| ds <= j < chars@.len() ==> is_digit(#[trigger] chars@[j])) by {
                assert(forall|j: int| ds <= j < chars@.len() ==> chars@[j] == xb[j - ds]);
            }
            lemma_dv_is_dv_from(xb);
            lemma_dv_from_grows(0, xb);
        }
        let a = accum_digits(&chars, ds, chars.len(), 0, 0x100000000000000000000u128);
        if a >= 0x100000000000000000000u128 {
            e_big = true;
        } else {
            e_mag = a;
        }
        proof {
            assert(e == sign_of(x) * digits_value(xb));
            assert(x.len() > 0);
            assert(e_neg <==> x[0] == '-');
            if e_big {
                assert(digits_value(xb) >= 0x100000000000000000000);
            } else {
                assert(digits_value(xb) == e_mag as int);
            }
            if e_neg {
                assert(e == -1 * digits_value(xb));
            } else {
                assert(e == 1 * digits_value(xb));
            }
        }
    } else {
        proof {
            assert(e == 0);
        }
    }
    let mag = shifted_magnitude(
        &chars,
        start,
        ip_end,
        fp_start,
        m_end,
        e_neg,
        e_mag,
        e_big,
        Ghost(e),
    );
    let ghost v_total: int = digits_value(shifted_digits(ip, fp, e));
    // sign and saturation
    if mag >= 0x10000000000000000u128 {
        if neg {
            i64::MIN
        } else {
            i64::MAX
        }
    } else {
        if neg {
            if mag >= 9223372036854775808u128 {
                i64::MIN
            } else {
                -(mag as i64)
            }
        } else {
            if mag > 9223372036854775807u128 {
                i64::MAX
            } else {
                mag as i64
            }
        }
    }
}

fn eq_ci_exec(c: char, lc: char) -> (r: bool)
    ensures
        r == eq_ci(c, lc),
{
    c == lc || (c as u32) + 32 == (lc as u32)
}

/// Does the text from `from` on match the word, ignoring ASCII case?
fn match_word_ci(v: &Vec<char>, from: usize, w: &Vec<char>) -> (r: bool)
    requires
        from <= v@.len(),
    ensures
        r == match_ci(v@.skip(from as int), w@),
{
    if v.len() - from != w.len() {
        return false;
    }
    let mut i: usize = 0;
    while i < w.len()
        invariant
            from <= v@.len(),
            v@.len() <= usize::MAX,
            v@.len() - from == w@.len(),
            0 <= i <= w@.len(),
            forall|j: int| 0 <= j < i ==> eq_ci(#[trigger] v@.skip(from as int)[j], w@[j]),
        decreases w@.len() - i,
    {
        if !eq_ci_exec(v[from + i], w[i]) {
            assert(v@.skip(from as int)[i as int] == v@[from + i]);
            return false;
        }
        assert(v@.skip(from as int)[i as int] == v@[from + i]);
        i = i + 1;
    }
    true
}

/// Are the characters in `[from, to)` all decimal digits?
fn all_digits_range(v: &Vec<char>, from: usize, to: usize) -> (r: bool)
    requires
        from <= to <= v@.len(),
    ensures
        r == all_digits(v@.subrange(from as int, to as int)),
{
    let ghost m = v@.subrange(from as int, to as int);
    let mut i: usize = from;
    while i < to
        invariant
            from <= i <= to <= v@.len(),
            m == v@.subrange(from as int, to as int),
            forall|j: int| 0 <= j < i - from ==> is_digit(#[trigger] m[j]),
        decreases to - i,
    {
        let c = v[i];
        assert(m[i - from] == v@[i as int]);
        if !('0' <= c && c <= '9') {
            return false;
        }
        i = i + 1;
    }
    true
}

/// Is `[from, to)` a mantissa: digits with at most one dot and at least
/// one digit?
fn check_mantissa(v: &Vec<char>, from: usize, to: usize) -> (r: bool)
    requires
        from <= to <= v@.len(),
    ensures
        r == is_mantissa(v@.subrange(from as int, to as int)),
{
    let ghost m = v@.subrange(from as int, to as int);
    let mut dots: usize = 0;
    let mut first_dot: usize = 0;
    let mut i: usize = from;
    while i < to
        invariant
            from <= i <= to <= v@.len(),
            m == v@.subrange(from as int, to as int),
            forall|j: int| 0 <= j < i - from ==> is_digit(#[trigger] m[j]) || m[j] == '.',
            dots <= 1,
            dots == 1 ==> from <= first_dot < i && m[first_dot - from] == '.',
            dots == 0 ==> forall|j: int| 0 <= j < i - from ==> (#[trigger] m[j]) != '.',
            dots == 1 ==> forall|j: int|
                0 <= j < i - from && j != first_dot - from ==> (#[trigger] m[j]) != '.',
        decreases to - i,
    {
        let c = v[i];
        assert(m[i - from] == v@[i as int]);
        if c == '.' {
            if dots == 1 {
                // a second dot: no split can make both sides digits
                assert forall|k: int|
                    !(0 <= k < m.len() && #[trigger] m[k] == '.' && all_digits(m.take(k))
                        && all_digits(m.skip(k + 1)) && m.len() > 1) by {
                    let d1 = first_dot - from;
                    let d2 = i - from;
                    if 0 <= k < m.len() && m[k] == '.' && m.len() > 1 {
                        if k < d2 {
                            assert(m.skip(k + 1)[d2 - k - 1] == m[d2]);
                        } else {
                            assert(m.take(k)[d1] == m[d1]);
                        }
                    }
                }
                assert(!all_digits(m)) by {
                    assert(m[first_dot - from] == '.');
                }
                return false;
            }
            dots = 1;
            first_dot = i;
        } else if !('0' <= c && c <= '9') {
            // a character that is neither digit nor dot
            let ghost bad = i - from;
            assert forall|k: int|
                !(0 <= k < m.len() && #[trigger] m[k] == '.' && all_digits(m.take(k))
                    && all_digits(m.skip(k + 1)) && m.len() > 1) by {
                if 0 <= k < m.len() && m[k] == '.' && m.len() > 1 {
                    if bad < k {
                        assert(m.take(k)[bad] == m[bad]);
                    } else if bad > k {
                        assert(m.skip(k + 1)[bad - k - 1] == m[bad]);
                    }
                }
            }
            assert(!all_digits(m)) by {
                assert(!is_digit(m[bad]));
            }
            return false;
        }
        i = i + 1;
    }
    if dots == 0 {
        if to > from {
            assert(all_digits(m));
            return true;
        } else {
            assert(m.len() == 0);
            return false;
        }
    } else {
        if to - from > 1 {
            let ghost k = first_dot - from;
            assert(all_digits(m.take(k))) by {
                assert(forall|j: int| 0 <= j < k ==> #[trigger] m.take(k)[j] == m[j]);
            }
            assert(all_digits(m.skip(k + 1))) by {
                assert(forall|j: int|
                    0 <= j < m.len() - k - 1 ==> #[trigger] m.skip(k + 1)[j] == m[j + k + 1]);
            }
            return true;
        } else {
            // the text is a lone dot
            assert(m.len() == 1 && m[0] == '.');
            assert(!all_digits(m)) by {
                assert(!is_digit(m[0]));
            }
            assert forall|k: int|
                !(0 <= k < m.len() && #[trigger] m[k] == '.' && all_digits(m.take(k))
                    && all_digits(m.skip(k + 1)) && m.len() > 1) by {}
            return false;
        }
    }
}

/// Is `[from, to)` an exponent: an optional sign then digits?
fn check_exp_part(v: &Vec<char>, from: usize, to: usize) -> (r: bool)
    requires
        from <= to <= v@.len(),
    ensures
        r == is_exp_part(v@.subrange(from as int, to as int)),
{
    let ghost x = v@.subrange(from as int, to as int);
    let start: usize = if from < to && (v[from] == '+' || v[from] == '-') {
        from + 1
    } else {
        from
    };
    proof {
        assert(sign_body(x) =~= v@.subrange(start as int, to as int));
    }
    if to == start {
        return false;
    }
    all_digits_range(v, start, to)
}

/// Is the whole character vector a floating-point literal?
fn check_float(v: &Vec<char>) -> (r: bool)
    ensures
        r == is_float_text(v@),
{
    let ghost b = sign_body(v@);
    let start: usize = if v.len() > 0 && (v[0] == '+' || v[0] == '-') {
        1
    } else {
        0
    };
    proof {
        assert(b =~= v@.subrange(start as int, v@.len() as int));
        assert(b =~= v@.skip(start as int));
    }
    let word_inf: Vec<char> = vec!['i', 'n', 'f'];
    let word_infinity: Vec<char> = vec!['i', 'n', 'f', 'i', 'n', 'i', 't', 'y'];
    let word_nan: Vec<char> = vec!['n', 'a', 'n'];
    if match_word_ci(v, start, &word_inf) || match_word_ci(v, start, &word_infinity)
        || match_word_ci(v, start, &word_nan) {
        return true;
    }
    // find the first exponent marker
    let mut e_at: usize = 0;
    let mut e_found: bool = false;
    let mut i: usize = start;
    while i < v.len() && !e_found
        invariant
            start <= i <= v@.len(),
            b == v@.skip(start as int),
            !e_found ==> forall|j: int|
                0 <= j < i - start ==> (#[trigger] b[j]) != 'e' && b[j] != 'E',
            e_found ==> start <= e_at < i && (b[e_at - start] == 'e' || b[e_at - start] == 'E'),
            e_found ==> forall|j: int|
                0 <= j < e_at - start ==> (#[trigger] b[j]) != 'e' && b[j] != 'E',
        decreases v@.len() - i,
    {
        let c = v[i];
        assert(b[i - start] == v@[i as int]);
        if c == 'e' || c == 'E' {
            e_found = true;
            e_at = i;
        }
        i = i + 1;
    }
    proof {
        lemma_find_exp(b);
        if e_found {
            assert(find_exp(b) == e_at - start);
        } else {
            assert(find_exp(b) == -1);
        }
    }
    if !e_found {
        let r = check_mantissa(v, start, v.len());
        proof {
            assert(v@.subrange(start as int, v@.len() as int) =~= b);
        }
        r
    } else {
        let ghost k = e_at - start;
        let m_ok = check_mantissa(v, start, e_at);
        proof {
            assert(v@.subrange(start as int, e_at as int) =~= b.take(k));
        }
        if !m_ok {
            return false;
        }
        let x_ok = check_exp_part(v, e_at + 1, v.len());
        proof {
            assert(v@.subrange(e_at + 1, v@.len() as int) =~= b.skip(k + 1));
        }
        x_ok
    }
}

// ---------------------------------------------------------------------
// Classification
// ---------------------------------------------------------------------
/// The typed value a symbol's text resolves to.  The order is fixed and
/// total: integer, float, boolean, quoted string, variable reference,
/// function reference, and an opaque symbol as the fallback; the first
/// matching form wins.
pub open spec fn classify(s: Seq<char>) -> ValV {
    if i64_from_text(s) is Some {
        ValV::Integer(i64_from_text(s)->0)
    } else if is_float_text(s) {
        ValV::FloatingPoint(s)
    } else if s == seq!['t', 'r', 'u', 'e'] {
        ValV::Boolean(true)
    } else if s == seq!['f', 'a', 'l', 's', 'e'] {
        ValV::Boolean(false)
    } else if s.len() >= 2 && s[0] == '\'' && s[s.len() - 1] == '\'' {
        ValV::String(s.subrange(1, s.len() - 1))
    } else if s.len() >= 1 && s[0] == '&' {
        ValV::Variable(s.drop_first())
    } else if s.len() >= 1 && s[0] == '$' {
        ValV::Function(s.drop_first())
    } else {
        ValV::Symbol(s)
    }
}

/// Resolution of a whole raw tree: every leaf is classified; a list
/// resolves its children and becomes a call node when its first
/// resolved child is a function reference, at every nesting level.
pub open spec fn resolve_spec(t: TokV) -> ValV
    decreases t,
{
    match t {
        TokV::Symbol(s) => classify(s),
        TokV::List(l) => {
            let rs = resolve_list(l);
            if rs.len() > 0 {
                match rs[0] {
                    ValV::Function(name) => ValV::Executable(name, rs.drop_first()),
                    _ => ValV::List(rs),
                }
            } else {
                ValV::List(rs)
            }
        },
    }
}

pub open spec fn resolve_list(l: Seq<TokV>) -> Seq<ValV>
    decreases l,
{
    if l.len() == 0 {
        Seq::empty()
    } else {
        resolve_list(l.subrange(0, l.len() - 1)).push(resolve_spec(l[l.len() - 1]))
    }
}

pub proof fn lemma_resolve_list_elems(l: Seq<TokV>)
    ensures
        resolve_list(l).len() == l.len(),
        forall|i: int| 0 <= i < l.len() ==> resolve_list(l)[i] == resolve_spec(#[trigger] l[i]),
    decreases l.len(),
{
    if l.len() > 0 {
        let sub = l.subrange(0, l.len() - 1);
        lemma_resolve_list_elems(sub);
        assert forall|i: int|
            0 <= i < l.len() implies resolve_list(l)[i] == resolve_spec(#[trigger] l[i]) by {
            if i < l.len() - 1 {
                assert(resolve_list(l)[i] == resolve_list(sub)[i]);
                assert(sub[i] == l[i]);
            }
        }
    }
}

/// The call-marking post-pass alone, over an already-typed tree: a list
/// headed by a function reference becomes a call node with the rest of
/// the list, mapped recursively, as its arguments; any other value is
/// returned unchanged.
pub open spec fn find_exec_spec(v: ValV) -> ValV
    decreases v,
{
    match v {
        ValV::List(l) => if l.len() > 0 {
            match l[0] {
                ValV::Function(name) => ValV::Executable(name, find_exec_list(l.drop_first())),
                _ => ValV::List(find_exec_list(l)),
            }
        } else {
            ValV::List(l)
        },
        other => other,
    }
}

pub open spec fn find_exec_list(l: Seq<ValV>) -> Seq<ValV>
    decreases l,
{
    if l.len() == 0 {
        Seq::empty()
    } else {
        find_exec_list(l.subrange(0, l.len() - 1)).push(find_exec_spec(l[l.len() - 1]))
    }
}

pub proof fn lemma_find_exec_list_elems(l: Seq<ValV>)
    ensures
        find_exec_list(l).len() == l.len(),
        forall|i: int|
            0 <= i < l.len() ==> find_exec_list(l)[i] == find_exec_spec(#[trigger] l[i]),
    decreases l.len(),
{
    if l.len() > 0 {
        let sub = l.subrange(0, l.len() - 1);
        lemma_find_exec_list_elems(sub);
        assert forall|i: int|
            0 <= i < l.len() implies find_exec_list(l)[i] == find_exec_spec(#[trigger] l[i]) by {
            if i < l.len() - 1 {
                assert(find_exec_list(l)[i] == find_exec_list(sub)[i]);
                assert(sub[i] == l[i]);
            }
        }
    }
}

impl LispToken {
    /// Classifies one symbol's text.  Classification is total: every
    /// text yields exactly one typed value, the first matching form
    /// winning in the fixed order that `classify` states.
    pub fn from_str(s: &str) -> (r: LispToken)
        ensures
            r@ == classify(s@),
    {
        let chars = chars_of(s);
        match parse_integer(s) {
            Option::Some(i) => {
                return LispToken::Integer(i);
            },
            Option::None => {},
        }
        if check_float(&chars) {
            return LispToken::FloatingPoint(s.to_owned());
        }
        if chars.len() == 4 && chars[0] == 't' && chars[1] == 'r' && chars[2] == 'u' && chars[3]
            == 'e' {
            proof {
                assert(s@ =~= seq!['t', 'r', 'u', 'e']);
            }
            return LispToken::Boolean(true);
        }
        if chars.len() == 5 && chars[0] == 'f' && chars[1] == 'a' && chars[2] == 'l' && chars[3]
            == 's' && chars[4] == 'e' {
            proof {
                assert(s@ =~= seq!['f', 'a', 'l', 's', 'e']);
            }
            return LispToken::Boolean(false);
        }
        proof {
            if s@ == seq!['t', 'r', 'u', 'e'] {
                assert(chars@.len() == 4 && chars@[0] == 't' && chars@[1] == 'r' && chars@[2] == 'u'
                    && chars@[3] == 'e');
            }
            if s@ == seq!['f', 'a', 'l', 's', 'e'] {
                assert(chars@.len() == 5 && chars@[0] == 'f' && chars@[1] == 'a' && chars@[2] == 'l'
                    && chars@[3] == 's' && chars@[4] == 'e');
            }
        }
        if chars.len() >= 2 && chars[0] == '\'' && chars[chars.len() - 1] == '\'' {
            let mid = subchars(&chars, 1, chars.len() - 1);
            return LispToken::String(string_from_chars(&mid));
        }
        if chars.len() >= 1 && chars[0] == '&' {
            let rest = subchars(&chars, 1, chars.len());
            proof {
                assert(s@.drop_first() =~= chars@.subrange(1, chars@.len() as int));
            }
            return LispToken::Variable(string_from_chars(&rest));
        }
        if chars.len() >= 1 && chars[0] == '$' {
            let rest = subchars(&chars, 1, chars.len());
            proof {
                assert(s@.drop_first() =~= chars@.subrange(1, chars@.len() as int));
            }
            return LispToken::Function(string_from_chars(&rest));
        }
        LispToken::Symbol(s.to_owned())
    }

    /// Resolves a raw tree into a typed value, marking call nodes at
    /// every nesting level.
    pub fn from_parser_token(token: &ParserToken) -> (r: LispToken)
        ensures
            r@ == resolve_spec(token@),
        decreases token,
    {
        match token {
            ParserToken::Symbol(s) => LispToken::from_str(s.as_str()),
            ParserToken::List(l) => {
                let ghost lv = crate::parser::toks_view(l@);
                proof {
                    crate::parser::lemma_toks_view_elems(l@);
                    lemma_resolve_list_elems(lv);
                }
                let mut rs: Vec<LispToken> = Vec::new();
                let mut j: usize = 0;
                while j < l.len()
                    invariant
                        *token == ParserToken::List(*l),
                        0 <= j <= l@.len(),
                        lv == crate::parser::toks_view(l@),
                        lv.len() == l@.len(),
                        forall|i: int| 0 <= i < l@.len() ==> lv[i] == #[trigger] l@[i]@,
                        forall|i: int|
                            0 <= i < lv.len() ==> resolve_list(lv)[i] == resolve_spec(
                                #[trigger] lv[i],
                            ),
                        resolve_list(lv).len() == lv.len(),
                        rs@.len() == j,
                        forall|i: int| 0 <= i < j ==> #[trigger] rs@[i]@ == resolve_list(lv)[i],
                    decreases l@.len() - j,
                {
                    proof {
                        assert(l@ == token->List_0@);
                        assert(decreases_to!(*token => token->List_0@[j as int]));
                    }
                    let child = LispToken::from_parser_token(&l[j]);
                    rs.push(child);
                    j = j + 1;
                }
                Self::build_list_or_call(rs, Ghost(resolve_list(lv)))
            },
        }
    }

    /// Turns resolved children into a call node when the first one is a
    /// function reference, and into a plain list otherwise.
    fn build_list_or_call(rs: Vec<LispToken>, model: Ghost<Seq<ValV>>) -> (r: LispToken)
        requires
            rs@.len() == model@.len(),
            forall|i: int| 0 <= i < rs@.len() ==> #[trigger] rs@[i]@ == model@[i],
        ensures
            r@ == if model@.len() > 0 {
                match model@[0] {
                    ValV::Function(name) => ValV::Executable(name, model@.drop_first()),
                    _ => ValV::List(model@),
                }
            } else {
                ValV::List(model@)
            },
    {
        if rs.len() > 0 {
            let is_func = match &rs[0] {
                LispToken::Function(_) => true,
                _ => false,
            };
            proof {
                assert(rs@[0]@ == model@[0]);
            }
            if is_func {
                let mut it = rs;
                let ghost rs0 = it@;
                let head = it.remove(0);
                proof {
                    assert(head == rs0[0]);
                    assert(rs0[0]@ == model@[0]);
                }
                match head {
                    LispToken::Function(name) => {
                        proof {
                            assert(it@ =~= rs0.drop_first());
                            lemma_vals_view_elems(it@);
                            assert forall|i: int|
                                0 <= i < it@.len() implies vals_view(it@)[i]
                                == model@.drop_first()[i] by {
                                assert(it@[i] == rs0[i + 1]);
                                assert(it@[i]@ == model@[i + 1]);
                            }
                            assert(vals_view(it@) =~= model@.drop_first());
                        }
                        proof {
                            assert(model@[0] == ValV::Function(name@));
                        }
                        return LispToken::Executable(name, it);
                    },
                    _ => {
                        // the head was just matched as a function reference
                        proof {
                            assert(false);
                        }
                        return LispToken::List(Vec::new());
                    },
                }
            }
        }
        proof {
            lemma_vals_view_elems(rs@);
            assert forall|i: int| 0 <= i < model@.len() implies vals_view(rs@)[i] == model@[i] by {
                assert(rs@[i]@ == model@[i]);
            }
            assert(vals_view(rs@) =~= model@);
        }
        LispToken::List(rs)
    }

    /// The call-marking post-pass on an already-typed value.
    pub fn find_executable(&self) -> (r: LispToken)
        ensures
            r@ == find_exec_spec(self@),
        decreases self,
    {
        match self {
            LispToken::List(l) => {
                if l.len() == 0 {
                    proof {
                        assert(vals_view(l@) =~= Seq::<ValV>::empty());
                        assert(vals_view(Seq::<LispToken>::empty()) =~= Seq::<ValV>::empty());
                    }
                    return LispToken::List(Vec::new());
                }
                let ghost lv = vals_view(l@);
                proof {
                    lemma_vals_view_elems(l@);
                    lemma_find_exec_list_elems(lv);
                }
                let is_func = match &l[0] {
                    LispToken::Function(_) => true,
                    _ => false,
                };
                proof {
                    assert(l@[0]@ == lv[0]);
                }
                if is_func {
                    let name = match &l[0] {
                        LispToken::Function(name) => name.clone(),
                        _ => String::new(),
                    };
                    proof {
                        assert(lv[0] == ValV::Function(name@));
                    }
                    let ghost args_model = find_exec_list(lv.drop_first());
                    proof {
                        lemma_find_exec_list_elems(lv.drop_first());
                    }
                    let mut out: Vec<LispToken> = Vec::new();
                    let mut j: usize = 1;
                    while j < l.len()
                        invariant
                            *self == LispToken::List(*l),
                            1 <= j <= l@.len(),
                            lv == vals_view(l@),
                            lv.len() == l@.len(),
                            forall|i: int| 0 <= i < l@.len() ==> lv[i] == #[trigger] l@[i]@,
                            args_model == find_exec_list(lv.drop_first()),
                            args_model.len() == lv.len() - 1,
                            forall|i: int|
                                0 <= i < lv.len() - 1 ==> args_model[i] == find_exec_spec(
                                    #[trigger] lv.drop_first()[i],
                                ),
                            out@.len() == j - 1,
                            forall|i: int| 0 <= i < j - 1 ==> #[trigger] out@[i]@ == args_model[i],
                        decreases l@.len() - j,
                    {
                        proof {
                            assert(l@ == self->List_0@);
                            assert(decreases_to!(*self => self->List_0@[j as int]));
                        }
                        let child = l[j].find_executable();
                        proof {
                            assert(lv.drop_first()[j - 1] == lv[j as int]);
                        }
                        out.push(child);
                        j = j + 1;
                    }
                    proof {
                        lemma_vals_view_elems(out@);
                        assert forall|i: int|
                            0 <= i < args_model.len() implies vals_view(out@)[i]
                            == args_model[i] by {
                            assert(out@[i]@ == args_model[i]);
                        }
                        assert(vals_view(out@) =~= args_model);
                    }
                    LispToken::Executable(name, out)
                } else {
                    let ghost list_model = find_exec_list(lv);
                    let mut out: Vec<LispToken> = Vec::new();
                    let mut j: usize = 0;
                    while j < l.len()
                        invariant
                            *self == LispToken::List(*l),
                            0 <= j <= l@.len(),
                            lv == vals_view(l@),
                            lv.len() == l@.len(),
                            forall|i: int| 0 <= i < l@.len() ==> lv[i] == #[trigger] l@[i]@,
                            list_model == find_exec_list(lv),
                            list_model.len() == lv.len(),
                            forall|i: int|
                                0 <= i < lv.len() ==> list_model[i] == find_exec_spec(
                                    #[trigger] lv[i],
                                ),
                            out@.len() == j,
                            forall|i: int| 0 <= i < j ==> #[trigger] out@[i]@ == list_model[i],
                        decreases l@.len() - j,
                    {
                        proof {
                            assert(l@ == self->List_0@);
                            assert(decreases_to!(*self => self->List_0@[j as int]));
                        }
                        let child = l[j].find_executable();
                        out.push(child);
                        j = j + 1;
                    }
                    proof {
                        lemma_vals_view_elems(out@);
                        assert forall|i: int|
                            0 <= i < list_model.len() implies vals_view(out@)[i]
                            == list_model[i] by {
                            assert(out@[i]@ == list_model[i]);
                        }
                        assert(vals_view(out@) =~= list_model);
                    }
                    LispToken::List(out)
                }
            },
            other => other.clone(),
        }
    }
}

// ---------------------------------------------------------------------
// Rendering
// ---------------------------------------------------------------------
pub open spec fn digit_char(n: nat) -> char {
    if n == 0 {
        '0'
    } else if n == 1 {
        '1'
    } else if n == 2 {
        '2'
    } else if n == 3 {
        '3'
    } else if n == 4 {
        '4'
    } else if n == 5 {
        '5'
    } else if n == 6 {
        '6'
    } else if n == 7 {
        '7'
    } else if n == 8 {
        '8'
    } else {
        '9'
    }
}

/// The decimal digits of `n`, most significant first, no leading zeros.
pub open spec fn dec_digits(n: nat) -> Seq<char>
    decreases n,
{
    if n < 10 {
        seq![digit_char(n)]
    } else {
        dec_digits(n / 10).push(digit_char(n % 10))
    }
}

/// The decimal rendering of an integer, with a minus sign when negative.
pub open spec fn dec_text(i: int) -> Seq<char> {
    if i < 0 {
        seq!['-'] + dec_digits((-i) as nat)
    } else {
        dec_digits(i as nat)
    }
}

/// Relies on `i64`'s `Display` (`to_string`): the value's decimal
/// digits without leading zeros, a minus sign first when negative.
#[verifier::external_body]
pub(crate) fn integer_text(i: i64) -> (r: Vec<char>)
    ensures
        r@ == dec_text(i as int),
{
    i.to_string().chars().collect()
}

pub open spec fn bool_text(b: bool) -> Seq<char> {
    if b {
        seq!['t', 'r', 'u', 'e']
    } else {
        seq!['f', 'a', 'l', 's', 'e']
    }
}

/// The display text of a typed value: numbers in decimal, a float as
/// its text, a string's bare contents, references with their marker
/// character, and aggregates in a parenthesised, space-joined form.
/// The aggregate forms are for inspection and carry no stability
/// promise.
pub open spec fn as_text(v: ValV) -> Seq<char>
    decreases v,
{
    match v {
        ValV::Integer(i) => dec_text(i as int),
        ValV::FloatingPoint(t) => t,
        ValV::Boolean(b) => bool_text(b),
        ValV::String(s) => s,
        ValV::Variable(s) => seq!['&'] + s,
        ValV::Function(s) => seq!['$'] + s,
        ValV::Symbol(s) => s,
        ValV::List(l) => seq!['('] + join_texts(l) + seq![')'],
        ValV::Executable(f, a) => seq!['(', '$'] + f + (if a.len() > 0 {
            seq![' '] + join_texts(a)
        } else {
            Seq::empty()
        }) + seq![')'],
    }
}

/// The display texts of the values, joined with single spaces.
pub open spec fn join_texts(l: Seq<ValV>) -> Seq<char>
    decreases l,
{
    if l.len() == 0 {
        Seq::empty()
    } else if l.len() == 1 {
        as_text(l[0])
    } else {
        join_texts(l.subrange(0, l.len() - 1)) + seq![' '] + as_text(l[l.len() - 1])
    }
}

impl LispToken {
    /// The display text of this value, as `as_text` states it.
    pub fn as_str(&self) -> (r: String)
        ensures
            r@ == as_text(self@),
    {
        let chars = self.as_chars();
        string_from_chars(&chars)
    }

    fn as_chars(&self) -> (r: Vec<char>)
        ensures
            r@ == as_text(self@),
        decreases self,
    {
        match self {
            LispToken::Integer(i) => integer_text(*i),
            LispToken::FloatingPoint(t) => chars_of(t.as_str()),
            LispToken::Boolean(b) => {
                if *b {
                    let v = vec!['t', 'r', 'u', 'e'];
                    v
                } else {
                    let v = vec!['f', 'a', 'l', 's', 'e'];
                    v
                }
            },
            LispToken::String(s) => chars_of(s.as_str()),
            LispToken::Variable(s) => {
                let mut out: Vec<char> = vec!['&'];
                let rest = chars_of(s.as_str());
                push_chars(&mut out, &rest);
                out
            },
            LispToken::Function(s) => {
                let mut out: Vec<char> = vec!['$'];
                let rest = chars_of(s.as_str());
                push_chars(&mut out, &rest);
                out
            },
            LispToken::Symbol(s) => chars_of(s.as_str()),
            LispToken::List(l) => {
                let mut out: Vec<char> = vec!['('];
                let ghost lv = vals_view(l@);
                proof {
                    lemma_vals_view_elems(l@);
                }
                let mut j: usize = 0;
                while j < l.len()
                    invariant
                        *self == LispToken::List(*l),
                        0 <= j <= l@.len(),
                        lv == vals_view(l@),
                        lv.len() == l@.len(),
                        forall|i: int| 0 <= i < l@.len() ==> lv[i] == #[trigger] l@[i]@,
                        out@ == seq!['('] + join_texts(lv.take(j as int)),
                    decreases l@.len() - j,
                {
                    if j > 0 {
                        out.push(' ');
                    }
                    proof {
                        assert(decreases_to!(*self => self->List_0@[j as int]));
                    }
                    let piece = l[j].as_chars();
                    push_chars(&mut out, &piece);
                    j = j + 1;
                    proof {
                        let tk = lv.take(j as int);
                        assert(tk.subrange(0, tk.len() - 1) =~= lv.take(j - 1));
                        assert(tk[tk.len() - 1] == lv[j - 1]);
                        if j == 1 {
                            assert(out@ =~= seq!['('] + join_texts(tk));
                        } else {
                            assert(out@ =~= seq!['('] + join_texts(tk));
                        }
                    }
                }
                out.push(')');
                proof {
                    assert(lv.take(lv.len() as int) =~= lv);
                    assert(out@ =~= seq!['('] + join_texts(lv) + seq![')']);
                }
                out
            },
            LispToken::Executable(f, a) => {
                let mut out: Vec<char> = vec!['(', '$'];
                let name = chars_of(f.as_str());
                push_chars(&mut out, &name);
                let ghost av = vals_view(a@);
                let ghost head = seq!['(', '$'] + f@;
                proof {
                    lemma_vals_view_elems(a@);
                    assert(out@ =~= head);
                }
                let mut j: usize = 0;
                while j < a.len()
                    invariant
                        *self == LispToken::Executable(*f, *a),
                        0 <= j <= a@.len(),
                        av == vals_view(a@),
                        av.len() == a@.len(),
                        head == seq!['(', '$'] + f@,
                        forall|i: int| 0 <= i < a@.len() ==> av[i] == #[trigger] a@[i]@,
                        j == 0 ==> out@ == head,
                        j > 0 ==> out@ == head + seq![' '] + join_texts(av.take(j as int)),
                    decreases a@.len() - j,
                {
                    out.push(' ');
                    proof {
                        assert(decreases_to!(*self => self->Executable_1@[j as int]));
                    }
                    let piece = a[j].as_chars();
                    push_chars(&mut out, &piece);
                    j = j + 1;
                    proof {
                        let tk = av.take(j as int);
                        assert(tk.subrange(0, tk.len() - 1) =~= av.take(j - 1));
                        assert(tk[tk.len() - 1] == av[j - 1]);
                        if j == 1 {
                            assert(out@ =~= head + seq![' '] + join_texts(tk));
                        } else {
                            assert(out@ =~= head + seq![' '] + join_texts(tk));
                        }
                    }
                }
                out.push(')');
                proof {
                    assert(av.take(av.len() as int) =~= av);
                    if a@.len() > 0 {
                        assert(out@ =~= head + (seq![' '] + join_texts(av)) + seq![')']);
                    } else {
                        assert(out@ =~= head + Seq::<char>::empty() + seq![')']);
                    }
                }
                out
            },
        }
    }
}

// ---------------------------------------------------------------------
// Errors, native operations and the float capability
// ---------------------------------------------------------------------
/// Mathematical shape of an evaluation error.
pub enum ErrV {
    NameError(Seq<char>),
    ArgumentError(Seq<char>),
}

/// An evaluation error: an unknown variable or function name, or a bad
/// argument handed to a native function; each carries the offending
/// name or operation.
#[derive(Debug, PartialEq, Eq, Clone)]
pub enum LispError {
    NameError(String),
    ArgumentError(String),
}

impl View for LispError {
    type V = ErrV;

    open spec fn view(&self) -> ErrV {
        match self {
            LispError::NameError(s) => ErrV::NameError(s@),
            LispError::ArgumentError(s) => ErrV::ArgumentError(s@),
        }
    }
}

pub open spec fn res_view(r: Result<LispToken, LispError>) -> Result<ValV, ErrV> {
    match r {
        Result::Ok(t) => Result::Ok(t@),
        Result::Err(e) => Result::Err(e@),
    }
}

/// The four arithmetic fold operators.
#[derive(Debug, Clone, Copy, PartialEq, Eq, Structural)]
pub enum MathOp {
    Plus,
    Minus,
    Times,
    Divide,
}

/// A native function of the registry: an arithmetic fold or the string
/// concatenation fold.
#[derive(Debug, Clone, Copy, PartialEq, Eq, Structural)]
pub enum NativeOp {
    Arith(MathOp),
    Concat,
}

/// The mathematical model of one host's floating-point computation: a
/// result text for an operation on two numeric texts, or nothing where
/// the host computes none.
pub struct FloatModel {
    pub compute: spec_fn(MathOp, Seq<char>, Seq<char>) -> Option<Seq<char>>,
}

pub open spec fn opt_text_view(r: Option<String>) -> Option<Seq<char>> {
    match r {
        Option::Some(t) => Option::Some(t@),
        Option::None => Option::None,
    }
}

/// The floating-point computation of the host, handed to the execution
/// environment as a capability.  This crate holds no floating-point
/// code of its own, so an implementation supplies, from two numeric
/// texts, the text of an arithmetic result — or refuses, which a fold
/// reports as an argument error rather than inventing a value; its
/// `model` names that function, and the contracts of the evaluator
/// speak of the environment's model.  Truncation toward zero needs no
/// capability: it is the verified `truncate_text`, the same in every
/// environment.
pub trait FloatOps: Sized {
    spec fn model(&self) -> FloatModel;

    /// The text of `a op b`, both arguments read as floating-point, or
    /// nothing where the host supplies no such computation.
    fn compute(&self, op: MathOp, a: &str, b: &str) -> (r: Option<String>)
        ensures
            opt_text_view(r) == (self.model().compute)(op, a@, b@),
    ;
}

/// A float capability for hosts that supply none: every computation is
/// refused, so a float-kinded fold fails with an argument error
/// instead of fabricating a value.  Integer-kinded folds, truncation
/// of float arguments included, never need it.
pub struct NullFloatOps;

impl FloatOps for NullFloatOps {
    open spec fn model(&self) -> FloatModel {
        FloatModel { compute: |op: MathOp, a: Seq<char>, b: Seq<char>| Option::<Seq<char>>::None }
    }

    fn compute(&self, op: MathOp, a: &str, b: &str) -> (r: Option<String>) {
        None
    }
}

/// A native function as the environment stores it: which of the
/// built-in folds it is.
#[derive(Debug, Clone, Copy, PartialEq, Eq, Structural)]
pub struct LispFunc {
    pub op: NativeOp,
}

impl LispFunc {
    pub fn new(op: NativeOp) -> (r: LispFunc)
        ensures
            r.op == op,
    {
        LispFunc { op }
    }
}

// ---------------------------------------------------------------------
// Classification totality
// ---------------------------------------------------------------------
/// Classification is total and its precedence is fixed: every symbol
/// text yields exactly one leaf value, earlier forms shadowing later
/// ones — integer first, then float, boolean, quoted string, variable
/// reference, function reference, and the opaque symbol as fallback.
pub proof fn lemma_classification_total(s: Seq<char>)
    ensures
        classify(s) is Integer || classify(s) is FloatingPoint || classify(s) is Boolean
            || classify(s) is String || classify(s) is Variable || classify(s) is Function
            || classify(s) is Symbol,
        i64_from_text(s) is Some <==> classify(s) is Integer,
        i64_from_text(s) is None && is_float_text(s) <==> classify(s) is FloatingPoint,
        i64_from_text(s) is None && !is_float_text(s) && (s == seq!['t', 'r', 'u', 'e'] || s
            == seq!['f', 'a', 'l', 's', 'e']) <==> classify(s) is Boolean,
        classify(s) is Boolean ==> classify(s) == ValV::Boolean(s == seq!['t', 'r', 'u', 'e']),
        i64_from_text(s) is None && !is_float_text(s) && !(s == seq!['t', 'r', 'u', 'e'] || s
            == seq!['f', 'a', 'l', 's', 'e']) && s.len() >= 2 && s[0] == '\'' && s[s.len() - 1]
            == '\'' <==> classify(s) is String,
        i64_from_text(s) is None && !is_float_text(s) && !(s == seq!['t', 'r', 'u', 'e'] || s
            == seq!['f', 'a', 'l', 's', 'e']) && !(s.len() >= 2 && s[0] == '\'' && s[s.len() - 1]
            == '\'') && s.len() >= 1 && s[0] == '&' <==> classify(s) is Variable,
        classify(s) is Variable ==> classify(s) == ValV::Variable(s.drop_first()),
        i64_from_text(s) is None && !is_float_text(s) && !(s == seq!['t', 'r', 'u', 'e'] || s
            == seq!['f', 'a', 'l', 's', 'e']) && !(s.len() >= 2 && s[0] == '\'' && s[s.len() - 1]
            == '\'') && !(s.len() >= 1 && s[0] == '&') && s.len() >= 1 && s[0] == '$' <==> classify(
            s,
        ) is Function,
        classify(s) is Function ==> classify(s) == ValV::Function(s.drop_first()),
        classify(s) is Symbol <==> classify(s) == ValV::Symbol(s),
{
}

impl Clone for LispToken {
    /// A deep copy whose view equals the original's.
    fn clone(&self) -> (r: Self)
        ensures
            r@ == self@,
        decreases self,
    {
        match self {
            LispToken::Integer(i) => LispToken::Integer(*i),
            LispToken::FloatingPoint(t) => LispToken::FloatingPoint(t.clone()),
            LispToken::Boolean(b) => LispToken::Boolean(*b),
            LispToken::String(s) => LispToken::String(s.clone()),
            LispToken::Variable(s) => LispToken::Variable(s.clone()),
            LispToken::Function(s) => LispToken::Function(s.clone()),
            LispToken::Symbol(s) => LispToken::Symbol(s.clone()),
            LispToken::List(l) => LispToken::List(clone_vals(l)),
            LispToken::Executable(f, a) => LispToken::Executable(f.clone(), clone_vals(a)),
        }
    }
}

/// A deep copy of a sequence of typed values.
fn clone_vals(l: &Vec<LispToken>) -> (r: Vec<LispToken>)
    ensures
        vals_view(r@) == vals_view(l@),
    decreases l,
{
    let ghost lv = vals_view(l@);
    proof {
        lemma_vals_view_elems(l@);
    }
    let mut out: Vec<LispToken> = Vec::new();
    let mut j: usize = 0;
    while j < l.len()
        invariant
            0 <= j <= l@.len(),
            lv == vals_view(l@),
            lv.len() == l@.len(),
            forall|i: int| 0 <= i < l@.len() ==> lv[i] == #[trigger] l@[i]@,
            out@.len() == j,
            forall|i: int| 0 <= i < j ==> #[trigger] out@[i]@ == lv[i],
        decreases l@.len() - j,
    {
        proof {
            assert(decreases_to!(*l => l@[j as int]));
        }
        let child = l[j].clone();
        out.push(child);
        j = j + 1;
    }
    proof {
        lemma_vals_view_elems(out@);
        assert forall|i: int| 0 <= i < lv.len() implies vals_view(out@)[i] == lv[i] by {
            assert(out@[i]@ == lv[i]);
        }
        assert(vals_view(out@) =~= lv);
    }
    out
}


/// The inspection form of a typed value: one line per leaf with its
/// display text, lists between `<---` and `--->`, a call node headed by
/// its function name, two dots more indent per level.  For human eyes;
/// the format carries no stability promise.
pub open spec fn pretty_val(v: ValV, ind: Seq<char>) -> Seq<char>
    decreases v,
{
    match v {
        ValV::List(l) => ind + seq!['<', '-', '-', '-', '\n'] + pretty_vals(
            l,
            seq!['.', '.'] + ind,
        ) + ind + seq!['-', '-', '-', '>', '\n'],
        ValV::Executable(f, a) => ind + seq!['F', 'u', 'n', 'c', 't', 'i', 'o', 'n', '('] + f
            + seq![')', ' ', '-', '-', '>', '\n'] + ind + seq!['.', '<', '-', '-', '-', '\n']
            + pretty_vals(a, seq!['.', '.'] + ind) + ind + seq!['.', '-', '-', '-', '>', '\n'],
        other => ind + seq!['|', '-', ' '] + as_text(other) + seq!['\n'],
    }
}

pub open spec fn pretty_vals(l: Seq<ValV>, ind: Seq<char>) -> Seq<char>
    decreases l,
{
    if l.len() == 0 {
        Seq::empty()
    } else {
        pretty_vals(l.subrange(0, l.len() - 1), ind) + pretty_val(l[l.len() - 1], ind)
    }
}

impl LispToken {
    /// The indented, line-per-value inspection form, as `pretty_val`
    /// states it.
    pub fn pretty_string(&self, indent: &str) -> (r: String)
        ensures
            r@ == pretty_val(self@, indent@),
    {
        let ind = chars_of(indent);
        let chars = pretty_val_chars(self, &ind);
        string_from_chars(&chars)
    }
}

fn pretty_val_chars(t: &LispToken, ind: &Vec<char>) -> (r: Vec<char>)
    ensures
        r@ == pretty_val(t@, ind@),
    decreases t, 1nat,
{
    match t {
        LispToken::List(l) => {
            let mut deeper: Vec<char> = vec!['.', '.'];
            push_chars(&mut deeper, ind);
            let mut out: Vec<char> = Vec::new();
            push_chars(&mut out, ind);
            out.push('<');
            out.push('-');
            out.push('-');
            out.push('-');
            out.push('\n');
            proof {
                assert(deeper@ =~= seq!['.', '.'] + ind@);
                assert(out@ =~= ind@ + seq!['<', '-', '-', '-', '\n']);
            }
            let body = pretty_vals_chars(l, &deeper, Ghost(*t));
            push_chars(&mut out, &body);
            push_chars(&mut out, ind);
            out.push('-');
            out.push('-');
            out.push('-');
            out.push('>');
            out.push('\n');
            proof {
                assert(out@ =~= ind@ + seq!['<', '-', '-', '-', '\n'] + pretty_vals(
                    vals_view(l@),
                    seq!['.', '.'] + ind@,
                ) + ind@ + seq!['-', '-', '-', '>', '\n']);
            }
            out
        },
        LispToken::Executable(f, a) => {
            let mut deeper: Vec<char> = vec!['.', '.'];
            push_chars(&mut deeper, ind);
            let mut out: Vec<char> = Vec::new();
            push_chars(&mut out, ind);
            let marker: Vec<char> = vec!['F', 'u', 'n', 'c', 't', 'i', 'o', 'n', '('];
            push_chars(&mut out, &marker);
            let name = chars_of(f.as_str());
            push_chars(&mut out, &name);
            let arrow: Vec<char> = vec![')', ' ', '-', '-', '>', '\n'];
            push_chars(&mut out, &arrow);
            push_chars(&mut out, ind);
            let open_mark: Vec<char> = vec!['.', '<', '-', '-', '-', '\n'];
            push_chars(&mut out, &open_mark);
            let ghost head = ind@ + seq!['F', 'u', 'n', 'c', 't', 'i', 'o', 'n', '('] + f@
                + seq![')', ' ', '-', '-', '>', '\n'] + ind@ + seq!['.', '<', '-', '-', '-', '\n'];
            proof {
                assert(deeper@ =~= seq!['.', '.'] + ind@);
                assert(out@ =~= head);
            }
            let body = pretty_vals_chars(a, &deeper, Ghost(*t));
            push_chars(&mut out, &body);
            push_chars(&mut out, ind);
            let close_mark: Vec<char> = vec!['.', '-', '-', '-', '>', '\n'];
            push_chars(&mut out, &close_mark);
            proof {
                assert(out@ =~= head + pretty_vals(vals_view(a@), seq!['.', '.'] + ind@) + ind@
                    + seq!['.', '-', '-', '-', '>', '\n']);
            }
            out
        },
        other => {
            let mut out: Vec<char> = Vec::new();
            push_chars(&mut out, ind);
            out.push('|');
            out.push('-');
            out.push(' ');
            let text = other.as_chars();
            push_chars(&mut out, &text);
            out.push('\n');
            proof {
                assert(out@ =~= ind@ + seq!['|', '-', ' '] + as_text(other@) + seq!['\n']);
            }
            out
        },
    }
}

fn pretty_vals_chars(l: &Vec<LispToken>, ind: &Vec<char>, parent: Ghost<LispToken>) -> (r: Vec<
    char,
>)
    requires
        parent@ == LispToken::List(*l) || parent@ == LispToken::Executable(
            parent@->Executable_0,
            *l,
        ),
    ensures
        r@ == pretty_vals(vals_view(l@), ind@),
    decreases parent@, 0nat,
{
    let ghost lv = vals_view(l@);
    proof {
        lemma_vals_view_elems(l@);
    }
    let mut out: Vec<char> = Vec::new();
    let mut j: usize = 0;
    while j < l.len()
        invariant
            parent@ == LispToken::List(*l) || parent@ == LispToken::Executable(
                parent@->Executable_0,
                *l,
            ),
            0 <= j <= l@.len(),
            lv == vals_view(l@),
            lv.len() == l@.len(),
            forall|i: int| 0 <= i < l@.len() ==> lv[i] == #[trigger] l@[i]@,
            out@ == pretty_vals(lv.take(j as int), ind@),
        decreases l@.len() - j,
    {
        proof {
            if parent@ == LispToken::List(*l) {
                assert(decreases_to!(parent@ => parent@->List_0@[j as int]));
            } else {
                assert(decreases_to!(parent@ => parent@->Executable_1@[j as int]));
            }
        }
        let piece = pretty_val_chars(&l[j], ind);
        push_chars(&mut out, &piece);
        j = j + 1;
        proof {
            let tk = lv.take(j as int);
            assert(tk.subrange(0, tk.len() - 1) =~= lv.take(j - 1));
            assert(tk[tk.len() - 1] == lv[j - 1]);
        }
    }
    proof {
        assert(lv.take(lv.len() as int) =~= lv);
    }
    out
}

} // verus!
