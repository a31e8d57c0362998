//! The built-in function registry: the arithmetic fold operators
//! `+ - * /` and the string concatenation fold `concat`.
//!
//! An arithmetic fold works over a non-empty argument list and takes
//! its numeric kind from the first argument: with an integer first,
//! the fold accumulates in (wrapping) 64-bit integer arithmetic and a
//! later floating-point argument is truncated toward zero — the
//! verified, text-exact `truncate_text`, the same in every
//! environment; with a floating-point first, the fold accumulates
//! through the host's float capability and a later integer is handed
//! over as its decimal text, which reads back as the same widened
//! value.  Integer division by zero, which would trap natively, and a
//! float computation the host refuses are reported as argument errors.
use vstd::prelude::*;

use vstd::wrapping::i64_specs;

use crate::eval::ExecutionEnvironment;
use crate::text::string_from_chars;
use crate::types::dec_text;
use crate::types::trunc_of_text;
use crate::types::truncate_text;
use crate::types::as_text;
use crate::types::integer_text;
use crate::types::res_view;
use crate::types::vals_view;
use crate::types::lemma_vals_view_elems;
use crate::types::ErrV;
use crate::types::FloatModel;
use crate::types::FloatOps;
use crate::types::LispError;
use crate::types::LispFunc;
use crate::types::LispToken;
use crate::types::MathOp;
use crate::types::NativeOp;
use crate::types::ValV;

verus! {

/// The name an error carries for each native operation.
pub open spec fn native_name(op: NativeOp) -> Seq<char> {
    match op {
        NativeOp::Arith(MathOp::Plus) => seq!['+'],
        NativeOp::Arith(MathOp::Minus) => seq!['-'],
        NativeOp::Arith(MathOp::Times) => seq!['*'],
        NativeOp::Arith(MathOp::Divide) => seq!['/'],
        NativeOp::Concat => seq!['c', 'o', 'n', 'c', 'a', 't'],
    }
}

/// One integer fold step: `+ - *` wrap on overflow; division truncates
/// toward zero, wraps on the one overflowing pair, and has no result
/// for a zero divisor.
pub open spec fn int_step(op: MathOp, a: i64, b: i64) -> Option<i64> {
    match op {
        MathOp::Plus => Some(i64_specs::wrapping_add(a, b)),
        MathOp::Minus => Some(i64_specs::wrapping_sub(a, b)),
        MathOp::Times => Some(i64_specs::wrapping_mul(a, b)),
        MathOp::Divide => if b == 0 {
            None
        } else if a == i64::MIN && b == -1 {
            Some(i64::MIN)
        } else {
            a.checked_div(b)
        },
    }
}

/// The integer-kinded fold over the remaining arguments: a later
/// float is truncated toward zero, exactly from its text.
pub open spec fn num_fold_int(op: MathOp, acc: i64, rest: Seq<ValV>) -> Result<ValV, ErrV>
    decreases rest.len(),
{
    if rest.len() == 0 {
        Ok(ValV::Integer(acc))
    } else {
        let elem = match rest[0] {
            ValV::Integer(n) => Some(n),
            ValV::FloatingPoint(t) => Some(trunc_of_text(t)),
            _ => None,
        };
        match elem {
            Some(n) => match int_step(op, acc, n) {
                Some(acc2) => num_fold_int(op, acc2, rest.drop_first()),
                None => Err(ErrV::ArgumentError(native_name(NativeOp::Arith(op)))),
            },
            None => Err(ErrV::ArgumentError(native_name(NativeOp::Arith(op)))),
        }
    }
}

/// The float-kinded fold over the remaining arguments: a later
/// integer is handed over as its decimal text; a computation the host
/// refuses is an argument error.
pub open spec fn num_fold_float(fm: FloatModel, op: MathOp, acc: Seq<char>, rest: Seq<ValV>) -> Result<
    ValV,
    ErrV,
>
    decreases rest.len(),
{
    if rest.len() == 0 {
        Ok(ValV::FloatingPoint(acc))
    } else {
        let step = match rest[0] {
            ValV::Integer(n) => Some((fm.compute)(op, acc, dec_text(n as int))),
            ValV::FloatingPoint(t) => Some((fm.compute)(op, acc, t)),
            _ => None,
        };
        match step {
            Some(Some(acc2)) => num_fold_float(fm, op, acc2, rest.drop_first()),
            _ => Err(ErrV::ArgumentError(native_name(NativeOp::Arith(op)))),
        }
    }
}

/// An arithmetic fold: non-empty arguments, numeric kind taken from
/// the first.
pub open spec fn apply_math(fm: FloatModel, op: MathOp, items: Seq<ValV>) -> Result<ValV, ErrV> {
    if items.len() == 0 {
        Err(ErrV::ArgumentError(native_name(NativeOp::Arith(op))))
    } else {
        match items[0] {
            ValV::Integer(i) => num_fold_int(op, i, items.drop_first()),
            ValV::FloatingPoint(t) => num_fold_float(fm, op, t, items.drop_first()),
            _ => Err(ErrV::ArgumentError(native_name(NativeOp::Arith(op)))),
        }
    }
}

/// The concatenation fold: every argument's display text, in order.
pub open spec fn concat_fold(items: Seq<ValV>) -> Seq<char>
    decreases items,
{
    if items.len() == 0 {
        Seq::empty()
    } else {
        concat_fold(items.subrange(0, items.len() - 1)) + as_text(items[items.len() - 1])
    }
}

/// What a native function returns for its evaluated argument list,
/// which the evaluator hands over wrapped as a `List`.
pub open spec fn apply_native(fm: FloatModel, op: NativeOp, args: ValV) -> Result<ValV, ErrV> {
    match args {
        ValV::List(items) => match op {
            NativeOp::Arith(m) => apply_math(fm, m, items),
            NativeOp::Concat => Ok(ValV::String(concat_fold(items))),
        },
        _ => Err(ErrV::ArgumentError(native_name(op))),
    }
}

/// Numeric promotion: the first argument alone fixes the fold's kind.
/// Over numeric arguments, an integer first argument never yields
/// anything but an integer, later floats truncated toward zero, and
/// for `+ - *` the fold always succeeds in every environment, while
/// integer division can still fail on a zero divisor.  A
/// floating-point first argument never yields anything but a
/// floating-point value; where a computation is refused the fold
/// fails with an argument error, and under a host that computes every
/// operation it always succeeds.
pub proof fn lemma_first_argument_kind(fm: FloatModel, op: MathOp, items: Seq<ValV>)
    requires
        items.len() > 0,
        forall|i: int|
            0 <= i < items.len() ==> (#[trigger] items[i]) is Integer || items[i] is FloatingPoint,
    ensures
        items[0] is Integer && apply_math(fm, op, items) is Ok ==> apply_math(
            fm,
            op,
            items,
        )->Ok_0 is Integer,
        items[0] is Integer && op != MathOp::Divide ==> apply_math(fm, op, items) is Ok,
        items[0] is FloatingPoint && apply_math(fm, op, items) is Ok ==> apply_math(
            fm,
            op,
            items,
        )->Ok_0 is FloatingPoint,
        items[0] is FloatingPoint && apply_math(fm, op, items) is Err ==> apply_math(
            fm,
            op,
            items,
        )->Err_0 is ArgumentError,
        items[0] is FloatingPoint && (forall|o: MathOp, x: Seq<char>, y: Seq<char>|
            (#[trigger] (fm.compute)(o, x, y)) is Some) ==> apply_math(fm, op, items) is Ok,
{
    let rest = items.drop_first();
    assert(forall|i: int| 0 <= i < rest.len() ==> #[trigger] rest[i] == items[i + 1]);
    if items[0] is FloatingPoint {
        lemma_float_fold_kind(fm, op, items[0]->FloatingPoint_0, rest);
    } else {
        lemma_int_fold_kind(op, items[0]->Integer_0, rest);
    }
}

proof fn lemma_int_fold_kind(op: MathOp, acc: i64, rest: Seq<ValV>)
    requires
        forall|i: int|
            0 <= i < rest.len() ==> (#[trigger] rest[i]) is Integer || rest[i] is FloatingPoint,
    ensures
        num_fold_int(op, acc, rest) is Ok ==> num_fold_int(op, acc, rest)->Ok_0 is Integer,
        op != MathOp::Divide ==> num_fold_int(op, acc, rest) is Ok,
    decreases rest.len(),
{
    if rest.len() > 0 {
        let tail = rest.drop_first();
        assert(forall|i: int| 0 <= i < tail.len() ==> #[trigger] tail[i] == rest[i + 1]);
        let n = match rest[0] {
            ValV::Integer(n) => n,
            ValV::FloatingPoint(t) => trunc_of_text(t),
            _ => 0i64,
        };
        match int_step(op, acc, n) {
            Some(acc2) => {
                lemma_int_fold_kind(op, acc2, tail);
            },
            None => {},
        }
    }
}

proof fn lemma_float_fold_kind(fm: FloatModel, op: MathOp, acc: Seq<char>, rest: Seq<ValV>)
    requires
        forall|i: int|
            0 <= i < rest.len() ==> (#[trigger] rest[i]) is Integer || rest[i] is FloatingPoint,
    ensures
        num_fold_float(fm, op, acc, rest) is Ok ==> num_fold_float(
            fm,
            op,
            acc,
            rest,
        )->Ok_0 is FloatingPoint,
        num_fold_float(fm, op, acc, rest) is Err ==> num_fold_float(
            fm,
            op,
            acc,
            rest,
        )->Err_0 is ArgumentError,
        (forall|o: MathOp, x: Seq<char>, y: Seq<char>| (#[trigger] (fm.compute)(o, x, y)) is Some)
            ==> num_fold_float(fm, op, acc, rest) is Ok,
    decreases rest.len(),
{
    if rest.len() > 0 {
        let tail = rest.drop_first();
        assert(forall|i: int| 0 <= i < tail.len() ==> #[trigger] tail[i] == rest[i + 1]);
        match rest[0] {
            ValV::Integer(n) => {
                match (fm.compute)(op, acc, dec_text(n as int)) {
                    Some(acc2) => {
                        lemma_float_fold_kind(fm, op, acc2, tail);
                    },
                    None => {},
                }
            },
            ValV::FloatingPoint(s) => {
                match (fm.compute)(op, acc, s) {
                    Some(acc2) => {
                        lemma_float_fold_kind(fm, op, acc2, tail);
                    },
                    None => {},
                }
            },
            _ => {},
        }
    }
}

fn native_name_string(op: NativeOp) -> (r: String)
    ensures
        r@ == native_name(op),
{
    let v: Vec<char> = match op {
        NativeOp::Arith(MathOp::Plus) => vec!['+'],
        NativeOp::Arith(MathOp::Minus) => vec!['-'],
        NativeOp::Arith(MathOp::Times) => vec!['*'],
        NativeOp::Arith(MathOp::Divide) => vec!['/'],
        NativeOp::Concat => vec!['c', 'o', 'n', 'c', 'a', 't'],
    };
    string_from_chars(&v)
}

fn int_step_exec(op: MathOp, a: i64, b: i64) -> (r: Option<i64>)
    ensures
        r == int_step(op, a, b),
{
    match op {
        MathOp::Plus => Some(a.wrapping_add(b)),
        MathOp::Minus => Some(a.wrapping_sub(b)),
        MathOp::Times => Some(a.wrapping_mul(b)),
        MathOp::Divide => {
            if b == 0 {
                None
            } else if a == i64::MIN && b == -1 {
                Some(i64::MIN)
            } else {
                a.checked_div(b)
            }
        },
    }
}

fn math_fold<F: FloatOps>(fops: &F, op: MathOp, items: &Vec<LispToken>) -> (r: Result<
    LispToken,
    LispError,
>)
    ensures
        res_view(r) == apply_math(fops.model(), op, vals_view(items@)),
{
    let ghost fm = fops.model();
    let ghost iv = vals_view(items@);
    proof {
        lemma_vals_view_elems(items@);
    }
    if items.len() == 0 {
        return Err(LispError::ArgumentError(native_name_string(NativeOp::Arith(op))));
    }
    let ghost rest_all = iv.drop_first();
    proof {
        assert(items@[0]@ == iv[0]);
        assert(rest_all.skip(0) =~= rest_all);
    }
    match &items[0] {
        LispToken::Integer(first) => {
            let mut acc: i64 = *first;
            let mut j: usize = 1;
            while j < items.len()
                invariant
                    1 <= j <= items@.len(),
                    fm == fops.model(),
                    iv == vals_view(items@),
                    iv.len() == items@.len(),
                    forall|i: int| 0 <= i < items@.len() ==> iv[i] == #[trigger] items@[i]@,
                    rest_all == iv.drop_first(),
                    num_fold_int(op, acc, rest_all.skip(j - 1)) == num_fold_int(
                        op,
                        iv[0]->Integer_0,
                        rest_all,
                    ),
                    iv[0] is Integer,
                decreases items@.len() - j,
            {
                proof {
                    assert(items@[j as int]@ == iv[j as int]);
                    assert(rest_all.skip(j - 1)[0] == iv[j as int]);
                    assert(rest_all.skip(j - 1).drop_first() =~= rest_all.skip(j as int));
                }
                let elem: Option<i64> = match &items[j] {
                    LispToken::Integer(n) => Some(*n),
                    LispToken::FloatingPoint(t) => Some(truncate_text(t.as_str())),
                    _ => None,
                };
                let n = match elem {
                    Some(n) => n,
                    None => {
                        return Err(
                            LispError::ArgumentError(native_name_string(NativeOp::Arith(op))),
                        );
                    },
                };
                let stepped = int_step_exec(op, acc, n);
                match stepped {
                    Some(acc2) => {
                        acc = acc2;
                    },
                    None => {
                        return Err(
                            LispError::ArgumentError(native_name_string(NativeOp::Arith(op))),
                        );
                    },
                }
                j = j + 1;
            }
            proof {
                assert(rest_all.skip(items@.len() - 1) =~= Seq::<ValV>::empty());
            }
            Ok(LispToken::Integer(acc))
        },
        LispToken::FloatingPoint(first) => {
            let mut acc: String = first.clone();
            let mut j: usize = 1;
            while j < items.len()
                invariant
                    1 <= j <= items@.len(),
                    fm == fops.model(),
                    iv == vals_view(items@),
                    iv.len() == items@.len(),
                    forall|i: int| 0 <= i < items@.len() ==> iv[i] == #[trigger] items@[i]@,
                    rest_all == iv.drop_first(),
                    num_fold_float(fm, op, acc@, rest_all.skip(j - 1)) == num_fold_float(
                        fm,
                        op,
                        iv[0]->FloatingPoint_0,
                        rest_all,
                    ),
                    iv[0] is FloatingPoint,
                decreases items@.len() - j,
            {
                proof {
                    assert(items@[j as int]@ == iv[j as int]);
                    assert(rest_all.skip(j - 1)[0] == iv[j as int]);
                    assert(rest_all.skip(j - 1).drop_first() =~= rest_all.skip(j as int));
                }
                let step: Option<Option<String>> = match &items[j] {
                    LispToken::Integer(n) => {
                        let text = integer_text(*n);
                        let text_str = string_from_chars(&text);
                        Some(fops.compute(op, acc.as_str(), text_str.as_str()))
                    },
                    LispToken::FloatingPoint(t) => Some(fops.compute(op, acc.as_str(), t.as_str())),
                    _ => None,
                };
                match step {
                    Some(Some(acc2)) => {
                        acc = acc2;
                    },
                    _ => {
                        return Err(
                            LispError::ArgumentError(native_name_string(NativeOp::Arith(op))),
                        );
                    },
                }
                j = j + 1;
            }
            proof {
                assert(rest_all.skip(items@.len() - 1) =~= Seq::<ValV>::empty());
            }
            Ok(LispToken::FloatingPoint(acc))
        },
        _ => Err(LispError::ArgumentError(native_name_string(NativeOp::Arith(op)))),
    }
}

fn concat_exec(items: &Vec<LispToken>) -> (r: LispToken)
    ensures
        r@ == ValV::String(concat_fold(vals_view(items@))),
{
    let ghost iv = vals_view(items@);
    proof {
        lemma_vals_view_elems(items@);
    }
    let mut out: Vec<char> = Vec::new();
    let mut j: usize = 0;
    while j < items.len()
        invariant
            0 <= j <= items@.len(),
            iv == vals_view(items@),
            iv.len() == items@.len(),
            forall|i: int| 0 <= i < items@.len() ==> iv[i] == #[trigger] items@[i]@,
            out@ == concat_fold(iv.take(j as int)),
        decreases items@.len() - j,
    {
        let piece = items[j].as_str();
        let piece_chars = crate::text::chars_of(piece.as_str());
        crate::text::push_chars(&mut out, &piece_chars);
        j = j + 1;
        proof {
            let tk = iv.take(j as int);
            assert(tk.subrange(0, tk.len() - 1) =~= iv.take(j - 1));
            assert(tk[tk.len() - 1] == iv[j - 1]);
        }
    }
    proof {
        assert(iv.take(iv.len() as int) =~= iv);
    }
    LispToken::String(string_from_chars(&out))
}

/// Runs one native function on the evaluated argument list.
pub fn run_native<F: FloatOps>(fops: &F, op: NativeOp, args: &LispToken) -> (r: Result<
    LispToken,
    LispError,
>)
    ensures
        res_view(r) == apply_native(fops.model(), op, args@),
{
    match args {
        LispToken::List(items) => match op {
            NativeOp::Arith(m) => math_fold(fops, m, items),
            NativeOp::Concat => Ok(concat_exec(items)),
        },
        _ => Err(LispError::ArgumentError(native_name_string(op))),
    }
}

impl LispFunc {
    /// Invokes this native function with the evaluated argument list,
    /// wrapped as a `List`, against the environment's float capability.
    pub fn call<F: FloatOps>(&self, ee: &ExecutionEnvironment<F>, args: &LispToken) -> (r: Result<
        LispToken,
        LispError,
    >)
        ensures
            res_view(r) == apply_native(ee.float_model(), self.op, args@),
    {
        run_native(ee.float_ops(), self.op, args)
    }
}

/// Installs the built-in functions: the four arithmetic folds under
/// their operator names and the concatenation fold under `concat`.
pub fn init_functs(functs: &mut Vec<(String, LispFunc)>)
    ensures
        final(functs)@.len() == old(functs)@.len() + 5,
        final(functs)@.subrange(0, old(functs)@.len() as int) == old(functs)@,
        final(functs)@[old(functs)@.len() as int].0@ == seq!['+'],
        final(functs)@[old(functs)@.len() as int].1.op == NativeOp::Arith(MathOp::Plus),
        final(functs)@[old(functs)@.len() + 1int].0@ == seq!['*'],
        final(functs)@[old(functs)@.len() + 1int].1.op == NativeOp::Arith(MathOp::Times),
        final(functs)@[old(functs)@.len() + 2int].0@ == seq!['-'],
        final(functs)@[old(functs)@.len() + 2int].1.op == NativeOp::Arith(MathOp::Minus),
        final(functs)@[old(functs)@.len() + 3int].0@ == seq!['/'],
        final(functs)@[old(functs)@.len() + 3int].1.op == NativeOp::Arith(MathOp::Divide),
        final(functs)@[old(functs)@.len() + 4int].0@ == seq!['c', 'o', 'n', 'c', 'a', 't'],
        final(functs)@[old(functs)@.len() + 4int].1.op == NativeOp::Concat,
    {
    let ghost n = functs@.len();
    functs.push(
        (native_name_string(NativeOp::Arith(MathOp::Plus)), LispFunc::new(
            NativeOp::Arith(MathOp::Plus),
        )),
    );
    functs.push(
        (native_name_string(NativeOp::Arith(MathOp::Times)), LispFunc::new(
            NativeOp::Arith(MathOp::Times),
        )),
    );
    functs.push(
        (native_name_string(NativeOp::Arith(MathOp::Minus)), LispFunc::new(
            NativeOp::Arith(MathOp::Minus),
        )),
    );
    functs.push(
        (native_name_string(NativeOp::Arith(MathOp::Divide)), LispFunc::new(
            NativeOp::Arith(MathOp::Divide),
        )),
    );
    functs.push((native_name_string(NativeOp::Concat), LispFunc::new(NativeOp::Concat)));
    proof {
        assert(functs@.subrange(0, n as int) =~= old(functs)@);
    }
}

} // verus!
