//! The execution environment and the two evaluation passes.
//!
//! The environment owns two name-keyed bindings, variables to typed
//! values and function names to native functions, together with the
//! host's float capability.  Per expression it first substitutes every
//! variable reference with its bound value and then evaluates the call
//! nodes: a call's arguments are evaluated depth-first, left to right,
//! before the named native function is invoked on them; every other
//! value evaluates to itself.  An unknown variable or function name
//! fails that expression with a `NameError` carrying the name.
use vstd::prelude::*;

use crate::init::apply_native;
use crate::init::init_functs;
use crate::types::res_view;
use crate::types::vals_view;
use crate::types::lemma_vals_view_elems;
use crate::types::ErrV;
use crate::types::FloatModel;
use crate::types::FloatOps;
use crate::types::LispError;
use crate::types::LispFunc;
use crate::types::LispToken;
use crate::types::MathOp;
use crate::types::NativeOp;
use crate::types::NullFloatOps;
use crate::types::ValV;

verus! {

// ---------------------------------------------------------------------
// Name-keyed bindings, modelled as maps
// ---------------------------------------------------------------------
/// The map a variable-binding list stands for; an earlier entry wins,
/// so pushing at the front is insertion.
pub open spec fn var_pairs_map(pairs: Seq<(String, LispToken)>) -> Map<Seq<char>, ValV>
    decreases pairs.len(),
{
    if pairs.len() == 0 {
        Map::empty()
    } else {
        var_pairs_map(pairs.drop_first()).insert(pairs[0].0@, pairs[0].1@)
    }
}

/// The map a function-binding list stands for.
pub open spec fn fn_pairs_map(pairs: Seq<(String, LispFunc)>) -> Map<Seq<char>, NativeOp>
    decreases pairs.len(),
{
    if pairs.len() == 0 {
        Map::empty()
    } else {
        fn_pairs_map(pairs.drop_first()).insert(pairs[0].0@, pairs[0].1.op)
    }
}

/// The bindings the built-in registry installs.
pub open spec fn builtin_fns() -> Map<Seq<char>, NativeOp> {
    Map::empty().insert(seq!['c', 'o', 'n', 'c', 'a', 't'], NativeOp::Concat).insert(
        seq!['/'],
        NativeOp::Arith(MathOp::Divide),
    ).insert(seq!['-'], NativeOp::Arith(MathOp::Minus)).insert(
        seq!['*'],
        NativeOp::Arith(MathOp::Times),
    ).insert(seq!['+'], NativeOp::Arith(MathOp::Plus))
}

// ---------------------------------------------------------------------
// The substitution pass
// ---------------------------------------------------------------------
/// Substitution: every variable reference is replaced by its bound
/// value; an unbound name fails the whole pass; lists and call nodes
/// are rebuilt with every child substituted; all else passes through.
pub open spec fn subst_spec(vars: Map<Seq<char>, ValV>, v: ValV) -> Result<ValV, ErrV>
    decreases v,
{
    match v {
        ValV::Variable(name) => if vars.contains_key(name) {
            Ok(vars[name])
        } else {
            Err(ErrV::NameError(name))
        },
        ValV::List(l) => match subst_list(vars, l) {
            Ok(rs) => Ok(ValV::List(rs)),
            Err(e) => Err(e),
        },
        ValV::Executable(f, a) => match subst_list(vars, a) {
            Ok(rs) => Ok(ValV::Executable(f, rs)),
            Err(e) => Err(e),
        },
        other => Ok(other),
    }
}

pub open spec fn subst_list(vars: Map<Seq<char>, ValV>, l: Seq<ValV>) -> Result<Seq<ValV>, ErrV>
    decreases l,
{
    if l.len() == 0 {
        Ok(Seq::empty())
    } else {
        match subst_list(vars, l.subrange(0, l.len() - 1)) {
            Ok(rs) => match subst_spec(vars, l[l.len() - 1]) {
                Ok(r) => Ok(rs.push(r)),
                Err(e) => Err(e),
            },
            Err(e) => Err(e),
        }
    }
}

/// The first failing child decides the error of the whole list.
pub proof fn lemma_subst_list_err(vars: Map<Seq<char>, ValV>, l: Seq<ValV>, j: int)
    requires
        0 <= j < l.len(),
        subst_list(vars, l.take(j)) is Ok,
        subst_spec(vars, l[j]) is Err,
    ensures
        subst_list(vars, l) == Result::<Seq<ValV>, ErrV>::Err(subst_spec(vars, l[j])->Err_0),
    decreases l.len(),
{
    let sub = l.subrange(0, l.len() - 1);
    if j == l.len() - 1 {
        assert(l.take(j) =~= sub);
    } else {
        assert(sub.take(j) =~= l.take(j));
        assert(sub[j] == l[j]);
        lemma_subst_list_err(vars, sub, j);
    }
}

// ---------------------------------------------------------------------
// The evaluation pass, with its invocation trace
// ---------------------------------------------------------------------
/// What evaluating one value yields: the result, and the names of the
/// native functions invoked, in invocation order.
pub struct EvalOut {
    pub res: Result<ValV, ErrV>,
    pub trace: Seq<Seq<char>>,
}

pub struct ArgsOut {
    pub res: Result<Seq<ValV>, ErrV>,
    pub trace: Seq<Seq<char>>,
}

/// Evaluation: a call node evaluates every argument recursively, depth
/// first and left to right, then looks the name up and invokes the
/// native function on the evaluated list; any other value, a plain
/// list included, evaluates to itself.  The trace lists each invoked
/// function after its arguments' invocations: strict post-order.
pub open spec fn eval_spec(fns: Map<Seq<char>, NativeOp>, fm: FloatModel, v: ValV) -> EvalOut
    decreases v,
{
    match v {
        ValV::Executable(f, args) => {
            let ao = eval_args(fns, fm, args);
            match ao.res {
                Ok(vals) => if fns.contains_key(f) {
                    EvalOut {
                        res: apply_native(fm, fns[f], ValV::List(vals)),
                        trace: ao.trace.push(f),
                    }
                } else {
                    EvalOut { res: Err(ErrV::NameError(f)), trace: ao.trace }
                },
                Err(e) => EvalOut { res: Err(e), trace: ao.trace },
            }
        },
        other => EvalOut { res: Ok(other), trace: Seq::empty() },
    }
}

/// Arguments evaluate left to right; the first failure stops the rest.
pub open spec fn eval_args(fns: Map<Seq<char>, NativeOp>, fm: FloatModel, l: Seq<ValV>) -> ArgsOut
    decreases l,
{
    if l.len() == 0 {
        ArgsOut { res: Ok(Seq::empty()), trace: Seq::empty() }
    } else {
        let pre = eval_args(fns, fm, l.subrange(0, l.len() - 1));
        match pre.res {
            Ok(vs) => {
                let o = eval_spec(fns, fm, l[l.len() - 1]);
                match o.res {
                    Ok(v) => ArgsOut { res: Ok(vs.push(v)), trace: pre.trace + o.trace },
                    Err(e) => ArgsOut { res: Err(e), trace: pre.trace + o.trace },
                }
            },
            Err(e) => pre,
        }
    }
}

/// The first failing argument decides the error and ends the trace.
pub proof fn lemma_eval_args_err(fns: Map<Seq<char>, NativeOp>, fm: FloatModel, l: Seq<ValV>, j: int)
    requires
        0 <= j < l.len(),
        eval_args(fns, fm, l.take(j)).res is Ok,
        eval_spec(fns, fm, l[j]).res is Err,
    ensures
        eval_args(fns, fm, l) == (ArgsOut {
            res: Result::<Seq<ValV>, ErrV>::Err(eval_spec(fns, fm, l[j]).res->Err_0),
            trace: eval_args(fns, fm, l.take(j)).trace + eval_spec(fns, fm, l[j]).trace,
        }),
    decreases l.len(),
{
    let sub = l.subrange(0, l.len() - 1);
    if j == l.len() - 1 {
        assert(l.take(j) =~= sub);
    } else {
        assert(sub.take(j) =~= l.take(j));
        assert(sub[j] == l[j]);
        lemma_eval_args_err(fns, fm, sub, j);
    }
}

/// What one top-level expression yields: substitution, then evaluation.
pub open spec fn run_expr(
    vars: Map<Seq<char>, ValV>,
    fns: Map<Seq<char>, NativeOp>,
    fm: FloatModel,
    v: ValV,
) -> Result<ValV, ErrV> {
    match subst_spec(vars, v) {
        Ok(s) => eval_spec(fns, fm, s).res,
        Err(e) => Err(e),
    }
}

/// The views of a sequence of strings.
pub open spec fn strs_view(l: Seq<String>) -> Seq<Seq<char>>
    decreases l,
{
    if l.len() == 0 {
        Seq::empty()
    } else {
        strs_view(l.subrange(0, l.len() - 1)).push(l[l.len() - 1]@)
    }
}

pub proof fn lemma_strs_view_snoc(l: Seq<String>)
    requires
        l.len() > 0,
    ensures
        strs_view(l) == strs_view(l.subrange(0, l.len() - 1)).push(l[l.len() - 1]@),
{
}

// ---------------------------------------------------------------------
// The environment
// ---------------------------------------------------------------------
/// The execution environment: variable bindings, function bindings and
/// the host's float capability.  It is created with the built-in
/// registry installed and may take further bindings at any time;
/// re-binding a name overwrites.
pub struct ExecutionEnvironment<F: FloatOps> {
    variables: Vec<(String, LispToken)>,
    functions: Vec<(String, LispFunc)>,
    floats: F,
}

impl<F: FloatOps> ExecutionEnvironment<F> {
    pub closed spec fn vars_map(&self) -> Map<Seq<char>, ValV> {
        var_pairs_map(self.variables@)
    }

    pub closed spec fn fns_map(&self) -> Map<Seq<char>, NativeOp> {
        fn_pairs_map(self.functions@)
    }

    pub closed spec fn float_model(&self) -> FloatModel {
        self.floats.model()
    }

    pub fn float_ops(&self) -> (r: &F)
        ensures
            r.model() == self.float_model(),
    {
        &self.floats
    }

    /// An environment around the given float capability, with no
    /// variables and the built-in functions installed.
    pub fn with_float_ops(floats: F) -> (r: ExecutionEnvironment<F>)
        ensures
            r.vars_map() == Map::<Seq<char>, ValV>::empty(),
            r.fns_map() == builtin_fns(),
            r.float_model() == floats.model(),
    {
        let mut functs: Vec<(String, LispFunc)> = Vec::new();
        init_functs(&mut functs);
        let r = ExecutionEnvironment { variables: Vec::new(), functions: functs, floats };
        proof {
            let p0 = r.functions@;
            let p1 = p0.drop_first();
            let p2 = p1.drop_first();
            let p3 = p2.drop_first();
            let p4 = p3.drop_first();
            let p5 = p4.drop_first();
            assert(p5 =~= Seq::<(String, LispFunc)>::empty());
            assert(p1[0] == p0[1] && p2[0] == p0[2] && p3[0] == p0[3] && p4[0] == p0[4]);
            assert(fn_pairs_map(p5) =~= Map::<Seq<char>, NativeOp>::empty());
            assert(fn_pairs_map(p4) == fn_pairs_map(p5).insert(
                seq!['c', 'o', 'n', 'c', 'a', 't'],
                NativeOp::Concat,
            ));
            assert(fn_pairs_map(p3) == fn_pairs_map(p4).insert(
                seq!['/'],
                NativeOp::Arith(MathOp::Divide),
            ));
            assert(fn_pairs_map(p2) == fn_pairs_map(p3).insert(
                seq!['-'],
                NativeOp::Arith(MathOp::Minus),
            ));
            assert(fn_pairs_map(p1) == fn_pairs_map(p2).insert(
                seq!['*'],
                NativeOp::Arith(MathOp::Times),
            ));
            assert(fn_pairs_map(p0) == fn_pairs_map(p1).insert(
                seq!['+'],
                NativeOp::Arith(MathOp::Plus),
            ));
            assert(fn_pairs_map(p0) =~= builtin_fns());
        }
        r
    }

    /// Looks a variable up; an unknown name is a `NameError` carrying it.
    pub fn get_var(&self, k: &str) -> (r: Result<LispToken, LispError>)
        ensures
            match r {
                Ok(v) => self.vars_map().contains_key(k@) && v@ == self.vars_map()[k@],
                Err(e) => !self.vars_map().contains_key(k@) && e@ == ErrV::NameError(k@),
            },
    {
        let n = self.variables.len();
        let key = k.to_owned();
        proof {
            assert(self.variables@.skip(0) =~= self.variables@);
        }
        let mut i: usize = 0;
        while i < n
            invariant
                0 <= i <= n,
                n == self.variables@.len(),
                key@ == k@,
                var_pairs_map(self.variables@.skip(i as int)).contains_key(k@) == self.vars_map(
                ).contains_key(k@),
                var_pairs_map(self.variables@.skip(i as int)).contains_key(k@)
                    ==> var_pairs_map(self.variables@.skip(i as int))[k@] == self.vars_map()[k@],
            decreases n - i,
        {
            let pair = &self.variables[i];
            proof {
                assert(self.variables@.skip(i as int)[0] == self.variables@[i as int]);
                assert(self.variables@.skip(i as int).drop_first() =~= self.variables@.skip(
                    i + 1,
                ));
            }
            if pair.0 == key {
                return Ok(pair.1.clone());
            }
            i = i + 1;
        }
        proof {
            assert(self.variables@.skip(n as int) =~= Seq::<(String, LispToken)>::empty());
        }
        Err(LispError::NameError(k.to_owned()))
    }

    /// Looks a function up; an unknown name is a `NameError` carrying it.
    pub fn get_fn(&self, k: &str) -> (r: Result<LispFunc, LispError>)
        ensures
            match r {
                Ok(f) => self.fns_map().contains_key(k@) && f.op == self.fns_map()[k@],
                Err(e) => !self.fns_map().contains_key(k@) && e@ == ErrV::NameError(k@),
            },
    {
        let n = self.functions.len();
        let key = k.to_owned();
        proof {
            assert(self.functions@.skip(0) =~= self.functions@);
        }
        let mut i: usize = 0;
        while i < n
            invariant
                0 <= i <= n,
                n == self.functions@.len(),
                key@ == k@,
                fn_pairs_map(self.functions@.skip(i as int)).contains_key(k@) == self.fns_map(
                ).contains_key(k@),
                fn_pairs_map(self.functions@.skip(i as int)).contains_key(k@) ==> fn_pairs_map(
                    self.functions@.skip(i as int),
                )[k@] == self.fns_map()[k@],
            decreases n - i,
        {
            let pair = &self.functions[i];
            proof {
                assert(self.functions@.skip(i as int)[0] == self.functions@[i as int]);
                assert(self.functions@.skip(i as int).drop_first() =~= self.functions@.skip(i + 1));
            }
            if pair.0 == key {
                return Ok(pair.1);
            }
            i = i + 1;
        }
        proof {
            assert(self.functions@.skip(n as int) =~= Seq::<(String, LispFunc)>::empty());
        }
        Err(LispError::NameError(k.to_owned()))
    }

    /// Binds a variable; re-binding overwrites.
    pub fn add_var(&mut self, k: &str, v: LispToken)
        ensures
            final(self).vars_map() == old(self).vars_map().insert(k@, v@),
            final(self).fns_map() == old(self).fns_map(),
            final(self).float_model() == old(self).float_model(),
    {
        let ghost old_pairs = self.variables@;
        let key = k.to_owned();
        let ghost vv = v@;
        self.variables.insert(0, (key, v));
        proof {
            assert(self.variables@.drop_first() =~= old_pairs);
            assert(self.variables@[0].1@ == vv);
        }
    }

    /// Binds a function name; re-binding overwrites.
    pub fn add_fn(&mut self, k: &str, v: LispFunc)
        ensures
            final(self).fns_map() == old(self).fns_map().insert(k@, v.op),
            final(self).vars_map() == old(self).vars_map(),
            final(self).float_model() == old(self).float_model(),
    {
        let ghost old_pairs = self.functions@;
        let key = k.to_owned();
        self.functions.insert(0, (key, v));
        proof {
            assert(self.functions@.drop_first() =~= old_pairs);
        }
    }

    /// The substitution pass over one value.
    pub fn var_map(&self, token: &LispToken) -> (r: Result<LispToken, LispError>)
        ensures
            res_view(r) == subst_spec(self.vars_map(), token@),
        decreases token, 1nat,
    {
        match token {
            LispToken::Variable(name) => match self.get_var(name.as_str()) {
                Ok(v) => Ok(v),
                Err(e) => Err(e),
            },
            LispToken::List(l) => {
                match self.subst_children(l, Ghost(*token)) {
                    Ok(rs) => Ok(LispToken::List(rs)),
                    Err(e) => Err(e),
                }
            },
            LispToken::Executable(f, a) => {
                match self.subst_children(a, Ghost(*token)) {
                    Ok(rs) => Ok(LispToken::Executable(f.clone(), rs)),
                    Err(e) => Err(e),
                }
            },
            other => Ok(other.clone()),
        }
    }

    /// Substitutes every child, left to right, stopping at the first
    /// failure.
    fn subst_children(&self, l: &Vec<LispToken>, parent: Ghost<LispToken>) -> (r: Result<
        Vec<LispToken>,
        LispError,
    >)
        requires
            parent@ == LispToken::List(*l) || parent@ == LispToken::Executable(
                parent@->Executable_0,
                *l,
            ),
        ensures
            match r {
                Ok(rs) => subst_list(self.vars_map(), vals_view(l@)) == Result::<
                    Seq<ValV>,
                    ErrV,
                >::Ok(vals_view(rs@)),
                Err(e) => subst_list(self.vars_map(), vals_view(l@)) == Result::<
                    Seq<ValV>,
                    ErrV,
                >::Err(e@),
            },
        decreases parent@, 0nat,
    {
        let ghost lv = vals_view(l@);
        proof {
            lemma_vals_view_elems(l@);
        }
        let mut out: Vec<LispToken> = Vec::new();
        let mut j: usize = 0;
        while j < l.len()
            invariant
                0 <= j <= l@.len(),
                parent@ == LispToken::List(*l) || parent@ == LispToken::Executable(
                    parent@->Executable_0,
                    *l,
                ),
                lv == vals_view(l@),
                lv.len() == l@.len(),
                forall|i: int| 0 <= i < l@.len() ==> lv[i] == #[trigger] l@[i]@,
                subst_list(self.vars_map(), lv.take(j as int)) == Result::<Seq<ValV>, ErrV>::Ok(
                    vals_view(out@),
                ),
                out@.len() == j,
                forall|i: int|
                    0 <= i < j ==> #[trigger] out@[i]@ == subst_list(
                        self.vars_map(),
                        lv.take(j as int),
                    )->Ok_0[i],
            decreases l@.len() - j,
        {
            proof {
                if parent@ == LispToken::List(*l) {
                    assert(decreases_to!(parent@ => parent@->List_0@[j as int]));
                } else {
                    assert(decreases_to!(parent@ => parent@->Executable_1@[j as int]));
                }
            }
            let child = self.var_map(&l[j]);
            match child {
                Ok(c) => {
                    let ghost out0 = out@;
                    out.push(c);
                    j = j + 1;
                    proof {
                        let tk = lv.take(j as int);
                        assert(tk.subrange(0, tk.len() - 1) =~= lv.take(j - 1));
                        assert(tk[tk.len() - 1] == lv[j - 1]);
                        lemma_vals_view_elems(out@);
                        assert(out@.subrange(0, out@.len() - 1) =~= out0);
                        assert(vals_view(out@) =~= vals_view(out0).push(out@[j - 1]@));
                    }
                },
                Err(e) => {
                    proof {
                        lemma_subst_list_err(self.vars_map(), lv, j as int);
                    }
                    return Err(e);
                },
            }
        }
        proof {
            assert(lv.take(lv.len() as int) =~= lv);
        }
        Ok(out)
    }

    /// The evaluation pass over one substituted value, recording each
    /// native invocation in order.
    fn eval_expr(&self, token: &LispToken, trace: &mut Vec<String>) -> (r: Result<
        LispToken,
        LispError,
    >)
        ensures
            res_view(r) == eval_spec(self.fns_map(), self.float_model(), token@).res,
            strs_view(final(trace)@) == strs_view(old(trace)@) + eval_spec(
                self.fns_map(),
                self.float_model(),
                token@,
            ).trace,
        decreases token,
    {
        let ghost fns = self.fns_map();
        let ghost fm = self.float_model();
        match token {
            LispToken::Executable(f, args) => {
                let ghost av = vals_view(args@);
                let ghost trace0 = strs_view(trace@);
                proof {
                    lemma_vals_view_elems(args@);
                }
                let mut out: Vec<LispToken> = Vec::new();
                let mut j: usize = 0;
                while j < args.len()
                    invariant
                        0 <= j <= args@.len(),
                        *token == LispToken::Executable(*f, *args),
                        fns == self.fns_map(),
                        fm == self.float_model(),
                        av == vals_view(args@),
                        av.len() == args@.len(),
                        trace0 == strs_view(old(trace)@),
                        forall|i: int| 0 <= i < args@.len() ==> av[i] == #[trigger] args@[i]@,
                        eval_args(fns, fm, av.take(j as int)).res == Result::<Seq<ValV>, ErrV>::Ok(
                            vals_view(out@),
                        ),
                        strs_view(trace@) == trace0 + eval_args(fns, fm, av.take(j as int)).trace,
                        out@.len() == j,
                    decreases args@.len() - j,
                {
                    proof {
                        assert(decreases_to!(*token => token->Executable_1@[j as int]));
                    }
                    let child = self.eval_expr(&args[j], trace);
                    match child {
                        Ok(c) => {
                            let ghost out0 = out@;
                            out.push(c);
                            j = j + 1;
                            proof {
                                let tk = av.take(j as int);
                                assert(tk.subrange(0, tk.len() - 1) =~= av.take(j - 1));
                                assert(tk[tk.len() - 1] == av[j - 1]);
                                lemma_vals_view_elems(out@);
                                assert(out@.subrange(0, out@.len() - 1) =~= out0);
                                assert(vals_view(out@) =~= vals_view(out0).push(out@[j - 1]@));
                            }
                        },
                        Err(e) => {
                            proof {
                                lemma_eval_args_err(fns, fm, av, j as int);
                                assert((trace0 + eval_args(fns, fm, av.take(j as int)).trace)
                                    + eval_spec(fns, fm, av[j as int]).trace =~= trace0 + (
                                eval_args(fns, fm, av.take(j as int)).trace + eval_spec(
                                    fns,
                                    fm,
                                    av[j as int],
                                ).trace));
                            }
                            return Err(e);
                        },
                    }
                }
                proof {
                    assert(av.take(av.len() as int) =~= av);
                }
                let func = match self.get_fn(f.as_str()) {
                    Ok(func) => func,
                    Err(e) => {
                        return Err(e);
                    },
                };
                let arg_list = LispToken::List(out);
                let res = func.call(self, &arg_list);
                let ghost tr0 = trace@;
                trace.push(f.clone());
                proof {
                    assert(trace@.subrange(0, trace@.len() - 1) =~= tr0);
                    lemma_strs_view_snoc(trace@);
                    assert((trace0 + eval_args(fns, fm, av).trace).push(f@) =~= trace0 + eval_args(
                        fns,
                        fm,
                        av,
                    ).trace.push(f@));
                }
                res
            },
            other => {
                proof {
                    assert(strs_view(trace@) =~= strs_view(trace@) + Seq::<Seq<char>>::empty());
                }
                Ok(other.clone())
            },
        }
    }

    /// Evaluates one expression — substitution, then evaluation — and
    /// also yields the invocation order of the native functions, for
    /// observing that arguments run before their call, left to right.
    pub fn eval_traced(&self, token: &LispToken) -> (r: (Result<LispToken, LispError>, Vec<String>))
        ensures
            res_view(r.0) == run_expr(self.vars_map(), self.fns_map(), self.float_model(), token@),
            strs_view(r.1@) == match subst_spec(self.vars_map(), token@) {
                Ok(s) => eval_spec(self.fns_map(), self.float_model(), s).trace,
                Err(e) => Seq::<Seq<char>>::empty(),
            },
    {
        let mut trace: Vec<String> = Vec::new();
        match self.var_map(token) {
            Ok(s) => {
                let r = self.eval_expr(&s, &mut trace);
                (r, trace)
            },
            Err(e) => (Err(e), trace),
        }
    }

    /// Evaluates each top-level expression independently, in order:
    /// substitution first, then evaluation; one expression's failure
    /// leaves the others untouched.
    pub fn exec(&self, script: Vec<LispToken>) -> (r: Vec<Result<LispToken, LispError>>)
        ensures
            r@.len() == script@.len(),
            forall|i: int|
                0 <= i < script@.len() ==> res_view(#[trigger] r@[i]) == run_expr(
                    self.vars_map(),
                    self.fns_map(),
                    self.float_model(),
                    script@[i]@,
                ),
    {
        let mut out: Vec<Result<LispToken, LispError>> = Vec::new();
        let mut i: usize = 0;
        while i < script.len()
            invariant
                0 <= i <= script@.len(),
                out@.len() == i,
                forall|k: int|
                    0 <= k < i ==> res_view(#[trigger] out@[k]) == run_expr(
                        self.vars_map(),
                        self.fns_map(),
                        self.float_model(),
                        script@[k]@,
                    ),
            decreases script@.len() - i,
        {
            let (r, _trace) = self.eval_traced(&script[i]);
            out.push(r);
            i = i + 1;
        }
        out
    }
}

impl ExecutionEnvironment<NullFloatOps> {
    /// An environment with no variables, the built-in functions
    /// installed, and no float capability.
    pub fn new() -> (r: ExecutionEnvironment<NullFloatOps>)
        ensures
            r.vars_map() == Map::<Seq<char>, ValV>::empty(),
            r.fns_map() == builtin_fns(),
            r.float_model() == NullFloatOps.model(),
    {
        ExecutionEnvironment::with_float_ops(NullFloatOps)
    }
}

// ---------------------------------------------------------------------
// Laws
// ---------------------------------------------------------------------
/// No variable reference anywhere in the value.
pub open spec fn no_variable_refs(v: ValV) -> bool
    decreases v,
{
    match v {
        ValV::Variable(_) => false,
        ValV::List(l) => no_vars_list(l),
        ValV::Executable(_, a) => no_vars_list(a),
        _ => true,
    }
}

pub open spec fn no_vars_list(l: Seq<ValV>) -> bool
    decreases l,
{
    if l.len() == 0 {
        true
    } else {
        no_vars_list(l.subrange(0, l.len() - 1)) && no_variable_refs(l[l.len() - 1])
    }
}

/// Substitution is idempotent: a tree in which no variable reference
/// remains — such as the output of a successful substitution over
/// bindings that hold no references — comes back unchanged, whatever
/// the bindings.
pub proof fn lemma_subst_fully_substituted(vars: Map<Seq<char>, ValV>, v: ValV)
    requires
        no_variable_refs(v),
    ensures
        subst_spec(vars, v) == Result::<ValV, ErrV>::Ok(v),
    decreases v,
{
    match v {
        ValV::List(l) => {
            lemma_subst_list_fully(vars, l);
        },
        ValV::Executable(f, a) => {
            lemma_subst_list_fully(vars, a);
        },
        _ => {},
    }
}

pub proof fn lemma_subst_list_fully(vars: Map<Seq<char>, ValV>, l: Seq<ValV>)
    requires
        no_vars_list(l),
    ensures
        subst_list(vars, l) == Result::<Seq<ValV>, ErrV>::Ok(l),
    decreases l,
{
    if l.len() > 0 {
        let sub = l.subrange(0, l.len() - 1);
        lemma_subst_list_fully(vars, sub);
        lemma_subst_fully_substituted(vars, l[l.len() - 1]);
        assert(sub.push(l[l.len() - 1]) =~= l);
        assert(subst_list(vars, l) == Result::<Seq<ValV>, ErrV>::Ok(sub.push(l[l.len() - 1])));
        assert(subst_list(vars, l) == Result::<Seq<ValV>, ErrV>::Ok(l));
    } else {
        assert(l =~= Seq::<ValV>::empty());
    }
}

/// Evaluation order: in a call of `f` on two arguments, the first
/// argument's invocations come first, then the second's, and `f`
/// itself last — both arguments are fully evaluated before `f` runs.
/// (Stated for argument lists that evaluate without error and a bound
/// `f`; a failing argument cuts the trace short at the failure.)
pub proof fn lemma_evaluation_order(
    fns: Map<Seq<char>, NativeOp>,
    fm: FloatModel,
    f: Seq<char>,
    a: ValV,
    b: ValV,
)
    requires
        eval_spec(fns, fm, a).res is Ok,
        eval_spec(fns, fm, b).res is Ok,
        fns.contains_key(f),
    ensures
        eval_spec(fns, fm, ValV::Executable(f, seq![a, b])).trace == eval_spec(fns, fm, a).trace
            + eval_spec(fns, fm, b).trace + seq![f],
{
    let l = seq![a, b];
    let sub = l.subrange(0, 1);
    assert(sub.subrange(0, 0) =~= Seq::<ValV>::empty());
    assert(sub[0] == a);
    assert(l[1] == b);
    assert(eval_args(fns, fm, Seq::<ValV>::empty()).trace =~= Seq::<Seq<char>>::empty());
    assert(eval_args(fns, fm, sub).trace =~= eval_spec(fns, fm, a).trace);
    assert(eval_args(fns, fm, l).trace =~= eval_spec(fns, fm, a).trace + eval_spec(
        fns,
        fm,
        b,
    ).trace);
    assert(eval_spec(fns, fm, ValV::Executable(f, l)).trace =~= eval_args(fns, fm, l).trace.push(
        f,
    ));
    assert(eval_args(fns, fm, l).trace.push(f) =~= eval_spec(fns, fm, a).trace + eval_spec(
        fns,
        fm,
        b,
    ).trace + seq![f]);
}

} // verus!
