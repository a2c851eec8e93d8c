//! Compiling and running search conditions. Compilation specializes an
//! expression against the fixed search inputs: a binding call whose
//! arguments are constants folds to its value (`in`,
//! `in_freq_dist_error`), or to a bounds-free access (`out`,
//! `out_freq_dist_error`), and is rejected outright when its constant
//! indices can never be in range. What the compiled form computes is
//! exactly what the source expression computes, on every key.

use crate::arx::ARXCodecContext;
use crate::expr::{
    eval_spec,
    spec_bin_op,
    spec_cmp_op,
    spec_is_match,
    BinOp,
    CmpOp,
    EnvV,
    EvalError,
    Expr,
    Value,
    checked_tdiv,
    checked_tmod,
};
use crate::compare::bytes_eq;
use crate::messages::InterleavedMessageData;
use vstd::prelude::*;
use vstd::utf8::encode_utf8;

verus! {

/// Why a condition was rejected at compile time.
#[derive(Clone, Copy, PartialEq, Eq, Structural, Debug)]
pub enum PredicateError {
    /// The condition is not a well-typed number or truth value.
    BadExpressionType,
    /// The condition's text is not an expression of the language.
    SyntaxError,
    /// A call names no known binding.
    UnknownBinding,
    /// A binding call with constant arguments can never be in range.
    ConstantOutOfRange,
}

/// The environments a compilation is valid for: the inputs and
/// input-frequency errors it folded over, and any key's outputs, which
/// share the inputs' shape.
pub open spec fn env_ok(env: EnvV, ins: Seq<Seq<u8>>, in_errs: Seq<i64>, nlang: int) -> bool {
    &&& env.ins == ins
    &&& env.in_errs == in_errs
    &&& env.out_errs.len() == nlang
    &&& env.outs.len() == ins.len()
    &&& forall|m: int| 0 <= m < ins.len() ==> env.outs[m].len() == ins[m].len()
}

/// What compilation gives an expression: its specialized form, or
/// nothing when a binding call whose arguments fold to constants can
/// never be in range. Constant subexpressions fold; a binding call
/// whose folded arguments are literals becomes the unit it reads
/// (`in`, `in_freq_dist_error`), or a bounds-free access (`out`,
/// `out_freq_dist_error`).
pub open spec fn spec_compile(e: Expr, ins: Seq<Seq<u8>>, ierrs: Seq<i64>, nlang: int) -> Option<
    Expr,
>
    decreases e,
{
    match e {
        Expr::IntLit(v) => Some(Expr::IntLit(v)),
        Expr::TruthLit(b) => Some(Expr::TruthLit(b)),
        Expr::In(m, u) => match (
            spec_compile(*m, ins, ierrs, nlang),
            spec_compile(*u, ins, ierrs, nlang),
        ) {
            (Some(fm), Some(fu)) => match (fm, fu) {
                (Expr::IntLit(mv), Expr::IntLit(uv)) => if 0 <= mv && mv < ins.len() && 0 <= uv
                    && uv < ins[mv as int].len() {
                    Some(Expr::IntLit(ins[mv as int][uv as int] as i64))
                } else {
                    None
                },
                (fm2, fu2) => Some(Expr::In(Box::new(fm2), Box::new(fu2))),
            },
            _ => None,
        },
        Expr::Out(m, u) => match (
            spec_compile(*m, ins, ierrs, nlang),
            spec_compile(*u, ins, ierrs, nlang),
        ) {
            (Some(fm), Some(fu)) => match (fm, fu) {
                (Expr::IntLit(mv), Expr::IntLit(uv)) => if 0 <= mv && mv < ins.len() && 0 <= uv
                    && uv < ins[mv as int].len() {
                    Some(Expr::OutConst(mv as usize, uv as usize))
                } else {
                    None
                },
                (fm2, fu2) => Some(Expr::Out(Box::new(fm2), Box::new(fu2))),
            },
            _ => None,
        },
        Expr::OutConst(m, u) => Some(Expr::OutConst(m, u)),
        Expr::InFreqDistError(l) => match spec_compile(*l, ins, ierrs, nlang) {
            Some(fl) => match fl {
                Expr::IntLit(lv) => if 0 <= lv && lv < ierrs.len() {
                    Some(Expr::IntLit(ierrs[lv as int]))
                } else {
                    None
                },
                fl2 => Some(Expr::InFreqDistError(Box::new(fl2))),
            },
            None => None,
        },
        Expr::OutFreqDistError(l) => match spec_compile(*l, ins, ierrs, nlang) {
            Some(fl) => match fl {
                Expr::IntLit(lv) => if 0 <= lv && lv < nlang {
                    Some(Expr::OutFreqConst(lv as usize))
                } else {
                    None
                },
                fl2 => Some(Expr::OutFreqDistError(Box::new(fl2))),
            },
            None => None,
        },
        Expr::OutFreqConst(l) => Some(Expr::OutFreqConst(l)),
        Expr::Neg(a) => match spec_compile(*a, ins, ierrs, nlang) {
            Some(fa) => match fa {
                Expr::IntLit(v) => if i64::MIN <= -(v as int) <= i64::MAX {
                    Some(Expr::IntLit((-(v as int)) as i64))
                } else {
                    Some(Expr::Neg(Box::new(fa)))
                },
                fa2 => Some(Expr::Neg(Box::new(fa2))),
            },
            None => None,
        },
        Expr::Bin(op, a, b) => match (
            spec_compile(*a, ins, ierrs, nlang),
            spec_compile(*b, ins, ierrs, nlang),
        ) {
            (Some(fa), Some(fb)) => match (fa, fb) {
                (Expr::IntLit(va), Expr::IntLit(vb)) => match spec_bin_op(op, va, vb) {
                    Ok(Value::Int(v)) => Some(Expr::IntLit(v)),
                    _ => Some(
                        Expr::Bin(
                            op,
                            Box::new(Expr::IntLit(va)),
                            Box::new(Expr::IntLit(vb)),
                        ),
                    ),
                },
                (fa2, fb2) => Some(Expr::Bin(op, Box::new(fa2), Box::new(fb2))),
            },
            _ => None,
        },
        Expr::Cmp(op, a, b) => match (
            spec_compile(*a, ins, ierrs, nlang),
            spec_compile(*b, ins, ierrs, nlang),
        ) {
            (Some(fa), Some(fb)) => match (fa, fb) {
                (Expr::IntLit(va), Expr::IntLit(vb)) => Some(
                    Expr::TruthLit(spec_cmp_op(op, va, vb)),
                ),
                (fa2, fb2) => Some(Expr::Cmp(op, Box::new(fa2), Box::new(fb2))),
            },
            _ => None,
        },
        Expr::And(a, b) => match (
            spec_compile(*a, ins, ierrs, nlang),
            spec_compile(*b, ins, ierrs, nlang),
        ) {
            (Some(fa), Some(fb)) => match (fa, fb) {
                (Expr::TruthLit(false), _) => Some(Expr::TruthLit(false)),
                (Expr::TruthLit(true), Expr::TruthLit(vb)) => Some(Expr::TruthLit(vb)),
                (fa2, fb2) => Some(Expr::And(Box::new(fa2), Box::new(fb2))),
            },
            _ => None,
        },
        Expr::Or(a, b) => match (
            spec_compile(*a, ins, ierrs, nlang),
            spec_compile(*b, ins, ierrs, nlang),
        ) {
            (Some(fa), Some(fb)) => match (fa, fb) {
                (Expr::TruthLit(true), _) => Some(Expr::TruthLit(true)),
                (Expr::TruthLit(false), Expr::TruthLit(vb)) => Some(Expr::TruthLit(vb)),
                (fa2, fb2) => Some(Expr::Or(Box::new(fa2), Box::new(fb2))),
            },
            _ => None,
        },
        Expr::Not(a) => match spec_compile(*a, ins, ierrs, nlang) {
            Some(fa) => match fa {
                Expr::TruthLit(v) => Some(Expr::TruthLit(!v)),
                fa2 => Some(Expr::Not(Box::new(fa2))),
            },
            None => None,
        },
    }
}

/// Specialize a condition against the search inputs: exactly the
/// specialization `spec_compile` gives, failing exactly where it gives
/// nothing. The compiled expression computes exactly what the source
/// does, under every environment the compilation is valid for.
#[verifier::rlimit(100)]
pub fn compile_predicate(
    e: &Expr,
    messages: &InterleavedMessageData,
    in_errs: &Vec<i64>,
    language_count: usize,
) -> (r: Result<Expr, PredicateError>)
    requires
        messages.wf(),
        in_errs@.len() == language_count,
    ensures
        r matches Ok(ce) ==> spec_compile(*e, messages@, in_errs@, language_count as int) == Some(
            ce,
        ),
        r matches Err(err) ==> err is ConstantOutOfRange && spec_compile(
            *e,
            messages@,
            in_errs@,
            language_count as int,
        ) is None,
        r matches Ok(ce) ==> forall|env: EnvV|
            env_ok(env, messages@, in_errs@, language_count as int) ==> eval_spec(ce, env)
                == eval_spec(*e, env),
    decreases *e,
{
    let ghost ins = messages@;
    let ghost ierrs = in_errs@;
    let ghost nl = language_count as int;
    match e {
        Expr::IntLit(v) => Ok(Expr::IntLit(*v)),
        Expr::TruthLit(b) => Ok(Expr::TruthLit(*b)),
        Expr::In(m, u) => {
            let fm = compile_predicate(m, messages, in_errs, language_count)?;
            let fu = compile_predicate(u, messages, in_errs, language_count)?;
            if let (Expr::IntLit(mv), Expr::IntLit(uv)) = (&fm, &fu) {
                let mv = *mv;
                let uv = *uv;
                if mv < 0 || uv < 0 {
                    return Err(PredicateError::ConstantOutOfRange);
                }
                let mc = messages.get_message_count();
                if !((mv as u128) < (mc as u128)) {
                    return Err(PredicateError::ConstantOutOfRange);
                }
                let mi = mv as usize;
                let uc = messages.get_unit_count(mi);
                if !((uv as u128) < (uc as u128)) {
                    return Err(PredicateError::ConstantOutOfRange);
                }
                let b = messages.get_unit(mi, uv as usize);
                let res = Expr::IntLit(b as i64);
                proof {
                    assert forall|env: EnvV| env_ok(env, ins, ierrs, nl) implies eval_spec(
                        res,
                        env,
                    ) == eval_spec(*e, env) by {
                        assert(eval_spec(fm, env) == eval_spec(**m, env));
                        assert(eval_spec(fu, env) == eval_spec(**u, env));
                    }
                }
                Ok(res)
            } else {
                let ghost gfm = fm;
                let ghost gfu = fu;
                let res = Expr::In(Box::new(fm), Box::new(fu));
                proof {
                    assert forall|env: EnvV| env_ok(env, ins, ierrs, nl) implies eval_spec(
                        res,
                        env,
                    ) == eval_spec(*e, env) by {
                        assert(eval_spec(gfm, env) == eval_spec(**m, env));
                        assert(eval_spec(gfu, env) == eval_spec(**u, env));
                    }
                }
                Ok(res)
            }
        },
        Expr::Out(m, u) => {
            let fm = compile_predicate(m, messages, in_errs, language_count)?;
            let fu = compile_predicate(u, messages, in_errs, language_count)?;
            if let (Expr::IntLit(mv), Expr::IntLit(uv)) = (&fm, &fu) {
                let mv = *mv;
                let uv = *uv;
                if mv < 0 || uv < 0 {
                    return Err(PredicateError::ConstantOutOfRange);
                }
                let mc = messages.get_message_count();
                if !((mv as u128) < (mc as u128)) {
                    return Err(PredicateError::ConstantOutOfRange);
                }
                let mi = mv as usize;
                let uc = messages.get_unit_count(mi);
                if !((uv as u128) < (uc as u128)) {
                    return Err(PredicateError::ConstantOutOfRange);
                }
                let res = Expr::OutConst(mi, uv as usize);
                proof {
                    assert forall|env: EnvV| env_ok(env, ins, ierrs, nl) implies eval_spec(
                        res,
                        env,
                    ) == eval_spec(*e, env) by {
                        assert(eval_spec(fm, env) == eval_spec(**m, env));
                        assert(eval_spec(fu, env) == eval_spec(**u, env));
                        assert(env.outs[mi as int].len() == ins[mi as int].len());
                    }
                }
                Ok(res)
            } else {
                let ghost gfm = fm;
                let ghost gfu = fu;
                let res = Expr::Out(Box::new(fm), Box::new(fu));
                proof {
                    assert forall|env: EnvV| env_ok(env, ins, ierrs, nl) implies eval_spec(
                        res,
                        env,
                    ) == eval_spec(*e, env) by {
                        assert(eval_spec(gfm, env) == eval_spec(**m, env));
                        assert(eval_spec(gfu, env) == eval_spec(**u, env));
                    }
                }
                Ok(res)
            }
        },
        Expr::OutConst(m, u) => Ok(Expr::OutConst(*m, *u)),
        Expr::InFreqDistError(l) => {
            let fl = compile_predicate(l, messages, in_errs, language_count)?;
            if let Expr::IntLit(lv) = &fl {
                let lv = *lv;
                if lv < 0 || !((lv as u128) < (in_errs.len() as u128)) {
                    return Err(PredicateError::ConstantOutOfRange);
                }
                let res = Expr::IntLit(in_errs[lv as usize]);
                proof {
                    assert forall|env: EnvV| env_ok(env, ins, ierrs, nl) implies eval_spec(
                        res,
                        env,
                    ) == eval_spec(*e, env) by {
                        assert(eval_spec(fl, env) == eval_spec(**l, env));
                    }
                }
                Ok(res)
            } else {
                let ghost gfl = fl;
                let res = Expr::InFreqDistError(Box::new(fl));
                proof {
                    assert forall|env: EnvV| env_ok(env, ins, ierrs, nl) implies eval_spec(
                        res,
                        env,
                    ) == eval_spec(*e, env) by {
                        assert(eval_spec(gfl, env) == eval_spec(**l, env));
                    }
                }
                Ok(res)
            }
        },
        Expr::OutFreqDistError(l) => {
            let fl = compile_predicate(l, messages, in_errs, language_count)?;
            if let Expr::IntLit(lv) = &fl {
                let lv = *lv;
                if lv < 0 || !((lv as u128) < (language_count as u128)) {
                    return Err(PredicateError::ConstantOutOfRange);
                }
                let res = Expr::OutFreqConst(lv as usize);
                proof {
                    assert forall|env: EnvV| env_ok(env, ins, ierrs, nl) implies eval_spec(
                        res,
                        env,
                    ) == eval_spec(*e, env) by {
                        assert(eval_spec(fl, env) == eval_spec(**l, env));
                    }
                }
                Ok(res)
            } else {
                let ghost gfl = fl;
                let res = Expr::OutFreqDistError(Box::new(fl));
                proof {
                    assert forall|env: EnvV| env_ok(env, ins, ierrs, nl) implies eval_spec(
                        res,
                        env,
                    ) == eval_spec(*e, env) by {
                        assert(eval_spec(gfl, env) == eval_spec(**l, env));
                    }
                }
                Ok(res)
            }
        },
        Expr::OutFreqConst(l) => Ok(Expr::OutFreqConst(*l)),
        Expr::Neg(a) => {
            let fa = compile_predicate(a, messages, in_errs, language_count)?;
            let folded: Option<i64> = if let Expr::IntLit(v) = &fa {
                0i64.checked_sub(*v)
            } else {
                None
            };
            match folded {
                Some(n) => {
                    let res = Expr::IntLit(n);
                    proof {
                        assert forall|env: EnvV| env_ok(env, ins, ierrs, nl) implies eval_spec(
                            res,
                            env,
                        ) == eval_spec(*e, env) by {
                            assert(eval_spec(fa, env) == eval_spec(**a, env));
                        }
                    }
                    Ok(res)
                },
                None => {
                    let ghost gfa = fa;
                    let res = Expr::Neg(Box::new(fa));
                    proof {
                        assert forall|env: EnvV| env_ok(env, ins, ierrs, nl) implies eval_spec(
                            res,
                            env,
                        ) == eval_spec(*e, env) by {
                            assert(eval_spec(gfa, env) == eval_spec(**a, env));
                        }
                    }
                    Ok(res)
                },
            }
        },
        Expr::Bin(op, a, b) => {
            let fa = compile_predicate(a, messages, in_errs, language_count)?;
            let fb = compile_predicate(b, messages, in_errs, language_count)?;
            let folded: Option<i64> = if let (Expr::IntLit(va), Expr::IntLit(vb)) = (&fa, &fb) {
                match eval_bin_op(*op, *va, *vb) {
                    Ok(v) => Some(v),
                    Err(_) => None,
                }
            } else {
                None
            };
            match folded {
                Some(v) => {
                    let res = Expr::IntLit(v);
                    proof {
                        assert forall|env: EnvV| env_ok(env, ins, ierrs, nl) implies eval_spec(
                            res,
                            env,
                        ) == eval_spec(*e, env) by {
                            assert(eval_spec(fa, env) == eval_spec(**a, env));
                            assert(eval_spec(fb, env) == eval_spec(**b, env));
                        }
                    }
                    Ok(res)
                },
                None => {
                    let ghost gfa = fa;
                    let ghost gfb = fb;
                    let res = Expr::Bin(*op, Box::new(fa), Box::new(fb));
                    proof {
                        assert forall|env: EnvV| env_ok(env, ins, ierrs, nl) implies eval_spec(
                            res,
                            env,
                        ) == eval_spec(*e, env) by {
                            assert(eval_spec(gfa, env) == eval_spec(**a, env));
                            assert(eval_spec(gfb, env) == eval_spec(**b, env));
                        }
                    }
                    Ok(res)
                },
            }
        },
        Expr::Cmp(op, a, b) => {
            let fa = compile_predicate(a, messages, in_errs, language_count)?;
            let fb = compile_predicate(b, messages, in_errs, language_count)?;
            if let (Expr::IntLit(va), Expr::IntLit(vb)) = (&fa, &fb) {
                let res = Expr::TruthLit(eval_cmp_op(*op, *va, *vb));
                proof {
                    assert forall|env: EnvV| env_ok(env, ins, ierrs, nl) implies eval_spec(
                        res,
                        env,
                    ) == eval_spec(*e, env) by {
                        assert(eval_spec(fa, env) == eval_spec(**a, env));
                        assert(eval_spec(fb, env) == eval_spec(**b, env));
                    }
                }
                Ok(res)
            } else {
                let ghost gfa = fa;
                let ghost gfb = fb;
                let res = Expr::Cmp(*op, Box::new(fa), Box::new(fb));
                proof {
                    assert forall|env: EnvV| env_ok(env, ins, ierrs, nl) implies eval_spec(
                        res,
                        env,
                    ) == eval_spec(*e, env) by {
                        assert(eval_spec(gfa, env) == eval_spec(**a, env));
                        assert(eval_spec(gfb, env) == eval_spec(**b, env));
                    }
                }
                Ok(res)
            }
        },
        Expr::And(a, b) => {
            let fa = compile_predicate(a, messages, in_errs, language_count)?;
            let fb = compile_predicate(b, messages, in_errs, language_count)?;
            let lit: Option<bool> = match (&fa, &fb) {
                (Expr::TruthLit(false), _) => Some(false),
                (Expr::TruthLit(true), Expr::TruthLit(vb)) => Some(*vb),
                _ => None,
            };
            match lit {
                Some(v) => {
                    let res = Expr::TruthLit(v);
                    proof {
                        assert forall|env: EnvV| env_ok(env, ins, ierrs, nl) implies eval_spec(
                            res,
                            env,
                        ) == eval_spec(*e, env) by {
                            assert(eval_spec(fa, env) == eval_spec(**a, env));
                            assert(eval_spec(fb, env) == eval_spec(**b, env));
                        }
                    }
                    Ok(res)
                },
                None => {
                    let ghost gfa = fa;
                    let ghost gfb = fb;
                    let res = Expr::And(Box::new(fa), Box::new(fb));
                    proof {
                        assert forall|env: EnvV| env_ok(env, ins, ierrs, nl) implies eval_spec(
                            res,
                            env,
                        ) == eval_spec(*e, env) by {
                            assert(eval_spec(gfa, env) == eval_spec(**a, env));
                            assert(eval_spec(gfb, env) == eval_spec(**b, env));
                        }
                    }
                    Ok(res)
                },
            }
        },
        Expr::Or(a, b) => {
            let fa = compile_predicate(a, messages, in_errs, language_count)?;
            let fb = compile_predicate(b, messages, in_errs, language_count)?;
            let lit: Option<bool> = match (&fa, &fb) {
                (Expr::TruthLit(true), _) => Some(true),
                (Expr::TruthLit(false), Expr::TruthLit(vb)) => Some(*vb),
                _ => None,
            };
            match lit {
                Some(v) => {
                    let res = Expr::TruthLit(v);
                    proof {
                        assert forall|env: EnvV| env_ok(env, ins, ierrs, nl) implies eval_spec(
                            res,
                            env,
                        ) == eval_spec(*e, env) by {
                            assert(eval_spec(fa, env) == eval_spec(**a, env));
                            assert(eval_spec(fb, env) == eval_spec(**b, env));
                        }
                    }
                    Ok(res)
                },
                None => {
                    let ghost gfa = fa;
                    let ghost gfb = fb;
                    let res = Expr::Or(Box::new(fa), Box::new(fb));
                    proof {
                        assert forall|env: EnvV| env_ok(env, ins, ierrs, nl) implies eval_spec(
                            res,
                            env,
                        ) == eval_spec(*e, env) by {
                            assert(eval_spec(gfa, env) == eval_spec(**a, env));
                            assert(eval_spec(gfb, env) == eval_spec(**b, env));
                        }
                    }
                    Ok(res)
                },
            }
        },
        Expr::Not(a) => {
            let fa = compile_predicate(a, messages, in_errs, language_count)?;
            if let Expr::TruthLit(v) = &fa {
                let res = Expr::TruthLit(!*v);
                proof {
                    assert forall|env: EnvV| env_ok(env, ins, ierrs, nl) implies eval_spec(
                        res,
                        env,
                    ) == eval_spec(*e, env) by {
                        assert(eval_spec(fa, env) == eval_spec(**a, env));
                    }
                }
                Ok(res)
            } else {
                let ghost gfa = fa;
                let res = Expr::Not(Box::new(fa));
                proof {
                    assert forall|env: EnvV| env_ok(env, ins, ierrs, nl) implies eval_spec(
                        res,
                        env,
                    ) == eval_spec(*e, env) by {
                        assert(eval_spec(gfa, env) == eval_spec(**a, env));
                    }
                }
                Ok(res)
            }
        },
    }
}

/// One arithmetic step, executable form.
pub fn eval_bin_op(op: BinOp, a: i64, b: i64) -> (r: Result<i64, EvalError>)
    ensures
        match r {
            Ok(v) => crate::expr::spec_bin_op(op, a, b) == Ok::<Value, EvalError>(Value::Int(v)),
            Err(err) => crate::expr::spec_bin_op(op, a, b) == Err::<Value, EvalError>(err),
        },
{
    match op {
        BinOp::Add => match a.checked_add(b) {
            Some(v) => Ok(v),
            None => Err(EvalError::Overflow),
        },
        BinOp::Sub => match a.checked_sub(b) {
            Some(v) => Ok(v),
            None => Err(EvalError::Overflow),
        },
        BinOp::Mul => match a.checked_mul(b) {
            Some(v) => Ok(v),
            None => Err(EvalError::Overflow),
        },
        BinOp::Div => {
            if b == 0 {
                Err(EvalError::DivByZero)
            } else {
                match checked_tdiv(a, b) {
                    Some(v) => Ok(v),
                    None => Err(EvalError::Overflow),
                }
            }
        },
        BinOp::Mod => {
            if b == 0 {
                Err(EvalError::DivByZero)
            } else {
                Ok(checked_tmod(a, b))
            }
        },
    }
}

/// One comparison step, executable form.
pub fn eval_cmp_op(op: CmpOp, a: i64, b: i64) -> (r: bool)
    ensures
        r == crate::expr::spec_cmp_op(op, a, b),
{
    match op {
        CmpOp::Eq => a == b,
        CmpOp::Ne => a != b,
        CmpOp::Lt => a < b,
        CmpOp::Le => a <= b,
        CmpOp::Gt => a > b,
        CmpOp::Ge => a >= b,
    }
}

/// Evaluate a condition for one key: the codec context supplies the
/// outputs, the tables supply the frequency errors.
pub fn eval_expr<const DECRYPT: bool>(
    e: &Expr,
    codec: &ARXCodecContext<'_, DECRYPT>,
    in_errs: &Vec<i64>,
    out_errs: &Vec<i64>,
) -> (r: Result<Value, EvalError>)
    requires
        codec.wf(),
    ensures
        r == eval_spec(
            *e,
            EnvV {
                ins: codec.spec_input()@,
                outs: codec.spec_output(),
                in_errs: in_errs@,
                out_errs: out_errs@,
            },
        ),
    decreases *e,
{
    let ghost env = EnvV {
        ins: codec.spec_input()@,
        outs: codec.spec_output(),
        in_errs: in_errs@,
        out_errs: out_errs@,
    };
    match e {
        Expr::IntLit(v) => Ok(Value::Int(*v)),
        Expr::TruthLit(b) => Ok(Value::Truth(*b)),
        Expr::In(m, u) => {
            let mv = match eval_expr(m, codec, in_errs, out_errs)? {
                Value::Int(v) => v,
                Value::Truth(_) => {
                    return Err(EvalError::TypeMismatch);
                },
            };
            let uv = match eval_expr(u, codec, in_errs, out_errs)? {
                Value::Int(v) => v,
                Value::Truth(_) => {
                    return Err(EvalError::TypeMismatch);
                },
            };
            let mc = codec.get_input_messages().get_message_count();
            if mv < 0 || !((mv as u128) < (mc as u128)) {
                return Err(EvalError::OutOfBounds);
            }
            let mi = mv as usize;
            let uc = codec.get_input_messages().get_unit_count(mi);
            if uv < 0 || !((uv as u128) < (uc as u128)) {
                return Err(EvalError::OutOfBounds);
            }
            Ok(Value::Int(codec.get_input_messages().get_unit(mi, uv as usize) as i64))
        },
        Expr::Out(m, u) => {
            let mv = match eval_expr(m, codec, in_errs, out_errs)? {
                Value::Int(v) => v,
                Value::Truth(_) => {
                    return Err(EvalError::TypeMismatch);
                },
            };
            let uv = match eval_expr(u, codec, in_errs, out_errs)? {
                Value::Int(v) => v,
                Value::Truth(_) => {
                    return Err(EvalError::TypeMismatch);
                },
            };
            let mc = codec.get_input_messages().get_message_count();
            if mv < 0 || !((mv as u128) < (mc as u128)) {
                return Err(EvalError::OutOfBounds);
            }
            let mi = mv as usize;
            let uc = codec.get_input_messages().get_unit_count(mi);
            if uv < 0 || !((uv as u128) < (uc as u128)) {
                return Err(EvalError::OutOfBounds);
            }
            Ok(Value::Int(codec.get_output(mi, uv as usize) as i64))
        },
        Expr::OutConst(m, u) => {
            let mc = codec.get_input_messages().get_message_count();
            if !(*m < mc) {
                return Err(EvalError::OutOfBounds);
            }
            let uc = codec.get_input_messages().get_unit_count(*m);
            if !(*u < uc) {
                return Err(EvalError::OutOfBounds);
            }
            Ok(Value::Int(codec.get_output(*m, *u) as i64))
        },
        Expr::InFreqDistError(l) => {
            let lv = match eval_expr(l, codec, in_errs, out_errs)? {
                Value::Int(v) => v,
                Value::Truth(_) => {
                    return Err(EvalError::TypeMismatch);
                },
            };
            if lv < 0 || !((lv as u128) < (in_errs.len() as u128)) {
                return Err(EvalError::OutOfBounds);
            }
            Ok(Value::Int(in_errs[lv as usize]))
        },
        Expr::OutFreqDistError(l) => {
            let lv = match eval_expr(l, codec, in_errs, out_errs)? {
                Value::Int(v) => v,
                Value::Truth(_) => {
                    return Err(EvalError::TypeMismatch);
                },
            };
            if lv < 0 || !((lv as u128) < (out_errs.len() as u128)) {
                return Err(EvalError::OutOfBounds);
            }
            Ok(Value::Int(out_errs[lv as usize]))
        },
        Expr::OutFreqConst(l) => {
            if !(*l < out_errs.len()) {
                return Err(EvalError::OutOfBounds);
            }
            Ok(Value::Int(out_errs[*l]))
        },
        Expr::Neg(a) => {
            let v = match eval_expr(a, codec, in_errs, out_errs)? {
                Value::Int(v) => v,
                Value::Truth(_) => {
                    return Err(EvalError::TypeMismatch);
                },
            };
            match 0i64.checked_sub(v) {
                Some(n) => Ok(Value::Int(n)),
                None => Err(EvalError::Overflow),
            }
        },
        Expr::Bin(op, a, b) => {
            let va = match eval_expr(a, codec, in_errs, out_errs)? {
                Value::Int(v) => v,
                Value::Truth(_) => {
                    return Err(EvalError::TypeMismatch);
                },
            };
            let vb = match eval_expr(b, codec, in_errs, out_errs)? {
                Value::Int(v) => v,
                Value::Truth(_) => {
                    return Err(EvalError::TypeMismatch);
                },
            };
            match eval_bin_op(*op, va, vb) {
                Ok(v) => Ok(Value::Int(v)),
                Err(err) => Err(err),
            }
        },
        Expr::Cmp(op, a, b) => {
            let va = match eval_expr(a, codec, in_errs, out_errs)? {
                Value::Int(v) => v,
                Value::Truth(_) => {
                    return Err(EvalError::TypeMismatch);
                },
            };
            let vb = match eval_expr(b, codec, in_errs, out_errs)? {
                Value::Int(v) => v,
                Value::Truth(_) => {
                    return Err(EvalError::TypeMismatch);
                },
            };
            Ok(Value::Truth(eval_cmp_op(*op, va, vb)))
        },
        Expr::And(a, b) => {
            let va = match eval_expr(a, codec, in_errs, out_errs)? {
                Value::Truth(v) => v,
                Value::Int(_) => {
                    return Err(EvalError::TypeMismatch);
                },
            };
            if !va {
                return Ok(Value::Truth(false));
            }
            match eval_expr(b, codec, in_errs, out_errs)? {
                Value::Truth(vb) => Ok(Value::Truth(vb)),
                Value::Int(_) => Err(EvalError::TypeMismatch),
            }
        },
        Expr::Or(a, b) => {
            let va = match eval_expr(a, codec, in_errs, out_errs)? {
                Value::Truth(v) => v,
                Value::Int(_) => {
                    return Err(EvalError::TypeMismatch);
                },
            };
            if va {
                return Ok(Value::Truth(true));
            }
            match eval_expr(b, codec, in_errs, out_errs)? {
                Value::Truth(vb) => Ok(Value::Truth(vb)),
                Value::Int(_) => Err(EvalError::TypeMismatch),
            }
        },
        Expr::Not(a) => {
            match eval_expr(a, codec, in_errs, out_errs)? {
                Value::Truth(v) => Ok(Value::Truth(!v)),
                Value::Int(_) => Err(EvalError::TypeMismatch),
            }
        },
    }
}

/// Whether an evaluation outcome counts as a match, executable form.
pub fn is_match(r: &Result<Value, EvalError>) -> (m: Result<bool, EvalError>)
    ensures
        m == spec_is_match(*r),
{
    match r {
        Ok(Value::Int(v)) => Ok(*v > 0),
        Ok(Value::Truth(b)) => Ok(*b),
        Err(err) => Err(*err),
    }
}


/// One token of the condition language.
pub enum Token {
    Num(i64),
    BindIn,
    BindOut,
    BindInFreq,
    BindOutFreq,
    True,
    False,
    LPar,
    RPar,
    Comma,
    Plus,
    Minus,
    Star,
    Slash,
    Percent,
    EqEq,
    NotEq,
    Lt,
    Le,
    Gt,
    Ge,
    AndAnd,
    OrOr,
    Bang,
}

/// A byte the tokenizer skips.
pub open spec fn is_space_byte(b: u8) -> bool {
    b == 32 || b == 9 || b == 10 || b == 13
}

/// An ASCII digit.
pub open spec fn is_digit_byte(b: u8) -> bool {
    48 <= b <= 57
}

/// A byte that may start a word: a letter or an underscore.
pub open spec fn is_word_start_byte(b: u8) -> bool {
    (97 <= b <= 122) || (65 <= b <= 90) || b == 95
}

/// A byte that may continue a word.
pub open spec fn is_word_byte(b: u8) -> bool {
    is_word_start_byte(b) || is_digit_byte(b)
}

/// Where the digit run starting at `i` ends.
pub open spec fn digit_run_end(bytes: Seq<u8>, i: int) -> int
    decreases bytes.len() - i,
{
    if 0 <= i < bytes.len() && is_digit_byte(bytes[i]) {
        digit_run_end(bytes, i + 1)
    } else {
        i
    }
}

/// Where the word starting at `i` ends.
pub open spec fn word_run_end(bytes: Seq<u8>, i: int) -> int
    decreases bytes.len() - i,
{
    if 0 <= i < bytes.len() && is_word_byte(bytes[i]) {
        word_run_end(bytes, i + 1)
    } else {
        i
    }
}

/// The number the digits `bytes[i..j)` write in decimal.
pub open spec fn digits_value(bytes: Seq<u8>, i: int, j: int) -> int
    decreases j - i,
{
    if i >= j {
        0
    } else {
        digits_value(bytes, i, j - 1) * 10 + (bytes[j - 1] - 48)
    }
}

/// The token a word denotes, if it names a binding or a truth literal.
pub open spec fn spec_word_token(w: Seq<u8>) -> Option<Token> {
    if w == encode_utf8("in"@) {
        Some(Token::BindIn)
    } else if w == encode_utf8("out"@) {
        Some(Token::BindOut)
    } else if w == encode_utf8("in_freq_dist_error"@) {
        Some(Token::BindInFreq)
    } else if w == encode_utf8("out_freq_dist_error"@) {
        Some(Token::BindOutFreq)
    } else if w == encode_utf8("true"@) {
        Some(Token::True)
    } else if w == encode_utf8("false"@) {
        Some(Token::False)
    } else {
        None
    }
}

/// Prefix one token to a tokenization's outcome.
pub open spec fn tok_cons(t: Token, rest: Option<Seq<Token>>) -> Option<Seq<Token>> {
    match rest {
        None => None,
        Some(ts) => Some(seq![t] + ts),
    }
}

/// The tokens of the text from position `i` on, or nothing when an
/// unknown word, a number past the signed 64-bit range, or a stray
/// byte stops the scan.
pub open spec fn spec_tokenize_from(bytes: Seq<u8>, i: int) -> Option<Seq<Token>>
    decreases bytes.len() - i,
{
    if !(0 <= i < bytes.len()) {
        Some(Seq::empty())
    } else {
        let b = bytes[i];
        if is_space_byte(b) {
            spec_tokenize_from(bytes, i + 1)
        } else if is_digit_byte(b) {
            let j = digit_run_end(bytes, i);
            if !(i < j <= bytes.len()) {
                None
            } else if digits_value(bytes, i, j) > i64::MAX {
                None
            } else {
                tok_cons(
                    Token::Num(digits_value(bytes, i, j) as i64),
                    spec_tokenize_from(bytes, j),
                )
            }
        } else if is_word_start_byte(b) {
            let j = word_run_end(bytes, i);
            if !(i < j <= bytes.len()) {
                None
            } else {
                match spec_word_token(bytes.subrange(i, j)) {
                    None => None,
                    Some(t) => tok_cons(t, spec_tokenize_from(bytes, j)),
                }
            }
        } else if b == 40 {
            tok_cons(Token::LPar, spec_tokenize_from(bytes, i + 1))
        } else if b == 41 {
            tok_cons(Token::RPar, spec_tokenize_from(bytes, i + 1))
        } else if b == 44 {
            tok_cons(Token::Comma, spec_tokenize_from(bytes, i + 1))
        } else if b == 43 {
            tok_cons(Token::Plus, spec_tokenize_from(bytes, i + 1))
        } else if b == 45 {
            tok_cons(Token::Minus, spec_tokenize_from(bytes, i + 1))
        } else if b == 42 {
            tok_cons(Token::Star, spec_tokenize_from(bytes, i + 1))
        } else if b == 47 {
            tok_cons(Token::Slash, spec_tokenize_from(bytes, i + 1))
        } else if b == 37 {
            tok_cons(Token::Percent, spec_tokenize_from(bytes, i + 1))
        } else if b == 61 {
            if i + 1 < bytes.len() && bytes[i + 1] == 61 {
                tok_cons(Token::EqEq, spec_tokenize_from(bytes, i + 2))
            } else {
                None
            }
        } else if b == 33 {
            if i + 1 < bytes.len() && bytes[i + 1] == 61 {
                tok_cons(Token::NotEq, spec_tokenize_from(bytes, i + 2))
            } else {
                tok_cons(Token::Bang, spec_tokenize_from(bytes, i + 1))
            }
        } else if b == 60 {
            if i + 1 < bytes.len() && bytes[i + 1] == 61 {
                tok_cons(Token::Le, spec_tokenize_from(bytes, i + 2))
            } else {
                tok_cons(Token::Lt, spec_tokenize_from(bytes, i + 1))
            }
        } else if b == 62 {
            if i + 1 < bytes.len() && bytes[i + 1] == 61 {
                tok_cons(Token::Ge, spec_tokenize_from(bytes, i + 2))
            } else {
                tok_cons(Token::Gt, spec_tokenize_from(bytes, i + 1))
            }
        } else if b == 38 {
            if i + 1 < bytes.len() && bytes[i + 1] == 38 {
                tok_cons(Token::AndAnd, spec_tokenize_from(bytes, i + 2))
            } else {
                None
            }
        } else if b == 124 {
            if i + 1 < bytes.len() && bytes[i + 1] == 124 {
                tok_cons(Token::OrOr, spec_tokenize_from(bytes, i + 2))
            } else {
                None
            }
        } else {
            None
        }
    }
}

/// A digit run ends past its start, stays inside the text, covers only
/// digits, and stops at the first non-digit.
proof fn lemma_digit_run_end(bytes: Seq<u8>, i: int)
    requires
        0 <= i <= bytes.len(),
    ensures
        i <= digit_run_end(bytes, i) <= bytes.len(),
        forall|k: int| i <= k < digit_run_end(bytes, i) ==> is_digit_byte(#[trigger] bytes[k]),
        digit_run_end(bytes, i) < bytes.len() ==> !is_digit_byte(bytes[digit_run_end(bytes, i)]),
    decreases bytes.len() - i,
{
    if i < bytes.len() && is_digit_byte(bytes[i]) {
        lemma_digit_run_end(bytes, i + 1);
    }
}

/// Digits write a nonnegative number.
proof fn lemma_digits_value_nonneg(bytes: Seq<u8>, s: int, k: int)
    requires
        s <= k,
        forall|t: int| s <= t < k ==> is_digit_byte(#[trigger] bytes[t]),
    ensures
        digits_value(bytes, s, k) >= 0,
    decreases k - s,
{
    if s < k {
        lemma_digits_value_nonneg(bytes, s, k - 1);
        assert(digits_value(bytes, s, k - 1) * 10 >= 0) by (nonlinear_arith)
            requires
                digits_value(bytes, s, k - 1) >= 0,
        ;
    }
}

/// A decimal number only grows as digits are appended.
proof fn lemma_digits_value_mono(bytes: Seq<u8>, s: int, k: int, j: int)
    requires
        s <= k <= j,
        forall|t: int| s <= t < j ==> is_digit_byte(#[trigger] bytes[t]),
    ensures
        digits_value(bytes, s, k) <= digits_value(bytes, s, j),
    decreases j - k,
{
    if k < j {
        lemma_digits_value_mono(bytes, s, k, j - 1);
        lemma_digits_value_nonneg(bytes, s, j - 1);
        assert(digits_value(bytes, s, j - 1) * 10 >= digits_value(bytes, s, j - 1))
            by (nonlinear_arith)
            requires
                digits_value(bytes, s, j - 1) >= 0,
        ;
    }
}

/// Split a condition's text into tokens: exactly the tokens the
/// grammar gives the text. A word that names no binding is rejected;
/// a number past the signed 64-bit range is rejected.
fn tokenize(src: &str) -> (r: Result<Vec<Token>, PredicateError>)
    ensures
        match r {
            Ok(toks) => spec_tokenize_from(encode_utf8(src@), 0) == Some(toks@),
            Err(_) => spec_tokenize_from(encode_utf8(src@), 0) is None,
        },
{
    let bytes = src.as_bytes();
    let n = bytes.len();
    let mut toks: Vec<Token> = Vec::new();
    let mut i: usize = 0;
    proof {
        assert forall|ts: Seq<Token>| true implies Seq::<Token>::empty() + ts == ts by {
            assert(Seq::<Token>::empty() + ts =~= ts);
        }
    }
    while i < n
        invariant
            bytes@ == encode_utf8(src@),
            n == bytes@.len(),
            i <= n,
            spec_tokenize_from(bytes@, 0) == (match spec_tokenize_from(bytes@, i as int) {
                None => None::<Seq<Token>>,
                Some(tail) => Some(toks@ + tail),
            }),
        decreases n - i,
    {
        let b = bytes[i];
        if b == 32 || b == 9 || b == 10 || b == 13 {
            i = i + 1;
            continue ;
        }
        let (tok, next): (Token, usize) = if 48 <= b && b <= 57 {
            let start = i;
            let mut v: i64 = (b - 48) as i64;
            let mut k = i + 1;
            proof {
                assert(digit_run_end(bytes@, start as int) == digit_run_end(bytes@, start + 1));
                assert(digits_value(bytes@, start as int, start as int) == 0);
                assert(digits_value(bytes@, start as int, start + 1) == 0 * 10 + (
                bytes@[start as int] - 48));
            }
            while k < n && 48 <= bytes[k] && bytes[k] <= 57
                invariant
                    bytes@ == encode_utf8(src@),
                    n == bytes@.len(),
                    start < k <= n,
                    is_digit_byte(bytes@[start as int]),
                    0 <= v <= i64::MAX,
                    digit_run_end(bytes@, start as int) == digit_run_end(bytes@, k as int),
                    v == digits_value(bytes@, start as int, k as int),
                    spec_tokenize_from(bytes@, 0) == (match spec_tokenize_from(
                        bytes@,
                        start as int,
                    ) {
                        None => None::<Seq<Token>>,
                        Some(tail) => Some(toks@ + tail),
                    }),
                decreases n - k,
            {
                let d = (bytes[k] - 48) as i64;
                let ghost j = digit_run_end(bytes@, start as int);
                proof {
                    lemma_digit_run_end(bytes@, start as int);
                    lemma_digit_run_end(bytes@, k + 1);
                    assert(digit_run_end(bytes@, k as int) == digit_run_end(bytes@, k + 1));
                    assert(k + 1 <= j <= n);
                    assert(digits_value(bytes@, start as int, k + 1) == v * 10 + d);
                    lemma_digits_value_mono(bytes@, start as int, k + 1, j);
                }
                let v2 = match v.checked_mul(10) {
                    Some(v10) => match v10.checked_add(d) {
                        Some(v2) => v2,
                        None => {
                            proof {
                                assert(digits_value(bytes@, start as int, j) > i64::MAX);
                                assert(spec_tokenize_from(bytes@, start as int) is None);
                            }
                            return Err(PredicateError::SyntaxError);
                        },
                    },
                    None => {
                        proof {
                            assert(v * 10 > i64::MAX) by (nonlinear_arith)
                                requires
                                    v >= 0,
                                    !(i64::MIN <= v * 10 <= i64::MAX),
                            ;
                            assert(digits_value(bytes@, start as int, j) > i64::MAX);
                            assert(spec_tokenize_from(bytes@, start as int) is None);
                        }
                        return Err(PredicateError::SyntaxError);
                    },
                };
                v = v2;
                k = k + 1;
            }
            proof {
                assert(digit_run_end(bytes@, k as int) == k);
                assert(spec_tokenize_from(bytes@, start as int) == tok_cons(
                    Token::Num(v),
                    spec_tokenize_from(bytes@, k as int),
                ));
            }
            (Token::Num(v), k)
        } else if (97 <= b && b <= 122) || (65 <= b && b <= 90) || b == 95 {
            let start = i;
            let mut k = i + 1;
            proof {
                assert(is_word_byte(bytes@[start as int]));
                assert(word_run_end(bytes@, start as int) == word_run_end(bytes@, start + 1));
            }
            while k < n && ((97 <= bytes[k] && bytes[k] <= 122) || (65 <= bytes[k] && bytes[k]
                <= 90) || bytes[k] == 95 || (48 <= bytes[k] && bytes[k] <= 57))
                invariant
                    n == bytes@.len(),
                    start < k <= n,
                    is_word_start_byte(bytes@[start as int]),
                    word_run_end(bytes@, start as int) == word_run_end(bytes@, k as int),
                decreases n - k,
            {
                proof {
                    assert(word_run_end(bytes@, k as int) == word_run_end(bytes@, k + 1));
                }
                k = k + 1;
            }
            proof {
                assert(word_run_end(bytes@, k as int) == k);
            }
            let mut word: Vec<u8> = Vec::new();
            let mut t = start;
            while t < k
                invariant
                    start <= t <= k <= n,
                    n == bytes@.len(),
                    word@ == bytes@.subrange(start as int, t as int),
                decreases k - t,
            {
                word.push(bytes[t]);
                proof {
                    assert(bytes@.subrange(start as int, t + 1) =~= bytes@.subrange(
                        start as int,
                        t as int,
                    ).push(bytes@[t as int]));
                }
                t = t + 1;
            }
            let tok = if bytes_eq(word.as_slice(), "in".as_bytes()) {
                Token::BindIn
            } else if bytes_eq(word.as_slice(), "out".as_bytes()) {
                Token::BindOut
            } else if bytes_eq(word.as_slice(), "in_freq_dist_error".as_bytes()) {
                Token::BindInFreq
            } else if bytes_eq(word.as_slice(), "out_freq_dist_error".as_bytes()) {
                Token::BindOutFreq
            } else if bytes_eq(word.as_slice(), "true".as_bytes()) {
                Token::True
            } else if bytes_eq(word.as_slice(), "false".as_bytes()) {
                Token::False
            } else {
                proof {
                    assert(spec_word_token(bytes@.subrange(start as int, k as int)) is None);
                    assert(spec_tokenize_from(bytes@, start as int) is None);
                }
                return Err(PredicateError::UnknownBinding);
            };
            proof {
                assert(spec_word_token(bytes@.subrange(start as int, k as int)) == Some(tok));
                assert(spec_tokenize_from(bytes@, start as int) == tok_cons(
                    tok,
                    spec_tokenize_from(bytes@, k as int),
                ));
            }
            (tok, k)
        } else if b == 40 {
            (Token::LPar, i + 1)
        } else if b == 41 {
            (Token::RPar, i + 1)
        } else if b == 44 {
            (Token::Comma, i + 1)
        } else if b == 43 {
            (Token::Plus, i + 1)
        } else if b == 45 {
            (Token::Minus, i + 1)
        } else if b == 42 {
            (Token::Star, i + 1)
        } else if b == 47 {
            (Token::Slash, i + 1)
        } else if b == 37 {
            (Token::Percent, i + 1)
        } else if b == 61 {
            if i + 1 < n && bytes[i + 1] == 61 {
                (Token::EqEq, i + 2)
            } else {
                return Err(PredicateError::SyntaxError);
            }
        } else if b == 33 {
            if i + 1 < n && bytes[i + 1] == 61 {
                (Token::NotEq, i + 2)
            } else {
                (Token::Bang, i + 1)
            }
        } else if b == 60 {
            if i + 1 < n && bytes[i + 1] == 61 {
                (Token::Le, i + 2)
            } else {
                (Token::Lt, i + 1)
            }
        } else if b == 62 {
            if i + 1 < n && bytes[i + 1] == 61 {
                (Token::Ge, i + 2)
            } else {
                (Token::Gt, i + 1)
            }
        } else if b == 38 {
            if i + 1 < n && bytes[i + 1] == 38 {
                (Token::AndAnd, i + 2)
            } else {
                return Err(PredicateError::SyntaxError);
            }
        } else if b == 124 {
            if i + 1 < n && bytes[i + 1] == 124 {
                (Token::OrOr, i + 2)
            } else {
                return Err(PredicateError::SyntaxError);
            }
        } else {
            return Err(PredicateError::SyntaxError);
        };
        proof {
            assert(spec_tokenize_from(bytes@, i as int) == tok_cons(
                tok,
                spec_tokenize_from(bytes@, next as int),
            ));
        }
        let ghost prev = toks@;
        toks.push(tok);
        proof {
            assert forall|ts: Seq<Token>| true implies prev + (seq![tok] + ts) == toks@ + ts by {
                assert(prev + (seq![tok] + ts) =~= toks@ + ts);
            }
        }
        i = next;
    }
    proof {
        assert(toks@ + Seq::<Token>::empty() =~= toks@);
    }
    Ok(toks)
}

/// An arithmetic operator token of product precedence.
pub open spec fn mul_op_of(t: Token) -> Option<BinOp> {
    match t {
        Token::Star => Some(BinOp::Mul),
        Token::Slash => Some(BinOp::Div),
        Token::Percent => Some(BinOp::Mod),
        _ => None,
    }
}

/// An arithmetic operator token of sum precedence.
pub open spec fn add_op_of(t: Token) -> Option<BinOp> {
    match t {
        Token::Plus => Some(BinOp::Add),
        Token::Minus => Some(BinOp::Sub),
        _ => None,
    }
}

/// A comparison operator token.
pub open spec fn cmp_op_of(t: Token) -> Option<CmpOp> {
    match t {
        Token::EqEq => Some(CmpOp::Eq),
        Token::NotEq => Some(CmpOp::Ne),
        Token::Lt => Some(CmpOp::Lt),
        Token::Le => Some(CmpOp::Le),
        Token::Gt => Some(CmpOp::Gt),
        Token::Ge => Some(CmpOp::Ge),
        _ => None,
    }
}

/// A literal, a binding call or a parenthesized expression at `pos`:
/// the expression and the position after it.
pub open spec fn spec_parse_atom(toks: Seq<Token>, pos: int) -> Option<(Expr, int)>
    decreases toks.len() - pos, 0int,
{
    if !(0 <= pos < toks.len()) {
        None
    } else {
        match toks[pos] {
            Token::Num(v) => Some((Expr::IntLit(v), pos + 1)),
            Token::True => Some((Expr::TruthLit(true), pos + 1)),
            Token::False => Some((Expr::TruthLit(false), pos + 1)),
            Token::BindIn => match spec_parse_two_args(toks, pos + 1) {
                None => None,
                Some((m, u, p)) => Some((Expr::In(Box::new(m), Box::new(u)), p)),
            },
            Token::BindOut => match spec_parse_two_args(toks, pos + 1) {
                None => None,
                Some((m, u, p)) => Some((Expr::Out(Box::new(m), Box::new(u)), p)),
            },
            Token::BindInFreq => match spec_parse_one_arg(toks, pos + 1) {
                None => None,
                Some((l, p)) => Some((Expr::InFreqDistError(Box::new(l)), p)),
            },
            Token::BindOutFreq => match spec_parse_one_arg(toks, pos + 1) {
                None => None,
                Some((l, p)) => Some((Expr::OutFreqDistError(Box::new(l)), p)),
            },
            Token::LPar => match spec_parse_or(toks, pos + 1) {
                None => None,
                Some((e, p)) => if 0 <= p < toks.len() && toks[p] is RPar {
                    Some((e, p + 1))
                } else {
                    None
                },
            },
            _ => None,
        }
    }
}

/// A negation, a logical not, or an atom at `pos`.
pub open spec fn spec_parse_unary(toks: Seq<Token>, pos: int) -> Option<(Expr, int)>
    decreases toks.len() - pos, 1int,
{
    if 0 <= pos < toks.len() && toks[pos] is Minus {
        match spec_parse_unary(toks, pos + 1) {
            None => None,
            Some((e, p)) => Some((Expr::Neg(Box::new(e)), p)),
        }
    } else if 0 <= pos < toks.len() && toks[pos] is Bang {
        match spec_parse_unary(toks, pos + 1) {
            None => None,
            Some((e, p)) => Some((Expr::Not(Box::new(e)), p)),
        }
    } else {
        spec_parse_atom(toks, pos)
    }
}

/// A product at `pos`: unary operands under `*`, `/` and `%`, folded
/// left.
pub open spec fn spec_parse_term(toks: Seq<Token>, pos: int) -> Option<(Expr, int)>
    decreases toks.len() - pos, 2int,
{
    match spec_parse_unary(toks, pos) {
        None => None,
        Some((e, p)) => if pos < p <= toks.len() {
            spec_term_tail(toks, p, e)
        } else {
            None
        },
    }
}

/// Fold further `* rhs`, `/ rhs`, `% rhs` steps onto `e`.
pub open spec fn spec_term_tail(toks: Seq<Token>, pos: int, e: Expr) -> Option<(Expr, int)>
    decreases toks.len() - pos, 3int,
{
    if 0 <= pos < toks.len() && mul_op_of(toks[pos]) is Some {
        match spec_parse_unary(toks, pos + 1) {
            None => None,
            Some((rhs, p2)) => if pos + 1 < p2 <= toks.len() {
                spec_term_tail(
                    toks,
                    p2,
                    Expr::Bin(mul_op_of(toks[pos]).unwrap(), Box::new(e), Box::new(rhs)),
                )
            } else {
                None
            },
        }
    } else {
        Some((e, pos))
    }
}

/// A sum at `pos`: terms under `+` and `-`, folded left.
pub open spec fn spec_parse_sum(toks: Seq<Token>, pos: int) -> Option<(Expr, int)>
    decreases toks.len() - pos, 4int,
{
    match spec_parse_term(toks, pos) {
        None => None,
        Some((e, p)) => if pos < p <= toks.len() {
            spec_sum_tail(toks, p, e)
        } else {
            None
        },
    }
}

/// Fold further `+ rhs`, `- rhs` steps onto `e`.
pub open spec fn spec_sum_tail(toks: Seq<Token>, pos: int, e: Expr) -> Option<(Expr, int)>
    decreases toks.len() - pos, 5int,
{
    if 0 <= pos < toks.len() && add_op_of(toks[pos]) is Some {
        match spec_parse_term(toks, pos + 1) {
            None => None,
            Some((rhs, p2)) => if pos + 1 < p2 <= toks.len() {
                spec_sum_tail(
                    toks,
                    p2,
                    Expr::Bin(add_op_of(toks[pos]).unwrap(), Box::new(e), Box::new(rhs)),
                )
            } else {
                None
            },
        }
    } else {
        Some((e, pos))
    }
}

/// A comparison at `pos`: at most one comparison over two sums.
pub open spec fn spec_parse_cmp(toks: Seq<Token>, pos: int) -> Option<(Expr, int)>
    decreases toks.len() - pos, 6int,
{
    match spec_parse_sum(toks, pos) {
        None => None,
        Some((e, p)) => if !(pos < p <= toks.len()) {
            None
        } else if p < toks.len() && cmp_op_of(toks[p]) is Some {
            match spec_parse_sum(toks, p + 1) {
                None => None,
                Some((rhs, p2)) => Some(
                    (Expr::Cmp(cmp_op_of(toks[p]).unwrap(), Box::new(e), Box::new(rhs)), p2),
                ),
            }
        } else {
            Some((e, p))
        },
    }
}

/// A conjunction at `pos`: comparisons under `&&`, folded left.
pub open spec fn spec_parse_and(toks: Seq<Token>, pos: int) -> Option<(Expr, int)>
    decreases toks.len() - pos, 7int,
{
    match spec_parse_cmp(toks, pos) {
        None => None,
        Some((e, p)) => if pos < p <= toks.len() {
            spec_and_tail(toks, p, e)
        } else {
            None
        },
    }
}

/// Fold further `&& rhs` steps onto `e`.
pub open spec fn spec_and_tail(toks: Seq<Token>, pos: int, e: Expr) -> Option<(Expr, int)>
    decreases toks.len() - pos, 8int,
{
    if 0 <= pos < toks.len() && toks[pos] is AndAnd {
        match spec_parse_cmp(toks, pos + 1) {
            None => None,
            Some((rhs, p2)) => if pos + 1 < p2 <= toks.len() {
                spec_and_tail(toks, p2, Expr::And(Box::new(e), Box::new(rhs)))
            } else {
                None
            },
        }
    } else {
        Some((e, pos))
    }
}

/// A disjunction at `pos`: conjunctions under `||`, folded left. This
/// is the grammar's start symbol.
pub open spec fn spec_parse_or(toks: Seq<Token>, pos: int) -> Option<(Expr, int)>
    decreases toks.len() - pos, 9int,
{
    match spec_parse_and(toks, pos) {
        None => None,
        Some((e, p)) => if pos < p <= toks.len() {
            spec_or_tail(toks, p, e)
        } else {
            None
        },
    }
}

/// Fold further `|| rhs` steps onto `e`.
pub open spec fn spec_or_tail(toks: Seq<Token>, pos: int, e: Expr) -> Option<(Expr, int)>
    decreases toks.len() - pos, 10int,
{
    if 0 <= pos < toks.len() && toks[pos] is OrOr {
        match spec_parse_and(toks, pos + 1) {
            None => None,
            Some((rhs, p2)) => if pos + 1 < p2 <= toks.len() {
                spec_or_tail(toks, p2, Expr::Or(Box::new(e), Box::new(rhs)))
            } else {
                None
            },
        }
    } else {
        Some((e, pos))
    }
}

/// `( a , b )` after a two-argument binding name.
pub open spec fn spec_parse_two_args(toks: Seq<Token>, pos: int) -> Option<(Expr, Expr, int)>
    decreases toks.len() - pos, 11int,
{
    if 0 <= pos < toks.len() && toks[pos] is LPar {
        match spec_parse_or(toks, pos + 1) {
            None => None,
            Some((a, p1)) => if !(pos < p1 < toks.len()) || !(toks[p1] is Comma) {
                None
            } else {
                match spec_parse_or(toks, p1 + 1) {
                    None => None,
                    Some((b, p2)) => if 0 <= p2 < toks.len() && toks[p2] is RPar {
                        Some((a, b, p2 + 1))
                    } else {
                        None
                    },
                }
            },
        }
    } else {
        None
    }
}

/// `( a )` after a one-argument binding name.
pub open spec fn spec_parse_one_arg(toks: Seq<Token>, pos: int) -> Option<(Expr, int)>
    decreases toks.len() - pos, 11int,
{
    if 0 <= pos < toks.len() && toks[pos] is LPar {
        match spec_parse_or(toks, pos + 1) {
            None => None,
            Some((a, p1)) => if 0 <= p1 < toks.len() && toks[p1] is RPar {
                Some((a, p1 + 1))
            } else {
                None
            },
        }
    } else {
        None
    }
}

/// The condition a text denotes: its tokens parsed as one whole
/// expression of the grammar.
pub open spec fn spec_parse_condition(bytes: Seq<u8>) -> Option<Expr> {
    match spec_tokenize_from(bytes, 0) {
        None => None,
        Some(toks) => match spec_parse_or(toks, 0) {
            None => None,
            Some((e, p)) => if p == toks.len() {
                Some(e)
            } else {
                None
            },
        },
    }
}

/// Parse a disjunction: `a || b || ...`.
fn parse_or(toks: &Vec<Token>, pos: usize) -> (r: Result<(Expr, usize), PredicateError>)
    ensures
        r matches Ok((e, p)) ==> pos < p <= toks@.len() && spec_parse_or(toks@, pos as int)
            == Some((e, p as int)),
        r is Err ==> spec_parse_or(toks@, pos as int) is None,
    decreases toks@.len() - pos, 6int,
{
    let (mut e, mut p) = parse_and(toks, pos)?;
    loop
        invariant
            pos < p <= toks@.len(),
            spec_parse_or(toks@, pos as int) == spec_or_tail(toks@, p as int, e),
        decreases toks@.len() - p,
    {
        if p < toks.len() {
            if let Token::OrOr = toks[p] {
                let (rhs, p2) = parse_and(toks, p + 1)?;
                e = Expr::Or(Box::new(e), Box::new(rhs));
                p = p2;
                continue ;
            }
        }
        return Ok((e, p));
    }
}

/// Parse a conjunction: `a && b && ...`.
fn parse_and(toks: &Vec<Token>, pos: usize) -> (r: Result<(Expr, usize), PredicateError>)
    ensures
        r matches Ok((e, p)) ==> pos < p <= toks@.len() && spec_parse_and(toks@, pos as int)
            == Some((e, p as int)),
        r is Err ==> spec_parse_and(toks@, pos as int) is None,
    decreases toks@.len() - pos, 5int,
{
    let (mut e, mut p) = parse_cmp(toks, pos)?;
    loop
        invariant
            pos < p <= toks@.len(),
            spec_parse_and(toks@, pos as int) == spec_and_tail(toks@, p as int, e),
        decreases toks@.len() - p,
    {
        if p < toks.len() {
            if let Token::AndAnd = toks[p] {
                let (rhs, p2) = parse_cmp(toks, p + 1)?;
                e = Expr::And(Box::new(e), Box::new(rhs));
                p = p2;
                continue ;
            }
        }
        return Ok((e, p));
    }
}

/// Parse a comparison: `a == b`, `a < b` and the like, at most one.
fn parse_cmp(toks: &Vec<Token>, pos: usize) -> (r: Result<(Expr, usize), PredicateError>)
    ensures
        r matches Ok((e, p)) ==> pos < p <= toks@.len() && spec_parse_cmp(toks@, pos as int)
            == Some((e, p as int)),
        r is Err ==> spec_parse_cmp(toks@, pos as int) is None,
    decreases toks@.len() - pos, 4int,
{
    let (e, p) = parse_sum(toks, pos)?;
    if p < toks.len() {
        let op = match toks[p] {
            Token::EqEq => Some(CmpOp::Eq),
            Token::NotEq => Some(CmpOp::Ne),
            Token::Lt => Some(CmpOp::Lt),
            Token::Le => Some(CmpOp::Le),
            Token::Gt => Some(CmpOp::Gt),
            Token::Ge => Some(CmpOp::Ge),
            _ => None,
        };
        if let Some(op) = op {
            let (rhs, p2) = parse_sum(toks, p + 1)?;
            return Ok((Expr::Cmp(op, Box::new(e), Box::new(rhs)), p2));
        }
    }
    Ok((e, p))
}

/// Parse sums and differences.
fn parse_sum(toks: &Vec<Token>, pos: usize) -> (r: Result<(Expr, usize), PredicateError>)
    ensures
        r matches Ok((e, p)) ==> pos < p <= toks@.len() && spec_parse_sum(toks@, pos as int)
            == Some((e, p as int)),
        r is Err ==> spec_parse_sum(toks@, pos as int) is None,
    decreases toks@.len() - pos, 3int,
{
    let (mut e, mut p) = parse_term(toks, pos)?;
    loop
        invariant
            pos < p <= toks@.len(),
            spec_parse_sum(toks@, pos as int) == spec_sum_tail(toks@, p as int, e),
        decreases toks@.len() - p,
    {
        if p < toks.len() {
            let op = match toks[p] {
                Token::Plus => Some(BinOp::Add),
                Token::Minus => Some(BinOp::Sub),
                _ => None,
            };
            proof {
                assert(op == add_op_of(toks@[p as int]));
            }
            if let Some(op) = op {
                let (rhs, p2) = parse_term(toks, p + 1)?;
                e = Expr::Bin(op, Box::new(e), Box::new(rhs));
                p = p2;
                continue ;
            }
        }
        return Ok((e, p));
    }
}

/// Parse products, quotients and remainders.
fn parse_term(toks: &Vec<Token>, pos: usize) -> (r: Result<(Expr, usize), PredicateError>)
    ensures
        r matches Ok((e, p)) ==> pos < p <= toks@.len() && spec_parse_term(toks@, pos as int)
            == Some((e, p as int)),
        r is Err ==> spec_parse_term(toks@, pos as int) is None,
    decreases toks@.len() - pos, 2int,
{
    let (mut e, mut p) = parse_unary(toks, pos)?;
    loop
        invariant
            pos < p <= toks@.len(),
            spec_parse_term(toks@, pos as int) == spec_term_tail(toks@, p as int, e),
        decreases toks@.len() - p,
    {
        if p < toks.len() {
            let op = match toks[p] {
                Token::Star => Some(BinOp::Mul),
                Token::Slash => Some(BinOp::Div),
                Token::Percent => Some(BinOp::Mod),
                _ => None,
            };
            proof {
                assert(op == mul_op_of(toks@[p as int]));
            }
            if let Some(op) = op {
                let (rhs, p2) = parse_unary(toks, p + 1)?;
                e = Expr::Bin(op, Box::new(e), Box::new(rhs));
                p = p2;
                continue ;
            }
        }
        return Ok((e, p));
    }
}

/// Parse a negation, a logical not, or an atom.
fn parse_unary(toks: &Vec<Token>, pos: usize) -> (r: Result<(Expr, usize), PredicateError>)
    ensures
        r matches Ok((e, p)) ==> pos < p <= toks@.len() && spec_parse_unary(toks@, pos as int)
            == Some((e, p as int)),
        r is Err ==> spec_parse_unary(toks@, pos as int) is None,
    decreases toks@.len() - pos, 1int,
{
    if pos < toks.len() {
        if let Token::Minus = toks[pos] {
            let (e, p) = parse_unary(toks, pos + 1)?;
            return Ok((Expr::Neg(Box::new(e)), p));
        }
        if let Token::Bang = toks[pos] {
            let (e, p) = parse_unary(toks, pos + 1)?;
            return Ok((Expr::Not(Box::new(e)), p));
        }
    }
    parse_atom(toks, pos)
}

/// Parse a literal, a binding call or a parenthesized expression.
fn parse_atom(toks: &Vec<Token>, pos: usize) -> (r: Result<(Expr, usize), PredicateError>)
    ensures
        r matches Ok((e, p)) ==> pos < p <= toks@.len() && spec_parse_atom(toks@, pos as int)
            == Some((e, p as int)),
        r is Err ==> spec_parse_atom(toks@, pos as int) is None,
    decreases toks@.len() - pos, 0int,
{
    if pos >= toks.len() {
        return Err(PredicateError::SyntaxError);
    }
    match toks[pos] {
        Token::Num(v) => Ok((Expr::IntLit(v), pos + 1)),
        Token::True => Ok((Expr::TruthLit(true), pos + 1)),
        Token::False => Ok((Expr::TruthLit(false), pos + 1)),
        Token::BindIn => {
            let (m, u, p) = parse_two_args(toks, pos + 1)?;
            Ok((Expr::In(Box::new(m), Box::new(u)), p))
        },
        Token::BindOut => {
            let (m, u, p) = parse_two_args(toks, pos + 1)?;
            Ok((Expr::Out(Box::new(m), Box::new(u)), p))
        },
        Token::BindInFreq => {
            let (l, p) = parse_one_arg(toks, pos + 1)?;
            Ok((Expr::InFreqDistError(Box::new(l)), p))
        },
        Token::BindOutFreq => {
            let (l, p) = parse_one_arg(toks, pos + 1)?;
            Ok((Expr::OutFreqDistError(Box::new(l)), p))
        },
        Token::LPar => {
            let (e, p) = parse_or(toks, pos + 1)?;
            if p < toks.len() {
                if let Token::RPar = toks[p] {
                    return Ok((e, p + 1));
                }
            }
            Err(PredicateError::SyntaxError)
        },
        _ => Err(PredicateError::SyntaxError),
    }
}

/// Parse `( a , b )` after a two-argument binding name.
fn parse_two_args(toks: &Vec<Token>, pos: usize) -> (r: Result<
    (Expr, Expr, usize),
    PredicateError,
>)
    ensures
        r matches Ok((a, b, p)) ==> pos < p <= toks@.len() && spec_parse_two_args(
            toks@,
            pos as int,
        ) == Some((a, b, p as int)),
        r is Err ==> spec_parse_two_args(toks@, pos as int) is None,
    decreases toks@.len() - pos, 7int,
{
    if pos >= toks.len() {
        return Err(PredicateError::SyntaxError);
    }
    if let Token::LPar = toks[pos] {
        let (a, p1) = parse_or(toks, pos + 1)?;
        if p1 >= toks.len() {
            return Err(PredicateError::SyntaxError);
        }
        if let Token::Comma = toks[p1] {
            let (b, p2) = parse_or(toks, p1 + 1)?;
            if p2 < toks.len() {
                if let Token::RPar = toks[p2] {
                    return Ok((a, b, p2 + 1));
                }
            }
        }
        Err(PredicateError::SyntaxError)
    } else {
        Err(PredicateError::SyntaxError)
    }
}

/// Parse `( a )` after a one-argument binding name.
fn parse_one_arg(toks: &Vec<Token>, pos: usize) -> (r: Result<(Expr, usize), PredicateError>)
    ensures
        r matches Ok((a, p)) ==> pos < p <= toks@.len() && spec_parse_one_arg(toks@, pos as int)
            == Some((a, p as int)),
        r is Err ==> spec_parse_one_arg(toks@, pos as int) is None,
    decreases toks@.len() - pos, 7int,
{
    if pos >= toks.len() {
        return Err(PredicateError::SyntaxError);
    }
    if let Token::LPar = toks[pos] {
        let (a, p1) = parse_or(toks, pos + 1)?;
        if p1 < toks.len() {
            if let Token::RPar = toks[p1] {
                return Ok((a, p1 + 1));
            }
        }
        Err(PredicateError::SyntaxError)
    } else {
        Err(PredicateError::SyntaxError)
    }
}

/// The type an expression resolves to.
#[derive(Clone, Copy, PartialEq, Eq, Structural, Debug)]
pub enum ExprType {
    Number,
    TruthValue,
}

/// The type of a well-typed expression: bindings and arithmetic are
/// numbers over number operands; comparisons and logic are truth
/// values.
pub open spec fn spec_type_of(e: Expr) -> Option<ExprType>
    decreases e,
{
    match e {
        Expr::IntLit(_) => Some(ExprType::Number),
        Expr::TruthLit(_) => Some(ExprType::TruthValue),
        Expr::In(m, u) => two_number_args(spec_type_of(*m), spec_type_of(*u), ExprType::Number),
        Expr::Out(m, u) => two_number_args(spec_type_of(*m), spec_type_of(*u), ExprType::Number),
        Expr::OutConst(_, _) => Some(ExprType::Number),
        Expr::InFreqDistError(l) => one_number_arg(spec_type_of(*l), ExprType::Number),
        Expr::OutFreqDistError(l) => one_number_arg(spec_type_of(*l), ExprType::Number),
        Expr::OutFreqConst(_) => Some(ExprType::Number),
        Expr::Neg(a) => one_number_arg(spec_type_of(*a), ExprType::Number),
        Expr::Bin(_, a, b) => two_number_args(spec_type_of(*a), spec_type_of(*b), ExprType::Number),
        Expr::Cmp(_, a, b) => two_number_args(
            spec_type_of(*a),
            spec_type_of(*b),
            ExprType::TruthValue,
        ),
        Expr::And(a, b) => two_truth_args(spec_type_of(*a), spec_type_of(*b)),
        Expr::Or(a, b) => two_truth_args(spec_type_of(*a), spec_type_of(*b)),
        Expr::Not(a) => match spec_type_of(*a) {
            Some(ExprType::TruthValue) => Some(ExprType::TruthValue),
            _ => None,
        },
    }
}

pub open spec fn two_number_args(a: Option<ExprType>, b: Option<ExprType>, out: ExprType) -> Option<
    ExprType,
> {
    match (a, b) {
        (Some(ExprType::Number), Some(ExprType::Number)) => Some(out),
        _ => None,
    }
}

pub open spec fn one_number_arg(a: Option<ExprType>, out: ExprType) -> Option<ExprType> {
    match a {
        Some(ExprType::Number) => Some(out),
        _ => None,
    }
}

pub open spec fn two_truth_args(a: Option<ExprType>, b: Option<ExprType>) -> Option<ExprType> {
    match (a, b) {
        (Some(ExprType::TruthValue), Some(ExprType::TruthValue)) => Some(ExprType::TruthValue),
        _ => None,
    }
}

/// Resolve an expression's type, rejecting ill-typed ones.
pub fn type_of(e: &Expr) -> (r: Option<ExprType>)
    ensures
        r == spec_type_of(*e),
    decreases *e,
{
    match e {
        Expr::IntLit(_) => Some(ExprType::Number),
        Expr::TruthLit(_) => Some(ExprType::TruthValue),
        Expr::In(m, u) => check_two_number(type_of(m), type_of(u), ExprType::Number),
        Expr::Out(m, u) => check_two_number(type_of(m), type_of(u), ExprType::Number),
        Expr::OutConst(_, _) => Some(ExprType::Number),
        Expr::InFreqDistError(l) => check_one_number(type_of(l), ExprType::Number),
        Expr::OutFreqDistError(l) => check_one_number(type_of(l), ExprType::Number),
        Expr::OutFreqConst(_) => Some(ExprType::Number),
        Expr::Neg(a) => check_one_number(type_of(a), ExprType::Number),
        Expr::Bin(_, a, b) => check_two_number(type_of(a), type_of(b), ExprType::Number),
        Expr::Cmp(_, a, b) => check_two_number(type_of(a), type_of(b), ExprType::TruthValue),
        Expr::And(a, b) => check_two_truth(type_of(a), type_of(b)),
        Expr::Or(a, b) => check_two_truth(type_of(a), type_of(b)),
        Expr::Not(a) => match type_of(a) {
            Some(ExprType::TruthValue) => Some(ExprType::TruthValue),
            _ => None,
        },
    }
}

fn check_two_number(a: Option<ExprType>, b: Option<ExprType>, out: ExprType) -> (r: Option<
    ExprType,
>)
    ensures
        r == two_number_args(a, b, out),
{
    match (a, b) {
        (Some(ExprType::Number), Some(ExprType::Number)) => Some(out),
        _ => None,
    }
}

fn check_one_number(a: Option<ExprType>, out: ExprType) -> (r: Option<ExprType>)
    ensures
        r == one_number_arg(a, out),
{
    match a {
        Some(ExprType::Number) => Some(out),
        _ => None,
    }
}

fn check_two_truth(a: Option<ExprType>, b: Option<ExprType>) -> (r: Option<ExprType>)
    ensures
        r == two_truth_args(a, b),
{
    match (a, b) {
        (Some(ExprType::TruthValue), Some(ExprType::TruthValue)) => Some(ExprType::TruthValue),
        _ => None,
    }
}

/// A parsed, well-typed search condition.
pub struct UserCondition {
    expr: Expr,
}

impl UserCondition {
    /// The condition's expression.
    pub closed spec fn view(&self) -> Expr {
        self.expr
    }

    /// Parse and type-check a condition's text. The whole text must be
    /// one well-typed expression of the condition language: on success
    /// the condition is exactly what the grammar gives the text, and a
    /// rejection comes only of a text the grammar gives nothing, or an
    /// ill-typed expression.
    pub fn new(expr_str: &String) -> (r: Result<UserCondition, PredicateError>)
        ensures
            match r {
                Ok(c) => spec_parse_condition(encode_utf8(expr_str@)) == Some(c@) && spec_type_of(
                    c@,
                ) is Some,
                Err(_) => spec_parse_condition(encode_utf8(expr_str@)) is None || spec_type_of(
                    spec_parse_condition(encode_utf8(expr_str@)).unwrap(),
                ) is None,
            },
    {
        let toks = tokenize(expr_str.as_str())?;
        let (expr, p) = parse_or(&toks, 0)?;
        if p != toks.len() {
            return Err(PredicateError::SyntaxError);
        }
        match type_of(&expr) {
            Some(_) => Ok(UserCondition { expr }),
            None => Err(PredicateError::BadExpressionType),
        }
    }

    /// Take the expression out, for compilation.
    pub fn into_expr(self) -> (r: Expr)
        ensures
            r == self@,
    {
        self.expr
    }

    /// Whether the condition holds of one key's outputs.
    pub fn eval_condition<const DECRYPT: bool>(
        &self,
        codec: &ARXCodecContext<'_, DECRYPT>,
        in_errs: &Vec<i64>,
        out_errs: &Vec<i64>,
    ) -> (r: Result<bool, EvalError>)
        requires
            codec.wf(),
        ensures
            r == spec_is_match(
                eval_spec(
                    self@,
                    EnvV {
                        ins: codec.spec_input()@,
                        outs: codec.spec_output(),
                        in_errs: in_errs@,
                        out_errs: out_errs@,
                    },
                ),
            ),
    {
        let v = eval_expr(&self.expr, codec, in_errs, out_errs);
        is_match(&v)
    }
}

} // verus!
