//! The search-condition expression language. An expression computes a
//! number or a truth value from four bindings: `in(m, u)` and
//! `out(m, u)` read one unit of the input or of the cipher output under
//! the key being tried, and `in_freq_dist_error(l)` and
//! `out_freq_dist_error(l)` give the distance between a unit-frequency
//! distribution and registered language `l`, in fixed-point millionths
//! of a billionth-scale unit. A key matches when the expression comes
//! out as `true`, or as a number greater than zero.

use vstd::arithmetic::div_mod::lemma_small_mod;
use vstd::prelude::*;

verus! {

/// A value an expression step produces.
#[derive(Clone, Copy, PartialEq, Eq, Structural, Debug)]
pub enum Value {
    Int(i64),
    Truth(bool),
}

/// Why evaluation stopped.
#[derive(Clone, Copy, PartialEq, Eq, Structural, Debug)]
pub enum EvalError {
    /// An arithmetic result left the 64-bit signed range.
    Overflow,
    /// Division or remainder by zero.
    DivByZero,
    /// A binding index landed outside the data.
    OutOfBounds,
    /// A number met a truth value or the other way around.
    TypeMismatch,
}

/// Arithmetic operators, on numbers.
#[derive(Clone, Copy, PartialEq, Eq, Structural, Debug)]
pub enum BinOp {
    Add,
    Sub,
    Mul,
    Div,
    Mod,
}

/// Comparison operators, on numbers, giving truth values.
#[derive(Clone, Copy, PartialEq, Eq, Structural, Debug)]
pub enum CmpOp {
    Eq,
    Ne,
    Lt,
    Le,
    Gt,
    Ge,
}

/// An expression. `OutConst` and `OutFreqConst` are the compiler's
/// specialization of a binding call whose arguments were constants
/// proven in range: their evaluation skips the bounds test.
pub enum Expr {
    IntLit(i64),
    TruthLit(bool),
    In(Box<Expr>, Box<Expr>),
    Out(Box<Expr>, Box<Expr>),
    OutConst(usize, usize),
    InFreqDistError(Box<Expr>),
    OutFreqDistError(Box<Expr>),
    OutFreqConst(usize),
    Neg(Box<Expr>),
    Bin(BinOp, Box<Expr>, Box<Expr>),
    Cmp(CmpOp, Box<Expr>, Box<Expr>),
    And(Box<Expr>, Box<Expr>),
    Or(Box<Expr>, Box<Expr>),
    Not(Box<Expr>),
}

/// Everything evaluation reads: the input units, the output units
/// under the key being tried, and the two frequency-error tables.
pub struct EnvV {
    pub ins: Seq<Seq<u8>>,
    pub outs: Seq<Seq<u8>>,
    pub in_errs: Seq<i64>,
    pub out_errs: Seq<i64>,
}

pub open spec fn abs_int(a: int) -> int {
    if a < 0 {
        -a
    } else {
        a
    }
}

/// Truncating division, the semantics of the expression `/`.
pub open spec fn spec_tdiv(a: int, b: int) -> int {
    if (a < 0) != (b < 0) {
        -(abs_int(a) / abs_int(b))
    } else {
        abs_int(a) / abs_int(b)
    }
}

/// Truncating remainder, the semantics of the expression `%`: it
/// carries the sign of the left operand.
pub open spec fn spec_tmod(a: int, b: int) -> int {
    if a < 0 {
        -(abs_int(a) % abs_int(b))
    } else {
        abs_int(a) % abs_int(b)
    }
}

/// An integer result, or overflow when it leaves the signed 64-bit
/// range.
pub open spec fn int_result(v: int) -> Result<Value, EvalError> {
    if i64::MIN <= v <= i64::MAX {
        Ok(Value::Int(v as i64))
    } else {
        Err(EvalError::Overflow)
    }
}

/// What an arithmetic operator gives on two numbers.
pub open spec fn spec_bin_op(op: BinOp, a: i64, b: i64) -> Result<Value, EvalError> {
    match op {
        BinOp::Add => int_result(a + b),
        BinOp::Sub => int_result(a - b),
        BinOp::Mul => int_result(a * b),
        BinOp::Div => if b == 0 {
            Err(EvalError::DivByZero)
        } else {
            int_result(spec_tdiv(a as int, b as int))
        },
        BinOp::Mod => if b == 0 {
            Err(EvalError::DivByZero)
        } else {
            int_result(spec_tmod(a as int, b as int))
        },
    }
}

/// What a comparison gives on two numbers.
pub open spec fn spec_cmp_op(op: CmpOp, a: i64, b: i64) -> bool {
    match op {
        CmpOp::Eq => a == b,
        CmpOp::Ne => a != b,
        CmpOp::Lt => a < b,
        CmpOp::Le => a <= b,
        CmpOp::Gt => a > b,
        CmpOp::Ge => a >= b,
    }
}

/// What an expression evaluates to under an environment. Operands are
/// evaluated left to right; `&&` and `||` short-circuit; a binding
/// whose index is no number is a type mismatch, one whose index lies
/// outside the data is out of bounds.
pub open spec fn eval_spec(e: Expr, env: EnvV) -> Result<Value, EvalError>
    decreases e,
{
    match e {
        Expr::IntLit(v) => Ok(Value::Int(v)),
        Expr::TruthLit(b) => Ok(Value::Truth(b)),
        Expr::In(m, u) => eval_index2(eval_spec(*m, env), eval_spec(*u, env), env.ins),
        Expr::Out(m, u) => eval_index2(eval_spec(*m, env), eval_spec(*u, env), env.outs),
        Expr::OutConst(m, u) => if m < env.outs.len() && u < env.outs[m as int].len() {
            Ok(Value::Int(env.outs[m as int][u as int] as i64))
        } else {
            Err(EvalError::OutOfBounds)
        },
        Expr::InFreqDistError(l) => eval_index1(eval_spec(*l, env), env.in_errs),
        Expr::OutFreqDistError(l) => eval_index1(eval_spec(*l, env), env.out_errs),
        Expr::OutFreqConst(l) => if l < env.out_errs.len() {
            Ok(Value::Int(env.out_errs[l as int]))
        } else {
            Err(EvalError::OutOfBounds)
        },
        Expr::Neg(a) => match eval_spec(*a, env) {
            Ok(Value::Int(v)) => int_result(-(v as int)),
            Ok(Value::Truth(_)) => Err(EvalError::TypeMismatch),
            Err(err) => Err(err),
        },
        Expr::Bin(op, a, b) => match eval_spec(*a, env) {
            Ok(Value::Int(va)) => match eval_spec(*b, env) {
                Ok(Value::Int(vb)) => spec_bin_op(op, va, vb),
                Ok(Value::Truth(_)) => Err(EvalError::TypeMismatch),
                Err(err) => Err(err),
            },
            Ok(Value::Truth(_)) => Err(EvalError::TypeMismatch),
            Err(err) => Err(err),
        },
        Expr::Cmp(op, a, b) => match eval_spec(*a, env) {
            Ok(Value::Int(va)) => match eval_spec(*b, env) {
                Ok(Value::Int(vb)) => Ok(Value::Truth(spec_cmp_op(op, va, vb))),
                Ok(Value::Truth(_)) => Err(EvalError::TypeMismatch),
                Err(err) => Err(err),
            },
            Ok(Value::Truth(_)) => Err(EvalError::TypeMismatch),
            Err(err) => Err(err),
        },
        Expr::And(a, b) => match eval_spec(*a, env) {
            Ok(Value::Truth(false)) => Ok(Value::Truth(false)),
            Ok(Value::Truth(true)) => match eval_spec(*b, env) {
                Ok(Value::Truth(vb)) => Ok(Value::Truth(vb)),
                Ok(Value::Int(_)) => Err(EvalError::TypeMismatch),
                Err(err) => Err(err),
            },
            Ok(Value::Int(_)) => Err(EvalError::TypeMismatch),
            Err(err) => Err(err),
        },
        Expr::Or(a, b) => match eval_spec(*a, env) {
            Ok(Value::Truth(true)) => Ok(Value::Truth(true)),
            Ok(Value::Truth(false)) => match eval_spec(*b, env) {
                Ok(Value::Truth(vb)) => Ok(Value::Truth(vb)),
                Ok(Value::Int(_)) => Err(EvalError::TypeMismatch),
                Err(err) => Err(err),
            },
            Ok(Value::Int(_)) => Err(EvalError::TypeMismatch),
            Err(err) => Err(err),
        },
        Expr::Not(a) => match eval_spec(*a, env) {
            Ok(Value::Truth(v)) => Ok(Value::Truth(!v)),
            Ok(Value::Int(_)) => Err(EvalError::TypeMismatch),
            Err(err) => Err(err),
        },
    }
}

/// Index a two-level table with two evaluated operands.
pub open spec fn eval_index2(
    m: Result<Value, EvalError>,
    u: Result<Value, EvalError>,
    table: Seq<Seq<u8>>,
) -> Result<Value, EvalError> {
    match m {
        Ok(Value::Int(mv)) => match u {
            Ok(Value::Int(uv)) => if 0 <= mv < table.len() && 0 <= uv < table[mv as int].len() {
                Ok(Value::Int(table[mv as int][uv as int] as i64))
            } else {
                Err(EvalError::OutOfBounds)
            },
            Ok(Value::Truth(_)) => Err(EvalError::TypeMismatch),
            Err(err) => Err(err),
        },
        Ok(Value::Truth(_)) => Err(EvalError::TypeMismatch),
        Err(err) => Err(err),
    }
}

/// Index a table with one evaluated operand.
pub open spec fn eval_index1(l: Result<Value, EvalError>, table: Seq<i64>) -> Result<
    Value,
    EvalError,
> {
    match l {
        Ok(Value::Int(lv)) => if 0 <= lv < table.len() {
            Ok(Value::Int(table[lv as int]))
        } else {
            Err(EvalError::OutOfBounds)
        },
        Ok(Value::Truth(_)) => Err(EvalError::TypeMismatch),
        Err(err) => Err(err),
    }
}

/// Whether an evaluation outcome counts as a match: `true`, or a
/// number greater than zero.
pub open spec fn spec_is_match(r: Result<Value, EvalError>) -> Result<bool, EvalError> {
    match r {
        Ok(Value::Int(v)) => Ok(v > 0),
        Ok(Value::Truth(b)) => Ok(b),
        Err(err) => Err(err),
    }
}

/// Truncating division, executable form; `None` is overflow.
pub fn checked_tdiv(a: i64, b: i64) -> (r: Option<i64>)
    requires
        b != 0,
    ensures
        match r {
            Some(q) => q == spec_tdiv(a as int, b as int),
            None => !(i64::MIN <= spec_tdiv(a as int, b as int) <= i64::MAX),
        },
{
    let abs_a: u64 = if a >= 0 {
        a as u64
    } else {
        ((-1 - a) as u64) + 1
    };
    let abs_b: u64 = if b >= 0 {
        b as u64
    } else {
        ((-1 - b) as u64) + 1
    };
    let q0: u64 = abs_a / abs_b;
    if (a < 0) != (b < 0) {
        if q0 > 0x8000_0000_0000_0000 {
            None
        } else if q0 == 0x8000_0000_0000_0000 {
            Some(i64::MIN)
        } else {
            Some(-(q0 as i64))
        }
    } else {
        if q0 > i64::MAX as u64 {
            None
        } else {
            Some(q0 as i64)
        }
    }
}

/// Truncating remainder, executable form; it always fits.
pub fn checked_tmod(a: i64, b: i64) -> (r: i64)
    requires
        b != 0,
    ensures
        r == spec_tmod(a as int, b as int),
{
    let abs_a: u64 = if a >= 0 {
        a as u64
    } else {
        ((-1 - a) as u64) + 1
    };
    let abs_b: u64 = if b >= 0 {
        b as u64
    } else {
        ((-1 - b) as u64) + 1
    };
    let r0: u64 = abs_a % abs_b;
    proof {
        if abs_a < abs_b {
            lemma_small_mod(abs_a as nat, abs_b as nat);
        }
        assert(r0 <= abs_a);
    }
    if a < 0 {
        if r0 == 0x8000_0000_0000_0000 {
            i64::MIN
        } else {
            -(r0 as i64)
        }
    } else {
        r0 as i64
    }
}


/// Whether an expression ever reads the per-key output-frequency
/// table.
pub open spec fn spec_uses_out_freq(e: Expr) -> bool
    decreases e,
{
    match e {
        Expr::IntLit(_) => false,
        Expr::TruthLit(_) => false,
        Expr::In(m, u) => spec_uses_out_freq(*m) || spec_uses_out_freq(*u),
        Expr::Out(m, u) => spec_uses_out_freq(*m) || spec_uses_out_freq(*u),
        Expr::OutConst(_, _) => false,
        Expr::InFreqDistError(l) => spec_uses_out_freq(*l),
        Expr::OutFreqDistError(_) => true,
        Expr::OutFreqConst(_) => true,
        Expr::Neg(a) => spec_uses_out_freq(*a),
        Expr::Bin(_, a, b) => spec_uses_out_freq(*a) || spec_uses_out_freq(*b),
        Expr::Cmp(_, a, b) => spec_uses_out_freq(*a) || spec_uses_out_freq(*b),
        Expr::And(a, b) => spec_uses_out_freq(*a) || spec_uses_out_freq(*b),
        Expr::Or(a, b) => spec_uses_out_freq(*a) || spec_uses_out_freq(*b),
        Expr::Not(a) => spec_uses_out_freq(*a),
    }
}

/// Whether an expression reads the output-frequency table, executable
/// form.
pub fn uses_out_freq(e: &Expr) -> (r: bool)
    ensures
        r == spec_uses_out_freq(*e),
    decreases *e,
{
    match e {
        Expr::IntLit(_) => false,
        Expr::TruthLit(_) => false,
        Expr::In(m, u) => uses_out_freq(m) || uses_out_freq(u),
        Expr::Out(m, u) => uses_out_freq(m) || uses_out_freq(u),
        Expr::OutConst(_, _) => false,
        Expr::InFreqDistError(l) => uses_out_freq(l),
        Expr::OutFreqDistError(_) => true,
        Expr::OutFreqConst(_) => true,
        Expr::Neg(a) => uses_out_freq(a),
        Expr::Bin(_, a, b) => uses_out_freq(a) || uses_out_freq(b),
        Expr::Cmp(_, a, b) => uses_out_freq(a) || uses_out_freq(b),
        Expr::And(a, b) => uses_out_freq(a) || uses_out_freq(b),
        Expr::Or(a, b) => uses_out_freq(a) || uses_out_freq(b),
        Expr::Not(a) => uses_out_freq(a),
    }
}

/// An expression that never reads the output-frequency table computes
/// the same thing whatever that table holds.
pub proof fn lemma_out_errs_irrelevant(e: Expr, env1: EnvV, env2: EnvV)
    requires
        !spec_uses_out_freq(e),
        env1.ins == env2.ins,
        env1.outs == env2.outs,
        env1.in_errs == env2.in_errs,
    ensures
        eval_spec(e, env1) == eval_spec(e, env2),
    decreases e,
{
    match e {
        Expr::IntLit(_) => {},
        Expr::TruthLit(_) => {},
        Expr::In(m, u) => {
            lemma_out_errs_irrelevant(*m, env1, env2);
            lemma_out_errs_irrelevant(*u, env1, env2);
        },
        Expr::Out(m, u) => {
            lemma_out_errs_irrelevant(*m, env1, env2);
            lemma_out_errs_irrelevant(*u, env1, env2);
        },
        Expr::OutConst(_, _) => {},
        Expr::InFreqDistError(l) => {
            lemma_out_errs_irrelevant(*l, env1, env2);
        },
        Expr::OutFreqDistError(_) => {},
        Expr::OutFreqConst(_) => {},
        Expr::Neg(a) => {
            lemma_out_errs_irrelevant(*a, env1, env2);
        },
        Expr::Bin(_, a, b) => {
            lemma_out_errs_irrelevant(*a, env1, env2);
            lemma_out_errs_irrelevant(*b, env1, env2);
        },
        Expr::Cmp(_, a, b) => {
            lemma_out_errs_irrelevant(*a, env1, env2);
            lemma_out_errs_irrelevant(*b, env1, env2);
        },
        Expr::And(a, b) => {
            lemma_out_errs_irrelevant(*a, env1, env2);
            lemma_out_errs_irrelevant(*b, env1, env2);
        },
        Expr::Or(a, b) => {
            lemma_out_errs_irrelevant(*a, env1, env2);
            lemma_out_errs_irrelevant(*b, env1, env2);
        },
        Expr::Not(a) => {
            lemma_out_errs_irrelevant(*a, env1, env2);
        },
    }
}

} // verus!
