//! The strict recursive evaluator over arena trees.
//!
//! The ghost function `eval_spec` says what evaluation means on the
//! mathematical tree shapes; the executable `eval` walks the arena and is
//! proved to return an index spelling out exactly that result (or the
//! matching error). Arithmetic follows the machine's fixed-width signed
//! semantics: wraparound on overflow, truncating division, a remainder that
//! matches the division, and an explicit error on division by zero.

use vstd::math::abs;
use vstd::prelude::*;
use vstd::wrapping::i32_specs;

use crate::arena::CellStorage;
use crate::cell::{CellType, NIL_INDEX};
use crate::env::{DefaultNS, Env};
use crate::sexp::{
    free_slots, lemma_dom_live, lemma_no_overlap_frame, lemma_no_overlap_frame_live,
    head_index, lemma_repr_frame, lemma_repr_frame_live, lemma_repr_shape, lemma_repr_unique,
    lemma_subtree_dom, no_overlap, pair_head, pair_tail, repr, syms_ok, tree_dom, tree_size,
    SExp,
};

verus! {

/// Why evaluation of an expression fails. Every variant is recoverable: the
/// session goes on with the next input.
#[derive(Copy, Clone, Debug, PartialEq, Eq, Structural)]
pub enum EvalError {
    /// The head of the expression is not a symbol.
    IllegalOperator,
    /// A unary operator applied to anything but exactly one operand.
    NonUnary,
    /// `hd`/`tl` on an operand that did not evaluate to a pair; carries the
    /// offending expression's index.
    NotCons(usize),
    /// A binary operator applied to anything but exactly two operands.
    NonBinary,
    /// An arithmetic operand that did not evaluate to a number.
    NonNumeric,
    /// A symbol in operator position that names no built-in operator.
    UnknownOperator(usize),
    /// Division or remainder by zero.
    DivisionByZero,
    /// The arena ran out of free cells while building the result.
    OutOfCells,
}

/// The ghost mirror of `EvalError`, carrying tree shapes instead of arena
/// indices. Capacity exhaustion has no mirror: the ghost evaluator works on
/// shapes, which no arena bounds.
pub enum EvalFault {
    IllegalOperator,
    NonUnary,
    NotCons(SExp),
    NonBinary,
    NonNumeric,
    UnknownOperator(usize),
    DivisionByZero,
}

/// The exec error matches the ghost fault; `NotCons` must carry an index
/// that spells out the offending shape.
pub open spec fn fault_matches(err: EvalError, f: EvalFault, cells: Seq<crate::cell::Cell>) -> bool {
    match f {
        EvalFault::IllegalOperator => err == EvalError::IllegalOperator,
        EvalFault::NonUnary => err == EvalError::NonUnary,
        EvalFault::NotCons(e) => err matches EvalError::NotCons(i) && repr(cells, i as int, e),
        EvalFault::NonBinary => err == EvalError::NonBinary,
        EvalFault::NonNumeric => err == EvalError::NonNumeric,
        EvalFault::UnknownOperator(s) => err == EvalError::UnknownOperator(s),
        EvalFault::DivisionByZero => err == EvalError::DivisionByZero,
    }
}

/// Truncating division with the machine's wraparound: the magnitudes divide,
/// the signs combine, and the one overflowing quotient wraps.
pub open spec fn div_trunc_spec(a: i32, b: i32) -> i32 {
    let q = if (a < 0) == (b < 0) {
        (abs(a as int) / abs(b as int)) as int
    } else {
        -((abs(a as int) / abs(b as int)) as int)
    };
    i32_specs::signed_crop(q)
}

/// The remainder matching `div_trunc_spec`: it satisfies
/// `a == q * b + r` with the sign of `a` and magnitude below `b`'s.
pub open spec fn mod_trunc_spec(a: i32, b: i32) -> i32 {
    let q = if (a < 0) == (b < 0) {
        (abs(a as int) / abs(b as int)) as int
    } else {
        -((abs(a as int) / abs(b as int)) as int)
    };
    (a - q * b) as i32
}

/// What one arithmetic operator returns on two numbers, or why it cannot.
pub open spec fn apply_arith(op: usize, ns: DefaultNS, a: i32, b: i32) -> Result<i32, EvalFault> {
    if op == ns.add {
        Ok(i32_specs::wrapping_add(a, b))
    } else if op == ns.sub {
        Ok(i32_specs::wrapping_sub(a, b))
    } else if op == ns.mul {
        Ok(i32_specs::wrapping_mul(a, b))
    } else if b == 0 {
        Err(EvalFault::DivisionByZero)
    } else if op == ns.div {
        Ok(div_trunc_spec(a, b))
    } else {
        Ok(mod_trunc_spec(a, b))
    }
}

/// The expression is a unary application: operator plus exactly one operand.
pub open spec fn unary_shape(e: SExp) -> bool {
    match e {
        SExp::Pair(_, t) => match *t {
            SExp::Pair(_, u) => *u is Nil,
            _ => false,
        },
        _ => false,
    }
}

/// The expression is a binary application: operator plus exactly two
/// operands.
pub open spec fn binary_shape(e: SExp) -> bool {
    match e {
        SExp::Pair(_, t) => match *t {
            SExp::Pair(_, u) => match *u {
                SExp::Pair(_, v) => *v is Nil,
                _ => false,
            },
            _ => false,
        },
        _ => false,
    }
}

/// The single operand of a unary application.
pub open spec fn unary_arg(e: SExp) -> SExp {
    match e {
        SExp::Pair(_, t) => match *t {
            SExp::Pair(a, _) => *a,
            _ => SExp::Nil,
        },
        _ => SExp::Nil,
    }
}

/// The first operand of a binary application.
pub open spec fn binary_arg1(e: SExp) -> SExp {
    unary_arg(e)
}

/// The second operand of a binary application.
pub open spec fn binary_arg2(e: SExp) -> SExp {
    match e {
        SExp::Pair(_, t) => match *t {
            SExp::Pair(_, u) => match *u {
                SExp::Pair(b, _) => *b,
                _ => SExp::Nil,
            },
            _ => SExp::Nil,
        },
        _ => SExp::Nil,
    }
}

/// What evaluating a tree of shape `e` under the operator table `ns` yields.
///
/// Dispatch is on the head symbol: `quote` returns its operand untouched,
/// `hd`/`tl` evaluate the operand and project the pair it must yield, `cons`
/// evaluates both operands (left first) and pairs the results, and the five
/// arithmetic operators evaluate both operands (left first), demand numbers,
/// and combine them by `apply_arith`. Arity is checked before any operand is
/// evaluated.
pub open spec fn eval_spec(e: SExp, ns: DefaultNS) -> Result<SExp, EvalFault>
    decreases e,
{
    match e {
        SExp::Nil => Ok(e),
        SExp::Num(_) => Ok(e),
        SExp::Sym(_) => Ok(e),
        SExp::Pair(h, t) => match *h {
            SExp::Sym(op) => {
                if op == ns.quote {
                    if unary_shape(e) {
                        Ok(unary_arg(e))
                    } else {
                        Err(EvalFault::NonUnary)
                    }
                } else if op == ns.hd || op == ns.tl {
                    if !unary_shape(e) {
                        Err(EvalFault::NonUnary)
                    } else {
                        match *t {
                            SExp::Pair(a, _) => match eval_spec(*a, ns) {
                                Ok(v) => match v {
                                    SExp::Pair(vh, vt) => Ok(
                                        if op == ns.hd {
                                            *vh
                                        } else {
                                            *vt
                                        },
                                    ),
                                    _ => Err(EvalFault::NotCons(e)),
                                },
                                Err(f) => Err(f),
                            },
                            _ => Err(EvalFault::NonUnary),
                        }
                    }
                } else if op == ns.cons {
                    if !binary_shape(e) {
                        Err(EvalFault::NonBinary)
                    } else {
                        match *t {
                            SExp::Pair(a, u) => match *u {
                                SExp::Pair(b, _) => match eval_spec(*a, ns) {
                                    Ok(x) => match eval_spec(*b, ns) {
                                        Ok(y) => Ok(SExp::Pair(Box::new(x), Box::new(y))),
                                        Err(f) => Err(f),
                                    },
                                    Err(f) => Err(f),
                                },
                                _ => Err(EvalFault::NonBinary),
                            },
                            _ => Err(EvalFault::NonBinary),
                        }
                    }
                } else if op == ns.add || op == ns.sub || op == ns.mul || op == ns.div || op
                    == ns.modu {
                    if !binary_shape(e) {
                        Err(EvalFault::NonBinary)
                    } else {
                        match *t {
                            SExp::Pair(a, u) => match *u {
                                SExp::Pair(b, _) => match eval_spec(*a, ns) {
                                    Ok(x) => match eval_spec(*b, ns) {
                                        Ok(y) => match (x, y) {
                                            (SExp::Num(p), SExp::Num(q)) => match apply_arith(
                                                op,
                                                ns,
                                                p,
                                                q,
                                            ) {
                                                Ok(n) => Ok(SExp::Num(n)),
                                                Err(f) => Err(f),
                                            },
                                            _ => Err(EvalFault::NonNumeric),
                                        },
                                        Err(f) => Err(f),
                                    },
                                    Err(f) => Err(f),
                                },
                                _ => Err(EvalFault::NonBinary),
                            },
                            _ => Err(EvalFault::NonBinary),
                        }
                    }
                } else {
                    Err(EvalFault::UnknownOperator(op))
                }
            },
            _ => Err(EvalFault::IllegalOperator),
        },
    }
}

/// Evaluation invents no symbols: a result's symbol indices all occur in the
/// input, so whatever table covers the input covers the result — in
/// particular, every evaluation result of a parsed expression can be
/// printed.
pub proof fn lemma_eval_spec_syms_ok(e: SExp, ns: DefaultNS, n: int)
    requires
        syms_ok(e, n),
        eval_spec(e, ns) is Ok,
    ensures
        eval_spec(e, ns) matches Ok(v) && syms_ok(v, n),
    decreases e,
{
    reveal_with_fuel(syms_ok, 4);
    match e {
        SExp::Pair(h, t) => match *h {
            SExp::Sym(op) => {
                if op == ns.quote {
                } else if op == ns.hd || op == ns.tl {
                    match *t {
                        SExp::Pair(a, _) => {
                            if eval_spec(*a, ns) is Ok {
                                lemma_eval_spec_syms_ok(*a, ns, n);
                                match eval_spec(*a, ns) {
                                    Ok(va) => {
                                        assert(syms_ok(va, n));
                                        match va {
                                            SExp::Pair(vh, vt) => {
                                                assert(syms_ok(*vh, n) && syms_ok(*vt, n));
                                            },
                                            _ => {},
                                        }
                                    },
                                    _ => {},
                                }
                            }
                        },
                        _ => {},
                    }
                } else {
                    match *t {
                        SExp::Pair(a, u) => match *u {
                            SExp::Pair(b, _) => {
                                if eval_spec(*a, ns) is Ok {
                                    lemma_eval_spec_syms_ok(*a, ns, n);
                                    if eval_spec(*b, ns) is Ok {
                                        lemma_eval_spec_syms_ok(*b, ns, n);
                                    }
                                }
                            },
                            _ => {},
                        },
                        _ => {},
                    }
                }
            },
            _ => {},
        },
        _ => {},
    }
}

/// An upper bound on the cells `eval` allocates for a tree of shape `e`:
/// one per `cons` or arithmetic application, a full copy for `quote`.
pub open spec fn cells_needed(e: SExp, ns: DefaultNS) -> nat
    decreases e,
{
    match e {
        SExp::Pair(h, t) => match *h {
            SExp::Sym(op) => {
                if op == ns.quote {
                    if unary_shape(e) {
                        tree_size(unary_arg(e))
                    } else {
                        0
                    }
                } else if op == ns.hd || op == ns.tl {
                    if unary_shape(e) {
                        match *t {
                            SExp::Pair(a, _) => cells_needed(*a, ns),
                            _ => 0,
                        }
                    } else {
                        0
                    }
                } else if op == ns.cons || op == ns.add || op == ns.sub || op == ns.mul || op
                    == ns.div || op == ns.modu {
                    if binary_shape(e) {
                        match *t {
                            SExp::Pair(a, u) => match *u {
                                SExp::Pair(b, _) => 1 + cells_needed(*a, ns) + cells_needed(
                                    *b,
                                    ns,
                                ),
                                _ => 0,
                            },
                            _ => 0,
                        }
                    } else {
                        0
                    }
                } else {
                    0
                }
            },
            _ => 0,
        },
        _ => 0,
    }
}

/// Whether the cell at `exp` is a cons cell.
pub fn is_cons(exp: usize, cells: &CellStorage) -> (r: bool)
    requires
        exp < cells@.len(),
    ensures
        r == (cells@[exp as int].val is Cons),
{
    match cells.val_of(exp) {
        CellType::Cons(_) => true,
        _ => false,
    }
}

/// The tail index of a cons cell, or nil for anything else; the grammar
/// treats "not a pair" as the empty continuation.
pub fn cdr_of(exp: usize, cells: &CellStorage) -> (r: usize)
    requires
        exp < cells@.len(),
    ensures
        r as int == (if cells@[exp as int].val is Cons {
            cells@[exp as int].tail as int
        } else {
            0
        }),
{
    if is_cons(exp, cells) {
        cells.tail_of(exp)
    } else {
        NIL_INDEX
    }
}

/// Whether the expression is a unary application: its continuation is one
/// pair ending at nil.
pub fn is_unary(exp: usize, cells: &CellStorage) -> (r: bool)
    requires
        cells.wf(),
        exists|e: SExp| repr(cells@, exp as int, e),
    ensures
        forall|e: SExp| repr(cells@, exp as int, e) ==> r == unary_shape(e),
{
    let ghost e = choose|e: SExp| repr(cells@, exp as int, e);
    proof {
        lemma_repr_shape(cells@, exp as int, e);
        if e is Pair {
            lemma_repr_shape(cells@, cells@[exp as int].tail as int, pair_tail(e));
            if pair_tail(e) is Pair {
                lemma_repr_shape(
                    cells@,
                    cells@[cells@[exp as int].tail as int].tail as int,
                    pair_tail(pair_tail(e)),
                );
            }
        }
    }
    let c = cdr_of(exp, cells);
    let r = is_cons(c, cells) && cdr_of(c, cells) == NIL_INDEX;
    proof {
        assert(r == unary_shape(e));
        assert forall|e2: SExp| repr(cells@, exp as int, e2) implies r == unary_shape(e2) by {
            lemma_repr_unique(cells@, exp as int, e2, e);
        }
    }
    r
}

/// Whether the expression is a binary application: its continuation is two
/// pairs ending at nil.
pub fn is_binary(exp: usize, cells: &CellStorage) -> (r: bool)
    requires
        cells.wf(),
        exists|e: SExp| repr(cells@, exp as int, e),
    ensures
        forall|e: SExp| repr(cells@, exp as int, e) ==> r == binary_shape(e),
{
    let ghost e = choose|e: SExp| repr(cells@, exp as int, e);
    proof {
        lemma_repr_shape(cells@, exp as int, e);
        if e is Pair {
            let t = pair_tail(e);
            let c0 = cells@[exp as int].tail as int;
            lemma_repr_shape(cells@, c0, t);
            if t is Pair {
                let u = pair_tail(t);
                let c1 = cells@[c0].tail as int;
                lemma_repr_shape(cells@, c1, u);
                if u is Pair {
                    lemma_repr_shape(cells@, cells@[c1].tail as int, pair_tail(u));
                }
            }
        }
    }
    let c = cdr_of(exp, cells);
    let cc = cdr_of(c, cells);
    let r = is_cons(c, cells) && is_cons(cc, cells) && cdr_of(cc, cells) == NIL_INDEX;
    proof {
        assert(r == binary_shape(e));
        assert forall|e2: SExp| repr(cells@, exp as int, e2) implies r == binary_shape(e2) by {
            lemma_repr_unique(cells@, exp as int, e2, e);
        }
    }
    r
}

/// Whether the cell is an atom: a number, a symbol, or the nil sentinel.
/// Atoms evaluate to their own index.
pub fn is_atom(exp: usize, cells: &CellStorage) -> (r: bool)
    requires
        exp < cells@.len(),
    ensures
        r == (cells@[exp as int].val is Number || cells@[exp as int].val is Symbol || exp == 0),
{
    match cells.val_of(exp) {
        CellType::Number(_) => true,
        CellType::Symbol(_) => true,
        _ => exp == NIL_INDEX,
    }
}

/// The two operand indices of a binary application.
pub fn split_binary(exp: usize, cells: &CellStorage) -> (r: (usize, usize))
    requires
        cells.wf(),
        exists|e: SExp| repr(cells@, exp as int, e) && binary_shape(e),
    ensures
        forall|e: SExp| repr(cells@, exp as int, e) ==> repr(cells@, r.0 as int, binary_arg1(e))
            && repr(cells@, r.1 as int, binary_arg2(e)),
        ({
            let t1 = cells@[exp as int].tail as int;
            let t2 = cells@[t1].tail as int;
            &&& cells@[t1].val == CellType::Cons(r.0)
            &&& cells@[t2].val == CellType::Cons(r.1)
        }),
{
    let ghost e = choose|e: SExp| repr(cells@, exp as int, e) && binary_shape(e);
    proof {
        lemma_repr_shape(cells@, exp as int, e);
        lemma_repr_shape(cells@, cells@[exp as int].tail as int, pair_tail(e));
        lemma_repr_shape(
            cells@,
            cells@[cells@[exp as int].tail as int].tail as int,
            pair_tail(pair_tail(e)),
        );
    }
    let c = cells.tail_of(exp);
    let a_idx = cells.head_of(c);
    let cc = cells.tail_of(c);
    let b_idx = cells.head_of(cc);
    proof {
        assert(repr(cells@, a_idx as int, binary_arg1(e)));
        assert(repr(cells@, b_idx as int, binary_arg2(e)));
        assert forall|e2: SExp| repr(cells@, exp as int, e2) implies repr(
            cells@,
            a_idx as int,
            binary_arg1(e2),
        ) && repr(cells@, b_idx as int, binary_arg2(e2)) by {
            lemma_repr_unique(cells@, exp as int, e2, e);
        }
    }
    (a_idx, b_idx)
}

/// The magnitude of a number, as the unsigned type.
pub(crate) fn iabs(a: i32) -> (r: u32)
    ensures
        r as int == abs(a as int),
{
    if a >= 0 {
        a as u32
    } else {
        let w: i64 = -(a as i64);
        w as u32
    }
}

/// Truncating division on the machine's terms: divide the magnitudes,
/// combine the signs, wrap the one overflowing quotient.
fn div_exec(a: i32, b: i32) -> (r: i32)
    requires
        b != 0,
    ensures
        r == div_trunc_spec(a, b),
{
    let ua = iabs(a);
    let ub = iabs(b);
    let q = ua / ub;
    proof {
        vstd::arithmetic::div_mod::lemma_div_nonincreasing(ua as int, ub as int);
        vstd::arithmetic::div_mod::lemma_small_mod(q as nat, 0x1_0000_0000);
    }
    if (a < 0) == (b < 0) {
        if q >= 2147483648u32 {
            i32::MIN
        } else {
            q as i32
        }
    } else {
        if q >= 2147483648u32 {
            i32::MIN
        } else {
            proof {
                if q > 0 {
                    vstd::arithmetic::div_mod::lemma_mod_sub_multiples_vanish(
                        -(q as int),
                        0x1_0000_0000,
                    );
                    vstd::arithmetic::div_mod::lemma_small_mod(
                        (0x1_0000_0000 - q) as nat,
                        0x1_0000_0000,
                    );
                }
            }
            0i32 - (q as i32)
        }
    }
}

/// The remainder matching `div_exec`: magnitude remainder with the sign of
/// the dividend.
fn rem_exec(a: i32, b: i32) -> (r: i32)
    requires
        b != 0,
    ensures
        r == mod_trunc_spec(a, b),
{
    let ua = iabs(a);
    let ub = iabs(b);
    let q = ua / ub;
    let m = ua % ub;
    proof {
        vstd::arithmetic::div_mod::lemma_fundamental_div_mod(ua as int, ub as int);
        let qs = if (a < 0) == (b < 0) {
            (abs(a as int) / abs(b as int)) as int
        } else {
            -((abs(a as int) / abs(b as int)) as int)
        };
        assert(a as int - qs * (b as int) == (if a < 0 {
            -(m as int)
        } else {
            m as int
        })) by (nonlinear_arith)
            requires
                ua as int == ub as int * (q as int) + m as int,
                ua as int == abs(a as int),
                ub as int == abs(b as int),
                q as int == abs(a as int) / abs(b as int),
                qs == (if (a < 0) == (b < 0) {
                    q as int
                } else {
                    -(q as int)
                }),
                ua as int == (if a < 0 {
                    -(a as int)
                } else {
                    a as int
                }),
                ub as int == (if b < 0 {
                    -(b as int)
                } else {
                    b as int
                }),
        ;
    }
    if a < 0 {
        0i32 - (m as i32)
    } else {
        m as i32
    }
}

/// One arithmetic operator on two evaluated numbers.
fn apply_arith_exec(op: usize, ns: &DefaultNS, a: i32, b: i32) -> (r: Result<i32, EvalError>)
    ensures
        match apply_arith(op, *ns, a, b) {
            Ok(n) => r == Ok::<i32, EvalError>(n),
            Err(_) => r == Err::<i32, EvalError>(EvalError::DivisionByZero),
        },
{
    if op == ns.add {
        Ok(a.wrapping_add(b))
    } else if op == ns.sub {
        Ok(a.wrapping_sub(b))
    } else if op == ns.mul {
        Ok(a.wrapping_mul(b))
    } else if b == 0 {
        Err(EvalError::DivisionByZero)
    } else if op == ns.div {
        Ok(div_exec(a, b))
    } else {
        Ok(rem_exec(a, b))
    }
}

/// A subtree of an evaluated `hd`/`tl` operand lies inside the input tree's
/// cells or inside cells that were free: what the operand's evaluation owns,
/// its projections own too.
proof fn lemma_hd_tl_result_owned(
    pre: Seq<crate::cell::Cell>,
    cur: Seq<crate::cell::Cell>,
    exp: int,
    e: SExp,
    c: int,
    operand: int,
    res: int,
    v: SExp,
    sub_idx: int,
    sub: SExp,
    is_head: bool,
)
    requires
        e is Pair,
        pre[exp].val is Cons,
        c == pre[exp].tail,
        pair_tail(e) is Pair,
        head_index(pre, c) == operand,
        v is Pair,
        cur[res].val is Cons,
        sub_idx == (if is_head {
            head_index(cur, res)
        } else {
            cur[res].tail as int
        }),
        sub == (if is_head {
            pair_head(v)
        } else {
            pair_tail(v)
        }),
        tree_dom(cur, res, v).subset_of(
            tree_dom(pre, operand, pair_head(pair_tail(e))).union(free_slots(pre)),
        ),
    ensures
        tree_dom(cur, sub_idx, sub).subset_of(
            tree_dom(pre, exp, e).union(free_slots(pre)),
        ),
{
    lemma_subtree_dom(cur, res, v);
    lemma_subtree_dom(pre, exp, e);
    lemma_subtree_dom(pre, c, pair_tail(e));
    assert forall|x: int| #[trigger] tree_dom(cur, sub_idx, sub).contains(x) implies tree_dom(
        pre,
        exp,
        e,
    ).union(free_slots(pre)).contains(x) by {
        assert(tree_dom(cur, res, v).contains(x));
        if tree_dom(pre, operand, pair_head(pair_tail(e))).contains(x) {
            assert(tree_dom(pre, c, pair_tail(e)).contains(x));
            assert(tree_dom(pre, exp, e).contains(x));
        } else {
            assert(free_slots(pre).contains(x));
        }
    }
}

/// Copies a tree into freshly allocated cells: `quote`'s result shares
/// nothing with the input, so both can be freed independently.
pub fn copy_tree(src: usize, cells: &mut CellStorage, e: Ghost<SExp>) -> (r: Result<
    usize,
    EvalError,
>)
    requires
        old(cells).wf(),
        repr(old(cells)@, src as int, e@),
    ensures
        final(cells).wf(),
        final(cells)@.len() == old(cells)@.len(),
        forall|j: int| 0 <= j < old(cells)@.len() && !((#[trigger] old(cells)@[j]).val is Free)
            ==> final(cells)@[j] == old(cells)@[j],
        final(cells).free_list().len() >= old(cells).free_list().len() - tree_size(e@),
        old(cells).free_list().len() >= tree_size(e@) ==> r is Ok,
        match r {
            Ok(i) => repr(final(cells)@, i as int, e@) && no_overlap(final(cells)@, i as int, e@)
                && tree_dom(final(cells)@, i as int, e@).subset_of(free_slots(old(cells)@)),
            Err(err) => err == EvalError::OutOfCells,
        },
    decreases e@,
{
    proof {
        lemma_repr_shape(old(cells)@, src as int, e@);
    }
    if src == NIL_INDEX {
        proof {
            assert(tree_dom(cells@, 0int, e@) =~= Set::<int>::empty());
        }
        return Ok(NIL_INDEX);
    }
    match cells.val_of(src) {
        CellType::Number(n) => match cells.alloc_cell(CellType::Number(n)) {
            Ok(i) => {
                proof {
                    assert forall|j: int| #[trigger] tree_dom(cells@, i as int, e@).contains(j)
                        implies free_slots(old(cells)@).contains(j) by {
                        assert(j == i as int);
                    }
                }
                Ok(i)
            },
            Err(_) => Err(EvalError::OutOfCells),
        },
        CellType::Symbol(s) => match cells.alloc_cell(CellType::Symbol(s)) {
            Ok(i) => {
                proof {
                    assert forall|j: int| #[trigger] tree_dom(cells@, i as int, e@).contains(j)
                        implies free_slots(old(cells)@).contains(j) by {
                        assert(j == i as int);
                    }
                }
                Ok(i)
            },
            Err(_) => Err(EvalError::OutOfCells),
        },
        CellType::Cons(h) => {
            let t = cells.tail_of(src);
            let ghost eh = pair_head(e@);
            let ghost et = pair_tail(e@);
            let ghost s0 = cells@;
            match copy_tree(h, cells, Ghost(eh)) {
                Err(err) => Err(err),
                Ok(ch) => {
                    proof {
                        lemma_dom_live(s0, t as int, et);
                        lemma_repr_frame_live(s0, cells@, t as int, et);
                    }
                    let ghost s1 = cells@;
                    match copy_tree(t, cells, Ghost(et)) {
                        Err(err) => Err(err),
                        Ok(ct) => {
                            proof {
                                lemma_dom_live(s1, ch as int, eh);
                                lemma_repr_frame_live(s1, cells@, ch as int, eh);
                                lemma_no_overlap_frame_live(s1, cells@, ch as int, eh);
                            }
                            let ghost s2 = cells@;
                            match cells.alloc_cell(CellType::Cons(ch)) {
                                Err(_) => Err(EvalError::OutOfCells),
                                Ok(i) => {
                                    proof {
                                        lemma_repr_frame_live(s2, cells@, ch as int, eh);
                                        lemma_repr_frame_live(s2, cells@, ct as int, et);
                                        lemma_no_overlap_frame_live(s2, cells@, ch as int, eh);
                                        lemma_no_overlap_frame_live(s2, cells@, ct as int, et);
                                        lemma_dom_live(s2, ch as int, eh);
                                        lemma_dom_live(s2, ct as int, et);
                                    }
                                    let ghost s3 = cells@;
                                    cells.set_tail(i, ct);
                                    proof {
                                        assert forall|j: int| tree_dom(s3, ch as int, eh).contains(
                                            j,
                                        ) implies cells@[j] == s3[j] by {
                                            assert(tree_dom(s2, ch as int, eh).contains(j));
                                            assert(j != i as int);
                                        }
                                        assert forall|j: int| tree_dom(s3, ct as int, et).contains(
                                            j,
                                        ) implies cells@[j] == s3[j] by {
                                            assert(tree_dom(s2, ct as int, et).contains(j));
                                            assert(j != i as int);
                                        }
                                        lemma_repr_frame(s3, cells@, ch as int, eh);
                                        lemma_repr_frame(s3, cells@, ct as int, et);
                                        lemma_no_overlap_frame(s3, cells@, ch as int, eh);
                                        lemma_no_overlap_frame(s3, cells@, ct as int, et);
                                        let e_pair = SExp::Pair(Box::new(eh), Box::new(et));
                                        assert(repr(cells@, i as int, e_pair));
                                        let hd2 = tree_dom(cells@, ch as int, eh);
                                        let td2 = tree_dom(cells@, ct as int, et);
                                        assert(hd2 == tree_dom(s1, ch as int, eh));
                                        assert(td2 == tree_dom(s2, ct as int, et));
                                        assert(s2[i as int].val is Free);
                                        assert(!hd2.contains(i as int));
                                        assert(!td2.contains(i as int));
                                        assert forall|x: int| hd2.contains(x)
                                            implies !td2.contains(x) by {
                                            assert(tree_dom(s1, ch as int, eh).contains(x));
                                            assert(!(s1[x].val is Free));
                                            if td2.contains(x) {
                                                assert(tree_dom(s2, ct as int, et).contains(x));
                                                assert(free_slots(s1).contains(x));
                                            }
                                        }
                                        assert(no_overlap(cells@, i as int, e_pair));
                                        assert forall|j: int| #[trigger] tree_dom(
                                            cells@,
                                            i as int,
                                            e_pair,
                                        ).contains(j) implies free_slots(
                                            old(cells)@,
                                        ).contains(j) by {
                                            if j == i as int {
                                                if !(old(cells)@[j].val is Free) {
                                                    assert(s1[j] == old(cells)@[j]);
                                                    assert(s2[j] == s1[j]);
                                                }
                                            } else if hd2.contains(j) {
                                                assert(tree_dom(s1, ch as int, eh).contains(j));
                                                assert(free_slots(old(cells)@).contains(j));
                                            } else {
                                                assert(td2.contains(j));
                                                assert(tree_dom(s2, ct as int, et).contains(j));
                                                assert(free_slots(s1).contains(j));
                                                if !(old(cells)@[j].val is Free) {
                                                    assert(s1[j] == old(cells)@[j]);
                                                }
                                            }
                                        }
                                    }
                                    Ok(i)
                                },
                            }
                        },
                    }
                },
            }
        },
        CellType::Free => {
            proof {
                assert(false);
            }
            Err(EvalError::OutOfCells)
        },
    }
}

/// Evaluates the tree rooted at `exp`. On success the returned index spells
/// out exactly `eval_spec`'s result; on failure the error mirrors
/// `eval_spec`'s fault, except that running out of arena cells may stop any
/// allocating expression early. With `cells_needed(e)` cells free, that
/// cannot happen.
pub fn eval(exp: usize, cells: &mut CellStorage, env: &Env, ns: &DefaultNS, e: Ghost<SExp>) -> (r:
    Result<usize, EvalError>)
    requires
        old(cells).wf(),
        repr(old(cells)@, exp as int, e@),
    ensures
        final(cells).wf(),
        final(cells)@.len() == old(cells)@.len(),
        forall|j: int| 0 <= j < old(cells)@.len() && !((#[trigger] old(cells)@[j]).val is Free)
            ==> final(cells)@[j] == old(cells)@[j],
        final(cells).free_list().len() >= old(cells).free_list().len() - cells_needed(e@, *ns),
        old(cells).free_list().len() >= cells_needed(e@, *ns) ==> !(r == Err::<usize, EvalError>(EvalError::OutOfCells)),
        match r {
            Ok(i) => eval_spec(e@, *ns) matches Ok(v) && repr(final(cells)@, i as int, v)
                && tree_dom(final(cells)@, i as int, v).subset_of(
                tree_dom(old(cells)@, exp as int, e@).union(free_slots(old(cells)@)),
            ),
            Err(err) => err == EvalError::OutOfCells || (eval_spec(e@, *ns) matches Err(f)
                && fault_matches(err, f, final(cells)@)),
        },
        !(e@ is Pair) ==> r == Ok::<usize, EvalError>(exp),
        e@ is Pair && pair_head(e@) == SExp::Sym(ns.quote) ==> (r matches Ok(i)
            ==> eval_spec(e@, *ns) matches Ok(v) && no_overlap(final(cells)@, i as int, v)
            && tree_dom(final(cells)@, i as int, v).subset_of(free_slots(old(cells)@))),
        e@ is Pair && (pair_head(e@) matches SExp::Sym(op) && op != ns.quote && op != ns.hd && op
            != ns.tl) ==> (r matches Ok(i) ==> old(cells)@[i as int].val is Free),
    decreases tree_size(e@), 1int,
{
    proof {
        lemma_repr_shape(old(cells)@, exp as int, e@);
    }
    if is_atom(exp, cells) {
        proof {
            assert forall|x: int| #[trigger] tree_dom(cells@, exp as int, e@).contains(x)
                implies tree_dom(old(cells)@, exp as int, e@).union(
                free_slots(old(cells)@),
            ).contains(x) by {}
        }
        return Ok(exp);
    }
    let ghost eh = pair_head(e@);
    let ghost et = pair_tail(e@);
    let head = match cells.val_of(exp) {
        CellType::Cons(h) => h,
        _ => {
            proof {
                assert(false);
            }
            0
        },
    };
    proof {
        lemma_repr_shape(cells@, head as int, eh);
    }
    match cells.val_of(head) {
        CellType::Symbol(op) => {
            if op == ns.quote {
                if !is_unary(exp, cells) {
                    Err(EvalError::NonUnary)
                } else {
                    proof {
                        lemma_repr_shape(cells@, cells@[exp as int].tail as int, et);
                    }
                    let c = cells.tail_of(exp);
                    let operand = cells.head_of(c);
                    proof {
                        assert(repr(cells@, operand as int, unary_arg(e@)));
                    }
                    let rcopy = copy_tree(operand, cells, Ghost(unary_arg(e@)));
                    proof {
                        match rcopy {
                            Ok(i) => {
                                assert forall|x: int| #[trigger] tree_dom(
                                    cells@,
                                    i as int,
                                    unary_arg(e@),
                                ).contains(x) implies tree_dom(old(cells)@, exp as int, e@).union(
                                    free_slots(old(cells)@),
                                ).contains(x) by {
                                    assert(free_slots(old(cells)@).contains(x));
                                }
                            },
                            _ => {},
                        }
                    }
                    rcopy
                }
            } else if op == ns.hd || op == ns.tl {
                if !is_unary(exp, cells) {
                    Err(EvalError::NonUnary)
                } else {
                    proof {
                        lemma_repr_shape(cells@, cells@[exp as int].tail as int, et);
                    }
                    let c = cells.tail_of(exp);
                    proof {
                        assert(unary_shape(e@));
                        assert(et is Pair);
                        assert(cells@[c as int].val is Cons);
                    }
                    let operand = cells.head_of(c);
                    let ghost ea = unary_arg(e@);
                    proof {
                        assert(repr(cells@, operand as int, ea));
                        reveal_with_fuel(tree_size, 4);
                        match e@ {
                            SExp::Pair(h0, t0) => match *t0 {
                                SExp::Pair(a0, u0) => {
                                    assert(ea == *a0);
                                    assert(tree_size(ea) < tree_size(e@));
                                },
                                _ => {},
                            },
                            _ => {},
                        }
                    }
                    let ghost s0 = cells@;
                    match eval(operand, cells, env, ns, Ghost(ea)) {
                        Err(err) => Err(err),
                        Ok(res) => {
                            let ghost v = eval_spec(ea, *ns)->Ok_0;
                            proof {
                                lemma_repr_shape(cells@, res as int, v);
                            }
                            if !is_cons(res, cells) {
                                proof {
                                    lemma_repr_frame_live(s0, cells@, exp as int, e@);
                                }
                                Err(EvalError::NotCons(exp))
                            } else if op == ns.hd {
                                let hh = cells.head_of(res);
                                proof {
                                    assert(repr(cells@, hh as int, pair_head(v)));
                                    lemma_hd_tl_result_owned(
                                        old(cells)@,
                                        cells@,
                                        exp as int,
                                        e@,
                                        c as int,
                                        operand as int,
                                        res as int,
                                        v,
                                        hh as int,
                                        pair_head(v),
                                        true,
                                    );
                                }
                                Ok(hh)
                            } else {
                                let tt = cells.tail_of(res);
                                proof {
                                    assert(repr(cells@, tt as int, pair_tail(v)));
                                    lemma_hd_tl_result_owned(
                                        old(cells)@,
                                        cells@,
                                        exp as int,
                                        e@,
                                        c as int,
                                        operand as int,
                                        res as int,
                                        v,
                                        tt as int,
                                        pair_tail(v),
                                        false,
                                    );
                                }
                                Ok(tt)
                            }
                        },
                    }
                }
            } else if op == ns.cons {
                eval_cons(exp, cells, env, ns, e)
            } else if op == ns.add || op == ns.sub || op == ns.mul || op == ns.div || op
                == ns.modu {
                eval_arithmetic(op, exp, cells, env, ns, e)
            } else {
                Err(EvalError::UnknownOperator(op))
            }
        },
        _ => Err(EvalError::IllegalOperator),
    }
}

/// Evaluates a `cons` application: both operands, left first, then one
/// fresh pair cell owning the two results.
pub fn eval_cons(exp: usize, cells: &mut CellStorage, env: &Env, ns: &DefaultNS, e: Ghost<
    SExp,
>) -> (r: Result<usize, EvalError>)
    requires
        old(cells).wf(),
        repr(old(cells)@, exp as int, e@),
        e@ is Pair,
        pair_head(e@) == SExp::Sym(ns.cons),
        ns.cons != ns.quote,
        ns.cons != ns.hd,
        ns.cons != ns.tl,
    ensures
        final(cells).wf(),
        final(cells)@.len() == old(cells)@.len(),
        forall|j: int| 0 <= j < old(cells)@.len() && !((#[trigger] old(cells)@[j]).val is Free)
            ==> final(cells)@[j] == old(cells)@[j],
        final(cells).free_list().len() >= old(cells).free_list().len() - cells_needed(e@, *ns),
        old(cells).free_list().len() >= cells_needed(e@, *ns) ==> !(r == Err::<usize, EvalError>(EvalError::OutOfCells)),
        match r {
            Ok(i) => eval_spec(e@, *ns) matches Ok(v) && repr(final(cells)@, i as int, v)
                && tree_dom(final(cells)@, i as int, v).subset_of(
                tree_dom(old(cells)@, exp as int, e@).union(free_slots(old(cells)@)),
            ),
            Err(err) => err == EvalError::OutOfCells || (eval_spec(e@, *ns) matches Err(f)
                && fault_matches(err, f, final(cells)@)),
        },
        r matches Ok(i) ==> old(cells)@[i as int].val is Free,
    decreases tree_size(e@), 0int,
{
    if !is_binary(exp, cells) {
        Err(EvalError::NonBinary)
    } else {
        let (a_idx, b_idx) = split_binary(exp, cells);
        let ghost ea = binary_arg1(e@);
        let ghost eb = binary_arg2(e@);
        let ghost s0 = cells@;
        proof {
            reveal_with_fuel(tree_size, 4);
            match e@ {
                SExp::Pair(h0, t0) => match *t0 {
                    SExp::Pair(a0, u0) => {
                        assert(binary_arg1(e@) == *a0);
                        assert(tree_size(ea) < tree_size(e@));
                        match *u0 {
                            SExp::Pair(b0, v0) => {
                                assert(binary_arg2(e@) == *b0);
                                assert(tree_size(eb) < tree_size(e@));
                            },
                            _ => {},
                        }
                    },
                    _ => {},
                },
                _ => {},
            }
        }
        match eval(a_idx, cells, env, ns, Ghost(ea)) {
            Err(err) => Err(err),
            Ok(x_idx) => {
                let ghost vx = eval_spec(ea, *ns)->Ok_0;
                proof {
                    lemma_repr_frame_live(s0, cells@, b_idx as int, eb);
                }
                let ghost s1 = cells@;
                match eval(b_idx, cells, env, ns, Ghost(eb)) {
                    Err(err) => Err(err),
                    Ok(y_idx) => {
                        let ghost vy = eval_spec(eb, *ns)->Ok_0;
                        proof {
                            lemma_repr_frame_live(s1, cells@, x_idx as int, vx);
                        }
                        let ghost s2 = cells@;
                        match cells.alloc_cell(CellType::Cons(x_idx)) {
                            Err(_) => Err(EvalError::OutOfCells),
                            Ok(i) => {
                                proof {
                                    lemma_repr_frame_live(s2, cells@, x_idx as int, vx);
                                    lemma_repr_frame_live(s2, cells@, y_idx as int, vy);
                                    lemma_dom_live(s2, x_idx as int, vx);
                                    lemma_dom_live(s2, y_idx as int, vy);
                                }
                                let ghost s3 = cells@;
                                cells.set_tail(i, y_idx);
                                proof {
                                    assert forall|j: int| tree_dom(s3, x_idx as int, vx).contains(
                                        j,
                                    ) implies cells@[j] == s3[j] by {
                                        assert(tree_dom(s2, x_idx as int, vx).contains(j));
                                        assert(j != i as int);
                                    }
                                    assert forall|j: int| tree_dom(s3, y_idx as int, vy).contains(
                                        j,
                                    ) implies cells@[j] == s3[j] by {
                                        assert(tree_dom(s2, y_idx as int, vy).contains(j));
                                        assert(j != i as int);
                                    }
                                    lemma_repr_frame(s3, cells@, x_idx as int, vx);
                                    lemma_repr_frame(s3, cells@, y_idx as int, vy);
                                    let v = SExp::Pair(Box::new(vx), Box::new(vy));
                                    assert(repr(cells@, i as int, v));
                                    assert(binary_shape(e@));
                                    match e@ {
                                        SExp::Pair(h0, t0) => match *t0 {
                                            SExp::Pair(a0, u0) => {
                                                assert(pair_tail(e@) == *t0);
                                                assert(pair_tail(pair_tail(e@)) == *u0);
                                            },
                                            _ => {},
                                        },
                                        _ => {},
                                    }
                                    lemma_subtree_dom(old(cells)@, exp as int, e@);
                                    let t1 = old(cells)@[exp as int].tail as int;
                                    lemma_subtree_dom(old(cells)@, t1, pair_tail(e@));
                                    let u1 = old(cells)@[t1].tail as int;
                                    lemma_subtree_dom(old(cells)@, u1, pair_tail(pair_tail(e@)));
                                    lemma_subtree_dom(cells@, i as int, v);
                                    assert(ea == pair_head(pair_tail(e@)));
                                    assert(eb == pair_head(pair_tail(pair_tail(e@))));
                                    assert(head_index(old(cells)@, t1) == a_idx as int);
                                    assert(head_index(old(cells)@, u1) == b_idx as int);
                                    assert forall|x: int| #[trigger] tree_dom(
                                        cells@,
                                        i as int,
                                        v,
                                    ).contains(x) implies tree_dom(
                                        old(cells)@,
                                        exp as int,
                                        e@,
                                    ).union(free_slots(old(cells)@)).contains(x) by {
                                        if x == i as int {
                                            if !(old(cells)@[x].val is Free) {
                                                assert(s1[x] == old(cells)@[x]);
                                                assert(s2[x] == s1[x]);
                                            }
                                            assert(free_slots(old(cells)@).contains(x));
                                        } else if tree_dom(cells@, x_idx as int, vx).contains(
                                            x,
                                        ) {
                                            assert(tree_dom(s1, x_idx as int, vx).contains(x));
                                            if tree_dom(old(cells)@, a_idx as int, ea).contains(
                                                x,
                                            ) {
                                                assert(tree_dom(
                                                    old(cells)@,
                                                    t1,
                                                    pair_tail(e@),
                                                ).contains(x));
                                                assert(tree_dom(
                                                    old(cells)@,
                                                    exp as int,
                                                    e@,
                                                ).contains(x));
                                            } else {
                                                assert(free_slots(old(cells)@).contains(x));
                                            }
                                        } else {
                                            assert(tree_dom(cells@, y_idx as int, vy).contains(
                                                x,
                                            ));
                                            assert(tree_dom(s2, y_idx as int, vy).contains(x));
                                            if tree_dom(s1, b_idx as int, eb).contains(x) {
                                                assert(tree_dom(
                                                    old(cells)@,
                                                    b_idx as int,
                                                    eb,
                                                ).contains(x));
                                                assert(tree_dom(
                                                    old(cells)@,
                                                    u1,
                                                    pair_tail(pair_tail(e@)),
                                                ).contains(x));
                                                assert(tree_dom(
                                                    old(cells)@,
                                                    t1,
                                                    pair_tail(e@),
                                                ).contains(x));
                                                assert(tree_dom(
                                                    old(cells)@,
                                                    exp as int,
                                                    e@,
                                                ).contains(x));
                                            } else {
                                                assert(free_slots(s1).contains(x));
                                                if !(old(cells)@[x].val is Free) {
                                                    assert(s1[x] == old(cells)@[x]);
                                                }
                                                assert(free_slots(old(cells)@).contains(x));
                                            }
                                        }
                                    }
                                }
                                Ok(i)
                            },
                        }
                    },
                }
            },
        }
    }
}

/// Evaluates an arithmetic application: both operands, left first, both
/// must come out numbers, then one fresh number cell holds the result.
pub fn eval_arithmetic(
    op: usize,
    exp: usize,
    cells: &mut CellStorage,
    env: &Env,
    ns: &DefaultNS,
    e: Ghost<SExp>,
) -> (r: Result<usize, EvalError>)
    requires
        old(cells).wf(),
        repr(old(cells)@, exp as int, e@),
        e@ is Pair,
        pair_head(e@) == SExp::Sym(op),
        op == ns.add || op == ns.sub || op == ns.mul || op == ns.div || op == ns.modu,
        op != ns.quote,
        op != ns.hd,
        op != ns.tl,
        op != ns.cons,
    ensures
        final(cells).wf(),
        final(cells)@.len() == old(cells)@.len(),
        forall|j: int| 0 <= j < old(cells)@.len() && !((#[trigger] old(cells)@[j]).val is Free)
            ==> final(cells)@[j] == old(cells)@[j],
        final(cells).free_list().len() >= old(cells).free_list().len() - cells_needed(e@, *ns),
        old(cells).free_list().len() >= cells_needed(e@, *ns) ==> !(r == Err::<usize, EvalError>(EvalError::OutOfCells)),
        match r {
            Ok(i) => eval_spec(e@, *ns) matches Ok(v) && repr(final(cells)@, i as int, v)
                && tree_dom(final(cells)@, i as int, v).subset_of(
                tree_dom(old(cells)@, exp as int, e@).union(free_slots(old(cells)@)),
            ),
            Err(err) => err == EvalError::OutOfCells || (eval_spec(e@, *ns) matches Err(f)
                && fault_matches(err, f, final(cells)@)),
        },
        r matches Ok(i) ==> old(cells)@[i as int].val is Free,
    decreases tree_size(e@), 0int,
{
    if !is_binary(exp, cells) {
        Err(EvalError::NonBinary)
    } else {
        let (a_idx, b_idx) = split_binary(exp, cells);
        let ghost ea = binary_arg1(e@);
        let ghost eb = binary_arg2(e@);
        let ghost s0 = cells@;
        proof {
            reveal_with_fuel(tree_size, 4);
            match e@ {
                SExp::Pair(h0, t0) => match *t0 {
                    SExp::Pair(a0, u0) => {
                        assert(binary_arg1(e@) == *a0);
                        assert(tree_size(ea) < tree_size(e@));
                        match *u0 {
                            SExp::Pair(b0, v0) => {
                                assert(binary_arg2(e@) == *b0);
                                assert(tree_size(eb) < tree_size(e@));
                            },
                            _ => {},
                        }
                    },
                    _ => {},
                },
                _ => {},
            }
        }
        match eval(a_idx, cells, env, ns, Ghost(ea)) {
            Err(err) => Err(err),
            Ok(x_idx) => {
                let ghost vx = eval_spec(ea, *ns)->Ok_0;
                proof {
                    lemma_repr_frame_live(s0, cells@, b_idx as int, eb);
                }
                let ghost s1 = cells@;
                match eval(b_idx, cells, env, ns, Ghost(eb)) {
                    Err(err) => Err(err),
                    Ok(y_idx) => {
                        let ghost vy = eval_spec(eb, *ns)->Ok_0;
                        proof {
                            lemma_repr_frame_live(s1, cells@, x_idx as int, vx);
                            lemma_repr_shape(cells@, x_idx as int, vx);
                            lemma_repr_shape(cells@, y_idx as int, vy);
                        }
                        match (cells.val_of(x_idx), cells.val_of(y_idx)) {
                            (CellType::Number(p), CellType::Number(q)) => {
                                match apply_arith_exec(op, ns, p, q) {
                                    Err(err) => Err(err),
                                    Ok(n) => match cells.alloc_cell(CellType::Number(n)) {
                                        Err(_) => Err(EvalError::OutOfCells),
                                        Ok(i) => {
                                            proof {
                                                assert(repr(cells@, i as int, SExp::Num(n)));
                                            }
                                            Ok(i)
                                        },
                                    },
                                }
                            },
                            _ => Err(EvalError::NonNumeric),
                        }
                    },
                }
            },
        }
    }
}

/// Evaluates a parsed tree; the entry point the session loop calls.
pub fn evaluate(exp: usize, cells: &mut CellStorage, env: &Env, ns: &DefaultNS) -> (r: Result<
    usize,
    EvalError,
>)
    requires
        old(cells).wf(),
        exists|e: SExp| repr(old(cells)@, exp as int, e),
    ensures
        final(cells).wf(),
        final(cells)@.len() == old(cells)@.len(),
        forall|j: int| 0 <= j < old(cells)@.len() && !((#[trigger] old(cells)@[j]).val is Free)
            ==> final(cells)@[j] == old(cells)@[j],
        forall|e: SExp| repr(old(cells)@, exp as int, e) ==> {
            &&& match r {
                Ok(i) => eval_spec(e, *ns) matches Ok(v) && repr(final(cells)@, i as int, v)
                    && tree_dom(final(cells)@, i as int, v).subset_of(
                    tree_dom(old(cells)@, exp as int, e).union(free_slots(old(cells)@)),
                ),
                Err(err) => err == EvalError::OutOfCells || (eval_spec(e, *ns) matches Err(f)
                    && fault_matches(err, f, final(cells)@)),
            }
            &&& (old(cells).free_list().len() >= cells_needed(e, *ns) ==> !(r == Err::<
                usize,
                EvalError,
            >(EvalError::OutOfCells)))
            &&& (!(e is Pair) ==> r == Ok::<usize, EvalError>(exp))
            &&& (e is Pair && pair_head(e) == SExp::Sym(ns.quote) ==> (r matches Ok(i)
                ==> eval_spec(e, *ns) matches Ok(v) && no_overlap(final(cells)@, i as int, v)
                && tree_dom(final(cells)@, i as int, v).subset_of(free_slots(old(cells)@))))
            &&& (e is Pair && (pair_head(e) matches SExp::Sym(op) && op != ns.quote && op != ns.hd
                && op != ns.tl) ==> (r matches Ok(i) ==> old(cells)@[i as int].val is Free))
            &&& (forall|n: int| syms_ok(e, n) && r is Ok ==> (eval_spec(e, *ns) matches Ok(v)
                && syms_ok(v, n)))
        },
{
    let ghost e0 = choose|e: SExp| repr(cells@, exp as int, e);
    let r = eval(exp, cells, env, ns, Ghost(e0));
    proof {
        assert forall|e: SExp| repr(old(cells)@, exp as int, e) implies {
            &&& match r {
                Ok(i) => eval_spec(e, *ns) matches Ok(v) && repr(cells@, i as int, v)
                    && tree_dom(cells@, i as int, v).subset_of(
                    tree_dom(old(cells)@, exp as int, e).union(free_slots(old(cells)@)),
                ),
                Err(err) => err == EvalError::OutOfCells || (eval_spec(e, *ns) matches Err(f)
                    && fault_matches(err, f, cells@)),
            }
            &&& (old(cells).free_list().len() >= cells_needed(e, *ns) ==> !(r == Err::<
                usize,
                EvalError,
            >(EvalError::OutOfCells)))
            &&& (!(e is Pair) ==> r == Ok::<usize, EvalError>(exp))
            &&& (e is Pair && pair_head(e) == SExp::Sym(ns.quote) ==> (r matches Ok(i)
                ==> eval_spec(e, *ns) matches Ok(v) && no_overlap(cells@, i as int, v)
                && tree_dom(cells@, i as int, v).subset_of(free_slots(old(cells)@))))
            &&& (e is Pair && (pair_head(e) matches SExp::Sym(op) && op != ns.quote && op != ns.hd
                && op != ns.tl) ==> (r matches Ok(i) ==> old(cells)@[i as int].val is Free))
            &&& (forall|n: int| syms_ok(e, n) && r is Ok ==> (eval_spec(e, *ns) matches Ok(v)
                && syms_ok(v, n)))
        } by {
            lemma_repr_unique(old(cells)@, exp as int, e, e0);
            if r is Ok {
                assert forall|n: int| syms_ok(e, n) && r is Ok implies (eval_spec(e, *ns)
                    matches Ok(v) && syms_ok(v, n)) by {
                    lemma_eval_spec_syms_ok(e, *ns, n);
                }
            }
        }
    }
    r
}

} // verus!
