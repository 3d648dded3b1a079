//! The laws the evaluator obeys, stated over the ghost model and proved
//! once and for all. Each speaks about `eval_spec`, which the executable
//! evaluator is proved to implement exactly.

use vstd::prelude::*;

use crate::env::DefaultNS;
use crate::eval::{apply_arith, eval_spec, EvalFault};
use crate::lexer::is_digit;
use crate::parser::digits_val;
use crate::print::{dec_digits, dec_i32, print_spec};
use crate::sexp::SExp;

verus! {

/// The shape of a quote application with one operand.
pub open spec fn quoted(e: SExp, ns: DefaultNS) -> SExp {
    SExp::Pair(
        Box::new(SExp::Sym(ns.quote)),
        Box::new(SExp::Pair(Box::new(e), Box::new(SExp::Nil))),
    )
}

/// Quoting: a one-operand quote succeeds and returns its operand untouched,
/// whatever the operand; in particular the result prints exactly as the
/// unevaluated literal does.
pub proof fn lemma_quote_returns_operand(e: SExp, ns: DefaultNS, syms: Seq<Seq<u8>>)
    ensures
        eval_spec(quoted(e, ns), ns) == Ok::<SExp, EvalFault>(e),
        eval_spec(quoted(e, ns), ns) matches Ok(v) && print_spec(v, syms) == print_spec(e, syms),
{
}

/// Arity: a quote with two operands fails `NonUnary`, whatever the operands.
pub proof fn lemma_quote_two_operands_fail(a: SExp, b: SExp, ns: DefaultNS)
    ensures
        eval_spec(
            SExp::Pair(
                Box::new(SExp::Sym(ns.quote)),
                Box::new(
                    SExp::Pair(Box::new(a), Box::new(SExp::Pair(Box::new(b), Box::new(SExp::Nil)))),
                ),
            ),
            ns,
        ) == Err::<SExp, EvalFault>(EvalFault::NonUnary),
{
}

/// Unknown operator: an application whose head symbol names none of the
/// built-in operators fails `UnknownOperator` with that symbol, whatever its
/// operands.
pub proof fn lemma_unknown_operator(op: usize, t: SExp, ns: DefaultNS)
    requires
        op != ns.add,
        op != ns.sub,
        op != ns.mul,
        op != ns.div,
        op != ns.modu,
        op != ns.cons,
        op != ns.hd,
        op != ns.tl,
        op != ns.quote,
    ensures
        eval_spec(SExp::Pair(Box::new(SExp::Sym(op)), Box::new(t)), ns)
            == Err::<SExp, EvalFault>(EvalFault::UnknownOperator(op)),
{
}

/// Arithmetic: an arithmetic operator on two number atoms returns the
/// machine result that `apply_arith` fixes — wraparound addition,
/// subtraction and multiplication, truncating division and remainder — and
/// the division-by-zero error exactly when the divisor is zero.
pub proof fn lemma_arith_on_numbers(op: usize, a: i32, b: i32, ns: DefaultNS)
    requires
        op == ns.add || op == ns.sub || op == ns.mul || op == ns.div || op == ns.modu,
        op != ns.quote,
        op != ns.hd,
        op != ns.tl,
        op != ns.cons,
    ensures
        eval_spec(
            SExp::Pair(
                Box::new(SExp::Sym(op)),
                Box::new(
                    SExp::Pair(
                        Box::new(SExp::Num(a)),
                        Box::new(SExp::Pair(Box::new(SExp::Num(b)), Box::new(SExp::Nil))),
                    ),
                ),
            ),
            ns,
        ) == (match apply_arith(op, ns, a, b) {
            Ok(n) => Ok::<SExp, EvalFault>(SExp::Num(n)),
            Err(f) => Err::<SExp, EvalFault>(f),
        }),
{
    reveal_with_fuel(eval_spec, 3);
}

/// Pair operations: `hd` of a `cons` of two expressions yields the first's
/// value, `tl` the second's, whenever both operands evaluate.
pub proof fn lemma_hd_tl_of_cons(x: SExp, y: SExp, vx: SExp, vy: SExp, ns: DefaultNS)
    requires
        eval_spec(x, ns) == Ok::<SExp, EvalFault>(vx),
        eval_spec(y, ns) == Ok::<SExp, EvalFault>(vy),
        ns.cons != ns.quote,
        ns.cons != ns.hd,
        ns.cons != ns.tl,
        ns.hd != ns.quote,
        ns.tl != ns.quote,
        ns.hd != ns.tl,
    ensures
        eval_spec(
            SExp::Pair(
                Box::new(SExp::Sym(ns.hd)),
                Box::new(
                    SExp::Pair(
                        Box::new(
                            SExp::Pair(
                                Box::new(SExp::Sym(ns.cons)),
                                Box::new(
                                    SExp::Pair(
                                        Box::new(x),
                                        Box::new(SExp::Pair(Box::new(y), Box::new(SExp::Nil))),
                                    ),
                                ),
                            ),
                        ),
                        Box::new(SExp::Nil),
                    ),
                ),
            ),
            ns,
        ) == Ok::<SExp, EvalFault>(vx),
        eval_spec(
            SExp::Pair(
                Box::new(SExp::Sym(ns.tl)),
                Box::new(
                    SExp::Pair(
                        Box::new(
                            SExp::Pair(
                                Box::new(SExp::Sym(ns.cons)),
                                Box::new(
                                    SExp::Pair(
                                        Box::new(x),
                                        Box::new(SExp::Pair(Box::new(y), Box::new(SExp::Nil))),
                                    ),
                                ),
                            ),
                        ),
                        Box::new(SExp::Nil),
                    ),
                ),
            ),
            ns,
        ) == Ok::<SExp, EvalFault>(vy),
{
    reveal_with_fuel(eval_spec, 3);
}

/// The operator table a fresh session interns has nine distinct indices:
/// their names differ, and the symbol table maps each index to its name.
pub proof fn lemma_ns_distinct(ns: DefaultNS, syms: Seq<Seq<u8>>)
    requires
        ns.wf(syms),
    ensures
        ns.cons != ns.quote,
        ns.cons != ns.hd,
        ns.cons != ns.tl,
        ns.hd != ns.quote,
        ns.tl != ns.quote,
        ns.hd != ns.tl,
        ns.add != ns.quote,
        ns.sub != ns.quote,
        ns.mul != ns.quote,
        ns.div != ns.quote,
        ns.modu != ns.quote,
{
    assert(syms[ns.cons as int][0] == 99u8);
    assert(syms[ns.quote as int][0] == 39u8);
    assert(syms[ns.hd as int][0] == 104u8);
    assert(syms[ns.tl as int][0] == 116u8);
    assert(syms[ns.add as int][0] == 97u8);
    assert(syms[ns.sub as int][0] == 115u8);
    assert(syms[ns.mul as int][0] == 109u8);
    assert(syms[ns.div as int][1] == 105u8);
    assert(syms[ns.modu as int][1] == 111u8);
}

/// The digits a value prints as read back as that value, and every byte of
/// them is a digit.
pub proof fn lemma_dec_digits_value(n: nat)
    ensures
        digits_val(dec_digits(n)) == n,
        forall|k: int| 0 <= k < dec_digits(n).len() ==> is_digit(#[trigger] dec_digits(n)[k]),
    decreases n,
{
    if n == 0 {
        assert(dec_digits(0) =~= Seq::<u8>::empty());
    } else {
        lemma_dec_digits_value(n / 10);
        let s = dec_digits(n);
        let pre = dec_digits((n / 10) as nat);
        let d = (48 + n % 10) as u8;
        assert(s.drop_last() =~= pre);
        assert(s.last() == d);
        vstd::arithmetic::div_mod::lemma_fundamental_div_mod(n as int, 10);
        assert forall|k: int| 0 <= k < s.len() implies is_digit(#[trigger] s[k]) by {
            if k < pre.len() {
                assert(s[k] == pre[k]);
            }
        }
    }
}

/// Round trip on number atoms: the text a non-negative number prints as is
/// one maximal digit run, and its value reads back as that number.
pub proof fn lemma_number_print_parses_back(n: i32)
    requires
        n >= 0,
    ensures
        digits_val(dec_i32(n)) == n,
        forall|k: int| 0 <= k < dec_i32(n).len() ==> is_digit(#[trigger] dec_i32(n)[k]),
        dec_i32(n).len() > 0,
{
    if n == 0 {
        reveal_with_fuel(digits_val, 2);
        let s = dec_i32(0);
        assert(s =~= seq![48u8]);
        assert(s.drop_last() =~= Seq::<u8>::empty());
        assert(digits_val(s) == digits_val(s.drop_last()) * 10 + (s.last() - 48));
        assert(digits_val(s) == 0);
    } else {
        lemma_dec_digits_value(n as nat);
    }
}

} // verus!
