//! Rendering expression trees back to canonical S-expression text.
//!
//! Atoms print as their literal value or symbol name; a pair chain prints as
//! space-separated elements in parentheses, with ` . ` before a non-nil,
//! non-pair tail. The ghost function `print_spec` fixes the text for every
//! shape; the executable printer is proved to produce exactly it.

use vstd::math::abs;
use vstd::prelude::*;

use crate::arena::CellStorage;
use crate::cell::{CellType, NIL_INDEX};
use crate::env::Env;
use crate::eval::iabs;
use crate::sexp::{
    lemma_repr_shape, lemma_repr_unique, pair_head, pair_tail, repr, syms_ok, tree_size, SExp,
};

verus! {

/// The decimal digits of `n`, most significant first; empty for zero.
pub open spec fn dec_digits(n: nat) -> Seq<u8>
    decreases n,
{
    if n == 0 {
        Seq::empty()
    } else {
        dec_digits(n / 10) + seq![(48 + n % 10) as u8]
    }
}

/// The decimal rendering of a non-negative value; zero prints one digit.
pub open spec fn dec_nat(n: nat) -> Seq<u8> {
    if n == 0 {
        seq![48u8]
    } else {
        dec_digits(n)
    }
}

/// The decimal rendering of a number cell's value, minus sign included.
pub open spec fn dec_i32(n: i32) -> Seq<u8> {
    if n < 0 {
        seq![45u8] + dec_nat(abs(n as int) as nat)
    } else {
        dec_nat(n as nat)
    }
}

/// The canonical text of a tree of shape `e`, given the symbol names.
pub open spec fn print_spec(e: SExp, syms: Seq<Seq<u8>>) -> Seq<u8>
    decreases tree_size(e), 1int,
{
    match e {
        SExp::Nil => seq![40u8, 41u8],
        SExp::Num(n) => dec_i32(n),
        SExp::Sym(s) => syms[s as int],
        SExp::Pair(_, _) => seq![40u8] + print_inner(e, syms) + seq![41u8],
    }
}

/// The interior of a printed pair chain, without the surrounding
/// parentheses.
pub open spec fn print_inner(e: SExp, syms: Seq<Seq<u8>>) -> Seq<u8>
    decreases tree_size(e), 0int,
{
    match e {
        SExp::Pair(h, t) => print_spec(*h, syms) + (match *t {
            SExp::Nil => Seq::<u8>::empty(),
            SExp::Pair(_, _) => seq![32u8] + print_inner(*t, syms),
            _ => seq![32u8, 46u8, 32u8] + print_spec(*t, syms),
        }),
        _ => Seq::empty(),
    }
}

/// Appends a copy of `src` to `dst`.
pub fn append_bytes(dst: &mut Vec<u8>, src: &Vec<u8>)
    ensures
        final(dst)@ == old(dst)@ + src@,
{
    let n = src.len();
    let mut i: usize = 0;
    proof {
        assert(dst@ =~= old(dst)@ + src@.subrange(0, 0));
    }
    while i < n
        invariant
            i <= n,
            n == src@.len(),
            dst@ == old(dst)@ + src@.subrange(0, i as int),
        decreases n - i,
    {
        dst.push(src[i]);
        proof {
            assert(dst@ =~= old(dst)@ + src@.subrange(0, i + 1));
        }
        i = i + 1;
    }
    proof {
        assert(src@.subrange(0, n as int) =~= src@);
    }
}

/// Appends the digits of `n`, most significant first; nothing for zero.
fn push_digits(n: u32, out: &mut Vec<u8>)
    ensures
        final(out)@ == old(out)@ + dec_digits(n as nat),
    decreases n,
{
    if n == 0 {
        proof {
            assert(out@ =~= out@ + dec_digits(0));
        }
    } else {
        push_digits(n / 10, out);
        let d: u32 = 48 + n % 10;
        out.push(d as u8);
        proof {
            assert(out@ =~= old(out)@ + dec_digits(n as nat));
        }
    }
}

/// The decimal text of a number cell's value.
pub fn print_i32_vec(n: i32) -> (r: Vec<u8>)
    ensures
        r@ == dec_i32(n),
{
    let mut out: Vec<u8> = Vec::new();
    if n < 0 {
        out.push(45);
    }
    let m = iabs(n);
    if m == 0 {
        out.push(48);
    } else {
        push_digits(m, &mut out);
    }
    proof {
        assert(out@ =~= dec_i32(n));
    }
    out
}

/// Renders the tree rooted at `idx` as canonical S-expression text.
pub fn print_exp(idx: usize, storage: &CellStorage, env: &Env) -> (r: Vec<u8>)
    requires
        storage.wf(),
        exists|e: SExp| repr(storage@, idx as int, e) && syms_ok(e, env@.len() as int),
    ensures
        forall|e: SExp| repr(storage@, idx as int, e) ==> r@ == print_spec(e, env@),
{
    let ghost e0 = choose|e: SExp|
        repr(storage@, idx as int, e) && syms_ok(e, env@.len() as int);
    let r = print_rec(idx, storage, env, Ghost(e0));
    proof {
        assert forall|e: SExp| repr(storage@, idx as int, e) implies r@ == print_spec(
            e,
            env@,
        ) by {
            lemma_repr_unique(storage@, idx as int, e, e0);
        }
    }
    r
}

/// Renders one expression, guided by its ghost shape.
fn print_rec(idx: usize, storage: &CellStorage, env: &Env, e: Ghost<SExp>) -> (r: Vec<u8>)
    requires
        storage.wf(),
        repr(storage@, idx as int, e@),
        syms_ok(e@, env@.len() as int),
    ensures
        r@ == print_spec(e@, env@),
    decreases tree_size(e@), 1int,
{
    proof {
        lemma_repr_shape(storage@, idx as int, e@);
    }
    if idx == NIL_INDEX {
        let out = vec![40u8, 41u8];
        proof {
            assert(out@ =~= print_spec(e@, env@));
        }
        return out;
    }
    match storage.val_of(idx) {
        CellType::Number(n) => print_i32_vec(n),
        CellType::Symbol(s) => {
            let mut out: Vec<u8> = Vec::new();
            append_bytes(&mut out, &env.symbols[s]);
            proof {
                assert(out@ =~= env@[s as int]);
            }
            out
        },
        CellType::Cons(_) => {
            let mut out: Vec<u8> = Vec::new();
            out.push(40);
            let inner = print_list(idx, storage, env, e);
            append_bytes(&mut out, &inner);
            out.push(41);
            proof {
                assert(out@ =~= seq![40u8] + print_inner(e@, env@) + seq![41u8]);
            }
            out
        },
        CellType::Free => {
            proof {
                assert(false);
            }
            Vec::new()
        },
    }
}

/// Renders a pair chain's interior: the head, then the spine, with dotted
/// notation for an improper tail.
fn print_list(idx: usize, storage: &CellStorage, env: &Env, e: Ghost<SExp>) -> (r: Vec<u8>)
    requires
        storage.wf(),
        repr(storage@, idx as int, e@),
        syms_ok(e@, env@.len() as int),
        e@ is Pair,
    ensures
        r@ == print_inner(e@, env@),
    decreases tree_size(e@), 0int,
{
    proof {
        lemma_repr_shape(storage@, idx as int, e@);
        reveal_with_fuel(tree_size, 2);
        match e@ {
            SExp::Pair(h0, t0) => {
                assert(pair_head(e@) == *h0);
                assert(tree_size(pair_head(e@)) < tree_size(e@));
                assert(tree_size(pair_tail(e@)) < tree_size(e@));
            },
            _ => {},
        }
    }
    let h = storage.head_of(idx);
    let mut out = print_rec(h, storage, env, Ghost(pair_head(e@)));
    let t = storage.tail_of(idx);
    let ghost et = pair_tail(e@);
    proof {
        lemma_repr_shape(storage@, t as int, et);
    }
    if t == NIL_INDEX {
        proof {
            assert(out@ =~= print_inner(e@, env@));
        }
        out
    } else {
        match storage.val_of(t) {
            CellType::Cons(_) => {
                out.push(32);
                let rest = print_list(t, storage, env, Ghost(et));
                append_bytes(&mut out, &rest);
                proof {
                    assert(out@ =~= print_inner(e@, env@));
                }
                out
            },
            _ => {
                out.push(32);
                out.push(46);
                out.push(32);
                let rest = print_rec(t, storage, env, Ghost(et));
                append_bytes(&mut out, &rest);
                proof {
                    assert(out@ =~= print_inner(e@, env@));
                }
                out
            },
        }
    }
}

} // verus!
