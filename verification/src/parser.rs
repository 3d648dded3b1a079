//! The recursive-descent parser: consumes tokens and materializes the
//! expression tree in the arena.
//!
//! Success hands back a root index that spells out exactly the tree the
//! input's tokens spell out under the grammar (`sexp_at`), built
//! single-owner out of fresh cells, with its symbols interned in the table.
//! Failure is three-way, so the caller can tell "feed me more input" from a
//! genuine syntax error: running out of tokens mid-structure is
//! `Incomplete`, a malformed token or an exhausted arena is `Invalid`.

use vstd::prelude::*;

use crate::arena::CellStorage;
use crate::cell::{CellType, NIL_INDEX};
use crate::env::Env;
use crate::lexer::{
    is_digit, lemma_run_end_bounds, lemma_skip_ws_bounds, skip_ws, token_at, CharClass, SpecScan,
    SpecToken, Token, TokenStream,
};
use crate::sexp::{
    free_slots, lemma_dom_live, lemma_no_overlap_frame, lemma_no_overlap_frame_live,
    lemma_repr_frame, lemma_repr_frame_live, lemma_syms_ok_widen, no_overlap, repr, syms_ok,
    tree_dom, tree_size, SExp,
};

verus! {

/// Why an input line is rejected outright.
#[derive(Copy, Clone, Debug, PartialEq, Eq, Structural)]
pub enum ParseError {
    /// A byte no token may start with.
    UnrecognizedChar,
    /// A token that the grammar does not allow at this point.
    UnexpectedToken,
    /// A numeric literal too large for a number cell.
    NumberTooLarge,
    /// The arena has no free cell left for the tree.
    OutOfCells,
}

/// The three-way outcome of a parse: a finished tree, a structure that ran
/// out of tokens and may be continued, or an input to discard.
#[derive(Copy, Clone, Debug, PartialEq, Eq, Structural)]
pub enum ParseOutcome {
    Complete(usize),
    Incomplete,
    Invalid(ParseError),
}

/// The value of a decimal digit string, most significant digit first.
pub open spec fn digits_val(s: Seq<u8>) -> int
    decreases s.len(),
{
    if s.len() == 0 {
        0
    } else {
        digits_val(s.drop_last()) * 10 + (s.last() - 48)
    }
}

pub proof fn lemma_digits_val_nonneg(s: Seq<u8>)
    requires
        forall|k: int| 0 <= k < s.len() ==> is_digit(#[trigger] s[k]),
    ensures
        digits_val(s) >= 0,
    decreases s.len(),
{
    if s.len() > 0 {
        lemma_digits_val_nonneg(s.drop_last());
    }
}

/// A digit string is worth at least any of its prefixes.
pub proof fn lemma_digits_prefix_le(s: Seq<u8>, i: int)
    requires
        forall|k: int| 0 <= k < s.len() ==> is_digit(#[trigger] s[k]),
        0 <= i <= s.len(),
    ensures
        digits_val(s.subrange(0, i)) <= digits_val(s),
    decreases s.len() - i,
{
    if i == s.len() {
        assert(s.subrange(0, i) =~= s);
    } else {
        lemma_digits_prefix_le(s, i + 1);
        let t = s.subrange(0, i + 1);
        assert(t.drop_last() =~= s.subrange(0, i));
        lemma_digits_val_nonneg(s.subrange(0, i));
        assert(digits_val(s.subrange(0, i)) <= digits_val(t));
    }
}

/// Converts a digit string to a number cell's value; `None` when it exceeds
/// the largest representable number.
pub fn digits_to_i32(digits: &Vec<u8>) -> (r: Option<i32>)
    requires
        forall|k: int| 0 <= k < digits@.len() ==> is_digit(#[trigger] digits@[k]),
    ensures
        match r {
            Some(n) => n as int == digits_val(digits@),
            None => digits_val(digits@) > i32::MAX,
        },
{
    let n = digits.len();
    let mut acc: u32 = 0;
    let mut i: usize = 0;
    while i < n
        invariant
            forall|k: int| 0 <= k < digits@.len() ==> is_digit(#[trigger] digits@[k]),
            n == digits@.len(),
            i <= n,
            acc as int == digits_val(digits@.subrange(0, i as int)),
            acc <= 2147483647,
        decreases n - i,
    {
        let d = digits[i] - 48;
        proof {
            let t = digits@.subrange(0, i + 1);
            assert(t.drop_last() =~= digits@.subrange(0, i as int));
        }
        if acc > 214748364 || (acc == 214748364 && d > 7) {
            proof {
                lemma_digits_prefix_le(digits@, i + 1);
            }
            return None;
        }
        acc = acc * 10 + (d as u32);
        i = i + 1;
    }
    proof {
        assert(digits@.subrange(0, n as int) =~= digits@);
    }
    Some(acc as i32)
}

/// The §4.4 grammar, as a relation: the token stream of `s` starting at
/// `pos` spells out exactly the tree `e`, reading symbol atoms through the
/// table `syms` (whose distinct names make the spelled-out tree unique).
/// Atoms are one token; a parenthesized expression is `(`, a list interior,
/// `)`, the interior ending where `sexps_end` says.
pub open spec fn sexp_at(s: Seq<u8>, pos: int, syms: Seq<Seq<u8>>, e: SExp) -> bool
    decreases e, 1int,
{
    match token_at(s, pos) {
        SpecScan::Tok(st, p1) => match st {
            SpecToken::Number(d) => e matches SExp::Num(n) && n as int == digits_val(d),
            SpecToken::Symbol(name) => e matches SExp::Sym(k) && k < syms.len() && syms[k as int]
                == name,
            SpecToken::LeftParen => sexps_at(s, p1, syms, e) && token_at(
                s,
                sexps_end(s, p1, e),
            ) matches SpecScan::Tok(SpecToken::RightParen, p2),
            _ => false,
        },
        _ => false,
    }
}

/// The cursor after the expression `e` spelled out at `pos`: after the
/// atom's token, or after the closing parenthesis. (Meaningful only where
/// `sexp_at` holds; the table plays no part in where tokens end.)
pub open spec fn sexp_end(s: Seq<u8>, pos: int, e: SExp) -> int
    decreases e, 1int,
{
    match token_at(s, pos) {
        SpecScan::Tok(st, p1) => match st {
            SpecToken::LeftParen => match token_at(s, sexps_end(s, p1, e)) {
                SpecScan::Tok(SpecToken::RightParen, p2) => p2,
                _ => p1,
            },
            _ => p1,
        },
        _ => pos,
    }
}

/// The grammar's list interior: nil exactly before a pending `)`, else one
/// element, then either a dotted raw tail or the rest of the list — each
/// element one pair of the chain, heads in input order.
pub open spec fn sexps_at(s: Seq<u8>, pos: int, syms: Seq<Seq<u8>>, e: SExp) -> bool
    decreases e, 0int,
{
    if token_at(s, pos) matches SpecScan::Tok(SpecToken::RightParen, q) {
        e is Nil
    } else {
        e matches SExp::Pair(h, t) && sexp_at(s, pos, syms, *h) && (match token_at(
            s,
            sexp_end(s, pos, *h),
        ) {
            SpecScan::Tok(SpecToken::Dot, p2) => sexp_at(s, p2, syms, *t),
            _ => sexps_at(s, sexp_end(s, pos, *h), syms, *t),
        })
    }
}

/// The cursor after the list interior `e` spelled out at `pos`: before the
/// pending `)` for nil, else after the dotted tail or the rest of the list.
pub open spec fn sexps_end(s: Seq<u8>, pos: int, e: SExp) -> int
    decreases e, 0int,
{
    if token_at(s, pos) matches SpecScan::Tok(SpecToken::RightParen, q) {
        pos
    } else {
        match e {
            SExp::Pair(h, t) => {
                let mid = sexp_end(s, pos, *h);
                match token_at(s, mid) {
                    SpecScan::Tok(SpecToken::Dot, p2) => sexp_end(s, p2, *t),
                    _ => sexps_end(s, mid, *t),
                }
            },
            _ => pos,
        }
    }
}

/// Growing the symbol table does not disturb what a text spells out: symbol
/// atoms keep their (stable) indices.
pub proof fn lemma_sexp_at_env_grow(
    s: Seq<u8>,
    pos: int,
    syms1: Seq<Seq<u8>>,
    syms2: Seq<Seq<u8>>,
    e: SExp,
    inner: bool,
)
    requires
        syms1.len() <= syms2.len(),
        forall|k: int| 0 <= k < syms1.len() ==> syms2[k] == syms1[k],
        inner ==> sexps_at(s, pos, syms1, e),
        !inner ==> sexp_at(s, pos, syms1, e),
    ensures
        inner ==> sexps_at(s, pos, syms2, e),
        !inner ==> sexp_at(s, pos, syms2, e),
    decreases e, (if inner {
        0int
    } else {
        1int
    }),
{
    if inner {
        if !(token_at(s, pos) matches SpecScan::Tok(SpecToken::RightParen, q)) {
            match e {
                SExp::Pair(h, t) => {
                    lemma_sexp_at_env_grow(s, pos, syms1, syms2, *h, false);
                    let mid = sexp_end(s, pos, *h);
                    match token_at(s, mid) {
                        SpecScan::Tok(SpecToken::Dot, p2) => {
                            lemma_sexp_at_env_grow(s, p2, syms1, syms2, *t, false);
                        },
                        _ => {
                            lemma_sexp_at_env_grow(s, mid, syms1, syms2, *t, true);
                        },
                    }
                },
                _ => {},
            }
        }
    } else {
        match token_at(s, pos) {
            SpecScan::Tok(st, p1) => match st {
                SpecToken::LeftParen => {
                    lemma_sexp_at_env_grow(s, p1, syms1, syms2, e, true);
                },
                _ => {},
            },
            _ => {},
        }
    }
}

/// The grammar is deterministic: against one table of distinct names, a
/// text position spells out at most one tree. Together with the parse
/// contracts this gives the round trip its uniqueness half: any two
/// successful parses of the same text yield structurally equal trees.
pub proof fn lemma_sexp_at_unique(
    s: Seq<u8>,
    pos: int,
    syms: Seq<Seq<u8>>,
    e1: SExp,
    e2: SExp,
    inner: bool,
)
    requires
        forall|i: int, j: int| 0 <= i < j < syms.len() ==> syms[i] != syms[j],
        inner ==> sexps_at(s, pos, syms, e1) && sexps_at(s, pos, syms, e2),
        !inner ==> sexp_at(s, pos, syms, e1) && sexp_at(s, pos, syms, e2),
    ensures
        e1 == e2,
    decreases e1, (if inner {
        0int
    } else {
        1int
    }),
{
    if inner {
        if !(token_at(s, pos) matches SpecScan::Tok(SpecToken::RightParen, q)) {
            match e1 {
                SExp::Pair(h1, t1) => match e2 {
                    SExp::Pair(h2, t2) => {
                        lemma_sexp_at_unique(s, pos, syms, *h1, *h2, false);
                        let mid = sexp_end(s, pos, *h1);
                        match token_at(s, mid) {
                            SpecScan::Tok(SpecToken::Dot, p2) => {
                                lemma_sexp_at_unique(s, p2, syms, *t1, *t2, false);
                            },
                            _ => {
                                lemma_sexp_at_unique(s, mid, syms, *t1, *t2, true);
                            },
                        }
                    },
                    _ => {},
                },
                _ => {},
            }
        }
    } else {
        match token_at(s, pos) {
            SpecScan::Tok(st, p1) => match st {
                SpecToken::Symbol(name) => {
                    match e1 {
                        SExp::Sym(k1) => match e2 {
                            SExp::Sym(k2) => {
                                if k1 < k2 {
                                    assert(syms[k1 as int] != syms[k2 as int]);
                                } else if k2 < k1 {
                                    assert(syms[k2 as int] != syms[k1 as int]);
                                }
                            },
                            _ => {},
                        },
                        _ => {},
                    }
                },
                SpecToken::LeftParen => {
                    lemma_sexp_at_unique(s, p1, syms, e1, e2, true);
                },
                _ => {},
            },
            _ => {},
        }
    }
}

/// What one `parse_sexp` step guarantees when the buffer spells out the
/// token `st` (ending at cursor `end`) where the cursor stood.
///
/// A dot or a closing parenthesis cannot start an expression. A digit run
/// becomes one fresh `Number` cell holding the run's value, too-large runs
/// are rejected, and the arena's emptiness alone separates `Complete` from
/// `OutOfCells`. A name becomes one fresh `Symbol` cell holding the name's
/// interned index: the existing index if the name was seen before (the table
/// unchanged), a new one otherwise. What follows an opening parenthesis is
/// the grammar's list interior; the `sexp_at` clause of the parse contracts
/// pins it down, so this predicate need not.
pub open spec fn parse_sexp_token_post(
    st: SpecToken,
    end: int,
    r: ParseOutcome,
    final_pos: int,
    st0: CellStorage,
    st1: CellStorage,
    env0: Env,
    env1: Env,
) -> bool {
    match st {
        SpecToken::Dot => r == ParseOutcome::Invalid(ParseError::UnexpectedToken),
        SpecToken::RightParen => r == ParseOutcome::Invalid(ParseError::UnexpectedToken),
        SpecToken::Number(d) => {
            &&& (digits_val(d) > i32::MAX) <==> r == ParseOutcome::Invalid(
                ParseError::NumberTooLarge,
            )
            &&& (digits_val(d) <= i32::MAX && st0.free_list().len() == 0) <==> r
                == ParseOutcome::Invalid(ParseError::OutOfCells)
            &&& (digits_val(d) <= i32::MAX && st0.free_list().len() > 0) ==> {
                &&& r matches ParseOutcome::Complete(idx)
                &&& st1@[idx as int].val matches CellType::Number(n) && n as int == digits_val(d)
                &&& st1@[idx as int].tail == NIL_INDEX
                &&& st1.free_list().len() == st0.free_list().len() - 1
                &&& final_pos == end
                &&& env1 == env0
            }
        },
        SpecToken::Symbol(name) => {
            &&& (st0.free_list().len() == 0) <==> r == ParseOutcome::Invalid(
                ParseError::OutOfCells,
            )
            &&& (st0.free_list().len() > 0) ==> {
                &&& r matches ParseOutcome::Complete(idx)
                &&& st1@[idx as int].val matches CellType::Symbol(k) && k < env1@.len()
                    && env1@[k as int] == name && (env0@.contains(name) ==> env1@ == env0@) && (
                !env0@.contains(name) ==> env1@ == env0@.push(name) && k == env0@.len())
                &&& st1@[idx as int].tail == NIL_INDEX
                &&& st1.free_list().len() == st0.free_list().len() - 1
                &&& final_pos == end
            }
        },
        SpecToken::LeftParen => true,
    }
}

/// The recursive-descent parser. `nesting` counts the open parentheses, for
/// the caller's prompt.
pub struct Parser {
    pub nesting: usize,
}

impl Parser {
    pub fn new() -> (p: Parser)
        ensures
            p.nesting == 0,
    {
        Parser { nesting: 0 }
    }

    /// Parses one expression from the start of `input` into the arena.
    pub fn parse(&mut self, input: &Vec<u8>, storage: &mut CellStorage, env: &mut Env) -> (r:
        ParseOutcome)
        requires
            old(storage).wf(),
            old(env).wf(),
        ensures
            final(storage).wf(),
            final(env).wf(),
            final(storage)@.len() == old(storage)@.len(),
            forall|j: int| 0 <= j < old(storage)@.len() && !((#[trigger] old(storage)@[j]).val
                is Free) ==> final(storage)@[j] == old(storage)@[j],
            final(storage).free_list().len() <= old(storage).free_list().len(),
            forall|k: int| 0 <= k < old(env)@.len() ==> final(env)@[k] == old(env)@[k],
            final(env)@.len() >= old(env)@.len(),
            r matches ParseOutcome::Complete(idx) ==> exists|e: SExp|
                repr(final(storage)@, idx as int, e) && syms_ok(e, final(env)@.len() as int)
                    && no_overlap(final(storage)@, idx as int, e)
                    && tree_size(e) == old(storage).free_list().len()
                    - final(storage).free_list().len()
                    && tree_dom(final(storage)@, idx as int, e).subset_of(
                    free_slots(old(storage)@),
                ) && sexp_at(input@, 0, final(env)@, e),
            token_at(input@, 0) is End ==> r == ParseOutcome::Incomplete,
            token_at(input@, 0) is Bad ==> r == ParseOutcome::Invalid(
                ParseError::UnrecognizedChar,
            ),
            token_at(input@, 0) matches SpecScan::Tok(st, end) ==> exists|p: int|
                #[trigger] parse_sexp_token_post(
                    st,
                    end,
                    r,
                    p,
                    *old(storage),
                    *final(storage),
                    *old(env),
                    *final(env),
                ),
    {
        let mut tokens = TokenStream::new(input);
        let r = self.parse_sexp(&mut tokens, storage, env);
        proof {
            match token_at(input@, 0) {
                SpecScan::Tok(st, end) => {
                    assert(parse_sexp_token_post(
                        st,
                        end,
                        r,
                        tokens.pos as int,
                        *old(storage),
                        *storage,
                        *old(env),
                        *env,
                    ));
                },
                _ => {},
            }
        }
        r
    }

    /// Parses one s-expression: an atom, or a parenthesized list.
    #[verifier::rlimit(60)]
    #[verifier::spinoff_prover]
    pub fn parse_sexp(
        &mut self,
        tokens: &mut TokenStream,
        storage: &mut CellStorage,
        env: &mut Env,
    ) -> (r: ParseOutcome)
        requires
            old(tokens).wf(),
            old(storage).wf(),
            old(env).wf(),
        ensures
            final(tokens).wf(),
            final(storage).wf(),
            final(env).wf(),
            final(tokens).input@ == old(tokens).input@,
            final(tokens).pos >= old(tokens).pos,
            final(storage)@.len() == old(storage)@.len(),
            forall|j: int| 0 <= j < old(storage)@.len() && !((#[trigger] old(storage)@[j]).val
                is Free) ==> final(storage)@[j] == old(storage)@[j],
            final(storage).free_list().len() <= old(storage).free_list().len(),
            forall|k: int| 0 <= k < old(env)@.len() ==> final(env)@[k] == old(env)@[k],
            final(env)@.len() >= old(env)@.len(),
            token_at(old(tokens).input@, old(tokens).pos as int) is End ==> r
                == ParseOutcome::Incomplete,
            token_at(old(tokens).input@, old(tokens).pos as int) is Bad ==> r
                == ParseOutcome::Invalid(ParseError::UnrecognizedChar),
            token_at(old(tokens).input@, old(tokens).pos as int) matches SpecScan::Tok(st, end)
                ==> parse_sexp_token_post(
                st,
                end,
                r,
                final(tokens).pos as int,
                *old(storage),
                *final(storage),
                *old(env),
                *final(env),
            ),
            r matches ParseOutcome::Complete(idx) ==> final(tokens).pos > old(tokens).pos,
            r matches ParseOutcome::Complete(idx) ==> exists|e: SExp|
                repr(final(storage)@, idx as int, e) && syms_ok(e, final(env)@.len() as int)
                    && no_overlap(final(storage)@, idx as int, e)
                    && tree_size(e) == old(storage).free_list().len()
                    - final(storage).free_list().len()
                    && tree_dom(final(storage)@, idx as int, e).subset_of(
                    free_slots(old(storage)@),
                ) && sexp_at(old(tokens).input@, old(tokens).pos as int, final(env)@, e)
                    && final(tokens).pos as int == sexp_end(
                    old(tokens).input@,
                    old(tokens).pos as int,
                    e,
                ),
        decreases old(tokens).input@.len() - old(tokens).pos, 0int,
    {
        let ghost s = tokens.input@;
        let ghost p0 = tokens.pos as int;
        match tokens.next_token() {
            Err(_) => ParseOutcome::Invalid(ParseError::UnrecognizedChar),
            Ok(None) => ParseOutcome::Incomplete,
            Ok(Some(Token::Number(digits))) => {
                proof {
                    lemma_skip_ws_bounds(s, p0);
                    lemma_run_end_bounds(s, skip_ws(s, p0), CharClass::Digit);
                    assert forall|k: int| 0 <= k < digits@.len() implies is_digit(
                        #[trigger] digits@[k],
                    ) by {
                        let p = skip_ws(s, p0);
                        assert(digits@[k] == s[p + k]);
                    }
                }
                match digits_to_i32(&digits) {
                    Some(n) => match storage.alloc_cell(CellType::Number(n)) {
                        Ok(idx) => {
                            proof {
                                let e = SExp::Num(n);
                                assert(repr(storage@, idx as int, e));
                                assert(no_overlap(storage@, idx as int, e));
                                assert forall|j: int| #[trigger] tree_dom(
                                    storage@,
                                    idx as int,
                                    e,
                                ).contains(j) implies free_slots(old(storage)@).contains(j) by {
                                    assert(j == idx as int);
                                }
                                assert(sexp_at(s, p0, env@, e));
                                assert(tokens.pos as int == sexp_end(s, p0, e));
                                assert(exists|we: SExp|
                                    repr(storage@, idx as int, we) && syms_ok(we, env@.len() as int)
                                        && no_overlap(storage@, idx as int, we)
                                        && tree_size(we) == old(storage).free_list().len()
                                        - storage.free_list().len()
                                        && tree_dom(storage@, idx as int, we).subset_of(
                                        free_slots(old(storage)@),
                                    ) && sexp_at(s, p0, env@, we) && tokens.pos as int == sexp_end(
                                        s,
                                        p0,
                                        we,
                                    )) by {
                                    assert(repr(storage@, idx as int, e));
                                    assert(syms_ok(e, env@.len() as int));
                                    assert(no_overlap(storage@, idx as int, e));
                                    assert(tree_size(e) == old(storage).free_list().len()
                                        - storage.free_list().len());
                                    assert(tree_dom(storage@, idx as int, e).subset_of(free_slots(old(storage)@)));
                                    assert(sexp_at(s, p0, env@, e));
                                }
                            }
                            ParseOutcome::Complete(idx)
                        },
                        Err(_) => ParseOutcome::Invalid(ParseError::OutOfCells),
                    },
                    None => ParseOutcome::Invalid(ParseError::NumberTooLarge),
                }
            },
            Ok(Some(Token::Symbol(name))) => {
                let sym = env.add_sym(name);
                match storage.alloc_cell(CellType::Symbol(sym)) {
                    Ok(idx) => {
                        proof {
                            let e = SExp::Sym(sym);
                            assert(repr(storage@, idx as int, e));
                            assert(syms_ok(e, env@.len() as int));
                            assert(no_overlap(storage@, idx as int, e));
                            assert forall|j: int| #[trigger] tree_dom(
                                storage@,
                                idx as int,
                                e,
                            ).contains(j) implies free_slots(old(storage)@).contains(j) by {
                                assert(j == idx as int);
                            }
                            assert(sexp_at(s, p0, env@, e));
                            assert(tokens.pos as int == sexp_end(s, p0, e));
                            assert(exists|we: SExp|
                                repr(storage@, idx as int, we) && syms_ok(we, env@.len() as int)
                                    && no_overlap(storage@, idx as int, we)
                                    && tree_size(we) == old(storage).free_list().len()
                                    - storage.free_list().len()
                                    && tree_dom(storage@, idx as int, we).subset_of(
                                    free_slots(old(storage)@),
                                ) && sexp_at(s, p0, env@, we) && tokens.pos as int == sexp_end(
                                    s,
                                    p0,
                                    we,
                                )) by {
                                assert(repr(storage@, idx as int, e));
                                assert(syms_ok(e, env@.len() as int));
                                assert(no_overlap(storage@, idx as int, e));
                                assert(tree_size(e) == old(storage).free_list().len()
                                    - storage.free_list().len());
                                assert(tree_dom(storage@, idx as int, e).subset_of(free_slots(old(storage)@)));
                                assert(sexp_at(s, p0, env@, e));
                            }
                        }
                        ParseOutcome::Complete(idx)
                    },
                    Err(_) => ParseOutcome::Invalid(ParseError::OutOfCells),
                }
            },
            Ok(Some(Token::LeftParen)) => {
                if self.nesting < usize::MAX {
                    self.nesting = self.nesting + 1;
                }
                let ghost p1 = tokens.pos as int;
                match self.parse_sexps(tokens, storage, env) {
                    ParseOutcome::Complete(exps) => {
                        if self.nesting > 0 {
                            self.nesting = self.nesting - 1;
                        }
                        let ghost e_inner = choose|e: SExp|
                            repr(storage@, exps as int, e) && syms_ok(e, env@.len() as int)
                                && no_overlap(storage@, exps as int, e)
                                && tree_size(e) == old(storage).free_list().len()
                                - storage.free_list().len()
                                && tree_dom(storage@, exps as int, e).subset_of(
                                free_slots(old(storage)@),
                            ) && sexps_at(s, p1, env@, e) && tokens.pos as int == sexps_end(
                                s,
                                p1,
                                e,
                            );
                        let ghost mid = tokens.pos as int;
                        match tokens.next_token() {
                            Ok(Some(Token::RightParen)) => {
                                proof {
                                    assert(token_at(s, mid) matches SpecScan::Tok(
                                        SpecToken::RightParen,
                                        p2,
                                    ) && tokens.pos as int == p2);
                                    assert(sexp_at(s, p0, env@, e_inner));
                                    assert(tokens.pos as int == sexp_end(s, p0, e_inner));
                                    assert(exists|we: SExp|
                                        repr(storage@, exps as int, we) && syms_ok(
                                            we,
                                            env@.len() as int,
                                        ) && no_overlap(storage@, exps as int, we) && tree_size(
                                            we,
                                        ) == old(storage).free_list().len()
                                            - storage.free_list().len() && tree_dom(
                                            storage@,
                                            exps as int,
                                            we,
                                        ).subset_of(free_slots(old(storage)@)) && sexp_at(
                                            s,
                                            p0,
                                            env@,
                                            we,
                                        ) && tokens.pos as int == sexp_end(s, p0, we)) by {
                                        assert(repr(storage@, exps as int, e_inner));
                                        assert(syms_ok(e_inner, env@.len() as int));
                                        assert(no_overlap(storage@, exps as int, e_inner));
                                        assert(tree_size(e_inner) == old(
                                            storage,
                                        ).free_list().len() - storage.free_list().len());
                                        assert(tree_dom(storage@, exps as int, e_inner).subset_of(
                                            free_slots(old(storage)@),
                                        ));
                                        assert(sexp_at(s, p0, env@, e_inner));
                                        assert(tokens.pos as int == sexp_end(s, p0, e_inner));
                                    }
                                }
                                ParseOutcome::Complete(exps)
                            },
                            Ok(Some(_)) => ParseOutcome::Invalid(ParseError::UnexpectedToken),
                            Ok(None) => ParseOutcome::Incomplete,
                            Err(_) => ParseOutcome::Invalid(ParseError::UnrecognizedChar),
                        }
                    },
                    other => other,
                }
            },
            Ok(Some(Token::RightParen)) => ParseOutcome::Invalid(ParseError::UnexpectedToken),
            Ok(Some(Token::Dot)) => ParseOutcome::Invalid(ParseError::UnexpectedToken),
        }
    }

    /// Parses a list interior: nil before a closing parenthesis (left for
    /// the caller), a dotted pair, or a proper-list continuation. Each
    /// element becomes one cons cell linking it to the rest.
    #[verifier::rlimit(60)]
    #[verifier::spinoff_prover]
    pub fn parse_sexps(
        &mut self,
        tokens: &mut TokenStream,
        storage: &mut CellStorage,
        env: &mut Env,
    ) -> (r: ParseOutcome)
        requires
            old(tokens).wf(),
            old(storage).wf(),
            old(env).wf(),
        ensures
            final(tokens).wf(),
            final(storage).wf(),
            final(env).wf(),
            final(tokens).input@ == old(tokens).input@,
            final(tokens).pos >= old(tokens).pos,
            final(storage)@.len() == old(storage)@.len(),
            forall|j: int| 0 <= j < old(storage)@.len() && !((#[trigger] old(storage)@[j]).val
                is Free) ==> final(storage)@[j] == old(storage)@[j],
            final(storage).free_list().len() <= old(storage).free_list().len(),
            forall|k: int| 0 <= k < old(env)@.len() ==> final(env)@[k] == old(env)@[k],
            final(env)@.len() >= old(env)@.len(),
            r matches ParseOutcome::Complete(idx) ==> exists|e: SExp|
                repr(final(storage)@, idx as int, e) && syms_ok(e, final(env)@.len() as int)
                    && no_overlap(final(storage)@, idx as int, e)
                    && tree_size(e) == old(storage).free_list().len()
                    - final(storage).free_list().len()
                    && tree_dom(final(storage)@, idx as int, e).subset_of(
                    free_slots(old(storage)@),
                ) && sexps_at(old(tokens).input@, old(tokens).pos as int, final(env)@, e)
                    && final(tokens).pos as int == sexps_end(
                    old(tokens).input@,
                    old(tokens).pos as int,
                    e,
                ),
            token_at(old(tokens).input@, old(tokens).pos as int) matches SpecScan::Tok(st, _)
                && st is RightParen ==> r == ParseOutcome::Complete(NIL_INDEX)
                && final(tokens).pos == old(tokens).pos && *final(storage) == *old(storage)
                && *final(env) == *old(env),
        decreases old(tokens).input@.len() - old(tokens).pos, 1int,
    {
        let ghost s = tokens.input@;
        let ghost p0 = tokens.pos as int;
        let peeked = tokens.peek_token();
        match peeked {
            Ok(Some(Token::RightParen)) => {
                proof {
                    assert(repr(storage@, 0int, SExp::Nil));
                    assert(tree_dom(storage@, 0int, SExp::Nil) =~= Set::<int>::empty());
                    assert(sexps_at(s, p0, env@, SExp::Nil));
                    assert(tokens.pos as int == sexps_end(s, p0, SExp::Nil));
                    assert(exists|we: SExp|
                        repr(storage@, 0int, we) && syms_ok(we, env@.len() as int)
                            && no_overlap(storage@, 0int, we)
                            && tree_size(we) == old(storage).free_list().len()
                            - storage.free_list().len()
                            && tree_dom(storage@, 0int, we).subset_of(
                            free_slots(old(storage)@),
                        ) && sexps_at(s, p0, env@, we) && tokens.pos as int == sexps_end(
                            s,
                            p0,
                            we,
                        )) by {
                        assert(sexps_at(s, p0, env@, SExp::Nil));
                        assert(repr(storage@, 0int, SExp::Nil));
                        assert(syms_ok(SExp::Nil, env@.len() as int));
                        assert(no_overlap(storage@, 0int, SExp::Nil));
                        assert(tree_size(SExp::Nil) == old(storage).free_list().len() as int - storage.free_list().len() as int);
                        assert(tree_dom(storage@, 0int, SExp::Nil).subset_of(free_slots(old(storage)@)));

                    }
                }
                ParseOutcome::Complete(NIL_INDEX)
            },
            _ => {
                match self.parse_sexp(tokens, storage, env) {
                    ParseOutcome::Complete(car) => {
                        let ghost e_car = choose|e: SExp|
                            repr(storage@, car as int, e) && syms_ok(e, env@.len() as int)
                                && no_overlap(storage@, car as int, e)
                                && tree_size(e) == old(storage).free_list().len()
                                - storage.free_list().len()
                                && tree_dom(storage@, car as int, e).subset_of(
                                free_slots(old(storage)@),
                            ) && sexp_at(s, p0, env@, e) && tokens.pos as int == sexp_end(
                                s,
                                p0,
                                e,
                            );
                        let ghost mid_fl = storage.free_list().len() as int;
                        let ghost mid_cells = storage@;
                        let ghost mid_syms = env@.len() as int;
                        let ghost mid_env = env@;
                        let ghost mid_pos = tokens.pos as int;
                        let dotted = match tokens.peek_token() {
                            Ok(Some(Token::Dot)) => true,
                            _ => false,
                        };
                        let tail_res = if dotted {
                            let _ = tokens.next_token();
                            self.parse_sexp(tokens, storage, env)
                        } else {
                            self.parse_sexps(tokens, storage, env)
                        };
                        match tail_res {
                            ParseOutcome::Complete(cdr) => {
                                let ghost e_cdr = choose|e: SExp|
                                    repr(storage@, cdr as int, e) && syms_ok(
                                        e,
                                        env@.len() as int,
                                    ) && no_overlap(storage@, cdr as int, e) && tree_size(e)
                                        == mid_fl - storage.free_list().len() && tree_dom(
                                        storage@,
                                        cdr as int,
                                        e,
                                    ).subset_of(free_slots(mid_cells)) && (if dotted {
                                        match token_at(s, mid_pos) {
                                            SpecScan::Tok(SpecToken::Dot, p2) => sexp_at(
                                                s,
                                                p2,
                                                env@,
                                                e,
                                            ) && tokens.pos as int == sexp_end(s, p2, e),
                                            _ => false,
                                        }
                                    } else {
                                        sexps_at(s, mid_pos, env@, e) && tokens.pos as int
                                            == sexps_end(s, mid_pos, e)
                                    });
                                proof {
                                        lemma_dom_live(mid_cells, car as int, e_car);
                                    lemma_repr_frame_live(mid_cells, storage@, car as int, e_car);
                                    lemma_no_overlap_frame_live(
                                        mid_cells,
                                        storage@,
                                        car as int,
                                        e_car,
                                    );
                                    lemma_syms_ok_widen(e_car, mid_syms, env@.len() as int);
                                }
                                let ghost s1 = storage@;
                                match storage.alloc_cell(CellType::Cons(car)) {
                                    Ok(idx) => {
                                        proof {
                                                        lemma_repr_frame_live(s1, storage@, car as int, e_car);
                                            lemma_repr_frame_live(s1, storage@, cdr as int, e_cdr);
                                            lemma_no_overlap_frame_live(
                                                s1,
                                                storage@,
                                                car as int,
                                                e_car,
                                            );
                                            lemma_no_overlap_frame_live(
                                                s1,
                                                storage@,
                                                cdr as int,
                                                e_cdr,
                                            );
                                        }
                                        let ghost s2 = storage@;
                                        storage.set_tail(idx, cdr);
                                        proof {
                                                        lemma_dom_live(s1, car as int, e_car);
                                            lemma_dom_live(s1, cdr as int, e_cdr);
                                            assert forall|j: int| tree_dom(
                                                s2,
                                                car as int,
                                                e_car,
                                            ).contains(j) implies storage@[j] == s2[j] by {
                                                assert(tree_dom(s1, car as int, e_car).contains(
                                                    j,
                                                ));
                                                assert(j != idx as int);
                                            }
                                            assert forall|j: int| tree_dom(
                                                s2,
                                                cdr as int,
                                                e_cdr,
                                            ).contains(j) implies storage@[j] == s2[j] by {
                                                assert(tree_dom(s1, cdr as int, e_cdr).contains(
                                                    j,
                                                ));
                                                assert(j != idx as int);
                                            }
                                            lemma_repr_frame(s2, storage@, car as int, e_car);
                                            lemma_repr_frame(s2, storage@, cdr as int, e_cdr);
                                            lemma_no_overlap_frame(
                                                s2,
                                                storage@,
                                                car as int,
                                                e_car,
                                            );
                                            lemma_no_overlap_frame(
                                                s2,
                                                storage@,
                                                cdr as int,
                                                e_cdr,
                                            );
                                            let e_pair = SExp::Pair(
                                                Box::new(e_car),
                                                Box::new(e_cdr),
                                            );
                                            assert(repr(storage@, idx as int, e_pair));
                                            assert(syms_ok(e_pair, env@.len() as int));
                                            assert(tree_size(e_pair) == 1 + tree_size(e_car)
                                                + tree_size(e_cdr));
                                            let hd = tree_dom(storage@, car as int, e_car);
                                            let td = tree_dom(storage@, cdr as int, e_cdr);
                                            assert(hd == tree_dom(mid_cells, car as int, e_car));
                                            assert(td == tree_dom(s1, cdr as int, e_cdr));
                                            assert(s1[idx as int].val is Free);
                                            assert(!hd.contains(idx as int));
                                            assert(!td.contains(idx as int));
                                            assert forall|x: int| hd.contains(x)
                                                implies !td.contains(x) by {
                                                assert(tree_dom(
                                                    mid_cells,
                                                    car as int,
                                                    e_car,
                                                ).contains(x));
                                                assert(!(mid_cells[x].val is Free));
                                                if td.contains(x) {
                                                    assert(tree_dom(
                                                        s1,
                                                        cdr as int,
                                                        e_cdr,
                                                    ).contains(x));
                                                    assert(free_slots(mid_cells).contains(x));
                                                    assert(mid_cells[x].val is Free);
                                                }
                                            }
                                            assert(no_overlap(storage@, idx as int, e_pair));
                                            assert forall|j: int| #[trigger] tree_dom(
                                                storage@,
                                                idx as int,
                                                e_pair,
                                            ).contains(j) implies free_slots(
                                                old(storage)@,
                                            ).contains(j) by {
                                                lemma_dom_live(storage@, idx as int, e_pair);
                                                if j == idx as int {
                                                    if !(old(storage)@[j].val is Free) {
                                                        assert(mid_cells[j] == old(storage)@[j]);
                                                        assert(s1[j] == mid_cells[j]);
                                                    }
                                                } else if hd.contains(j) {
                                                    assert(tree_dom(
                                                        mid_cells,
                                                        car as int,
                                                        e_car,
                                                    ).contains(j));
                                                    assert(free_slots(
                                                        old(storage)@,
                                                    ).contains(j));
                                                } else {
                                                    assert(td.contains(j));
                                                    assert(tree_dom(
                                                        s1,
                                                        cdr as int,
                                                        e_cdr,
                                                    ).contains(j));
                                                    assert(free_slots(mid_cells).contains(j));
                                                    assert(mid_cells[j].val is Free);
                                                    if !(old(storage)@[j].val is Free) {
                                                        assert(mid_cells[j] == old(storage)@[j]);
                                                    }
                                                }
                                            }
                                            lemma_sexp_at_env_grow(
                                                s,
                                                p0,
                                                mid_env,
                                                env@,
                                                e_car,
                                                false,
                                            );
                                            assert(!(token_at(s, p0) matches SpecScan::Tok(
                                                SpecToken::RightParen,
                                                q,
                                            )));
                                            assert(sexp_end(s, p0, e_car) == mid_pos);
                                            if !dotted {
                                                assert(!(token_at(s, mid_pos)
                                                    matches SpecScan::Tok(SpecToken::Dot, q2)));
                                            }
                                            assert(sexps_at(s, p0, env@, e_pair));
                                            assert(tokens.pos as int == sexps_end(s, p0, e_pair));
                                            assert(exists|we: SExp|
                                                repr(storage@, idx as int, we) && syms_ok(we, env@.len() as int)
                                                    && no_overlap(storage@, idx as int, we)
                                                    && tree_size(we) == old(storage).free_list().len()
                                                    - storage.free_list().len()
                                                    && tree_dom(storage@, idx as int, we).subset_of(
                                                    free_slots(old(storage)@),
                                                ) && sexps_at(s, p0, env@, we) && tokens.pos as int
                                                    == sexps_end(s, p0, we)) by {
                                                assert(repr(storage@, idx as int, e_pair));
                                                assert(syms_ok(e_pair, env@.len() as int));
                                                assert(no_overlap(storage@, idx as int, e_pair));
                                                assert(tree_size(e_pair) == old(storage).free_list().len()
                                                    - storage.free_list().len());
                                                assert(tree_dom(storage@, idx as int, e_pair).subset_of(free_slots(old(storage)@)));
                                                assert(sexps_at(s, p0, env@, e_pair));
                                            }
                                        }
                                        ParseOutcome::Complete(idx)
                                    },
                                    Err(_) => ParseOutcome::Invalid(ParseError::OutOfCells),
                                }
                            },
                            other => other,
                        }
                    },
                    other => other,
                }
            },
        }
    }
}

} // verus!
