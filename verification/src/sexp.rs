//! The mathematical model of expression trees.
//!
//! An arena tree is abstracted as an `SExp`: the shape a chain of cells
//! spells out, independent of which slots it happens to occupy. The
//! predicate `repr` ties a root index in a cell sequence to such a shape;
//! every contract of the library is stated over it.

use vstd::prelude::*;

use crate::cell::{Cell, CellType};

verus! {

/// The shape of an expression tree: the empty list, an integer atom, an
/// interned symbol atom, or a cons pair of two subtrees.
pub enum SExp {
    Nil,
    Num(i32),
    Sym(usize),
    Pair(Box<SExp>, Box<SExp>),
}

/// How many arena cells a tree of this shape occupies. The nil sentinel is
/// shared and costs nothing.
pub open spec fn tree_size(e: SExp) -> nat
    decreases e,
{
    match e {
        SExp::Nil => 0,
        SExp::Num(_) => 1,
        SExp::Sym(_) => 1,
        SExp::Pair(h, t) => 1 + tree_size(*h) + tree_size(*t),
    }
}

/// The head index a cons cell at `idx` stores, or the nil sentinel when the
/// cell is not a cons.
pub open spec fn head_index(cells: Seq<Cell>, idx: int) -> int {
    match cells[idx].val {
        CellType::Cons(hi) => hi as int,
        _ => 0,
    }
}

/// The cell at `idx` is the root of a tree of shape `e`: the empty list is
/// exactly the nil sentinel, atoms are single cells with the matching tag,
/// and a pair is a cons cell whose head and tail indices are roots of the
/// two subtrees.
pub open spec fn repr(cells: Seq<Cell>, idx: int, e: SExp) -> bool
    decreases e,
{
    match e {
        SExp::Nil => idx == 0,
        SExp::Num(n) => 1 <= idx < cells.len() && cells[idx].val == CellType::Number(n),
        SExp::Sym(s) => 1 <= idx < cells.len() && cells[idx].val == CellType::Symbol(s),
        SExp::Pair(h, t) => {
            &&& 1 <= idx < cells.len()
            &&& cells[idx].val is Cons
            &&& repr(cells, head_index(cells, idx), *h)
            &&& repr(cells, cells[idx].tail as int, *t)
        },
    }
}

/// The set of arena indices the tree of shape `e` rooted at `idx` occupies.
pub open spec fn tree_dom(cells: Seq<Cell>, idx: int, e: SExp) -> Set<int>
    decreases e,
{
    match e {
        SExp::Nil => Set::empty(),
        SExp::Num(_) => set![idx],
        SExp::Sym(_) => set![idx],
        SExp::Pair(h, t) => set![idx].union(
            tree_dom(cells, head_index(cells, idx), *h),
        ).union(tree_dom(cells, cells[idx].tail as int, *t)),
    }
}

/// The head subtree of a pair shape.
pub open spec fn pair_head(e: SExp) -> SExp {
    match e {
        SExp::Pair(h, _) => *h,
        _ => SExp::Nil,
    }
}

/// The tail subtree of a pair shape.
pub open spec fn pair_tail(e: SExp) -> SExp {
    match e {
        SExp::Pair(_, t) => *t,
        _ => SExp::Nil,
    }
}

/// What `repr` says cell tags look like, spelled out per shape: the tag
/// determines the shape's variant and the pair links carry the subtrees.
pub proof fn lemma_repr_shape(cells: Seq<Cell>, idx: int, e: SExp)
    requires
        repr(cells, idx, e),
        cells.len() >= 1,
        cells[0].val is Free,
    ensures
        0 <= idx < cells.len(),
        (e is Nil) <==> idx == 0,
        (e is Num) <==> cells[idx].val is Number,
        (e is Sym) <==> cells[idx].val is Symbol,
        (e is Pair) <==> cells[idx].val is Cons,
        e matches SExp::Num(n) ==> cells[idx].val == CellType::Number(n),
        e matches SExp::Sym(s) ==> cells[idx].val == CellType::Symbol(s),
        e is Pair ==> repr(cells, head_index(cells, idx), pair_head(e)) && repr(
            cells,
            cells[idx].tail as int,
            pair_tail(e),
        ) && cells[idx].val == CellType::Cons(head_index(cells, idx) as usize)
            && e == SExp::Pair(Box::new(pair_head(e)), Box::new(pair_tail(e))),
{
    match e {
        SExp::Nil => {},
        SExp::Num(_) => {},
        SExp::Sym(_) => {},
        SExp::Pair(h, t) => {},
    }
}

/// The slots that are free in `cells`.
pub open spec fn free_slots(cells: Seq<Cell>) -> Set<int> {
    Set::new(|j: int| 0 <= j < cells.len() && cells[j].val is Free)
}

/// The tree rooted at `idx` is single-owner: no cell appears twice in it.
/// Parsing always builds such trees; `quote` copies, so its result is one
/// too. Freeing such a tree returns exactly its cells to the free list.
pub open spec fn no_overlap(cells: Seq<Cell>, idx: int, e: SExp) -> bool
    decreases e,
{
    match e {
        SExp::Pair(h, t) => {
            let hd = tree_dom(cells, head_index(cells, idx), *h);
            let td = tree_dom(cells, cells[idx].tail as int, *t);
            &&& !hd.contains(idx)
            &&& !td.contains(idx)
            &&& hd.disjoint(td)
            &&& no_overlap(cells, head_index(cells, idx), *h)
            &&& no_overlap(cells, cells[idx].tail as int, *t)
        },
        _ => true,
    }
}

/// A subtree's domain lies inside its parent's.
pub proof fn lemma_subtree_dom(cells: Seq<Cell>, idx: int, e: SExp)
    requires
        e is Pair,
    ensures
        tree_dom(cells, idx, e).contains(idx),
        tree_dom(cells, head_index(cells, idx), pair_head(e)).subset_of(tree_dom(cells, idx, e)),
        tree_dom(cells, cells[idx].tail as int, pair_tail(e)).subset_of(tree_dom(cells, idx, e)),
{
    match e {
        SExp::Pair(h, t) => {},
        _ => {},
    }
}

/// Changing only cells outside the tree's domain preserves single
/// ownership too.
pub proof fn lemma_no_overlap_frame(c1: Seq<Cell>, c2: Seq<Cell>, idx: int, e: SExp)
    requires
        repr(c1, idx, e),
        no_overlap(c1, idx, e),
        c2.len() == c1.len(),
        forall|j: int| tree_dom(c1, idx, e).contains(j) ==> c2[j] == c1[j],
    ensures
        no_overlap(c2, idx, e),
    decreases e,
{
    lemma_repr_frame(c1, c2, idx, e);
    match e {
        SExp::Pair(h, t) => {
            lemma_subtree_dom(c1, idx, e);
            assert(c2[idx] == c1[idx]);
            lemma_repr_frame(c1, c2, head_index(c1, idx), *h);
            lemma_repr_frame(c1, c2, c1[idx].tail as int, *t);
            lemma_no_overlap_frame(c1, c2, head_index(c1, idx), *h);
            lemma_no_overlap_frame(c1, c2, c1[idx].tail as int, *t);
        },
        _ => {},
    }
}

/// Every symbol index mentioned in `e` is below `n`, the number of interned
/// symbols.
pub open spec fn syms_ok(e: SExp, n: int) -> bool
    decreases e,
{
    match e {
        SExp::Nil => true,
        SExp::Num(_) => true,
        SExp::Sym(s) => s < n,
        SExp::Pair(h, t) => syms_ok(*h, n) && syms_ok(*t, n),
    }
}

pub proof fn lemma_syms_ok_widen(e: SExp, n: int, m: int)
    requires
        syms_ok(e, n),
        n <= m,
    ensures
        syms_ok(e, m),
    decreases e,
{
    match e {
        SExp::Pair(h, t) => {
            lemma_syms_ok_widen(*h, n, m);
            lemma_syms_ok_widen(*t, n, m);
        },
        _ => {},
    }
}

/// A root index spells out at most one shape.
pub proof fn lemma_repr_unique(cells: Seq<Cell>, idx: int, e1: SExp, e2: SExp)
    requires
        repr(cells, idx, e1),
        repr(cells, idx, e2),
    ensures
        e1 == e2,
    decreases e1,
{
    match e1 {
        SExp::Pair(h1, t1) => match e2 {
            SExp::Pair(h2, t2) => {
                lemma_repr_unique(cells, head_index(cells, idx), *h1, *h2);
                lemma_repr_unique(cells, cells[idx].tail as int, *t1, *t2);
            },
            _ => {},
        },
        _ => {},
    }
}

/// Every cell a tree occupies is a live (non-free) cell within bounds.
pub proof fn lemma_dom_live(cells: Seq<Cell>, idx: int, e: SExp)
    requires
        repr(cells, idx, e),
    ensures
        forall|j: int| #[trigger] tree_dom(cells, idx, e).contains(j)
            ==> 1 <= j < cells.len() && !(cells[j].val is Free),
    decreases e,
{
    match e {
        SExp::Pair(h, t) => {
            lemma_dom_live(cells, head_index(cells, idx), *h);
            lemma_dom_live(cells, cells[idx].tail as int, *t);
            assert forall|j: int| #[trigger] tree_dom(cells, idx, e).contains(j) implies 1 <= j
                < cells.len() && !(cells[j].val is Free) by {
                if tree_dom(cells, head_index(cells, idx), *h).contains(j) {
                } else if tree_dom(cells, cells[idx].tail as int, *t).contains(j) {
                } else {
                    assert(j == idx);
                }
            }
        },
        _ => {},
    }
}

/// Changing only cells outside the tree's domain disturbs neither the tree
/// nor its domain.
pub proof fn lemma_repr_frame(c1: Seq<Cell>, c2: Seq<Cell>, idx: int, e: SExp)
    requires
        repr(c1, idx, e),
        c2.len() == c1.len(),
        forall|j: int| tree_dom(c1, idx, e).contains(j) ==> c2[j] == c1[j],
    ensures
        repr(c2, idx, e),
        tree_dom(c2, idx, e) == tree_dom(c1, idx, e),
    decreases e,
{
    match e {
        SExp::Pair(h, t) => {
            assert(tree_dom(c1, idx, e).contains(idx));
            lemma_repr_frame(c1, c2, head_index(c1, idx), *h);
            lemma_repr_frame(c1, c2, c1[idx].tail as int, *t);
            assert(tree_dom(c2, idx, e) =~= tree_dom(c1, idx, e));
        },
        SExp::Num(_) => {
            assert(tree_dom(c1, idx, e).contains(idx));
            assert(tree_dom(c2, idx, e) =~= tree_dom(c1, idx, e));
        },
        SExp::Sym(_) => {
            assert(tree_dom(c1, idx, e).contains(idx));
            assert(tree_dom(c2, idx, e) =~= tree_dom(c1, idx, e));
        },
        SExp::Nil => {
            assert(tree_dom(c2, idx, e) =~= tree_dom(c1, idx, e));
        },
    }
}

/// Changing only cells that were free preserves every tree: live trees never
/// stand on free cells.
pub proof fn lemma_repr_frame_live(c1: Seq<Cell>, c2: Seq<Cell>, idx: int, e: SExp)
    requires
        repr(c1, idx, e),
        c2.len() == c1.len(),
        forall|j: int| 0 <= j < c1.len() && !((#[trigger] c1[j]).val is Free) ==> c2[j] == c1[j],
    ensures
        repr(c2, idx, e),
        tree_dom(c2, idx, e) == tree_dom(c1, idx, e),
{
    lemma_dom_live(c1, idx, e);
    lemma_repr_frame(c1, c2, idx, e);
}

/// The same, for single ownership.
pub proof fn lemma_no_overlap_frame_live(c1: Seq<Cell>, c2: Seq<Cell>, idx: int, e: SExp)
    requires
        repr(c1, idx, e),
        no_overlap(c1, idx, e),
        c2.len() == c1.len(),
        forall|j: int| 0 <= j < c1.len() && !((#[trigger] c1[j]).val is Free) ==> c2[j] == c1[j],
    ensures
        no_overlap(c2, idx, e),
{
    lemma_dom_live(c1, idx, e);
    lemma_no_overlap_frame(c1, c2, idx, e);
}

} // verus!
