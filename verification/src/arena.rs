//! The fixed-capacity cell arena with free-list allocation.
//!
//! Slot `0` is the reserved nil sentinel: never allocated, never on the free
//! list. Every other free slot stands on a singly linked free list threaded
//! through the cells' tail fields; the ghost sequence `free_list` records
//! that list in order, and `wf` states the invariant every operation
//! preserves: the list is duplicate-free, lies in bounds, links as the tail
//! fields say, and holds exactly the free slots.

use vstd::prelude::*;
use vstd::seq_lib::*;
use vstd::set_lib::*;

use crate::cell::{Cell, CellType, NIL_INDEX};
use crate::sexp::{
    lemma_dom_live, lemma_no_overlap_frame, lemma_repr_frame, lemma_repr_shape, lemma_repr_unique,
    lemma_subtree_dom, no_overlap, pair_head, pair_tail, repr, tree_dom, tree_size, SExp,
};

verus! {

/// The cells a row of trees occupies in all.
pub open spec fn sum_sizes(gs: Seq<SExp>) -> nat
    decreases gs.len(),
{
    if gs.len() == 0 {
        0
    } else {
        sum_sizes(gs.drop_last()) + tree_size(gs.last())
    }
}

/// Changing one cell that no listed tree occupies leaves every listed tree,
/// its single ownership, and its domain untouched.
proof fn lemma_entries_frame(c1: Seq<Cell>, c2: Seq<Cell>, stack: Seq<usize>, gs: Seq<SExp>, x: int)
    requires
        c2.len() == c1.len(),
        forall|j2: int| 0 <= j2 < c1.len() && j2 != x ==> c2[j2] == c1[j2],
        gs.len() == stack.len(),
        forall|k: int| 0 <= k < gs.len() ==> repr(c1, stack[k] as int, #[trigger] gs[k])
            && no_overlap(c1, stack[k] as int, gs[k]),
        forall|k: int| 0 <= k < gs.len() ==> !tree_dom(c1, stack[k] as int, #[trigger] gs[k]).contains(x),
    ensures
        forall|k: int| 0 <= k < gs.len() ==> repr(c2, stack[k] as int, #[trigger] gs[k])
            && no_overlap(c2, stack[k] as int, gs[k])
            && tree_dom(c2, stack[k] as int, gs[k]) == tree_dom(c1, stack[k] as int, gs[k]),
{
    assert forall|k: int| 0 <= k < gs.len() implies repr(c2, stack[k] as int, #[trigger] gs[k])
        && no_overlap(c2, stack[k] as int, gs[k]) && tree_dom(c2, stack[k] as int, gs[k])
        == tree_dom(c1, stack[k] as int, gs[k]) by {
        lemma_dom_live(c1, stack[k] as int, gs[k]);
        assert forall|j2: int| tree_dom(c1, stack[k] as int, gs[k]).contains(j2) implies c2[j2]
            == c1[j2] by {
            assert(j2 != x);
        }
        lemma_repr_frame(c1, c2, stack[k] as int, gs[k]);
        lemma_no_overlap_frame(c1, c2, stack[k] as int, gs[k]);
    }
}

/// After releasing one atom entry of the worklist, the remaining entries
/// still lie inside the root tree's domain, cells outside it are untouched,
/// and every not-yet-free cell of it is still covered by some entry.
proof fn free_step_bookkeeping(
    pre: Seq<Cell>,
    c1: Seq<Cell>,
    c2: Seq<Cell>,
    idx: int,
    e0: SExp,
    stack_pre: Seq<usize>,
    gs_pre: Seq<SExp>,
    stack_new: Seq<usize>,
    gs_new: Seq<SExp>,
    x: int,
    ej: SExp,
)
    requires
        gs_pre.len() == stack_pre.len(),
        gs_pre.len() > 0,
        gs_pre.last() == ej,
        stack_pre.last() as int == x,
        stack_new == stack_pre.drop_last(),
        gs_new == gs_pre.drop_last(),
        ej is Num || ej is Sym,
        repr(c1, x, ej),
        repr(pre, idx, e0),
        pre.len() == c1.len(),
        c2.len() == c1.len(),
        c2[x].val is Free,
        forall|j2: int| 0 <= j2 < c1.len() && j2 != x ==> c2[j2] == c1[j2],
        forall|k: int| 0 <= k < gs_pre.len() ==> tree_dom(
            c1,
            stack_pre[k] as int,
            #[trigger] gs_pre[k],
        ).subset_of(tree_dom(pre, idx, e0)),
        forall|j2: int| 0 <= j2 < pre.len() && !(#[trigger] tree_dom(pre, idx, e0).contains(j2))
            ==> c1[j2] == pre[j2],
        forall|j2: int| #[trigger] tree_dom(pre, idx, e0).contains(j2) && !(c1[j2].val is Free)
            ==> exists|k: int| 0 <= k < gs_pre.len() && tree_dom(
            c1,
            stack_pre[k] as int,
            #[trigger] gs_pre[k],
        ).contains(j2),
        forall|k: int| 0 <= k < gs_new.len() ==> tree_dom(
            c2,
            stack_new[k] as int,
            #[trigger] gs_new[k],
        ) == tree_dom(c1, stack_new[k] as int, gs_new[k]),
    ensures
        forall|k: int| 0 <= k < gs_new.len() ==> tree_dom(
            c2,
            stack_new[k] as int,
            #[trigger] gs_new[k],
        ).subset_of(tree_dom(pre, idx, e0)),
        forall|j2: int| 0 <= j2 < pre.len() && !(#[trigger] tree_dom(pre, idx, e0).contains(j2))
            ==> c2[j2] == pre[j2],
        forall|j2: int| #[trigger] tree_dom(pre, idx, e0).contains(j2) && !(c2[j2].val is Free)
            ==> exists|k: int| 0 <= k < gs_new.len() && tree_dom(
            c2,
            stack_new[k] as int,
            #[trigger] gs_new[k],
        ).contains(j2),
{
    lemma_dom_live(pre, idx, e0);
    assert(tree_dom(c1, x, ej) =~= set![x]);
    assert(tree_dom(c1, stack_pre[gs_pre.len() - 1] as int, gs_pre.last()).contains(x));
    assert(tree_dom(pre, idx, e0).contains(x));
    assert forall|j2: int| 0 <= j2 < pre.len() && !(#[trigger] tree_dom(pre, idx, e0).contains(
        j2,
    )) implies c2[j2] == pre[j2] by {
        assert(j2 != x);
    }
    assert forall|j2: int| #[trigger] tree_dom(pre, idx, e0).contains(j2) && !(c2[j2].val
        is Free) implies exists|k: int| 0 <= k < gs_new.len() && tree_dom(
        c2,
        stack_new[k] as int,
        #[trigger] gs_new[k],
    ).contains(j2) by {
        assert(j2 != x);
        assert(c1[j2] == c2[j2]);
        let k0 = choose|k: int| 0 <= k < gs_pre.len() && tree_dom(
            c1,
            stack_pre[k] as int,
            #[trigger] gs_pre[k],
        ).contains(j2);
        if k0 == gs_pre.len() - 1 {
            assert(tree_dom(c1, x, ej).contains(j2));
            assert(false);
        } else {
            assert(gs_new[k0] == gs_pre[k0]);
            assert(stack_new[k0] == stack_pre[k0]);
            assert(tree_dom(c2, stack_new[k0] as int, gs_new[k0]).contains(j2));
        }
    }
}

/// A set inside one of two disjoint sets avoids the other.
proof fn lemma_disjoint_subset(a: Set<int>, b: Set<int>, c: Set<int>)
    requires
        a.subset_of(b),
        b.disjoint(c),
    ensures
        a.disjoint(c),
        c.disjoint(a),
{
}

/// An arena operation that cannot be served.
#[derive(Copy, Clone, Debug, PartialEq, Eq, Structural)]
pub enum StorageError {
    /// The free list is empty: the expression needs more live cells than the
    /// arena's capacity.
    Exhausted,
}

pub struct CellStorage {
    pub cells: Vec<Cell>,
    pub free_index: usize,
    pub n_free: usize,
    pub free_list: Ghost<Seq<int>>,
}

impl View for CellStorage {
    type V = Seq<Cell>;

    open spec fn view(&self) -> Seq<Cell> {
        self.cells@
    }
}

impl CellStorage {
    /// The free slots, in the order the free list links them.
    pub open spec fn free_list(&self) -> Seq<int> {
        self.free_list@
    }

    pub open spec fn wf(&self) -> bool {
        let fl = self.free_list@;
        let cs = self.cells@;
        &&& cs.len() >= 1
        &&& cs[0].val is Free
        &&& forall|i: int| 0 <= i < fl.len() ==> 1 <= #[trigger] fl[i] < cs.len()
        &&& forall|i: int| 0 <= i < fl.len() ==> (#[trigger] cs[fl[i]].val) is Free
        &&& forall|i: int| 0 <= i < fl.len() ==> (#[trigger] cs[fl[i]].tail) as int == (
            if i + 1 < fl.len() { fl[i + 1] } else { 0 }
        )
        &&& self.free_index as int == (if fl.len() > 0 { fl[0] } else { 0 })
        &&& fl.no_duplicates()
        &&& forall|j: int| 1 <= j < cs.len() && (#[trigger] cs[j].val) is Free ==> fl.contains(j)
        &&& self.n_free as int == fl.len()
    }

    /// A duplicate-free list of slots drawn from `[1, len)` cannot outgrow
    /// the arena.
    proof fn lemma_free_list_bound(&self)
        requires
            self.wf(),
        ensures
            self.free_list@.len() < self@.len(),
    {
        let fl = self.free_list@;
        fl.unique_seq_to_set();
        assert(fl.to_set().subset_of(set_int_range(1, self@.len() as int)));
        lemma_int_range(1, self@.len() as int);
        lemma_len_subset(fl.to_set(), set_int_range(1, self@.len() as int));
    }

    /// Wraps a buffer whose slots above the sentinel are already chained
    /// into an ascending free list, as `init_storage` prepares it.
    pub fn new(buf: Vec<Cell>) -> (s: CellStorage)
        requires
            buf@.len() >= 1,
            buf@[0].val is Free,
            forall|i: int| 1 <= i < buf@.len() ==> (#[trigger] buf@[i]).val is Free,
            forall|i: int| 1 <= i < buf@.len() ==> (#[trigger] buf@[i]).tail as int == (
                if i + 1 < buf@.len() { i + 1 } else { 0 }
            ),
        ensures
            s.wf(),
            s@ == buf@,
            s.free_list() == Seq::new((buf@.len() - 1) as nat, |i: int| i + 1),
            s.spec_free_index() == (if buf@.len() > 1 {
                1usize
            } else {
                0usize
            }),
    {
        let n = buf.len();
        let ghost fl = Seq::new((n - 1) as nat, |i: int| i + 1);
        let s = CellStorage {
            free_index: if n > 1 { 1 } else { NIL_INDEX },
            n_free: n - 1,
            cells: buf,
            free_list: Ghost(fl),
        };
        proof {
            assert forall|j: int| 1 <= j < s.cells@.len() && (#[trigger] s.cells@[j].val) is Free
                implies fl.contains(j) by {
                assert(fl[j - 1] == j);
            }
        }
        s
    }

    /// How many cells are free. Allocation succeeds exactly while this is
    /// positive.
    pub fn free_count(&self) -> (n: usize)
        requires
            self.wf(),
        ensures
            n as int == self.free_list().len(),
    {
        self.n_free
    }

    /// The arena's capacity, counting the nil sentinel.
    pub fn capacity(&self) -> (n: usize)
        ensures
            n as int == self@.len(),
    {
        self.cells.len()
    }

    /// Claims the head of the free list, stores `val` there with a nil tail,
    /// and returns its index. Fails, recoverably, exactly when the free list
    /// is empty.
    pub fn alloc_cell(&mut self, val: CellType) -> (r: Result<usize, StorageError>)
        requires
            old(self).wf(),
            !(val is Free),
        ensures
            final(self).wf(),
            final(self)@.len() == old(self)@.len(),
            (r is Ok) == (old(self).free_list().len() > 0),
            match r {
                Ok(idx) => {
                    &&& 1 <= idx < final(self)@.len()
                    &&& old(self)@[idx as int].val is Free
                    &&& final(self)@ == old(self)@.update(idx as int, (Cell { val, tail: NIL_INDEX }))
                    &&& final(self).free_list() == old(self).free_list().drop_first()
                },
                Err(e) => {
                    &&& e == StorageError::Exhausted
                    &&& *final(self) == *old(self)
                },
            },
    {
        if self.free_index == NIL_INDEX {
            Err(StorageError::Exhausted)
        } else {
            let ghost fl = self.free_list@;
            let idx = self.free_index;
            self.free_index = self.cells[idx].tail;
            self.cells[idx] = Cell::new(val, NIL_INDEX);
            self.n_free = self.n_free - 1;
            proof {
                self.free_list = Ghost(fl.drop_first());
                let fl2 = self.free_list@;
                assert forall|j: int| 1 <= j < self.cells@.len()
                    && (#[trigger] self.cells@[j].val) is Free implies fl2.contains(j) by {
                    assert(old(self).cells@[j].val is Free);
                    let i = choose|i: int| 0 <= i < fl.len() && fl[i] == j;
                    assert(i != 0);
                    assert(fl2[i - 1] == j);
                }
            }
            Ok(idx)
        }
    }

    /// Puts one live slot back at the head of the free list.
    fn relink(&mut self, idx: usize)
        requires
            old(self).wf(),
            1 <= idx < old(self)@.len(),
            !(old(self)@[idx as int].val is Free),
        ensures
            final(self).wf(),
            final(self)@ == old(self)@.update(
                idx as int,
                (Cell { val: CellType::Free, tail: old(self).free_index }),
            ),
            final(self).free_list() == seq![idx as int] + old(self).free_list(),
    {
        proof {
            self.lemma_free_list_bound();
            let fl = self.free_list@;
            if fl.contains(idx as int) {
                let i = choose|i: int| 0 <= i < fl.len() && fl[i] == idx as int;
                assert(self.cells@[fl[i]].val is Free);
            }
        }
        let cap = self.cells.len();
        proof {
            assert(self.n_free < cap);
        }
        let ghost fl = self.free_list@;
        let old_head = self.free_index;
        self.cells[idx] = Cell::new(CellType::Free, old_head);
        self.free_index = idx;
        self.n_free = self.n_free + 1;
        proof {
            self.free_list = Ghost(seq![idx as int] + fl);
            let fl2 = self.free_list@;
            assert forall|i: int| 0 <= i < fl2.len() implies (#[trigger] self.cells@[fl2[i]].tail)
                as int == (if i + 1 < fl2.len() { fl2[i + 1] } else { 0 }) by {
                if i > 0 {
                    assert(fl2[i] == fl[i - 1]);
                }
            }
            assert forall|j: int| 1 <= j < self.cells@.len()
                && (#[trigger] self.cells@[j].val) is Free implies fl2.contains(j) by {
                if j == idx as int {
                    assert(fl2[0] == j);
                } else {
                    let i = choose|i: int| 0 <= i < fl.len() && fl[i] == j;
                    assert(fl2[i + 1] == j);
                }
            }
        }
    }

    /// The exec mirror of `free_index`, for contracts of other modules.
    pub open spec fn spec_free_index(&self) -> usize {
        self.free_index
    }

    /// Releases the tree rooted at `idx`: a pair's head and tail are
    /// released along with it, walking the tree with an explicit worklist so
    /// that deep lists cannot exhaust the call stack. Releasing the nil
    /// sentinel, an out-of-range index, or an already-free slot changes
    /// nothing. A single-owner tree — anything the parser built, or a copy
    /// `quote` made — gives back exactly its own cells, so parsing and
    /// freeing leave the free count where it stood.
    pub fn free_cell(&mut self, idx: usize)
        requires
            old(self).wf(),
        ensures
            final(self).wf(),
            final(self)@.len() == old(self)@.len(),
            final(self).free_list().len() >= old(self).free_list().len(),
            (idx == 0 || idx as int >= old(self)@.len() || old(self)@[idx as int].val is Free)
                ==> *final(self) == *old(self),
            ((idx as int) < old(self)@.len() && (old(self)@[idx as int].val is Number
                || old(self)@[idx as int].val is Symbol)) ==> {
                &&& final(self)@ == old(self)@.update(
                    idx as int,
                    (Cell { val: CellType::Free, tail: old(self).spec_free_index() }),
                )
                &&& final(self).free_list() == seq![idx as int] + old(self).free_list()
            },
            forall|e: SExp| repr(old(self)@, idx as int, e) && no_overlap(
                old(self)@,
                idx as int,
                e,
            ) ==> {
                &&& final(self).free_list().len() == old(self).free_list().len() + tree_size(e)
                &&& (forall|j: int| 0 <= j < old(self)@.len() && !(#[trigger] tree_dom(
                    old(self)@,
                    idx as int,
                    e,
                ).contains(j)) ==> final(self)@[j] == old(self)@[j])
                &&& (forall|j: int| #[trigger] tree_dom(old(self)@, idx as int, e).contains(j)
                    ==> final(self)@[j].val is Free)
            },
    {
        let ghost has = exists|e: SExp|
            repr(old(self)@, idx as int, e) && no_overlap(old(self)@, idx as int, e);
        let ghost e0 = choose|e: SExp|
            repr(old(self)@, idx as int, e) && no_overlap(old(self)@, idx as int, e);
        proof {
            if has {
                lemma_repr_shape(old(self)@, idx as int, e0);
            }
        }
        if idx == NIL_INDEX || idx >= self.cells.len() {
            proof {
                if has {
                    assert(e0 is Nil);
                    assert forall|e: SExp|
                        repr(old(self)@, idx as int, e) && no_overlap(old(self)@, idx as int, e)
                        implies {
                        &&& self.free_list().len() == old(self).free_list().len() + tree_size(e)
                        &&& (forall|j: int| 0 <= j < old(self)@.len() && !(#[trigger] tree_dom(
                            old(self)@,
                            idx as int,
                            e,
                        ).contains(j)) ==> self@[j] == old(self)@[j])
                        &&& (forall|j: int| #[trigger] tree_dom(old(self)@, idx as int, e).contains(
                            j,
                        ) ==> self@[j].val is Free)
                    } by {
                        lemma_repr_unique(old(self)@, idx as int, e, e0);
                        assert(tree_dom(old(self)@, idx as int, e) =~= Set::<int>::empty());
                    }
                }
            }
            return ;
        }
        let ghost pre = *self;
        match self.cells[idx].val {
            CellType::Free => {
                proof {
                    if has {
                        assert(false);
                    }
                    assert forall|e: SExp|
                        repr(old(self)@, idx as int, e) && no_overlap(old(self)@, idx as int, e)
                        implies {
                        &&& self.free_list().len() == old(self).free_list().len() + tree_size(e)
                        &&& (forall|j: int| 0 <= j < old(self)@.len() && !(#[trigger] tree_dom(
                            old(self)@,
                            idx as int,
                            e,
                        ).contains(j)) ==> self@[j] == old(self)@[j])
                        &&& (forall|j: int| #[trigger] tree_dom(old(self)@, idx as int, e).contains(
                            j,
                        ) ==> self@[j].val is Free)
                    } by {
                        lemma_repr_shape(old(self)@, idx as int, e);
                        assert(false);
                    }
                }
            },
            CellType::Number(_) => {
                self.relink(idx);
                proof {
                    if has {
                        assert forall|e: SExp|
                            repr(old(self)@, idx as int, e) && no_overlap(
                                old(self)@,
                                idx as int,
                                e,
                            ) implies {
                        &&& self.free_list().len() == old(self).free_list().len() + tree_size(e)
                        &&& (forall|j: int| 0 <= j < old(self)@.len() && !(#[trigger] tree_dom(
                            old(self)@,
                            idx as int,
                            e,
                        ).contains(j)) ==> self@[j] == old(self)@[j])
                        &&& (forall|j: int| #[trigger] tree_dom(old(self)@, idx as int, e).contains(
                            j,
                        ) ==> self@[j].val is Free)
                    } by {
                            lemma_repr_unique(old(self)@, idx as int, e, e0);
                            assert(tree_dom(old(self)@, idx as int, e) =~= set![idx as int]);
                        }
                    }
                }
            },
            CellType::Symbol(_) => {
                self.relink(idx);
                proof {
                    if has {
                        assert forall|e: SExp|
                            repr(old(self)@, idx as int, e) && no_overlap(
                                old(self)@,
                                idx as int,
                                e,
                            ) implies {
                        &&& self.free_list().len() == old(self).free_list().len() + tree_size(e)
                        &&& (forall|j: int| 0 <= j < old(self)@.len() && !(#[trigger] tree_dom(
                            old(self)@,
                            idx as int,
                            e,
                        ).contains(j)) ==> self@[j] == old(self)@[j])
                        &&& (forall|j: int| #[trigger] tree_dom(old(self)@, idx as int, e).contains(
                            j,
                        ) ==> self@[j].val is Free)
                    } by {
                            lemma_repr_unique(old(self)@, idx as int, e, e0);
                            assert(tree_dom(old(self)@, idx as int, e) =~= set![idx as int]);
                        }
                    }
                }
            },
            CellType::Cons(h) => {
                let t = self.cells[idx].tail;
                let ghost s0 = self.cells@;
                self.relink(idx);
                let mut stack: Vec<usize> = Vec::new();
                stack.push(h);
                stack.push(t);
                let ghost mut gs: Seq<SExp> = seq![pair_head(e0), pair_tail(e0)];
                proof {
                    if has {
                        reveal_with_fuel(sum_sizes, 3);
                        reveal_with_fuel(tree_size, 2);
                        assert(stack@ =~= seq![h, t]);
                        assert(gs.drop_last() =~= seq![pair_head(e0)]);
                        assert(gs.drop_last().drop_last() =~= Seq::<SExp>::empty());
                        assert(repr(s0, h as int, pair_head(e0)));
                        assert(repr(s0, t as int, pair_tail(e0)));
                        assert(no_overlap(s0, h as int, pair_head(e0)));
                        assert(no_overlap(s0, t as int, pair_tail(e0)));
                        assert(!tree_dom(s0, h as int, pair_head(e0)).contains(idx as int));
                        assert(!tree_dom(s0, t as int, pair_tail(e0)).contains(idx as int));
                        assert forall|k: int| 0 <= k < gs.len() implies repr(
                            s0,
                            stack@[k] as int,
                            #[trigger] gs[k],
                        ) && no_overlap(s0, stack@[k] as int, gs[k]) && !tree_dom(
                            s0,
                            stack@[k] as int,
                            gs[k],
                        ).contains(idx as int) by {
                            assert(k == 0 || k == 1);
                        }
                        lemma_entries_frame(s0, self@, stack@, gs, idx as int);
                        assert(tree_dom(s0, h as int, pair_head(e0)).disjoint(
                            tree_dom(s0, t as int, pair_tail(e0)),
                        ));
                        lemma_subtree_dom(s0, idx as int, e0);
                        lemma_dom_live(s0, idx as int, e0);
                        assert forall|j: int| 0 <= j < pre@.len() && !(#[trigger] tree_dom(
                            pre@,
                            idx as int,
                            e0,
                        ).contains(j)) implies self@[j] == pre@[j] by {
                            assert(tree_dom(pre@, idx as int, e0).contains(idx as int));
                        }
                        assert forall|j: int|
                            #[trigger] tree_dom(pre@, idx as int, e0).contains(j)
                            && !(self@[j].val is Free) implies exists|k: int|
                            0 <= k < gs.len() && tree_dom(
                                self@,
                                stack@[k] as int,
                                #[trigger] gs[k],
                            ).contains(j) by {
                            if tree_dom(self@, h as int, pair_head(e0)).contains(j) {
                                assert(tree_dom(self@, stack@[0] as int, gs[0]).contains(j));
                            } else if tree_dom(self@, t as int, pair_tail(e0)).contains(j) {
                                assert(tree_dom(self@, stack@[1] as int, gs[1]).contains(j));
                            } else {
                                assert(j == idx as int);
                            }
                        }
                    }
                }
                loop
                    invariant
                        self.wf(),
                        self@.len() == pre@.len(),
                        self.free_list@.len() > pre.free_list@.len(),
                        has ==> {
                            &&& repr(pre@, idx as int, e0)
                            &&& gs.len() == stack@.len()
                            &&& forall|k: int| 0 <= k < gs.len() ==> repr(
                                self@,
                                #[trigger] stack@[k] as int,
                                gs[k],
                            ) && no_overlap(self@, stack@[k] as int, gs[k])
                            &&& forall|k: int, l: int| 0 <= k < l < gs.len() ==> tree_dom(
                                self@,
                                #[trigger] stack@[k] as int,
                                gs[k],
                            ).disjoint(tree_dom(self@, #[trigger] stack@[l] as int, gs[l]))
                            &&& self.free_list@.len() + sum_sizes(gs) == pre.free_list@.len()
                                + tree_size(e0)
                            &&& forall|k: int| 0 <= k < gs.len() ==> tree_dom(
                                self@,
                                #[trigger] stack@[k] as int,
                                gs[k],
                            ).subset_of(tree_dom(pre@, idx as int, e0))
                            &&& (forall|j: int| 0 <= j < pre@.len() && !(#[trigger] tree_dom(
                                pre@,
                                idx as int,
                                e0,
                            ).contains(j)) ==> self@[j] == pre@[j])
                            &&& (forall|j: int|
                                #[trigger] tree_dom(pre@, idx as int, e0).contains(j)
                                && !(self@[j].val is Free) ==> exists|k: int|
                                0 <= k < gs.len() && tree_dom(
                                    self@,
                                    stack@[k] as int,
                                    #[trigger] gs[k],
                                ).contains(j))
                        },
                    ensures
                        self.wf(),
                        self@.len() == pre@.len(),
                        self.free_list@.len() > pre.free_list@.len(),
                        has ==> self.free_list@.len() == pre.free_list@.len() + tree_size(e0),
                        has ==> (forall|j: int| 0 <= j < pre@.len() && !(#[trigger] tree_dom(
                            pre@,
                            idx as int,
                            e0,
                        ).contains(j)) ==> self@[j] == pre@[j]),
                        has ==> (forall|j: int|
                            #[trigger] tree_dom(pre@, idx as int, e0).contains(j)
                            ==> self@[j].val is Free),
                    decreases self@.len() - self.free_list@.len(), stack@.len(),
                {
                    proof {
                        self.lemma_free_list_bound();
                    }
                    let ghost snap = self@;
                    let ghost stack_pre = stack@;
                    let ghost gs_pre = gs;
                    match stack.pop() {
                        None => {
                            proof {
                                if has {
                                    reveal_with_fuel(sum_sizes, 2);
                                    assert(gs =~= Seq::<SExp>::empty());
                                }
                            }
                            break ;
                        },
                        Some(j) => {
                            let ghost ej = if has && gs.len() > 0 {
                                gs.last()
                            } else {
                                SExp::Nil
                            };
                            proof {
                                if has {
                                    reveal_with_fuel(sum_sizes, 2);
                                    reveal_with_fuel(tree_size, 2);
                                    assert(stack@ =~= stack_pre.drop_last());
                                    assert(stack_pre.last() == j);
                                    gs = gs.drop_last();
                                    assert(sum_sizes(gs_pre) == sum_sizes(gs) + tree_size(ej));
                                    lemma_repr_shape(self@, j as int, ej);
                                    lemma_dom_live(self@, j as int, ej);
                                    if ej is Pair {
                                        lemma_subtree_dom(self@, j as int, ej);
                                    }
                                    assert forall|k: int| 0 <= k < gs.len() implies tree_dom(
                                        self@,
                                        stack@[k] as int,
                                        #[trigger] gs[k],
                                    ).disjoint(tree_dom(self@, j as int, ej)) by {
                                        assert(gs_pre[k] == gs[k]);
                                        assert(gs_pre[gs_pre.len() - 1] == ej);
                                    }
                                }
                            }
                            if j != NIL_INDEX && j < self.cells.len() {
                                match self.cells[j].val {
                                    CellType::Free => {
                                        proof {
                                            if has {
                                                assert(tree_dom(self@, j as int, ej).contains(
                                                    j as int,
                                                ));
                                                assert(false);
                                            }
                                        }
                                    },
                                    CellType::Number(_) => {
                                        self.relink(j);
                                        proof {
                                            if has {
                                                reveal_with_fuel(tree_size, 2);
                                                assert(tree_dom(snap, j as int, ej) =~= set![
                                                    j as int,
                                                ]);
                                                assert forall|k: int| 0 <= k < gs.len()
                                                    implies !tree_dom(
                                                    snap,
                                                    stack@[k] as int,
                                                    #[trigger] gs[k],
                                                ).contains(j as int) by {
                                                    assert(tree_dom(snap, j as int, ej).contains(
                                                        j as int,
                                                    ));
                                                }
                                                lemma_entries_frame(
                                                    snap,
                                                    self@,
                                                    stack@,
                                                    gs,
                                                    j as int,
                                                );
                                                free_step_bookkeeping(
                                                    pre@,
                                                    snap,
                                                    self@,
                                                    idx as int,
                                                    e0,
                                                    stack_pre,
                                                    gs_pre,
                                                    stack@,
                                                    gs,
                                                    j as int,
                                                    ej,
                                                );
                                            }
                                        }
                                    },
                                    CellType::Symbol(_) => {
                                        self.relink(j);
                                        proof {
                                            if has {
                                                reveal_with_fuel(tree_size, 2);
                                                assert(tree_dom(snap, j as int, ej) =~= set![
                                                    j as int,
                                                ]);
                                                assert forall|k: int| 0 <= k < gs.len()
                                                    implies !tree_dom(
                                                    snap,
                                                    stack@[k] as int,
                                                    #[trigger] gs[k],
                                                ).contains(j as int) by {
                                                    assert(tree_dom(snap, j as int, ej).contains(
                                                        j as int,
                                                    ));
                                                }
                                                lemma_entries_frame(
                                                    snap,
                                                    self@,
                                                    stack@,
                                                    gs,
                                                    j as int,
                                                );
                                                free_step_bookkeeping(
                                                    pre@,
                                                    snap,
                                                    self@,
                                                    idx as int,
                                                    e0,
                                                    stack_pre,
                                                    gs_pre,
                                                    stack@,
                                                    gs,
                                                    j as int,
                                                    ej,
                                                );
                                            }
                                        }
                                    },
                                    CellType::Cons(h2) => {
                                        let t2 = self.cells[j].tail;
                                        self.relink(j);
                                        stack.push(h2);
                                        stack.push(t2);
                                        proof {
                                            if has {
                                                reveal_with_fuel(tree_size, 2);
                                                reveal_with_fuel(sum_sizes, 3);
                                                let eh = pair_head(ej);
                                                let et = pair_tail(ej);
                                                let rem = stack@.drop_last().drop_last();
                                                assert(rem.len() == gs.len());
                                                assert(tree_dom(snap, j as int, ej).contains(
                                                    j as int,
                                                ));
                                                assert forall|k: int| 0 <= k < gs.len()
                                                    implies !tree_dom(
                                                    snap,
                                                    rem[k] as int,
                                                    #[trigger] gs[k],
                                                ).contains(j as int) by {
                                                    assert(rem[k] == stack@[k]);
                                                }
                                                lemma_entries_frame(
                                                    snap,
                                                    self@,
                                                    rem,
                                                    gs,
                                                    j as int,
                                                );
                                                assert(repr(snap, h2 as int, eh));
                                                assert(repr(snap, t2 as int, et));
                                                assert(no_overlap(snap, h2 as int, eh));
                                                assert(no_overlap(snap, t2 as int, et));
                                                let dh = tree_dom(snap, h2 as int, eh);
                                                let dt = tree_dom(snap, t2 as int, et);
                                                assert forall|j2: int| dh.contains(j2)
                                                    implies self@[j2] == snap[j2] by {
                                                    assert(j2 != j as int);
                                                }
                                                assert forall|j2: int| dt.contains(j2)
                                                    implies self@[j2] == snap[j2] by {
                                                    assert(j2 != j as int);
                                                }
                                                lemma_repr_frame(snap, self@, h2 as int, eh);
                                                lemma_repr_frame(snap, self@, t2 as int, et);
                                                lemma_no_overlap_frame(snap, self@, h2 as int, eh);
                                                lemma_no_overlap_frame(snap, self@, t2 as int, et);
                                                assert forall|k: int| 0 <= k < gs.len()
                                                    implies tree_dom(
                                                    self@,
                                                    rem[k] as int,
                                                    #[trigger] gs[k],
                                                ).disjoint(dh) && tree_dom(
                                                    self@,
                                                    rem[k] as int,
                                                    gs[k],
                                                ).disjoint(dt) by {
                                                    lemma_disjoint_subset(
                                                        dh,
                                                        tree_dom(snap, j as int, ej),
                                                        tree_dom(snap, rem[k] as int, gs[k]),
                                                    );
                                                    lemma_disjoint_subset(
                                                        dt,
                                                        tree_dom(snap, j as int, ej),
                                                        tree_dom(snap, rem[k] as int, gs[k]),
                                                    );
                                                }
                                                let gs2 = gs.push(eh).push(et);
                                                assert(sum_sizes(gs2) == sum_sizes(gs)
                                                    + tree_size(eh) + tree_size(et)) by {
                                                    assert(gs2.drop_last() =~= gs.push(eh));
                                                    assert(gs2.last() == et);
                                                    assert(gs.push(eh).drop_last() =~= gs);
                                                    assert(gs.push(eh).last() == eh);
                                                }
                                                assert(tree_size(ej) == 1 + tree_size(eh)
                                                    + tree_size(et));
                                                gs = gs2;
                                                assert(gs.len() == stack@.len());
                                                assert forall|k: int| 0 <= k < gs.len()
                                                    implies repr(
                                                    self@,
                                                    #[trigger] stack@[k] as int,
                                                    gs[k],
                                                ) && no_overlap(self@, stack@[k] as int, gs[k]) by {
                                                    if k < gs.len() - 2 {
                                                        assert(stack@[k] == rem[k]);
                                                        assert(gs[k] == gs2[k]);
                                                    } else if k == gs.len() - 2 {
                                                        assert(stack@[k] == h2);
                                                        assert(gs[k] == eh);
                                                    } else {
                                                        assert(stack@[k] == t2);
                                                        assert(gs[k] == et);
                                                    }
                                                }
                                                assert forall|k: int, l: int| 0 <= k < l < gs.len()
                                                    implies tree_dom(
                                                    self@,
                                                    #[trigger] stack@[k] as int,
                                                    gs[k],
                                                ).disjoint(tree_dom(
                                                    self@,
                                                    #[trigger] stack@[l] as int,
                                                    gs[l],
                                                )) by {
                                                    if l < gs.len() - 2 {
                                                        assert(stack@[k] == rem[k]);
                                                        assert(stack@[l] == rem[l]);
                                                    } else if l == gs.len() - 2 {
                                                        assert(stack@[l] == h2);
                                                        if k < gs.len() - 2 {
                                                            assert(stack@[k] == rem[k]);
                                                        }
                                                    } else {
                                                        assert(stack@[l] == t2);
                                                        if k < gs.len() - 2 {
                                                            assert(stack@[k] == rem[k]);
                                                        } else if k == gs.len() - 2 {
                                                            assert(stack@[k] == h2);
                                                        }
                                                    }
                                                }
                                                let dom0 = tree_dom(pre@, idx as int, e0);
                                                assert(tree_dom(snap, j as int, ej).subset_of(
                                                    dom0,
                                                ));
                                                assert forall|k: int| 0 <= k < gs.len()
                                                    implies tree_dom(
                                                    self@,
                                                    #[trigger] stack@[k] as int,
                                                    gs[k],
                                                ).subset_of(dom0) by {
                                                    if k < gs.len() - 2 {
                                                        assert(stack@[k] == rem[k]);
                                                        assert(gs[k] == gs2[k]);
                                                        assert(stack_pre[k] == rem[k]);
                                                        assert(gs_pre[k] == gs[k]);
                                                    } else if k == gs.len() - 2 {
                                                        assert(stack@[k] == h2);
                                                        assert(gs[k] == eh);
                                                        assert(tree_dom(snap, h2 as int, eh)
                                                            .subset_of(tree_dom(
                                                            snap,
                                                            j as int,
                                                            ej,
                                                        )));
                                                    } else {
                                                        assert(stack@[k] == t2);
                                                        assert(gs[k] == et);
                                                        assert(tree_dom(snap, t2 as int, et)
                                                            .subset_of(tree_dom(
                                                            snap,
                                                            j as int,
                                                            ej,
                                                        )));
                                                    }
                                                }
                                                assert forall|j2: int| 0 <= j2 < pre@.len()
                                                    && !(#[trigger] dom0.contains(j2))
                                                    implies self@[j2] == pre@[j2] by {
                                                    assert(tree_dom(snap, j as int, ej).contains(
                                                        j as int,
                                                    ));
                                                    assert(j2 != j as int);
                                                }
                                                assert forall|j2: int|
                                                    #[trigger] dom0.contains(j2)
                                                    && !(self@[j2].val is Free) implies exists|
                                                    k: int,
                                                |
                                                    0 <= k < gs.len() && tree_dom(
                                                        self@,
                                                        stack@[k] as int,
                                                        #[trigger] gs[k],
                                                    ).contains(j2) by {
                                                    lemma_dom_live(pre@, idx as int, e0);
                                                    assert(j2 != j as int);
                                                    assert(snap[j2] == self@[j2]);
                                                    let k0 = choose|k: int|
                                                        0 <= k < gs_pre.len() && tree_dom(
                                                            snap,
                                                            stack_pre[k] as int,
                                                            #[trigger] gs_pre[k],
                                                        ).contains(j2);
                                                    if k0 == gs_pre.len() - 1 {
                                                        assert(tree_dom(
                                                            snap,
                                                            j as int,
                                                            ej,
                                                        ).contains(j2));
                                                        if j2 == j as int {
                                                            assert(false);
                                                        } else if tree_dom(
                                                            snap,
                                                            h2 as int,
                                                            eh,
                                                        ).contains(j2) {
                                                            assert(tree_dom(
                                                                self@,
                                                                stack@[gs.len() - 2] as int,
                                                                gs[gs.len() - 2],
                                                            ).contains(j2));
                                                        } else {
                                                            assert(tree_dom(
                                                                snap,
                                                                t2 as int,
                                                                et,
                                                            ).contains(j2));
                                                            assert(tree_dom(
                                                                self@,
                                                                stack@[gs.len() - 1] as int,
                                                                gs[gs.len() - 1],
                                                            ).contains(j2));
                                                        }
                                                    } else {
                                                        assert(stack_pre[k0] == rem[k0]);
                                                        assert(gs_pre[k0] == gs[k0]);
                                                        assert(stack@[k0] == rem[k0]);
                                                        assert(tree_dom(
                                                            self@,
                                                            stack@[k0] as int,
                                                            gs[k0],
                                                        ).contains(j2));
                                                    }
                                                }
                                            }
                                        }
                                    },
                                }
                            } else {
                                proof {
                                    if has {
                                        if j as int >= snap.len() {
                                            assert(false);
                                        }
                                        assert(j == NIL_INDEX);
                                        assert(ej is Nil);
                                        assert(tree_dom(snap, j as int, ej)
                                            =~= Set::<int>::empty());
                                        assert forall|j2: int|
                                            #[trigger] tree_dom(pre@, idx as int, e0).contains(j2)
                                            && !(self@[j2].val is Free) implies exists|k: int|
                                            0 <= k < gs.len() && tree_dom(
                                                self@,
                                                stack@[k] as int,
                                                #[trigger] gs[k],
                                            ).contains(j2) by {
                                            lemma_dom_live(pre@, idx as int, e0);
                                            let k0 = choose|k: int|
                                                0 <= k < gs_pre.len() && tree_dom(
                                                    snap,
                                                    stack_pre[k] as int,
                                                    #[trigger] gs_pre[k],
                                                ).contains(j2);
                                            if k0 == gs_pre.len() - 1 {
                                                assert(tree_dom(snap, j as int, ej).contains(j2));
                                                assert(false);
                                            } else {
                                                assert(stack@[k0] == stack_pre[k0]);
                                                assert(gs[k0] == gs_pre[k0]);
                                                assert(tree_dom(
                                                    self@,
                                                    stack@[k0] as int,
                                                    gs[k0],
                                                ).contains(j2));
                                            }
                                        }
                                    }
                                }
                            }
                        },
                    }
                }
                proof {
                    if has {
                        assert(pre == *old(self));
                        assert forall|e: SExp|
                            repr(old(self)@, idx as int, e) && no_overlap(
                                old(self)@,
                                idx as int,
                                e,
                            ) implies {
                            &&& self.free_list().len() == old(self).free_list().len()
                                + tree_size(e)
                            &&& (forall|j2: int| 0 <= j2 < old(self)@.len() && !(
                            #[trigger] tree_dom(old(self)@, idx as int, e).contains(j2))
                                ==> self@[j2] == old(self)@[j2])
                            &&& (forall|j2: int| #[trigger] tree_dom(
                                old(self)@,
                                idx as int,
                                e,
                            ).contains(j2) ==> self@[j2].val is Free)
                        } by {
                            lemma_repr_unique(old(self)@, idx as int, e, e0);
                        }
                    }
                }
            },
        }
    }

    /// Reads the whole cell at `idx`.
    pub fn get(&self, idx: usize) -> (c: Cell)
        requires
            idx < self@.len(),
        ensures
            c == self@[idx as int],
    {
        self.cells[idx]
    }

    /// Reads the tag-and-payload of the cell at `idx`.
    pub fn val_of(&self, idx: usize) -> (v: CellType)
        requires
            idx < self@.len(),
        ensures
            v == self@[idx as int].val,
    {
        self.cells[idx].val
    }

    /// Reads the secondary index of the cell at `idx`.
    pub fn tail_of(&self, idx: usize) -> (t: usize)
        requires
            idx < self@.len(),
        ensures
            t == self@[idx as int].tail,
    {
        self.cells[idx].tail
    }

    /// Reads the head index of a cons cell.
    pub fn head_of(&self, idx: usize) -> (h: usize)
        requires
            idx < self@.len(),
            self@[idx as int].val is Cons,
        ensures
            self@[idx as int].val == CellType::Cons(h),
    {
        match self.cells[idx].val {
            CellType::Cons(h) => h,
            _ => {
                proof {
                    assert(false);
                }
                0
            },
        }
    }

    /// Splices a new tail index onto a live cell; used while building lists.
    pub fn set_tail(&mut self, idx: usize, tail: usize)
        requires
            old(self).wf(),
            idx < old(self)@.len(),
            !(old(self)@[idx as int].val is Free),
        ensures
            final(self).wf(),
            final(self)@ == old(self)@.update(
                idx as int,
                (Cell { val: old(self)@[idx as int].val, tail }),
            ),
            final(self).free_list() == old(self).free_list(),
    {
        proof {
            let fl = self.free_list@;
            if fl.contains(idx as int) {
                let i = choose|i: int| 0 <= i < fl.len() && fl[i] == idx as int;
                assert(self.cells@[fl[i]].val is Free);
            }
        }
        let v = self.cells[idx].val;
        self.cells[idx] = Cell::new(v, tail);
        proof {
            let fl = self.free_list@;
            assert forall|j: int| 1 <= j < self.cells@.len()
                && (#[trigger] self.cells@[j].val) is Free implies fl.contains(j) by {
                assert(old(self).cells@[j].val is Free);
            }
        }
    }
}

/// Chains a fresh buffer of `capacity` free cells into an arena whose free
/// list ascends from slot `1`; slot `0` is the nil sentinel.
pub fn init_storage(capacity: usize) -> (s: CellStorage)
    requires
        capacity >= 1,
    ensures
        s.wf(),
        s@.len() == capacity,
        s.free_list() == Seq::new((capacity - 1) as nat, |i: int| i + 1),
        s.spec_free_index() == (if capacity > 1 {
            1usize
        } else {
            0usize
        }),
{
    let mut buf: Vec<Cell> = Vec::new();
    buf.push(Cell::empty());
    let mut i: usize = 1;
    while i < capacity
        invariant
            1 <= i <= capacity,
            buf@.len() == i,
            buf@[0].val is Free,
            forall|k: int| 1 <= k < i ==> (#[trigger] buf@[k]).val is Free,
            forall|k: int| 1 <= k < i ==> (#[trigger] buf@[k]).tail as int == (
                if k + 1 < capacity { k + 1 } else { 0 }
            ),
        decreases capacity - i,
    {
        let next = if i + 1 < capacity {
            i + 1
        } else {
            NIL_INDEX
        };
        buf.push(Cell::new(CellType::Free, next));
        i = i + 1;
    }
    CellStorage::new(buf)
}

/// Structural equality of two trees in the arena: whether they spell out the
/// same shape.
pub fn tree_eq(cells: &CellStorage, i: usize, j: usize) -> (r: bool)
    requires
        cells.wf(),
        exists|e: SExp| repr(cells@, i as int, e),
        exists|e: SExp| repr(cells@, j as int, e),
    ensures
        forall|e1: SExp, e2: SExp| repr(cells@, i as int, e1) && repr(cells@, j as int, e2)
            ==> r == (e1 == e2),
{
    let ghost ea = choose|e: SExp| repr(cells@, i as int, e);
    let ghost eb = choose|e: SExp| repr(cells@, j as int, e);
    let r = tree_eq_rec(cells, i, j, Ghost(ea), Ghost(eb));
    proof {
        assert forall|e1: SExp, e2: SExp| repr(cells@, i as int, e1) && repr(
            cells@,
            j as int,
            e2,
        ) implies r == (e1 == e2) by {
            lemma_repr_unique(cells@, i as int, e1, ea);
            lemma_repr_unique(cells@, j as int, e2, eb);
        }
    }
    r
}

fn tree_eq_rec(cells: &CellStorage, i: usize, j: usize, e1: Ghost<SExp>, e2: Ghost<SExp>) -> (r:
    bool)
    requires
        cells.wf(),
        repr(cells@, i as int, e1@),
        repr(cells@, j as int, e2@),
    ensures
        r == (e1@ == e2@),
    decreases tree_size(e1@),
{
    proof {
        lemma_repr_shape(cells@, i as int, e1@);
        lemma_repr_shape(cells@, j as int, e2@);
        reveal_with_fuel(tree_size, 2);
        match e1@ {
            SExp::Pair(h0, t0) => {
                assert(tree_size(pair_head(e1@)) < tree_size(e1@));
                assert(tree_size(pair_tail(e1@)) < tree_size(e1@));
            },
            _ => {},
        }
    }
    if i == NIL_INDEX || j == NIL_INDEX {
        return i == NIL_INDEX && j == NIL_INDEX;
    }
    match (cells.val_of(i), cells.val_of(j)) {
        (CellType::Number(a), CellType::Number(b)) => a == b,
        (CellType::Symbol(a), CellType::Symbol(b)) => a == b,
        (CellType::Cons(h1), CellType::Cons(h2)) => {
            if !tree_eq_rec(cells, h1, h2, Ghost(pair_head(e1@)), Ghost(pair_head(e2@))) {
                proof {
                    assert(e1@ != e2@);
                }
                false
            } else {
                let t1 = cells.tail_of(i);
                let t2 = cells.tail_of(j);
                let r = tree_eq_rec(cells, t1, t2, Ghost(pair_tail(e1@)), Ghost(pair_tail(e2@)));
                proof {
                    assert((e1@ == e2@) == (pair_head(e1@) == pair_head(e2@) && pair_tail(e1@)
                        == pair_tail(e2@)));
                }
                r
            }
        },
        _ => false,
    }
}

} // verus!
