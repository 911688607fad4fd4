use crate::delta::{normalized, Delta};
use crate::iterator::{views_positive, DeltaIterator};
use crate::operations::{op_view_len, DeltaOperation, OpView};
use crate::optransform::{cursor_units, units_from};
use vstd::prelude::*;

verus! {

broadcast use {
    crate::operations::lemma_ops_views,
    crate::operations::lemma_op_view,
    crate::operations::lemma_op_wf,
    crate::operations::lemma_op_len_bounded,
    crate::delta::lemma_delta_view,
    crate::delta::lemma_delta_wf,
    crate::iterator::lemma_iter_valid,
};

/// The operations a slice emits, walking the content with a cursor:
/// everything before `start` is skipped, and each operation's overlap
/// with `[start, einde)` is cut out with its kind and attributes kept.
pub open spec fn slice_rec(
    s: Seq<OpView>,
    k: int,
    o: int,
    index: int,
    start: int,
    einde: int,
) -> Seq<OpView>
    decreases crate::optransform::ops_left(s, k), crate::optransform::rem_of(s, k, o),
{
    let done = !(0 <= k < s.len());
    let rem = crate::optransform::rem_of(s, k, o);
    if done || index >= einde {
        Seq::empty()
    } else if rem <= 0 {
        slice_rec(s, k + 1, 0, index, start, einde)
    } else if index < start {
        let step = if start - index < rem {
            start - index
        } else {
            rem
        };
        if step == rem {
            slice_rec(s, k + 1, 0, index + step, start, einde)
        } else {
            slice_rec(s, k, o + step, index + step, start, einde)
        }
    } else {
        let act = if einde - index < rem {
            einde - index
        } else {
            rem
        };
        seq![crate::iterator::slice_op(s[k], o, act)] + (if act == rem {
            slice_rec(s, k + 1, 0, index + act, start, einde)
        } else {
            slice_rec(s, k, o + act, index + act, start, einde)
        })
    }
}

/// The operations among the first `n` whose flag is set, in order.
pub open spec fn kept_prefix(s: Seq<OpView>, keep: Seq<bool>, n: int) -> Seq<OpView>
    decreases n,
{
    if n <= 0 {
        Seq::empty()
    } else {
        kept_prefix(s, keep, n - 1) + (if 0 <= n - 1 < keep.len() && keep[n - 1] && 0 <= n - 1
            < s.len() {
            seq![s[n - 1]]
        } else {
            Seq::empty()
        })
    }
}

/// A kept prefix holds at most one operation per flag.
pub proof fn lemma_kept_prefix_len(s: Seq<OpView>, keep: Seq<bool>, n: int)
    requires
        0 <= n,
    ensures
        kept_prefix(s, keep, n).len() <= n,
    decreases n,
{
    if n > 0 {
        lemma_kept_prefix_len(s, keep, n - 1);
    }
}

/// Every kept operation is one of the source's operations.
pub proof fn lemma_kept_prefix_members(s: Seq<OpView>, keep: Seq<bool>, n: int, j: int)
    requires
        0 <= j < kept_prefix(s, keep, n).len(),
    ensures
        s.contains(kept_prefix(s, keep, n)[j]),
    decreases n,
{
    if n > 0 {
        let prev = kept_prefix(s, keep, n - 1);
        if j < prev.len() {
            lemma_kept_prefix_members(s, keep, n - 1, j);
        }
    }
}

/// Which operations a prefix keeps depends only on the first `n` flags.
pub proof fn lemma_kept_prefix_stable(s: Seq<OpView>, k1: Seq<bool>, k2: Seq<bool>, n: int)
    requires
        forall|j: int|
            0 <= j < n ==> ((0 <= j < k1.len() && k1[j]) <==> (0 <= j < k2.len() && k2[j])),
    ensures
        kept_prefix(s, k1, n) =~= kept_prefix(s, k2, n),
    decreases n,
{
    if n > 0 {
        lemma_kept_prefix_stable(s, k1, k2, n - 1);
    }
}

/// Whole-delta helpers: walking, reshaping and slicing the operation
/// list.
pub trait DeltaTransformations {
    /// The operations of the value, as views.
    spec fn content(&self) -> Seq<OpView>;

    /// The value's operations are well formed.
    spec fn well_formed(&self) -> bool;

    /// The operations for which the predicate answers true, in order,
    /// uncombined.  The predicate is handed each operation with its
    /// one-based position.
    fn filter<F: Fn(&DeltaOperation, usize) -> bool>(&self, predicate: F) -> (r: Delta)
        requires
            self.well_formed(),
            forall|op: &DeltaOperation, i: usize| #[trigger] call_requires(predicate, (op, i)),
        ensures
            r.wf(),
            r@.len() <= self.content().len(),
            forall|j: int| 0 <= j < r@.len() ==> self.content().contains(#[trigger] r@[j]),
            exists|keep: Seq<bool>|
                #![trigger keep.len()]
                {
                    &&& keep.len() == self.content().len()
                    &&& r@ =~= kept_prefix(self.content(), keep, self.content().len() as int)
                    &&& (forall|i: int|
                        #![trigger keep[i]]
                        0 <= i < keep.len() ==> exists|op: &DeltaOperation|
                            op@ == self.content()[i] && call_ensures(
                                predicate,
                                (op, (i + 1) as usize),
                                keep[i],
                            ))
                },
    ;

    /// Calls the closure once for each operation, in order.
    fn for_each<F: Fn(&DeltaOperation)>(&self, predicate: F)
        requires
            self.well_formed(),
            forall|op: &DeltaOperation| #[trigger] call_requires(predicate, (op,)),
    ;

    /// How many units of content the operations cover altogether,
    /// whatever their kind.
    fn delta_length(&self) -> (r: usize)
        requires
            self.well_formed(),
            units_from(self.content(), 0) <= usize::MAX,
        ensures
            r == units_from(self.content(), 0),
    ;

    /// The closure's answer for each operation, in order.  The closure
    /// is handed each operation with its one-based position.
    fn map<T, F: Fn(&DeltaOperation, usize) -> T>(&self, predicate: F) -> (r: Vec<T>)
        requires
            self.well_formed(),
            forall|op: &DeltaOperation, i: usize| #[trigger] call_requires(predicate, (op, i)),
        ensures
            r@.len() == self.content().len(),
    ;

    /// Splits the delta in two: the operations the predicate accepts,
    /// and the ones it rejects, each rebuilt through the normalising
    /// push.
    fn partition<F: Fn(&DeltaOperation) -> bool>(&self, predicate: F) -> (r: (Delta, Delta))
        requires
            self.well_formed(),
            views_positive(self.content()),
            forall|op: &DeltaOperation| #[trigger] call_requires(predicate, (op,)),
        ensures
            r.0.wf(),
            r.1.wf(),
            normalized(r.0@),
            normalized(r.1@),
            exists|keep: Seq<bool>|
                #![trigger keep.len()]
                {
                    &&& keep.len() == self.content().len()
                    &&& r.0@ =~= crate::delta::pushed(
                        kept_prefix(self.content(), keep, self.content().len() as int),
                    )
                    &&& r.1@ =~= crate::delta::pushed(
                        kept_prefix(
                            self.content(),
                            keep.map_values(|b: bool| !b),
                            self.content().len() as int,
                        ),
                    )
                    &&& (forall|i: int|
                        #![trigger keep[i]]
                        0 <= i < keep.len() ==> exists|op: &DeltaOperation|
                            op@ == self.content()[i] && call_ensures(
                                predicate,
                                (op,),
                                keep[i],
                            ))
                },
    ;

    /// Folds the closure over the operations, threading the
    /// accumulator; the closure sees each operation with its one-based
    /// position.
    fn reduce<T, F: Fn(&mut T, &DeltaOperation, usize) -> T>(&self, predicate: F, init_val: &mut T)
        requires
            self.well_formed(),
            forall|acc: &mut T, op: &DeltaOperation, i: usize|
                #[trigger] call_requires(predicate, (acc, op, i)),
    ;

    /// A copy of the content between two unit positions, `end == 0`
    /// meaning to the end: each operation's overlap with the range,
    /// kind and attributes kept, rebuilt through the normalising push.
    /// The copy covers exactly the units between the two positions.
    fn slice(&self, start: usize, end: usize) -> (r: Delta)
        requires
            self.well_formed(),
            views_positive(self.content()),
            units_from(self.content(), 0) <= usize::MAX,
        ensures
            r.wf(),
            normalized(r@),
            ({
                let goal = if end == 0 {
                    units_from(self.content(), 0)
                } else {
                    end as int
                };
                &&& r@ =~= crate::delta::pushed(
                    slice_rec(self.content(), 0, 0, 0, start as int, goal),
                )
                &&& ((start <= goal <= units_from(self.content(), 0)) ==> units_from(r@, 0)
                    == goal - start)
            }),
    ;
}

impl DeltaTransformations for Delta {
    open spec fn content(&self) -> Seq<OpView> {
        self@
    }

    open spec fn well_formed(&self) -> bool {
        self.wf()
    }

    fn filter<F: Fn(&DeltaOperation, usize) -> bool>(&self, predicate: F) -> (r: Delta) {
        let ghost s = self@;
        let n = self.ops.len();
        let mut out: Vec<DeltaOperation> = Vec::new();
        let ghost mut keep: Seq<bool> = Seq::empty();
        let mut i: usize = 0;
        while i < n
            invariant
                n == self.ops@.len(),
                s == self@,
                self.wf(),
                i <= n,
                forall|op: &DeltaOperation, k: usize| #[trigger] call_requires(predicate, (op, k)),
                crate::operations::ops_wf(out@),
                keep.len() == i as int,
                crate::operations::ops_views(out@) =~= kept_prefix(s, keep, i as int),
                forall|q: int|
                    #![trigger keep[q]]
                    0 <= q < i ==> exists|op: &DeltaOperation|
                        op@ == s[q] && call_ensures(predicate, (op, (q + 1) as usize), keep[q]),
            decreases n - i,
        {
            let taken = predicate(&self.ops[i], i + 1);
            let ghost oldkeep = keep;
            proof {
                keep = keep.push(taken);
                lemma_kept_prefix_stable(s, oldkeep, keep, i as int);
                assert(self.ops@[i as int]@ == s[i as int]);
            }
            if taken {
                let op = self.ops[i].clone();
                out.push(op);
                proof {
                    assert(crate::operations::ops_views(out@) =~= kept_prefix(s, keep, i + 1));
                }
            } else {
                proof {
                    assert(crate::operations::ops_views(out@) =~= kept_prefix(s, keep, i + 1));
                }
            }
            i += 1;
        }
        let r = Delta::new(out);
        proof {
            assert(r@ =~= kept_prefix(s, keep, s.len() as int));
            lemma_kept_prefix_len(s, keep, s.len() as int);
            assert forall|j: int| 0 <= j < r@.len() implies self.content().contains(
                #[trigger] r@[j],
            ) by {
                lemma_kept_prefix_members(s, keep, s.len() as int, j);
            }
        }
        r
    }

    fn for_each<F: Fn(&DeltaOperation)>(&self, predicate: F) {
        let n = self.ops.len();
        let mut i: usize = 0;
        while i < n
            invariant
                n == self.ops@.len(),
                forall|op: &DeltaOperation| #[trigger] call_requires(predicate, (op,)),
            decreases n - i,
        {
            predicate(&self.ops[i]);
            i += 1;
        }
    }

    fn delta_length(&self) -> (r: usize) {
        let ghost s = self@;
        let n = self.ops.len();
        let mut len: usize = 0;
        let mut i: usize = 0;
        proof {
            crate::optransform::lemma_units_from(s, 0);
        }
        while i < n
            invariant
                n == self.ops@.len(),
                self.wf(),
                s == self@,
                i <= n,
                units_from(s, 0) <= usize::MAX,
                len == units_from(s, 0) - units_from(s, i as int),
                units_from(s, i as int) >= 0,
            decreases n - i,
        {
            proof {
                crate::optransform::lemma_units_from(s, i as int);
                crate::optransform::lemma_units_from(s, i as int + 1);
            }
            len = len + self.ops[i].op_len();
            i += 1;
        }
        len
    }

    fn map<T, F: Fn(&DeltaOperation, usize) -> T>(&self, predicate: F) -> (r: Vec<T>) {
        let ghost s = self@;
        let n = self.ops.len();
        let mut out: Vec<T> = Vec::new();
        let mut i: usize = 0;
        while i < n
            invariant
                n == self.ops@.len(),
                s == self@,
                i <= n,
                out@.len() == i,
                forall|op: &DeltaOperation, k: usize| #[trigger] call_requires(predicate, (op, k)),
            decreases n - i,
        {
            let v = predicate(&self.ops[i], i + 1);
            out.push(v);
            i += 1;
        }
        out
    }

    fn partition<F: Fn(&DeltaOperation) -> bool>(&self, predicate: F) -> (r: (Delta, Delta)) {
        let ghost s = self@;
        let n = self.ops.len();
        let mut passed = Delta::default();
        let mut failed = Delta::default();
        let ghost mut keep: Seq<bool> = Seq::empty();
        let mut i: usize = 0;
        proof {
            assert(passed@ =~= crate::delta::pushed(kept_prefix(s, keep, 0)));
            assert(failed@ =~= crate::delta::pushed(
                kept_prefix(s, keep.map_values(|b: bool| !b), 0),
            ));
        }
        while i < n
            invariant
                n == self.ops@.len(),
                s == self@,
                self.wf(),
                views_positive(s),
                i <= n,
                forall|op: &DeltaOperation| #[trigger] call_requires(predicate, (op,)),
                passed.wf(),
                failed.wf(),
                normalized(passed@),
                normalized(failed@),
                keep.len() == i as int,
                passed@ =~= crate::delta::pushed(kept_prefix(s, keep, i as int)),
                failed@ =~= crate::delta::pushed(
                    kept_prefix(s, keep.map_values(|b: bool| !b), i as int),
                ),
                forall|q: int|
                    #![trigger keep[q]]
                    0 <= q < i ==> exists|op: &DeltaOperation|
                        op@ == s[q] && call_ensures(predicate, (op,), keep[q]),
            decreases n - i,
        {
            let take = predicate(&self.ops[i]);
            let op = self.ops[i].clone();
            let ghost oldkeep = keep;
            proof {
                keep = keep.push(take);
                lemma_kept_prefix_stable(s, oldkeep, keep, i as int);
                lemma_kept_prefix_stable(
                    s,
                    oldkeep.map_values(|b: bool| !b),
                    keep.map_values(|b: bool| !b),
                    i as int,
                );
                assert(op@ == s[i as int]);
                assert(op_view_len(s[i as int]) > 0);
            }
            if take {
                proof {
                    crate::delta::lemma_push_normalized(passed@, op@);
                    crate::delta::lemma_pushed_push(kept_prefix(s, keep, i as int), op@);
                    assert(kept_prefix(s, keep, i + 1) =~= kept_prefix(s, keep, i as int).push(
                        op@,
                    ));
                    assert(kept_prefix(s, keep.map_values(|b: bool| !b), i + 1) =~= kept_prefix(
                        s,
                        keep.map_values(|b: bool| !b),
                        i as int,
                    ));
                }
                passed.push(op);
            } else {
                proof {
                    crate::delta::lemma_push_normalized(failed@, op@);
                    crate::delta::lemma_pushed_push(
                        kept_prefix(s, keep.map_values(|b: bool| !b), i as int),
                        op@,
                    );
                    assert(kept_prefix(s, keep.map_values(|b: bool| !b), i + 1) =~= kept_prefix(
                        s,
                        keep.map_values(|b: bool| !b),
                        i as int,
                    ).push(op@));
                    assert(kept_prefix(s, keep, i + 1) =~= kept_prefix(s, keep, i as int));
                }
                failed.push(op);
            }
            i += 1;
        }
        (passed, failed)
    }

    fn reduce<T, F: Fn(&mut T, &DeltaOperation, usize) -> T>(
        &self,
        predicate: F,
        init_val: &mut T,
    ) {
        let n = self.ops.len();
        let mut i: usize = 0;
        while i < n
            invariant
                n == self.ops@.len(),
                forall|acc: &mut T, op: &DeltaOperation, k: usize|
                    #[trigger] call_requires(predicate, (acc, op, k)),
            decreases n - i,
        {
            let _ = predicate(init_val, &self.ops[i], i + 1);
            i += 1;
        }
    }

    fn slice(&self, start: usize, end: usize) -> (r: Delta) {
        let ghost s = self@;
        let mut einde = end;
        if end == 0 {
            einde = self.delta_length();
        }
        let ghost goal = einde as int;
        let mut delta = Delta::default();
        let mut iter = DeltaIterator::new(&self.ops);
        let mut index: usize = 0;
        let ghost mut acc: Seq<OpView> = Seq::empty();
        proof {
            crate::optransform::lemma_units_from(s, 0);
            assert(delta@ =~= crate::delta::pushed(acc));
        }
        while index < einde && iter.has_next()
            invariant
                iter.valid(),
                iter.src() == s,
                self@ == s,
                delta.wf(),
                normalized(delta@),
                start <= einde ==> index <= einde,
                goal == einde as int,
                units_from(s, 0) <= usize::MAX,
                index + cursor_units(s, iter.cur_index(), iter.cur_offset()) == units_from(s, 0),
                units_from(delta@, 0) == if index <= start {
                    0
                } else {
                    index - start
                },
                index > start ==> start < einde,
                delta@ =~= crate::delta::pushed(acc),
                slice_rec(s, 0, 0, 0, start as int, goal) =~= acc + slice_rec(
                    s,
                    iter.cur_index(),
                    iter.cur_offset(),
                    index as int,
                    start as int,
                    goal,
                ),
            decreases cursor_units(s, iter.cur_index(), iter.cur_offset()),
        {
            let ghost k = iter.cur_index();
            let ghost o = iter.cur_offset();
            let ghost tail = slice_rec(s, k, o, index as int, start as int, goal);
            proof {
                crate::optransform::lemma_units_from(s, k);
            }
            if index < start {
                let next_op = iter.next_len(start - index);
                proof {
                    crate::optransform::lemma_units_from(s, iter.cur_index());
                    assert(tail =~= slice_rec(
                        s,
                        iter.cur_index(),
                        iter.cur_offset(),
                        index + op_view_len(next_op@),
                        start as int,
                        goal,
                    ));
                }
                index = index + next_op.op_len();
            } else {
                let next_op = iter.next_len(einde - index);
                let ghost em = next_op@;
                proof {
                    crate::optransform::lemma_units_from(s, iter.cur_index());
                    crate::delta::lemma_push_normalized(delta@, em);
                    crate::optransform::lemma_push_units(delta@, em);
                    crate::delta::lemma_pushed_push(acc, em);
                    assert(tail =~= seq![em] + slice_rec(
                        s,
                        iter.cur_index(),
                        iter.cur_offset(),
                        index + op_view_len(em),
                        start as int,
                        goal,
                    ));
                    acc = acc.push(em);
                }
                index = index + next_op.op_len();
                delta.push(next_op);
                proof {
                    assert(slice_rec(s, 0, 0, 0, start as int, goal) =~= acc + slice_rec(
                        s,
                        iter.cur_index(),
                        iter.cur_offset(),
                        index as int,
                        start as int,
                        goal,
                    ));
                }
            }
        }
        proof {
            assert(slice_rec(
                s,
                iter.cur_index(),
                iter.cur_offset(),
                index as int,
                start as int,
                goal,
            ) =~= Seq::<OpView>::empty());
            assert(delta@ =~= crate::delta::pushed(slice_rec(s, 0, 0, 0, start as int, goal)));
            let g2 = if end == 0 {
                units_from(s, 0)
            } else {
                end as int
            };
            if start <= g2 <= units_from(s, 0) {
                assert(einde as int == g2);
                assert(index == g2 || !(index < einde));
            }
        }
        delta
    }
}

} // verus!
