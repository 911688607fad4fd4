use crate::attributes::compose as compose_attrs;
use crate::attributes::transform as transform_attrs;
use crate::delta::{normalized, push_spec, Delta};
use crate::error::Error;
use crate::ops_kind::OpKindView;
use crate::delta::op_is_str_insert;
use crate::iterator::{slice_op, views_positive, DeltaIterator};
use crate::operations::{op_view_len, DeltaOperation, OpType, OpView};
use vstd::prelude::*;

verus! {

broadcast use {
    crate::attr_val::lemma_attr_val_view,
    crate::attr_val::lemma_attr_val_wf,
    crate::operations::lemma_ops_views,
    crate::operations::lemma_op_view,
    crate::operations::lemma_op_wf,
    crate::operations::lemma_op_len_bounded,
    crate::delta::lemma_delta_view,
    crate::delta::lemma_delta_wf,
    crate::iterator::lemma_iter_valid,
};

/// The operational-transformation core of a delta: composing with a
/// later change, rebasing a concurrent change, and carrying a cursor
/// position across a change.
pub trait OpTransform {
    /// The operations of the value, as views.
    spec fn content(&self) -> Seq<OpView>;

    /// The value's operations are well formed.
    spec fn well_formed(&self) -> bool;

    /// Returns the delta equivalent to applying `self`, then `other`:
    /// inserts of `other` enter as they stand, deletes of `self` pass
    /// through, matching stretches compose their attributes, and an
    /// insert of `self` that `other` deletes vanishes.  The result is
    /// normalised.
    fn compose(&self, other: &Delta) -> (r: Result<Delta, Error>)
        requires
            self.well_formed(),
            other.wf(),
            views_positive(self.content()),
            views_positive(other@),
        ensures
            r is Ok,
            match r {
                Ok(d) => d.wf() && normalized(d@) && d@ =~= crate::delta::chop_spec(
                    crate::delta::pushed(compose_rec(self.content(), 0, 0, other@, 0, 0)),
                ),
                Err(_) => false,
            },
    ;

    /// Rebases the concurrent change `other` over `self`: inserts of
    /// `self` become retains that shift `other` past them (ties on
    /// simultaneous inserts broken by `priority`), stretches `self`
    /// deletes are dropped from `other`, and retained stretches carry
    /// `other`'s attributes transformed against `self`'s.  The result
    /// is normalised.
    fn transform(&self, other: &Delta, priority: bool) -> (r: Result<Delta, Error>)
        requires
            self.well_formed(),
            other.wf(),
            views_positive(self.content()),
            views_positive(other@),
        ensures
            r is Ok,
            match r {
                Ok(d) => d.wf() && normalized(d@) && d@ =~= crate::delta::chop_spec(
                    crate::delta::pushed(
                        transform_rec(self.content(), 0, 0, other@, 0, 0, priority),
                    ),
                ),
                Err(_) => false,
            },
    ;

    /// Carries a cursor position across this change: deletes before the
    /// position pull it left, inserts before it push it right, and an
    /// insert exactly at it pushes it right only without `priority`.
    fn transform_position(&self, index: usize, priority: bool) -> (r: Result<usize, Error>)
        requires
            self.well_formed(),
            views_positive(self.content()),
            index + units_from(self.content(), 0) <= usize::MAX,
        ensures
            r is Ok,
            match r {
                Ok(p) => p == tp_rec(self.content(), 0, index as int, 0, priority),
                Err(_) => false,
            },
    ;
}

/// How many units of content stand at or after operation `k`.
pub open spec fn units_from(s: Seq<OpView>, k: int) -> int
    decreases s.len() - k,
{
    if k < 0 || k >= s.len() {
        0
    } else {
        op_view_len(s[k]) + units_from(s, k + 1)
    }
}

/// Unit counts are never negative, and drop by one operation's length
/// from one index to the next.
pub proof fn lemma_units_from(s: Seq<OpView>, k: int)
    ensures
        units_from(s, k) >= 0,
        0 <= k < s.len() ==> units_from(s, k + 1) == units_from(s, k) - op_view_len(s[k])
            && units_from(s, k) >= op_view_len(s[k]),
    decreases s.len() - k,
{
    if 0 <= k < s.len() {
        lemma_units_from(s, k + 1);
    }
}

/// What is left under a cursor: the units from its operation onward,
/// less the offset already passed.
pub open spec fn cursor_units(s: Seq<OpView>, idx: int, off: int) -> int {
    units_from(s, idx) - off
}

/// How many operations stand at or after index `k`.
pub open spec fn ops_left(s: Seq<OpView>, k: int) -> int {
    if k < 0 {
        s.len() as int
    } else if k > s.len() {
        0
    } else {
        s.len() - k
    }
}

/// How much of the operation under a cursor is still unread; zero for a
/// cursor that does not sit inside an operation.
pub open spec fn rem_of(s: Seq<OpView>, k: int, o: int) -> int {
    if 0 <= k < s.len() && 0 <= o <= op_view_len(s[k]) {
        op_view_len(s[k]) - o
    } else {
        0
    }
}

/// The operations that composing emits, walking the two streams from
/// the given cursors by the composition rules: an insert of the second
/// stream enters whole, a delete of the first passes whole, matching
/// stretches compose their attributes (null tombstones kept on retains,
/// dropped on inserts), an insert of the first that the second deletes
/// vanishes, and an exhausted stream acts as an unbounded bare retain.
pub open spec fn compose_rec(
    s1: Seq<OpView>,
    k1: int,
    o1: int,
    s2: Seq<OpView>,
    k2: int,
    o2: int,
) -> Seq<OpView>
    decreases ops_left(s1, k1) + ops_left(s2, k2), rem_of(s1, k1, o1) + rem_of(s2, k2, o2),
{
    let done1 = !(0 <= k1 < s1.len());
    let done2 = !(0 <= k2 < s2.len());
    let r1 = rem_of(s1, k1, o1);
    let r2 = rem_of(s2, k2, o2);
    if done1 && done2 {
        Seq::empty()
    } else if !done1 && r1 <= 0 {
        compose_rec(s1, k1 + 1, 0, s2, k2, o2)
    } else if !done2 && r2 <= 0 {
        compose_rec(s1, k1, o1, s2, k2 + 1, 0)
    } else if !done2 && s2[k2].kind is Insert {
        seq![slice_op(s2[k2], o2, r2)] + compose_rec(s1, k1, o1, s2, k2 + 1, 0)
    } else if !done1 && s1[k1].kind is Delete {
        seq![slice_op(s1[k1], o1, r1)] + compose_rec(s1, k1 + 1, 0, s2, k2, o2)
    } else if done1 {
        seq![slice_op(s2[k2], o2, r2)] + compose_rec(s1, k1, o1, s2, k2 + 1, 0)
    } else if done2 {
        seq![slice_op(s1[k1], o1, r1)] + compose_rec(s1, k1 + 1, 0, s2, k2, o2)
    } else {
        let l = if r1 < r2 {
            r1
        } else {
            r2
        };
        let k1n = if l == r1 {
            k1 + 1
        } else {
            k1
        };
        let o1n = if l == r1 {
            0
        } else {
            o1 + l
        };
        let k2n = if l == r2 {
            k2 + 1
        } else {
            k2
        };
        let o2n = if l == r2 {
            0
        } else {
            o2 + l
        };
        if s2[k2].kind is Retain {
            let emitted = if s1[k1].kind is Retain {
                OpView {
                    kind: OpKindView::Retain(l as nat),
                    attrs: crate::attributes::compose_model(s1[k1].attrs, s2[k2].attrs, true),
                }
            } else {
                OpView {
                    kind: slice_op(s1[k1], o1, l).kind,
                    attrs: crate::attributes::compose_model(s1[k1].attrs, s2[k2].attrs, false),
                }
            };
            seq![emitted] + compose_rec(s1, k1n, o1n, s2, k2n, o2n)
        } else {
            if s1[k1].kind is Retain {
                seq![
                    OpView { kind: OpKindView::Delete(l as nat), attrs: Map::empty() },
                ] + compose_rec(s1, k1n, o1n, s2, k2n, o2n)
            } else {
                compose_rec(s1, k1n, o1n, s2, k2n, o2n)
            }
        }
    }
}

/// The operations that transforming emits, walking the two streams from
/// the given cursors: an insert of the first stream becomes a bare
/// retain that shifts the second past it (losing the tie without
/// priority), an insert of the second enters whole, content the first
/// deletes is dropped from the second, and matching retained stretches
/// carry the second's attributes transformed against the first's.
pub open spec fn transform_rec(
    s1: Seq<OpView>,
    k1: int,
    o1: int,
    s2: Seq<OpView>,
    k2: int,
    o2: int,
    priority: bool,
) -> Seq<OpView>
    decreases ops_left(s1, k1) + ops_left(s2, k2), rem_of(s1, k1, o1) + rem_of(s2, k2, o2),
{
    let done1 = !(0 <= k1 < s1.len());
    let done2 = !(0 <= k2 < s2.len());
    let r1 = rem_of(s1, k1, o1);
    let r2 = rem_of(s2, k2, o2);
    if done1 && done2 {
        Seq::empty()
    } else if !done1 && r1 <= 0 {
        transform_rec(s1, k1 + 1, 0, s2, k2, o2, priority)
    } else if !done2 && r2 <= 0 {
        transform_rec(s1, k1, o1, s2, k2 + 1, 0, priority)
    } else if !done1 && s1[k1].kind is Insert && (priority || done2 || !(s2[k2].kind is Insert)) {
        seq![
            OpView { kind: OpKindView::Retain(r1 as nat), attrs: Map::empty() },
        ] + transform_rec(s1, k1 + 1, 0, s2, k2, o2, priority)
    } else if !done2 && s2[k2].kind is Insert {
        seq![slice_op(s2[k2], o2, r2)] + transform_rec(s1, k1, o1, s2, k2 + 1, 0, priority)
    } else if done1 {
        seq![slice_op(s2[k2], o2, r2)] + transform_rec(s1, k1, o1, s2, k2 + 1, 0, priority)
    } else if done2 {
        if s1[k1].kind is Delete {
            transform_rec(s1, k1 + 1, 0, s2, k2, o2, priority)
        } else {
            seq![
                OpView { kind: OpKindView::Retain(r1 as nat), attrs: Map::empty() },
            ] + transform_rec(s1, k1 + 1, 0, s2, k2, o2, priority)
        }
    } else {
        let l = if r1 < r2 {
            r1
        } else {
            r2
        };
        let k1n = if l == r1 {
            k1 + 1
        } else {
            k1
        };
        let o1n = if l == r1 {
            0
        } else {
            o1 + l
        };
        let k2n = if l == r2 {
            k2 + 1
        } else {
            k2
        };
        let o2n = if l == r2 {
            0
        } else {
            o2 + l
        };
        if s1[k1].kind is Delete {
            transform_rec(s1, k1n, o1n, s2, k2n, o2n, priority)
        } else if s2[k2].kind is Delete {
            seq![
                OpView { kind: OpKindView::Delete(l as nat), attrs: Map::empty() },
            ] + transform_rec(s1, k1n, o1n, s2, k2n, o2n, priority)
        } else {
            seq![
                OpView {
                    kind: OpKindView::Retain(l as nat),
                    attrs: crate::attributes::transform_model(s1[k1].attrs, s2[k2].attrs, priority),
                },
            ] + transform_rec(s1, k1n, o1n, s2, k2n, o2n, priority)
        }
    }
}


/// Unit counting from any start, with the last operation split off.
pub proof fn lemma_units_drop_last(s: Seq<OpView>, k: int)
    requires
        s.len() > 0,
        0 <= k <= s.len(),
    ensures
        k < s.len() ==> units_from(s, k) == units_from(s.drop_last(), k) + op_view_len(s.last()),
        k == s.len() ==> units_from(s, k) == 0,
    decreases s.len() - k,
{
    if k < s.len() {
        lemma_units_drop_last(s, k + 1);
        if k < s.len() - 1 {
            assert(s.drop_last()[k] == s[k]);
        }
    }
}

/// Appending one operation adds its length to the unit count.
pub proof fn lemma_units_push(s: Seq<OpView>, x: OpView)
    ensures
        units_from(s.push(x), 0) == units_from(s, 0) + op_view_len(x),
{
    let t = s.push(x);
    assert(t.drop_last() =~= s);
    assert(t.last() == x);
    if s.len() == 0 {
        assert(units_from(t, 1) == 0);
    } else {
        lemma_units_drop_last(t, 0);
    }
}

/// The normalising push conserves units: merging, and sliding an
/// insert in front of a delete, never change how much content the
/// delta covers.
pub proof fn lemma_push_units(s: Seq<OpView>, op: OpView)
    ensures
        units_from(push_spec(s, op), 0) == units_from(s, 0) + op_view_len(op),
{
    let r = push_spec(s, op);
    if s.len() == 0 {
        lemma_units_push(Seq::empty(), op);
        assert(r =~= Seq::<OpView>::empty().push(op));
    } else {
        let n = s.len() as int;
        let last = s.last();
        let head = s.drop_last();
        lemma_units_drop_last(s, 0);
        if op.kind is Insert && last.kind is Delete {
            if n >= 2 && op_is_str_insert(s[n - 2]) && op_is_str_insert(op) && s[n - 2].attrs
                == op.attrs {
                let prev = s[n - 2];
                let m = crate::delta::merged(prev, op);
                assert(op_view_len(m) == op_view_len(prev) + op_view_len(op));
                let base = s.take(n - 2);
                assert(head.drop_last() =~= base);
                assert(head.last() == prev);
                lemma_units_drop_last(head, 0);
                lemma_units_push(base, m);
                lemma_units_push(base.push(m), last);
                assert(r == base.push(m).push(last));
            } else {
                assert(head =~= s.take(n - 1));
                lemma_units_push(head, op);
                lemma_units_push(head.push(op), last);
                assert(r == head.push(op).push(last));
            }
        } else if crate::delta::mergeable(last, op) {
            let m = crate::delta::merged(last, op);
            assert(op_view_len(m) == op_view_len(last) + op_view_len(op));
            assert(head =~= s.take(n - 1));
            lemma_units_push(head, m);
            assert(r == head.push(m));
        } else {
            lemma_units_push(s, op);
        }
    }
}

/// Where a position `index` in the document lands after the change `s`
/// is applied, walked one operation at a time: a delete before the
/// position pulls it left, an insert before it pushes it right, and an
/// insert exactly at it pushes it right only when the change has no
/// priority over the position's owner.
pub open spec fn tp_rec(s: Seq<OpView>, k: int, index: int, offset: int, priority: bool) -> int
    decreases s.len() - k,
{
    if k < 0 || k >= s.len() || offset > index {
        index
    } else {
        let l = op_view_len(s[k]) as int;
        if s[k].kind is Delete {
            let cut = if l < index - offset {
                l
            } else {
                index - offset
            };
            tp_rec(s, k + 1, index - cut, offset, priority)
        } else if s[k].kind is Insert {
            if offset < index || !priority {
                tp_rec(s, k + 1, index + l, offset + l, priority)
            } else {
                tp_rec(s, k + 1, index, offset + l, priority)
            }
        } else {
            tp_rec(s, k + 1, index, offset + l, priority)
        }
    }
}

/// A transformed position never falls below the content already walked.
proof fn lemma_tp_lower(s: Seq<OpView>, k: int, index: int, offset: int, priority: bool)
    requires
        offset <= index,
    ensures
        tp_rec(s, k, index, offset, priority) >= offset,
    decreases s.len() - k,
{
    if !(k < 0 || k >= s.len() || offset > index) {
        let l = op_view_len(s[k]) as int;
        if s[k].kind is Delete {
            let cut = if l < index - offset {
                l
            } else {
                index - offset
            };
            lemma_tp_lower(s, k + 1, index - cut, offset, priority);
            assert(tp_rec(s, k, index, offset, priority) == tp_rec(
                s,
                k + 1,
                index - cut,
                offset,
                priority,
            ));
        } else if s[k].kind is Insert {
            if offset < index || !priority {
                lemma_tp_lower(s, k + 1, index + l, offset + l, priority);
                assert(tp_rec(s, k + 1, index + l, offset + l, priority) >= offset + l);
            } else {
                if offset + l <= index {
                    lemma_tp_lower(s, k + 1, index, offset + l, priority);
                } else {
                    assert(tp_rec(s, k + 1, index, offset + l, priority) == index);
                }
            }
        } else {
            if offset + l <= index {
                lemma_tp_lower(s, k + 1, index, offset + l, priority);
            } else {
                assert(tp_rec(s, k + 1, index, offset + l, priority) == index);
            }
        }
    }
}

/// Monotonicity of the position walk, from any operation and offset.
proof fn lemma_tp_monotone(s: Seq<OpView>, k: int, i: int, j: int, offset: int, priority: bool)
    requires
        i <= j,
    ensures
        tp_rec(s, k, i, offset, priority) <= tp_rec(s, k, j, offset, priority),
    decreases s.len() - k,
{
    if k < 0 || k >= s.len() {
    } else if offset > i {
        if offset > j {
        } else {
            lemma_tp_lower(s, k, j, offset, priority);
        }
    } else {
        let l = op_view_len(s[k]) as int;
        if s[k].kind is Delete {
            let cut_i = if l < i - offset {
                l
            } else {
                i - offset
            };
            let cut_j = if l < j - offset {
                l
            } else {
                j - offset
            };
            lemma_tp_monotone(s, k + 1, i - cut_i, j - cut_j, offset, priority);
        } else if s[k].kind is Insert {
            if offset < i || !priority {
                lemma_tp_monotone(s, k + 1, i + l, j + l, offset + l, priority);
            } else {
                // offset == i and the change has priority: i stays.
                if offset < j {
                    lemma_tp_monotone(s, k + 1, i, j + l, offset + l, priority);
                } else {
                    lemma_tp_monotone(s, k + 1, i, j, offset + l, priority);
                }
            }
        } else {
            lemma_tp_monotone(s, k + 1, i, j, offset + l, priority);
        }
    }
}

/// Law: position transformation is monotone.  Carrying two positions
/// across the same change keeps their order: `i <= j` gives
/// `transform_position(i) <= transform_position(j)`.
pub proof fn lemma_transform_position_monotone(s: Seq<OpView>, i: int, j: int, priority: bool)
    requires
        i <= j,
    ensures
        tp_rec(s, 0, i, 0, priority) <= tp_rec(s, 0, j, 0, priority),
{
    lemma_tp_monotone(s, 0, i, j, 0, priority);
}

impl OpTransform for Delta {
    open spec fn content(&self) -> Seq<OpView> {
        self@
    }

    open spec fn well_formed(&self) -> bool {
        self.wf()
    }

    fn compose(&self, other: &Delta) -> (r: Result<Delta, Error>) {
        let mut this_iter = DeltaIterator::new(&self.ops);
        let mut other_iter = DeltaIterator::new(&other.ops);
        let ghost s1 = this_iter.src();
        let ghost s2 = other_iter.src();
        let mut delta = Delta::default();
        let ghost mut acc: Seq<OpView> = Seq::empty();
        proof {
            assert(normalized(delta@));
            assert(delta@ =~= crate::delta::pushed(acc));
        }
        while this_iter.has_next() || other_iter.has_next()
            invariant
                this_iter.valid(),
                other_iter.valid(),
                this_iter.src() == s1,
                other_iter.src() == s2,
                delta.wf(),
                normalized(delta@),
                delta@ =~= crate::delta::pushed(acc),
                compose_rec(s1, 0, 0, s2, 0, 0) =~= acc + compose_rec(
                    s1,
                    this_iter.cur_index(),
                    this_iter.cur_offset(),
                    s2,
                    other_iter.cur_index(),
                    other_iter.cur_offset(),
                ),
            decreases
                    cursor_units(s1, this_iter.cur_index(), this_iter.cur_offset()) + cursor_units(
                        s2,
                        other_iter.cur_index(),
                        other_iter.cur_offset(),
                    ),
        {
            let ghost k1 = this_iter.cur_index();
            let ghost o1 = this_iter.cur_offset();
            let ghost k2 = other_iter.cur_index();
            let ghost o2 = other_iter.cur_offset();
            let ghost tail = compose_rec(s1, k1, o1, s2, k2, o2);
            proof {
                lemma_units_from(s1, k1);
                lemma_units_from(s2, k2);
            }
            if other_iter.peek_type() == OpType::Insert {
                let op = other_iter.next_len(0);
                proof {
                    lemma_units_from(s2, other_iter.cur_index());
                }
                let ghost em = op@;
                proof {
                    crate::delta::lemma_push_normalized(delta@, em);
                    crate::delta::lemma_pushed_push(acc, em);
                    assert(tail =~= seq![em] + compose_rec(s1, k1, o1, s2, k2 + 1, 0));
                    acc = acc.push(em);
                }
                delta.push(op);
                proof {
                    assert(compose_rec(s1, 0, 0, s2, 0, 0) =~= acc + compose_rec(
                        s1,
                        this_iter.cur_index(),
                        this_iter.cur_offset(),
                        s2,
                        other_iter.cur_index(),
                        other_iter.cur_offset(),
                    ));
                }
            } else if this_iter.peek_type() == OpType::Delete {
                let op = this_iter.next_len(0);
                proof {
                    lemma_units_from(s1, this_iter.cur_index());
                }
                let ghost em = op@;
                proof {
                    crate::delta::lemma_push_normalized(delta@, em);
                    crate::delta::lemma_pushed_push(acc, em);
                    assert(tail =~= seq![em] + compose_rec(s1, k1 + 1, 0, s2, k2, o2));
                    acc = acc.push(em);
                }
                delta.push(op);
                proof {
                    assert(compose_rec(s1, 0, 0, s2, 0, 0) =~= acc + compose_rec(
                        s1,
                        this_iter.cur_index(),
                        this_iter.cur_offset(),
                        s2,
                        other_iter.cur_index(),
                        other_iter.cur_offset(),
                    ));
                }
            } else {
                let a = this_iter.peek_len();
                let b = other_iter.peek_len();
                let l = if a < b {
                    a
                } else {
                    b
                };
                let this_op = this_iter.next_len(l);
                let other_op = other_iter.next_len(l);
                proof {
                    lemma_units_from(s1, this_iter.cur_index());
                    lemma_units_from(s2, other_iter.cur_index());
                }
                if other_op.op_type() == OpType::Retain {
                    let this_retained = this_op.op_type() == OpType::Retain;
                    let mut new_op = if this_retained {
                        DeltaOperation::retain(l)
                    } else {
                        DeltaOperation::insert(this_op.insert_value().clone())
                    };
                    let attr = compose_attrs(
                        this_op.get_attributes(),
                        other_op.get_attributes(),
                        this_retained,
                    );
                    new_op.set_attributes(attr);
                    let ghost em = new_op@;
                    proof {
                        crate::delta::lemma_push_normalized(delta@, em);
                        crate::delta::lemma_pushed_push(acc, em);
                        if !(0 <= k1 < s1.len()) {
                            assert(attr@ =~= s2[k2].attrs);
                        } else if !(0 <= k2 < s2.len()) {
                            assert(attr@ =~= s1[k1].attrs);
                            if !(s1[k1].kind is Retain) {
                                assert(em == slice_op(s1[k1], o1, rem_of(s1, k1, o1)));
                            }
                        }
                        assert(tail =~= seq![em] + compose_rec(
                            s1,
                            this_iter.cur_index(),
                            this_iter.cur_offset(),
                            s2,
                            other_iter.cur_index(),
                            other_iter.cur_offset(),
                        ));
                        acc = acc.push(em);
                    }
                    delta.push(new_op);
                    proof {
                        assert(compose_rec(s1, 0, 0, s2, 0, 0) =~= acc + compose_rec(
                            s1,
                            this_iter.cur_index(),
                            this_iter.cur_offset(),
                            s2,
                            other_iter.cur_index(),
                            other_iter.cur_offset(),
                        ));
                    }
                } else if other_op.op_type() == OpType::Delete && this_op.op_type()
                    == OpType::Retain {
                    let ghost em = other_op@;
                    proof {
                        crate::delta::lemma_push_normalized(delta@, em);
                        crate::delta::lemma_pushed_push(acc, em);
                        assert(tail =~= seq![em] + compose_rec(
                            s1,
                            this_iter.cur_index(),
                            this_iter.cur_offset(),
                            s2,
                            other_iter.cur_index(),
                            other_iter.cur_offset(),
                        ));
                        acc = acc.push(em);
                    }
                    delta.push(other_op);
                    proof {
                        assert(compose_rec(s1, 0, 0, s2, 0, 0) =~= acc + compose_rec(
                            s1,
                            this_iter.cur_index(),
                            this_iter.cur_offset(),
                            s2,
                            other_iter.cur_index(),
                            other_iter.cur_offset(),
                        ));
                    }
                } else {
                    // An insert of `self` that `other` deletes: both are
                    // consumed and nothing is emitted.
                    proof {
                        assert(tail =~= compose_rec(
                            s1,
                            this_iter.cur_index(),
                            this_iter.cur_offset(),
                            s2,
                            other_iter.cur_index(),
                            other_iter.cur_offset(),
                        ));
                        assert(compose_rec(s1, 0, 0, s2, 0, 0) =~= acc + compose_rec(
                            s1,
                            this_iter.cur_index(),
                            this_iter.cur_offset(),
                            s2,
                            other_iter.cur_index(),
                            other_iter.cur_offset(),
                        ));
                    }
                }
            }
            proof {
                lemma_units_from(s1, this_iter.cur_index());
                lemma_units_from(s2, other_iter.cur_index());
                assert(cursor_units(s1, this_iter.cur_index(), this_iter.cur_offset()) >= 0);
                assert(cursor_units(s2, other_iter.cur_index(), other_iter.cur_offset()) >= 0);
            }
        }
        proof {
            assert(compose_rec(
                s1,
                this_iter.cur_index(),
                this_iter.cur_offset(),
                s2,
                other_iter.cur_index(),
                other_iter.cur_offset(),
            ) =~= Seq::<OpView>::empty());
            assert(compose_rec(s1, 0, 0, s2, 0, 0) =~= acc);
            crate::delta::lemma_chop_normalized(delta@);
        }
        delta.chop();
        proof {
            assert(delta@ =~= crate::delta::chop_spec(crate::delta::pushed(
                compose_rec(s1, 0, 0, s2, 0, 0),
            )));
        }
        Ok(delta)
    }

    fn transform(&self, other: &Delta, priority: bool) -> (r: Result<Delta, Error>) {
        let mut this_iter = DeltaIterator::new(&self.ops);
        let mut other_iter = DeltaIterator::new(&other.ops);
        let ghost s1 = this_iter.src();
        let ghost s2 = other_iter.src();
        let mut delta = Delta::default();
        let ghost mut acc: Seq<OpView> = Seq::empty();
        proof {
            assert(normalized(delta@));
            assert(delta@ =~= crate::delta::pushed(acc));
        }
        while this_iter.has_next() || other_iter.has_next()
            invariant
                this_iter.valid(),
                other_iter.valid(),
                this_iter.src() == s1,
                other_iter.src() == s2,
                delta.wf(),
                normalized(delta@),
                delta@ =~= crate::delta::pushed(acc),
                transform_rec(s1, 0, 0, s2, 0, 0, priority) =~= acc + transform_rec(
                    s1,
                    this_iter.cur_index(),
                    this_iter.cur_offset(),
                    s2,
                    other_iter.cur_index(),
                    other_iter.cur_offset(),
                    priority,
                ),
            decreases
                    cursor_units(s1, this_iter.cur_index(), this_iter.cur_offset()) + cursor_units(
                        s2,
                        other_iter.cur_index(),
                        other_iter.cur_offset(),
                    ),
        {
            let ghost k1 = this_iter.cur_index();
            let ghost o1 = this_iter.cur_offset();
            let ghost k2 = other_iter.cur_index();
            let ghost o2 = other_iter.cur_offset();
            let ghost tail = transform_rec(s1, k1, o1, s2, k2, o2, priority);
            proof {
                lemma_units_from(s1, k1);
                lemma_units_from(s2, k2);
            }
            let this_is_insert = this_iter.peek_type() == OpType::Insert;
            let other_is_insert = other_iter.peek_type() == OpType::Insert;
            if this_is_insert && (priority || !other_is_insert) {
                let op = this_iter.next_len(0);
                proof {
                    lemma_units_from(s1, this_iter.cur_index());
                }
                let ghost pre = delta@;
                let shift = op.op_len();
                let ghost em = OpView {
                    kind: OpKindView::Retain(rem_of(s1, k1, o1) as nat),
                    attrs: Map::empty(),
                };
                proof {
                    assert(shift == rem_of(s1, k1, o1));
                    crate::delta::lemma_push_normalized(pre, em);
                    crate::delta::lemma_pushed_push(acc, em);
                    assert(tail =~= seq![em] + transform_rec(
                        s1,
                        k1 + 1,
                        0,
                        s2,
                        k2,
                        o2,
                        priority,
                    ));
                    acc = acc.push(em);
                }
                delta.retain(shift);
                proof {
                    assert(delta@ =~= crate::delta::pushed(acc));
                    assert(transform_rec(s1, 0, 0, s2, 0, 0, priority) =~= acc + transform_rec(
                        s1,
                        this_iter.cur_index(),
                        this_iter.cur_offset(),
                        s2,
                        other_iter.cur_index(),
                        other_iter.cur_offset(),
                        priority,
                    ));
                }
            } else if other_is_insert {
                let op = other_iter.next_len(0);
                proof {
                    lemma_units_from(s2, other_iter.cur_index());
                }
                let ghost em = op@;
                proof {
                    crate::delta::lemma_push_normalized(delta@, em);
                    crate::delta::lemma_pushed_push(acc, em);
                    assert(tail =~= seq![em] + transform_rec(
                        s1,
                        k1,
                        o1,
                        s2,
                        k2 + 1,
                        0,
                        priority,
                    ));
                    acc = acc.push(em);
                }
                delta.push(op);
                proof {
                    assert(transform_rec(s1, 0, 0, s2, 0, 0, priority) =~= acc + transform_rec(
                        s1,
                        this_iter.cur_index(),
                        this_iter.cur_offset(),
                        s2,
                        other_iter.cur_index(),
                        other_iter.cur_offset(),
                        priority,
                    ));
                }
            } else {
                let a = this_iter.peek_len();
                let b = other_iter.peek_len();
                let l = if a < b {
                    a
                } else {
                    b
                };
                let this_op = this_iter.next_len(l);
                let other_op = other_iter.next_len(l);
                proof {
                    lemma_units_from(s1, this_iter.cur_index());
                    lemma_units_from(s2, other_iter.cur_index());
                }
                if this_op.op_type() == OpType::Delete {
                    // Their content is gone; nothing of `other` here
                    // survives.
                    proof {
                        assert(tail =~= transform_rec(
                            s1,
                            this_iter.cur_index(),
                            this_iter.cur_offset(),
                            s2,
                            other_iter.cur_index(),
                            other_iter.cur_offset(),
                            priority,
                        ));
                        assert(transform_rec(s1, 0, 0, s2, 0, 0, priority) =~= acc
                            + transform_rec(
                            s1,
                            this_iter.cur_index(),
                            this_iter.cur_offset(),
                            s2,
                            other_iter.cur_index(),
                            other_iter.cur_offset(),
                            priority,
                        ));
                    }
                } else if other_op.op_type() == OpType::Delete {
                    let ghost em = OpView {
                        kind: OpKindView::Delete(l as nat),
                        attrs: Map::empty(),
                    };
                    proof {
                        assert(other_op@ == em);
                        crate::delta::lemma_push_normalized(delta@, em);
                        crate::delta::lemma_pushed_push(acc, em);
                        assert(tail =~= seq![em] + transform_rec(
                            s1,
                            this_iter.cur_index(),
                            this_iter.cur_offset(),
                            s2,
                            other_iter.cur_index(),
                            other_iter.cur_offset(),
                            priority,
                        ));
                        acc = acc.push(em);
                    }
                    delta.push(other_op);
                    proof {
                        assert(transform_rec(s1, 0, 0, s2, 0, 0, priority) =~= acc
                            + transform_rec(
                            s1,
                            this_iter.cur_index(),
                            this_iter.cur_offset(),
                            s2,
                            other_iter.cur_index(),
                            other_iter.cur_offset(),
                            priority,
                        ));
                    }
                } else {
                    let attr = transform_attrs(
                        this_op.get_attributes(),
                        other_op.get_attributes(),
                        priority,
                    );
                    let ghost em = OpView {
                        kind: OpKindView::Retain(l as nat),
                        attrs: attr@,
                    };
                    let ghost pre = delta@;
                    proof {
                        crate::delta::lemma_push_normalized(pre, em);
                        crate::delta::lemma_pushed_push(acc, em);
                        if !(0 <= k1 < s1.len()) {
                            assert(attr@ =~= slice_op(s2[k2], o2, rem_of(s2, k2, o2)).attrs);
                        } else if !(0 <= k2 < s2.len()) {
                            assert(attr@ =~= Map::<Seq<char>, crate::attr_val::AttrValView>::empty());
                        }
                        assert(tail =~= seq![em] + transform_rec(
                            s1,
                            this_iter.cur_index(),
                            this_iter.cur_offset(),
                            s2,
                            other_iter.cur_index(),
                            other_iter.cur_offset(),
                            priority,
                        ));
                        acc = acc.push(em);
                    }
                    delta.retain_attr(l, attr);
                    proof {
                        assert(transform_rec(s1, 0, 0, s2, 0, 0, priority) =~= acc
                            + transform_rec(
                            s1,
                            this_iter.cur_index(),
                            this_iter.cur_offset(),
                            s2,
                            other_iter.cur_index(),
                            other_iter.cur_offset(),
                            priority,
                        ));
                    }
                }
            }
            proof {
                lemma_units_from(s1, this_iter.cur_index());
                lemma_units_from(s2, other_iter.cur_index());
                assert(cursor_units(s1, this_iter.cur_index(), this_iter.cur_offset()) >= 0);
                assert(cursor_units(s2, other_iter.cur_index(), other_iter.cur_offset()) >= 0);
            }
        }
        proof {
            assert(transform_rec(
                s1,
                this_iter.cur_index(),
                this_iter.cur_offset(),
                s2,
                other_iter.cur_index(),
                other_iter.cur_offset(),
                priority,
            ) =~= Seq::<OpView>::empty());
            assert(transform_rec(s1, 0, 0, s2, 0, 0, priority) =~= acc);
            crate::delta::lemma_chop_normalized(delta@);
        }
        delta.chop();
        proof {
            assert(delta@ =~= crate::delta::chop_spec(crate::delta::pushed(
                transform_rec(s1, 0, 0, s2, 0, 0, priority),
            )));
        }
        Ok(delta)
    }

    fn transform_position(&self, index: usize, priority: bool) -> (r: Result<usize, Error>) {
        let mut this_iter = DeltaIterator::new(&self.ops);
        let ghost s = this_iter.src();
        let mut pos = index;
        let mut offset: usize = 0;
        proof {
            lemma_units_from(s, 0);
        }
        while this_iter.has_next() && offset <= pos
            invariant
                this_iter.valid(),
                this_iter.src() == s,
                this_iter.cur_offset() == 0,
                tp_rec(s, 0, index as int, 0, priority) == tp_rec(
                    s,
                    this_iter.cur_index(),
                    pos as int,
                    offset as int,
                    priority,
                ),
                pos <= index + units_from(s, 0) - units_from(s, this_iter.cur_index()),
                offset <= index + units_from(s, 0) - units_from(s, this_iter.cur_index()),
                index + units_from(s, 0) <= usize::MAX,
                units_from(s, this_iter.cur_index()) >= 0,
            decreases s.len() - this_iter.cur_index(),
        {
            let ghost k = this_iter.cur_index();
            let ghost pos0 = pos as int;
            let ghost off0 = offset as int;
            let l = this_iter.peek_len();
            let next_type = this_iter.peek_type();
            let _ = this_iter.next_len(0);
            proof {
                lemma_units_from(s, k);
                lemma_units_from(s, k + 1);
                assert(this_iter.cur_index() == k + 1);
                assert(l == op_view_len(s[k]));
            }
            if next_type == OpType::Delete {
                let gap = pos - offset;
                let cut = if l < gap {
                    l
                } else {
                    gap
                };
                pos = pos - cut;
                proof {
                    assert(tp_rec(s, k, pos0, off0, priority) == tp_rec(
                        s,
                        k + 1,
                        pos as int,
                        off0,
                        priority,
                    ));
                }
            } else {
                if next_type == OpType::Insert && (offset < pos || !priority) {
                    proof {
                        assert(pos + l <= index + units_from(s, 0) - units_from(s, k + 1));
                    }
                    pos = pos + l;
                }
                proof {
                    assert(offset + l <= index + units_from(s, 0) - units_from(s, k + 1));
                }
                offset = offset + l;
                proof {
                    assert(tp_rec(s, k, pos0, off0, priority) == tp_rec(
                        s,
                        k + 1,
                        pos as int,
                        offset as int,
                        priority,
                    ));
                }
            }
        }
        Ok(pos)
    }
}

} // verus!
