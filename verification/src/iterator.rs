use crate::attr_val::{AttrVal, AttrValView};
use crate::operations::{
    op_view_len, op_view_type, ops_views, ops_wf, DeltaOperation, OpType, OpView,
};
use crate::ops_kind::OpKindView;
use vstd::prelude::*;
use vstd::string::StrSliceExecFns;

verus! {

broadcast use {
    vstd::seq::group_seq_axioms,
    crate::attr_val::lemma_attr_val_view,
    crate::attr_val::lemma_attr_val_wf,
    crate::operations::lemma_ops_views,
    crate::operations::lemma_op_view,
    crate::operations::lemma_op_wf,
    crate::operations::lemma_op_len_bounded,
};

/// Every operation view covers at least one unit.
pub open spec fn views_positive(s: Seq<OpView>) -> bool {
    forall|i: int| 0 <= i < s.len() ==> op_view_len(#[trigger] s[i]) > 0
}

/// An offset-aware cursor over the content of a delta's operations.
/// `index` points at an operation, `offset` at a position inside it, so
/// the cursor can hand out arbitrary-length slices of the next
/// operation.
pub struct DeltaIterator<'a> {
    ops: &'a Vec<DeltaOperation>,
    index: usize,
    offset: usize,
}

/// The slice that `next_len` cuts from an operation: `act` units
/// starting `off` units in.  A retain or delete shrinks to the slice
/// length; a string insert yields the corresponding characters; an
/// embedded value, indivisible of length one, passes through whole.
pub open spec fn slice_op(op: OpView, off: int, act: int) -> OpView {
    match op.kind {
        OpKindView::Delete(_) => OpView {
            kind: OpKindView::Delete(act as nat),
            attrs: Map::empty(),
        },
        OpKindView::Retain(_) => OpView { kind: OpKindView::Retain(act as nat), attrs: op.attrs },
        OpKindView::Insert(v) => match v {
            AttrValView::Str(s) => OpView {
                kind: OpKindView::Insert(AttrValView::Str(s.subrange(off, off + act))),
                attrs: op.attrs,
            },
            _ => op,
        },
    }
}

/// What a valid cursor guarantees: in-range index, an offset inside
/// the current operation, and well-formed positive-length operations.
pub broadcast proof fn lemma_iter_valid<'a>(it: DeltaIterator<'a>)
    ensures
        #[trigger] it.valid() ==> {
            &&& 0 <= it.cur_index() <= it.src().len()
            &&& 0 <= it.cur_offset()
            &&& views_positive(it.src())
            &&& (it.cur_index() < it.src().len() ==> it.cur_offset() < op_view_len(
                it.src()[it.cur_index()],
            ))
            &&& (it.cur_index() >= it.src().len() ==> it.cur_offset() == 0)
            &&& (forall|q: int|
                0 <= q < it.src().len() ==> op_view_len(#[trigger] it.src()[q]) <= usize::MAX)
        },
{
    broadcast use crate::operations::lemma_ops_views;
    broadcast use crate::operations::lemma_op_len_bounded;

    if it.valid() {
        assert forall|q: int|
            0 <= q < it.src().len() implies op_view_len(#[trigger] it.src()[q]) <= usize::MAX by {
            assert(it.src()[q] == it.ops@[q]@);
            assert(it.ops@[q].wf());
        }
    }
}

/// A slice of `act` units out of an operation covers exactly `act`
/// units.
pub proof fn lemma_slice_op_len(op: OpView, off: int, act: int)
    requires
        0 <= off,
        0 < act,
        off + act <= op_view_len(op),
    ensures
        op_view_len(slice_op(op, off, act)) == act,
{
}

impl<'a> DeltaIterator<'a> {
    /// The operations the cursor walks, as views.
    pub closed spec fn src(self) -> Seq<OpView> {
        ops_views(self.ops@)
    }

    /// Which operation the cursor stands on.
    pub closed spec fn cur_index(self) -> int {
        self.index as int
    }

    /// How far into that operation the cursor stands.
    pub closed spec fn cur_offset(self) -> int {
        self.offset as int
    }

    /// The cursor points at an operation boundary or inside an
    /// operation, never past one, and the operations are well formed
    /// with positive lengths.
    pub closed spec fn valid(self) -> bool {
        &&& ops_wf(self.ops@)
        &&& views_positive(self.src())
        &&& self.index <= self.ops@.len()
        &&& (self.index < self.ops@.len() ==> (self.offset as int) < op_view_len(
            self.src()[self.index as int],
        ))
        &&& (self.index >= self.ops@.len() ==> self.offset == 0)
    }

    /// A cursor at the start of the given operations.
    pub fn new(ops: &'a Vec<DeltaOperation>) -> (r: DeltaIterator<'a>)
        requires
            ops_wf(ops@),
            views_positive(ops_views(ops@)),
        ensures
            r.src() == ops_views(ops@),
            r.cur_index() == 0,
            r.cur_offset() == 0,
            r.valid(),
    {
        DeltaIterator { ops, index: 0, offset: 0 }
    }

    /// Whether any content is left.
    pub fn has_next(&self) -> (r: bool)
        ensures
            r == (self.cur_index() < self.src().len()),
    {
        self.index < self.ops.len()
    }

    /// The operation the cursor stands on, untouched and unsliced.
    pub fn peek(&self) -> (r: Option<&DeltaOperation>)
        requires
            self.valid(),
        ensures
            match r {
                Some(op) => self.cur_index() < self.src().len() && op@ == self.src()[self.cur_index()]
                    && op.wf(),
                None => self.cur_index() >= self.src().len(),
            },
    {
        if self.ops.len() > self.index {
            return Some(&self.ops[self.index]);
        }
        None
    }

    /// The operation the cursor stands on, advancing to the next
    /// operation boundary.  The offset within the returned operation is
    /// left as it was.
    pub fn next(&mut self) -> (r: Option<&'a DeltaOperation>)
        requires
            old(self).valid(),
        ensures
            match r {
                Some(op) => old(self).cur_index() < old(self).src().len() && op@ == old(
                    self,
                ).src()[old(self).cur_index()] && op.wf() && final(self).cur_index() == old(
                    self,
                ).cur_index() + 1,
                None => old(self).cur_index() >= old(self).src().len() && final(self).cur_index()
                    == old(self).cur_index(),
            },
            final(self).src() == old(self).src(),
            final(self).cur_offset() == old(self).cur_offset(),
            old(self).cur_offset() == 0 ==> final(self).valid(),
    {
        if self.ops.len() > self.index {
            let ret = &self.ops[self.index];
            self.index = self.index + 1;
            Some(ret)
        } else {
            None
        }
    }

    /// How much of the current operation is left; the `usize::MAX`
    /// sentinel when the cursor is past the end.
    pub fn peek_len(&self) -> (r: usize)
        requires
            self.valid(),
        ensures
            self.cur_index() < self.src().len() ==> r == op_view_len(self.src()[self.cur_index()])
                - self.cur_offset() && r >= 1,
            self.cur_index() >= self.src().len() ==> r == usize::MAX,
    {
        if self.ops.len() > self.index {
            self.ops[self.index].op_len() - self.offset
        } else {
            usize::MAX
        }
    }

    /// The tag of the current operation; `Retain` past the end, so that
    /// a walk treats an exhausted side as an unbounded keep.
    pub fn peek_type(&self) -> (r: OpType)
        requires
            self.valid(),
        ensures
            self.cur_index() < self.src().len() ==> r == op_view_type(self.src()[self.cur_index()]),
            self.cur_index() >= self.src().len() ==> r == OpType::Retain,
    {
        if self.index < self.ops.len() {
            self.ops[self.index].op_type()
        } else {
            OpType::Retain
        }
    }

    /// The next `len` units as one operation, advancing the cursor.
    /// Zero asks for the whole remainder of the current operation.  The
    /// slice is clamped to the current operation; past the end the
    /// `usize::MAX`-retain sentinel comes back.
    pub fn next_len(&mut self, len: usize) -> (r: DeltaOperation)
        requires
            old(self).valid(),
        ensures
            final(self).valid(),
            final(self).src() == old(self).src(),
            r.wf(),
            op_view_len(r@) > 0,
            ({
                let s = old(self).src();
                let idx = old(self).cur_index();
                let off = old(self).cur_offset();
                let length = if len == 0 {
                    usize::MAX as int
                } else {
                    len as int
                };
                if idx < s.len() {
                    let remaining = op_view_len(s[idx]) - off;
                    if length >= remaining {
                        r@ == slice_op(s[idx], off, remaining) && op_view_len(r@) == remaining
                            && final(self).cur_index() == idx + 1 && final(self).cur_offset() == 0
                    } else {
                        r@ == slice_op(s[idx], off, length) && op_view_len(r@) == length
                            && final(self).cur_index() == idx && final(self).cur_offset() == off
                            + length
                    }
                } else {
                    r@.kind == OpKindView::Retain(usize::MAX as nat) && r@.attrs == Map::<
                        Seq<char>,
                        AttrValView,
                    >::empty() && final(self).cur_index() == idx && final(self).cur_offset() == 0
                }
            }),
    {
        proof {
            let s = self.src();
            let idx = self.cur_index();
            let off = self.cur_offset();
            if idx < s.len() {
                let length = if len == 0 {
                    usize::MAX as int
                } else {
                    len as int
                };
                let remaining = op_view_len(s[idx]) - off;
                if length >= remaining {
                    lemma_slice_op_len(s[idx], off, remaining);
                } else {
                    lemma_slice_op_len(s[idx], off, length);
                }
            }
        }
        let mut length = len;
        if length == 0 {
            length = usize::MAX;
        }
        if self.index < self.ops.len() {
            let offset = self.offset;
            let next_op = &self.ops[self.index];
            let op_length = next_op.op_len();
            let mut act_len = op_length - offset;
            if length >= act_len {
                self.index = self.index + 1;
                self.offset = 0;
            } else {
                act_len = length;
                self.offset = offset + act_len;
            }
            match next_op.op_type() {
                OpType::Delete => DeltaOperation::delete(act_len),
                OpType::Retain => {
                    let mut op = DeltaOperation::retain(act_len);
                    op.set_attributes(next_op.get_attributes().clone());
                    op
                },
                OpType::Insert => {
                    if next_op.is_string() {
                        let s = match next_op.string_val() {
                            Ok(s) => s,
                            Err(_) => "",
                        };
                        let sub = s.substring_char(offset, offset + act_len).to_owned();
                        let mut op = DeltaOperation::insert(AttrVal::String(sub));
                        op.set_attributes(next_op.get_attributes().clone());
                        op
                    } else {
                        next_op.clone()
                    }
                },
            }
        } else {
            DeltaOperation::retain(usize::MAX)
        }
    }

    /// Everything from the cursor to the end: the tail of the current
    /// operation as one slice, then the remaining operations whole.
    /// The cursor ends past the end.
    pub fn rest(&mut self) -> (r: Vec<DeltaOperation>)
        requires
            old(self).valid(),
        ensures
            final(self).valid(),
            final(self).src() == old(self).src(),
            ops_wf(r@),
            ({
                let s = old(self).src();
                let idx = old(self).cur_index();
                let off = old(self).cur_offset();
                if idx >= s.len() {
                    r@.len() == 0
                } else {
                    ops_views(r@) =~= seq![
                        slice_op(s[idx], off, op_view_len(s[idx]) - off),
                    ] + s.skip(idx + 1)
                }
            }),
    {
        let ghost s = self.src();
        let ghost idx0 = self.cur_index();
        let ghost off0 = self.cur_offset();
        let mut ret: Vec<DeltaOperation> = Vec::new();
        if !self.has_next() {
            return ret;
        }
        let first = self.next_len(0);
        ret.push(first);
        while self.index < self.ops.len()
            invariant
                self.valid(),
                self.src() == s,
                0 <= idx0 < s.len(),
                0 <= off0,
                self.cur_offset() == 0,
                idx0 < self.cur_index() <= s.len(),
                ops_wf(ret@),
                ops_views(ret@) =~= seq![
                    slice_op(s[idx0], off0, op_view_len(s[idx0]) - off0),
                ] + s.subrange(idx0 + 1, self.cur_index()),
            decreases self.ops@.len() - self.index,
        {
            let ghost pre = ret@;
            let op = self.ops[self.index].clone();
            ret.push(op);
            self.index = self.index + 1;
            proof {
                let t = seq![slice_op(s[idx0], off0, op_view_len(s[idx0]) - off0)] + s.subrange(
                    idx0 + 1,
                    self.cur_index(),
                );
                assert(ret@.len() == pre.len() + 1);
                assert(ops_views(pre).len() == pre.len());
                assert(ops_views(pre) =~= seq![
                    slice_op(s[idx0], off0, op_view_len(s[idx0]) - off0),
                ] + s.subrange(idx0 + 1, self.cur_index() - 1));
                assert(ops_views(ret@).len() == ret@.len());
                assert(ops_views(ret@).len() == t.len());
                assert forall|j: int| 0 <= j < t.len() implies ops_views(ret@)[j] == t[j] by {
                    if j < t.len() - 1 {
                        assert(ops_views(ret@)[j] == ops_views(pre)[j]);
                    } else {
                        assert(ops_views(ret@)[j] == s[self.cur_index() - 1]);
                    }
                }
                assert(ops_views(ret@) =~= t);
            }
        }
        proof {
            assert(s.subrange(idx0 + 1, s.len() as int) =~= s.skip(idx0 + 1));
        }
        ret
    }
}

} // verus!
