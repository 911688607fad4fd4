use crate::attr_val::{AttrVal, AttrValView};
use crate::attributes::Attributes;
use crate::operations::{op_view_len, ops_views, DeltaOperation, OpView};
use crate::ops_kind::{OpKind, OpKindView};
use vstd::prelude::*;
use vstd::string::StringExecFns;

verus! {

broadcast use {
    crate::attr_val::lemma_attr_val_view,
    crate::attr_val::lemma_attr_val_wf,
    crate::operations::lemma_ops_views,
    crate::operations::lemma_op_view,
    crate::operations::lemma_op_wf,
};

/// A delta: an ordered sequence of operations.  A delta of nothing but
/// inserts describes a document; one that also retains or deletes
/// describes a change to a document.
///
/// The builder methods keep the sequence normalised: no zero-length
/// operation enters it, neighbouring operations that can merge are
/// merged, and an insert is placed before an adjacent delete.
#[derive(Debug)]
pub struct Delta {
    pub(crate) ops: Vec<DeltaOperation>,
}

impl View for Delta {
    type V = Seq<OpView>;

    closed spec fn view(&self) -> Seq<OpView> {
        ops_views(self.ops@)
    }
}

/// The view of a delta is the sequence of its operations' views.
pub(crate) broadcast proof fn lemma_delta_view(d: Delta)
    ensures
        #[trigger] d@ == ops_views(d.ops@),
{
}

/// A delta is well formed exactly when each of its operations is.
pub(crate) broadcast proof fn lemma_delta_wf(d: Delta)
    ensures
        #[trigger] d.wf() == crate::operations::ops_wf(d.ops@),
{
}

/// Whether an operation view is an insert of a string.
pub open spec fn op_is_str_insert(o: OpView) -> bool {
    o.kind matches OpKindView::Insert(AttrValView::Str(_))
}

/// The characters of a string insert.
pub open spec fn str_of(o: OpView) -> Seq<char> {
    o.kind->Insert_0->Str_0
}

/// Whether the builder merges `b` into `a` when `b` is pushed right
/// after `a`: two deletes, two retains with equal attributes, or two
/// string inserts with equal attributes.  Merged lengths must fit the
/// machine word.
pub open spec fn mergeable(a: OpView, b: OpView) -> bool {
    ||| (a.kind is Delete && b.kind is Delete && op_view_len(a) + op_view_len(b) <= usize::MAX)
    ||| (a.kind is Retain && b.kind is Retain && a.attrs == b.attrs && op_view_len(a)
        + op_view_len(b) <= usize::MAX)
    ||| (op_is_str_insert(a) && op_is_str_insert(b) && a.attrs == b.attrs)
}

/// The one operation that stands for `a` directly followed by `b`,
/// when they are mergeable.
pub open spec fn merged(a: OpView, b: OpView) -> OpView {
    if a.kind is Delete {
        OpView {
            kind: OpKindView::Delete(op_view_len(a) + op_view_len(b)),
            attrs: Map::empty(),
        }
    } else if a.kind is Retain {
        OpView { kind: OpKindView::Retain(op_view_len(a) + op_view_len(b)), attrs: b.attrs }
    } else {
        OpView { kind: OpKindView::Insert(AttrValView::Str(str_of(a) + str_of(b))), attrs: b.attrs }
    }
}

/// What pushing one operation onto a delta yields: append, merge with
/// the last operation, or — when an insert lands on a delete — slide in
/// front of the delete, merging with the operation before it when the
/// two are string inserts with equal attributes.
pub open spec fn push_spec(s: Seq<OpView>, op: OpView) -> Seq<OpView> {
    if s.len() == 0 {
        seq![op]
    } else {
        let last = s.last();
        if op.kind is Insert && last.kind is Delete {
            if s.len() >= 2 && op_is_str_insert(s[s.len() - 2]) && op_is_str_insert(op) && s[s.len()
                - 2].attrs == op.attrs {
                s.take(s.len() - 2).push(merged(s[s.len() - 2], op)).push(last)
            } else {
                s.take(s.len() - 1).push(op).push(last)
            }
        } else if mergeable(last, op) {
            s.take(s.len() - 1).push(merged(last, op))
        } else {
            s.push(op)
        }
    }
}


/// The delta that pushing a whole list of operations, in order, onto an
/// empty delta builds.
pub open spec fn pushed(sc: Seq<OpView>) -> Seq<OpView>
    decreases sc.len(),
{
    if sc.len() == 0 {
        Seq::empty()
    } else {
        push_spec(pushed(sc.drop_last()), sc.last())
    }
}

/// Folding one more operation is one more push.
pub proof fn lemma_pushed_push(sc: Seq<OpView>, op: OpView)
    ensures
        pushed(sc.push(op)) == push_spec(pushed(sc), op),
{
    assert(sc.push(op).drop_last() =~= sc);
    assert(sc.push(op).last() == op);
}

/// A normalised sequence of operations: every operation covers at least
/// one unit, and no two neighbours could merge.
pub open spec fn normalized(s: Seq<OpView>) -> bool {
    &&& forall|i: int| 0 <= i < s.len() ==> op_view_len(#[trigger] s[i]) > 0
    &&& forall|i: int| 0 <= i < s.len() - 1 ==> !mergeable(#[trigger] s[i], s[i + 1])
}

/// Law: the builder normalises.  Pushing an operation that covers at
/// least one unit onto a normalised delta leaves it normalised, so in
/// any delta built this way no two adjacent operations are mergeable.
pub proof fn lemma_push_normalized(s: Seq<OpView>, op: OpView)
    requires
        normalized(s),
        op_view_len(op) > 0,
    ensures
        normalized(push_spec(s, op)),
{
    let r = push_spec(s, op);
    if s.len() == 0 {
    } else {
        let n = s.len() as int;
        let last = s.last();
        if op.kind is Insert && last.kind is Delete {
            if n >= 2 && op_is_str_insert(s[n - 2]) && op_is_str_insert(op) && s[n - 2].attrs
                == op.attrs {
                let m = merged(s[n - 2], op);
                assert(op_view_len(m) > 0);
                assert(r == s.take(n - 2).push(m).push(last));
                assert forall|i: int| 0 <= i < r.len() - 1 implies !mergeable(
                    #[trigger] r[i],
                    r[i + 1],
                ) by {
                    if i < n - 3 {
                        assert(r[i] == s[i] && r[i + 1] == s[i + 1]);
                    } else if i == n - 3 {
                        assert(r[i] == s[i] && r[i + 1] == m);
                        assert(!mergeable(s[n - 3], s[n - 2]));
                    } else if i == n - 2 {
                        assert(r[i] == m && r[i + 1] == last);
                    }
                }
            } else {
                assert(r == s.take(n - 1).push(op).push(last));
                assert forall|i: int| 0 <= i < r.len() - 1 implies !mergeable(
                    #[trigger] r[i],
                    r[i + 1],
                ) by {
                    if i < n - 2 {
                        assert(r[i] == s[i] && r[i + 1] == s[i + 1]);
                    } else if i == n - 2 {
                        assert(r[i] == s[i] && r[i + 1] == op);
                        if mergeable(s[n - 2], op) {
                            assert(op_is_str_insert(s[n - 2]) && op_is_str_insert(op) && s[n
                                - 2].attrs == op.attrs);
                        }
                    } else if i == n - 1 {
                        assert(r[i] == op && r[i + 1] == last);
                    }
                }
            }
        } else if mergeable(last, op) {
            let m = merged(last, op);
            assert(r == s.take(n - 1).push(m));
            assert(op_view_len(m) > 0);
            assert forall|i: int| 0 <= i < r.len() - 1 implies !mergeable(
                #[trigger] r[i],
                r[i + 1],
            ) by {
                if i < n - 2 {
                    assert(r[i] == s[i] && r[i + 1] == s[i + 1]);
                } else if i == n - 2 {
                    assert(r[i] == s[i] && r[i + 1] == m);
                    assert(!mergeable(s[n - 2], s[n - 1]));
                }
            }
        } else {
            assert(r == s.push(op));
            assert forall|i: int| 0 <= i < r.len() - 1 implies !mergeable(
                #[trigger] r[i],
                r[i + 1],
            ) by {
                if i < n - 1 {
                    assert(r[i] == s[i] && r[i + 1] == s[i + 1]);
                } else {
                    assert(r[i] == last && r[i + 1] == op);
                }
            }
        }
    }
}

/// A retain with no attributes: what `chop` trims from the tail.
pub open spec fn bare_retain(o: OpView) -> bool {
    o.kind is Retain && o.attrs == Map::<Seq<char>, AttrValView>::empty()
}

/// What chopping a delta yields: the same delta, without its last
/// operation when that is a retain with no attributes.
pub open spec fn chop_spec(s: Seq<OpView>) -> Seq<OpView> {
    if s.len() > 0 && bare_retain(s.last()) {
        s.drop_last()
    } else {
        s
    }
}

/// Law: chopping twice is chopping once.  It holds of every delta that
/// does not end in two bare retains side by side — which the builder
/// only ever produces when their merged length would overflow the
/// machine word.
pub proof fn lemma_chop_idempotent(s: Seq<OpView>)
    requires
        s.len() >= 2 ==> !(bare_retain(s[s.len() - 1]) && bare_retain(s[s.len() - 2])),
    ensures
        chop_spec(chop_spec(s)) == chop_spec(s),
{
    let c = chop_spec(s);
    if c != s {
        let n = s.len() as int;
        assert(c == s.drop_last());
        if c.len() > 0 {
            assert(c.last() == s[n - 2]);
        }
        assert(chop_spec(c) == c);
    }
}

/// Chopping keeps a delta normalised.
pub proof fn lemma_chop_normalized(s: Seq<OpView>)
    requires
        normalized(s),
    ensures
        normalized(chop_spec(s)),
{
    let c = chop_spec(s);
    if c != s {
        assert forall|i: int| 0 <= i < c.len() - 1 implies !mergeable(
            #[trigger] c[i],
            c[i + 1],
        ) by {
            assert(c[i] == s[i] && c[i + 1] == s[i + 1]);
        }
        assert forall|i: int| 0 <= i < c.len() implies op_view_len(#[trigger] c[i]) > 0 by {
            assert(c[i] == s[i]);
        }
    }
}

/// Joins two string inserts into one that carries the second's
/// attributes.
fn merge_str_inserts(a: DeltaOperation, b: DeltaOperation) -> (r: DeltaOperation)
    requires
        a.wf(),
        b.wf(),
        op_is_str_insert(a@),
        op_is_str_insert(b@),
    ensures
        r@.kind == OpKindView::Insert(AttrValView::Str(str_of(a@) + str_of(b@))),
        r@.attrs == b@.attrs,
        r.wf(),
{
    let a_str: &str = match &a.kind {
        OpKind::Insert(AttrVal::String(s)) => s.as_str(),
        _ => "",
    };
    let b_str: &str = match &b.kind {
        OpKind::Insert(AttrVal::String(s)) => s.as_str(),
        _ => "",
    };
    let mut joined = a_str.to_owned();
    joined.append(b_str);
    // Counting the characters is what shows the merged string still
    // fits the machine word, which well-formedness asks of every
    // stored string.
    let char_count = joined.as_str().unicode_len();
    proof {
        assert(joined@.len() == char_count as nat);
    }
    DeltaOperation::insert_attr(AttrVal::String(joined), b.attributes)
}

impl Delta {
    /// Every operation held is well formed.
    pub closed spec fn wf(self) -> bool {
        crate::operations::ops_wf(self.ops@)
    }

    /// A delta over the given operations, exactly as they stand.
    pub fn new(ops: Vec<DeltaOperation>) -> (r: Delta)
        ensures
            r@ == ops_views(ops@),
            crate::operations::ops_wf(ops@) ==> r.wf(),
    {
        Delta { ops }
    }

    /// How many operations the delta holds.
    pub fn len(&self) -> (r: usize)
        ensures
            r == self@.len(),
    {
        self.ops.len()
    }

    /// Whether the delta holds no operation.
    pub fn is_empty(&self) -> (r: bool)
        ensures
            r == (self@.len() == 0),
    {
        self.ops.len() == 0
    }

    /// The first operation, if any.
    pub fn first(&self) -> (r: Option<&DeltaOperation>)
        ensures
            match r {
                Some(op) => self@.len() > 0 && op@ == self@[0] && (self.wf() ==> op.wf()),
                None => self@.len() == 0,
            },
    {
        if self.ops.len() > 0 {
            Some(&self.ops[0])
        } else {
            None
        }
    }

    /// The last operation, if any.
    pub fn last(&self) -> (r: Option<&DeltaOperation>)
        ensures
            match r {
                Some(op) => self@.len() > 0 && op@ == self@.last() && (self.wf() ==> op.wf()),
                None => self@.len() == 0,
            },
    {
        if self.ops.len() > 0 {
            Some(&self.ops[self.ops.len() - 1])
        } else {
            None
        }
    }

    /// The operation at an index.
    pub fn get(&self, i: usize) -> (r: &DeltaOperation)
        requires
            i < self@.len(),
        ensures
            r@ == self@[i as int],
            self.wf() ==> r.wf(),
    {
        &self.ops[i]
    }

    /// Drops a trailing bare retain: the last operation, when it is a
    /// retain with no attributes.
    pub fn chop(&mut self)
        requires
            old(self).wf(),
        ensures
            final(self)@ =~= chop_spec(old(self)@),
            final(self).wf(),
    {
        let n = self.ops.len();
        if n > 0 {
            let is_bare_retain = matches!(self.ops[n - 1].kind, OpKind::Retain(_))
                && self.ops[n - 1].attributes.is_empty();
            if is_bare_retain {
                let _ = self.ops.pop();
            }
        }
    }

    /// Pushes a value insert without attributes; an empty value is
    /// dropped.
    pub fn insert(&mut self, value: AttrVal)
        requires
            old(self).wf(),
            crate::attr_val::attr_val_wf(value),
        ensures
            final(self)@ =~= (if op_view_len(
                OpView { kind: OpKindView::Insert(value@), attrs: Map::empty() },
            ) == 0 {
                old(self)@
            } else {
                push_spec(
                    old(self)@,
                    OpView { kind: OpKindView::Insert(value@), attrs: Map::empty() },
                )
            }),
            final(self).wf(),
    {
        let op = DeltaOperation::insert(value);
        if op.op_len() == 0 {
            return ;
        }
        self.push(op);
    }

    /// Pushes a value insert carrying attributes; an empty value is
    /// dropped.
    pub fn insert_attr(&mut self, value: AttrVal, attributes: Attributes)
        requires
            old(self).wf(),
            crate::attr_val::attr_val_wf(value),
            attributes.wf(),
        ensures
            final(self)@ =~= (if op_view_len(
                OpView { kind: OpKindView::Insert(value@), attrs: attributes@ },
            ) == 0 {
                old(self)@
            } else {
                push_spec(
                    old(self)@,
                    OpView { kind: OpKindView::Insert(value@), attrs: attributes@ },
                )
            }),
            final(self).wf(),
    {
        let mut op = DeltaOperation::insert(value);
        if op.op_len() == 0 {
            return ;
        }
        op.set_attributes(attributes);
        self.push(op);
    }

    /// Pushes a retain without attributes; a zero length is dropped.
    pub fn retain(&mut self, length: usize)
        requires
            old(self).wf(),
        ensures
            final(self)@ =~= (if length == 0 {
                old(self)@
            } else {
                push_spec(
                    old(self)@,
                    OpView { kind: OpKindView::Retain(length as nat), attrs: Map::empty() },
                )
            }),
            final(self).wf(),
    {
        if length == 0 {
            return ;
        }
        self.push(DeltaOperation::retain(length));
    }

    /// Pushes a retain carrying attributes; a zero length is dropped.
    pub fn retain_attr(&mut self, length: usize, attributes: Attributes)
        requires
            old(self).wf(),
            attributes.wf(),
        ensures
            final(self)@ =~= (if length == 0 {
                old(self)@
            } else {
                push_spec(
                    old(self)@,
                    OpView { kind: OpKindView::Retain(length as nat), attrs: attributes@ },
                )
            }),
            final(self).wf(),
    {
        if length == 0 {
            return ;
        }
        let mut op = DeltaOperation::retain(length);
        op.set_attributes(attributes);
        self.push(op);
    }

    /// Pushes a delete; a zero length is dropped.
    pub fn delete(&mut self, length: usize)
        requires
            old(self).wf(),
        ensures
            final(self)@ =~= (if length == 0 {
                old(self)@
            } else {
                push_spec(
                    old(self)@,
                    OpView { kind: OpKindView::Delete(length as nat), attrs: Map::empty() },
                )
            }),
            final(self).wf(),
    {
        if length == 0 {
            return ;
        }
        self.push(DeltaOperation::delete(length));
    }

    /// Appends one operation, merging it into the tail where the
    /// normalisation rules allow, and sliding an insert in front of a
    /// trailing delete.
    pub fn push(&mut self, new_op: DeltaOperation)
        requires
            old(self).wf(),
            new_op.wf(),
        ensures
            final(self)@ =~= push_spec(old(self)@, new_op@),
            final(self).wf(),
    {
        let ghost s0 = self@;
        let n = self.ops.len();
        if n == 0 {
            self.ops.push(new_op);
            proof {
                assert(self@ =~= push_spec(s0, new_op@));
            }
            return ;
        }
        let new_is_insert = matches!(new_op.kind, OpKind::Insert(_));
        let last_is_delete = matches!(self.ops[n - 1].kind, OpKind::Delete(_));
        if new_is_insert && last_is_delete {
            let mut merge_prev = false;
            if n >= 2 {
                let prev = &self.ops[n - 2];
                let prev_str = matches!(&prev.kind, OpKind::Insert(AttrVal::String(_)));
                let new_str = matches!(&new_op.kind, OpKind::Insert(AttrVal::String(_)));
                if prev_str && new_str && prev.attributes.is_equal(&new_op.attributes) {
                    merge_prev = true;
                }
            }
            let last = self.ops.pop().unwrap();
            if merge_prev {
                let prev = self.ops.pop().unwrap();
                let joined = merge_str_inserts(prev, new_op);
                self.ops.push(joined);
                self.ops.push(last);
                proof {
                    assert(self@ =~= push_spec(s0, new_op@));
                }
            } else {
                self.ops.push(new_op);
                self.ops.push(last);
                proof {
                    assert(self@ =~= push_spec(s0, new_op@));
                }
            }
            return ;
        }
        let last = &self.ops[n - 1];
        let last_len = last.op_len();
        let new_len = new_op.op_len();
        let lengths_fit = last_len <= usize::MAX - new_len;
        let del_merge = matches!(last.kind, OpKind::Delete(_)) && matches!(
            new_op.kind,
            OpKind::Delete(_),
        ) && lengths_fit;
        let ret_merge = matches!(last.kind, OpKind::Retain(_)) && matches!(
            new_op.kind,
            OpKind::Retain(_),
        ) && lengths_fit && last.attributes.is_equal(&new_op.attributes);
        let str_merge = matches!(&last.kind, OpKind::Insert(AttrVal::String(_))) && matches!(
            &new_op.kind,
            OpKind::Insert(AttrVal::String(_)),
        ) && last.attributes.is_equal(&new_op.attributes);
        if del_merge {
            let _ = self.ops.pop();
            self.ops.push(DeltaOperation::delete(last_len + new_len));
            proof {
                assert(self@ =~= push_spec(s0, new_op@));
            }
        } else if ret_merge {
            let _ = self.ops.pop();
            let mut op = DeltaOperation::retain(last_len + new_len);
            op.set_attributes(new_op.attributes);
            self.ops.push(op);
            proof {
                assert(self@ =~= push_spec(s0, new_op@));
            }
        } else if str_merge {
            let prev = self.ops.pop().unwrap();
            let joined = merge_str_inserts(prev, new_op);
            self.ops.push(joined);
            proof {
                assert(self@ =~= push_spec(s0, new_op@));
            }
        } else {
            self.ops.push(new_op);
            proof {
                assert(self@ =~= push_spec(s0, new_op@));
            }
        }
    }

    /// Appends a whole delta: its first operation through the merge
    /// rules, the rest verbatim (they cannot merge further when `delta`
    /// itself is normalised).
    pub fn append(&mut self, delta: Delta)
        requires
            old(self).wf(),
            delta.wf(),
            delta@.len() > 0,
        ensures
            final(self)@ =~= push_spec(old(self)@, delta@[0]) + delta@.skip(1),
            final(self).wf(),
    {
        let ghost dops = delta.ops@;
        let mut rest = delta.ops;
        let first = rest.remove(0);
        proof {
            assert(rest@ =~= dops.skip(1));
        }
        self.push(first);
        let ghost mid = self@;
        let mut i: usize = 0;
        let m = rest.len();
        while i < m
            invariant
                m == rest@.len(),
                i <= m,
                self.wf(),
                crate::operations::ops_wf(rest@),
                rest@ =~= dops.skip(1),
                self@ =~= mid + ops_views(rest@).take(i as int),
            decreases m - i,
        {
            let op = rest[i].clone();
            let ghost pre = self@;
            self.ops.push(op);
            i += 1;
            proof {
                let t = mid + ops_views(rest@).take(i as int);
                assert(self@.len() == t.len());
                assert forall|j: int| 0 <= j < t.len() implies self@[j] == t[j] by {
                    if j < t.len() - 1 {
                        assert(self@[j] == pre[j]);
                        assert(pre[j] == (mid + ops_views(rest@).take(i - 1))[j]);
                        if j >= mid.len() {
                            assert((mid + ops_views(rest@).take(i - 1))[j] == ops_views(
                                rest@,
                            )[j - mid.len()]);
                            assert(t[j] == ops_views(rest@)[j - mid.len()]);
                        }
                    } else {
                        assert(self@[j] == rest@[i - 1]@);
                        assert(t[j] == ops_views(rest@)[i - 1]);
                    }
                }
                assert(self@ =~= t);
            }
        }
        proof {
            assert(ops_views(rest@).take(m as int) =~= delta@.skip(1));
            assert(self@ =~= push_spec(old(self)@, delta@[0]) + delta@.skip(1));
        }
    }

    /// The operations of the delta, surrendered.
    pub fn get_ops(self) -> (r: Vec<DeltaOperation>)
        ensures
            ops_views(r@) == self@,
            self.wf() ==> crate::operations::ops_wf(r@),
    {
        self.ops
    }

    /// The operations of the delta, borrowed.
    pub fn get_ops_ref(&self) -> (r: &Vec<DeltaOperation>)
        ensures
            ops_views(r@) == self@,
            self.wf() ==> crate::operations::ops_wf(r@),
    {
        &self.ops
    }
}

impl Default for Delta {
    /// The empty delta.
    fn default() -> (r: Delta)
        ensures
            r@ =~= Seq::<OpView>::empty(),
            r.wf(),
    {
        Delta { ops: Vec::new() }
    }
}

impl Clone for Delta {
    /// A copy that means the same delta.
    fn clone(&self) -> (r: Delta)
        ensures
            r@ == self@,
            self.wf() ==> r.wf(),
    {
        let n = self.ops.len();
        let mut ops: Vec<DeltaOperation> = Vec::new();
        let mut i: usize = 0;
        while i < n
            invariant
                n == self.ops@.len(),
                i <= n,
                ops@.len() == i,
                forall|j: int|
                    0 <= j < i ==> (#[trigger] ops@[j])@ == self.ops@[j]@ && (self.ops@[j].wf()
                        ==> ops@[j].wf()),
            decreases n - i,
        {
            let op = self.ops[i].clone();
            ops.push(op);
            i += 1;
        }
        let r = Delta { ops };
        proof {
            assert(r@ =~= self@);
        }
        r
    }
}

impl PartialEq for Delta {
    /// Equality operation by operation.
    fn eq(&self, other: &Delta) -> (r: bool) {
        let n = self.ops.len();
        if n != other.ops.len() {
            return false;
        }
        let mut i: usize = 0;
        while i < n
            invariant
                n == self.ops@.len(),
                n == other.ops@.len(),
                i <= n,
            decreases n - i,
        {
            if !(self.ops[i].eq(&other.ops[i])) {
                return false;
            }
            i += 1;
        }
        true
    }
}

impl vstd::std_specs::cmp::PartialEqSpecImpl for Delta {
    open spec fn obeys_eq_spec() -> bool {
        false
    }

    open spec fn eq_spec(&self, other: &Delta) -> bool {
        self@ == other@
    }
}

} // verus!
