use crate::attr_val::{attr_val_wf, AttrMap, AttrVal, AttrValView};
use crate::attributes::Attributes;
use crate::error::Error;
use crate::ops_kind::{kind_view, kind_wf, OpKind, OpKindView};
use vstd::prelude::*;
use vstd::string::StrSliceExecFns;

verus! {

broadcast use crate::attr_val::lemma_attr_val_view;

/// Operation values have the same shape as attribute values, and an
/// embedded object is the same map shape as an attribute map.
pub type OpsVal = AttrVal;

pub type OpsMap = AttrMap;

/// The tag of an operation, without its payload.
#[derive(Clone, Copy, Debug, PartialEq, Eq, Structural)]
pub enum OpType {
    Delete,
    Retain,
    Insert,
}

/// Mathematical value of an operation: its kind and its attributes.
pub struct OpView {
    pub kind: OpKindView,
    pub attrs: Map<Seq<char>, AttrValView>,
}

/// How many units of document an operation covers: the character count
/// of an inserted string, one for an embedded value, and the stated
/// length of a retain or delete.
pub open spec fn op_view_len(o: OpView) -> nat {
    match o.kind {
        OpKindView::Insert(v) => match v {
            AttrValView::Str(s) => s.len(),
            _ => 1,
        },
        OpKindView::Retain(n) => n,
        OpKindView::Delete(n) => n,
    }
}

/// The tag of an operation view.
pub open spec fn op_view_type(o: OpView) -> OpType {
    match o.kind {
        OpKindView::Insert(_) => OpType::Insert,
        OpKindView::Retain(_) => OpType::Retain,
        OpKindView::Delete(_) => OpType::Delete,
    }
}

/// A single step of a delta: what it does, and the formatting it
/// carries.  Deletes carry no attributes in practice.
#[derive(Debug)]
pub struct DeltaOperation {
    pub(crate) kind: OpKind,
    pub(crate) attributes: Attributes,
}

/// The model of an operation.
pub(crate) open spec fn op_model(op: DeltaOperation) -> OpView {
    OpView { kind: kind_view(op.kind), attrs: op.attributes@ }
}

impl View for DeltaOperation {
    type V = OpView;

    closed spec fn view(&self) -> OpView {
        op_model(*self)
    }
}

/// The view of an operation is its kind's view beside its attribute
/// set's view.
pub(crate) broadcast proof fn lemma_op_view(op: DeltaOperation)
    ensures
        #[trigger] op@ == op_model(op),
{
}

/// An operation is well formed exactly when its attribute set is and,
/// for an insert, its value is.
pub(crate) broadcast proof fn lemma_op_wf(op: DeltaOperation)
    ensures
        #[trigger] op.wf() == (op.attributes.wf() && crate::ops_kind::kind_wf(op.kind)),
{
}

/// A well-formed operation covers at most `usize::MAX` units.
pub broadcast proof fn lemma_op_len_bounded(op: DeltaOperation)
    ensures
        #[trigger] op.wf() ==> op_view_len(op@) <= usize::MAX,
{
    crate::attr_val::lemma_attr_val_wf(match op.kind {
        OpKind::Insert(v) => v,
        _ => AttrVal::Null,
    });
}

impl DeltaOperation {
    /// The attribute set is well formed, and so is an inserted value.
    pub closed spec fn wf(self) -> bool {
        self.attributes.wf() && kind_wf(self.kind)
    }

    /// Builds an insert of `value` with no attributes.
    pub fn insert(value: AttrVal) -> (r: DeltaOperation)
        requires
            attr_val_wf(value),
        ensures
            r@.kind == OpKindView::Insert(value@),
            r@.attrs =~= Map::<Seq<char>, AttrValView>::empty(),
            r.wf(),
    {
        DeltaOperation { kind: OpKind::Insert(value), attributes: Attributes::new() }
    }

    /// Builds an insert of `value` carrying `attr`.
    pub fn insert_attr(value: AttrVal, attr: Attributes) -> (r: DeltaOperation)
        requires
            attr_val_wf(value),
            attr.wf(),
        ensures
            r@.kind == OpKindView::Insert(value@),
            r@.attrs == attr@,
            r.wf(),
    {
        DeltaOperation { kind: OpKind::Insert(value), attributes: attr }
    }

    /// Builds a retain of `value` units with no attributes.
    pub fn retain(value: usize) -> (r: DeltaOperation)
        ensures
            r@.kind == OpKindView::Retain(value as nat),
            r@.attrs =~= Map::<Seq<char>, AttrValView>::empty(),
            r.wf(),
    {
        DeltaOperation { kind: OpKind::Retain(value), attributes: Attributes::new() }
    }

    /// Builds a retain of `value` units carrying `attr`.
    pub fn retain_attr(value: usize, attr: Attributes) -> (r: DeltaOperation)
        requires
            attr.wf(),
        ensures
            r@.kind == OpKindView::Retain(value as nat),
            r@.attrs == attr@,
            r.wf(),
    {
        DeltaOperation { kind: OpKind::Retain(value), attributes: attr }
    }

    /// Builds a delete of `value` units.
    pub fn delete(value: usize) -> (r: DeltaOperation)
        ensures
            r@.kind == OpKindView::Delete(value as nat),
            r@.attrs =~= Map::<Seq<char>, AttrValView>::empty(),
            r.wf(),
    {
        DeltaOperation { kind: OpKind::Delete(value), attributes: Attributes::new() }
    }

    /// Binds one attribute key, replacing any earlier binding.
    pub fn add_attr(&mut self, key: &str, value: AttrVal)
        requires
            old(self).wf(),
            attr_val_wf(value),
        ensures
            final(self)@.kind == old(self)@.kind,
            final(self)@.attrs =~= old(self)@.attrs.insert(key@, value@),
            final(self).wf(),
    {
        self.attributes.insert(key, value);
    }

    /// Replaces the whole attribute set.
    pub fn set_attributes(&mut self, values: Attributes)
        requires
            old(self).wf(),
            values.wf(),
        ensures
            final(self)@.kind == old(self)@.kind,
            final(self)@.attrs == values@,
            final(self).wf(),
    {
        self.attributes = values;
    }

    /// How many units of document the operation covers.
    pub fn op_len(&self) -> (r: usize)
        ensures
            r == op_view_len(self@),
    {
        match &self.kind {
            OpKind::Delete(len) => *len,
            OpKind::Retain(len) => *len,
            OpKind::Insert(AttrVal::String(val)) => val.as_str().unicode_len(),
            OpKind::Insert(_) => 1,
        }
    }

    /// The tag of the operation.
    pub fn op_type(&self) -> (r: OpType)
        ensures
            r == op_view_type(self@),
    {
        match self.kind {
            OpKind::Insert(_) => OpType::Insert,
            OpKind::Delete(_) => OpType::Delete,
            OpKind::Retain(_) => OpType::Retain,
        }
    }

    /// The inserted value.  Only an insert operation has one.
    pub fn insert_value(&self) -> (r: &OpsVal)
        requires
            self@.kind is Insert,
        ensures
            self@.kind == OpKindView::Insert(r@),
            self.wf() ==> attr_val_wf(*r),
    {
        if let OpKind::Insert(val) = &self.kind {
            return val;
        }
        proof {
            assert(false);
        }
        vstd::pervasive::unreached()
    }

    /// Replaces the operation kind, keeping the attributes.
    pub fn set_op_kind(&mut self, s: OpKind)
        requires
            old(self).wf(),
            kind_wf(s),
        ensures
            final(self)@.kind == kind_view(s),
            final(self)@.attrs == old(self)@.attrs,
            final(self).wf(),
    {
        self.kind = s;
    }

    /// Removes the attribute bound to `key`, if any.
    pub fn remove_attribute(&mut self, key: &str)
        requires
            old(self).wf(),
        ensures
            final(self)@.kind == old(self)@.kind,
            final(self)@.attrs =~= old(self)@.attrs.remove(key@),
            final(self).wf(),
    {
        self.attributes.remove(key);
    }

    /// The inserted string, or `GetValueWrongType` when the operation is
    /// not a string insert.
    pub fn string_val(&self) -> (r: Result<&str, Error>)
        ensures
            match r {
                Ok(s) => self@.kind == OpKindView::Insert(AttrValView::Str(s@)),
                Err(e) => !(self@.kind matches OpKindView::Insert(AttrValView::Str(_))) && (
                e matches Error::GetValueWrongType { tpe } && tpe@ == "string"@),
            },
    {
        if let OpKind::Insert(AttrVal::String(val)) = &self.kind {
            return Ok(val.as_str());
        }
        Err(Error::GetValueWrongType { tpe: string_label() })
    }

    /// Whether an insert operation inserts a string.
    pub fn is_string(&self) -> (r: bool)
        requires
            self@.kind is Insert,
        ensures
            r == (self@.kind matches OpKindView::Insert(AttrValView::Str(_))),
    {
        matches!(&self.kind, OpKind::Insert(AttrVal::String(_)))
    }

    /// Whether an insert operation inserts an embedded value rather than
    /// a string.
    pub fn is_object(&self) -> (r: bool)
        requires
            self@.kind is Insert,
        ensures
            r == !(self@.kind matches OpKindView::Insert(AttrValView::Str(_))),
    {
        !matches!(&self.kind, OpKind::Insert(AttrVal::String(_)))
    }

    /// The attribute set of the operation.
    pub fn get_attributes(&self) -> (r: &Attributes)
        ensures
            r@ == self@.attrs,
            self.wf() ==> r.wf(),
    {
        &self.attributes
    }

    /// The kind of the operation.
    pub fn get_op_kind(&self) -> (r: &OpKind)
        ensures
            kind_view(*r) == self@.kind,
            self.wf() ==> kind_wf(*r),
    {
        &self.kind
    }

    /// Whether the attribute sets of two operations are equal.
    fn is_same_attributes(&self, other: &DeltaOperation) -> (r: bool)
        requires
            self.wf(),
            other.wf(),
        ensures
            r == (self@.attrs == other@.attrs),
    {
        self.attributes.is_equal(&other.attributes)
    }

    /// Whether two operations do the same thing, attributes aside: the
    /// same kind with the same payload.
    pub fn is_same_operation(&self, other: &DeltaOperation) -> (r: bool)
        requires
            self.wf(),
            other.wf(),
        ensures
            r == (self@.kind == other@.kind),
    {
        match (&self.kind, &other.kind) {
            (OpKind::Retain(a), OpKind::Retain(b)) => *a == *b,
            (OpKind::Delete(a), OpKind::Delete(b)) => *a == *b,
            (OpKind::Insert(a), OpKind::Insert(b)) => crate::attr_val::attr_val_eq(a, b),
            _ => false,
        }
    }

    /// Whether two operations are equal: same kind, same payload, same
    /// attributes.
    pub fn is_equal(&self, other: &DeltaOperation) -> (r: bool)
        requires
            self.wf(),
            other.wf(),
        ensures
            r == (self@ == other@),
    {
        let r = self.is_same_operation(other) && self.is_same_attributes(other);
        proof {
            if self@.kind == other@.kind && self@.attrs == other@.attrs {
                assert(self@ == other@);
            }
        }
        r
    }

    /// Whether the operation covers zero units.
    pub fn is_empty(&self) -> (r: bool)
        ensures
            r == (op_view_len(self@) == 0),
    {
        self.op_len() == 0
    }
}

impl Clone for DeltaOperation {
    /// A copy that means the same operation.
    fn clone(&self) -> (r: DeltaOperation)
        ensures
            r@ == self@,
            self.wf() ==> r.wf(),
    {
        let r = DeltaOperation { kind: self.kind.clone(), attributes: self.attributes.clone() };
        proof {
            assert(r@.attrs == self@.attrs);
            assert(r@ == self@);
        }
        r
    }
}

impl PartialEq for DeltaOperation {
    /// Equality of kind, payload and attributes.
    fn eq(&self, other: &DeltaOperation) -> (r: bool) {
        let same_op = match (&self.kind, &other.kind) {
            (OpKind::Retain(a), OpKind::Retain(b)) => *a == *b,
            (OpKind::Delete(a), OpKind::Delete(b)) => *a == *b,
            (OpKind::Insert(a), OpKind::Insert(b)) => crate::attr_val::attr_val_eq(a, b),
            _ => false,
        };
        same_op && self.attributes == other.attributes
    }
}

impl vstd::std_specs::cmp::PartialEqSpecImpl for DeltaOperation {
    open spec fn obeys_eq_spec() -> bool {
        false
    }

    open spec fn eq_spec(&self, other: &DeltaOperation) -> bool {
        self@ == other@
    }
}


/// Every operation in a sequence is well formed.
pub open spec fn ops_wf(s: Seq<DeltaOperation>) -> bool {
    forall|i: int| 0 <= i < s.len() ==> (#[trigger] s[i]).wf()
}

/// The views of a sequence of operations, element by element.
pub open spec fn ops_views(s: Seq<DeltaOperation>) -> Seq<OpView> {
    Seq::new(s.len(), |i: int| s[i]@)
}

/// How long the view sequence is and what it holds at each index.
pub broadcast proof fn lemma_ops_views(s: Seq<DeltaOperation>)
    ensures
        (#[trigger] ops_views(s)).len() == s.len(),
        forall|i: int| 0 <= i < s.len() ==> #[trigger] ops_views(s)[i] == s[i]@,
{
}

/// The word the wrong-type error carries when a string was asked for.
fn string_label() -> (r: String)
    ensures
        r@ == "string"@,
{
    <String as vstd::string::StringExecFns>::from_str("string")
}

} // verus!
