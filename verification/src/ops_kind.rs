use crate::attr_val::AttrVal;
use vstd::prelude::*;

verus! {

/// What a single operation does: insert a value, keep a stretch of the
/// document, or delete one.
#[derive(Debug)]
pub enum OpKind {
    Insert(AttrVal),
    Retain(usize),
    Delete(usize),
}

/// Mathematical value of an operation kind: the view of [`OpKind`].
pub enum OpKindView {
    Insert(crate::attr_val::AttrValView),
    Retain(nat),
    Delete(nat),
}

/// The model of an operation kind.
pub open spec fn kind_view(k: OpKind) -> OpKindView {
    match k {
        OpKind::Insert(v) => OpKindView::Insert(v@),
        OpKind::Retain(n) => OpKindView::Retain(n as nat),
        OpKind::Delete(n) => OpKindView::Delete(n as nat),
    }
}

/// An operation kind is well formed when the value it may hold is.
pub open spec fn kind_wf(k: OpKind) -> bool {
    match k {
        OpKind::Insert(v) => crate::attr_val::attr_val_wf(v),
        _ => true,
    }
}

impl View for OpKind {
    type V = OpKindView;

    open spec fn view(&self) -> OpKindView {
        kind_view(*self)
    }
}

impl Clone for OpKind {
    /// A copy that means the same operation kind.
    fn clone(&self) -> (r: OpKind)
        ensures
            r@ == self@,
            kind_wf(*self) ==> kind_wf(r),
    {
        match self {
            OpKind::Insert(v) => OpKind::Insert(v.clone()),
            OpKind::Retain(n) => OpKind::Retain(*n),
            OpKind::Delete(n) => OpKind::Delete(*n),
        }
    }
}

} // verus!
