use crate::attributes::{diff as diff_attrs, invert as invert_attrs, Attributes};
use crate::delta::{normalized, Delta};
use crate::error::Error;
use crate::iterator::{slice_op, views_positive, DeltaIterator};
use crate::operations::{op_view_len, DeltaOperation, OpType, OpView};
use crate::ops_kind::OpKindView;
use crate::optransform::{cursor_units, lemma_units_from, units_from};
use crate::utils::DeltaTransformations;
use vstd::prelude::*;
use vstd::string::{StrSliceExecFns, StringExecFns};

verus! {

broadcast use {
    crate::attr_val::lemma_attr_val_view,
    crate::attr_val::lemma_attr_val_wf,
    crate::operations::lemma_ops_views,
    crate::operations::lemma_op_view,
    crate::operations::lemma_op_wf,
    crate::operations::lemma_op_len_bounded,
    crate::delta::lemma_delta_view,
    crate::delta::lemma_delta_wf,
    crate::iterator::lemma_iter_valid,
};

/// A document: every operation is an insert.
pub open spec fn is_document(s: Seq<OpView>) -> bool {
    forall|i: int| 0 <= i < s.len() ==> (#[trigger] s[i]).kind is Insert
}

/// The placeholder that stands for an embedded value in the character
/// stream the diff engine walks.
pub open spec fn placeholder() -> char {
    '\u{0}'
}

/// The characters an operation contributes to the diff stream: an
/// inserted string contributes itself, an embedded value one
/// placeholder, anything else nothing.
pub open spec fn op_chars(o: OpView) -> Seq<char> {
    match o.kind {
        OpKindView::Insert(v) => match v {
            crate::attr_val::AttrValView::Str(t) => t,
            _ => seq![placeholder()],
        },
        _ => Seq::empty(),
    }
}

/// The character stream of a document: its operations' characters in
/// order.
pub open spec fn doc_chars(s: Seq<OpView>) -> Seq<char>
    decreases s.len(),
{
    if s.len() == 0 {
        Seq::empty()
    } else {
        doc_chars(s.drop_last()) + op_chars(s.last())
    }
}

/// The running content length of a delta from operation `k` on, starting
/// from `acc`: inserts add their length, deletes subtract theirs,
/// retains change nothing.
pub open spec fn doc_len_rec(s: Seq<OpView>, k: int, acc: int) -> int
    decreases s.len() - k,
{
    if k < 0 || k >= s.len() {
        acc
    } else {
        let step = match s[k].kind {
            OpKindView::Insert(_) => acc + op_view_len(s[k]),
            OpKindView::Delete(_) => acc - op_view_len(s[k]),
            OpKindView::Retain(_) => acc,
        };
        doc_len_rec(s, k + 1, step)
    }
}

/// Whether the running content length stays inside the machine word the
/// whole way; where it would not, the length is not defined.
pub open spec fn doc_len_ok(s: Seq<OpView>, k: int, acc: int) -> bool
    decreases s.len() - k,
{
    if k < 0 || k >= s.len() {
        true
    } else {
        let step = match s[k].kind {
            OpKindView::Insert(_) => acc + op_view_len(s[k]),
            OpKindView::Delete(_) => acc - op_view_len(s[k]),
            OpKindView::Retain(_) => acc,
        };
        0 <= step <= usize::MAX && doc_len_ok(s, k + 1, step)
    }
}

/// Retains that undo an attribute change over a sliced stretch of the
/// base: one per base operation, of that operation's length, carrying
/// the inversion of `a` against the base operation's attributes.
pub open spec fn restore_retains(sl: Seq<OpView>, a: Map<Seq<char>, crate::attr_val::AttrValView>) -> Seq<
    OpView,
> {
    Seq::new(
        sl.len(),
        |i: int|
            OpView {
                kind: OpKindView::Retain(op_view_len(sl[i]) as nat),
                attrs: crate::attributes::invert_model(a, sl[i].attrs),
            },
    )
}

/// The operations that inverting a change against a base document
/// emits, one source operation at a time: an insert turns into a delete
/// of its length, a bare retain passes, a delete re-emits the stretch of
/// the base it removed, and an attributed retain restores the base's
/// attributes over that stretch.
pub open spec fn invert_emit(s: Seq<OpView>, base: Seq<OpView>, k: int, bi: int) -> Seq<OpView>
    decreases s.len() - k,
{
    if !(0 <= k < s.len()) {
        Seq::empty()
    } else {
        let op = s[k];
        let len = op_view_len(op) as int;
        if op.kind is Insert {
            seq![
                OpView { kind: OpKindView::Delete(len as nat), attrs: Map::empty() },
            ] + invert_emit(s, base, k + 1, bi)
        } else if op.kind is Retain && op.attrs == Map::<
            Seq<char>,
            crate::attr_val::AttrValView,
        >::empty() {
            seq![
                OpView { kind: OpKindView::Retain(len as nat), attrs: Map::empty() },
            ] + invert_emit(s, base, k + 1, bi + len)
        } else {
            let sl = crate::delta::pushed(crate::utils::slice_rec(base, 0, 0, 0, bi, bi + len));
            (if op.kind is Delete {
                sl
            } else {
                restore_retains(sl, op.attrs)
            }) + invert_emit(s, base, k + 1, bi + len)
        }
    }
}

/// Document-only operations of a delta: these walk the content itself,
/// so every operation must be an insert where the contract says so.
pub trait Document {
    /// The operations of the value, as views.
    spec fn content(&self) -> Seq<OpView>;

    /// The value's operations are well formed.
    spec fn well_formed(&self) -> bool;

    /// Appends a whole delta behind this one, merging at the joint.
    fn concat(&mut self, other: Delta)
        requires
            old(self).well_formed(),
            other.wf(),
        ensures
            final(self).well_formed(),
            final(self).content() == (if other@.len() == 0 {
                old(self).content()
            } else {
                crate::delta::push_spec(old(self).content(), other@[0]) + other@.skip(1)
            }),
    ;

    /// The difference between two documents, as a change that carries
    /// `self` to `other`; `NotADocument` when either side holds a
    /// retain or delete.  The cursor hint is accepted and ignored.
    fn diff(&self, other: &Delta, cursor: usize) -> (r: Result<Delta, Error>)
        requires
            self.well_formed(),
            other.wf(),
            views_positive(self.content()),
            views_positive(other@),
            units_from(self.content(), 0) + units_from(other@, 0) <= crate::myers::size_cap(),
        ensures
            r is Ok <==> (is_document(self.content()) && is_document(other@)),
            match r {
                Ok(d) => d.wf() && normalized(d@) && (exists|log: Seq<crate::myers::EditRec>|
                    crate::myers::script_consumes(
                        log,
                        units_from(self.content(), 0),
                        units_from(other@, 0),
                    ) && d@ =~= crate::delta::chop_spec(
                        crate::delta::pushed(replay_script(log, self.content(), other@)),
                    )),
                Err(e) => e is NotADocument,
            },
    ;

    /// Walks the document line by line: the predicate sees each line's
    /// delta, the attributes of the newline that closes it, and the
    /// line number, until it answers false or the content ends.  On a
    /// delta that is not a document, returns without walking anything
    /// further.
    fn each_line<F: Fn(&Delta, &Attributes, usize) -> bool>(
        &self,
        predicate: F,
        new_line_char: Option<char>,
    ) -> (r: Result<(), Error>)
        requires
            self.well_formed(),
            views_positive(self.content()),
            units_from(self.content(), 0) <= usize::MAX,
            forall|line: &Delta, attrs: &Attributes, idx: usize|
                #[trigger] call_requires(predicate, (line, attrs, idx)),
        ensures
            r is Ok,
    ;

    /// The change that undoes this one against the document `base`:
    /// inserts turn into deletes, deletes restore the deleted stretch of
    /// `base`, and attributed retains restore the attributes `base` had.
    fn invert(&self, base: &Delta) -> (r: Delta)
        requires
            self.well_formed(),
            base.wf(),
            views_positive(self.content()),
            views_positive(base@),
            units_from(self.content(), 0) <= usize::MAX,
            units_from(base@, 0) <= usize::MAX,
        ensures
            r.wf(),
            normalized(r@),
            r@ =~= crate::delta::chop_spec(
                crate::delta::pushed(invert_emit(self.content(), base@, 0, 0)),
            ),
    ;

    /// The content length of the delta: inserted units less deleted
    /// units.
    fn document_length(&self) -> (r: usize)
        requires
            self.well_formed(),
            doc_len_ok(self.content(), 0, 0),
        ensures
            r == doc_len_rec(self.content(), 0, 0),
    ;
}

/// The concatenation of every insert's text, an embedded value standing
/// as one placeholder character; `NotADocument` at the first retain or
/// delete.
pub fn to_diff_string(delta: &Delta) -> (r: Result<String, Error>)
    requires
        delta.wf(),
    ensures
        r is Ok <==> is_document(delta@),
        match r {
            Ok(s) => s@ == doc_chars(delta@),
            Err(e) => e is NotADocument,
        },
{
    let ghost s = delta@;
    let n = delta.len();
    let mut res = String::new();
    let mut i: usize = 0;
    while i < n
        invariant
            n == delta@.len(),
            s == delta@,
            delta.wf(),
            i <= n,
            res@ == doc_chars(s.take(i as int)),
            forall|j: int| 0 <= j < i ==> (#[trigger] s[j]).kind is Insert,
        decreases n - i,
    {
        let op = delta.get(i);
        match op.op_type() {
            OpType::Insert => {
                if op.is_string() {
                    let val = match op.string_val() {
                        Ok(v) => v,
                        Err(_) => "",
                    };
                    res.append(val);
                } else {
                    res.append("\u{0}");
                    proof {
                        reveal_strlit("\u{0}");
                        assert(("\u{0}")@ =~= seq![placeholder()]);
                    }
                }
                proof {
                    assert(s.take(i + 1).drop_last() =~= s.take(i as int));
                    assert(s.take(i + 1).last() == s[i as int]);
                    assert(res@ == doc_chars(s.take(i + 1)));
                }
            },
            _ => {
                proof {
                    assert(!(s[i as int].kind is Insert));
                }
                return Err(Error::NotADocument);
            },
        }
        i += 1;
    }
    proof {
        assert(s.take(n as int) =~= s);
    }
    Ok(res)
}

/// The characters of a string, one by one.
fn chars_vec(s: &str) -> (r: Vec<char>)
    ensures
        r@ == s@,
{
    let n = s.unicode_len();
    let mut out: Vec<char> = Vec::new();
    let mut i: usize = 0;
    while i < n
        invariant
            n == s@.len(),
            i <= n,
            out@ =~= s@.take(i as int),
        decreases n - i,
    {
        let c = s.get_char(i);
        out.push(c);
        i += 1;
        proof {
            assert(out@ =~= s@.take(i as int));
        }
    }
    proof {
        assert(s@.take(n as int) =~= s@);
    }
    out
}

/// The first position at or after `from` where the character stands, if
/// any.
fn find_char(s: &str, from: usize, c: char) -> (r: Option<usize>)
    requires
        from <= s@.len(),
    ensures
        match r {
            Some(j) => from <= j < s@.len() && s@[j as int] == c && (forall|t: int|
                from <= t < j ==> s@[t] != c),
            None => forall|t: int| from <= t < s@.len() ==> s@[t] != c,
        },
{
    let n = s.unicode_len();
    let mut i = from;
    while i < n
        invariant
            n == s@.len(),
            from <= i <= n,
            forall|t: int| from <= t < i ==> s@[t] != c,
        decreases n - i,
    {
        if s.get_char(i) == c {
            return Some(i);
        }
        i += 1;
    }
    None
}

/// One chunk-walking step of replaying an edit script against the two
/// documents' cursors, mirroring how the script is consumed: each
/// record is eaten in chunks no longer than the current operation on
/// either side.  An equal chunk over two inserts of the same value
/// becomes a retain carrying their attribute difference; any other
/// equal chunk re-inserts the new side's slice and deletes the old; a
/// dropped chunk becomes a delete; an added chunk re-inserts the new
/// side's slice.  An exhausted cursor stands as the unbounded-retain
/// sentinel.
pub open spec fn replay_rec(
    log: Seq<crate::myers::EditRec>,
    li: int,
    lrem: int,
    s1: Seq<OpView>,
    k1: int,
    o1: int,
    s2: Seq<OpView>,
    k2: int,
    o2: int,
) -> Seq<OpView>
    decreases
            log.len() - li,
            lrem,
            crate::optransform::ops_left(s1, k1) + crate::optransform::ops_left(s2, k2),
{
    let active1 = 0 <= k1 < s1.len();
    let active2 = 0 <= k2 < s2.len();
    let r1 = crate::optransform::rem_of(s1, k1, o1);
    let r2 = crate::optransform::rem_of(s2, k2, o2);
    if lrem <= 0 {
        if !(0 <= li + 1 < log.len()) {
            Seq::empty()
        } else {
            let next = match log[li + 1] {
                crate::myers::EditRec::Equal(l) => l as int,
                crate::myers::EditRec::Drop(l) => l as int,
                crate::myers::EditRec::Add(l) => l as int,
            };
            replay_rec(log, li + 1, next, s1, k1, o1, s2, k2, o2)
        }
    } else if !(0 <= li < log.len()) {
        Seq::empty()
    } else if active1 && r1 <= 0 {
        replay_rec(log, li, lrem, s1, k1 + 1, 0, s2, k2, o2)
    } else if active2 && r2 <= 0 {
        replay_rec(log, li, lrem, s1, k1, o1, s2, k2 + 1, 0)
    } else {
        let sentinel = OpView {
            kind: OpKindView::Retain(usize::MAX as nat),
            attrs: Map::empty(),
        };
        match log[li] {
            crate::myers::EditRec::Equal(_) => {
                let cap1 = if active1 && r1 < lrem {
                    r1
                } else {
                    lrem
                };
                let chunk = if active2 && r2 < cap1 {
                    r2
                } else {
                    cap1
                };
                let t1 = if active1 {
                    slice_op(s1[k1], o1, chunk)
                } else {
                    sentinel
                };
                let t2 = if active2 {
                    slice_op(s2[k2], o2, chunk)
                } else {
                    sentinel
                };
                let em = if t1.kind is Insert && t2.kind is Insert && t1.kind == t2.kind {
                    seq![
                        OpView {
                            kind: OpKindView::Retain(chunk as nat),
                            attrs: crate::attributes::diff_model(t1.attrs, t2.attrs),
                        },
                    ]
                } else {
                    seq![
                        t2,
                        OpView { kind: OpKindView::Delete(chunk as nat), attrs: Map::empty() },
                    ]
                };
                let k1n = if active1 && chunk == r1 {
                    k1 + 1
                } else {
                    k1
                };
                let o1n = if !active1 {
                    o1
                } else if chunk == r1 {
                    0
                } else {
                    o1 + chunk
                };
                let k2n = if active2 && chunk == r2 {
                    k2 + 1
                } else {
                    k2
                };
                let o2n = if !active2 {
                    o2
                } else if chunk == r2 {
                    0
                } else {
                    o2 + chunk
                };
                em + replay_rec(log, li, lrem - chunk, s1, k1n, o1n, s2, k2n, o2n)
            },
            crate::myers::EditRec::Drop(_) => {
                let chunk = if active1 && r1 < lrem {
                    r1
                } else {
                    lrem
                };
                let k1n = if active1 && chunk == r1 {
                    k1 + 1
                } else {
                    k1
                };
                let o1n = if !active1 {
                    o1
                } else if chunk == r1 {
                    0
                } else {
                    o1 + chunk
                };
                seq![
                    OpView { kind: OpKindView::Delete(chunk as nat), attrs: Map::empty() },
                ] + replay_rec(log, li, lrem - chunk, s1, k1n, o1n, s2, k2, o2)
            },
            crate::myers::EditRec::Add(_) => {
                let chunk = if active2 && r2 < lrem {
                    r2
                } else {
                    lrem
                };
                let t2 = if active2 {
                    slice_op(s2[k2], o2, chunk)
                } else {
                    sentinel
                };
                let k2n = if active2 && chunk == r2 {
                    k2 + 1
                } else {
                    k2
                };
                let o2n = if !active2 {
                    o2
                } else if chunk == r2 {
                    0
                } else {
                    o2 + chunk
                };
                seq![t2] + replay_rec(log, li, lrem - chunk, s1, k1, o1, s2, k2n, o2n)
            },
        }
    }
}

/// What replaying a whole edit script against two documents builds,
/// before the pushes merge it and the tail is chopped.
pub open spec fn replay_script(
    log: Seq<crate::myers::EditRec>,
    s1: Seq<OpView>,
    s2: Seq<OpView>,
) -> Seq<OpView> {
    replay_rec(log, -1, 0, s1, 0, 0, s2, 0, 0)
}

impl Document for Delta {
    open spec fn content(&self) -> Seq<OpView> {
        self@
    }

    open spec fn well_formed(&self) -> bool {
        self.wf()
    }

    fn concat(&mut self, other: Delta) {
        if !other.is_empty() {
            self.append(other);
        }
    }

    #[verifier::rlimit(100)]
    fn diff(&self, other: &Delta, cursor: usize) -> (r: Result<Delta, Error>) {
        let aa = match to_diff_string(self) {
            Ok(v) => v,
            Err(e) => {
                return Err(e);
            },
        };
        let bb = match to_diff_string(other) {
            Ok(v) => v,
            Err(e) => {
                return Err(e);
            },
        };
        let a = chars_vec(aa.as_str());
        let b = chars_vec(bb.as_str());
        proof {
            lemma_doc_chars_len(self@);
            lemma_doc_chars_len(other@);
        }
        let script = crate::myers::edit_script(a.as_slice(), 0, a.len(), b.as_slice(), 0, b.len());
        let ghost log = script@;
        let ghost s1 = self@;
        let ghost s2 = other@;

        let mut delta = Delta::default();
        let mut me = DeltaIterator::new(&self.ops);
        let mut other_it = DeltaIterator::new(&other.ops);
        let ghost mut acc: Seq<OpView> = Seq::empty();
        proof {
            assert(delta@ =~= crate::delta::pushed(acc));
        }
        let nrec = script.len();
        let mut ri: usize = 0;
        while ri < nrec
            invariant
                nrec == log.len(),
                log == script@,
                me.valid(),
                other_it.valid(),
                me.src() == s1,
                other_it.src() == s2,
                delta.wf(),
                normalized(delta@),
                delta@ =~= crate::delta::pushed(acc),
                replay_script(log, s1, s2) =~= acc + replay_rec(
                    log,
                    ri as int - 1,
                    0,
                    s1,
                    me.cur_index(),
                    me.cur_offset(),
                    s2,
                    other_it.cur_index(),
                    other_it.cur_offset(),
                ),
            decreases nrec - ri,
        {
            let ghost reclen = match log[ri as int] {
                crate::myers::EditRec::Equal(l) => l as int,
                crate::myers::EditRec::Drop(l) => l as int,
                crate::myers::EditRec::Add(l) => l as int,
            };
            proof {
                assert(replay_rec(
                    log,
                    ri as int - 1,
                    0,
                    s1,
                    me.cur_index(),
                    me.cur_offset(),
                    s2,
                    other_it.cur_index(),
                    other_it.cur_offset(),
                ) =~= replay_rec(
                    log,
                    ri as int,
                    reclen,
                    s1,
                    me.cur_index(),
                    me.cur_offset(),
                    s2,
                    other_it.cur_index(),
                    other_it.cur_offset(),
                ));
            }
            match script[ri] {
                crate::myers::EditRec::Equal(len) => {
                    let mut l = len;
                    while l > 0
                        invariant
                            log == script@,
                            ri < log.len(),
                            log[ri as int] matches crate::myers::EditRec::Equal(_),
                            me.valid(),
                            other_it.valid(),
                            me.src() == s1,
                            other_it.src() == s2,
                            delta.wf(),
                            normalized(delta@),
                            delta@ =~= crate::delta::pushed(acc),
                            replay_script(log, s1, s2) =~= acc + replay_rec(
                                log,
                                ri as int,
                                l as int,
                                s1,
                                me.cur_index(),
                                me.cur_offset(),
                                s2,
                                other_it.cur_index(),
                                other_it.cur_offset(),
                            ),
                        decreases l,
                    {
                        let ghost tail = replay_rec(
                            log,
                            ri as int,
                            l as int,
                            s1,
                            me.cur_index(),
                            me.cur_offset(),
                            s2,
                            other_it.cur_index(),
                            other_it.cur_offset(),
                        );
                        let pa = me.peek_len();
                        let pb = other_it.peek_len();
                        let mut op_len = if pa < pb {
                            pa
                        } else {
                            pb
                        };
                        if l < op_len {
                            op_len = l;
                        }
                        let this_op = me.next_len(op_len);
                        let other_op = other_it.next_len(op_len);
                        if this_op.op_type() == OpType::Insert && other_op.op_type()
                            == OpType::Insert && this_op.is_same_operation(&other_op) {
                            let mut dop = DeltaOperation::retain(op_len);
                            dop.set_attributes(
                                diff_attrs(this_op.get_attributes(), other_op.get_attributes()),
                            );
                            let ghost em = dop@;
                            proof {
                                crate::delta::lemma_push_normalized(delta@, em);
                                crate::delta::lemma_pushed_push(acc, em);
                                assert(tail =~= seq![em] + replay_rec(
                                    log,
                                    ri as int,
                                    l - op_len,
                                    s1,
                                    me.cur_index(),
                                    me.cur_offset(),
                                    s2,
                                    other_it.cur_index(),
                                    other_it.cur_offset(),
                                ));
                                acc = acc.push(em);
                            }
                            delta.push(dop);
                        } else {
                            let ghost em1 = other_op@;
                            let ghost em2 = OpView {
                                kind: OpKindView::Delete(op_len as nat),
                                attrs: Map::empty(),
                            };
                            proof {
                                crate::delta::lemma_push_normalized(delta@, em1);
                                crate::delta::lemma_pushed_push(acc, em1);
                                assert(tail =~= seq![em1, em2] + replay_rec(
                                    log,
                                    ri as int,
                                    l - op_len,
                                    s1,
                                    me.cur_index(),
                                    me.cur_offset(),
                                    s2,
                                    other_it.cur_index(),
                                    other_it.cur_offset(),
                                ));
                                acc = acc.push(em1);
                            }
                            delta.push(other_op);
                            let ghost pre = delta@;
                            proof {
                                crate::delta::lemma_push_normalized(pre, em2);
                                crate::delta::lemma_pushed_push(acc, em2);
                                acc = acc.push(em2);
                            }
                            delta.delete(op_len);
                            proof {
                                assert(seq![em1, em2].skip(1) =~= seq![em2]);
                                assert((seq![em1, em2] + replay_rec(
                                    log,
                                    ri as int,
                                    l - op_len,
                                    s1,
                                    me.cur_index(),
                                    me.cur_offset(),
                                    s2,
                                    other_it.cur_index(),
                                    other_it.cur_offset(),
                                )) =~= seq![em1] + (seq![em2] + replay_rec(
                                    log,
                                    ri as int,
                                    l - op_len,
                                    s1,
                                    me.cur_index(),
                                    me.cur_offset(),
                                    s2,
                                    other_it.cur_index(),
                                    other_it.cur_offset(),
                                )));
                            }
                        }
                        l = l - op_len;
                        proof {
                            assert(replay_script(log, s1, s2) =~= acc + replay_rec(
                                log,
                                ri as int,
                                l as int,
                                s1,
                                me.cur_index(),
                                me.cur_offset(),
                                s2,
                                other_it.cur_index(),
                                other_it.cur_offset(),
                            ));
                        }
                    }
                },
                crate::myers::EditRec::Drop(len) => {
                    let mut l = len;
                    while l > 0
                        invariant
                            log == script@,
                            ri < log.len(),
                            log[ri as int] matches crate::myers::EditRec::Drop(_),
                            me.valid(),
                            other_it.valid(),
                            me.src() == s1,
                            other_it.src() == s2,
                            delta.wf(),
                            normalized(delta@),
                            delta@ =~= crate::delta::pushed(acc),
                            replay_script(log, s1, s2) =~= acc + replay_rec(
                                log,
                                ri as int,
                                l as int,
                                s1,
                                me.cur_index(),
                                me.cur_offset(),
                                s2,
                                other_it.cur_index(),
                                other_it.cur_offset(),
                            ),
                        decreases l,
                    {
                        let ghost tail = replay_rec(
                            log,
                            ri as int,
                            l as int,
                            s1,
                            me.cur_index(),
                            me.cur_offset(),
                            s2,
                            other_it.cur_index(),
                            other_it.cur_offset(),
                        );
                        let pa = me.peek_len();
                        let op_len = if pa < l {
                            pa
                        } else {
                            l
                        };
                        let _ = me.next_len(op_len);
                        let ghost em = OpView {
                            kind: OpKindView::Delete(op_len as nat),
                            attrs: Map::empty(),
                        };
                        let ghost pre = delta@;
                        proof {
                            crate::delta::lemma_push_normalized(pre, em);
                            crate::delta::lemma_pushed_push(acc, em);
                            assert(tail =~= seq![em] + replay_rec(
                                log,
                                ri as int,
                                l - op_len,
                                s1,
                                me.cur_index(),
                                me.cur_offset(),
                                s2,
                                other_it.cur_index(),
                                other_it.cur_offset(),
                            ));
                            acc = acc.push(em);
                        }
                        delta.delete(op_len);
                        l = l - op_len;
                        proof {
                            assert(replay_script(log, s1, s2) =~= acc + replay_rec(
                                log,
                                ri as int,
                                l as int,
                                s1,
                                me.cur_index(),
                                me.cur_offset(),
                                s2,
                                other_it.cur_index(),
                                other_it.cur_offset(),
                            ));
                        }
                    }
                },
                crate::myers::EditRec::Add(len) => {
                    let mut l = len;
                    while l > 0
                        invariant
                            log == script@,
                            ri < log.len(),
                            log[ri as int] matches crate::myers::EditRec::Add(_),
                            me.valid(),
                            other_it.valid(),
                            me.src() == s1,
                            other_it.src() == s2,
                            delta.wf(),
                            normalized(delta@),
                            delta@ =~= crate::delta::pushed(acc),
                            replay_script(log, s1, s2) =~= acc + replay_rec(
                                log,
                                ri as int,
                                l as int,
                                s1,
                                me.cur_index(),
                                me.cur_offset(),
                                s2,
                                other_it.cur_index(),
                                other_it.cur_offset(),
                            ),
                        decreases l,
                    {
                        let ghost tail = replay_rec(
                            log,
                            ri as int,
                            l as int,
                            s1,
                            me.cur_index(),
                            me.cur_offset(),
                            s2,
                            other_it.cur_index(),
                            other_it.cur_offset(),
                        );
                        let pb = other_it.peek_len();
                        let op_len = if pb < l {
                            pb
                        } else {
                            l
                        };
                        let op = other_it.next_len(op_len);
                        let ghost em = op@;
                        proof {
                            crate::delta::lemma_push_normalized(delta@, em);
                            crate::delta::lemma_pushed_push(acc, em);
                            assert(tail =~= seq![em] + replay_rec(
                                log,
                                ri as int,
                                l - op_len,
                                s1,
                                me.cur_index(),
                                me.cur_offset(),
                                s2,
                                other_it.cur_index(),
                                other_it.cur_offset(),
                            ));
                            acc = acc.push(em);
                        }
                        delta.push(op);
                        l = l - op_len;
                        proof {
                            assert(replay_script(log, s1, s2) =~= acc + replay_rec(
                                log,
                                ri as int,
                                l as int,
                                s1,
                                me.cur_index(),
                                me.cur_offset(),
                                s2,
                                other_it.cur_index(),
                                other_it.cur_offset(),
                            ));
                        }
                    }
                },
            }
            ri += 1;
        }
        proof {
            assert(replay_rec(
                log,
                ri as int - 1,
                0,
                s1,
                me.cur_index(),
                me.cur_offset(),
                s2,
                other_it.cur_index(),
                other_it.cur_offset(),
            ) =~= Seq::<OpView>::empty());
            assert(replay_script(log, s1, s2) =~= acc);
            crate::delta::lemma_chop_normalized(delta@);
        }
        delta.chop();
        proof {
            assert(delta@ =~= crate::delta::chop_spec(crate::delta::pushed(
                replay_script(log, s1, s2),
            )));
            assert(crate::myers::script_consumes(log, units_from(s1, 0), units_from(s2, 0)));
        }
        Ok(delta)
    }

    fn each_line<F: Fn(&Delta, &Attributes, usize) -> bool>(
        &self,
        predicate: F,
        new_line_char: Option<char>,
    ) -> (r: Result<(), Error>) {
        let new_line = match new_line_char {
            Some(nl) => nl,
            None => '\n',
        };
        let mut iter = DeltaIterator::new(&self.ops);
        let ghost s = iter.src();
        let mut line = Delta::default();
        let mut line_len: usize = 0;
        let mut i: usize = 0;
        proof {
            lemma_units_from(s, 0);
        }
        while iter.has_next()
            invariant
                iter.valid(),
                iter.src() == s,
                line.wf(),
                normalized(line@),
                forall|ld: &Delta, at: &Attributes, ix: usize|
                    #[trigger] call_requires(predicate, (ld, at, ix)),
                units_from(s, 0) <= usize::MAX,
                line_len + cursor_units(s, iter.cur_index(), iter.cur_offset()) <= units_from(
                    s,
                    0,
                ),
                i + cursor_units(s, iter.cur_index(), iter.cur_offset()) <= units_from(s, 0),
            decreases cursor_units(s, iter.cur_index(), iter.cur_offset()),
        {
            proof {
                lemma_units_from(s, iter.cur_index());
            }
            if iter.peek_type() != OpType::Insert {
                return Ok(());
            }
            let (op_total, op_is_str) = match iter.peek() {
                Some(this_op) => (this_op.op_len(), this_op.is_string()),
                None => {
                    return Err(Error::IteratorIsEmpty);
                },
            };
            let remaining = iter.peek_len();
            let start = op_total - remaining;
            if !op_is_str {
                let op = iter.next_len(0);
                proof {
                    lemma_units_from(s, iter.cur_index());
                    crate::delta::lemma_push_normalized(line@, op@);
                }
                let oplen = op.op_len();
                line.push(op);
                line_len = line_len + oplen;
            } else {
                let sv = match iter.peek() {
                    Some(this_op) => match this_op.string_val() {
                        Ok(v) => v,
                        Err(_) => "",
                    },
                    None => "",
                };
                match find_char(sv, start, new_line) {
                    None => {
                        let op = iter.next_len(0);
                        proof {
                            lemma_units_from(s, iter.cur_index());
                            crate::delta::lemma_push_normalized(line@, op@);
                        }
                        let oplen = op.op_len();
                        line.push(op);
                        line_len = line_len + oplen;
                    },
                    Some(abs) => {
                        let len = abs - start;
                        if len > 0 {
                            let op = iter.next_len(len);
                            proof {
                                lemma_units_from(s, iter.cur_index());
                                crate::delta::lemma_push_normalized(line@, op@);
                            }
                            let oplen = op.op_len();
                            line.push(op);
                            line_len = line_len + oplen;
                        } else {
                            let nl_op = iter.next_len(1);
                            proof {
                                lemma_units_from(s, iter.cur_index());
                            }
                            let go_on = predicate(&line, nl_op.get_attributes(), i);
                            if !go_on {
                                return Ok(());
                            }
                            i = i + 1;
                            line = Delta::default();
                            line_len = 0;
                        }
                    },
                }
            }
        }
        if line_len > 0 {
            let empty_attrs = Attributes::new();
            let _ = predicate(&line, &empty_attrs, i);
        }
        Ok(())
    }

    fn invert(&self, base: &Delta) -> (r: Delta) {
        let ghost s = self@;
        let mut inverted = Delta::default();
        let mut base_index: usize = 0;
        let n = self.ops.len();
        let mut i: usize = 0;
        let ghost mut acc: Seq<OpView> = Seq::empty();
        proof {
            lemma_units_from(s, 0);
            assert(inverted@ =~= crate::delta::pushed(acc));
        }
        while i < n
            invariant
                n == self.ops@.len(),
                self.wf(),
                base.wf(),
                s == self@,
                views_positive(s),
                views_positive(base@),
                units_from(s, 0) <= usize::MAX,
                units_from(base@, 0) <= usize::MAX,
                i <= n,
                inverted.wf(),
                normalized(inverted@),
                base_index <= units_from(s, 0) - units_from(s, i as int),
                units_from(s, i as int) >= 0,
                inverted@ =~= crate::delta::pushed(acc),
                invert_emit(s, base@, 0, 0) =~= acc + invert_emit(s, base@, i as int, base_index as int),
            decreases n - i,
        {
            proof {
                lemma_units_from(s, i as int);
                lemma_units_from(s, i as int + 1);
            }
            let op = self.get(i);
            let op_len = op.op_len();
            let ty = op.op_type();
            let ghost tail = invert_emit(s, base@, i as int, base_index as int);
            if ty == OpType::Insert {
                let ghost em = OpView { kind: OpKindView::Delete(op_len as nat), attrs: Map::empty() };
                proof {
                    crate::delta::lemma_push_normalized(inverted@, em);
                    crate::delta::lemma_pushed_push(acc, em);
                    assert(tail =~= seq![em] + invert_emit(s, base@, i + 1, base_index as int));
                    acc = acc.push(em);
                }
                inverted.delete(op_len);
            } else if ty == OpType::Retain && op.get_attributes().is_empty() {
                let ghost em = OpView { kind: OpKindView::Retain(op_len as nat), attrs: Map::empty() };
                proof {
                    crate::delta::lemma_push_normalized(inverted@, em);
                    crate::delta::lemma_pushed_push(acc, em);
                    assert(tail =~= seq![em] + invert_emit(
                        s,
                        base@,
                        i + 1,
                        base_index + op_len,
                    ));
                    acc = acc.push(em);
                }
                inverted.retain(op_len);
                base_index = base_index + op_len;
            } else {
                // A delete restores the stretch of `base` it removed; an
                // attributed retain restores the attributes `base` had
                // on that stretch.
                let slice = base.slice(base_index, base_index + op_len);
                let ghost sl = slice@;
                let ghost target = if s[i as int].kind is Delete {
                    sl
                } else {
                    restore_retains(sl, s[i as int].attrs)
                };
                proof {
                    assert(sl =~= crate::delta::pushed(crate::utils::slice_rec(
                        base@,
                        0,
                        0,
                        0,
                        base_index as int,
                        base_index + op_len,
                    )));
                    assert(tail =~= target + invert_emit(s, base@, i + 1, base_index + op_len));
                }
                let m = slice.len();
                let mut k: usize = 0;
                let ghost acc0 = acc;
                while k < m
                    invariant
                        m == slice@.len(),
                        sl == slice@,
                        slice.wf(),
                        normalized(slice@),
                        self.wf(),
                        i < n == self.ops@.len(),
                        s == self@,
                        inverted.wf(),
                        normalized(inverted@),
                        k <= m,
                        target == (if s[i as int].kind is Delete {
                            sl
                        } else {
                            restore_retains(sl, s[i as int].attrs)
                        }),
                        target.len() == m,
                        acc =~= acc0 + target.take(k as int),
                        inverted@ =~= crate::delta::pushed(acc),
                    decreases m - k,
                {
                    let base_op = slice.get(k);
                    if self.get(i).op_type() == OpType::Delete {
                        let cloned = base_op.clone();
                        let ghost em = target[k as int];
                        proof {
                            assert(cloned@ == em);
                            assert(op_view_len(sl[k as int]) > 0);
                            crate::delta::lemma_push_normalized(inverted@, em);
                            crate::delta::lemma_pushed_push(acc, em);
                            acc = acc.push(em);
                            assert(acc =~= acc0 + target.take(k + 1));
                        }
                        inverted.push(cloned);
                    } else {
                        let restored = invert_attrs(
                            self.get(i).get_attributes(),
                            base_op.get_attributes(),
                        );
                        let blen = base_op.op_len();
                        let ghost em = target[k as int];
                        proof {
                            assert(op_view_len(sl[k as int]) > 0);
                            assert(em == OpView {
                                kind: OpKindView::Retain(blen as nat),
                                attrs: restored@,
                            });
                            crate::delta::lemma_push_normalized(inverted@, em);
                            crate::delta::lemma_pushed_push(acc, em);
                            acc = acc.push(em);
                            assert(acc =~= acc0 + target.take(k + 1));
                        }
                        inverted.retain_attr(blen, restored);
                    }
                    k += 1;
                }
                proof {
                    assert(target.take(m as int) =~= target);
                    assert(acc =~= acc0 + target);
                    assert(invert_emit(s, base@, 0, 0) =~= acc + invert_emit(
                        s,
                        base@,
                        i + 1,
                        base_index + op_len,
                    ));
                }
                base_index = base_index + op_len;
            }
            i += 1;
        }
        proof {
            assert(invert_emit(s, base@, n as int, base_index as int) =~= Seq::<OpView>::empty());
            assert(invert_emit(s, base@, 0, 0) =~= acc);
            crate::delta::lemma_chop_normalized(inverted@);
        }
        inverted.chop();
        proof {
            assert(inverted@ =~= crate::delta::chop_spec(crate::delta::pushed(
                invert_emit(s, base@, 0, 0),
            )));
        }
        inverted
    }

    fn document_length(&self) -> (r: usize) {
        let ghost s = self@;
        let n = self.ops.len();
        let mut len: usize = 0;
        let mut i: usize = 0;
        while i < n
            invariant
                n == self.ops@.len(),
                self.wf(),
                s == self@,
                i <= n,
                doc_len_ok(s, i as int, len as int),
                doc_len_rec(s, 0, 0) == doc_len_rec(s, i as int, len as int),
            decreases n - i,
        {
            let op = self.get(i);
            match op.op_type() {
                OpType::Insert => {
                    len = len + op.op_len();
                },
                OpType::Delete => {
                    len = len - op.op_len();
                },
                OpType::Retain => {},
            }
            i += 1;
        }
        len
    }
}

/// A document's character stream is as long as its unit count.
proof fn lemma_doc_chars_len(s: Seq<OpView>)
    requires
        is_document(s),
    ensures
        doc_chars(s).len() == units_from(s, 0),
    decreases s.len(),
{
    if s.len() > 0 {
        lemma_doc_chars_len(s.drop_last());
        crate::optransform::lemma_units_drop_last(s, 0);
    }
}


} // verus!
