use crate::attr_val::{attr_val_wf, lemma_attr_val_view, lemma_attr_val_wf, lemma_kseq, AttrMap, AttrVal, AttrValView};
use vstd::prelude::*;

verus! {

/// Attributes hold the formatting properties of an operation.  In the
/// output of `diff` and `invert` a key may be bound to `AttrVal::Null`,
/// the tombstone that removes the key when the change is applied.
#[derive(Debug)]
pub struct Attributes {
    attr: AttrMap,
}

impl View for Attributes {
    type V = Map<Seq<char>, AttrValView>;

    closed spec fn view(&self) -> Map<Seq<char>, AttrValView> {
        self.attr@
    }
}

impl Attributes {
    /// The inner map is well formed.
    pub closed spec fn wf(self) -> bool {
        self.attr.wf()
    }

    /// The stored entries, as ghost data, in storage order.
    pub closed spec fn kseq(self) -> Seq<(Seq<char>, AttrValView)> {
        self.attr.kseq()
    }

    /// The empty attribute set.
    pub fn new() -> (r: Attributes)
        ensures
            r@ =~= Map::<Seq<char>, AttrValView>::empty(),
            r.wf(),
    {
        Attributes { attr: AttrMap::new() }
    }

    /// Whether two attribute sets bind the same keys to the same values.
    pub fn is_equal(&self, other: &Attributes) -> (r: bool)
        requires
            self.wf(),
            other.wf(),
        ensures
            r == (self@ == other@),
    {
        self.attr.is_equal(&other.attr)
    }

    /// Binds `key` to `value`, replacing any earlier binding.
    pub fn insert(&mut self, key: &str, value: AttrVal)
        requires
            old(self).wf(),
            attr_val_wf(value),
        ensures
            final(self)@ =~= old(self)@.insert(key@, value@),
            final(self).wf(),
    {
        self.attr.insert(key, value);
    }

    /// Whether no key is bound.
    pub fn is_empty(&self) -> (r: bool)
        requires
            self.wf(),
        ensures
            r == (self@.dom() =~= Set::<Seq<char>>::empty()),
            r == (self@ =~= Map::<Seq<char>, AttrValView>::empty()),
    {
        self.attr.is_empty()
    }

    /// The value bound to `key`, if any.
    pub fn get(&self, key: &str) -> (r: Option<&AttrVal>)
        requires
            self.wf(),
        ensures
            match r {
                Some(v) => self@.dom().contains(key@) && v@ == self@[key@] && attr_val_wf(*v),
                None => !self@.dom().contains(key@),
            },
    {
        self.attr.get(key)
    }

    /// Removes the binding for `key`, if any.
    pub fn remove(&mut self, key: &str)
        requires
            old(self).wf(),
        ensures
            final(self)@ =~= old(self)@.remove(key@),
            final(self).wf(),
    {
        self.attr.remove(key);
    }

    /// The stored entry at a storage index: its key and its value.
    pub fn entry_at(&self, i: usize) -> (r: &(String, AttrVal))
        requires
            self.wf(),
            i < self.kseq().len(),
        ensures
            r.0@ == self.kseq()[i as int].0,
            r.1@ == self.kseq()[i as int].1,
            self@.dom().contains(r.0@),
            self@[r.0@] == r.1@,
            attr_val_wf(r.1),
    {
        self.attr.entry_at(i)
    }

    /// How many keys are bound.
    pub fn len(&self) -> (r: usize)
        requires
            self.wf(),
        ensures
            r == self@.dom().len(),
    {
        self.attr.len()
    }
}

impl Default for Attributes {
    /// The empty attribute set.
    fn default() -> (r: Attributes)
        ensures
            r@ =~= Map::<Seq<char>, AttrValView>::empty(),
            r.wf(),
    {
        Attributes::new()
    }
}

impl Clone for Attributes {
    /// A copy that means the same attribute set.
    fn clone(&self) -> (r: Attributes)
        ensures
            r@ == self@,
            self.wf() ==> r.wf(),
    {
        Attributes { attr: self.attr.clone() }
    }
}

impl PartialEq for Attributes {
    /// Equality as maps: same keys bound to the same values.
    fn eq(&self, other: &Attributes) -> (r: bool) {
        crate::attr_val::attr_map_eq(&self.attr, &other.attr)
    }
}

impl vstd::std_specs::cmp::PartialEqSpecImpl for Attributes {
    open spec fn obeys_eq_spec() -> bool {
        false
    }

    open spec fn eq_spec(&self, other: &Attributes) -> bool {
        self@ == other@
    }
}

/// What a key is bound to, or nothing.
pub open spec fn attr_get(m: Map<Seq<char>, AttrValView>, k: Seq<char>) -> Option<AttrValView> {
    if m.dom().contains(k) {
        Some(m[k])
    } else {
        None
    }
}

/// The composition of attribute set `b` over attribute set `a`:
/// `b` overrides `a`; a key `b` binds to null is dropped unless
/// `keep_null` asks for the tombstone to stay; keys of `a` that `b` does
/// not bind are carried over.
pub open spec fn compose_model(
    a: Map<Seq<char>, AttrValView>,
    b: Map<Seq<char>, AttrValView>,
    keep_null: bool,
) -> Map<Seq<char>, AttrValView> {
    Map::new(
        |k: Seq<char>|
            (b.dom().contains(k) && (keep_null || !(b[k] is Null))) || (a.dom().contains(k)
                && !b.dom().contains(k)),
        |k: Seq<char>|
            if b.dom().contains(k) {
                b[k]
            } else {
                a[k]
            },
    )
}

/// The transform of attribute set `b` against concurrent attribute set
/// `a`: with priority, `a` wins every overlapping key; without, `b`
/// passes through whole.
pub open spec fn transform_model(
    a: Map<Seq<char>, AttrValView>,
    b: Map<Seq<char>, AttrValView>,
    priority: bool,
) -> Map<Seq<char>, AttrValView> {
    if priority {
        Map::new(|k: Seq<char>| b.dom().contains(k) && !a.dom().contains(k), |k: Seq<char>| b[k])
    } else {
        b
    }
}

/// The difference from `a` to `b`: for every key bound differently, the
/// binding of `b`, or the null tombstone where `b` does not bind it.
pub open spec fn diff_model(
    a: Map<Seq<char>, AttrValView>,
    b: Map<Seq<char>, AttrValView>,
) -> Map<Seq<char>, AttrValView> {
    Map::new(
        |k: Seq<char>| attr_get(a, k) != attr_get(b, k),
        |k: Seq<char>|
            if b.dom().contains(k) {
                b[k]
            } else {
                AttrValView::Null
            },
    )
}

/// The inversion of `attr` against `base`: restores from `base` every key
/// `attr` rebinds, and tombstones every key `attr` adds.
pub open spec fn invert_model(
    attr: Map<Seq<char>, AttrValView>,
    base: Map<Seq<char>, AttrValView>,
) -> Map<Seq<char>, AttrValView> {
    Map::new(
        |k: Seq<char>|
            (base.dom().contains(k) && attr.dom().contains(k) && base[k] != attr[k]) || (
            attr.dom().contains(k) && !base.dom().contains(k)),
        |k: Seq<char>|
            if base.dom().contains(k) {
                base[k]
            } else {
                AttrValView::Null
            },
    )
}

/// Returns the attribute set equivalent to applying `attrib`, then
/// `base` over it: `base` overrides, null tombstones in `base` are kept
/// only when `keep_null` says so, and bindings of `attrib` that `base`
/// does not touch carry over.
pub fn compose(attrib: &Attributes, base: &Attributes, keep_null: bool) -> (r: Attributes)
    requires
        attrib.wf(),
        base.wf(),
    ensures
        r@ =~= compose_model(attrib@, base@, keep_null),
        r.wf(),
{
    proof {
        lemma_kseq(base.attr);
        lemma_kseq(attrib.attr);
    }
    let ghost bk = base.attr.kseq();
    let ghost ak = attrib.attr.kseq();
    let mut ret = Attributes::new();
    let n = base.attr.len();
    let mut i: usize = 0;
    while i < n
        invariant
            attrib.wf(),
            base.wf(),
            ret.wf(),
            n == bk.len(),
            bk == base.attr.kseq(),
            i <= n,
            forall|k: Seq<char>|
                #[trigger] ret@.dom().contains(k) ==> base@.dom().contains(k) && ret@[k]
                    == base@[k] && exists|j: int| 0 <= j < i && bk[j].0 == k,
            forall|j: int|
                0 <= j < i ==> (#[trigger] ret@.dom().contains(bk[j].0) <==> (keep_null || !(
                bk[j].1 is Null))),
        decreases n - i,
    {
        proof {
            lemma_kseq(base.attr);
        }
        let e = base.attr.entry_at(i);
        let ghost pre = ret@;
        let keep = if keep_null {
            true
        } else {
            !e.1.is_null()
        };
        if keep {
            ret.insert(e.0.as_str(), e.1.clone());
        }
        proof {
            assert(bk[i as int].0 == e.0@);
            assert forall|k: Seq<char>| #[trigger] ret@.dom().contains(k) implies base
                @.dom().contains(k) && ret@[k] == base@[k] && exists|j: int|
                0 <= j < i + 1 && bk[j].0 == k by {
                if pre.dom().contains(k) {
                    let j = choose|j: int| 0 <= j < i && bk[j].0 == k;
                    assert(0 <= j < i + 1 && bk[j].0 == k);
                } else {
                    assert(k == e.0@);
                    assert(0 <= i < i + 1 && bk[i as int].0 == k);
                }
            }
            assert forall|j: int| 0 <= j < i + 1 implies (#[trigger] ret@.dom().contains(bk[j].0)
                <==> (keep_null || !(bk[j].1 is Null))) by {
                if j < i {
                    if ret@.dom().contains(bk[j].0) && !pre.dom().contains(bk[j].0) {
                        assert(bk[j].0 == bk[i as int].0);
                    }
                } else {
                    if !keep && pre.dom().contains(bk[i as int].0) {
                        let j2 = choose|j2: int| 0 <= j2 < i && bk[j2].0 == bk[i as int].0;
                        assert(false);
                    }
                }
            }
        }
        i += 1;
    }
    let na = attrib.attr.len();
    let mut i: usize = 0;
    while i < na
        invariant
            attrib.wf(),
            base.wf(),
            ret.wf(),
            na == ak.len(),
            ak == attrib.attr.kseq(),
            bk == base.attr.kseq(),
            i <= na,
            forall|k: Seq<char>|
                #[trigger] ret@.dom().contains(k) ==> (base@.dom().contains(k) && ret@[k]
                    == base@[k]) || (attrib@.dom().contains(k) && !base@.dom().contains(k)
                    && ret@[k] == attrib@[k]),
            forall|j: int|
                0 <= j < bk.len() ==> (#[trigger] ret@.dom().contains(bk[j].0) <==> (keep_null
                    || !(bk[j].1 is Null))),
            forall|j: int|
                0 <= j < i && !base@.dom().contains(#[trigger] ak[j].0) ==> ret@.dom().contains(
                    ak[j].0,
                ),
        decreases na - i,
    {
        proof {
            lemma_kseq(attrib.attr);
            lemma_kseq(base.attr);
        }
        let e = attrib.attr.entry_at(i);
        let ghost pre = ret@;
        if base.attr.get(e.0.as_str()).is_none() {
            ret.insert(e.0.as_str(), e.1.clone());
            proof {
                assert(ak[i as int].0 == e.0@);
                assert forall|k: Seq<char>| #[trigger] ret@.dom().contains(k) implies (
                base@.dom().contains(k) && ret@[k] == base@[k]) || (attrib@.dom().contains(k)
                    && !base@.dom().contains(k) && ret@[k] == attrib@[k]) by {
                    if k == e.0@ {
                        assert(attrib@.dom().contains(k));
                        assert(attrib@[k] == e.1@);
                        assert(ret@[k] == e.1@);
                    } else {
                        assert(pre.dom().contains(k));
                        assert(ret@[k] == pre[k]);
                    }
                }
            }
        }
        i += 1;
    }
    proof {
        lemma_kseq(attrib.attr);
        lemma_kseq(base.attr);
        assert(ret@ =~= compose_model(attrib@, base@, keep_null)) by {
            assert forall|k: Seq<char>|
                compose_model(attrib@, base@, keep_null).dom().contains(k) implies ret
                @.dom().contains(k) by {
                if base@.dom().contains(k) {
                    let j = choose|j: int| 0 <= j < bk.len() && #[trigger] bk[j].0 == k;
                    assert(ret@.dom().contains(bk[j].0) <==> (keep_null || !(bk[j].1 is Null)));
                } else {
                    let j = choose|j: int| 0 <= j < ak.len() && #[trigger] ak[j].0 == k;
                    assert(ret@.dom().contains(ak[j].0));
                }
            }
        }
    }
    ret
}

/// Transforms attribute set `base` against concurrent set `attrib`: when
/// `priority` is set, `attrib`'s bindings win and only the keys it leaves
/// free pass through; otherwise `base` passes through whole.
pub fn transform(attrib: &Attributes, base: &Attributes, priority: bool) -> (r: Attributes)
    requires
        attrib.wf(),
        base.wf(),
    ensures
        r@ =~= transform_model(attrib@, base@, priority),
        r.wf(),
{
    if attrib.is_empty() {
        let r = base.clone();
        proof {
            assert(r@ =~= transform_model(attrib@, base@, priority));
        }
        return r;
    }
    if base.is_empty() {
        let r = Attributes::new();
        proof {
            assert(r@ =~= transform_model(attrib@, base@, priority));
        }
        return r;
    }
    if !priority {
        return base.clone();
    }
    proof {
        lemma_kseq(base.attr);
    }
    let ghost bk = base.attr.kseq();
    let mut ret = Attributes::new();
    let n = base.attr.len();
    let mut i: usize = 0;
    while i < n
        invariant
            attrib.wf(),
            base.wf(),
            ret.wf(),
            n == bk.len(),
            bk == base.attr.kseq(),
            i <= n,
            forall|k: Seq<char>|
                #[trigger] ret@.dom().contains(k) ==> base@.dom().contains(k)
                    && !attrib@.dom().contains(k) && ret@[k] == base@[k],
            forall|j: int|
                0 <= j < i && !attrib@.dom().contains(#[trigger] bk[j].0) ==> ret@.dom().contains(
                    bk[j].0,
                ),
        decreases n - i,
    {
        proof {
            lemma_kseq(base.attr);
        }
        let e = base.attr.entry_at(i);
        let ghost pre = ret@;
        if attrib.attr.get(e.0.as_str()).is_none() {
            ret.insert(e.0.as_str(), e.1.clone());
        }
        proof {
            assert(bk[i as int].0 == e.0@);
            assert forall|k: Seq<char>| #[trigger] ret@.dom().contains(k) implies base
                @.dom().contains(k) && !attrib@.dom().contains(k) && ret@[k] == base@[k] by {
                if !pre.dom().contains(k) {
                    assert(k == e.0@);
                }
            }
        }
        i += 1;
    }
    proof {
        lemma_kseq(base.attr);
        assert(ret@ =~= transform_model(attrib@, base@, priority)) by {
            assert forall|k: Seq<char>|
                transform_model(attrib@, base@, priority).dom().contains(k) implies ret
                @.dom().contains(k) by {
                let j = choose|j: int| 0 <= j < bk.len() && #[trigger] bk[j].0 == k;
                assert(ret@.dom().contains(bk[j].0));
            }
        }
    }
    ret
}

/// The difference between two attribute sets: for every key bound
/// differently, the binding of `base`, with the null tombstone where
/// `base` drops the key.
pub fn diff(attrib: &Attributes, base: &Attributes) -> (r: Attributes)
    requires
        attrib.wf(),
        base.wf(),
    ensures
        r@ =~= diff_model(attrib@, base@),
        r.wf(),
{
    proof {
        lemma_kseq(attrib.attr);
        lemma_kseq(base.attr);
    }
    let ghost ak = attrib.attr.kseq();
    let ghost bk = base.attr.kseq();
    let mut ret = Attributes::new();
    let na = attrib.attr.len();
    let mut i: usize = 0;
    while i < na
        invariant
            attrib.wf(),
            base.wf(),
            ret.wf(),
            na == ak.len(),
            ak == attrib.attr.kseq(),
            bk == base.attr.kseq(),
            i <= na,
            forall|k: Seq<char>|
                #[trigger] ret@.dom().contains(k) ==> attr_get(attrib@, k) != attr_get(base@, k)
                    && ret@[k] == (if base@.dom().contains(k) {
                    base@[k]
                } else {
                    AttrValView::Null
                }),
            forall|j: int|
                0 <= j < i && attr_get(attrib@, #[trigger] ak[j].0) != attr_get(base@, ak[j].0)
                    ==> ret@.dom().contains(ak[j].0),
        decreases na - i,
    {
        proof {
            lemma_kseq(attrib.attr);
        }
        let e = attrib.attr.entry_at(i);
        let ghost pre = ret@;
        let ghost goal_val = |k: Seq<char>|
            if base@.dom().contains(k) {
                base@[k]
            } else {
                AttrValView::Null
            };
        match base.attr.get(e.0.as_str()) {
            None => {
                proof {
                    lemma_attr_val_wf(AttrVal::Null);
                    lemma_attr_val_view(AttrVal::Null);
                }
                ret.insert(e.0.as_str(), AttrVal::Null);
                proof {
                    assert(ak[i as int].0 == e.0@);
                    assert forall|k: Seq<char>| #[trigger] ret@.dom().contains(k) implies attr_get(
                        attrib@,
                        k,
                    ) != attr_get(base@, k) && ret@[k] == goal_val(k) by {
                        if k == e.0@ {
                            assert(attrib@[k] == e.1@);
                            assert(ret@[k] is Null);
                        } else {
                            assert(pre.dom().contains(k));
                            assert(ret@[k] == pre[k]);
                        }
                    }
                }
            },
            Some(w) => {
                if !crate::attr_val::attr_val_eq(&e.1, w) {
                    let ghost wv = w@;
                    ret.insert(e.0.as_str(), w.clone());
                    proof {
                        assert(ak[i as int].0 == e.0@);
                        assert forall|k: Seq<char>| #[trigger] ret@.dom().contains(k) implies
                            attr_get(attrib@, k) != attr_get(base@, k) && ret@[k] == goal_val(
                            k,
                        ) by {
                            if k == e.0@ {
                                assert(attrib@[k] == e.1@);
                                assert(base@[k] == wv);
                                assert(ret@[k] == wv);
                            } else {
                                assert(pre.dom().contains(k));
                                assert(ret@[k] == pre[k]);
                            }
                        }
                    }
                }
            },
        }
        i += 1;
    }
    let nb = base.attr.len();
    let mut i: usize = 0;
    while i < nb
        invariant
            attrib.wf(),
            base.wf(),
            ret.wf(),
            nb == bk.len(),
            ak == attrib.attr.kseq(),
            bk == base.attr.kseq(),
            i <= nb,
            forall|k: Seq<char>|
                #[trigger] ret@.dom().contains(k) ==> attr_get(attrib@, k) != attr_get(base@, k)
                    && ret@[k] == (if base@.dom().contains(k) {
                    base@[k]
                } else {
                    AttrValView::Null
                }),
            forall|j: int|
                0 <= j < ak.len() && attr_get(attrib@, #[trigger] ak[j].0) != attr_get(
                    base@,
                    ak[j].0,
                ) ==> ret@.dom().contains(ak[j].0),
            forall|j: int|
                0 <= j < i && attr_get(attrib@, #[trigger] bk[j].0) != attr_get(base@, bk[j].0)
                    ==> ret@.dom().contains(bk[j].0),
        decreases nb - i,
    {
        proof {
            lemma_kseq(base.attr);
        }
        let e = base.attr.entry_at(i);
        let ghost pre = ret@;
        let ghost goal_val = |k: Seq<char>|
            if base@.dom().contains(k) {
                base@[k]
            } else {
                AttrValView::Null
            };
        let mut put = false;
        match attrib.attr.get(e.0.as_str()) {
            None => {
                put = true;
            },
            Some(w) => {
                if !crate::attr_val::attr_val_eq(w, &e.1) {
                    put = true;
                }
            },
        }
        if put {
            ret.insert(e.0.as_str(), e.1.clone());
            proof {
                assert(bk[i as int].0 == e.0@);
                assert forall|k: Seq<char>| #[trigger] ret@.dom().contains(k) implies attr_get(
                    attrib@,
                    k,
                ) != attr_get(base@, k) && ret@[k] == goal_val(k) by {
                    if k == e.0@ {
                        assert(base@.dom().contains(k));
                        assert(base@[k] == e.1@);
                        assert(ret@[k] == e.1@);
                    } else {
                        assert(pre.dom().contains(k));
                        assert(ret@[k] == pre[k]);
                    }
                }
            }
        }
        i += 1;
    }
    proof {
        lemma_kseq(attrib.attr);
        lemma_kseq(base.attr);
        assert(ret@ =~= diff_model(attrib@, base@)) by {
            assert forall|k: Seq<char>| diff_model(attrib@, base@).dom().contains(k) implies ret
                @.dom().contains(k) by {
                if attrib@.dom().contains(k) {
                    let j = choose|j: int| 0 <= j < ak.len() && #[trigger] ak[j].0 == k;
                    assert(ret@.dom().contains(ak[j].0));
                } else {
                    let j = choose|j: int| 0 <= j < bk.len() && #[trigger] bk[j].0 == k;
                    assert(ret@.dom().contains(bk[j].0));
                }
            }
        }
    }
    ret
}

/// The attribute set that undoes `attr` against `base`: every key `attr`
/// rebinds is restored from `base`, every key `attr` adds is tombstoned.
pub fn invert(attr: &Attributes, base: &Attributes) -> (r: Attributes)
    requires
        attr.wf(),
        base.wf(),
    ensures
        r@ =~= invert_model(attr@, base@),
        r.wf(),
{
    proof {
        lemma_kseq(attr.attr);
        lemma_kseq(base.attr);
    }
    let ghost ak = attr.attr.kseq();
    let ghost bk = base.attr.kseq();
    let mut ret = Attributes::new();
    let nb = base.attr.len();
    let mut i: usize = 0;
    while i < nb
        invariant
            attr.wf(),
            base.wf(),
            ret.wf(),
            nb == bk.len(),
            bk == base.attr.kseq(),
            ak == attr.attr.kseq(),
            i <= nb,
            forall|k: Seq<char>|
                #[trigger] ret@.dom().contains(k) ==> base@.dom().contains(k)
                    && attr@.dom().contains(k) && base@[k] != attr@[k] && ret@[k] == base@[k],
            forall|j: int|
                0 <= j < i && attr@.dom().contains(#[trigger] bk[j].0) && base@[bk[j].0]
                    != attr@[bk[j].0] ==> ret@.dom().contains(bk[j].0),
        decreases nb - i,
    {
        proof {
            lemma_kseq(base.attr);
        }
        let e = base.attr.entry_at(i);
        let ghost pre = ret@;
        match attr.attr.get(e.0.as_str()) {
            None => {},
            Some(w) => {
                if !crate::attr_val::attr_val_eq(&e.1, w) {
                    let ghost wv = w@;
                    ret.insert(e.0.as_str(), e.1.clone());
                    proof {
                        assert(bk[i as int].0 == e.0@);
                        assert forall|k: Seq<char>| #[trigger] ret@.dom().contains(k) implies base
                            @.dom().contains(k) && attr@.dom().contains(k) && base@[k] != attr@[k]
                            && ret@[k] == base@[k] by {
                            if k == e.0@ {
                                assert(base@[k] == e.1@);
                                assert(attr@[k] == wv);
                                assert(ret@[k] == e.1@);
                            } else {
                                assert(pre.dom().contains(k));
                                assert(ret@[k] == pre[k]);
                            }
                        }
                    }
                }
            },
        }
        i += 1;
    }
    let na = attr.attr.len();
    let mut i: usize = 0;
    while i < na
        invariant
            attr.wf(),
            base.wf(),
            ret.wf(),
            na == ak.len(),
            bk == base.attr.kseq(),
            ak == attr.attr.kseq(),
            i <= na,
            forall|k: Seq<char>|
                #[trigger] ret@.dom().contains(k) ==> ((base@.dom().contains(k)
                    && attr@.dom().contains(k) && base@[k] != attr@[k] && ret@[k] == base@[k]) || (
                attr@.dom().contains(k) && !base@.dom().contains(k) && ret@[k] is Null)),
            forall|j: int|
                0 <= j < bk.len() && attr@.dom().contains(#[trigger] bk[j].0) && base@[bk[j].0]
                    != attr@[bk[j].0] ==> ret@.dom().contains(bk[j].0),
            forall|j: int|
                0 <= j < i && !base@.dom().contains(#[trigger] ak[j].0) ==> ret@.dom().contains(
                    ak[j].0,
                ),
        decreases na - i,
    {
        proof {
            lemma_kseq(attr.attr);
        }
        let e = attr.attr.entry_at(i);
        let ghost pre = ret@;
        if base.attr.get(e.0.as_str()).is_none() {
            proof {
                lemma_attr_val_wf(AttrVal::Null);
                lemma_attr_val_view(AttrVal::Null);
            }
            ret.insert(e.0.as_str(), AttrVal::Null);
            proof {
                assert(ak[i as int].0 == e.0@);
                assert forall|k: Seq<char>| #[trigger] ret@.dom().contains(k) implies ((
                base@.dom().contains(k) && attr@.dom().contains(k) && base@[k] != attr@[k]
                    && ret@[k] == base@[k]) || (attr@.dom().contains(k) && !base@.dom().contains(k)
                    && ret@[k] is Null)) by {
                    if k == e.0@ {
                        assert(attr@.dom().contains(k));
                        assert(ret@[k] is Null);
                    } else {
                        assert(pre.dom().contains(k));
                        assert(ret@[k] == pre[k]);
                    }
                }
            }
        }
        i += 1;
    }
    proof {
        lemma_kseq(attr.attr);
        lemma_kseq(base.attr);
        assert(ret@ =~= invert_model(attr@, base@)) by {
            assert forall|k: Seq<char>| invert_model(attr@, base@).dom().contains(k) implies ret
                @.dom().contains(k) by {
                if base@.dom().contains(k) {
                    let j = choose|j: int| 0 <= j < bk.len() && #[trigger] bk[j].0 == k;
                    assert(ret@.dom().contains(bk[j].0));
                } else {
                    let j = choose|j: int| 0 <= j < ak.len() && #[trigger] ak[j].0 == k;
                    assert(ret@.dom().contains(ak[j].0));
                }
            }
        }
    }
    ret
}

/// Law: composing onto `a` its difference to `b`, keeping null
/// tombstones, gives exactly `b`, for attribute sets whose keys all stay
/// bound in `b`.  (Where `a` binds a key that `b` drops, the composition
/// keeps the tombstone for it instead, so the law asks that `a`'s keys be
/// a subset of `b`'s.)
pub proof fn lemma_compose_diff(a: Map<Seq<char>, AttrValView>, b: Map<Seq<char>, AttrValView>)
    requires
        a.dom().subset_of(b.dom()),
    ensures
        compose_model(a, diff_model(a, b), true) =~= b,
{
    let d = diff_model(a, b);
    assert forall|k: Seq<char>| b.dom().contains(k) implies compose_model(
        a,
        d,
        true,
    ).dom().contains(k) && compose_model(a, d, true)[k] == b[k] by {
        if attr_get(a, k) != attr_get(b, k) {
            assert(d.dom().contains(k));
        }
    }
}

/// Law: composing onto `a` its difference to `b`, dropping null
/// tombstones, gives exactly `b`, for any `a`, whenever `b` itself holds
/// no null binding — the shape attribute sets on document text have.
pub proof fn lemma_compose_diff_no_null(
    a: Map<Seq<char>, AttrValView>,
    b: Map<Seq<char>, AttrValView>,
)
    requires
        forall|k: Seq<char>| b.dom().contains(k) ==> !(#[trigger] b[k] is Null),
    ensures
        compose_model(a, diff_model(a, b), false) =~= b,
{
    let d = diff_model(a, b);
    assert forall|k: Seq<char>| b.dom().contains(k) implies compose_model(
        a,
        d,
        false,
    ).dom().contains(k) && compose_model(a, d, false)[k] == b[k] by {
        if attr_get(a, k) != attr_get(b, k) {
            assert(d.dom().contains(k));
        }
    }
    assert forall|k: Seq<char>|
        compose_model(a, d, false).dom().contains(k) implies b.dom().contains(k) by {
        if d.dom().contains(k) {
            assert(attr_get(a, k) != attr_get(b, k));
        }
    }
}


/// Law: attribute inversion undoes an applied change.  Applying a
/// change to a document's attribute set with tombstones dropped, then
/// applying the change's inversion against the original set, restores
/// the original — for document attribute sets, which never bind a key
/// to null.
pub proof fn lemma_invert_round_trip(
    base: Map<Seq<char>, AttrValView>,
    change: Map<Seq<char>, AttrValView>,
)
    requires
        forall|k: Seq<char>| base.dom().contains(k) ==> !(#[trigger] base[k] is Null),
    ensures
        compose_model(
            compose_model(base, change, false),
            invert_model(change, base),
            false,
        ) =~= base,
{
    let applied = compose_model(base, change, false);
    let inv = invert_model(change, base);
    let restored = compose_model(applied, inv, false);
    assert forall|k: Seq<char>| base.dom().contains(k) implies restored.dom().contains(k)
        && restored[k] == base[k] by {
        if change.dom().contains(k) {
            if change[k] == base[k] {
                assert(applied.dom().contains(k) && applied[k] == base[k]);
                assert(!inv.dom().contains(k));
            } else {
                assert(inv.dom().contains(k) && inv[k] == base[k]);
            }
        } else {
            assert(applied.dom().contains(k) && applied[k] == base[k]);
            assert(!inv.dom().contains(k));
        }
    }
    assert forall|k: Seq<char>| restored.dom().contains(k) implies base.dom().contains(k) by {
        if inv.dom().contains(k) && !(inv[k] is Null) {
            assert(base.dom().contains(k));
        }
    }
}

/// Law: attribute transformation converges.  Two concurrent attribute
/// changes reach the same set whichever applies first, when the sides
/// transform against each other with opposite priorities.
pub proof fn lemma_transform_converges(
    a: Map<Seq<char>, AttrValView>,
    b: Map<Seq<char>, AttrValView>,
)
    ensures
        compose_model(a, transform_model(a, b, true), true) =~= compose_model(
            b,
            transform_model(b, a, false),
            true,
        ),
{
}

/// Law: attribute composition that keeps null tombstones is
/// associative.  (Dropping tombstones is not: composing a null binding
/// away inside the right-hand pair loses the tombstone before it can
/// erase the left-hand binding.)
pub proof fn lemma_compose_associative(
    a: Map<Seq<char>, AttrValView>,
    b: Map<Seq<char>, AttrValView>,
    c: Map<Seq<char>, AttrValView>,
)
    ensures
        compose_model(compose_model(a, b, true), c, true) =~= compose_model(
            a,
            compose_model(b, c, true),
            true,
        ),
{
}

} // verus!
