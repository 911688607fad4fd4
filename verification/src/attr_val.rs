use vstd::prelude::*;
use vstd::string::StringExecFns;

verus! {

/// Mathematical value of an attribute: the view of [`AttrVal`].
/// Maps are modelled as mathematical maps from key character sequences to
/// values, so two attribute maps are equal exactly when they bind the same
/// keys to the same values, whatever the insertion order.
pub enum AttrValView {
    Null,
    Bool(bool),
    Number(nat),
    Str(Seq<char>),
    Object(Map<Seq<char>, AttrValView>),
}

/// An attribute value: the tagged union of the things an attribute may
/// hold.  Arrays are not representable, by design.
#[derive(Debug)]
pub enum AttrVal {
    String(String),
    Number(usize),
    Bool(bool),
    Object(AttrMap),
    Null,
}

/// An unordered mapping from string keys to attribute values.  Keys are
/// unique; iteration follows insertion order, which keeps serialisation
/// reproducible but carries no meaning.
#[derive(Debug)]
pub struct AttrMap {
    entries: Vec<(String, AttrVal)>,
}

/// The model of an attribute value.
spec fn attr_val_model(v: AttrVal) -> AttrValView
    decreases v,
{
    match v {
        AttrVal::Null => AttrValView::Null,
        AttrVal::Bool(b) => AttrValView::Bool(b),
        AttrVal::Number(n) => AttrValView::Number(n as nat),
        AttrVal::String(s) => AttrValView::Str(s@),
        AttrVal::Object(m) => AttrValView::Object(
            entries_model_upto(m.entries, m.entries@.len() as int),
        ),
    }
}

/// The mathematical map described by the first `n` entries of an entry
/// list; a later binding for a key overrides an earlier one.
spec fn entries_model_upto(v: Vec<(String, AttrVal)>, n: int) -> Map<Seq<char>, AttrValView>
    decreases v, n,
{
    if n <= 0 || n > v.len() {
        Map::empty()
    } else {
        entries_model_upto(v, n - 1).insert(v[n - 1].0@, attr_val_model(v[n - 1].1))
    }
}

/// The first `n` entries bind pairwise distinct keys.
spec fn keys_unique(v: Vec<(String, AttrVal)>, n: int) -> bool {
    forall|i: int, j: int| 0 <= i < j < n ==> v[i].0@ != v[j].0@
}

/// A value is well formed when every map inside it binds each key once
/// and every string in it fits the machine word.
pub closed spec fn attr_val_wf(v: AttrVal) -> bool
    decreases v,
{
    match v {
        AttrVal::Object(m) => m.wf(),
        AttrVal::String(s) => s@.len() <= usize::MAX,
        _ => true,
    }
}

impl View for AttrVal {
    type V = AttrValView;

    closed spec fn view(&self) -> AttrValView {
        attr_val_model(*self)
    }
}

impl View for AttrMap {
    type V = Map<Seq<char>, AttrValView>;

    closed spec fn view(&self) -> Map<Seq<char>, AttrValView> {
        entries_model_upto(self.entries, self.entries@.len() as int)
    }
}

/// What the first `n` entries of a well-formed entry list mean: the model
/// binds exactly their keys, each to the value stored beside it.
proof fn lemma_entries_model(v: Vec<(String, AttrVal)>, n: int)
    requires
        0 <= n <= v.len(),
        keys_unique(v, n),
    ensures
        entries_model_upto(v, n).dom().finite(),
        entries_model_upto(v, n).dom().len() == n,
        forall|i: int|
            0 <= i < n ==> #[trigger] entries_model_upto(v, n).dom().contains(v[i].0@)
                && entries_model_upto(v, n)[v[i].0@] == attr_val_model(v[i].1),
        forall|k: Seq<char>|
            entries_model_upto(v, n).dom().contains(k) ==> exists|i: int|
                0 <= i < n && #[trigger] v[i].0@ == k,
    decreases n,
{
    if n > 0 {
        lemma_entries_model(v, n - 1);
        let prev = entries_model_upto(v, n - 1);
        assert(!prev.dom().contains(v[n - 1].0@)) by {
            if prev.dom().contains(v[n - 1].0@) {
                let i = choose|i: int| 0 <= i < n - 1 && #[trigger] v[i].0@ == v[n - 1].0@;
                assert(v[i].0@ != v[n - 1].0@);
            }
        }
        assert(prev.dom().insert(v[n - 1].0@).len() == n);
    }
}

/// A finite set included in another of the same size equals it.
pub proof fn lemma_subset_same_len<A>(a: Set<A>, b: Set<A>)
    requires
        a.finite(),
        b.finite(),
        a.subset_of(b),
        a.len() == b.len(),
    ensures
        a =~= b,
{
    if exists|x: A| b.contains(x) && !a.contains(x) {
        let x = choose|x: A| b.contains(x) && !a.contains(x);
        let b2 = b.remove(x);
        assert(b2.len() == b.len() - 1);
        assert(a.subset_of(b2));
        vstd::set_lib::lemma_len_subset(a, b2);
    }
}

/// What each variant of an attribute value means.
pub broadcast proof fn lemma_attr_val_view(v: AttrVal)
    ensures
        #[trigger] v@ == (match v {
            AttrVal::Null => AttrValView::Null,
            AttrVal::Bool(b) => AttrValView::Bool(b),
            AttrVal::Number(n) => AttrValView::Number(n as nat),
            AttrVal::String(s) => AttrValView::Str(s@),
            AttrVal::Object(m) => AttrValView::Object(m@),
        }),
{
}

/// Which values are well formed: every value without a nested map, and a
/// nested map exactly when the map itself is well formed.
pub broadcast proof fn lemma_attr_val_wf(v: AttrVal)
    ensures
        #[trigger] attr_val_wf(v) == (match v {
            AttrVal::Object(m) => m.wf(),
            AttrVal::String(s) => s@.len() <= usize::MAX,
            _ => true,
        }),
{
}

/// What a well-formed map means: its mathematical map binds exactly the
/// stored keys, each to the value stored beside it, with no key stored
/// twice.
pub proof fn lemma_kseq(m: AttrMap)
    requires
        m.wf(),
    ensures
        m@.dom().finite(),
        m@.dom().len() == m.kseq().len(),
        forall|i: int, j: int| 0 <= i < j < m.kseq().len() ==> m.kseq()[i].0 != m.kseq()[j].0,
        forall|i: int|
            0 <= i < m.kseq().len() ==> #[trigger] m@.dom().contains(m.kseq()[i].0)
                && m@[m.kseq()[i].0] == m.kseq()[i].1,
        forall|k: Seq<char>|
            m@.dom().contains(k) ==> exists|i: int|
                0 <= i < m.kseq().len() && #[trigger] m.kseq()[i].0 == k,
{
    lemma_entries_model(m.entries, m.entries@.len() as int);
    assert forall|k: Seq<char>| m@.dom().contains(k) implies exists|i: int|
        0 <= i < m.kseq().len() && #[trigger] m.kseq()[i].0 == k by {
        let i = choose|i: int| 0 <= i < m.entries@.len() && #[trigger] m.entries@[i].0@ == k;
        assert(m.kseq()[i].0 == k);
    }
}

impl AttrMap {
    /// Every key is stored once and every stored value is well formed.
    pub closed spec fn wf(self) -> bool
        decreases self,
    {
        keys_unique(self.entries, self.entries@.len() as int) && (forall|i: int|
            0 <= i < self.entries@.len() ==> attr_val_wf(#[trigger] self.entries@[i].1))
    }

    /// The stored entries, as ghost data: (key, value) views in storage
    /// order.
    pub closed spec fn kseq(self) -> Seq<(Seq<char>, AttrValView)> {
        self.entries@.map_values(|e: (String, AttrVal)| (e.0@, attr_val_model(e.1)))
    }

    /// The empty map.
    pub fn new() -> (r: AttrMap)
        ensures
            r@ =~= Map::<Seq<char>, AttrValView>::empty(),
            r.kseq().len() == 0,
            r.wf(),
    {
        AttrMap { entries: Vec::new() }
    }

    /// How many keys the map binds.
    pub fn len(&self) -> (r: usize)
        requires
            self.wf(),
        ensures
            r == self@.dom().len(),
            r == self.kseq().len(),
    {
        proof {
            lemma_entries_model(self.entries, self.entries@.len() as int);
        }
        self.entries.len()
    }

    /// Whether the map binds no key.
    pub fn is_empty(&self) -> (r: bool)
        requires
            self.wf(),
        ensures
            r == (self@.dom() =~= Set::<Seq<char>>::empty()),
            r == (self@ =~= Map::<Seq<char>, AttrValView>::empty()),
    {
        proof {
            lemma_entries_model(self.entries, self.entries@.len() as int);
            if self@.dom().len() == 0 {
                self@.dom().lemma_len0_is_empty();
            }
        }
        self.entries.len() == 0
    }

    /// The stored entry at a storage index: its key and its value.
    pub fn entry_at(&self, i: usize) -> (r: &(String, AttrVal))
        requires
            self.wf(),
            i < self.kseq().len(),
        ensures
            r.0@ == self.kseq()[i as int].0,
            r.1@ == self.kseq()[i as int].1,
            self@.dom().contains(r.0@),
            self@[r.0@] == r.1@,
            attr_val_wf(r.1),
    {
        proof {
            lemma_entries_model(self.entries, self.entries@.len() as int);
            assert(self@.dom().contains(self.entries@[i as int].0@));
            assert(self@[self.entries@[i as int].0@] == attr_val_model(self.entries@[i as int].1));
            assert(self.kseq()[i as int].0 == self.entries@[i as int].0@);
            assert(self.kseq()[i as int].1 == attr_val_model(self.entries@[i as int].1));
        }
        &self.entries[i]
    }

    /// The value bound to `key`, if the map binds that key.
    pub fn get(&self, key: &str) -> (r: Option<&AttrVal>)
        requires
            self.wf(),
        ensures
            match r {
                Some(v) => self@.dom().contains(key@) && v@ == self@[key@] && attr_val_wf(*v),
                None => !self@.dom().contains(key@),
            },
    {
        proof {
            lemma_entries_model(self.entries, self.entries@.len() as int);
        }
        let k = String::from_str(key);
        let n = self.entries.len();
        let mut i: usize = 0;
        while i < n
            invariant
                n == self.entries@.len(),
                k@ == key@,
                self.wf(),
                forall|j: int| 0 <= j < i ==> self.entries@[j].0@ != key@,
            decreases n - i,
        {
            if self.entries[i].0 == k {
                proof {
                    lemma_entries_model(self.entries, self.entries@.len() as int);
                    assert(self.entries@[i as int].0@ == key@);
                    assert(self@.dom().contains(self.entries@[i as int].0@));
                    assert(self@[self.entries@[i as int].0@] == attr_val_model(
                        self.entries@[i as int].1,
                    ));
                }
                return Some(&self.entries[i].1);
            }
            i += 1;
        }
        proof {
            if self@.dom().contains(key@) {
                let j = choose|j: int|
                    0 <= j < self.entries@.len() && #[trigger] self.entries@[j].0@ == key@;
                assert(self.entries@[j].0@ != key@);
            }
        }
        None
    }

    /// Binds `key` to `value`, replacing any earlier binding.
    pub fn insert(&mut self, key: &str, value: AttrVal)
        requires
            old(self).wf(),
            attr_val_wf(value),
        ensures
            final(self)@ =~= old(self)@.insert(key@, value@),
            final(self).wf(),
    {
        let k = String::from_str(key);
        let n = self.entries.len();
        let mut i: usize = 0;
        while i < n
            invariant
                n == self.entries@.len(),
                k@ == key@,
                self.wf(),
                self == old(self),
                attr_val_wf(value),
                forall|j: int| 0 <= j < i ==> self.entries@[j].0@ != key@,
            decreases n - i,
        {
            if self.entries[i].0 == k {
                let ghost old_entries = self.entries;
                self.entries.set(i, (k, value));
                proof {
                    lemma_model_update(old_entries, self.entries, i as int, n as int);
                }
                return ;
            }
            i += 1;
        }
        let ghost old_entries = self.entries;
        self.entries.push((k, value));
        proof {
            assert(forall|j: int|
                0 <= j < old_entries@.len() ==> self.entries@[j] == old_entries@[j]);
            assert(keys_unique(self.entries, self.entries@.len() as int));
            lemma_model_push(old_entries, self.entries, n as int);
        }
    }

    /// Removes the binding for `key`, if any.
    pub fn remove(&mut self, key: &str)
        requires
            old(self).wf(),
        ensures
            final(self)@ =~= old(self)@.remove(key@),
            final(self).wf(),
    {
        let k = String::from_str(key);
        let n = self.entries.len();
        let mut i: usize = 0;
        while i < n
            invariant
                n == self.entries@.len(),
                k@ == key@,
                self.wf(),
                self == old(self),
                forall|j: int| 0 <= j < i ==> self.entries@[j].0@ != key@,
            decreases n - i,
        {
            if self.entries[i].0 == k {
                let ghost old_entries = self.entries;
                let _ = self.entries.remove(i);
                proof {
                    lemma_model_remove(old_entries, self.entries, i as int, n as int);
                }
                return ;
            }
            i += 1;
        }
        proof {
            lemma_entries_model(self.entries, self.entries@.len() as int);
            if self@.dom().contains(key@) {
                let j = choose|j: int|
                    0 <= j < self.entries@.len() && #[trigger] self.entries@[j].0@ == key@;
                assert(self.entries@[j].0@ != key@);
            }
            assert(self@ =~= old(self)@.remove(key@));
        }
    }

    /// Whether two maps bind the same keys to the same values.
    pub fn is_equal(&self, other: &AttrMap) -> (r: bool)
        requires
            self.wf(),
            other.wf(),
        ensures
            r == (self@ == other@),
    {
        attr_map_eq(self, other)
    }
}

impl Default for AttrMap {
    /// The empty map.
    fn default() -> (r: AttrMap)
        ensures
            r@ =~= Map::<Seq<char>, AttrValView>::empty(),
            r.kseq().len() == 0,
            r.wf(),
    {
        AttrMap::new()
    }
}

impl Clone for AttrMap {
    /// A copy that means the same map.
    fn clone(&self) -> (r: AttrMap)
        ensures
            r@ == self@,
            self.wf() ==> r.wf(),
        decreases self,
    {
        let n = self.entries.len();
        let mut entries: Vec<(String, AttrVal)> = Vec::new();
        let mut i: usize = 0;
        while i < n
            invariant
                n == self.entries@.len(),
                i <= n,
                entries@.len() == i,
                forall|j: int|
                    0 <= j < i ==> #[trigger] entries@[j].0@ == self.entries@[j].0@
                        && attr_val_model(entries@[j].1) == attr_val_model(self.entries@[j].1) && (
                    attr_val_wf(self.entries@[j].1) ==> attr_val_wf(entries@[j].1)),
            decreases n - i,
        {
            let e = &self.entries[i];
            let kc = e.0.clone();
            let vc = e.1.clone();
            entries.push((kc, vc));
            i += 1;
        }
        let r = AttrMap { entries };
        proof {
            lemma_model_congruent(r.entries, self.entries, n as int);
            if self.wf() {
                assert forall|x: int, y: int| 0 <= x < y < n implies r.entries@[x].0@
                    != r.entries@[y].0@ by {
                    assert(r.entries@[x].0@ == self.entries@[x].0@);
                    assert(r.entries@[y].0@ == self.entries@[y].0@);
                }
            }
        }
        r
    }
}

impl Clone for AttrVal {
    /// A copy that means the same value.
    fn clone(&self) -> (r: AttrVal)
        ensures
            r@ == self@,
            attr_val_wf(*self) ==> attr_val_wf(r),
        decreases self,
    {
        match self {
            AttrVal::Null => AttrVal::Null,
            AttrVal::Bool(b) => AttrVal::Bool(*b),
            AttrVal::Number(n) => AttrVal::Number(*n),
            AttrVal::String(s) => AttrVal::String(s.clone()),
            AttrVal::Object(m) => AttrVal::Object(m.clone()),
        }
    }
}

/// Two entry lists whose first `n` entries agree in key and value views
/// mean the same map.
proof fn lemma_model_congruent(a: Vec<(String, AttrVal)>, b: Vec<(String, AttrVal)>, n: int)
    requires
        0 <= n <= a.len(),
        n <= b.len(),
        forall|j: int|
            0 <= j < n ==> #[trigger] a[j].0@ == b[j].0@ && attr_val_model(a[j].1)
                == attr_val_model(b[j].1),
    ensures
        entries_model_upto(a, n) =~= entries_model_upto(b, n),
    decreases n,
{
    if n > 0 {
        lemma_model_congruent(a, b, n - 1);
    }
}

/// Replacing the entry that holds `key` replaces that key's binding in the
/// model and nothing else.
proof fn lemma_model_update(
    old_v: Vec<(String, AttrVal)>,
    new_v: Vec<(String, AttrVal)>,
    i: int,
    n: int,
)
    requires
        0 <= i < n <= old_v.len(),
        new_v@ == old_v@.update(i, new_v[i]),
        new_v[i].0@ == old_v[i].0@,
        keys_unique(old_v, n),
    ensures
        keys_unique(new_v, n),
        entries_model_upto(new_v, n) =~= entries_model_upto(old_v, n).insert(
            new_v[i].0@,
            attr_val_model(new_v[i].1),
        ),
    decreases n,
{
    assert(keys_unique(new_v, n));
    if i == n - 1 {
        lemma_model_congruent(new_v, old_v, n - 1);
    } else {
        lemma_model_update(old_v, new_v, i, n - 1);
        lemma_entries_model(old_v, n - 1);
        assert(new_v[n - 1] == old_v[n - 1]);
        assert(entries_model_upto(new_v, n) =~= entries_model_upto(old_v, n).insert(
            new_v[i].0@,
            attr_val_model(new_v[i].1),
        )) by {
            assert(new_v[i].0@ != old_v[n - 1].0@);
        }
    }
}

/// Appending an entry adds exactly that binding to the model.
proof fn lemma_model_push(old_v: Vec<(String, AttrVal)>, new_v: Vec<(String, AttrVal)>, n: int)
    requires
        0 <= n == old_v.len(),
        new_v@ == old_v@.push(new_v[n]),
    ensures
        entries_model_upto(new_v, n + 1) =~= entries_model_upto(old_v, n).insert(
            new_v[n].0@,
            attr_val_model(new_v[n].1),
        ),
{
    lemma_model_congruent(new_v, old_v, n);
}

/// Removing the only entry that holds `key` removes that key's binding
/// from the model and nothing else.
proof fn lemma_model_remove(
    old_v: Vec<(String, AttrVal)>,
    new_v: Vec<(String, AttrVal)>,
    i: int,
    n: int,
)
    requires
        0 <= i < n <= old_v.len(),
        new_v@ == old_v@.remove(i),
        keys_unique(old_v, n),
    ensures
        keys_unique(new_v, n - 1),
        entries_model_upto(new_v, n - 1) =~= entries_model_upto(old_v, n).remove(old_v[i].0@),
    decreases n,
{
    assert(keys_unique(new_v, n - 1));
    if i == n - 1 {
        lemma_model_congruent(new_v, old_v, n - 1);
        lemma_entries_model(old_v, n - 1);
        assert(!entries_model_upto(old_v, n - 1).dom().contains(old_v[i].0@));
    } else {
        lemma_model_remove(old_v, new_v, i, n - 1);
        lemma_entries_model(old_v, n);
        assert(new_v[n - 2] == old_v[n - 1]);
        assert(old_v[n - 1].0@ != old_v[i].0@);
    }
}

/// Whether two attribute values are the same value.  The answer means
/// view equality on well-formed values, which is every value this crate
/// hands out.
pub fn attr_val_eq(a: &AttrVal, b: &AttrVal) -> (r: bool)
    ensures
        attr_val_wf(*a) && attr_val_wf(*b) ==> r == (a@ == b@),
    decreases a,
{
    match (a, b) {
        (AttrVal::Null, AttrVal::Null) => true,
        (AttrVal::Bool(x), AttrVal::Bool(y)) => *x == *y,
        (AttrVal::Number(x), AttrVal::Number(y)) => *x == *y,
        (AttrVal::String(x), AttrVal::String(y)) => *x == *y,
        (AttrVal::Object(x), AttrVal::Object(y)) => attr_map_eq(x, y),
        _ => false,
    }
}

/// Whether two attribute maps bind the same keys to the same values; the
/// answer means map equality on well-formed maps.
pub fn attr_map_eq(a: &AttrMap, b: &AttrMap) -> (r: bool)
    ensures
        a.wf() && b.wf() ==> r == (a@ == b@),
    decreases a,
{
    let ghost wf = a.wf() && b.wf();
    proof {
        if wf {
            lemma_entries_model(a.entries, a.entries@.len() as int);
            lemma_entries_model(b.entries, b.entries@.len() as int);
        }
    }
    let n = a.entries.len();
    if n != b.entries.len() {
        proof {
            if wf && a@ == b@ {
                assert(a@.dom().len() == b@.dom().len());
            }
        }
        return false;
    }
    let mut i: usize = 0;
    while i < n
        invariant
            n == a.entries@.len(),
            n == b.entries@.len(),
            wf == (a.wf() && b.wf()),
            wf ==> forall|j: int|
                0 <= j < i ==> b@.dom().contains(#[trigger] a.entries@[j].0@) && b@[a.entries@[j].0@]
                    == attr_val_model(a.entries@[j].1),
        decreases n - i,
    {
        proof {
            if wf {
                lemma_entries_model(a.entries, a.entries@.len() as int);
            }
        }
        let key: &String = &a.entries[i].0;
        let found = match b.get_loose(key.as_str()) {
            None => {
                proof {
                    if wf && a@ == b@ {
                        assert(a@.dom().contains(a.entries@[i as int].0@));
                    }
                }
                return false;
            },
            Some(w) => attr_val_eq(&a.entries[i].1, w),
        };
        if !found {
            proof {
                if wf && a@ == b@ {
                    assert(a@[a.entries@[i as int].0@] == attr_val_model(a.entries@[i as int].1));
                }
            }
            return false;
        }
        i += 1;
    }
    proof {
        if wf {
            lemma_entries_model(a.entries, a.entries@.len() as int);
            lemma_entries_model(b.entries, b.entries@.len() as int);
            assert(a@.dom().subset_of(b@.dom())) by {
                assert forall|k: Seq<char>| a@.dom().contains(k) implies b@.dom().contains(k) by {
                    let j = choose|j: int| 0 <= j < n && #[trigger] a.entries@[j].0@ == k;
                    assert(b@.dom().contains(a.entries@[j].0@));
                }
            }
            lemma_subset_same_len(a@.dom(), b@.dom());
            assert(a@ =~= b@) by {
                assert forall|k: Seq<char>| a@.dom().contains(k) implies a@[k] == b@[k] by {
                    let j = choose|j: int| 0 <= j < n && #[trigger] a.entries@[j].0@ == k;
                    assert(a@[a.entries@[j].0@] == attr_val_model(a.entries@[j].1));
                    assert(b@[a.entries@[j].0@] == attr_val_model(a.entries@[j].1));
                }
            }
        }
    }
    true
}

impl AttrMap {
    /// As [`AttrMap::get`], but defined on any map; the answer is only
    /// related to the model when the map is well formed.
    fn get_loose(&self, key: &str) -> (r: Option<&AttrVal>)
        ensures
            self.wf() ==> match r {
                Some(v) => self@.dom().contains(key@) && v@ == self@[key@] && attr_val_wf(*v),
                None => !self@.dom().contains(key@),
            },
    {
        proof {
            if self.wf() {
                lemma_entries_model(self.entries, self.entries@.len() as int);
            }
        }
        let k = String::from_str(key);
        let n = self.entries.len();
        let mut i: usize = 0;
        while i < n
            invariant
                n == self.entries@.len(),
                k@ == key@,
                forall|j: int| 0 <= j < i ==> self.entries@[j].0@ != key@,
            decreases n - i,
        {
            if self.entries[i].0 == k {
                proof {
                    if self.wf() {
                        lemma_entries_model(self.entries, self.entries@.len() as int);
                        assert(self.entries@[i as int].0@ == key@);
                        assert(self@.dom().contains(self.entries@[i as int].0@));
                        assert(self@[self.entries@[i as int].0@] == attr_val_model(
                            self.entries@[i as int].1,
                        ));
                    }
                }
                return Some(&self.entries[i].1);
            }
            i += 1;
        }
        proof {
            if self.wf() && self@.dom().contains(key@) {
                let j = choose|j: int|
                    0 <= j < self.entries@.len() && #[trigger] self.entries@[j].0@ == key@;
                assert(self.entries@[j].0@ != key@);
            }
        }
        None
    }
}

impl AttrVal {
    /// The held string, or `GetValueWrongType` when the value holds
    /// another variant.
    pub fn str_val(&self) -> (r: Result<&str, crate::error::Error>)
        ensures
            match r {
                Ok(s) => self@ is Str && s@ == self@->Str_0,
                Err(e) => !(self@ is Str) && (e matches crate::error::Error::GetValueWrongType {
                    tpe,
                } && tpe@ == "string"@),
            },
    {
        if let AttrVal::String(s) = self {
            return Ok(s.as_str());
        }
        Err(crate::error::Error::GetValueWrongType { tpe: String::from_str("string") })
    }

    /// The held number, or `GetValueWrongType` when the value holds
    /// another variant.
    pub fn number_val(&self) -> (r: Result<usize, crate::error::Error>)
        ensures
            match r {
                Ok(n) => self@ == AttrValView::Number(n as nat),
                Err(e) => !(self@ is Number) && (e matches crate::error::Error::GetValueWrongType {
                    tpe,
                } && tpe@ == "number"@),
            },
    {
        if let AttrVal::Number(n) = self {
            return Ok(*n);
        }
        Err(crate::error::Error::GetValueWrongType { tpe: String::from_str("number") })
    }

    /// The held map, or `GetValueWrongType` when the value holds another
    /// variant.
    pub fn map_val(&self) -> (r: Result<&AttrMap, crate::error::Error>)
        ensures
            match r {
                Ok(m) => self@ is Object && m@ == self@->Object_0 && (attr_val_wf(*self)
                    ==> m.wf()),
                Err(e) => !(self@ is Object) && (e matches crate::error::Error::GetValueWrongType {
                    tpe,
                } && tpe@ == "map"@),
            },
    {
        if let AttrVal::Object(m) = self {
            return Ok(m);
        }
        Err(crate::error::Error::GetValueWrongType { tpe: String::from_str("map") })
    }

    /// The held boolean, or `GetValueWrongType` when the value holds
    /// another variant.
    pub fn bool_val(&self) -> (r: Result<bool, crate::error::Error>)
        ensures
            match r {
                Ok(b) => self@ == AttrValView::Bool(b),
                Err(e) => !(self@ is Bool) && (e matches crate::error::Error::GetValueWrongType {
                    tpe,
                } && tpe@ == "boolean"@),
            },
    {
        if let AttrVal::Bool(b) = self {
            return Ok(*b);
        }
        Err(crate::error::Error::GetValueWrongType { tpe: String::from_str("boolean") })
    }

    /// Whether the value holds a string.
    pub fn is_string(&self) -> (r: bool)
        ensures
            r == (self@ is Str),
    {
        matches!(self, AttrVal::String(_))
    }

    /// Whether the value holds a number.
    pub fn is_number(&self) -> (r: bool)
        ensures
            r == (self@ is Number),
    {
        matches!(self, AttrVal::Number(_))
    }

    /// Whether the value holds a boolean.
    pub fn is_bool(&self) -> (r: bool)
        ensures
            r == (self@ is Bool),
    {
        matches!(self, AttrVal::Bool(_))
    }

    /// Whether the value is the null tombstone.
    pub fn is_null(&self) -> (r: bool)
        ensures
            r == (self@ is Null),
    {
        matches!(self, AttrVal::Null)
    }

    /// Whether the value holds a nested map.
    pub fn is_map(&self) -> (r: bool)
        ensures
            r == (self@ is Object),
    {
        matches!(self, AttrVal::Object(_))
    }
}

impl PartialEq for AttrVal {
    /// Structural equality: equal tags and equal payloads, maps compared
    /// as maps.
    fn eq(&self, other: &AttrVal) -> (r: bool) {
        attr_val_eq(self, other)
    }
}

impl vstd::std_specs::cmp::PartialEqSpecImpl for AttrVal {
    open spec fn obeys_eq_spec() -> bool {
        false
    }

    open spec fn eq_spec(&self, other: &AttrVal) -> bool {
        self@ == other@
    }
}

impl PartialEq for AttrMap {
    /// Equality as maps: same keys bound to the same values.
    fn eq(&self, other: &AttrMap) -> (r: bool) {
        attr_map_eq(self, other)
    }
}

impl vstd::std_specs::cmp::PartialEqSpecImpl for AttrMap {
    open spec fn obeys_eq_spec() -> bool {
        false
    }

    open spec fn eq_spec(&self, other: &AttrMap) -> bool {
        self@ == other@
    }
}

} // verus!
