//! A map from strings to values that keeps its keys in the order in which
//! they were first inserted.

use vstd::prelude::*;

verus! {

/// The contents of a `StrMap`: its keys in insertion order, and the value of
/// each key at the same position.
#[verifier::ext_equal]
pub struct StrMapView<W> {
    pub keys: Seq<Seq<char>>,
    pub vals: Seq<W>,
}

impl<W> StrMapView<W> {
    /// The map is well formed: one value per key, and no key twice.
    pub open spec fn wf(self) -> bool {
        self.keys.len() == self.vals.len() && self.keys.no_duplicates()
    }

    /// The empty map.
    pub open spec fn empty() -> Self {
        StrMapView { keys: Seq::empty(), vals: Seq::empty() }
    }

    pub open spec fn has(self, k: Seq<char>) -> bool {
        self.keys.contains(k)
    }

    /// The position of the key `k` (meaningful where the map has it).
    pub open spec fn pos(self, k: Seq<char>) -> int {
        self.keys.index_of(k)
    }

    /// The value of the key `k`, if the map has it.
    pub open spec fn get(self, k: Seq<char>) -> Option<W> {
        if self.has(k) {
            Some(self.vals[self.pos(k)])
        } else {
            None
        }
    }

    /// The map with the new key `k` added last, with the value `w`.
    pub open spec fn add(self, k: Seq<char>, w: W) -> Self {
        StrMapView { keys: self.keys.push(k), vals: self.vals.push(w) }
    }

    /// The map with the value at position `i` replaced by `w`.
    pub open spec fn set(self, i: int, w: W) -> Self {
        StrMapView { keys: self.keys, vals: self.vals.update(i, w) }
    }
}

/// In a well-formed map, the position of a key is the one place where it is.
pub proof fn lemma_pos<W>(m: StrMapView<W>, i: int)
    requires
        m.wf(),
        0 <= i < m.keys.len(),
    ensures
        m.has(m.keys[i]),
        m.pos(m.keys[i]) == i,
        m.get(m.keys[i]) == Some(m.vals[i]),
{
    assert(m.keys.contains(m.keys[i]));
    let j = m.pos(m.keys[i]);
    assert(0 <= j < m.keys.len() && m.keys[j] == m.keys[i]);
}

/// Adding a new key keeps the map well formed, and every other key's value.
pub proof fn lemma_add<W>(m: StrMapView<W>, k: Seq<char>, w: W)
    requires
        m.wf(),
        !m.has(k),
    ensures
        m.add(k, w).wf(),
        m.add(k, w).get(k) == Some(w),
        forall|k2: Seq<char>| k2 != k ==> m.add(k, w).get(k2) == #[trigger] m.get(k2),
{
    let m2 = m.add(k, w);
    assert forall|i: int, j: int|
        0 <= i < m2.keys.len() && 0 <= j < m2.keys.len() && i != j implies m2.keys[i]
        != m2.keys[j] by {
        if i == m.keys.len() {
            assert(m.keys[j] == m2.keys[j]);
        } else if j == m.keys.len() {
            assert(m.keys[i] == m2.keys[i]);
        }
    }
    lemma_pos(m2, m.keys.len() as int);
    assert forall|k2: Seq<char>| k2 != k implies m2.get(k2) == #[trigger] m.get(k2) by {
        if m.has(k2) {
            let i = m.pos(k2);
            lemma_pos(m, i);
            lemma_pos(m2, i);
        } else {
            assert(!m2.has(k2));
        }
    }
}

/// Replacing a value keeps the map well formed and changes only that key's value.
pub proof fn lemma_set<W>(m: StrMapView<W>, i: int, w: W)
    requires
        m.wf(),
        0 <= i < m.keys.len(),
    ensures
        m.set(i, w).wf(),
        m.set(i, w).get(m.keys[i]) == Some(w),
        forall|k2: Seq<char>| k2 != m.keys[i] ==> m.set(i, w).get(k2) == #[trigger] m.get(k2),
{
    let m2 = m.set(i, w);
    lemma_pos(m2, i);
    assert forall|k2: Seq<char>| k2 != m.keys[i] implies m2.get(k2) == #[trigger] m.get(k2) by {
        if m.has(k2) {
            let j = m.pos(k2);
            lemma_pos(m, j);
            lemma_pos(m2, j);
        }
    }
}

/// A map keyed by strings, in the order in which the keys came.
pub struct StrMap<V> {
    keys: Vec<String>,
    vals: Vec<V>,
}

impl<V: DeepView> View for StrMap<V> {
    type V = StrMapView<V::V>;

    closed spec fn view(&self) -> StrMapView<V::V> {
        StrMapView { keys: self.keys.deep_view(), vals: self.vals.deep_view() }
    }
}

impl<V: DeepView> StrMap<V> {
    proof fn lemma_lens(&self)
        ensures
            self@.keys.len() == self.keys@.len(),
            self@.vals.len() == self.vals@.len(),
            forall|i: int| 0 <= i < self.keys@.len() ==> #[trigger] self@.keys[i] == self.keys@[i]@,
            forall|i: int| 0 <= i < self.vals@.len() ==> #[trigger] self@.vals[i] == self.vals@[i].deep_view(),
    {
    }

    /// The empty map.
    pub fn new() -> (m: Self)
        ensures
            m@ == StrMapView::<V::V>::empty(),
            m@.wf(),
    {
        let m = StrMap { keys: Vec::new(), vals: Vec::new() };
        assert(m@ =~= StrMapView::<V::V>::empty());
        m
    }

    /// The number of keys.
    pub fn len(&self) -> (n: usize)
        requires
            self@.wf(),
        ensures
            n == self@.keys.len(),
    {
        proof { self.lemma_lens(); }
        self.keys.len()
    }

    /// The position of the key `k`, if the map has it.
    pub fn find(&self, k: &String) -> (r: Option<usize>)
        requires
            self@.wf(),
        ensures
            match r {
                Some(i) => i < self@.keys.len() && self@.keys[i as int] == k@ && self@.pos(k@) == i,
                None => !self@.has(k@),
            },
    {
        proof { self.lemma_lens(); }
        let mut i: usize = 0;
        while i < self.keys.len()
            invariant
                i <= self.keys@.len(),
                self@.wf(),
                self@.keys.len() == self.keys@.len(),
                forall|j: int| 0 <= j < self.keys@.len() ==> #[trigger] self@.keys[j] == self.keys@[j]@,
                forall|j: int| 0 <= j < i ==> self@.keys[j] != k@,
            decreases self.keys@.len() - i,
        {
            if self.keys[i] == *k {
                proof { lemma_pos(self@, i as int); }
                return Some(i);
            }
            i += 1;
        }
        assert(!self@.keys.contains(k@));
        None
    }

    /// The key at position `i`.
    pub fn key_at(&self, i: usize) -> (k: &String)
        requires
            self@.wf(),
            i < self@.keys.len(),
        ensures
            k@ == self@.keys[i as int],
    {
        proof { self.lemma_lens(); }
        &self.keys[i]
    }

    /// The value at position `i`.
    pub fn value_at(&self, i: usize) -> (v: &V)
        requires
            self@.wf(),
            i < self@.keys.len(),
        ensures
            v.deep_view() == self@.vals[i as int],
    {
        proof { self.lemma_lens(); }
        &self.vals[i]
    }

    /// The value of the key `k`, if the map has it.
    pub fn get(&self, k: &String) -> (v: Option<&V>)
        requires
            self@.wf(),
        ensures
            match v {
                Some(v) => self@.get(k@) == Some(v.deep_view()),
                None => self@.get(k@) is None,
            },
    {
        match self.find(k) {
            Some(i) => Some(self.value_at(i)),
            None => None,
        }
    }

    /// Adds the new key `k` last, with the value `v`.
    pub fn push(&mut self, k: String, v: V)
        requires
            old(self)@.wf(),
            !old(self)@.has(k@),
        ensures
            final(self)@ == old(self)@.add(k@, v.deep_view()),
            final(self)@.wf(),
    {
        proof {
            self.lemma_lens();
            lemma_add(self@, k@, v.deep_view());
        }
        let ghost kv = k@;
        let ghost vv = v.deep_view();
        self.keys.push(k);
        self.vals.push(v);
        assert(self@ =~= old(self)@.add(kv, vv));
    }

    /// Replaces the value at position `i` with `v`.
    pub fn set_value(&mut self, i: usize, v: V)
        requires
            old(self)@.wf(),
            i < old(self)@.keys.len(),
        ensures
            final(self)@ == old(self)@.set(i as int, v.deep_view()),
            final(self)@.wf(),
    {
        proof {
            self.lemma_lens();
            lemma_set(self@, i as int, v.deep_view());
        }
        let ghost vv = v.deep_view();
        self.vals.set(i, v);
        assert(self@ =~= old(self)@.set(i as int, vv));
    }
}


impl<T: DeepView> StrMap<Vec<T>> {
    /// Appends `x` to the list that is the value at position `i`.
    pub fn push_to(&mut self, i: usize, x: T)
        requires
            old(self)@.wf(),
            i < old(self)@.keys.len(),
        ensures
            final(self)@ == old(self)@.set(i as int, old(self)@.vals[i as int].push(x.deep_view())),
            final(self)@.wf(),
    {
        proof {
            self.lemma_lens();
            lemma_set(self@, i as int, self@.vals[i as int].push(x.deep_view()));
        }
        let ghost xv = x.deep_view();
        let ghost before = self.vals@[i as int];
        self.vals[i].push(x);
        assert(self.vals@[i as int].deep_view() =~= before.deep_view().push(xv));
        assert(self@ =~= old(self)@.set(i as int, old(self)@.vals[i as int].push(xv)));
    }
}

} // verus!
