//! A map from qualified names to values, kept in the order of the names.

use vstd::prelude::*;

use crate::names;
use crate::names::{NameView, QualifiedTypeName};

verus! {

/// Values by qualified name, in the order of the names.
#[derive(Debug, PartialEq, Eq)]
pub struct NameTable<V> {
    entries: Vec<(QualifiedTypeName, V)>,
}

/// Whether `k` is the first name of `domain`, in the order of names, of which `holds` is true.
pub open spec fn is_first(
    domain: Set<NameView>,
    holds: spec_fn(NameView) -> bool,
    k: NameView,
) -> bool {
    &&& domain.contains(k)
    &&& holds(k)
    &&& forall|other: NameView|
        #[trigger] domain.contains(other) && holds(other) ==> other == k || names::name_before(
            k,
            other,
        )
}

/// The first name is unique.
pub proof fn lemma_first_is_unique(
    domain: Set<NameView>,
    holds: spec_fn(NameView) -> bool,
    a: NameView,
    b: NameView,
)
    requires
        is_first(domain, holds, a),
        is_first(domain, holds, b),
    ensures
        a == b,
{
    if a != b {
        names::lemma_name_transitive(a, b, a);
        names::lemma_name_irreflexive(a);
    }
}

/// A set of names that is not empty has a first one.
pub proof fn lemma_first_exists(
    domain: Set<NameView>,
    holds: spec_fn(NameView) -> bool,
    k: NameView,
)
    requires
        domain.finite(),
        domain.contains(k),
        holds(k),
    ensures
        exists|f: NameView| is_first(domain, holds, f),
    decreases domain.len(),
{
    let rest = domain.remove(k);
    if exists|other: NameView| #[trigger] rest.contains(other) && holds(other) {
        let other = choose|other: NameView| #[trigger] rest.contains(other) && holds(other);
        lemma_first_exists(rest, holds, other);
        let f = choose|f: NameView| is_first(rest, holds, f);
        names::lemma_name_total(f, k);
        if names::name_before(f, k) {
            assert(is_first(domain, holds, f));
        } else {
            assert forall|other: NameView| #[trigger]
                domain.contains(other) && holds(other) implies other == k || names::name_before(
                k,
                other,
            ) by {
                if other != k && other != f {
                    assert(rest.contains(other));
                    names::lemma_name_transitive(k, f, other);
                }
            }
            assert(is_first(domain, holds, k));
        }
    } else {
        assert forall|other: NameView| #[trigger]
            domain.contains(other) && holds(other) implies other == k by {
            if other != k {
                assert(rest.contains(other));
            }
        }
        assert(is_first(domain, holds, k));
    }
}

impl<V: View> NameTable<V> {
    /// The names of the table, in order.
    pub closed spec fn names(self) -> Seq<NameView> {
        self.entries@.map_values(|e: (QualifiedTypeName, V)| e.0@)
    }

    /// The values of the table, in the order of their names.
    pub closed spec fn values(self) -> Seq<V> {
        self.entries@.map_values(|e: (QualifiedTypeName, V)| e.1)
    }

    /// The names stand in strictly increasing order.
    pub open spec fn wf(self) -> bool {
        &&& self.names().len() == self.values().len()
        &&& forall|i: int, j: int|
            0 <= i < j < self.names().len() ==> names::name_before(
                #[trigger] self.names()[i],
                #[trigger] self.names()[j],
            )
    }
}

impl<V: View> View for NameTable<V> {
    type V = Map<NameView, V::V>;

    open spec fn view(&self) -> Map<NameView, V::V> {
        Map::new(
            |k: NameView| self.names().contains(k),
            |k: NameView| self.values()[self.names().index_of(k)]@,
        )
    }
}

impl<V: View> NameTable<V> {
    /// An entry of a well-formed table is found under its name, and nowhere else.
    pub proof fn lemma_entry(self, i: int)
        requires
            self.wf(),
            0 <= i < self.names().len(),
        ensures
            self.names().index_of(self.names()[i]) == i,
            self@.contains_key(self.names()[i]),
            self@[self.names()[i]] == self.values()[i]@,
    {
        let k = self.names()[i];
        assert(self.names().contains(k));
        let j = self.names().index_of(k);
        assert(0 <= j < self.names().len() && self.names()[j] == k);
        if j != i {
            names::lemma_name_irreflexive(k);
        }
    }

    /// The names of a table are finitely many.
    pub proof fn lemma_finite(self)
        ensures
            self@.dom().finite(),
    {
        assert(self@.dom() =~= self.names().to_set());
        vstd::seq_lib::seq_to_set_is_finite(self.names());
    }

    /// The entry before which `holds` is true of no name is the first one.
    pub proof fn lemma_first_entry(self, holds: spec_fn(NameView) -> bool, i: int)
        requires
            self.wf(),
            0 <= i < self.names().len(),
            holds(self.names()[i]),
            forall|j: int| 0 <= j < i ==> !holds(#[trigger] self.names()[j]),
        ensures
            is_first(self@.dom(), holds, self.names()[i]),
    {
        let k = self.names()[i];
        self.lemma_entry(i);
        assert forall|other: NameView| #[trigger]
            self@.dom().contains(other) && holds(other) implies other == k || names::name_before(
            k,
            other,
        ) by {
            let at = self.names().index_of(other);
            assert(self.names()[at] == other);
        }
    }

    /// There is no first name where `holds` is true of none.
    pub proof fn lemma_no_first(self, holds: spec_fn(NameView) -> bool)
        requires
            self.wf(),
            forall|j: int| 0 <= j < self.names().len() ==> !holds(#[trigger] self.names()[j]),
        ensures
            forall|k: NameView| !is_first(self@.dom(), holds, k),
    {
        assert forall|k: NameView| !is_first(self@.dom(), holds, k) by {
            if self@.dom().contains(k) {
                let at = self.names().index_of(k);
                assert(self.names()[at] == k);
            }
        }
    }

    /// A name that falls between two neighbours is not in the table.
    proof fn lemma_absent(self, at: int, k: NameView)
        requires
            self.wf(),
            0 <= at <= self.names().len(),
            forall|j: int| 0 <= j < at ==> names::name_before(#[trigger] self.names()[j], k),
            at < self.names().len() ==> self.names()[at] != k && !names::name_before(
                self.names()[at],
                k,
            ),
        ensures
            !self@.contains_key(k),
            forall|j: int|
                at <= j < self.names().len() ==> names::name_before(k, #[trigger] self.names()[j]),
    {
        assert forall|j: int| at <= j < self.names().len() implies names::name_before(
            k,
            #[trigger] self.names()[j],
        ) by {
            names::lemma_name_total(self.names()[at], k);
            if j > at {
                names::lemma_name_transitive(k, self.names()[at], self.names()[j]);
            }
        }
        if self.names().contains(k) {
            let j = self.names().index_of(k);
            names::lemma_name_irreflexive(k);
            assert(self.names()[j] == k);
        }
    }

    /// `after` differs from this table in the value at one position alone, which is `v` there.
    spec fn replaced(self, after: Self, at: int, v: V) -> bool {
        &&& after.entries@.len() == self.entries@.len()
        &&& after.entries@[at].0 == self.entries@[at].0
        &&& after.entries@[at].1 == v
        &&& forall|j: int|
            0 <= j < self.entries@.len() && j != at ==> after.entries@[j] == self.entries@[j]
    }

    /// Replacing the value at one position changes the map at that name alone.
    proof fn lemma_replaced(self, after: Self, at: int, v: V)
        requires
            self.wf(),
            0 <= at < self.names().len(),
            self.replaced(after, at, v),
        ensures
            after.wf(),
            after@ == self@.insert(self.names()[at], v@),
    {
        assert(after.names() =~= self.names());
        assert(after.values() =~= self.values().update(at, v));
        self.lemma_entry(at);
        assert forall|n: NameView| #[trigger]
            self@.contains_key(n) && n != self.names()[at] implies after@[n] == self@[n] by {
            self.lemma_entry(self.names().index_of(n));
        }
        assert(after@ =~= self@.insert(self.names()[at], v@));
    }

    pub fn new() -> (r: Self)
        ensures
            r.wf(),
            r@ == Map::<NameView, V::V>::empty(),
            r.names().len() == 0,
    {
        let r = NameTable { entries: Vec::new() };
        assert(r@ =~= Map::<NameView, V::V>::empty());
        r
    }

    pub fn len(&self) -> (r: usize)
        requires
            self.wf(),
        ensures
            r == self.names().len(),
    {
        self.entries.len()
    }

    /// The name at position `i`.
    pub fn name_at(&self, i: usize) -> (r: &QualifiedTypeName)
        requires
            self.wf(),
            i < self.names().len(),
        ensures
            r@ == self.names()[i as int],
            self@.contains_key(r@),
    {
        proof {
            self.lemma_entry(i as int);
        }
        &self.entries[i].0
    }

    /// The value at position `i`.
    pub fn value_at(&self, i: usize) -> (r: &V)
        requires
            self.wf(),
            i < self.names().len(),
        ensures
            *r == self.values()[i as int],
            r@ == self@[self.names()[i as int]],
    {
        proof {
            self.lemma_entry(i as int);
        }
        &self.entries[i].1
    }

    /// The position of the first name that does not come before `k`.
    fn position(&self, k: &QualifiedTypeName) -> (r: usize)
        requires
            self.wf(),
        ensures
            r <= self.names().len(),
            forall|j: int| 0 <= j < r ==> names::name_before(#[trigger] self.names()[j], k@),
            r < self.names().len() ==> !names::name_before(self.names()[r as int], k@),
    {
        let mut low: usize = 0;
        let mut high: usize = self.entries.len();
        while low < high
            invariant
                self.wf(),
                low <= high <= self.entries@.len(),
                self.names().len() == self.entries@.len(),
                forall|j: int| 0 <= j < low ==> names::name_before(#[trigger] self.names()[j], k@),
                high < self.names().len() ==> !names::name_before(self.names()[high as int], k@),
            decreases high - low,
        {
            let middle: usize = low + (high - low) / 2;
            assert(self.names()[middle as int] == self.entries@[middle as int].0@);
            if self.entries[middle].0.is_before(k) {
                assert forall|j: int| 0 <= j < middle + 1 implies names::name_before(
                    #[trigger] self.names()[j],
                    k@,
                ) by {
                    if j < middle {
                        names::lemma_name_transitive(
                            self.names()[j],
                            self.names()[middle as int],
                            k@,
                        );
                    }
                }
                low = middle + 1;
            } else {
                high = middle;
            }
        }
        low
    }

    /// The position of `k`, if the table holds it.
    fn find(&self, k: &QualifiedTypeName) -> (r: Option<usize>)
        requires
            self.wf(),
        ensures
            match r {
                Some(i) => i < self.names().len() && self.names()[i as int] == k@
                    && self@.contains_key(k@) && self@[k@] == self.values()[i as int]@,
                None => !self@.contains_key(k@),
            },
    {
        let at = self.position(k);
        if at < self.entries.len() && self.entries[at].0.same_as(k) {
            proof {
                self.lemma_entry(at as int);
            }
            Some(at)
        } else {
            proof {
                self.lemma_absent(at as int, k@);
            }
            None
        }
    }

    pub fn contains(&self, k: &QualifiedTypeName) -> (r: bool)
        requires
            self.wf(),
        ensures
            r == self@.contains_key(k@),
    {
        match self.find(k) {
            Some(_) => true,
            None => false,
        }
    }

    pub fn get(&self, k: &QualifiedTypeName) -> (r: Option<&V>)
        requires
            self.wf(),
        ensures
            match r {
                Some(v) => self@.contains_key(k@) && self@[k@] == v@,
                None => !self@.contains_key(k@),
            },
    {
        match self.find(k) {
            Some(at) => Some(&self.entries[at].1),
            None => None,
        }
    }

    /// Puts `v` under `k`, in place of what stood there.
    pub fn insert(&mut self, k: QualifiedTypeName, v: V)
        requires
            old(self).wf(),
        ensures
            final(self).wf(),
            final(self)@ == old(self)@.insert(k@, v@),
    {
        let ghost before = *self;
        let ghost key = k@;
        let ghost value = v@;
        let at = self.position(&k);
        if at < self.entries.len() && self.entries[at].0.same_as(&k) {
            self.entries[at] = (k, v);
            proof {
                assert(self.names() =~= before.names());
                assert(self.values() =~= before.values().update(at as int, v));
                before.lemma_entry(at as int);
                assert forall|n: NameView| #[trigger] before@.contains_key(n) && n != key implies
                    self@[n] == before@[n] by {
                    before.lemma_entry(before.names().index_of(n));
                }
                assert(self@ =~= before@.insert(key, value));
            }
        } else {
            proof {
                before.lemma_absent(at as int, key);
            }
            self.entries.insert(at, (k, v));
            proof {
                assert(self.names() =~= before.names().insert(at as int, key));
                assert(self.values() =~= before.values().insert(at as int, v));
                assert(self.wf()) by {
                    assert forall|i: int, j: int|
                        0 <= i < j < self.names().len() implies names::name_before(
                        #[trigger] self.names()[i],
                        #[trigger] self.names()[j],
                    ) by {
                        let pi = if i < at { i } else { i - 1 };
                        let pj = if j < at { j } else { j - 1 };
                        if i != at {
                            assert(self.names()[i] == before.names()[pi]);
                        }
                        if j != at {
                            assert(self.names()[j] == before.names()[pj]);
                        }
                    }
                }
                self.lemma_entry(at as int);
                assert forall|n: NameView| #[trigger] before@.contains_key(n) implies
                    self@.contains_key(n) && self@[n] == before@[n] by {
                    let p = before.names().index_of(n);
                    before.lemma_entry(p);
                    self.lemma_entry(if p < at { p } else { p + 1 });
                }
                assert forall|n: NameView| #[trigger] self@.contains_key(n) && n != key implies
                    before@.contains_key(n) by {
                    let p = self.names().index_of(n);
                    assert(self.names()[p] == n);
                    before.lemma_entry(if p < at { p } else { p - 1 });
                }
                assert(self@ =~= before@.insert(key, value));
            }
        }
    }

    /// Takes the value under `k` out of the table.
    pub fn remove(&mut self, k: &QualifiedTypeName) -> (r: Option<V>)
        requires
            old(self).wf(),
        ensures
            final(self).wf(),
            final(self)@ == old(self)@.remove(k@),
            match r {
                Some(v) => old(self)@.contains_key(k@) && old(self)@[k@] == v@,
                None => !old(self)@.contains_key(k@),
            },
    {
        let ghost before = *self;
        match self.find(k) {
            None => {
                assert(before@.remove(k@) =~= before@);
                None
            },
            Some(at) => {
                let entry = self.entries.remove(at);
                proof {
                    assert(self.names() =~= before.names().remove(at as int));
                    assert(self.values() =~= before.values().remove(at as int));
                    assert(self.wf()) by {
                        assert forall|i: int, j: int|
                            0 <= i < j < self.names().len() implies names::name_before(
                            #[trigger] self.names()[i],
                            #[trigger] self.names()[j],
                        ) by {
                            let pi = if i < at { i } else { i + 1 };
                            let pj = if j < at { j } else { j + 1 };
                            assert(self.names()[i] == before.names()[pi]);
                            assert(self.names()[j] == before.names()[pj]);
                        }
                    }
                    assert forall|n: NameView| #[trigger] before@.contains_key(n) && n != k@ implies
                        self@.contains_key(n) && self@[n] == before@[n] by {
                        let p = before.names().index_of(n);
                        before.lemma_entry(p);
                        self.lemma_entry(if p < at { p } else { p - 1 });
                    }
                    assert forall|n: NameView| #[trigger] self@.contains_key(n) implies
                        before@.contains_key(n) && n != k@ by {
                        let p = self.names().index_of(n);
                        assert(self.names()[p] == n);
                        let q = if p < at { p } else { p + 1 };
                        before.lemma_entry(q);
                        before.lemma_entry(at as int);
                    }
                    assert(self@ =~= before@.remove(k@));
                }
                Some(entry.1)
            },
        }
    }

    /// The value at position `at`, to be changed in place.
    fn slot(&mut self, at: usize) -> (r: &mut V)
        requires
            at < old(self).entries@.len(),
        ensures
            *r == old(self).entries@[at as int].1,
            old(self).replaced(*final(self), at as int, *final(r)),
    {
        &mut self.entries[at].1
    }

    /// The value under `k`, to be changed in place.
    pub fn get_mut(&mut self, k: &QualifiedTypeName) -> (r: Option<&mut V>)
        requires
            old(self).wf(),
        ensures
            match r {
                Some(v) => old(self)@.contains_key(k@) && old(self)@[k@] == v@ && final(self).wf()
                    && final(self)@ == old(self)@.insert(k@, (*final(v))@),
                None => !old(self)@.contains_key(k@) && *final(self) == *old(self),
            },
    {
        match self.find(k) {
            None => None,
            Some(at) => {
                proof {
                    let before = *self;
                    assert(before.values()[at as int] == before.entries@[at as int].1);
                    assert forall|after: NameTable<V>, v: V| #[trigger]
                        before.replaced(after, at as int, v) implies after.wf() && after@ == before@.insert(k@, v@) by {
                        before.lemma_replaced(after, at as int, v);
                    }
                }
                Some(self.slot(at))
            },
        }
    }
}

} // verus!
