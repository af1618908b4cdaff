//! String-keyed association maps and sets: the shape of a node's
//! argument list, an operation's input and output maps, the evaluator's
//! caches, and the visiting set used for cycle detection.

use vstd::prelude::*;
use crate::json::str_eq;

verus! {

broadcast use
    vstd::set::group_set_axioms,
    vstd::set_lib::group_set_lib_default,
    vstd::seq_lib::group_seq_lib_default;

/// The map described by an entry list: later entries would win, but a
/// well-formed list has each key at most once.
pub open spec fn assoc_map<T>(s: Seq<(Seq<char>, T)>) -> Map<Seq<char>, T>
    decreases s,
{
    if s.len() == 0 {
        Map::empty()
    } else {
        assoc_map(s.subrange(0, s.len() - 1)).insert(s[s.len() - 1].0, s[s.len() - 1].1)
    }
}

/// Each key occurs at most once.
pub open spec fn unique_keys<T>(s: Seq<(Seq<char>, T)>) -> bool {
    forall|i: int, j: int| 0 <= i < j < s.len() ==> s[i].0 != s[j].0
}

/// A key is in the map exactly when some entry holds it.
pub proof fn lemma_assoc_contains<T>(s: Seq<(Seq<char>, T)>, k: Seq<char>)
    ensures
        assoc_map(s).contains_key(k) <==> exists|i: int| 0 <= i < s.len() && s[i].0 == k,
    decreases s,
{
    if s.len() > 0 {
        lemma_assoc_contains(s.subrange(0, s.len() - 1), k);
        if assoc_map(s).contains_key(k) {
            if k == s[s.len() - 1].0 {
            } else {
                let i = choose|i: int|
                    0 <= i < s.len() - 1 && #[trigger] s.subrange(0, s.len() - 1)[i].0 == k;
                assert(s[i].0 == k);
            }
        }
        if exists|i: int| 0 <= i < s.len() && s[i].0 == k {
            let i = choose|i: int| 0 <= i < s.len() && s[i].0 == k;
            if i < s.len() - 1 {
                assert(s.subrange(0, s.len() - 1)[i].0 == k);
            }
        }
    }
}

/// With unique keys, the entry holding a key gives the map's value.
pub proof fn lemma_assoc_index<T>(s: Seq<(Seq<char>, T)>, i: int)
    requires
        unique_keys(s),
        0 <= i < s.len(),
    ensures
        assoc_map(s).contains_key(s[i].0),
        assoc_map(s)[s[i].0] == s[i].1,
    decreases s,
{
    if i == s.len() - 1 {
    } else {
        lemma_assoc_index(s.subrange(0, s.len() - 1), i);
        assert(s.subrange(0, s.len() - 1)[i] == s[i]);
    }
}

/// The map's domain is finite and, with unique keys, as large as the list.
pub proof fn lemma_assoc_dom<T>(s: Seq<(Seq<char>, T)>)
    ensures
        assoc_map(s).dom().finite(),
        unique_keys(s) ==> assoc_map(s).dom().len() == s.len(),
    decreases s,
{
    if s.len() > 0 {
        let rest = s.subrange(0, s.len() - 1);
        lemma_assoc_dom(rest);
        assert(assoc_map(s).dom() =~= assoc_map(rest).dom().insert(s[s.len() - 1].0));
        if unique_keys(s) {
            assert(unique_keys(rest));
            lemma_assoc_contains(rest, s[s.len() - 1].0);
            assert(forall|i: int|
                0 <= i < rest.len() ==> rest[i].0 == s[i].0 && s[i].0 != s[s.len() - 1].0);
        }
    }
}

/// An association map from string keys to values; keys are unique.
#[derive(Debug)]
pub struct Dict<V> {
    entries: Vec<(String, V)>,
}

impl<V: View> Dict<V> {
    /// The entry list, keys and values abstracted, in stored order.
    pub closed spec fn seq_view(&self) -> Seq<(Seq<char>, V::V)> {
        Seq::new(self.entries@.len(), |i: int| (self.entries@[i].0@, self.entries@[i].1@))
    }

    /// Each key occurs at most once.
    pub open spec fn wf(&self) -> bool {
        unique_keys(self.seq_view())
    }

    /// An empty map.
    pub fn new() -> (d: Dict<V>)
        ensures
            d@ == Map::<Seq<char>, V::V>::empty(),
            d.seq_view() == Seq::<(Seq<char>, V::V)>::empty(),
            d.wf(),
    {
        let d = Dict { entries: Vec::new() };
        proof {
            assert(d.seq_view() =~= Seq::<(Seq<char>, V::V)>::empty());
        }
        d
    }

    /// How many entries the map holds.
    pub fn len(&self) -> (n: usize)
        ensures
            n == self.seq_view().len(),
    {
        self.entries.len()
    }

    /// The key of the entry at position `i`.
    pub fn key_at(&self, i: usize) -> (k: &String)
        requires
            i < self.seq_view().len(),
        ensures
            k@ == self.seq_view()[i as int].0,
    {
        &self.entries[i].0
    }

    /// The value of the entry at position `i`.
    pub fn val_at(&self, i: usize) -> (v: &V)
        requires
            i < self.seq_view().len(),
        ensures
            v@ == self.seq_view()[i as int].1,
    {
        &self.entries[i].1
    }

    /// Looks a key up.
    pub fn get(&self, k: &str) -> (r: Option<&V>)
        requires
            self.wf(),
        ensures
            match r {
                Some(v) => self@.contains_key(k@) && v@ == self@[k@],
                None => !self@.contains_key(k@),
            },
    {
        let mut i: usize = 0;
        while i < self.entries.len()
            invariant
                self.wf(),
                i <= self.entries.len(),
                forall|j: int| 0 <= j < i ==> self.seq_view()[j].0 != k@,
            decreases self.entries.len() - i,
        {
            if str_eq(self.entries[i].0.as_str(), k) {
                proof {
                    lemma_assoc_index(self.seq_view(), i as int);
                }
                return Some(&self.entries[i].1);
            }
            i = i + 1;
        }
        proof {
            lemma_assoc_contains(self.seq_view(), k@);
        }
        None
    }

    /// Binds a key to a value, replacing any previous binding.
    pub fn insert(&mut self, k: String, v: V)
        requires
            old(self).wf(),
        ensures
            final(self).wf(),
            final(self)@ == old(self)@.insert(k@, v@),
            final(self).seq_view().len() <= old(self).seq_view().len() + 1,
            forall|i: int|
                0 <= i < final(self).seq_view().len() ==> final(self).seq_view()[i].1 == v@
                    || exists|j: int|
                    0 <= j < old(self).seq_view().len() && old(self).seq_view()[j]
                        == final(self).seq_view()[i],
    {
        let ghost old_seq = self.seq_view();
        let mut i: usize = 0;
        let mut found: bool = false;
        while i < self.entries.len() && !found
            invariant
                self == old(self),
                i <= self.entries.len(),
                !found ==> forall|j: int| 0 <= j < i ==> self.seq_view()[j].0 != k@,
                found ==> i < self.entries.len() && self.seq_view()[i as int].0 == k@,
            decreases self.entries.len() - i + (if found { 0int } else { 1int }),
        {
            if str_eq(self.entries[i].0.as_str(), k.as_str()) {
                found = true;
            } else {
                i = i + 1;
            }
        }
        if found {
            let _ = self.entries.remove(i);
            proof {
                assert(self.seq_view() =~= old_seq.subrange(0, i as int) + old_seq.subrange(
                    i + 1,
                    old_seq.len() as int,
                ));
                lemma_assoc_remove_insert(old_seq, i as int, v@);
            }
        }
        let ghost mid_seq = self.seq_view();
        proof {
            assert(forall|j: int| 0 <= j < mid_seq.len() ==> mid_seq[j].0 != k@);
            assert(unique_keys(mid_seq));
            assert(assoc_map(mid_seq).insert(k@, v@) == assoc_map(old_seq).insert(k@, v@));
        }
        self.entries.push((k, v));
        proof {
            let new_seq = self.seq_view();
            assert(new_seq =~= mid_seq.push((k@, v@)));
            assert(new_seq.subrange(0, new_seq.len() - 1) =~= mid_seq);
            assert(assoc_map(new_seq) == assoc_map(mid_seq).insert(k@, v@));
            assert(unique_keys(new_seq)) by {
                assert(forall|a: int| 0 <= a < new_seq.len() - 1 ==> new_seq[a] == mid_seq[a]);
            }
            assert(forall|i2: int| 0 <= i2 < mid_seq.len() ==> exists|j: int|
                0 <= j < old_seq.len() && old_seq[j] == #[trigger] mid_seq[i2]);
        }
    }

    /// The keys, in stored order.
    pub fn keys(&self) -> (ks: Vec<String>)
        ensures
            ks@.len() == self.seq_view().len(),
            forall|i: int| 0 <= i < ks@.len() ==> ks@[i]@ == self.seq_view()[i].0,
    {
        let mut ks: Vec<String> = Vec::new();
        let mut i: usize = 0;
        while i < self.entries.len()
            invariant
                i <= self.entries.len(),
                ks@.len() == i,
                forall|j: int| 0 <= j < i ==> ks@[j]@ == self.seq_view()[j].0,
            decreases self.entries.len() - i,
        {
            ks.push(self.entries[i].0.as_str().to_owned());
            i = i + 1;
        }
        ks
    }
}

/// Removing the one entry that holds a key, then binding the key
/// afresh, builds the same map as binding it over the original list.
pub proof fn lemma_assoc_remove_insert<T>(s: Seq<(Seq<char>, T)>, i: int, v: T)
    requires
        unique_keys(s),
        0 <= i < s.len(),
    ensures
        assoc_map(s.subrange(0, i) + s.subrange(i + 1, s.len() as int)).insert(s[i].0, v)
            == assoc_map(s).insert(s[i].0, v),
        unique_keys(s.subrange(0, i) + s.subrange(i + 1, s.len() as int)),
{
    let t = s.subrange(0, i) + s.subrange(i + 1, s.len() as int);
    let k = s[i].0;
    assert(forall|j: int| 0 <= j < i ==> t[j] == s[j]);
    assert(forall|j: int| i <= j < t.len() ==> t[j] == s[j + 1]);
    assert(unique_keys(t));
    let m1 = assoc_map(t).insert(k, v);
    let m2 = assoc_map(s).insert(k, v);
    assert forall|k2: Seq<char>| m1.contains_key(k2) <==> m2.contains_key(k2) by {
        lemma_assoc_contains(t, k2);
        lemma_assoc_contains(s, k2);
        if k2 != k {
            if exists|j: int| 0 <= j < t.len() && t[j].0 == k2 {
                let j = choose|j: int| 0 <= j < t.len() && t[j].0 == k2;
                assert(if j < i {
                    s[j].0 == k2
                } else {
                    s[j + 1].0 == k2
                });
            }
            if exists|j: int| 0 <= j < s.len() && s[j].0 == k2 {
                let j = choose|j: int| 0 <= j < s.len() && s[j].0 == k2;
                assert(j != i);
                assert(if j < i {
                    t[j].0 == k2
                } else {
                    t[j - 1].0 == k2
                });
            }
        }
    }
    assert forall|k2: Seq<char>| #[trigger] m1.contains_key(k2) implies m1[k2] == m2[k2] by {
        if k2 != k {
            lemma_assoc_contains(t, k2);
            let j = choose|j: int| 0 <= j < t.len() && t[j].0 == k2;
            lemma_assoc_index(t, j);
            let j2: int = if j < i {
                j
            } else {
                j + 1
            };
            assert(s[j2] == t[j]);
            lemma_assoc_index(s, j2);
        }
    }
    assert(m1 =~= m2);
}

impl<V: View> View for Dict<V> {
    type V = Map<Seq<char>, V::V>;

    open spec fn view(&self) -> Map<Seq<char>, V::V> {
        assoc_map(self.seq_view())
    }
}

/// The set holding exactly the strings of a list.
pub open spec fn set_of(s: Seq<Seq<char>>) -> Set<Seq<char>>
    decreases s,
{
    if s.len() == 0 {
        Set::empty()
    } else {
        set_of(s.subrange(0, s.len() - 1)).insert(s[s.len() - 1])
    }
}

/// A string is in the set exactly when the list holds it.
pub proof fn lemma_set_of_contains(s: Seq<Seq<char>>, k: Seq<char>)
    ensures
        set_of(s).contains(k) <==> exists|i: int| 0 <= i < s.len() && s[i] == k,
        set_of(s).finite(),
    decreases s,
{
    if s.len() > 0 {
        lemma_set_of_contains(s.subrange(0, s.len() - 1), k);
        if exists|i: int| 0 <= i < s.len() && s[i] == k {
            let i = choose|i: int| 0 <= i < s.len() && s[i] == k;
            if i < s.len() - 1 {
                assert(s.subrange(0, s.len() - 1)[i] == k);
            }
        }
        if set_of(s).contains(k) && k != s[s.len() - 1] {
            let i = choose|i: int|
                0 <= i < s.len() - 1 && #[trigger] s.subrange(0, s.len() - 1)[i] == k;
            assert(s[i] == k);
        }
    }
}

/// The node identifiers on the current resolution stack.
pub struct VisitSet {
    ids: Vec<String>,
}

impl VisitSet {
    /// The identifiers, in stack order.
    pub closed spec fn seq_view(&self) -> Seq<Seq<char>> {
        Seq::new(self.ids@.len(), |i: int| self.ids@[i]@)
    }

    /// No identifier appears twice.
    pub open spec fn wf(&self) -> bool {
        forall|i: int, j: int| 0 <= i < j < self.seq_view().len() ==> self.seq_view()[i]
            != self.seq_view()[j]
    }

    /// An empty set.
    pub fn new() -> (v: VisitSet)
        ensures
            v@ == Set::<Seq<char>>::empty(),
            v.wf(),
    {
        let v = VisitSet { ids: Vec::new() };
        proof {
            assert(v.seq_view() =~= Seq::<Seq<char>>::empty());
        }
        v
    }

    /// Whether an identifier is in the set.
    pub fn contains(&self, k: &str) -> (r: bool)
        ensures
            r == self@.contains(k@),
    {
        let mut i: usize = 0;
        while i < self.ids.len()
            invariant
                i <= self.ids.len(),
                forall|j: int| 0 <= j < i ==> self.seq_view()[j] != k@,
            decreases self.ids.len() - i,
        {
            if str_eq(self.ids[i].as_str(), k) {
                proof {
                    lemma_set_of_contains(self.seq_view(), k@);
                    assert(self.seq_view()[i as int] == k@);
                }
                return true;
            }
            i = i + 1;
        }
        proof {
            lemma_set_of_contains(self.seq_view(), k@);
        }
        false
    }

    /// Adds an identifier that is not yet in the set.
    pub fn insert(&mut self, k: String)
        requires
            old(self).wf(),
            !old(self)@.contains(k@),
        ensures
            final(self).wf(),
            final(self)@ == old(self)@.insert(k@),
    {
        proof {
            lemma_set_of_contains(old(self).seq_view(), k@);
        }
        let ghost old_seq = self.seq_view();
        self.ids.push(k);
        proof {
            let new_seq = self.seq_view();
            assert(new_seq =~= old_seq.push(k@));
            assert(new_seq.subrange(0, new_seq.len() - 1) =~= old_seq);
            assert(forall|i: int| 0 <= i < old_seq.len() ==> old_seq[i] != k@);
            assert(forall|a: int| 0 <= a < new_seq.len() - 1 ==> new_seq[a] == old_seq[a]);
        }
    }

    /// Drops an identifier from the set, if present.
    pub fn remove(&mut self, k: &str)
        requires
            old(self).wf(),
        ensures
            final(self).wf(),
            final(self)@ == old(self)@.remove(k@),
    {
        let ghost old_seq = self.seq_view();
        let mut i: usize = 0;
        while i < self.ids.len()
            invariant
                self == old(self),
                old(self).wf(),
                old_seq == old(self).seq_view(),
                i <= self.ids.len(),
                forall|j: int| 0 <= j < i ==> self.seq_view()[j] != k@,
            decreases self.ids.len() - i,
        {
            if str_eq(self.ids[i].as_str(), k) {
                proof {
                    assert(old_seq[i as int] == k@);
                }
                let _ = self.ids.remove(i);
                proof {
                    let new_seq = self.seq_view();
                    assert(old_seq.len() == old(self).ids@.len());
                    assert(forall|j: int|
                        0 <= j < old_seq.len() ==> old_seq[j] == old(self).ids@[j]@);
                    assert(self.ids@ == old(self).ids@.remove(i as int));
                    assert(old(self).ids@.remove(i as int) =~= old(self).ids@.subrange(0, i as int)
                        + old(self).ids@.subrange(i + 1, old(self).ids@.len() as int));
                    assert(forall|j: int| 0 <= j < i ==> self.ids@[j] == old(self).ids@[j]);
                    assert(forall|j: int|
                        i <= j < self.ids@.len() ==> self.ids@[j] == old(self).ids@[j + 1]);
                    assert forall|j: int| 0 <= j < i implies new_seq[j] == old_seq[j] by {
                        assert(self.ids@[j] == old(self).ids@[j]);
                        assert(new_seq[j] == self.ids@[j]@);
                        assert(old_seq[j] == old(self).ids@[j]@);
                    }
                    assert forall|j: int| i <= j < new_seq.len() implies new_seq[j] == old_seq[j
                        + 1] by {
                        assert(self.ids@[j] == old(self).ids@[j + 1]);
                        assert(new_seq[j] == self.ids@[j]@);
                        assert(old_seq[j + 1] == old(self).ids@[j + 1]@);
                    }
                    assert(final(self).wf());
                    assert forall|k2: Seq<char>|
                        set_of(new_seq).contains(k2) <==> old(self)@.remove(k@).contains(k2) by {
                        lemma_set_of_contains(new_seq, k2);
                        lemma_set_of_contains(old_seq, k2);
                        if k2 != k@ {
                            if exists|j: int| 0 <= j < new_seq.len() && new_seq[j] == k2 {
                                let j = choose|j: int|
                                    0 <= j < new_seq.len() && new_seq[j] == k2;
                                assert(if j < i {
                                    old_seq[j] == k2
                                } else {
                                    old_seq[j + 1] == k2
                                });
                            }
                            if exists|j: int| 0 <= j < old_seq.len() && old_seq[j] == k2 {
                                let j = choose|j: int|
                                    0 <= j < old_seq.len() && old_seq[j] == k2;
                                assert(j != i);
                                assert(if j < i {
                                    new_seq[j] == k2
                                } else {
                                    new_seq[j - 1] == k2
                                });
                            }
                        } else {
                            assert(forall|j: int|
                                0 <= j < old_seq.len() && j != i ==> old_seq[j] != k@);
                        }
                    }
                    assert(set_of(new_seq) =~= old(self)@.remove(k@));
                }
                return ;
            }
            i = i + 1;
        }
        proof {
            lemma_set_of_contains(old_seq, k@);
            assert(!old(self)@.contains(k@));
            assert(final(self)@ =~= old(self)@.remove(k@));
        }
    }
}

impl View for VisitSet {
    type V = Set<Seq<char>>;

    open spec fn view(&self) -> Set<Seq<char>> {
        set_of(self.seq_view())
    }
}

} // verus!
