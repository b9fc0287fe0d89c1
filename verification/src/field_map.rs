//! Maps from names to values that keep the order of insertion.

use indexmap::IndexMap;
use std::hash::RandomState;

use vstd::prelude::*;

verus! {

/// Declares `indexmap::IndexMap`.
#[verifier::external_type_specification]
#[verifier::external_body]
#[verifier::reject_recursive_types(K)]
#[verifier::reject_recursive_types(V)]
#[verifier::reject_recursive_types(S)]
pub struct ExIndexMap<K, V, S>(IndexMap<K, V, S>);

/// What an index map holds: its names with their numbers, in the order of the map.
pub uninterp spec fn index_contents(m: IndexMap<String, usize, RandomState>) -> Seq<(Seq<char>, usize)>;

/// The name occurs.
pub open spec fn has_name<T>(s: Seq<(Seq<char>, T)>, name: Seq<char>) -> bool {
    exists|i: int| 0 <= i < s.len() && (#[trigger] s[i]).0 == name
}

/// Where a name occurs.
pub open spec fn position_of<T>(s: Seq<(Seq<char>, T)>, name: Seq<char>) -> int {
    choose|i: int| 0 <= i < s.len() && (#[trigger] s[i]).0 == name
}

/// The fields after a value has been entered under a name: in the place of the name, or last if
/// it is new.
pub open spec fn entered<T>(s: Seq<(Seq<char>, T)>, name: Seq<char>, value: T) -> Seq<(Seq<char>, T)> {
    if has_name(s, name) {
        s.update(position_of(s, name), (name, value))
    } else {
        s.push((name, value))
    }
}

/// The value under a name.
pub open spec fn value_under<T>(s: Seq<(Seq<char>, T)>, name: Seq<char>) -> Option<T> {
    if has_name(s, name) {
        Some(s[position_of(s, name)].1)
    } else {
        None
    }
}

/// No name occurs twice.
pub open spec fn names_distinct<T>(s: Seq<(Seq<char>, T)>) -> bool {
    forall|i: int, j: int| 0 <= i < j < s.len() ==> (#[trigger] s[i]).0 != (#[trigger] s[j]).0
}

/// `IndexMap::new`: a map that holds nothing.
#[verifier::external_body]
fn index_new() -> (m: IndexMap<String, usize, RandomState>)
    ensures
        index_contents(m).len() == 0,
{
    IndexMap::new()
}

/// `IndexMap::insert`: the value takes the place of the one under an equal name, which keeps its
/// place; a new name comes last.
#[verifier::external_body]
fn index_insert(m: &mut IndexMap<String, usize, RandomState>, name: String, value: usize)
    ensures
        index_contents(*final(m)) == entered(index_contents(*old(m)), name@, value),
{
    m.insert(name, value);
}

/// `IndexMap::get`: the value under a name.
#[verifier::external_body]
fn index_get(m: &IndexMap<String, usize, RandomState>, name: &str) -> (r: Option<usize>)
    ensures
        r == value_under(index_contents(*m), name@),
{
    m.get(name).copied()
}

/// `IndexMap::get_index`: the name at a position, if there is one.
#[verifier::external_body]
fn index_name(m: &IndexMap<String, usize, RandomState>, i: usize) -> (r: Option<&String>)
    ensures
        r is Some <==> i < index_contents(*m).len(),
        r is Some ==> r->0@ == index_contents(*m)[i as int].0,
{
    m.get_index(i).map(|e| e.0)
}

/// A map from names to values that keeps the order of insertion.
pub struct FieldMap<V> {
    index: IndexMap<String, usize, RandomState>,
    values: Vec<V>,
}

/// A map is modelled by its names with their values, in order.
impl<V> View for FieldMap<V> {
    type V = Seq<(Seq<char>, V)>;

    closed spec fn view(&self) -> Seq<(Seq<char>, V)> {
        Seq::new(self.values@.len(), |i: int| (index_contents(self.index)[i].0, self.values@[i]))
    }
}

impl<V> FieldMap<V> {
    /// The map is well formed: each name stands for one value, and no name occurs twice.
    pub closed spec fn wf(&self) -> bool {
        let c = index_contents(self.index);
        &&& c.len() == self.values@.len()
        &&& forall|i: int| 0 <= i < c.len() ==> (#[trigger] c[i]).1 == i
        &&& names_distinct(c)
    }

    /// In a well-formed map no name occurs twice.
    pub proof fn lemma_names_distinct(&self)
        requires
            self.wf(),
        ensures
            names_distinct(self@),
    {
        let c = index_contents(self.index);
        assert forall|i: int, j: int| 0 <= i < j < self@.len() implies (#[trigger] self@[i]).0 != (
        #[trigger] self@[j]).0 by {
            assert(self@[i].0 == c[i].0 && self@[j].0 == c[j].0);
        }
    }

    /// A map that holds nothing.
    pub fn new() -> (m: Self)
        ensures
            m.wf(),
            m@ == Seq::<(Seq<char>, V)>::empty(),
    {
        let m = FieldMap { index: index_new(), values: Vec::new() };
        assert(m@ =~= Seq::<(Seq<char>, V)>::empty());
        m
    }

    /// Enters a value under a name: in the place of the name, or last if it is new.
    pub fn insert(&mut self, name: String, value: V)
        requires
            old(self).wf(),
        ensures
            final(self).wf(),
            final(self)@ == entered(old(self)@, name@, value),
    {
        let ghost before = self@;
        let ghost c = index_contents(self.index);
        let ghost n = name@;
        match index_get(&self.index, name.as_str()) {
            Some(at) => {
                proof {
                    let i = position_of(c, n);
                    assert(at == c[i].1 && at == i);
                    assert(before[i].0 == n);
                    assert(has_name(before, n));
                    let j = position_of(before, n);
                    assert(before[j].0 == c[j].0);
                    if i != j {
                        assert(c[i].0 != c[j].0);
                    }
                }
                self.values.set(at, value);
                assert(self@ =~= entered(before, n, value));
            },
            None => {
                proof {
                    if has_name(before, n) {
                        let j = position_of(before, n);
                        assert(c[j].0 == n);
                    }
                }
                let at: usize = self.values.len();
                index_insert(&mut self.index, name, at);
                self.values.push(value);
                proof {
                    let d = index_contents(self.index);
                    assert(d == c.push((n, at)));
                    assert forall|i: int, j: int| 0 <= i < j < d.len() implies (#[trigger] d[i]).0 != (
                    #[trigger] d[j]).0 by {
                        if j == c.len() {
                            assert(d[i] == c[i]);
                        }
                    }
                    assert(self@ =~= entered(before, n, value));
                }
            },
        }
    }

    /// The value under a name.
    pub fn get(&self, name: &str) -> (r: Option<&V>)
        requires
            self.wf(),
        ensures
            r is Some <==> has_name(self@, name@),
            r matches Some(v) ==> value_under(self@, name@) == Some(*v),
    {
        let ghost c = index_contents(self.index);
        match index_get(&self.index, name) {
            Some(at) => {
                proof {
                    let i = position_of(c, name@);
                    assert(c[i].1 == i);
                    assert(self@[i].0 == name@);
                    let j = position_of(self@, name@);
                    assert(self@[j].0 == c[j].0);
                    if i != j {
                        assert(c[i].0 != c[j].0);
                    }
                }
                Some(&self.values[at])
            },
            None => {
                proof {
                    if has_name(self@, name@) {
                        let j = position_of(self@, name@);
                        assert(c[j].0 == name@);
                    }
                }
                None
            },
        }
    }

    /// Where a name stands.
    pub fn position(&self, name: &str) -> (r: Option<usize>)
        requires
            self.wf(),
        ensures
            r is Some <==> has_name(self@, name@),
            r matches Some(i) ==> i < self@.len() && i == position_of(self@, name@) && self@[i as int].0 == name@,
    {
        let ghost c = index_contents(self.index);
        let r = index_get(&self.index, name);
        proof {
            if has_name(c, name@) {
                let i = position_of(c, name@);
                assert(c[i].1 == i);
                assert(self@[i].0 == name@);
                let j = position_of(self@, name@);
                assert(self@[j].0 == c[j].0);
                if i != j {
                    assert(c[i].0 != c[j].0);
                }
            } else if has_name(self@, name@) {
                let j = position_of(self@, name@);
                assert(c[j].0 == name@);
            }
        }
        r
    }

    /// Puts a value in the place of another one, and hands that one out.
    pub fn replace_at(&mut self, i: usize, value: V) -> (before: V)
        requires
            old(self).wf(),
            i < old(self)@.len(),
        ensures
            final(self).wf(),
            before == old(self)@[i as int].1,
            final(self)@ == old(self)@.update(i as int, (old(self)@[i as int].0, value)),
    {
        let ghost all = self@;
        let ghost last = self.values@.len();
        self.values.push(value);
        let before = self.values.swap_remove(i);
        assert(self@ =~= all.update(i as int, (all[i as int].0, value)));
        before
    }

    /// The number of names.
    pub fn len(&self) -> (n: usize)
        ensures
            n == self@.len(),
    {
        self.values.len()
    }

    /// The name at a position.
    pub fn name_at(&self, i: usize) -> (name: String)
        requires
            self.wf(),
            i < self@.len(),
        ensures
            name@ == self@[i as int].0,
    {
        match index_name(&self.index, i) {
            Some(name) => name.clone(),
            None => String::new(),
        }
    }

    /// The value at a position.
    pub fn value_at(&self, i: usize) -> (v: &V)
        requires
            i < self@.len(),
        ensures
            *v == self@[i as int].1,
    {
        &self.values[i]
    }
}

/// Entering a value under a name makes it the value under that name, and changes nothing under
/// other names.
pub proof fn law_entered_value_is_found<T>(s: Seq<(Seq<char>, T)>, name: Seq<char>, value: T, other: Seq<char>)
    requires
        names_distinct(s),
    ensures
        names_distinct(entered(s, name, value)),
        value_under(entered(s, name, value), name) == Some(value),
        other != name ==> value_under(entered(s, name, value), other) == value_under(s, other),
{
    let t = entered(s, name, value);
    let at = if has_name(s, name) {
        position_of(s, name)
    } else {
        s.len() as int
    };
    assert(t[at] == (name, value));
    assert forall|i: int, j: int| 0 <= i < j < t.len() implies (#[trigger] t[i]).0 != (#[trigger] t[j]).0 by {
        if i < s.len() && j < s.len() {
            assert(t[i].0 == s[i].0 && t[j].0 == s[j].0);
        } else {
            assert(t[i].0 == s[i].0);
        }
    }
    assert(has_name(t, name));
    let p = position_of(t, name);
    if p < at {
        assert(t[p].0 != t[at].0);
    } else if at < p {
        assert(t[at].0 != t[p].0);
    }
    if other != name {
        if has_name(s, other) {
            let i = position_of(s, other);
            assert(t[i] == s[i]);
            assert(has_name(t, other));
            let k = position_of(t, other);
            if k < i {
                assert(t[k].0 != t[i].0);
            } else if i < k {
                assert(t[i].0 != t[k].0);
            }
        } else if has_name(t, other) {
            let k = position_of(t, other);
            assert(s[k].0 == other);
        }
    }
}

} // verus!
