//! The attribute list of a start tag: a mapping from names to values with
//! unique names, kept in the order in which the names first appeared.

use vstd::prelude::*;

verus! {

/// The character contents of a list of name/value pairs.
pub open spec fn pairs_view(s: Seq<(String, String)>) -> Seq<(Seq<char>, Seq<char>)> {
    Seq::new(s.len(), |i: int| (s[i].0@, s[i].1@))
}

/// The mapping that a list of pairs denotes: pairs are bound from left to
/// right, so of two pairs with one name the later one counts.
pub open spec fn map_of(s: Seq<(Seq<char>, Seq<char>)>) -> Map<Seq<char>, Seq<char>>
    decreases s.len(),
{
    if s.len() == 0 {
        Map::empty()
    } else {
        map_of(s.drop_last()).insert(s.last().0, s.last().1)
    }
}

/// No name occurs twice in the list.
pub open spec fn distinct_names(s: Seq<(Seq<char>, Seq<char>)>) -> bool {
    forall|i: int, j: int| 0 <= i < j < s.len() ==> (#[trigger] s[i]).0 != (#[trigger] s[j]).0
}

/// A name is bound in `map_of(s)` exactly if some pair carries it, and the
/// last pair that carries it gives its value.
proof fn lemma_map_of_names(s: Seq<(Seq<char>, Seq<char>)>)
    ensures
        forall|k: Seq<char>|
            map_of(s).contains_key(k) <==> exists|i: int| 0 <= i < s.len() && (#[trigger] s[i]).0 == k,
        forall|i: int|
            0 <= i < s.len() && (forall|j: int| i < j < s.len() ==> (#[trigger] s[j]).0 != s[i].0)
                ==> map_of(s)[(#[trigger] s[i]).0] == s[i].1,
    decreases s.len(),
{
    if s.len() > 0 {
        let front = s.drop_last();
        lemma_map_of_names(front);
        assert(map_of(s) == map_of(front).insert(s.last().0, s.last().1));
        assert forall|k: Seq<char>| map_of(s).contains_key(k) <==> exists|i: int|
            0 <= i < s.len() && (#[trigger] s[i]).0 == k by {
            if map_of(s).contains_key(k) {
                if k == s.last().0 {
                    assert(s[s.len() - 1].0 == k);
                } else {
                    assert(map_of(front).contains_key(k));
                    let i = choose|i: int| 0 <= i < front.len() && (#[trigger] front[i]).0 == k;
                    assert(s[i].0 == k);
                }
            }
            if exists|i: int| 0 <= i < s.len() && (#[trigger] s[i]).0 == k {
                let i = choose|i: int| 0 <= i < s.len() && (#[trigger] s[i]).0 == k;
                if i < s.len() - 1 {
                    assert(front[i].0 == k);
                }
            }
        }
        assert forall|i: int|
            0 <= i < s.len() && (forall|j: int|
                i < j < s.len() ==> (#[trigger] s[j]).0 != s[i].0) implies map_of(s)[(#[trigger] s[i]).0]
            == s[i].1 by {
            if i < s.len() - 1 {
                assert(s[s.len() - 1].0 != s[i].0);
                assert(front[i] == s[i]);
                assert forall|j: int| i < j < front.len() implies (#[trigger] front[j]).0
                    != front[i].0 by {
                    assert(s[j].0 != s[i].0);
                }
            }
        }
    }
}

/// Rebinding a name that a list without repeated names already carries can
/// be done in place.
proof fn lemma_map_of_update(s: Seq<(Seq<char>, Seq<char>)>, i: int, value: Seq<char>)
    requires
        distinct_names(s),
        0 <= i < s.len(),
    ensures
        distinct_names(s.update(i, (s[i].0, value))),
        map_of(s.update(i, (s[i].0, value))) == map_of(s).insert(s[i].0, value),
{
    let t = s.update(i, (s[i].0, value));
    assert forall|a: int, b: int| 0 <= a < b < t.len() implies (#[trigger] t[a]).0 != (
    #[trigger] t[b]).0 by {
        assert(s[a].0 != s[b].0);
    }
    lemma_map_of_names(s);
    lemma_map_of_names(t);
    let target = map_of(s).insert(s[i].0, value);
    assert forall|k: Seq<char>| map_of(t).contains_key(k) <==> target.contains_key(k) by {
        if map_of(t).contains_key(k) {
            let j = choose|j: int| 0 <= j < t.len() && (#[trigger] t[j]).0 == k;
            assert(s[j].0 == k);
        }
        if target.contains_key(k) && k != s[i].0 {
            let j = choose|j: int| 0 <= j < s.len() && (#[trigger] s[j]).0 == k;
            assert(t[j].0 == k);
        }
        if k == s[i].0 {
            assert(t[i].0 == k);
        }
    }
    assert forall|k: Seq<char>| map_of(t).contains_key(k) implies map_of(t)[k] == target[k] by {
        let j = choose|j: int| 0 <= j < t.len() && (#[trigger] t[j]).0 == k;
        assert forall|l: int| j < l < t.len() implies (#[trigger] t[l]).0 != t[j].0 by {
            assert(t[j].0 != t[l].0);
        }
        assert(map_of(t)[t[j].0] == t[j].1);
        if j != i {
            assert(s[j].0 != s[i].0) by {
                if j < i {
                    assert(s[j].0 != s[i].0);
                } else {
                    assert(s[i].0 != s[j].0);
                }
            }
            assert forall|l: int| j < l < s.len() implies (#[trigger] s[l]).0 != s[j].0 by {
                assert(s[j].0 != s[l].0);
            }
            assert(map_of(s)[s[j].0] == s[j].1);
        }
    }
    assert(map_of(t) =~= target);
}

/// A mapping from attribute names to attribute values.
#[derive(Debug)]
pub struct Attributes {
    entries: Vec<(String, String)>,
}

impl View for Attributes {
    type V = Map<Seq<char>, Seq<char>>;

    closed spec fn view(&self) -> Map<Seq<char>, Seq<char>> {
        map_of(pairs_view(self.entries@))
    }
}

impl Attributes {
    #[verifier::type_invariant]
    spec fn names_are_unique(&self) -> bool {
        distinct_names(pairs_view(self.entries@))
    }

    /// The empty mapping.
    pub fn new() -> (attrs: Attributes)
        ensures
            attrs@ == Map::<Seq<char>, Seq<char>>::empty(),
    {
        Attributes { entries: Vec::new() }
    }

    /// The position of the pair that carries `name`, if there is one.
    fn position(&self, name: &String) -> (at: Option<usize>)
        ensures
            match at {
                Some(i) => i < self.entries@.len() && self.entries@[i as int].0@ == name@,
                None => forall|i: int|
                    0 <= i < self.entries@.len() ==> (#[trigger] self.entries@[i]).0@ != name@,
            },
    {
        let mut i: usize = 0;
        while i < self.entries.len()
            invariant
                i <= self.entries@.len(),
                forall|j: int| 0 <= j < i ==> (#[trigger] self.entries@[j]).0@ != name@,
            decreases self.entries@.len() - i,
        {
            if self.entries[i].0 == *name {
                return Some(i);
            }
            i += 1;
        }
        None
    }

    /// Binds `name` to `value`; an earlier binding of `name` is replaced.
    pub fn insert(&mut self, name: String, value: String)
        ensures
            final(self)@ == old(self)@.insert(name@, value@),
    {
        proof {
            use_type_invariant(&*self);
        }
        let found = self.position(&name);
        let mut entries: Vec<(String, String)> = Vec::new();
        core::mem::swap(&mut self.entries, &mut entries);
        let ghost before = pairs_view(entries@);
        match found {
            Some(i) => {
                entries[i].1 = value;
                proof {
                    lemma_map_of_update(before, i as int, value@);
                    assert(pairs_view(entries@) =~= before.update(i as int, (before[i as int].0, value@)));
                }
            },
            None => {
                entries.push((name, value));
                proof {
                    let after = pairs_view(entries@);
                    assert(after.drop_last() =~= before);
                    assert forall|a: int, b: int| 0 <= a < b < after.len() implies (
                    #[trigger] after[a]).0 != (#[trigger] after[b]).0 by {
                        if b < before.len() {
                            assert(before[a].0 != before[b].0);
                        } else {
                            assert(before[a].0 == old(self).entries@[a].0@);
                        }
                    }
                }
            },
        }
        self.entries = entries;
    }

    /// The value bound to `name`, if any.
    pub fn get(&self, name: &String) -> (value: Option<&String>)
        ensures
            match value {
                Some(v) => self@.contains_key(name@) && self@[name@] == v@,
                None => !self@.contains_key(name@),
            },
    {
        proof {
            use_type_invariant(self);
            lemma_map_of_names(pairs_view(self.entries@));
        }
        match self.position(name) {
            Some(i) => {
                proof {
                    let s = pairs_view(self.entries@);
                    assert(s[i as int].0 == name@);
                    assert forall|j: int| i < j < s.len() implies (#[trigger] s[j]).0 != s[i as int].0 by {
                        assert(s[i as int].0 != s[j].0);
                    }
                }
                Some(&self.entries[i].1)
            },
            None => {
                proof {
                    let s = pairs_view(self.entries@);
                    assert forall|i: int| 0 <= i < s.len() implies (#[trigger] s[i]).0 != name@ by {
                        assert(self.entries@[i].0@ != name@);
                    }
                }
                None
            },
        }
    }

    /// Whether `name` is bound.
    pub fn contains_key(&self, name: &String) -> (found: bool)
        ensures
            found == self@.contains_key(name@),
    {
        self.get(name).is_some()
    }
}

impl Clone for Attributes {
    fn clone(&self) -> (copy: Attributes)
        ensures
            copy@ == self@,
    {
        proof {
            use_type_invariant(self);
        }
        let mut entries: Vec<(String, String)> = Vec::new();
        let mut i: usize = 0;
        while i < self.entries.len()
            invariant
                i <= self.entries@.len(),
                entries@.len() == i,
                forall|j: int| 0 <= j < i ==> #[trigger] entries@[j] == self.entries@[j],
            decreases self.entries@.len() - i,
        {
            entries.push((self.entries[i].0.clone(), self.entries[i].1.clone()));
            i += 1;
        }
        proof {
            assert(entries@ =~= self.entries@);
        }
        Attributes { entries }
    }
}

} // verus!
