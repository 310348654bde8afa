//! A category: a named store of key/value data.

use vstd::prelude::*;
use crate::value::{top_level_copy, Value};
use vstd::std_specs::cmp::PartialEqSpec;

verus! {

/// No two members share a key.
pub open spec fn keys_unique(s: Seq<(String, Value)>) -> bool {
    forall|i: int, j: int|
        0 <= i < s.len() && 0 <= j < s.len() && i != j ==> #[trigger] s[i].0@ != #[trigger] s[j].0@
}

/// The mapping that a member list with unique keys stands for.
pub open spec fn members_map(s: Seq<(String, Value)>) -> Map<Seq<char>, Value>
    decreases s.len(),
{
    if s.len() == 0 {
        Map::empty()
    } else {
        members_map(s.drop_last()).insert(s.last().0@, s.last().1)
    }
}

/// Each member is in the mapping, and the mapping holds nothing else.
pub proof fn lemma_members_map(s: Seq<(String, Value)>)
    requires
        keys_unique(s),
    ensures
        forall|i: int| 0 <= i < s.len() ==> #[trigger] members_map(s).contains_key(s[i].0@)
            && members_map(s)[s[i].0@] == s[i].1,
        forall|k: Seq<char>| #[trigger] members_map(s).contains_key(k) ==> exists|i: int|
            0 <= i < s.len() && s[i].0@ == k,
    decreases s.len(),
{
    if s.len() > 0 {
        let t = s.drop_last();
        assert(keys_unique(t));
        lemma_members_map(t);
        assert forall|i: int| 0 <= i < s.len() implies #[trigger] members_map(s).contains_key(s[i].0@)
            && members_map(s)[s[i].0@] == s[i].1 by {
            if i < s.len() - 1 {
                assert(t[i] == s[i]);
                assert(members_map(t).contains_key(t[i].0@));
                assert(s[i].0@ != s[s.len() - 1].0@);
            }
        }
        assert forall|k: Seq<char>| #[trigger] members_map(s).contains_key(k) implies exists|i: int|
            0 <= i < s.len() && s[i].0@ == k by {
            if k != s.last().0@ {
                assert(members_map(t).contains_key(k));
                let j = choose|j: int| 0 <= j < t.len() && t[j].0@ == k;
                assert(s[j] == t[j]);
            } else {
                assert(s[s.len() - 1].0@ == k);
            }
        }
    }
}

/// A member list with unique keys has as many members as its mapping has keys.
proof fn lemma_members_map_len(s: Seq<(String, Value)>)
    requires
        keys_unique(s),
    ensures
        members_map(s).len() == s.len(),
        members_map(s).dom().finite(),
    decreases s.len(),
{
    if s.len() > 0 {
        let t = s.drop_last();
        assert(keys_unique(t));
        lemma_members_map_len(t);
        lemma_members_map(t);
        if members_map(t).contains_key(s.last().0@) {
            let j = choose|j: int| 0 <= j < t.len() && t[j].0@ == s.last().0@;
            assert(s[j] == t[j]);
        }
    }
}

/// Two member lists with unique keys and the same members stand for the same mapping.
proof fn lemma_members_map_by_members(s: Seq<(String, Value)>, m: Map<Seq<char>, Value>)
    requires
        keys_unique(s),
        forall|i: int| 0 <= i < s.len() ==> #[trigger] m.contains_key(s[i].0@) && m[s[i].0@] == s[i].1,
        forall|k: Seq<char>| #[trigger] m.contains_key(k) ==> exists|i: int| 0 <= i < s.len() && s[i].0@ == k,
    ensures
        members_map(s) == m,
{
    lemma_members_map(s);
    assert forall|k: Seq<char>| #[trigger] members_map(s).contains_key(k) <==> m.contains_key(k) by {
        if m.contains_key(k) {
            let i = choose|i: int| 0 <= i < s.len() && s[i].0@ == k;
            assert(members_map(s).contains_key(s[i].0@));
        }
        if members_map(s).contains_key(k) {
            let i = choose|i: int| 0 <= i < s.len() && s[i].0@ == k;
            assert(m.contains_key(s[i].0@));
        }
    }
    assert forall|k: Seq<char>| #[trigger] members_map(s).contains_key(k) implies members_map(s)[k] == m[k] by {
        let i = choose|i: int| 0 <= i < s.len() && s[i].0@ == k;
        assert(members_map(s)[s[i].0@] == s[i].1);
    }
    assert(members_map(s) =~= m);
}

/// What a category is: its name and its data.
pub ghost struct CategoryView {
    pub name: Seq<char>,
    pub data: Map<Seq<char>, Value>,
}

/// A category that has a name, fixed when it is made, and a mapping from keys to values.
///
/// Two categories are equal when their names are: the data takes no part in it.
#[derive(Debug)]
pub struct Category {
    name: String,
    entries: Vec<(String, Value)>,
}

impl View for Category {
    type V = CategoryView;

    closed spec fn view(&self) -> CategoryView {
        CategoryView { name: self.name@, data: members_map(self.entries@) }
    }
}

impl Category {
    /// The category's entries hold each key once.
    pub closed spec fn wf(&self) -> bool {
        keys_unique(self.entries@)
    }

    /// Where `key` stands among the entries, if it does.
    fn find(&self, key: &str) -> (r: Option<usize>)
        requires
            self.wf(),
        ensures
            match r {
                Some(i) => i < self.entries@.len() && self.entries@[i as int].0@ == key@,
                None => !self@.data.contains_key(key@),
            },
    {
        proof {
            lemma_members_map(self.entries@);
        }
        let k = key.to_owned();
        let mut i: usize = 0;
        while i < self.entries.len()
            invariant
                i <= self.entries@.len(),
                k@ == key@,
                forall|j: int| 0 <= j < i ==> #[trigger] self.entries@[j].0@ != key@,
            decreases self.entries@.len() - i,
        {
            if self.entries[i].0 == k {
                return Some(i);
            }
            i = i + 1;
        }
        None
    }
}

impl Category {
    /// A category named `name`, with no data.
    pub fn new(name: String) -> (r: Category)
        ensures
            r.wf(),
            r@.name == name@,
            r@.data == Map::<Seq<char>, Value>::empty(),
    {
        Category { name, entries: Vec::new() }
    }

    /// The category's name.
    pub fn name(&self) -> (r: &str)
        ensures
            r@ == self@.name,
    {
        self.name.as_str()
    }

    /// Whether the category is named `name`.
    pub fn is_named(&self, name: &String) -> (r: bool)
        ensures
            r == (self@.name == name@),
    {
        self.name == *name
    }

    /// The number of keys in the data.
    pub fn len(&self) -> (r: usize)
        requires
            self.wf(),
        ensures
            r == self@.data.len(),
    {
        proof {
            lemma_members_map_len(self.entries@);
        }
        self.entries.len()
    }

    /// Whether the data holds `key`.
    pub fn contains_key(&self, key: &str) -> (r: bool)
        requires
            self.wf(),
        ensures
            r == self@.data.contains_key(key@),
    {
        proof {
            lemma_members_map(self.entries@);
        }
        match self.find(key) {
            Some(_) => true,
            None => false,
        }
    }

    /// The value that the data holds under `key`.
    pub fn get(&self, key: &str) -> (r: Option<&Value>)
        requires
            self.wf(),
        ensures
            match r {
                Some(v) => self@.data.contains_key(key@) && *v == self@.data[key@],
                None => !self@.data.contains_key(key@),
            },
    {
        proof {
            lemma_members_map(self.entries@);
        }
        match self.find(key) {
            Some(i) => {
                proof {
                    assert(members_map(self.entries@).contains_key(self.entries@[i as int].0@));
                }
                Some(&self.entries[i].1)
            },
            None => None,
        }
    }

    /// Sets `key` to `value` in the data, and returns the value that it replaced.
    pub fn insert(&mut self, key: String, value: Value) -> (r: Option<Value>)
        requires
            old(self).wf(),
        ensures
            final(self).wf(),
            final(self)@.name == old(self)@.name,
            final(self)@.data == old(self)@.data.insert(key@, value),
            r == (if old(self)@.data.contains_key(key@) {
                Some(old(self)@.data[key@])
            } else {
                None::<Value>
            }),
    {
        proof {
            lemma_members_map(self.entries@);
        }
        let ghost k = key@;
        let ghost before = self.entries@;
        match self.find(key.as_str()) {
            Some(i) => {
                self.entries.push((key, value));
                let (_, replaced) = self.entries.swap_remove(i);
                proof {
                    let after = self.entries@;
                    assert(after =~= before.update(i as int, after[i as int]));
                    assert forall|a: int, b: int|
                        0 <= a < after.len() && 0 <= b < after.len() && a != b
                        implies #[trigger] after[a].0@ != #[trigger] after[b].0@ by {
                        if a != i && b != i {
                            assert(after[a] == before[a] && after[b] == before[b]);
                        } else if a == i {
                            assert(after[b] == before[b]);
                        } else {
                            assert(after[a] == before[a]);
                        }
                    }
                    let m = members_map(before).insert(k, value);
                    assert forall|j: int| 0 <= j < after.len() implies #[trigger] m.contains_key(
                        after[j].0@,
                    ) && m[after[j].0@] == after[j].1 by {
                        if j != i {
                            assert(after[j] == before[j]);
                        }
                    }
                    assert forall|kk: Seq<char>| #[trigger] m.contains_key(kk) implies exists|j: int|
                        0 <= j < after.len() && after[j].0@ == kk by {
                        if kk == k {
                            assert(after[i as int].0@ == kk);
                        } else {
                            let j = choose|j: int| 0 <= j < before.len() && before[j].0@ == kk;
                            assert(after[j] == before[j]);
                        }
                    }
                    lemma_members_map_by_members(after, m);
                }
                Some(replaced)
            },
            None => {
                self.entries.push((key, value));
                proof {
                    let after = self.entries@;
                    assert(after.drop_last() =~= before);
                    assert forall|a: int, b: int|
                        0 <= a < after.len() && 0 <= b < after.len() && a != b
                        implies #[trigger] after[a].0@ != #[trigger] after[b].0@ by {
                        if a < before.len() && b < before.len() {
                            assert(after[a] == before[a] && after[b] == before[b]);
                        } else if a < before.len() {
                            assert(after[a] == before[a]);
                            assert(members_map(before).contains_key(before[a].0@));
                        } else {
                            assert(after[b] == before[b]);
                            assert(members_map(before).contains_key(before[b].0@));
                        }
                    }
                }
                None
            },
        }
    }

    /// Takes `key` out of the data, and returns the value that it held.
    pub fn remove(&mut self, key: &str) -> (r: Option<Value>)
        requires
            old(self).wf(),
        ensures
            final(self).wf(),
            final(self)@.name == old(self)@.name,
            final(self)@.data == old(self)@.data.remove(key@),
            r == (if old(self)@.data.contains_key(key@) {
                Some(old(self)@.data[key@])
            } else {
                None::<Value>
            }),
    {
        proof {
            lemma_members_map(self.entries@);
        }
        let ghost before = self.entries@;
        match self.find(key) {
            Some(i) => {
                let (_, removed) = self.entries.swap_remove(i);
                proof {
                    let after = self.entries@;
                    let last = before.len() - 1;
                    assert forall|j: int| 0 <= j < after.len() implies #[trigger] after[j] == (if j
                        == i {
                        before[last]
                    } else {
                        before[j]
                    }) by {}
                    assert forall|a: int, b: int|
                        0 <= a < after.len() && 0 <= b < after.len() && a != b
                        implies #[trigger] after[a].0@ != #[trigger] after[b].0@ by {
                        let ia = if a == i { last } else { a };
                        let ib = if b == i { last } else { b };
                        assert(after[a] == before[ia] && after[b] == before[ib]);
                    }
                    let m = members_map(before).remove(key@);
                    assert forall|j: int| 0 <= j < after.len() implies #[trigger] m.contains_key(
                        after[j].0@,
                    ) && m[after[j].0@] == after[j].1 by {
                        let ij = if j == i { last } else { j };
                        assert(after[j] == before[ij]);
                        assert(before[ij].0@ != before[i as int].0@);
                    }
                    assert forall|kk: Seq<char>| #[trigger] m.contains_key(kk) implies exists|j: int|
                        0 <= j < after.len() && after[j].0@ == kk by {
                        let j = choose|j: int| 0 <= j < before.len() && before[j].0@ == kk;
                        if j == last {
                            assert(after[i as int] == before[last]);
                        } else {
                            assert(after[j] == before[j]);
                        }
                    }
                    lemma_members_map_by_members(after, m);
                }
                Some(removed)
            },
            None => {
                proof {
                    assert(members_map(before).remove(key@) =~= members_map(before));
                }
                None
            },
        }
    }
}

impl Category {
    /// The keys of the data, each once.
    pub fn keys(&self) -> (r: Vec<String>)
        requires
            self.wf(),
        ensures
            r@.len() == self@.data.len(),
            forall|i: int| 0 <= i < r@.len() ==> self@.data.contains_key(#[trigger] r@[i]@),
            forall|k: Seq<char>| #[trigger] self@.data.contains_key(k) ==> exists|i: int|
                0 <= i < r@.len() && r@[i]@ == k,
    {
        proof {
            lemma_members_map(self.entries@);
            lemma_members_map_len(self.entries@);
        }
        let mut out: Vec<String> = Vec::new();
        let mut i: usize = 0;
        while i < self.entries.len()
            invariant
                i <= self.entries@.len(),
                out@.len() == i,
                forall|j: int| 0 <= j < i ==> #[trigger] out@[j]@ == self.entries@[j].0@,
            decreases self.entries@.len() - i,
        {
            out.push(self.entries[i].0.clone());
            i = i + 1;
        }
        proof {
            assert forall|j: int| 0 <= j < out@.len() implies self@.data.contains_key(
                #[trigger] out@[j]@,
            ) by {
                assert(members_map(self.entries@).contains_key(self.entries@[j].0@));
            }
            assert forall|k: Seq<char>| #[trigger] self@.data.contains_key(k) implies exists|j: int|
                0 <= j < out@.len() && out@[j]@ == k by {
                let j = choose|j: int| 0 <= j < self.entries@.len() && self.entries@[j].0@ == k;
                assert(out@[j]@ == k);
            }
        }
        out
    }

    /// The category as one object member: its name, holding an object of its data.
    pub fn to_serializable(&self) -> (r: Value)
        requires
            self.wf(),
        ensures
            r is Object,
            r->Object_0@.len() == 1,
            r->Object_0@[0].0@ == self@.name,
            r->Object_0@[0].1 is Object,
            serialized_data(r->Object_0@[0].1->Object_0@, self@.data),
    {
        proof {
            lemma_members_map(self.entries@);
            lemma_members_map_len(self.entries@);
        }
        let mut members: Vec<(String, Value)> = Vec::new();
        let mut i: usize = 0;
        while i < self.entries.len()
            invariant
                i <= self.entries@.len(),
                members@.len() == i,
                forall|j: int| 0 <= j < i ==> #[trigger] members@[j].0@ == self.entries@[j].0@
                    && top_level_copy(self.entries@[j].1, members@[j].1),
            decreases self.entries@.len() - i,
        {
            let key = self.entries[i].0.clone();
            let item = self.entries[i].1.clone();
            members.push((key, item));
            i = i + 1;
        }
        proof {
            let d = self@.data;
            let s = members@;
            assert forall|j: int| 0 <= j < s.len() implies d.contains_key(#[trigger] s[j].0@)
                && top_level_copy(d[s[j].0@], s[j].1) by {
                assert(members_map(self.entries@).contains_key(self.entries@[j].0@));
            }
            assert forall|k: Seq<char>| #[trigger] d.contains_key(k) implies exists|j: int|
                0 <= j < s.len() && s[j].0@ == k by {
                let j = choose|j: int| 0 <= j < self.entries@.len() && self.entries@[j].0@ == k;
                assert(s[j].0@ == k);
            }
            assert(keys_unique(s)) by {
                assert forall|a: int, b: int|
                    0 <= a < s.len() && 0 <= b < s.len() && a != b
                    implies #[trigger] s[a].0@ != #[trigger] s[b].0@ by {
                    assert(s[a].0@ == self.entries@[a].0@ && s[b].0@ == self.entries@[b].0@);
                }
            }
        }
        let mut outer: Vec<(String, Value)> = Vec::new();
        outer.push((self.name.clone(), Value::Object(members)));
        Value::Object(outer)
    }
}

/// `s` is the member list of a category's data `d`: each key of `d` once,
/// with a copy of its value.
pub open spec fn serialized_data(s: Seq<(String, Value)>, d: Map<Seq<char>, Value>) -> bool {
    &&& s.len() == d.len()
    &&& keys_unique(s)
    &&& forall|j: int| 0 <= j < s.len() ==> d.contains_key(#[trigger] s[j].0@)
        && top_level_copy(d[s[j].0@], s[j].1)
    &&& forall|k: Seq<char>| #[trigger] d.contains_key(k) ==> exists|j: int|
        0 <= j < s.len() && s[j].0@ == k
}

impl PartialEq for Category {
    /// Categories are equal when their names are.
    fn eq(&self, other: &Category) -> (r: bool)
        ensures
            r == (self@.name == other@.name),
    {
        self.name == other.name
    }
}

impl vstd::std_specs::cmp::PartialEqSpecImpl for Category {
    open spec fn obeys_eq_spec() -> bool {
        true
    }

    open spec fn eq_spec(&self, other: &Category) -> bool {
        self@.name == other@.name
    }
}

impl Eq for Category {

}

/// A value set under a key is what reading the key gives back, whatever its kind.
pub proof fn lemma_insert_then_get(c: CategoryView, key: Seq<char>, v: Value)
    ensures
        c.data.insert(key, v).contains_key(key),
        c.data.insert(key, v)[key] == v,
{
}

/// Categories with the same name are equal, whatever data each holds.
pub proof fn lemma_equal_by_name(a: Category, b: Category)
    requires
        a@.name == b@.name,
    ensures
        a.eq_spec(&b),
{
}

} // verus!
