//! The registry: the categories of the process, each under its own name.

use vstd::prelude::*;
use crate::category::{Category, CategoryView};
use crate::value::Value;

verus! {

/// No two categories share a name, and no name is empty.
pub open spec fn names_valid(s: Seq<CategoryView>) -> bool {
    &&& forall|i: int| 0 <= i < s.len() ==> #[trigger] s[i].name.len() > 0
    &&& forall|i: int, j: int|
        0 <= i < s.len() && 0 <= j < s.len() && i != j ==> #[trigger] s[i].name != #[trigger] s[j].name
}

/// Whether a category named `n` is in `s`.
pub open spec fn has_name(s: Seq<CategoryView>, n: Seq<char>) -> bool {
    exists|i: int| 0 <= i < s.len() && s[i].name == n
}

/// Where the category named `n` stands in `s`.
pub open spec fn position_of(s: Seq<CategoryView>, n: Seq<char>) -> int {
    choose|i: int| 0 <= i < s.len() && s[i].name == n
}

/// The categories after asking for the one named `n`, and where it stands:
/// the one already there, or else a new empty one at the end.
pub open spec fn get_or_create_result(s: Seq<CategoryView>, n: Seq<char>) -> (Seq<CategoryView>, int) {
    if has_name(s, n) {
        (s, position_of(s, n))
    } else {
        (s.push(CategoryView { name: n, data: Map::empty() }), s.len() as int)
    }
}

/// The categories of the process.
pub struct Registry {
    categories: Vec<Category>,
}

impl View for Registry {
    type V = Seq<CategoryView>;

    closed spec fn view(&self) -> Seq<CategoryView> {
        self.categories@.map_values(|c: Category| c@)
    }
}

impl Registry {
    /// Each category is well formed, and the names are valid.
    pub closed spec fn wf(&self) -> bool {
        &&& forall|i: int| 0 <= i < self.categories@.len() ==> #[trigger] self.categories@[i].wf()
        &&& names_valid(self@)
    }

    /// A well-formed registry has valid names.
    pub proof fn lemma_wf_names(&self)
        requires
            self.wf(),
        ensures
            names_valid(self@),
    {
    }

    /// A registry with no categories.
    pub fn new() -> (r: Registry)
        ensures
            r.wf(),
            r@ == Seq::<CategoryView>::empty(),
    {
        let r = Registry { categories: Vec::new() };
        proof {
            assert(r@ =~= Seq::<CategoryView>::empty());
        }
        r
    }

    /// The number of categories.
    pub fn len(&self) -> (r: usize)
        ensures
            r == self@.len(),
    {
        self.categories.len()
    }

    /// Where the category named `name` stands, if it is here.
    pub fn find(&self, name: &str) -> (r: Option<usize>)
        requires
            self.wf(),
        ensures
            match r {
                Some(i) => has_name(self@, name@) && i as int == position_of(self@, name@),
                None => !has_name(self@, name@),
            },
    {
        let n = name.to_owned();
        let mut i: usize = 0;
        while i < self.categories.len()
            invariant
                i <= self@.len(),
                self@.len() == self.categories@.len(),
                forall|j: int| 0 <= j < self@.len() ==> #[trigger] self@[j] == self.categories@[j]@,
                n@ == name@,
                names_valid(self@),
                forall|j: int| 0 <= j < i ==> #[trigger] self@[j].name != name@,
            decreases self.categories@.len() - i,
        {
            if self.categories[i].is_named(&n) {
                proof {
                    assert(self@[i as int].name == name@);
                    let p = position_of(self@, name@);
                    assert(self@[p].name == name@);
                }
                return Some(i);
            }
            i = i + 1;
        }
        None
    }
}

impl Registry {
    /// The category named `name`: the one already here, or else a new empty one,
    /// added at the end. Returns where it stands.
    pub fn get_or_create(&mut self, name: &str) -> (r: usize)
        requires
            old(self).wf(),
            name@.len() > 0,
        ensures
            final(self).wf(),
            (final(self)@, r as int) == get_or_create_result(old(self)@, name@),
    {
        match self.find(name) {
            Some(i) => i,
            None => {
                let ghost before = self@;
                let c = Category::new(name.to_owned());
                self.categories.push(c);
                proof {
                    assert(self@ =~= before.push(CategoryView { name: name@, data: Map::empty() }));
                    assert forall|i: int, j: int|
                        0 <= i < self@.len() && 0 <= j < self@.len() && i != j
                        implies #[trigger] self@[i].name != #[trigger] self@[j].name by {
                        if i < before.len() && j < before.len() {
                        } else if i < before.len() {
                            assert(self@[i] == before[i]);
                        } else {
                            assert(self@[j] == before[j]);
                        }
                    }
                }
                self.categories.len() - 1
            },
        }
    }

    /// The category at `handle`.
    pub fn category(&self, handle: usize) -> (r: &Category)
        requires
            handle < self@.len(),
        ensures
            r@ == self@[handle as int],
    {
        &self.categories[handle]
    }

    /// The category named `name`, if it is here.
    pub fn get(&self, name: &str) -> (r: Option<&Category>)
        requires
            self.wf(),
        ensures
            match r {
                Some(c) => has_name(self@, name@) && c@ == self@[position_of(self@, name@)],
                None => !has_name(self@, name@),
            },
    {
        match self.find(name) {
            Some(i) => Some(&self.categories[i]),
            None => None,
        }
    }

    /// Sets `key` to `value` in the data of the category at `handle`, and returns
    /// the value that it replaced.
    pub fn insert_value(&mut self, handle: usize, key: String, value: Value) -> (r: Option<Value>)
        requires
            old(self).wf(),
            handle < old(self)@.len(),
        ensures
            final(self).wf(),
            final(self)@ == old(self)@.update(
                handle as int,
                CategoryView {
                    name: old(self)@[handle as int].name,
                    data: old(self)@[handle as int].data.insert(key@, value),
                },
            ),
            r == (if old(self)@[handle as int].data.contains_key(key@) {
                Some(old(self)@[handle as int].data[key@])
            } else {
                None::<Value>
            }),
    {
        let ghost before = self@;
        let ghost cats = self.categories@;
        let r = self.categories[handle].insert(key, value);
        proof {
            assert forall|i: int| 0 <= i < self.categories@.len() && i != handle implies #[trigger] self.categories@[i] == cats[i] by {}
            assert(self@ =~= before.update(
                handle as int,
                CategoryView {
                    name: before[handle as int].name,
                    data: before[handle as int].data.insert(key@, value),
                },
            ));
            assert forall|i: int| 0 <= i < self.categories@.len() implies #[trigger] self.categories@[i].wf() by {
                if i != handle {
                    assert(self.categories@[i] == cats[i]);
                }
            }
            assert forall|i: int, j: int|
                0 <= i < self@.len() && 0 <= j < self@.len() && i != j
                implies #[trigger] self@[i].name != #[trigger] self@[j].name by {
                assert(self@[i].name == before[i].name && self@[j].name == before[j].name);
            }
        }
        r
    }

    /// Takes `key` out of the data of the category at `handle`, and returns the
    /// value that it held.
    pub fn remove_value(&mut self, handle: usize, key: &str) -> (r: Option<Value>)
        requires
            old(self).wf(),
            handle < old(self)@.len(),
        ensures
            final(self).wf(),
            final(self)@ == old(self)@.update(
                handle as int,
                CategoryView {
                    name: old(self)@[handle as int].name,
                    data: old(self)@[handle as int].data.remove(key@),
                },
            ),
            r == (if old(self)@[handle as int].data.contains_key(key@) {
                Some(old(self)@[handle as int].data[key@])
            } else {
                None::<Value>
            }),
    {
        let ghost before = self@;
        let ghost cats = self.categories@;
        let r = self.categories[handle].remove(key);
        proof {
            assert forall|i: int| 0 <= i < self.categories@.len() && i != handle implies #[trigger] self.categories@[i] == cats[i] by {}
            assert(self@ =~= before.update(
                handle as int,
                CategoryView {
                    name: before[handle as int].name,
                    data: before[handle as int].data.remove(key@),
                },
            ));
            assert forall|i: int| 0 <= i < self.categories@.len() implies #[trigger] self.categories@[i].wf() by {
                if i != handle {
                    assert(self.categories@[i] == cats[i]);
                }
            }
            assert forall|i: int, j: int|
                0 <= i < self@.len() && 0 <= j < self@.len() && i != j
                implies #[trigger] self@[i].name != #[trigger] self@[j].name by {
                assert(self@[i].name == before[i].name && self@[j].name == before[j].name);
            }
        }
        r
    }
}

impl Registry {
    /// Takes the category named `name` out of the registry, keeping the order of
    /// the others, and returns it.
    pub fn remove(&mut self, name: &str) -> (r: Option<Category>)
        requires
            old(self).wf(),
        ensures
            final(self).wf(),
            match r {
                Some(c) => has_name(old(self)@, name@) && c.wf()
                    && c@ == old(self)@[position_of(old(self)@, name@)]
                    && final(self)@ == old(self)@.remove(position_of(old(self)@, name@)),
                None => !has_name(old(self)@, name@) && final(self)@ == old(self)@,
            },
    {
        match self.find(name) {
            Some(i) => {
                let ghost before = self@;
                let ghost cats = self.categories@;
                let c = self.categories.remove(i);
                proof {
                    assert(self.categories@ =~= cats.remove(i as int));
                    assert(self@ =~= before.remove(i as int));
                    assert forall|a: int| 0 <= a < self.categories@.len() implies #[trigger] self.categories@[a].wf() by {
                        if a < i {
                            assert(self.categories@[a] == cats[a]);
                        } else {
                            assert(self.categories@[a] == cats[a + 1]);
                        }
                    }
                    assert forall|a: int, b: int|
                        0 <= a < self@.len() && 0 <= b < self@.len() && a != b
                        implies #[trigger] self@[a].name != #[trigger] self@[b].name by {
                        let ia = if a < i { a } else { a + 1 };
                        let ib = if b < i { b } else { b + 1 };
                        assert(self@[a] == before[ia] && self@[b] == before[ib]);
                    }
                    assert(cats[i as int].wf());
                }
                Some(c)
            },
            None => None,
        }
    }

    /// The names of the categories, in order: a copy, which later changes do not touch.
    pub fn names(&self) -> (r: Vec<String>)
        ensures
            r@.len() == self@.len(),
            forall|i: int| 0 <= i < r@.len() ==> #[trigger] r@[i]@ == self@[i].name,
    {
        let mut out: Vec<String> = Vec::new();
        let mut i: usize = 0;
        while i < self.categories.len()
            invariant
                i <= self.categories@.len(),
                out@.len() == i,
                forall|j: int| 0 <= j < i ==> #[trigger] out@[j]@ == self@[j].name,
            decreases self.categories@.len() - i,
        {
            let n = self.categories[i].name().to_owned();
            out.push(n);
            i = i + 1;
        }
        out
    }

    /// Asking twice in a row for the category named `name` gives the same
    /// category: the second request creates nothing.
    pub proof fn lemma_get_or_create_twice(&self, name: Seq<char>)
        requires
            self.wf(),
            name.len() > 0,
        ensures
            get_or_create_result(get_or_create_result(self@, name).0, name)
                == get_or_create_result(self@, name),
    {
        let s = self@;
        let (s1, h1) = get_or_create_result(s, name);
        if !has_name(s, name) {
            assert(s1[s.len() as int].name == name);
            assert(has_name(s1, name));
            let p = position_of(s1, name);
            if p != s.len() {
                assert(s1[p] == s[p]);
            }
        }
    }
}

} // verus!
