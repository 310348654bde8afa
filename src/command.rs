//! Commands that the rest of the process sends to the registry's worker.

use vstd::prelude::*;
use crate::category::CategoryView;
use crate::registry::{get_or_create_result, has_name, position_of, Registry};
use crate::value::Value;

verus! {

/// What a command does to its category.
#[derive(Debug)]
pub enum Operation {
    /// Set a key of the category's data, creating the category if it is missing.
    Insert { key: String, value: Value },
    /// Take a key out of the category's data.
    RemoveKey { key: String },
    /// Take the category out of the registry.
    RemoveCategory,
}

/// A command: a category name and an operation on it.
#[derive(Debug)]
pub struct Command {
    pub category: String,
    pub operation: Operation,
}

/// Why a command was not applied.
#[derive(Clone, Copy, Debug, PartialEq, Eq, Structural)]
pub enum CommandError {
    /// A category cannot have an empty name.
    EmptyCategoryName,
}

/// The categories after `c` is applied to `s`.
pub open spec fn applied(s: Seq<CategoryView>, c: Command) -> Seq<CategoryView> {
    let n = c.category@;
    if n.len() == 0 {
        s
    } else {
        match c.operation {
            Operation::Insert { key, value } => {
                let (s1, h) = get_or_create_result(s, n);
                s1.update(h, CategoryView { name: n, data: s1[h].data.insert(key@, value) })
            },
            Operation::RemoveKey { key } => {
                if has_name(s, n) {
                    let p = position_of(s, n);
                    s.update(p, CategoryView { name: n, data: s[p].data.remove(key@) })
                } else {
                    s
                }
            },
            Operation::RemoveCategory => {
                if has_name(s, n) {
                    s.remove(position_of(s, n))
                } else {
                    s
                }
            },
        }
    }
}

impl Registry {
    /// Applies `command`. A command with an empty category name is refused and
    /// changes nothing.
    pub fn apply(&mut self, command: Command) -> (r: Result<(), CommandError>)
        requires
            old(self).wf(),
        ensures
            final(self).wf(),
            final(self)@ == applied(old(self)@, command),
            r == (if command.category@.len() == 0 {
                Err::<(), CommandError>(CommandError::EmptyCategoryName)
            } else {
                Ok::<(), CommandError>(())
            }),
    {
        proof {
            self.lemma_wf_names();
        }
        let ghost c = command;
        let ghost s = self@;
        let Command { category, operation } = command;
        if category.as_str().is_empty() {
            return Err(CommandError::EmptyCategoryName);
        }
        match operation {
            Operation::Insert { key, value } => {
                let h = self.get_or_create(category.as_str());
                proof {
                    let (s1, h1) = get_or_create_result(s, category@);
                    if has_name(s, category@) {
                        assert(s[position_of(s, category@)].name == category@);
                    }
                }
                self.insert_value(h, key, value);
            },
            Operation::RemoveKey { key } => {
                match self.find(category.as_str()) {
                    Some(p) => {
                        proof {
                            assert(s[p as int].name == category@);
                        }
                        self.remove_value(p, key.as_str());
                    },
                    None => {},
                }
            },
            Operation::RemoveCategory => {
                self.remove(category.as_str());
            },
        }
        Ok(())
    }
}

} // verus!
