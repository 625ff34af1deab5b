//! The registry: keys and values that describe the database itself.
use vstd::prelude::*;
use vstd::string::StringExecFns;
use crate::db::{sql_error, DBConnection, Database, DatabaseView, RegistryRow, RegistryRowView};
use crate::error::{LError, LErrorClass};
use crate::util::fs::text_option;
use crate::util::search::{
    first_index, lemma_first_index, lemma_first_index_is, lemma_first_index_none,
};
use crate::util::text::{parse_number, parse_number_spec, same_text};

verus! {

impl DatabaseView {
    /// The value that the registry holds for `key`.
    pub open spec fn reg_get(self, key: Seq<char>) -> Option<Seq<char>> {
        let p = first_index(self.keys(), key);
        if p < self.registry.len() {
            Some(self.registry[p].value)
        } else {
            None
        }
    }

    /// The tables with `value` as the registry's value for `key`: the row of
    /// the key is replaced where there is one, else a row is added.
    pub open spec fn reg_set(self, key: Seq<char>, value: Seq<char>) -> DatabaseView {
        let p = first_index(self.keys(), key);
        let row = RegistryRowView { key, value };
        if p < self.registry.len() {
            DatabaseView { registry: self.registry.update(p, row), ..self }
        } else {
            DatabaseView { registry: self.registry.push(row), ..self }
        }
    }
}

/// After a value was set for a key, the registry holds it, and the rules are kept.
pub proof fn lemma_reg_set(db: DatabaseView, key: Seq<char>, value: Seq<char>)
    requires
        db.wf(),
    ensures
        db.reg_set(key, value).wf(),
        db.reg_set(key, value).reg_get(key) == Some(value),
{
    let n = db.reg_set(key, value);
    let p = first_index(db.keys(), key);
    lemma_first_index(db.keys(), key);
    assert(n.names() =~= db.names());
    assert(n.paths() =~= db.paths());
    if p < db.registry.len() {
        assert(n.keys() =~= db.keys());
    } else {
        assert(n.keys() =~= db.keys().push(key));
        assert forall|i: int, j: int| 0 <= i < j < n.keys().len() implies n.keys()[i] != n.keys()[j] by {
            if j < db.keys().len() {
                assert(db.keys()[i] != db.keys()[j]);
            }
        }
    }
    lemma_first_index_is(n.keys(), key, p);
}

impl Database {
    /// Gets the value of the registry entry for `key`.
    pub fn reg_get(&self, key: &str) -> (r: Option<String>)
        ensures
            text_option(r) == self@.reg_get(key@),
    {
        let mut i: usize = 0;
        while i < self.registry.len()
            invariant
                i <= self.registry.len(),
                forall|j: int| 0 <= j < i ==> self@.keys()[j] != key@,
            decreases self.registry.len() - i,
        {
            if same_text(self.registry[i].key.as_str(), key) {
                proof {
                    lemma_first_index_is(self@.keys(), key@, i as int);
                }
                return Some(self.registry[i].value.clone());
            }
            i = i + 1;
        }
        proof {
            lemma_first_index_none(self@.keys(), key@);
        }
        None
    }

    /// Gets a registry entry that holds a number: `None` where the key has no
    /// entry, an error where the entry is no number.
    pub fn reg_get_number(&self, key: &str) -> (r: Result<Option<u64>, LError>)
        ensures
            match self@.reg_get(key@) {
                None => r == Ok::<Option<u64>, LError>(None),
                Some(text) => match parse_number_spec(text) {
                    Some(n) => r == Ok::<Option<u64>, LError>(Some(n)),
                    None => r is Err && r->Err_0@ == sql_error("Invalid column type"@),
                },
            },
    {
        match self.reg_get(key) {
            None => Ok(None),
            Some(text) => match parse_number(text.as_str()) {
                Some(n) => Ok(Some(n)),
                None => Err(LError::new(LErrorClass::SQL, "Invalid column type")),
            },
        }
    }

    /// Updates or sets the entry for `key` to `value`. Returns the number of
    /// rows that were written, which is one.
    pub fn reg_set(&mut self, key: &str, value: &str) -> (r: usize)
        requires
            old(self)@.wf(),
        ensures
            final(self)@.wf(),
            final(self)@ == old(self)@.reg_set(key@, value@),
            r == 1,
    {
        proof {
            lemma_reg_set(self@, key@, value@);
        }
        let row = RegistryRow { key: String::from_str(key), value: String::from_str(value) };
        let mut i: usize = 0;
        while i < self.registry.len()
            invariant
                i <= self.registry.len(),
                *self == *old(self),
                old(self)@.reg_set(key@, value@).wf(),
                row@ == (RegistryRowView { key: key@, value: value@ }),
                forall|j: int| 0 <= j < i ==> self@.keys()[j] != key@,
            decreases self.registry.len() - i,
        {
            if same_text(self.registry[i].key.as_str(), key) {
                proof {
                    lemma_first_index_is(self@.keys(), key@, i as int);
                }
                self.registry.set(i, row);
                proof {
                    let o = old(self)@;
                    assert(self@.registry =~= o.reg_set(key@, value@).registry);
                    assert(self@.packages =~= o.packages);
                    assert(self@.files =~= o.files);
                }
                return 1;
            }
            i = i + 1;
        }
        proof {
            lemma_first_index_none(self@.keys(), key@);
        }
        self.registry.push(row);
        proof {
            let o = old(self)@;
            assert(self@.registry =~= o.reg_set(key@, value@).registry);
            assert(self@.packages =~= o.packages);
            assert(self@.files =~= o.files);
        }
        1
    }
}

impl DBConnection {
    /// Gets the value of the registry entry for `key`.
    pub fn reg_get(&self, key: &str) -> (r: Option<String>)
        ensures
            text_option(r) == self@.reg_get(key@),
    {
        self.db.reg_get(key)
    }

    /// Updates or sets the entry for `key` to `value`. Returns the number of
    /// rows that were written, which is one.
    pub fn reg_set(&mut self, key: &str, value: &str) -> (r: usize)
        requires
            old(self)@.wf(),
        ensures
            final(self)@.wf(),
            final(self)@ == old(self)@.reg_set(key@, value@),
            r == 1,
    {
        self.db.reg_set(key, value)
    }
}

} // verus!
