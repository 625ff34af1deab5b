//! Bringing the tables into the state that all other operations expect.
use vstd::prelude::*;
use crate::db::reg::lemma_reg_set;
use crate::db::{sql_error, DBConnection, Database, DatabaseView};
use crate::error::{LError, LErrorClass};
use crate::util::text::{parse_number_spec, same_text};

verus! {

/// The registry key under which the version of the table layout is kept.
pub open spec fn version_key() -> Seq<char> {
    "db_version"@
}

impl DatabaseView {
    /// The tables after they were made ready for use: where the registry
    /// holds no layout version, it is set to 1; nothing else changes.
    pub open spec fn bootstrap(self) -> DatabaseView {
        if self.reg_get(version_key()) is None {
            self.reg_set(version_key(), "1"@)
        } else {
            self
        }
    }

    /// Whether the registry holds a layout version that is no number.
    pub open spec fn version_unreadable(self) -> bool {
        self.reg_get(version_key()) matches Some(text) && parse_number_spec(text) is None
    }
}

/// Making the tables ready a second time changes nothing.
pub proof fn lemma_bootstrap_idempotent(db: DatabaseView)
    requires
        db.wf(),
    ensures
        db.bootstrap().wf(),
        db.bootstrap().bootstrap() == db.bootstrap(),
{
    lemma_reg_set(db, version_key(), "1"@);
}

impl Database {
    /// Ensures that the tables are ready for operation: a database without a
    /// layout version gets version 1. A version that is no number is an error,
    /// and the tables stay as they are.
    pub fn ensure_tables(&mut self) -> (r: Result<(), LError>)
        requires
            old(self)@.wf(),
        ensures
            final(self)@.wf(),
            r is Err <==> old(self)@.version_unreadable(),
            r is Err ==> final(self)@ == old(self)@ && r->Err_0@ == sql_error(
                "Invalid column type"@,
            ),
            r is Ok ==> final(self)@ == old(self)@.bootstrap(),
    {
        match self.reg_get_number("db_version")? {
            None => {
                self.reg_set("db_version", "1");
            },
            Some(_) => {},
        }
        Ok(())
    }

    /// Whether the tables keep their rules.
    pub fn check(&self) -> (r: bool)
        ensures
            r == self@.wf(),
    {
        if self.packages.len() as u64 > i64::MAX as u64 || self.files.len() as u64 > i64::MAX as u64 {
            return false;
        }
        let np: usize = self.packages.len();
        let mut i: usize = 0;
        while i < self.packages.len()
            invariant
                i <= self.packages.len(),
                np == self.packages.len(),
                np <= i64::MAX,
                forall|a: int| 0 <= a < i ==> (#[trigger] self@.packages[a]).id == a + 1,
                forall|a: int, b: int| 0 <= a < b < i ==> self@.names()[a] != self@.names()[b],
            decreases self.packages.len() - i,
        {
            if self.packages[i].id != (i as u64 + 1) as i64 {
                assert(self@.packages[i as int].id != i + 1);
                return false;
            }
            let mut j: usize = 0;
            while j < i
                invariant
                    j <= i < self.packages.len(),
                    forall|a: int| 0 <= a < j ==> self@.names()[a] != self@.names()[i as int],
                decreases i - j,
            {
                if same_text(self.packages[j].name.as_str(), self.packages[i].name.as_str()) {
                    assert(self@.names()[j as int] == self@.names()[i as int]);
                    return false;
                }
                j = j + 1;
            }
            i = i + 1;
        }
        let mut i: usize = 0;
        while i < self.files.len()
            invariant
                i <= self.files.len(),
                np == self.packages.len(),
                self.files.len() <= i64::MAX,
                forall|a: int| 0 <= a < i ==> (#[trigger] self@.files[a]).id == a + 1,
                forall|a: int| 0 <= a < i ==> self@.has_package((#[trigger] self@.files[a]).package),
                forall|a: int, b: int| 0 <= a < b < i ==> self@.paths()[a] != self@.paths()[b],
            decreases self.files.len() - i,
        {
            if self.files[i].id != (i as u64 + 1) as i64 {
                assert(self@.files[i as int].id != i + 1);
                return false;
            }
            if self.files[i].package < 1 || self.files[i].package as u64 > np as u64 {
                assert(!self@.has_package(self@.files[i as int].package));
                return false;
            }
            let mut j: usize = 0;
            while j < i
                invariant
                    j <= i < self.files.len(),
                    forall|a: int| 0 <= a < j ==> self@.paths()[a] != self@.paths()[i as int],
                decreases i - j,
            {
                if same_text(self.files[j].path.as_str(), self.files[i].path.as_str()) {
                    assert(self@.paths()[j as int] == self@.paths()[i as int]);
                    return false;
                }
                j = j + 1;
            }
            i = i + 1;
        }
        let mut i: usize = 0;
        while i < self.registry.len()
            invariant
                i <= self.registry.len(),
                forall|a: int, b: int| 0 <= a < b < i ==> self@.keys()[a] != self@.keys()[b],
            decreases self.registry.len() - i,
        {
            let mut j: usize = 0;
            while j < i
                invariant
                    j <= i < self.registry.len(),
                    forall|a: int| 0 <= a < j ==> self@.keys()[a] != self@.keys()[i as int],
                decreases i - j,
            {
                if same_text(self.registry[j].key.as_str(), self.registry[i].key.as_str()) {
                    assert(self@.keys()[j as int] == self@.keys()[i as int]);
                    return false;
                }
                j = j + 1;
            }
            i = i + 1;
        }
        let mut i: usize = 0;
        while i < self.dependencies.len()
            invariant
                i <= self.dependencies.len(),
                np == self.packages.len(),
                forall|a: int|
                    0 <= a < i ==> self@.has_package(
                        (#[trigger] self@.dependencies[a]).depender as int,
                    ) && self@.has_package(self@.dependencies[a].dependency as int),
                forall|a: int, b: int|
                    0 <= a < b < i ==> self@.dependencies[a] != self@.dependencies[b],
            decreases self.dependencies.len() - i,
        {
            let e = self.dependencies[i];
            if e.depender < 1 || e.depender as u64 > np as u64 || e.dependency < 1
                || e.dependency as u64 > np as u64 {
                assert(!(self@.has_package(self@.dependencies[i as int].depender as int)
                    && self@.has_package(self@.dependencies[i as int].dependency as int)));
                return false;
            }
            let mut j: usize = 0;
            while j < i
                invariant
                    j <= i < self.dependencies.len(),
                    e == self.dependencies@[i as int],
                    forall|a: int| 0 <= a < j ==> self@.dependencies[a] != self@.dependencies[i as int],
                decreases i - j,
            {
                if self.dependencies[j].depender == e.depender && self.dependencies[j].dependency
                    == e.dependency {
                    assert(self@.dependencies[j as int] == self@.dependencies[i as int]);
                    return false;
                }
                j = j + 1;
            }
            i = i + 1;
        }
        true
    }
}

/// The error for stored tables that break the rules.
pub open spec fn inconsistent_error() -> crate::error::LErrorView {
    sql_error("The stored tables are inconsistent"@)
}

impl DBConnection {
    /// Ensures that the tables are ready for operation. Gets run on open
    /// automatically.
    pub fn ensure_tables(&mut self) -> (r: Result<(), LError>)
        requires
            old(self)@.wf(),
        ensures
            final(self)@.wf(),
            r is Err <==> old(self)@.version_unreadable(),
            r is Err ==> final(self)@ == old(self)@ && r->Err_0@ == sql_error(
                "Invalid column type"@,
            ),
            r is Ok ==> final(self)@ == old(self)@.bootstrap(),
    {
        self.db.ensure_tables()
    }

    /// Creates a new connection on the stored tables and makes them ready for
    /// operation. Tables that break their rules are refused.
    pub fn open(stored: Database) -> (r: Result<DBConnection, LError>)
        ensures
            r is Ok <==> stored@.wf() && !stored@.version_unreadable(),
            r is Ok ==> r->Ok_0@ == stored@.bootstrap() && r->Ok_0@.wf(),
            !stored@.wf() ==> r is Err && r->Err_0@ == inconsistent_error(),
            stored@.wf() && stored@.version_unreadable() ==> r is Err && r->Err_0@ == sql_error(
                "Invalid column type"@,
            ),
    {
        if !stored.check() {
            return Err(LError::new(LErrorClass::SQL, "The stored tables are inconsistent"));
        }
        let mut connection = DBConnection { db: stored };
        connection.ensure_tables()?;
        Ok(connection)
    }
}

} // verus!
