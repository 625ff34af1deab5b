//! The `packages` and `dependencies` tables.
use vstd::prelude::*;
use vstd::string::StringExecFns;
use crate::db::{
    sql_error, DBConnection, DBTransaction, Database, DatabaseView, DependencyRow, PackageRow,
    PackageRowView,
};
use crate::error::{LError, LErrorClass, LErrorView};
use crate::package::packageref::resolved_names;
use crate::package::{CorePackage, PackagePool, PackageVariant, PackageView};
use crate::util::fs::text_option;
use crate::util::search::{
    first_index, lemma_first_index, lemma_first_index_is, lemma_first_index_none,
};
use crate::util::text::same_text;

verus! {

/// The error for a package whose row is asked for before it was inserted.
pub open spec fn not_inserted_error() -> LErrorView {
    LErrorView { class: LErrorClass::PackageNotFound, messages: seq!["Insert the package first"@] }
}

/// The error for a dependency that has no row.
pub open spec fn missing_dependency_error(name: Seq<char>, dependency: Seq<char>) -> LErrorView {
    LErrorView {
        class: LErrorClass::PackageNotFound,
        messages: seq!["Dependency id of ["@ + name + "] "@ + dependency + " is missing"@],
    }
}

/// The row that stands for a package under the given id.
pub open spec fn row_of(p: PackageView, id: int) -> PackageRowView {
    PackageRowView {
        id,
        name: p.name,
        version: p.version,
        real_version: p.real_version,
        description: p.description,
        hash: p.hash,
    }
}

impl DatabaseView {
    /// The place of the row of the package named `name`; the number of rows
    /// where there is none.
    pub open spec fn position(self, name: Seq<char>) -> int {
        first_index(self.names(), name)
    }

    /// Whether a package named `name` has a row.
    pub open spec fn has_name(self, name: Seq<char>) -> bool {
        self.position(name) < self.packages.len()
    }

    /// The stored hash of the package named `name`.
    pub open spec fn hash_of(self, name: Seq<char>) -> Option<Seq<char>> {
        if self.has_name(name) {
            Some(self.packages[self.position(name)].hash)
        } else {
            None
        }
    }

    /// The id of the package named `name`.
    pub open spec fn id_of(self, name: Seq<char>) -> Option<int> {
        if self.has_name(name) {
            Some(self.packages[self.position(name)].id)
        } else {
            None
        }
    }

    /// Whether the packages table can take no further row.
    pub open spec fn packages_full(self) -> bool {
        self.packages.len() >= crate::db::max_rows()
    }

    /// The tables after a package was handed in for insertion: a package whose
    /// name has a row is skipped, whatever hash the row holds; another one gets
    /// a new row with the next id.
    pub open spec fn insert_package(self, p: PackageView) -> DatabaseView {
        if self.has_name(p.name) || self.packages_full() {
            self
        } else {
            DatabaseView {
                packages: self.packages.push(row_of(p, self.packages.len() as int + 1)),
                ..self
            }
        }
    }

    /// The tables with the pair `edge` among the dependencies.
    pub open spec fn with_edge(self, edge: DependencyRow) -> DatabaseView {
        if self.dependencies.contains(edge) {
            self
        } else {
            DatabaseView { dependencies: self.dependencies.push(edge), ..self }
        }
    }

    /// The tables after the first `k` of `names` were recorded as dependencies
    /// of the package with id `depender`.
    pub open spec fn with_edges(self, depender: int, names: Seq<Seq<char>>, k: int) -> DatabaseView
        decreases k,
    {
        if k <= 0 {
            self
        } else {
            let before = self.with_edges(depender, names, k - 1);
            match self.id_of(names[k - 1]) {
                Some(id) => before.with_edge(
                    DependencyRow { depender: depender as i64, dependency: id as i64 },
                ),
                None => before,
            }
        }
    }

    /// For each of `names`, whether it has no row.
    pub open spec fn missing(self, names: Seq<Seq<char>>) -> Seq<bool> {
        Seq::new(names.len(), |k: int| !self.has_name(names[k]))
    }

    /// What recording the dependencies of `p` leads to: the tables afterwards
    /// and the error, if any. The package needs a row and resolved dependencies.
    /// Its dependencies are recorded in order up to the first one without a
    /// row, which is an error.
    pub open spec fn insert_dependencies(self, p: PackageView, pool: Seq<PackageView>) -> (
        DatabaseView,
        Option<LErrorView>,
    ) {
        match self.id_of(p.name) {
            None => (self, Some(not_inserted_error())),
            Some(id) => match resolved_names(pool, p.dependencies) {
                Err(e) => (self, Some(e)),
                Ok(names) => {
                    let k = first_index(self.missing(names), true);
                    (
                        self.with_edges(id, names, k),
                        if k < names.len() {
                            Some(missing_dependency_error(p.name, names[k]))
                        } else {
                            None
                        },
                    )
                },
            },
        }
    }

    /// The names that the first `k` dependency rows contribute for the package
    /// row at place `j`: its name once for every row that points to it from a
    /// package whose hash is `hash`.
    pub open spec fn edge_names(self, hash: Seq<char>, j: int, k: int) -> Seq<Seq<char>>
        decreases k,
    {
        if k <= 0 {
            Seq::empty()
        } else {
            let before = self.edge_names(hash, j, k - 1);
            let e = self.dependencies[k - 1];
            if e.dependency == self.packages[j].id && self.has_package(e.depender as int)
                && self.packages[e.depender - 1].hash == hash {
                before.push(self.packages[j].name)
            } else {
                before
            }
        }
    }

    /// The dependency names that the first `j` package rows contribute.
    pub open spec fn dependency_names_upto(self, hash: Seq<char>, j: int) -> Seq<Seq<char>>
        decreases j,
    {
        if j <= 0 {
            Seq::empty()
        } else {
            self.dependency_names_upto(hash, j - 1) + self.edge_names(
                hash,
                j - 1,
                self.dependencies.len() as int,
            )
        }
    }

    /// The names of the dependencies of the packages whose hash is `hash`,
    /// ordered by the id of the dependency.
    pub open spec fn dependency_names(self, hash: Seq<char>) -> Seq<Seq<char>> {
        self.dependency_names_upto(hash, self.packages.len() as int)
    }
}

/// Adding a dependency pair between rows that exist keeps the rules.
pub proof fn lemma_with_edge_wf(db: DatabaseView, edge: DependencyRow)
    requires
        db.wf(),
        db.has_package(edge.depender as int),
        db.has_package(edge.dependency as int),
    ensures
        db.with_edge(edge).wf(),
        db.with_edge(edge).packages == db.packages,
        db.with_edge(edge).files == db.files,
        db.with_edge(edge).registry == db.registry,
{
    let n = db.with_edge(edge);
    assert(n.names() =~= db.names());
    assert(n.paths() =~= db.paths());
    assert(n.keys() =~= db.keys());
    if !db.dependencies.contains(edge) {
        assert forall|i: int, j: int| 0 <= i < j < n.dependencies.len() implies n.dependencies[i]
            != n.dependencies[j] by {
            if j == db.dependencies.len() {
                assert(db.dependencies[i] == n.dependencies[i]);
                assert(db.dependencies.contains(n.dependencies[i]));
            }
        }
    }
}

impl Database {
    /// The place of the row of the package named `name`.
    pub fn find_package(&self, name: &str) -> (r: Option<usize>)
        ensures
            match r {
                Some(i) => i < self@.packages.len() && i == self@.position(name@),
                None => !self@.has_name(name@),
            },
    {
        let mut i: usize = 0;
        while i < self.packages.len()
            invariant
                i <= self.packages.len(),
                forall|j: int| 0 <= j < i ==> self@.names()[j] != name@,
            decreases self.packages.len() - i,
        {
            if same_text(self.packages[i].name.as_str(), name) {
                proof {
                    lemma_first_index_is(self@.names(), name@, i as int);
                }
                return Some(i);
            }
            i = i + 1;
        }
        proof {
            lemma_first_index_none(self@.names(), name@);
        }
        None
    }

    /// The stored hash of the package named `name`, `None` where it has no row.
    pub fn get_package_hash(&self, name: &str) -> (r: Option<String>)
        ensures
            text_option(r) == self@.hash_of(name@),
    {
        match self.find_package(name) {
            Some(i) => Some(self.packages[i].hash.clone()),
            None => None,
        }
    }

    /// The id of the package named `name`, `None` where it has no row.
    pub fn get_package_id(&self, name: &str) -> (r: Option<i64>)
        ensures
            match r {
                Some(id) => self@.id_of(name@) == Some(id as int),
                None => self@.id_of(name@) is None,
            },
    {
        match self.find_package(name) {
            Some(i) => Some(self.packages[i].id),
            None => None,
        }
    }

    /// Adds the package to the table. A package whose name has a row is
    /// skipped: with the same hash it is up to date, with another one its
    /// update is left to a later operation. The only failure is a full table.
    pub fn insert_package(&mut self, package: &PackageVariant) -> (r: Result<(), LError>)
        requires
            old(self)@.wf(),
        ensures
            final(self)@.wf(),
            final(self)@ == old(self)@.insert_package(package@),
            r is Err <==> !old(self)@.has_name(package@.name) && old(self)@.packages_full(),
            r is Err ==> r->Err_0@ == sql_error("The packages table is full"@),
    {
        if self.find_package(package.name()).is_some() {
            return Ok(());
        }
        let n: usize = self.packages.len();
        if n as u64 >= i64::MAX as u64 {
            return Err(LError::new(LErrorClass::SQL, "The packages table is full"));
        }
        let row = PackageRow {
            id: (n as u64 + 1) as i64,
            name: String::from_str(package.name()),
            version: String::from_str(package.version()),
            real_version: package.real_version(),
            description: String::from_str(package.description()),
            hash: String::from_str(package.hash()),
        };
        self.packages.push(row);
        proof {
            let o = old(self)@;
            let f = self@;
            assert(f.packages =~= o.packages.push(row_of(package@, o.packages.len() as int + 1)));
            assert(f.files =~= o.files);
            assert(f.registry =~= o.registry);
            assert(f == o.insert_package(package@));
            lemma_first_index(o.names(), package@.name);
            assert(f.paths() =~= o.paths());
            assert(f.keys() =~= o.keys());
            assert forall|i: int, j: int| 0 <= i < j < f.names().len() implies f.names()[i]
                != f.names()[j] by {
                if j < o.names().len() {
                    assert(o.names()[i] != o.names()[j]);
                } else {
                    assert(o.names()[i] != package@.name);
                }
            }
        }
        Ok(())
    }

    /// Records the resolved dependencies of `package`, whose handles refer
    /// into `pool`. A pair that is recorded already stays as it is.
    pub fn insert_package_dependencies(&mut self, package: &PackageVariant, pool: &PackagePool) -> (r:
        Result<(), LError>)
        requires
            old(self)@.wf(),
        ensures
            final(self)@.wf(),
            final(self)@ == old(self)@.insert_dependencies(package@, pool@.packages).0,
            match old(self)@.insert_dependencies(package@, pool@.packages).1 {
                None => r is Ok,
                Some(e) => r is Err && r->Err_0@ == e,
            },
    {
        let index = match self.find_package(package.name()) {
            Some(i) => i,
            None => {
                return Err(LError::new(LErrorClass::PackageNotFound, "Insert the package first"));
            },
        };
        let pkgid: i64 = self.packages[index].id;
        assert(self@.packages[index as int].id == index + 1);
        let names = pool.dependency_names(package.dependencies())?;
        let ghost o = old(self)@;
        let ghost wanted = names.deep_view();
        let mut k: usize = 0;
        while k < names.len()
            invariant
                k <= names.len(),
                o.wf(),
                o == old(self)@,
                wanted == names.deep_view(),
                o.has_package(pkgid as int),
                o.id_of(package@.name) == Some(pkgid as int),
                resolved_names(pool@.packages, package@.dependencies) == Ok::<
                    Seq<Seq<char>>,
                    LErrorView,
                >(wanted),
                self@.wf(),
                self@.packages == o.packages,
                self@ == o.with_edges(pkgid as int, wanted, k as int),
                forall|j: int| 0 <= j < k ==> !(#[trigger] o.missing(wanted)[j]),
            decreases names.len() - k,
        {
            assert(self@.names() =~= o.names());
            let dep_id: i64 = match self.find_package(names[k].as_str()) {
                Some(i) => {
                    assert(self@.packages[i as int].id == i + 1);
                    self.packages[i].id
                },
                None => {
                    proof {
                        assert(o.missing(wanted)[k as int]);
                        lemma_first_index_is(o.missing(wanted), true, k as int);
                    }
                    let mut text = String::from_str("Dependency id of [");
                    text.append(package.name());
                    text.append("] ");
                    text.append(names[k].as_str());
                    text.append(" is missing");
                    return Err(LError::new(LErrorClass::PackageNotFound, text.as_str()));
                },
            };
            let edge = DependencyRow { depender: pkgid, dependency: dep_id };
            let ghost before = self@;
            proof {
                lemma_with_edge_wf(before, edge);
            }
            let mut present = false;
            let mut e: usize = 0;
            while e < self.dependencies.len()
                invariant
                    e <= self.dependencies.len(),
                    edge == (DependencyRow { depender: pkgid, dependency: dep_id }),
                    !present ==> forall|j: int| 0 <= j < e ==> self.dependencies@[j] != edge,
                    present ==> self.dependencies@.contains(edge),
                decreases self.dependencies.len() - e,
            {
                if self.dependencies[e].depender == pkgid && self.dependencies[e].dependency
                    == dep_id {
                    assert(self.dependencies@[e as int] == edge);
                    present = true;
                }
                e = e + 1;
            }
            if !present {
                self.dependencies.push(edge);
            }
            proof {
                assert(self@.packages =~= before.packages);
                assert(self@.files =~= before.files);
                assert(self@.registry =~= before.registry);
                assert(self@.dependencies =~= before.with_edge(edge).dependencies);
                assert(self@ == before.with_edge(edge));
                assert(!o.missing(wanted)[k as int]);
            }
            k = k + 1;
        }
        proof {
            lemma_first_index_none(o.missing(wanted), true);
        }
        Ok(())
    }

    /// The names of the dependencies of the packages whose hash is `hash`,
    /// ordered by the id of the dependency.
    pub fn get_package_dependencies(&self, hash: &str) -> (r: Vec<String>)
        ensures
            r.deep_view() == self@.dependency_names(hash@),
    {
        let mut out: Vec<String> = Vec::new();
        let mut j: usize = 0;
        while j < self.packages.len()
            invariant
                j <= self.packages.len(),
                out.deep_view() == self@.dependency_names_upto(hash@, j as int),
            decreases self.packages.len() - j,
        {
            let ghost start = out.deep_view();
            let mut k: usize = 0;
            while k < self.dependencies.len()
                invariant
                    k <= self.dependencies.len(),
                    j < self.packages.len(),
                    out.deep_view() == start + self@.edge_names(hash@, j as int, k as int),
                decreases self.dependencies.len() - k,
            {
                let e = self.dependencies[k];
                let ghost before = out.deep_view();
                if e.dependency == self.packages[j].id && e.depender >= 1 && (e.depender as u64)
                    <= self.packages.len() as u64 {
                    let d: usize = (e.depender - 1) as usize;
                    if same_text(self.packages[d].hash.as_str(), hash) {
                        out.push(self.packages[j].name.clone());
                        assert(out.deep_view() =~= before.push(self@.packages[j as int].name));
                    }
                }
                assert(out.deep_view() =~= start + self@.edge_names(
                    hash@,
                    j as int,
                    k as int + 1,
                ));
                k = k + 1;
            }
            j = j + 1;
        }
        out
    }
}

/// A package that was inserted can be asked for: where the name had no row
/// and the table had room, or where the name's row held the same hash, the
/// stored hash of the name is the hash of the package.
pub proof fn lemma_insert_then_get(db: DatabaseView, p: PackageView)
    requires
        db.wf(),
        (!db.has_name(p.name) && !db.packages_full()) || db.hash_of(p.name) == Some(p.hash),
    ensures
        db.insert_package(p).hash_of(p.name) == Some(p.hash),
{
    let n = db.insert_package(p);
    lemma_first_index(db.names(), p.name);
    if !db.has_name(p.name) {
        assert(n.names() =~= db.names().push(p.name));
        lemma_first_index_is(n.names(), p.name, db.packages.len() as int);
    }
}

/// Inserting a package a second time changes nothing.
pub proof fn lemma_insert_package_idempotent(db: DatabaseView, p: PackageView)
    requires
        db.wf(),
    ensures
        db.insert_package(p).insert_package(p) == db.insert_package(p),
{
    let n = db.insert_package(p);
    lemma_first_index(db.names(), p.name);
    if !db.has_name(p.name) && !db.packages_full() {
        assert(n.names() =~= db.names().push(p.name));
        lemma_first_index_is(n.names(), p.name, db.packages.len() as int);
    }
}

/// Recording a dependency pair a second time changes nothing.
pub proof fn lemma_with_edge_idempotent(db: DatabaseView, edge: DependencyRow)
    ensures
        db.with_edge(edge).with_edge(edge) == db.with_edge(edge),
{
    if !db.dependencies.contains(edge) {
        assert(db.dependencies.push(edge)[db.dependencies.len() as int] == edge);
    }
}

impl DBTransaction {
    /// Queries the package hash matching the supplied name; `None` where the
    /// package is not in the database.
    pub fn get_package_hash(&self, name: &str) -> (r: Option<String>)
        ensures
            text_option(r) == self@.hash_of(name@),
    {
        self.db.get_package_hash(name)
    }

    /// Queries the package id matching the supplied name; `None` where the
    /// package is not in the database.
    pub fn get_package_id(&self, name: &str) -> (r: Option<i64>)
        ensures
            match r {
                Some(id) => self@.id_of(name@) == Some(id as int),
                None => self@.id_of(name@) is None,
            },
    {
        self.db.get_package_id(name)
    }

    /// Adds the package to the database unless its name has a row.
    pub fn insert_package(&mut self, package: &PackageVariant) -> (r: Result<(), LError>)
        requires
            old(self)@.wf(),
        ensures
            final(self)@.wf(),
            final(self)@ == old(self)@.insert_package(package@),
            r is Err <==> !old(self)@.has_name(package@.name) && old(self)@.packages_full(),
            r is Err ==> r->Err_0@ == sql_error("The packages table is full"@),
    {
        self.db.insert_package(package)
    }

    /// Records the resolved dependencies of `package`, in order, up to the
    /// first one without a row.
    pub fn insert_package_dependencies(&mut self, package: &PackageVariant, pool: &PackagePool) -> (r:
        Result<(), LError>)
        requires
            old(self)@.wf(),
        ensures
            final(self)@.wf(),
            final(self)@ == old(self)@.insert_dependencies(package@, pool@.packages).0,
            match old(self)@.insert_dependencies(package@, pool@.packages).1 {
                None => r is Ok,
                Some(e) => r is Err && r->Err_0@ == e,
            },
    {
        self.db.insert_package_dependencies(package, pool)
    }

    /// Retrieves the names of the dependencies of the package matching the
    /// supplied hash, ordered by the id of the dependency.
    pub fn get_package_dependencies(&self, hash: &str) -> (r: Vec<String>)
        ensures
            r.deep_view() == self@.dependency_names(hash@),
    {
        self.db.get_package_dependencies(hash)
    }
}

impl DBConnection {
    /// Queries the package hash matching the supplied name; `None` where the
    /// package is not in the database.
    pub fn get_package_hash(&self, name: &str) -> (r: Option<String>)
        ensures
            text_option(r) == self@.hash_of(name@),
    {
        self.new_transaction().get_package_hash(name)
    }

    /// Queries the package id matching the supplied name; `None` where the
    /// package is not in the database.
    pub fn get_package_id(&self, name: &str) -> (r: Option<i64>)
        ensures
            match r {
                Some(id) => self@.id_of(name@) == Some(id as int),
                None => self@.id_of(name@) is None,
            },
    {
        self.new_transaction().get_package_id(name)
    }

    /// Adds the package to the database in a transaction of its own. With a
    /// row of the same hash the package is up to date and the insertion is
    /// skipped; a row of another hash is left as it is, too.
    pub fn insert_package(&mut self, package: &PackageVariant) -> (r: Result<(), LError>)
        requires
            old(self)@.wf(),
        ensures
            final(self)@.wf(),
            final(self)@ == old(self)@.insert_package(package@),
            r is Err <==> !old(self)@.has_name(package@.name) && old(self)@.packages_full(),
            r is Err ==> r->Err_0@ == sql_error("The packages table is full"@),
    {
        let mut transaction = self.new_transaction();
        match transaction.insert_package(package) {
            Ok(()) => {
                transaction.commit(self);
                Ok(())
            },
            Err(e) => {
                transaction.rollback(self);
                Err(e)
            },
        }
    }

    /// Records the dependencies of `package` in a transaction of its own:
    /// all of them, or none where one of them has no row.
    pub fn insert_package_dependencies(&mut self, package: &PackageVariant, pool: &PackagePool) -> (r:
        Result<(), LError>)
        requires
            old(self)@.wf(),
        ensures
            final(self)@.wf(),
            match old(self)@.insert_dependencies(package@, pool@.packages).1 {
                None => r is Ok && final(self)@ == old(self)@.insert_dependencies(
                    package@,
                    pool@.packages,
                ).0,
                Some(e) => r is Err && r->Err_0@ == e && final(self)@ == old(self)@,
            },
    {
        let mut transaction = self.new_transaction();
        match transaction.insert_package_dependencies(package, pool) {
            Ok(()) => {
                transaction.commit(self);
                Ok(())
            },
            Err(e) => {
                transaction.rollback(self);
                Err(e)
            },
        }
    }

    /// Retrieves the names of the dependencies of the package matching the
    /// supplied hash, ordered by the id of the dependency.
    pub fn get_package_dependencies(&self, hash: &str) -> (r: Vec<String>)
        ensures
            r.deep_view() == self@.dependency_names(hash@),
    {
        self.new_transaction().get_package_dependencies(hash)
    }
}

/// Recording edges changes the dependencies only, and every pair that was
/// recorded stays recorded.
pub proof fn lemma_with_edges_keeps(db: DatabaseView, depender: int, names: Seq<Seq<char>>, k: int)
    requires
        0 <= k <= names.len(),
    ensures
        db.with_edges(depender, names, k).packages == db.packages,
        db.with_edges(depender, names, k).files == db.files,
        db.with_edges(depender, names, k).registry == db.registry,
        forall|e: DependencyRow|
            db.dependencies.contains(e) ==> db.with_edges(depender, names, k).dependencies.contains(e),
        forall|j: int|
            0 <= j < k && db.has_name(#[trigger] names[j]) ==> db.with_edges(
                depender,
                names,
                k,
            ).dependencies.contains(
                DependencyRow {
                    depender: depender as i64,
                    dependency: db.id_of(names[j])->Some_0 as i64,
                },
            ),
    decreases k,
{
    if k > 0 {
        lemma_with_edges_keeps(db, depender, names, k - 1);
        let before = db.with_edges(depender, names, k - 1);
        let after = db.with_edges(depender, names, k);
        assert forall|e: DependencyRow| before.dependencies.contains(e) implies after.dependencies.contains(
            e,
        ) by {
            let i = choose|i: int| 0 <= i < before.dependencies.len() && before.dependencies[i] == e;
            assert(after.dependencies[i] == e);
        }
        if db.has_name(names[k - 1]) {
            let edge = DependencyRow {
                depender: depender as i64,
                dependency: db.id_of(names[k - 1])->Some_0 as i64,
            };
            if !before.dependencies.contains(edge) {
                assert(after.dependencies[before.dependencies.len() as int] == edge);
            }
        }
    }
}

/// Recording edges that are all recorded already changes nothing.
pub proof fn lemma_with_edges_present(db: DatabaseView, depender: int, names: Seq<Seq<char>>, k: int)
    requires
        0 <= k <= names.len(),
        forall|j: int|
            0 <= j < k && db.has_name(#[trigger] names[j]) ==> db.dependencies.contains(
                DependencyRow {
                    depender: depender as i64,
                    dependency: db.id_of(names[j])->Some_0 as i64,
                },
            ),
    ensures
        db.with_edges(depender, names, k) == db,
    decreases k,
{
    if k > 0 {
        lemma_with_edges_present(db, depender, names, k - 1);
        assert(db.has_name(names[k - 1]) ==> db.dependencies.contains(
            DependencyRow {
                depender: depender as i64,
                dependency: db.id_of(names[k - 1])->Some_0 as i64,
            },
        ));
    }
}

/// Recording the dependencies of a package a second time changes nothing.
pub proof fn lemma_insert_dependencies_idempotent(db: DatabaseView, p: PackageView, pool: Seq<PackageView>)
    requires
        db.insert_dependencies(p, pool).1 is None,
    ensures
        db.insert_dependencies(p, pool).0.insert_dependencies(p, pool) == (
            db.insert_dependencies(p, pool).0,
            None::<LErrorView>,
        ),
{
    let id = db.id_of(p.name)->Some_0;
    let names = resolved_names(pool, p.dependencies)->Ok_0;
    let n = names.len() as int;
    let k = first_index(db.missing(names), true);
    lemma_first_index(db.missing(names), true);
    assert(k == n);
    let after = db.with_edges(id, names, n);
    lemma_with_edges_keeps(db, id, names, n);
    assert(after.names() =~= db.names());
    assert(after.missing(names) =~= db.missing(names));
    assert forall|j: int| 0 <= j < n && after.has_name(#[trigger] names[j]) implies after.dependencies.contains(
        DependencyRow { depender: id as i64, dependency: after.id_of(names[j])->Some_0 as i64 },
    ) by {
        assert(db.has_name(names[j]));
    }
    lemma_with_edges_present(after, id, names, n);
}

/// Inserting a package keeps the rules of the tables.
pub proof fn lemma_insert_package_wf(db: DatabaseView, p: PackageView)
    requires
        db.wf(),
    ensures
        db.insert_package(p).wf(),
        db.insert_package(p).files == db.files,
        db.insert_package(p).dependencies == db.dependencies,
        db.insert_package(p).registry == db.registry,
        !db.has_name(p.name) && !db.packages_full() ==> db.insert_package(p).id_of(p.name) == Some(
            db.packages.len() as int + 1,
        ),
{
    let n = db.insert_package(p);
    lemma_first_index(db.names(), p.name);
    if !db.has_name(p.name) && !db.packages_full() {
        assert(n.names() =~= db.names().push(p.name));
        assert(n.paths() =~= db.paths());
        assert(n.keys() =~= db.keys());
        lemma_first_index_is(n.names(), p.name, db.packages.len() as int);
        assert forall|i: int, j: int| 0 <= i < j < n.names().len() implies n.names()[i]
            != n.names()[j] by {
            if j < db.names().len() {
                assert(db.names()[i] != db.names()[j]);
            } else {
                assert(db.names()[i] != p.name);
            }
        }
    }
}

/// Whether the dependency row at place `e` was written for the package row
/// at place `j` by a package whose hash is `hash`.
pub open spec fn written(db: DatabaseView, hash: Seq<char>, j: int, e: int) -> bool {
    &&& 0 <= j < db.packages.len()
    &&& 0 <= e < db.dependencies.len()
    &&& db.dependencies[e].dependency == db.packages[j].id
    &&& db.has_package(db.dependencies[e].depender as int)
    &&& db.packages[db.dependencies[e].depender - 1].hash == hash
}

/// Every name that a package row contributes as a dependency is its own,
/// and stands for a dependency row that a package of the hash wrote for it.
pub proof fn lemma_edge_names_from(db: DatabaseView, hash: Seq<char>, j: int, k: int, x: int)
    requires
        0 <= j < db.packages.len(),
        0 <= k <= db.dependencies.len(),
        0 <= x < db.edge_names(hash, j, k).len(),
    ensures
        db.edge_names(hash, j, k)[x] == db.packages[j].name,
        exists|e: int| 0 <= e < k && #[trigger] written(db, hash, j, e),
    decreases k,
{
    if k > 0 {
        let before = db.edge_names(hash, j, k - 1);
        if x < before.len() {
            lemma_edge_names_from(db, hash, j, k - 1, x);
            let e = choose|e: int| 0 <= e < k - 1 && #[trigger] written(db, hash, j, e);
            assert(written(db, hash, j, e));
            assert(db.edge_names(hash, j, k)[x] == before[x]);
        } else {
            assert(written(db, hash, j, k - 1));
        }
    }
}

/// Every recorded dependency name of a hash is the name of a package row
/// for which a package of the hash wrote a dependency row.
pub proof fn lemma_dependency_names_from(db: DatabaseView, hash: Seq<char>, j: int, x: int)
    requires
        0 <= j <= db.packages.len(),
        0 <= x < db.dependency_names_upto(hash, j).len(),
    ensures
        exists|at: int, e: int|
            0 <= at < j && #[trigger] written(db, hash, at, e) && db.dependency_names_upto(hash, j)[x]
                == db.packages[at].name,
    decreases j,
{
    if j > 0 {
        let before = db.dependency_names_upto(hash, j - 1);
        let here = db.edge_names(hash, j - 1, db.dependencies.len() as int);
        if x < before.len() {
            lemma_dependency_names_from(db, hash, j - 1, x);
            let (at, e) = choose|at: int, e: int|
                0 <= at < j - 1 && #[trigger] written(db, hash, at, e) && before[x] == db.packages[at].name;
            assert(written(db, hash, at, e));
            assert(db.dependency_names_upto(hash, j)[x] == before[x]);
        } else {
            assert(db.dependency_names_upto(hash, j)[x] == here[x - before.len()]);
            lemma_edge_names_from(db, hash, j - 1, db.dependencies.len() as int, x - before.len());
            let e = choose|e: int|
                0 <= e < db.dependencies.len() && #[trigger] written(db, hash, j - 1, e);
            assert(written(db, hash, j - 1, e));
        }
    }
}

/// What is read back as a dependency of a package stands in the table as a
/// pair of that package, where no other package row has its hash.
pub proof fn lemma_recorded_pair(db: DatabaseView, i: int, x: int)
    requires
        db.wf(),
        0 <= i < db.packages.len(),
        forall|j: int|
            0 <= j < db.packages.len() && (#[trigger] db.packages[j]).hash == db.packages[i].hash ==> j == i,
        0 <= x < db.dependency_names(db.packages[i].hash).len(),
    ensures
        db.has_name(db.dependency_names(db.packages[i].hash)[x]),
        db.dependencies.contains(
            DependencyRow {
                depender: db.packages[i].id as i64,
                dependency: db.id_of(db.dependency_names(db.packages[i].hash)[x])->Some_0 as i64,
            },
        ),
{
    let hash = db.packages[i].hash;
    let name = db.dependency_names(hash)[x];
    lemma_dependency_names_from(db, hash, db.packages.len() as int, x);
    let (at, e) = choose|at: int, e: int|
        0 <= at < db.packages.len() && #[trigger] written(db, hash, at, e) && name == db.packages[at].name;
    assert(db.names()[at] == name);
    assert forall|b: int| 0 <= b < at implies db.names()[b] != name by {
        assert(db.names()[b] != db.names()[at]);
    }
    crate::util::search::lemma_first_index_is(db.names(), name, at);
    let d = db.dependencies[e].depender;
    assert(db.packages[d - 1].hash == hash);
    assert(d - 1 == i);
    assert(db.packages[i].id == i + 1);
    assert(db.packages[at].id == at + 1);
    assert(db.dependencies[e] == DependencyRow {
        depender: db.packages[i].id as i64,
        dependency: db.id_of(name)->Some_0 as i64,
    });
}

} // verus!
