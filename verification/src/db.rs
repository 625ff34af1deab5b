//! The index of installed packages: the tables, their rules, and the
//! connection and transaction through which they are read and changed.
pub mod fsentries;
pub mod packages;
pub mod reg;
pub mod tables;
use vstd::prelude::*;
use crate::error::{LErrorClass, LErrorView};
use crate::util::fs::text_option;
use crate::util::search::distinct;

verus! {

/// A row of the `packages` table.
#[derive(Debug)]
pub struct PackageRow {
    pub id: i64,
    pub name: String,
    pub version: String,
    pub real_version: u64,
    pub description: String,
    pub hash: String,
}

/// A row of the `dependencies` table: `depender` needs `dependency`.
#[derive(Debug, Clone, Copy, PartialEq, Eq, Structural)]
pub struct DependencyRow {
    pub depender: i64,
    pub dependency: i64,
}

/// A row of the `files` table.
#[derive(Debug)]
pub struct FileRow {
    pub id: i64,
    pub package: i64,
    pub path: String,
    pub isfile: bool,
    pub hash: Option<String>,
}

/// A row of the `registry` table.
#[derive(Debug)]
pub struct RegistryRow {
    pub key: String,
    pub value: String,
}

/// The four tables of the index.
#[derive(Debug)]
pub struct Database {
    pub packages: Vec<PackageRow>,
    pub dependencies: Vec<DependencyRow>,
    pub files: Vec<FileRow>,
    pub registry: Vec<RegistryRow>,
}

/// A package row as plain values.
pub struct PackageRowView {
    pub id: int,
    pub name: Seq<char>,
    pub version: Seq<char>,
    pub real_version: u64,
    pub description: Seq<char>,
    pub hash: Seq<char>,
}

/// A file row as plain values.
pub struct FileRowView {
    pub id: int,
    pub package: int,
    pub path: Seq<char>,
    pub isfile: bool,
    pub hash: Option<Seq<char>>,
}

/// A registry row as plain values.
pub struct RegistryRowView {
    pub key: Seq<char>,
    pub value: Seq<char>,
}

/// The tables as plain values.
pub struct DatabaseView {
    pub packages: Seq<PackageRowView>,
    pub dependencies: Seq<DependencyRow>,
    pub files: Seq<FileRowView>,
    pub registry: Seq<RegistryRowView>,
}

impl View for PackageRow {
    type V = PackageRowView;

    open spec fn view(&self) -> PackageRowView {
        PackageRowView {
            id: self.id as int,
            name: self.name@,
            version: self.version@,
            real_version: self.real_version,
            description: self.description@,
            hash: self.hash@,
        }
    }
}

impl View for FileRow {
    type V = FileRowView;

    open spec fn view(&self) -> FileRowView {
        FileRowView {
            id: self.id as int,
            package: self.package as int,
            path: self.path@,
            isfile: self.isfile,
            hash: text_option(self.hash),
        }
    }
}

impl View for RegistryRow {
    type V = RegistryRowView;

    open spec fn view(&self) -> RegistryRowView {
        RegistryRowView { key: self.key@, value: self.value@ }
    }
}

impl View for Database {
    type V = DatabaseView;

    open spec fn view(&self) -> DatabaseView {
        DatabaseView {
            packages: Seq::new(self.packages@.len(), |i: int| self.packages@[i]@),
            dependencies: self.dependencies@,
            files: Seq::new(self.files@.len(), |i: int| self.files@[i]@),
            registry: Seq::new(self.registry@.len(), |i: int| self.registry@[i]@),
        }
    }
}

/// The largest number of rows that a table can give an id to.
pub open spec fn max_rows() -> int {
    i64::MAX as int
}

impl DatabaseView {
    /// The names of the package rows, in row order.
    pub open spec fn names(self) -> Seq<Seq<char>> {
        Seq::new(self.packages.len(), |i: int| self.packages[i].name)
    }

    /// The paths of the file rows, in row order.
    pub open spec fn paths(self) -> Seq<Seq<char>> {
        Seq::new(self.files.len(), |i: int| self.files[i].path)
    }

    /// The keys of the registry rows, in row order.
    pub open spec fn keys(self) -> Seq<Seq<char>> {
        Seq::new(self.registry.len(), |i: int| self.registry[i].key)
    }

    /// Whether `id` is the id of a package row.
    pub open spec fn has_package(self, id: int) -> bool {
        1 <= id <= self.packages.len()
    }

    /// The rules of the tables. Rows stand in the order of their ids, which
    /// count from 1 without gaps, as an insert-only table gives them. Package
    /// names, file paths, registry keys and dependency pairs are unique. Every
    /// dependency and every file refers to a package row that exists.
    pub open spec fn wf(self) -> bool {
        &&& self.packages.len() <= max_rows()
        &&& self.files.len() <= max_rows()
        &&& forall|i: int| 0 <= i < self.packages.len() ==> (#[trigger] self.packages[i]).id == i + 1
        &&& forall|i: int| 0 <= i < self.files.len() ==> (#[trigger] self.files[i]).id == i + 1
        &&& distinct(self.names())
        &&& distinct(self.paths())
        &&& distinct(self.keys())
        &&& distinct(self.dependencies)
        &&& forall|i: int|
            0 <= i < self.dependencies.len() ==> self.has_package(
                (#[trigger] self.dependencies[i]).depender as int,
            ) && self.has_package(self.dependencies[i].dependency as int)
        &&& forall|i: int|
            0 <= i < self.files.len() ==> self.has_package((#[trigger] self.files[i]).package)
    }

    /// The tables without any row.
    pub open spec fn empty() -> DatabaseView {
        DatabaseView {
            packages: Seq::empty(),
            dependencies: Seq::empty(),
            files: Seq::empty(),
            registry: Seq::empty(),
        }
    }
}

/// The error that a table's rule was broken, with what broke it.
pub open spec fn sql_error(message: Seq<char>) -> LErrorView {
    LErrorView { class: LErrorClass::SQL, messages: seq![message] }
}

impl PackageRow {
    /// A copy of the row.
    pub fn duplicate(&self) -> (r: PackageRow)
        ensures
            r@ == self@,
    {
        PackageRow {
            id: self.id,
            name: self.name.clone(),
            version: self.version.clone(),
            real_version: self.real_version,
            description: self.description.clone(),
            hash: self.hash.clone(),
        }
    }
}

impl FileRow {
    /// A copy of the row.
    pub fn duplicate(&self) -> (r: FileRow)
        ensures
            r@ == self@,
    {
        FileRow {
            id: self.id,
            package: self.package,
            path: self.path.clone(),
            isfile: self.isfile,
            hash: match &self.hash {
                Some(h) => Some(h.clone()),
                None => None,
            },
        }
    }
}

impl RegistryRow {
    /// A copy of the row.
    pub fn duplicate(&self) -> (r: RegistryRow)
        ensures
            r@ == self@,
    {
        RegistryRow { key: self.key.clone(), value: self.value.clone() }
    }
}

impl Database {
    /// The tables without any row.
    pub fn new() -> (r: Database)
        ensures
            r@ == DatabaseView::empty(),
            r@.wf(),
    {
        let r = Database {
            packages: Vec::new(),
            dependencies: Vec::new(),
            files: Vec::new(),
            registry: Vec::new(),
        };
        assert(r@.packages =~= Seq::empty());
        assert(r@.files =~= Seq::empty());
        assert(r@.registry =~= Seq::empty());
        assert(r@.dependencies =~= Seq::empty());
        r
    }

    /// A copy of all four tables.
    pub fn duplicate(&self) -> (r: Database)
        ensures
            r@ == self@,
    {
        let mut packages: Vec<PackageRow> = Vec::new();
        let mut i: usize = 0;
        while i < self.packages.len()
            invariant
                i <= self.packages.len(),
                packages@.len() == i,
                forall|j: int| 0 <= j < i ==> (#[trigger] packages@[j])@ == self.packages@[j]@,
            decreases self.packages.len() - i,
        {
            packages.push(self.packages[i].duplicate());
            i = i + 1;
        }
        let mut files: Vec<FileRow> = Vec::new();
        let mut i: usize = 0;
        while i < self.files.len()
            invariant
                i <= self.files.len(),
                files@.len() == i,
                forall|j: int| 0 <= j < i ==> (#[trigger] files@[j])@ == self.files@[j]@,
            decreases self.files.len() - i,
        {
            files.push(self.files[i].duplicate());
            i = i + 1;
        }
        let mut registry: Vec<RegistryRow> = Vec::new();
        let mut i: usize = 0;
        while i < self.registry.len()
            invariant
                i <= self.registry.len(),
                registry@.len() == i,
                forall|j: int| 0 <= j < i ==> (#[trigger] registry@[j])@ == self.registry@[j]@,
            decreases self.registry.len() - i,
        {
            registry.push(self.registry[i].duplicate());
            i = i + 1;
        }
        let dependencies = self.dependencies.clone();
        let r = Database { packages, dependencies, files, registry };
        assert(r@.packages =~= self@.packages);
        assert(r@.files =~= self@.files);
        assert(r@.registry =~= self@.registry);
        assert(r@.dependencies =~= self@.dependencies);
        r
    }
}

/// Represents a connection to a database: the tables as they were last committed.
#[derive(Debug)]
pub struct DBConnection {
    pub db: Database,
}

/// Represents a database transaction: a working copy of the tables that
/// replaces the committed ones on commit and is dropped on rollback.
#[derive(Debug)]
pub struct DBTransaction {
    pub db: Database,
}

impl View for DBConnection {
    type V = DatabaseView;

    open spec fn view(&self) -> DatabaseView {
        self.db@
    }
}

impl View for DBTransaction {
    type V = DatabaseView;

    open spec fn view(&self) -> DatabaseView {
        self.db@
    }
}

impl DBConnection {
    /// Creates a new transaction for this database. It starts from the
    /// committed tables.
    pub fn new_transaction(&self) -> (r: DBTransaction)
        ensures
            r@ == self@,
    {
        DBTransaction { db: self.db.duplicate() }
    }
}

impl DBTransaction {
    /// Consumes this transaction and commits its changes to the database.
    pub fn commit(self, connection: &mut DBConnection)
        ensures
            final(connection)@ == self@,
    {
        connection.db = self.db;
    }

    /// Consumes this transaction and rolls its changes back: the database
    /// keeps the tables as they were last committed.
    pub fn rollback(self, connection: &mut DBConnection)
        ensures
            final(connection)@ == old(connection)@,
    {
    }
}

} // verus!
