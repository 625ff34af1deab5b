//! The `files` table: which package owns which path.
use vstd::prelude::*;
use crate::db::packages::not_inserted_error;
use crate::db::{sql_error, DBTransaction, Database, DatabaseView, FileRow, FileRowView};
use crate::error::{LError, LErrorClass};
use crate::package::InstalledPackage;
use crate::util::fs::{
    flatten_forest, flatten_tree, forest_view, lemma_children_view, EntryView, FSEntry, FlatEntry,
};
use crate::util::text::{path_join, same_text};

verus! {

/// The text of the error for a file that the table refuses.
pub open spec fn refused_text() -> Seq<char> {
    "The path is owned already or the files table is full"@
}

impl DatabaseView {
    /// Whether the files table can take no further row.
    pub open spec fn files_full(self) -> bool {
        self.files.len() >= crate::db::max_rows()
    }

    /// Whether the table refuses a row for `path`: the path has a row, or the
    /// table is full.
    pub open spec fn refuses(self, path: Seq<char>) -> bool {
        self.paths().contains(path) || self.files_full()
    }

    /// The tables with one more file row, owned by the package with id `package`.
    pub open spec fn with_file(self, package: int, e: FlatEntry) -> DatabaseView {
        DatabaseView {
            files: self.files.push(
                FileRowView {
                    id: self.files.len() as int + 1,
                    package,
                    path: e.path,
                    isfile: e.is_file,
                    hash: e.hash,
                },
            ),
            ..self
        }
    }

    /// The tables after the entries of `flat` were inserted in order for the
    /// package with id `package`, and whether all of them were taken. Insertion
    /// stops at the first entry that the table refuses.
    pub open spec fn with_files(self, package: int, flat: Seq<FlatEntry>) -> (DatabaseView, bool)
        decreases flat.len(),
    {
        if flat.len() == 0 {
            (self, true)
        } else {
            let (before, ok) = self.with_files(package, flat.drop_last());
            if !ok || before.refuses(flat.last().path) {
                (before, false)
            } else {
                (before.with_file(package, flat.last()), true)
            }
        }
    }

    /// The path below which the children of the file row with id `parent` lie:
    /// the row's own path, the empty path for no parent, none for an id
    /// without a row.
    pub open spec fn parent_path(self, parent: Option<i64>) -> Option<Seq<char>> {
        match parent {
            None => Some(Seq::empty()),
            Some(id) => if 1 <= id <= self.files.len() {
                Some(self.files[id - 1].path)
            } else {
                None
            },
        }
    }

    /// The paths that the package with id `package` owns.
    pub open spec fn owned_paths(self, package: int) -> Set<Seq<char>> {
        Set::new(
            |path: Seq<char>|
                exists|i: int|
                    0 <= i < self.files.len() && (#[trigger] self.files[i]).package == package
                        && self.files[i].path == path,
        )
    }
}

/// The paths of a flat listing.
pub open spec fn flat_paths(flat: Seq<FlatEntry>) -> Set<Seq<char>> {
    Set::new(|path: Seq<char>| exists|k: int| 0 <= k < flat.len() && (#[trigger] flat[k]).path == path)
}

/// Inserting one listing after another is inserting them in a row.
pub proof fn lemma_with_files_concat(db: DatabaseView, package: int, a: Seq<FlatEntry>, b: Seq<FlatEntry>)
    ensures
        db.with_files(package, a + b) == if db.with_files(package, a).1 {
            db.with_files(package, a).0.with_files(package, b)
        } else {
            (db.with_files(package, a).0, false)
        },
    decreases b.len(),
{
    if b.len() == 0 {
        assert(a + b =~= a);
    } else {
        lemma_with_files_concat(db, package, a, b.drop_last());
        assert((a + b).drop_last() =~= a + b.drop_last());
        assert((a + b).last() == b.last());
    }
}

/// Inserting files changes the files table only, keeps the rows that are
/// there, and keeps the rules where the owner exists.
pub proof fn lemma_with_files_keeps(db: DatabaseView, package: int, flat: Seq<FlatEntry>)
    requires
        db.wf(),
        db.has_package(package),
    ensures
        db.with_files(package, flat).0.wf(),
        db.with_files(package, flat).0.packages == db.packages,
        db.with_files(package, flat).0.dependencies == db.dependencies,
        db.with_files(package, flat).0.registry == db.registry,
        db.with_files(package, flat).0.files.len() >= db.files.len(),
        db.with_files(package, flat).0.files.take(db.files.len() as int) == db.files,
        db.with_files(package, flat).1 ==> db.with_files(package, flat).0.files.len()
            == db.files.len() + flat.len(),
        forall|i: int|
            db.files.len() <= i < db.with_files(package, flat).0.files.len() ==> {
                &&& (#[trigger] db.with_files(package, flat).0.files[i]).package == package
                &&& db.with_files(package, flat).0.files[i].path == flat[i - db.files.len()].path
                &&& db.with_files(package, flat).0.files[i].hash == flat[i - db.files.len()].hash
                &&& db.with_files(package, flat).0.files[i].isfile == flat[i
                    - db.files.len()].is_file
                &&& i - db.files.len() < flat.len()
            },
    decreases flat.len(),
{
    if flat.len() == 0 {
        assert(db.files.take(db.files.len() as int) =~= db.files);
    } else {
        lemma_with_files_keeps(db, package, flat.drop_last());
        let (before, ok) = db.with_files(package, flat.drop_last());
        let after = db.with_files(package, flat).0;
        if ok && !before.refuses(flat.last().path) {
            assert(after.names() =~= before.names());
            assert(after.keys() =~= before.keys());
            assert(after.paths() =~= before.paths().push(flat.last().path));
            assert forall|i: int, j: int| 0 <= i < j < after.paths().len() implies after.paths()[i]
                != after.paths()[j] by {
                if j == before.paths().len() {
                    assert(before.paths().contains(before.paths()[i]));
                } else {
                    assert(before.paths()[i] != before.paths()[j]);
                }
            }
            assert(after.files.take(db.files.len() as int) =~= before.files.take(
                db.files.len() as int,
            ));
            assert forall|i: int| db.files.len() <= i < after.files.len() implies {
                &&& (#[trigger] after.files[i]).package == package
                &&& after.files[i].path == flat[i - db.files.len()].path
                &&& after.files[i].hash == flat[i - db.files.len()].hash
                &&& after.files[i].isfile == flat[i - db.files.len()].is_file
                &&& i - db.files.len() < flat.len()
            } by {
                if i < before.files.len() {
                    assert(after.files[i] == before.files[i]);
                    assert(flat.drop_last()[i - db.files.len()] == flat[i - db.files.len()]);
                }
            }
        } else {
            assert forall|i: int| db.files.len() <= i < after.files.len() implies {
                &&& (#[trigger] after.files[i]).package == package
                &&& after.files[i].path == flat[i - db.files.len()].path
                &&& after.files[i].hash == flat[i - db.files.len()].hash
                &&& after.files[i].isfile == flat[i - db.files.len()].is_file
                &&& i - db.files.len() < flat.len()
            } by {
                assert(flat.drop_last()[i - db.files.len()] == flat[i - db.files.len()]);
            }
        }
    }
}

/// Once every entry of a listing was inserted for a package that owned
/// nothing before, the package owns exactly the paths of the listing.
pub proof fn lemma_owned_paths(db: DatabaseView, package: int, flat: Seq<FlatEntry>)
    requires
        db.wf(),
        db.has_package(package),
        db.with_files(package, flat).1,
        forall|i: int| 0 <= i < db.files.len() ==> (#[trigger] db.files[i]).package != package,
    ensures
        db.with_files(package, flat).0.owned_paths(package) == flat_paths(flat),
{
    lemma_with_files_keeps(db, package, flat);
    let after = db.with_files(package, flat).0;
    let n = db.files.len() as int;
    assert forall|path: Seq<char>| after.owned_paths(package).contains(path) implies flat_paths(
        flat,
    ).contains(path) by {
        let i = choose|i: int|
            0 <= i < after.files.len() && (#[trigger] after.files[i]).package == package
                && after.files[i].path == path;
        if i < n {
            assert(after.files.take(n)[i] == db.files[i]);
        }
        assert(flat[i - n].path == path);
    }
    assert forall|path: Seq<char>| flat_paths(flat).contains(path) implies after.owned_paths(
        package,
    ).contains(path) by {
        let k = choose|k: int| 0 <= k < flat.len() && (#[trigger] flat[k]).path == path;
        assert(after.files[n + k].package == package);
    }
    assert(after.owned_paths(package) =~= flat_paths(flat));
}

/// The listing of a list of trees starts with the listing of its first trees.
pub proof fn lemma_flatten_prefix(s: Seq<EntryView>, prefix: Seq<char>, k: int)
    requires
        0 <= k <= s.len(),
    ensures
        flatten_forest(s, prefix) == flatten_forest(s.take(k), prefix) + flatten_forest(
            s.skip(k),
            prefix,
        ),
    decreases s.len() - k,
{
    if k == s.len() {
        assert(s.take(k) =~= s);
        assert(s.skip(k) =~= Seq::empty());
        assert(flatten_forest(s, prefix) =~= flatten_forest(s, prefix) + Seq::empty());
    } else {
        lemma_flatten_prefix(s.drop_last(), prefix, k);
        assert(s.drop_last().take(k) =~= s.take(k));
        assert(s.skip(k).drop_last() =~= s.drop_last().skip(k));
        assert(s.skip(k).last() == s.last());
        assert(flatten_forest(s, prefix) =~= flatten_forest(s.take(k), prefix) + flatten_forest(
            s.skip(k),
            prefix,
        ));
    }
}

impl Database {
    /// Whether a file row holds `path`.
    pub fn has_path(&self, path: &str) -> (r: bool)
        ensures
            r == self@.paths().contains(path@),
    {
        let mut i: usize = 0;
        while i < self.files.len()
            invariant
                i <= self.files.len(),
                forall|j: int| 0 <= j < i ==> self@.paths()[j] != path@,
            decreases self.files.len() - i,
        {
            if same_text(self.files[i].path.as_str(), path) {
                assert(self@.paths()[i as int] == path@);
                return true;
            }
            i = i + 1;
        }
        false
    }

    fn insert_below(&mut self, pkgid: i64, prefix: &str, entries: &Vec<FSEntry>) -> (r: Result<
        (),
        LError,
    >)
        requires
            old(self)@.wf(),
            old(self)@.has_package(pkgid as int),
        ensures
            final(self)@.wf(),
            (final(self)@, r is Ok) == old(self)@.with_files(
                pkgid as int,
                flatten_forest(forest_view(entries@), prefix@),
            ),
            r is Err ==> r->Err_0@ == sql_error(refused_text()),
        decreases entries,
    {
        let ghost o = old(self)@;
        let ghost all = forest_view(entries@);
        let mut i: usize = 0;
        proof {
            assert(all.take(0) =~= Seq::<EntryView>::empty());
        }
        while i < entries.len()
            invariant
                i <= entries.len(),
                o.wf(),
                o == old(self)@,
                o.has_package(pkgid as int),
                all == forest_view(entries@),
                self@.wf(),
                self@.has_package(pkgid as int),
                (self@, true) == o.with_files(pkgid as int, flatten_forest(all.take(i as int), prefix@)),
            decreases entries.len() - i,
        {
            let entry = &entries[i];
            let path = path_join(prefix, entry.name.as_str());
            let ghost done = flatten_forest(all.take(i as int), prefix@);
            let ghost here = FlatEntry {
                path: path@,
                is_file: entry@.hash is Some,
                hash: entry@.hash,
            };
            let ghost below = flatten_forest(entry@.children, path@);
            let ghost rest = flatten_forest(all.skip(i + 1), prefix@);
            let ghost before = self@;
            proof {
                lemma_children_view(*entry);
                lemma_flatten_prefix(all, prefix@, i + 1);
                assert(all.take(i + 1).drop_last() =~= all.take(i as int));
                assert(all.take(i + 1).last() == entry@);
                assert(flatten_tree(entry@, prefix@) =~= seq![here] + below);
                assert(flatten_forest(all.take(i + 1), prefix@) =~= (done + seq![here]) + below);
                assert(flatten_forest(all, prefix@) =~= ((done + seq![here]) + below) + rest);
                lemma_with_files_concat(o, pkgid as int, done, seq![here]);
                lemma_with_files_concat(o, pkgid as int, done + seq![here], below);
                lemma_with_files_concat(o, pkgid as int, (done + seq![here]) + below, rest);
                assert(seq![here].drop_last() =~= Seq::<FlatEntry>::empty());
                assert(seq![here].last() == here);
                assert(before.with_files(pkgid as int, seq![here].drop_last()) == (before, true));
                assert(before.with_files(pkgid as int, seq![here]) == if before.refuses(path@) {
                    (before, false)
                } else {
                    (before.with_file(pkgid as int, here), true)
                });
            }
            let m: usize = self.files.len();
            if self.has_path(path.as_str()) || m as u64 >= i64::MAX as u64 {
                return Err(
                    LError::new(
                        LErrorClass::SQL,
                        "The path is owned already or the files table is full",
                    ),
                );
            }
            let row = FileRow {
                id: (m as u64 + 1) as i64,
                package: pkgid,
                path: path.clone(),
                isfile: entry.hash.is_some(),
                hash: match &entry.hash {
                    Some(h) => Some(h.clone()),
                    None => None,
                },
            };
            self.files.push(row);
            proof {
                assert(self@.files =~= before.with_file(pkgid as int, here).files);
                assert(self@.packages =~= before.packages);
                assert(self@.registry =~= before.registry);
                assert(self@ == before.with_file(pkgid as int, here));
                lemma_with_files_keeps(before, pkgid as int, seq![here]);
            }
            let ghost middle = self@;
            let below_result = self.insert_below(pkgid, path.as_str(), &entry.children);
            if below_result.is_err() {
                return below_result;
            }
            proof {
                lemma_with_files_keeps(middle, pkgid as int, below);
            }
            i = i + 1;
        }
        proof {
            assert(all.take(i as int) =~= all);
        }
        Ok(())
    }

    /// Adds the supplied trees below the file row `parent`, owned by the
    /// package with id `pkgid`: each entry gets a row whose path is its name
    /// joined to the path of what it lies in, and its children follow below it.
    /// Insertion stops at the first entry that the table refuses.
    pub fn insert_files(&mut self, pkgid: i64, parent: Option<i64>, files: &Vec<FSEntry>) -> (r:
        Result<(), LError>)
        requires
            old(self)@.wf(),
        ensures
            final(self)@.wf(),
            !old(self)@.has_package(pkgid as int) ==> r is Err && r->Err_0@ == sql_error(
                "The package does not exist"@,
            ) && final(self)@ == old(self)@,
            old(self)@.has_package(pkgid as int) ==> match old(self)@.parent_path(parent) {
                None => r is Err && r->Err_0@ == sql_error("The parent entry does not exist"@)
                    && final(self)@ == old(self)@,
                Some(prefix) => (final(self)@, r is Ok) == old(self)@.with_files(
                    pkgid as int,
                    flatten_forest(forest_view(files@), prefix),
                ) && (r is Err ==> r->Err_0@ == sql_error(refused_text())),
            },
    {
        if pkgid < 1 || pkgid as u64 > self.packages.len() as u64 {
            return Err(LError::new(LErrorClass::SQL, "The package does not exist"));
        }
        match parent {
            None => {
                proof {
                    reveal_strlit("");
                    assert(""@ =~= Seq::<char>::empty());
                }
                self.insert_below(pkgid, "", files)
            },
            Some(id) => {
                if id < 1 || id as u64 > self.files.len() as u64 {
                    return Err(LError::new(LErrorClass::SQL, "The parent entry does not exist"));
                }
                let prefix = self.files[(id - 1) as usize].path.clone();
                self.insert_below(pkgid, prefix.as_str(), files)
            },
        }
    }

    /// Adds the trees that an installed package owns, below no parent. The
    /// package needs a row.
    pub fn insert_package_files(&mut self, package: &InstalledPackage) -> (r: Result<(), LError>)
        requires
            old(self)@.wf(),
        ensures
            final(self)@.wf(),
            match old(self)@.id_of(package@.name) {
                None => r is Err && r->Err_0@ == not_inserted_error() && final(self)@ == old(self)@,
                Some(id) => (final(self)@, r is Ok) == old(self)@.with_files(
                    id,
                    flatten_forest(forest_view(package.files@), Seq::empty()),
                ) && (r is Err ==> r->Err_0@ == sql_error(refused_text())),
            },
    {
        let pkgid: i64 = match self.find_package(package.name.as_str()) {
            Some(i) => {
                assert(self@.packages[i as int].id == i + 1);
                self.packages[i].id
            },
            None => {
                return Err(LError::new(LErrorClass::PackageNotFound, "Insert the package first"));
            },
        };
        self.insert_files(pkgid, None, &package.files)
    }
}

impl DBTransaction {
    /// Adds the supplied trees below the file row `parent`, owned by the
    /// package with id `pkgid`.
    pub fn insert_files(&mut self, pkgid: i64, parent: Option<i64>, files: &Vec<FSEntry>) -> (r:
        Result<(), LError>)
        requires
            old(self)@.wf(),
        ensures
            final(self)@.wf(),
            !old(self)@.has_package(pkgid as int) ==> r is Err && r->Err_0@ == sql_error(
                "The package does not exist"@,
            ) && final(self)@ == old(self)@,
            old(self)@.has_package(pkgid as int) ==> match old(self)@.parent_path(parent) {
                None => r is Err && r->Err_0@ == sql_error("The parent entry does not exist"@)
                    && final(self)@ == old(self)@,
                Some(prefix) => (final(self)@, r is Ok) == old(self)@.with_files(
                    pkgid as int,
                    flatten_forest(forest_view(files@), prefix),
                ) && (r is Err ==> r->Err_0@ == sql_error(refused_text())),
            },
    {
        self.db.insert_files(pkgid, parent, files)
    }

    /// Adds the trees that an installed package owns. The package needs a row.
    pub fn insert_package_files(&mut self, package: &InstalledPackage) -> (r: Result<(), LError>)
        requires
            old(self)@.wf(),
        ensures
            final(self)@.wf(),
            match old(self)@.id_of(package@.name) {
                None => r is Err && r->Err_0@ == not_inserted_error() && final(self)@ == old(self)@,
                Some(id) => (final(self)@, r is Ok) == old(self)@.with_files(
                    id,
                    flatten_forest(forest_view(package.files@), Seq::empty()),
                ) && (r is Err ==> r->Err_0@ == sql_error(refused_text())),
            },
    {
        self.db.insert_package_files(package)
    }
}

} // verus!
