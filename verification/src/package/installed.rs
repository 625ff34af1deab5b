//! Packages that have been deployed to the root.
use vstd::prelude::*;
use vstd::string::StringExecFns;
use crate::package::PackageRefTrait;
use crate::package::{CorePackage, Dependencies, PackageExtra, PackageView};
use crate::package::LocalPackage;
use crate::util::fs::{duplicate_forest, forest_view, FSEntry};

verus! {

/// An installed package with the filesystem trees it owns.
#[derive(Debug)]
pub struct InstalledPackage {
    pub name: String,
    pub version: String,
    pub real_version: u64,
    pub description: String,
    pub dependencies: Dependencies,
    pub hash: String,
    /// The filesystem trees that the package owns, rooted at the target root.
    pub files: Vec<FSEntry>,
}

impl View for InstalledPackage {
    type V = PackageView;

    open spec fn view(&self) -> PackageView {
        PackageView {
            name: self.name@,
            version: self.version@,
            real_version: self.real_version,
            description: self.description@,
            hash: self.hash@,
            dependencies: self.dependencies@,
            extra: PackageExtra::Installed { files: forest_view(self.files@) },
        }
    }
}

impl CorePackage for InstalledPackage {
    open spec fn model(&self) -> PackageView {
        self@
    }

    fn name(&self) -> (r: &str) {
        let r = self.name.as_str();
        assert(self.model() == self@);
        assert(r@ == self@.name);
        r
    }

    fn version(&self) -> (r: &str) {
        self.version.as_str()
    }

    fn real_version(&self) -> (r: u64) {
        self.real_version
    }

    fn description(&self) -> (r: &str) {
        self.description.as_str()
    }

    fn dependencies(&self) -> (r: &Dependencies) {
        &self.dependencies
    }

    fn hash(&self) -> (r: &str) {
        self.hash.as_str()
    }
}

impl InstalledPackage {
    /// The installed package that a deployed local package becomes: the same
    /// package, owning `files`.
    pub fn from_local(local: &LocalPackage, files: Vec<FSEntry>) -> (r: InstalledPackage)
        ensures
            r@ == (PackageView {
                extra: PackageExtra::Installed { files: forest_view(files@) },
                ..local@
            }),
    {
        InstalledPackage {
            name: local.name.clone(),
            version: local.version.clone(),
            real_version: local.real_version,
            description: local.description.clone(),
            dependencies: local.dependencies.duplicate(),
            hash: local.hash.clone(),
            files,
        }
    }

    /// The filesystem trees that the package owns.
    pub fn get_files(&self) -> (r: &Vec<FSEntry>)
        ensures
            self@.extra == (PackageExtra::Installed { files: forest_view(r@) }),
    {
        &self.files
    }
}

impl PackageRefTrait for InstalledPackage {
    fn set_name(&mut self, name: &str) {
        self.name = String::from_str(name);
    }

    fn set_version(&mut self, version: &str) {
        self.version = String::from_str(version);
    }

    fn set_real_version(&mut self, real_version: u64) {
        self.real_version = real_version;
    }

    fn set_description(&mut self, description: &str) {
        self.description = String::from_str(description);
    }

    fn set_dependencies(&mut self, dependencies: Dependencies) {
        self.dependencies = dependencies;
    }

    fn set_hash(&mut self, hash: &str) {
        self.hash = String::from_str(hash);
    }

    fn clone_to_resolved(&self) -> (r: Self) {
        InstalledPackage {
            name: self.name.clone(),
            version: self.version.clone(),
            real_version: self.real_version,
            description: self.description.clone(),
            dependencies: Dependencies::Resolved(Vec::new()),
            hash: self.hash.clone(),
            files: duplicate_forest(&self.files),
        }
    }
}

} // verus!
