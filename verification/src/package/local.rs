//! Packages whose archive has been fetched.
use vstd::prelude::*;
use vstd::string::StringExecFns;
use crate::package::PackageRefTrait;
use crate::config::dirs::{download_dir_path, packages_dir_path, root_path};
use crate::config::Config;
use crate::package::{full_name_text, CorePackage, Dependencies, InstalledPackage, PackageExtra, PackageView};
use crate::util::fs::{copy_recursive, forest_view, index, index_forest, plan_forest, plan_view, CopyStep, FSEntry, FsNode};
use crate::util::text::{join_path, path_join};
use crate::package::RemotePackage;

verus! {

/// A local package, ready to be installed.
#[derive(Debug)]
pub struct LocalPackage {
    pub name: String,
    pub version: String,
    pub real_version: u64,
    pub description: String,
    pub dependencies: Dependencies,
    pub hash: String,
    /// Where the downloaded archive lies on disk.
    pub path: String,
}

impl View for LocalPackage {
    type V = PackageView;

    open spec fn view(&self) -> PackageView {
        PackageView {
            name: self.name@,
            version: self.version@,
            real_version: self.real_version,
            description: self.description@,
            hash: self.hash@,
            dependencies: self.dependencies@,
            extra: PackageExtra::Local { path: self.path@ },
        }
    }
}

impl CorePackage for LocalPackage {
    open spec fn model(&self) -> PackageView {
        self@
    }

    fn name(&self) -> (r: &str) {
        let r = self.name.as_str();
        assert(self.model() == self@);
        assert(r@ == self@.name);
        r
    }

    fn version(&self) -> (r: &str) {
        self.version.as_str()
    }

    fn real_version(&self) -> (r: u64) {
        self.real_version
    }

    fn description(&self) -> (r: &str) {
        self.description.as_str()
    }

    fn dependencies(&self) -> (r: &Dependencies) {
        &self.dependencies
    }

    fn hash(&self) -> (r: &str) {
        self.hash.as_str()
    }
}

impl LocalPackage {
    /// The local package that a fetched remote package becomes: the same
    /// package, with the hash of what was fetched and the place where it lies.
    pub fn from_remote(remote: &RemotePackage, hash: &str, path: &str) -> (r: LocalPackage)
        ensures
            r@ == (PackageView {
                hash: hash@,
                extra: PackageExtra::Local { path: path@ },
                ..remote@
            }),
    {
        LocalPackage {
            name: remote.name.clone(),
            version: remote.version.clone(),
            real_version: remote.real_version,
            description: remote.description.clone(),
            dependencies: remote.dependencies.duplicate(),
            hash: String::from_str(hash),
            path: String::from_str(path),
        }
    }
}

/// The directory that results when the package is extracted:
/// `<packages_dir>/<full_name>`.
pub open spec fn extracted_dir_path(p: PackageView, c: Config) -> Seq<char> {
    join_path(packages_dir_path(c), full_name_text(p))
}

/// The directory that the package's root filesystem lives in:
/// `<packages_dir>/<full_name>/data`.
pub open spec fn data_dir_path(p: PackageView, c: Config) -> Seq<char> {
    join_path(extracted_dir_path(p, c), "data"@)
}

/// What extracting a package asks for.
#[derive(Debug)]
pub struct Extraction {
    /// The tree to remove first where it exists.
    pub stale: String,
    /// The archive to unpack.
    pub archive: String,
    /// The directory to unpack into.
    pub destination: String,
}

/// The outcome of a deployment: the package as installed and the steps that
/// bring its files into the root.
#[derive(Debug)]
pub struct Deployment {
    pub package: InstalledPackage,
    pub steps: Vec<CopyStep>,
}

impl LocalPackage {
    /// Returns the directory that results when the package is extracted.
    ///
    /// Example: package `glibc-2.36` -> `<packages_dir>/glibc-2.36`.
    pub fn get_extracted_dir(&self, config: &Config) -> (r: String)
        ensures
            r@ == extracted_dir_path(self@, *config),
    {
        let dir = config.get_packages_dir();
        let name = self.extract_name();
        path_join(dir.as_str(), name.as_str())
    }

    /// Returns the directory that the package root filesystem lives in.
    ///
    /// Example: package `glibc-2.36` -> `<packages_dir>/glibc-2.36/data`.
    pub fn get_data_dir(&self, config: &Config) -> (r: String)
        ensures
            r@ == data_dir_path(self@, *config),
    {
        let dir = self.get_extracted_dir(config);
        path_join(dir.as_str(), "data")
    }

    /// Says what extracting the package into the packages directory takes:
    /// the tree of an earlier extraction goes first, then the archive
    /// `<download_dir>/<full_name>.lfpkg` is unpacked into the packages directory.
    pub fn extract(&self, config: &Config) -> (r: Extraction)
        ensures
            r.stale@ == extracted_dir_path(self@, *config),
            r.archive@ == join_path(download_dir_path(*config), full_name_text(self@) + ".lfpkg"@),
            r.destination@ == packages_dir_path(*config),
    {
        let downloads = config.get_download_dir();
        let mut file = self.full_name();
        file.append(".lfpkg");
        Extraction {
            stale: self.get_extracted_dir(config),
            archive: path_join(downloads.as_str(), file.as_str()),
            destination: config.get_packages_dir(),
        }
    }

    /// Plans the copy of the package contents to the root: the steps for
    /// `files` from the data directory to the root, and the package as
    /// installed, owning `files`.
    pub fn copy_to_root(&self, config: &Config, files: Vec<FSEntry>) -> (r: Deployment)
        ensures
            r.package@ == (PackageView {
                extra: PackageExtra::Installed { files: forest_view(files@) },
                ..self@
            }),
            plan_view(r.steps@) == plan_forest(
                forest_view(files@),
                data_dir_path(self@, *config),
                root_path(*config),
            ),
    {
        let src = self.get_data_dir(config);
        let dest = config.get_root();
        let mut steps: Vec<CopyStep> = Vec::new();
        copy_recursive(src.as_str(), dest.as_str(), &files, &mut steps);
        assert(plan_view(steps@) =~= plan_forest(forest_view(files@), src@, dest@)) by {
            assert(plan_view(Seq::<CopyStep>::empty()) =~= Seq::empty());
            assert(Seq::<crate::util::fs::CopyStepView>::empty() + plan_forest(
                forest_view(files@),
                src@,
                dest@,
            ) =~= plan_forest(forest_view(files@), src@, dest@));
        }
        Deployment { package: InstalledPackage::from_local(self, files), steps }
    }

    /// Deploys this package, given what its extracted data directory holds:
    /// the directory is indexed, the index becomes the files that the
    /// installed package owns, and the steps copy them to the root.
    pub fn deploy(&self, config: &Config, data: &Vec<FsNode>) -> (r: Deployment)
        ensures
            r.package@ == (PackageView {
                extra: PackageExtra::Installed { files: index_forest(data@) },
                ..self@
            }),
            plan_view(r.steps@) == plan_forest(
                index_forest(data@),
                data_dir_path(self@, *config),
                root_path(*config),
            ),
    {
        let files = index(data);
        self.copy_to_root(config, files)
    }
}

impl PackageRefTrait for LocalPackage {
    fn set_name(&mut self, name: &str) {
        self.name = String::from_str(name);
    }

    fn set_version(&mut self, version: &str) {
        self.version = String::from_str(version);
    }

    fn set_real_version(&mut self, real_version: u64) {
        self.real_version = real_version;
    }

    fn set_description(&mut self, description: &str) {
        self.description = String::from_str(description);
    }

    fn set_dependencies(&mut self, dependencies: Dependencies) {
        self.dependencies = dependencies;
    }

    fn set_hash(&mut self, hash: &str) {
        self.hash = String::from_str(hash);
    }

    fn clone_to_resolved(&self) -> (r: Self) {
        LocalPackage {
            name: self.name.clone(),
            version: self.version.clone(),
            real_version: self.real_version,
            description: self.description.clone(),
            dependencies: Dependencies::Resolved(Vec::new()),
            hash: self.hash.clone(),
            path: self.path.clone(),
        }
    }
}

} // verus!
