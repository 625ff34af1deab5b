//! Packages that a mirror offers.
use vstd::prelude::*;
use vstd::string::StringExecFns;
use crate::package::PackageRefTrait;
use crate::config::dirs::download_dir_path;
use crate::config::Config;
use crate::package::{full_name_text, CorePackage, Dependencies, LocalPackage, PackageExtra, PackageView};
use crate::util::hash::{digest_text, hash_bytes};
use crate::util::text::{join_path, path_join, same_text};

verus! {

/// A remote package, ready to be fetched from a remote server.
#[derive(Debug)]
pub struct RemotePackage {
    pub name: String,
    pub version: String,
    pub real_version: u64,
    pub description: String,
    pub dependencies: Dependencies,
    pub hash: String,
    /// Where the archive can be fetched.
    pub url: String,
}

impl View for RemotePackage {
    type V = PackageView;

    open spec fn view(&self) -> PackageView {
        PackageView {
            name: self.name@,
            version: self.version@,
            real_version: self.real_version,
            description: self.description@,
            hash: self.hash@,
            dependencies: self.dependencies@,
            extra: PackageExtra::Remote { url: self.url@ },
        }
    }
}

impl CorePackage for RemotePackage {
    open spec fn model(&self) -> PackageView {
        self@
    }

    fn name(&self) -> (r: &str) {
        let r = self.name.as_str();
        assert(self.model() == self@);
        assert(r@ == self@.name);
        r
    }

    fn version(&self) -> (r: &str) {
        self.version.as_str()
    }

    fn real_version(&self) -> (r: u64) {
        self.real_version
    }

    fn description(&self) -> (r: &str) {
        self.description.as_str()
    }

    fn dependencies(&self) -> (r: &Dependencies) {
        &self.dependencies
    }

    fn hash(&self) -> (r: &str) {
        self.hash.as_str()
    }
}

impl RemotePackage {
    /// A copy of the package.
    pub fn duplicate(&self) -> (r: RemotePackage)
        ensures
            r@ == self@,
    {
        RemotePackage {
            name: self.name.clone(),
            version: self.version.clone(),
            real_version: self.real_version,
            description: self.description.clone(),
            dependencies: self.dependencies.duplicate(),
            hash: self.hash.clone(),
            url: self.url.clone(),
        }
    }
}

/// What fetching a remote package starts with.
#[derive(Debug)]
pub enum FetchDecision {
    /// The archive is on disk already: this is the local package.
    Reuse(LocalPackage),
    /// The archive has to be downloaded from `url` to the file `path`.
    Download { url: String, path: String },
}

/// The file that the archive of a package is downloaded to:
/// `<download_dir>/<full_name>.lfpkg`.
pub open spec fn archive_path(p: PackageView, c: Config) -> Seq<char> {
    join_path(download_dir_path(c), full_name_text(p) + ".lfpkg"@)
}

/// The local package that a remote package becomes with an archive of the
/// given hash.
pub open spec fn local_view(p: PackageView, hash: Seq<char>, c: Config) -> PackageView {
    PackageView { hash, extra: PackageExtra::Local { path: archive_path(p, c) }, ..p }
}

impl RemotePackage {
    /// The file that the archive of this package is downloaded to.
    pub fn get_archive_path(&self, config: &Config) -> (r: String)
        ensures
            r@ == archive_path(self@, *config),
    {
        let dir = config.get_download_dir();
        let mut file = self.full_name();
        file.append(".lfpkg");
        path_join(dir.as_str(), file.as_str())
    }

    /// Decides how to fetch this package, given the content of the archive
    /// file if there is one. A file whose hash equals the hash of the catalog
    /// is used as it is and the network is not contacted; otherwise the
    /// archive has to be downloaded.
    pub fn fetch(&self, config: &Config, cached: Option<&[u8]>) -> (r: FetchDecision)
        ensures
            match cached {
                Some(content) if digest_text(content@) == self@.hash => r matches FetchDecision::Reuse(
                    local,
                ) && local@ == local_view(self@, self@.hash, *config),
                _ => r matches FetchDecision::Download { url, path } && url@ == self@.extra->url
                    && path@ == archive_path(self@, *config),
            },
    {
        let path = self.get_archive_path(config);
        match cached {
            Some(content) => {
                let hash = hash_bytes(content);
                if same_text(hash.as_str(), self.hash.as_str()) {
                    return FetchDecision::Reuse(
                        LocalPackage::from_remote(self, hash.as_str(), path.as_str()),
                    );
                }
            },
            None => {},
        }
        FetchDecision::Download { url: self.url.clone(), path }
    }

    /// The local package that this package becomes once `content` has been
    /// written to the archive file: it carries the hash of what was written,
    /// whether or not that is the hash of the catalog.
    pub fn fetched(&self, config: &Config, content: &[u8]) -> (r: LocalPackage)
        ensures
            r@ == local_view(self@, digest_text(content@), *config),
    {
        let path = self.get_archive_path(config);
        let hash = hash_bytes(content);
        LocalPackage::from_remote(self, hash.as_str(), path.as_str())
    }
}

impl PackageRefTrait for RemotePackage {
    fn set_name(&mut self, name: &str) {
        self.name = String::from_str(name);
    }

    fn set_version(&mut self, version: &str) {
        self.version = String::from_str(version);
    }

    fn set_real_version(&mut self, real_version: u64) {
        self.real_version = real_version;
    }

    fn set_description(&mut self, description: &str) {
        self.description = String::from_str(description);
    }

    fn set_dependencies(&mut self, dependencies: Dependencies) {
        self.dependencies = dependencies;
    }

    fn set_hash(&mut self, hash: &str) {
        self.hash = String::from_str(hash);
    }

    fn clone_to_resolved(&self) -> (r: Self) {
        RemotePackage {
            name: self.name.clone(),
            version: self.version.clone(),
            real_version: self.real_version,
            description: self.description.clone(),
            dependencies: Dependencies::Resolved(Vec::new()),
            hash: self.hash.clone(),
            url: self.url.clone(),
        }
    }
}

} // verus!
