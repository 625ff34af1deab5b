//! The package model: what every package has in common, its three variants
//! and the handles by which a pool refers to them.
pub mod installed;
pub mod local;
pub mod packageref;
pub mod remote;
pub use installed::InstalledPackage;
pub use local::LocalPackage;
pub use packageref::{PackagePool, PackageRef, PackageRefTrait};
pub use remote::RemotePackage;
use vstd::prelude::*;
use vstd::string::StringExecFns;
use crate::error::{LError, LErrorClass, LErrorView};
use crate::util::fs::EntryView;
use crate::util::text::{decimal_string, decimal_text};

verus! {

/// The dependencies of a package: names that still have to be looked up, or
/// handles to the packages that were found for them.
#[derive(Debug)]
pub enum Dependencies {
    Unresolved(Vec<String>),
    Resolved(Vec<PackageRef>),
}

/// Dependencies as plain values.
pub enum DependenciesView {
    Unresolved(Seq<Seq<char>>),
    Resolved(Seq<PackageRef>),
}

impl View for Dependencies {
    type V = DependenciesView;

    open spec fn view(&self) -> DependenciesView {
        match self {
            Dependencies::Unresolved(names) => DependenciesView::Unresolved(names.deep_view()),
            Dependencies::Resolved(handles) => DependenciesView::Resolved(handles@),
        }
    }
}

/// What only one variant of a package carries.
pub enum PackageExtra {
    /// A remote package knows where its archive can be fetched.
    Remote { url: Seq<char> },
    /// A local package knows where its archive lies on disk.
    Local { path: Seq<char> },
    /// An installed package knows the filesystem trees it owns.
    Installed { files: Seq<EntryView> },
}

/// A package as plain values.
pub struct PackageView {
    pub name: Seq<char>,
    pub version: Seq<char>,
    pub real_version: u64,
    pub description: Seq<char>,
    pub hash: Seq<char>,
    pub dependencies: DependenciesView,
    pub extra: PackageExtra,
}

/// The full name of a package, as used in file names: `<name>-<version>`.
pub open spec fn full_name_text(p: PackageView) -> Seq<char> {
    p.name + "-"@ + p.version
}

/// The fully qualified name of a package: `<name>-<version>-<real_version>`.
pub open spec fn fq_name_text(p: PackageView) -> Seq<char> {
    p.name + "-"@ + p.version + "-"@ + decimal_text(p.real_version as nat)
}

/// The error for dependencies that are asked for in the form they do not have.
pub open spec fn dependencies_error(resolved_wanted: bool) -> LErrorView {
    if resolved_wanted {
        LErrorView {
            class: LErrorClass::UnresolvedDependencies,
            messages: seq!["Dependencies have not been resolved"@],
        }
    } else {
        LErrorView {
            class: LErrorClass::UnexpectedPackageVariant,
            messages: seq!["Dependencies have already been resolved"@],
        }
    }
}

impl Dependencies {
    /// The dependency names, as long as they have not been resolved.
    pub fn get_unresolved(&self) -> (r: Result<&Vec<String>, LError>)
        ensures
            match self@ {
                DependenciesView::Unresolved(names) => r is Ok && r->Ok_0.deep_view() == names,
                DependenciesView::Resolved(_) => r is Err && r->Err_0@ == dependencies_error(false),
            },
    {
        match self {
            Dependencies::Unresolved(names) => Ok(names),
            Dependencies::Resolved(_) => Err(
                LError::new(
                    LErrorClass::UnexpectedPackageVariant,
                    "Dependencies have already been resolved",
                ),
            ),
        }
    }

    /// The handles of the dependencies, once they have been resolved.
    pub fn get_resolved(&self) -> (r: Result<&Vec<PackageRef>, LError>)
        ensures
            match self@ {
                DependenciesView::Resolved(handles) => r is Ok && r->Ok_0@ == handles,
                DependenciesView::Unresolved(_) => r is Err && r->Err_0@ == dependencies_error(true),
            },
    {
        match self {
            Dependencies::Resolved(handles) => Ok(handles),
            Dependencies::Unresolved(_) => Err(
                LError::new(
                    LErrorClass::UnresolvedDependencies,
                    "Dependencies have not been resolved",
                ),
            ),
        }
    }

    /// A copy that keeps names as names and handles as handles.
    pub fn duplicate(&self) -> (r: Dependencies)
        ensures
            r@ == self@,
    {
        match self {
            Dependencies::Unresolved(names) => {
                let copy = names.clone();
                assert(copy.deep_view() =~= names.deep_view());
                Dependencies::Unresolved(copy)
            },
            Dependencies::Resolved(handles) => {
                let copy = handles.clone();
                assert(copy@ =~= handles@);
                Dependencies::Resolved(copy)
            },
        }
    }
}

/// Core information about a package, whatever its variant.
pub trait CorePackage {
    /// The package as plain values.
    spec fn model(&self) -> PackageView;

    /// Return the name of the package.
    fn name(&self) -> (r: &str)
        ensures
            r@ == self.model().name,
    ;

    /// Return the version string for the package.
    fn version(&self) -> (r: &str)
        ensures
            r@ == self.model().version,
    ;

    /// Return the real version number for the package.
    fn real_version(&self) -> (r: u64)
        ensures
            r == self.model().real_version,
    ;

    /// Return the description of the package.
    fn description(&self) -> (r: &str)
        ensures
            r@ == self.model().description,
    ;

    /// Return the dependencies of the package.
    fn dependencies(&self) -> (r: &Dependencies)
        ensures
            r@ == self.model().dependencies,
    ;

    /// Return the hash of the package archive.
    fn hash(&self) -> (r: &str)
        ensures
            r@ == self.model().hash,
    ;

    /// Return the full name for the package: `<name>-<version>`.
    fn full_name(&self) -> (r: String)
        ensures
            r@ == full_name_text(self.model()),
    {
        let mut out = String::from_str(self.name());
        out.append("-");
        out.append(self.version());
        out
    }

    /// The name for the package when it is extracted: `<name>-<version>`.
    fn extract_name(&self) -> (r: String)
        ensures
            r@ == full_name_text(self.model()),
    {
        self.full_name()
    }
}

/// All possible package variants that can exist.
#[derive(Debug)]
pub enum PackageVariant {
    /// A remote package that can be fetched.
    Remote(RemotePackage),
    /// A local package that can be installed.
    Local(LocalPackage),
    /// An installed package.
    Installed(InstalledPackage),
}

impl View for PackageVariant {
    type V = PackageView;

    open spec fn view(&self) -> PackageView {
        match self {
            PackageVariant::Remote(p) => p@,
            PackageVariant::Local(p) => p@,
            PackageVariant::Installed(p) => p@,
        }
    }
}

/// The error for a package that is not of the variant asked for.
pub open spec fn variant_error(wanted: Seq<char>, p: PackageView) -> LErrorView {
    LErrorView {
        class: LErrorClass::UnexpectedPackageVariant,
        messages: seq!["Expected a "@ + wanted + " package: "@ + fq_name_text(p)],
    }
}

/// Writes the fully qualified name of a package.
pub fn fq_name_string(name: &str, version: &str, real_version: u64) -> (r: String)
    ensures
        r@ == name@ + "-"@ + version@ + "-"@ + decimal_text(real_version as nat),
{
    let mut out = String::from_str(name);
    out.append("-");
    out.append(version);
    out.append("-");
    let number = decimal_string(real_version);
    out.append(number.as_str());
    out
}

fn variant_mismatch(wanted: &str, package: &PackageVariant) -> (r: LError)
    ensures
        r@ == variant_error(wanted@, package@),
{
    let mut text = String::from_str("Expected a ");
    text.append(wanted);
    text.append(" package: ");
    let fq = fq_name_string(package.name(), package.version(), package.real_version());
    text.append(fq.as_str());
    LError::new(LErrorClass::UnexpectedPackageVariant, text.as_str())
}

impl PackageVariant {
    /// Set the dependencies needed by this package.
    pub fn set_dependencies(&mut self, dependencies: Dependencies)
        ensures
            final(self)@ == (PackageView { dependencies: dependencies@, ..old(self)@ }),
    {
        match self {
            PackageVariant::Remote(p) => {
                p.dependencies = dependencies;
            },
            PackageVariant::Local(p) => {
                p.dependencies = dependencies;
            },
            PackageVariant::Installed(p) => {
                p.dependencies = dependencies;
            },
        }
    }

    /// The remote package behind this variant, or `UnexpectedPackageVariant`.
    pub fn as_remote(&self) -> (r: Result<&RemotePackage, LError>)
        ensures
            self is Remote ==> r is Ok && *r->Ok_0 == self->Remote_0,
            !(self is Remote) ==> r is Err && r->Err_0@ == variant_error("remote"@, self@),
    {
        match self {
            PackageVariant::Remote(p) => Ok(p),
            _ => Err(variant_mismatch("remote", self)),
        }
    }

    /// The local package behind this variant, or `UnexpectedPackageVariant`.
    pub fn as_local(&self) -> (r: Result<&LocalPackage, LError>)
        ensures
            self is Local ==> r is Ok && *r->Ok_0 == self->Local_0,
            !(self is Local) ==> r is Err && r->Err_0@ == variant_error("local"@, self@),
    {
        match self {
            PackageVariant::Local(p) => Ok(p),
            _ => Err(variant_mismatch("local", self)),
        }
    }

    /// The installed package behind this variant, or `UnexpectedPackageVariant`.
    pub fn as_installed(&self) -> (r: Result<&InstalledPackage, LError>)
        ensures
            self is Installed ==> r is Ok && *r->Ok_0 == self->Installed_0,
            !(self is Installed) ==> r is Err && r->Err_0@ == variant_error("installed"@, self@),
    {
        match self {
            PackageVariant::Installed(p) => Ok(p),
            _ => Err(variant_mismatch("installed", self)),
        }
    }
}

impl CorePackage for PackageVariant {
    open spec fn model(&self) -> PackageView {
        self@
    }

    fn name(&self) -> (r: &str) {
        let r = match self {
            PackageVariant::Remote(p) => p.name(),
            PackageVariant::Local(p) => p.name(),
            PackageVariant::Installed(p) => p.name(),
        };
        assert(self.model() == self@);
        assert(r@ == self@.name);
        r
    }

    fn version(&self) -> (r: &str) {
        match self {
            PackageVariant::Remote(p) => p.version.as_str(),
            PackageVariant::Local(p) => p.version.as_str(),
            PackageVariant::Installed(p) => p.version.as_str(),
        }
    }

    fn real_version(&self) -> (r: u64) {
        match self {
            PackageVariant::Remote(p) => p.real_version,
            PackageVariant::Local(p) => p.real_version,
            PackageVariant::Installed(p) => p.real_version,
        }
    }

    fn description(&self) -> (r: &str) {
        match self {
            PackageVariant::Remote(p) => p.description.as_str(),
            PackageVariant::Local(p) => p.description.as_str(),
            PackageVariant::Installed(p) => p.description.as_str(),
        }
    }

    fn dependencies(&self) -> (r: &Dependencies) {
        match self {
            PackageVariant::Remote(p) => &p.dependencies,
            PackageVariant::Local(p) => &p.dependencies,
            PackageVariant::Installed(p) => &p.dependencies,
        }
    }

    fn hash(&self) -> (r: &str) {
        match self {
            PackageVariant::Remote(p) => p.hash.as_str(),
            PackageVariant::Local(p) => p.hash.as_str(),
            PackageVariant::Installed(p) => p.hash.as_str(),
        }
    }
}

impl PackageRefTrait for PackageVariant {
    fn set_name(&mut self, name: &str) {
        match self {
            PackageVariant::Remote(p) => p.set_name(name),
            PackageVariant::Local(p) => p.set_name(name),
            PackageVariant::Installed(p) => p.set_name(name),
        }
    }

    fn set_version(&mut self, version: &str) {
        match self {
            PackageVariant::Remote(p) => p.set_version(version),
            PackageVariant::Local(p) => p.set_version(version),
            PackageVariant::Installed(p) => p.set_version(version),
        }
    }

    fn set_real_version(&mut self, real_version: u64) {
        match self {
            PackageVariant::Remote(p) => p.set_real_version(real_version),
            PackageVariant::Local(p) => p.set_real_version(real_version),
            PackageVariant::Installed(p) => p.set_real_version(real_version),
        }
    }

    fn set_description(&mut self, description: &str) {
        match self {
            PackageVariant::Remote(p) => p.set_description(description),
            PackageVariant::Local(p) => p.set_description(description),
            PackageVariant::Installed(p) => p.set_description(description),
        }
    }

    fn set_dependencies(&mut self, dependencies: Dependencies) {
        match self {
            PackageVariant::Remote(p) => p.set_dependencies(dependencies),
            PackageVariant::Local(p) => p.set_dependencies(dependencies),
            PackageVariant::Installed(p) => p.set_dependencies(dependencies),
        }
    }

    fn set_hash(&mut self, hash: &str) {
        match self {
            PackageVariant::Remote(p) => p.set_hash(hash),
            PackageVariant::Local(p) => p.set_hash(hash),
            PackageVariant::Installed(p) => p.set_hash(hash),
        }
    }

    fn clone_to_resolved(&self) -> (r: Self) {
        match self {
            PackageVariant::Remote(p) => PackageVariant::Remote(p.clone_to_resolved()),
            PackageVariant::Local(p) => PackageVariant::Local(p.clone_to_resolved()),
            PackageVariant::Installed(p) => PackageVariant::Installed(p.clone_to_resolved()),
        }
    }
}

} // verus!
