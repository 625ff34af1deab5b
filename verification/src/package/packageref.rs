//! Handles to packages and the pool that they refer into.
use vstd::prelude::*;
use vstd::string::StringExecFns;
use crate::error::{LError, LErrorClass, LErrorView};
use crate::package::{
    dependencies_error, fq_name_string, fq_name_text, full_name_text, CorePackage, Dependencies,
    DependenciesView, PackageVariant, PackageView,
};
use crate::util::search::{distinct, first_index, lemma_first_index_is, lemma_first_index_none};
use crate::util::text::same_text;

verus! {

/// A handle to a package of a pool. Every holder of the handle sees the same
/// package, whatever variant it currently has.
pub type PackageRef = usize;

/// The packages of one resolution: every package that a handle was made for,
/// and the ordered working list of those that belong to the plan.
#[derive(Debug)]
pub struct PackagePool {
    /// The package behind each handle.
    pub packages: Vec<PackageVariant>,
    /// The plan: handles in the order in which they are to be installed.
    pub order: Vec<PackageRef>,
    /// Whether a dependency cycle was met while the plan was made. The plan
    /// of a pool with a cycle is a linearisation, not a topological order.
    pub cyclic: bool,
}

/// A pool as plain values.
pub struct PoolView {
    pub packages: Seq<PackageView>,
    pub order: Seq<PackageRef>,
    pub cyclic: bool,
}

impl View for PackagePool {
    type V = PoolView;

    open spec fn view(&self) -> PoolView {
        PoolView {
            packages: Seq::new(self.packages@.len(), |i: int| self.packages@[i]@),
            order: self.order@,
            cyclic: self.cyclic,
        }
    }
}

/// The error for a handle that no package stands behind.
pub open spec fn dangling_error() -> LErrorView {
    LErrorView {
        class: LErrorClass::PackageNotFound,
        messages: seq!["A dependency refers to a package that is not in the pool"@],
    }
}

/// The names behind resolved dependencies, in order: an error for unresolved
/// dependencies and for a handle that no package stands behind.
pub open spec fn resolved_names(packages: Seq<PackageView>, deps: DependenciesView) -> Result<
    Seq<Seq<char>>,
    LErrorView,
> {
    match deps {
        DependenciesView::Unresolved(_) => Err(dependencies_error(true)),
        DependenciesView::Resolved(hs) => if forall|k: int|
            0 <= k < hs.len() ==> #[trigger] hs[k] < packages.len() {
            Ok(Seq::new(hs.len(), |k: int| packages[hs[k] as int].name))
        } else {
            Err(dangling_error())
        },
    }
}

/// The handles of resolved dependencies; none while they are unresolved.
pub open spec fn resolved_handles(d: DependenciesView) -> Seq<PackageRef> {
    match d {
        DependenciesView::Resolved(hs) => hs,
        DependenciesView::Unresolved(_) => Seq::empty(),
    }
}

impl PoolView {
    /// The names of the plan's packages, in plan order. A handle without a
    /// package has the empty name.
    pub open spec fn names(self) -> Seq<Seq<char>> {
        Seq::new(
            self.order.len(),
            |i: int|
                if self.order[i] < self.packages.len() {
                    self.packages[self.order[i] as int].name
                } else {
                    Seq::empty()
                },
        )
    }

    /// The hashes of the plan's packages, in plan order.
    pub open spec fn hashes(self) -> Seq<Seq<char>> {
        Seq::new(
            self.order.len(),
            |i: int|
                if self.order[i] < self.packages.len() {
                    self.packages[self.order[i] as int].hash
                } else {
                    Seq::empty()
                },
        )
    }

    /// The handles that the package behind `h` depends on, once resolved.
    pub open spec fn deps(self, h: int) -> Seq<PackageRef> {
        resolved_handles(self.packages[h].dependencies)
    }

    /// Whether every handle of the plan has a package behind it.
    pub open spec fn handles_valid(self) -> bool {
        forall|i: int| 0 <= i < self.order.len() ==> #[trigger] self.order[i] < self.packages.len()
    }

    /// Whether no two packages of the plan share a name.
    pub open spec fn names_unique(self) -> bool {
        distinct(self.names())
    }

    /// Whether every resolved dependency list of every package of the plan
    /// refers only to packages that are themselves in the plan.
    pub open spec fn closed(self) -> bool {
        forall|i: int, k: int|
            0 <= i < self.order.len() && 0 <= k < self.deps(self.order[i] as int).len()
                ==> self.order.contains(#[trigger] self.deps(self.order[i] as int)[k])
    }

    /// Whether every package of the plan stands behind all the packages that it
    /// depends on.
    pub open spec fn sorted(self) -> bool {
        forall|i: int, k: int|
            0 <= i < self.order.len() && 0 <= k < self.deps(self.order[i] as int).len()
                ==> first_index(self.order, #[trigger] self.deps(self.order[i] as int)[k]) < i
    }

    /// Whether the package behind `h` has its dependencies resolved.
    pub open spec fn finished(self, h: int) -> bool {
        self.packages[h].dependencies is Resolved
    }

    /// Whether every package that a package of the plan depends on has its own
    /// dependencies resolved.
    pub open spec fn deps_finished(self) -> bool {
        forall|i: int, k: int|
            0 <= i < self.order.len() && 0 <= k < self.deps(self.order[i] as int).len()
                ==> self.finished(#[trigger] self.deps(self.order[i] as int)[k] as int)
    }

    /// The rules that a pool keeps at every point of rest: handles have
    /// packages, names are unique, dependencies stay within the plan, and the
    /// plan is ordered by dependency unless a cycle was met.
    pub open spec fn wf(self) -> bool {
        &&& self.handles_valid()
        &&& self.names_unique()
        &&& self.closed()
        &&& !self.cyclic ==> self.sorted() && self.deps_finished()
    }

    /// Whether every package of the plan has its dependencies resolved.
    pub open spec fn resolved(self) -> bool {
        forall|i: int| 0 <= i < self.order.len() ==> self.finished(#[trigger] self.order[i] as int)
    }
}

impl PackagePool {
    /// A pool without packages.
    pub fn new() -> (r: PackagePool)
        ensures
            r@.packages.len() == 0,
            r@.order.len() == 0,
            !r@.cyclic,
            r@.wf(),
    {
        PackagePool { packages: Vec::new(), order: Vec::new(), cyclic: false }
    }

    /// Makes a handle for `package`. The plan is not changed.
    pub fn add(&mut self, package: PackageVariant) -> (h: PackageRef)
        ensures
            h == old(self)@.packages.len(),
            final(self)@.packages == old(self)@.packages.push(package@),
            final(self)@.order == old(self)@.order,
            final(self)@.cyclic == old(self)@.cyclic,
            final(self).packages@ == old(self).packages@.push(package),
    {
        let h = self.packages.len();
        self.packages.push(package);
        assert(self@.packages =~= old(self)@.packages.push(package@));
        h
    }

    /// The package behind a handle.
    pub fn get(&self, h: PackageRef) -> (r: Option<&PackageVariant>)
        ensures
            h < self@.packages.len() ==> r is Some && *r->Some_0 == self.packages@[h as int]
                && r->Some_0@ == self@.packages[h as int],
            h >= self@.packages.len() ==> r is None,
    {
        if h < self.packages.len() {
            Some(&self.packages[h])
        } else {
            None
        }
    }

    /// Replaces the dependencies of the package behind `h`.
    pub fn set_dependencies(&mut self, h: PackageRef, dependencies: Dependencies)
        requires
            h < old(self)@.packages.len(),
        ensures
            final(self)@.order == old(self)@.order,
            final(self)@.cyclic == old(self)@.cyclic,
            final(self)@.packages == old(self)@.packages.update(
                h as int,
                PackageView { dependencies: dependencies@, ..old(self)@.packages[h as int] },
            ),
    {
        let mut package = self.packages.remove(h);
        package.set_dependencies(dependencies);
        self.packages.insert(h, package);
        assert(self@.packages =~= old(self)@.packages.update(
            h as int,
            PackageView { dependencies: dependencies@, ..old(self)@.packages[h as int] },
        ));
    }

    /// Replaces the package behind `h` by `package`.
    pub fn replace(&mut self, h: PackageRef, package: PackageVariant)
        requires
            h < old(self)@.packages.len(),
        ensures
            final(self)@.order == old(self)@.order,
            final(self)@.cyclic == old(self)@.cyclic,
            final(self)@.packages == old(self)@.packages.update(h as int, package@),
    {
        self.packages.remove(h);
        self.packages.insert(h, package);
        assert(self@.packages =~= old(self)@.packages.update(h as int, package@));
    }

    /// Whether the package behind `h` has its dependencies resolved.
    pub fn is_finished(&self, h: PackageRef) -> (r: bool)
        requires
            h < self@.packages.len(),
        ensures
            r == self@.finished(h as int),
    {
        match self.packages[h].dependencies() {
            Dependencies::Resolved(_) => true,
            Dependencies::Unresolved(_) => false,
        }
    }

    /// The first place before `upto` at which the handle `h` stands in the plan.
    fn place_of(&self, h: PackageRef, upto: usize) -> (r: Option<usize>)
        requires
            upto <= self@.order.len(),
        ensures
            match r {
                Some(j) => j < upto && self@.order[j as int] == h && first_index(self@.order, h) <= j,
                None => forall|a: int| 0 <= a < upto ==> self@.order[a] != h,
            },
            r is None ==> first_index(self@.order, h) >= upto,
    {
        let mut j: usize = 0;
        while j < upto
            invariant
                j <= upto,
                upto <= self@.order.len(),
                forall|a: int| 0 <= a < j ==> self@.order[a] != h,
            decreases upto - j,
        {
            if self.order[j] == h {
                proof {
                    crate::util::search::lemma_first_index(self@.order, h);
                }
                return Some(j);
            }
            j = j + 1;
        }
        proof {
            crate::util::search::lemma_first_index(self@.order, h);
            let p = first_index(self@.order, h);
            if p < upto {
                assert(self@.order[p] != h);
            }
        }
        None
    }

    /// Whether the pool keeps its rules.
    pub fn check(&self) -> (r: bool)
        ensures
            r == self@.wf(),
    {
        let n: usize = self.order.len();
        let mut i: usize = 0;
        while i < n
            invariant
                i <= n,
                n == self@.order.len(),
                forall|a: int| 0 <= a < i ==> #[trigger] self@.order[a] < self@.packages.len(),
                forall|a: int, b: int| 0 <= a < b < i ==> self@.names()[a] != self@.names()[b],
                forall|a: int, k: int|
                    0 <= a < i && 0 <= k < self@.deps(self@.order[a] as int).len()
                        ==> self@.order.contains(#[trigger] self@.deps(self@.order[a] as int)[k]),
                !self@.cyclic ==> forall|a: int, k: int|
                    0 <= a < i && 0 <= k < self@.deps(self@.order[a] as int).len() ==> first_index(
                        self@.order,
                        #[trigger] self@.deps(self@.order[a] as int)[k],
                    ) < a && self@.finished(self@.deps(self@.order[a] as int)[k] as int),
            decreases n - i,
        {
            let h = self.order[i];
            if h >= self.packages.len() {
                assert(!(self@.order[i as int] < self@.packages.len()));
                return false;
            }
            let mut j: usize = 0;
            while j < i
                invariant
                    j <= i < n,
                    n == self@.order.len(),
                    h == self@.order[i as int],
                    h < self@.packages.len(),
                    forall|a: int| 0 <= a < i ==> #[trigger] self@.order[a] < self@.packages.len(),
                    forall|a: int| 0 <= a < j ==> self@.names()[a] != self@.names()[i as int],
                decreases i - j,
            {
                if same_text(self.packages[self.order[j]].name(), self.packages[h].name()) {
                    assert(self@.names()[j as int] == self@.names()[i as int]);
                    return false;
                }
                j = j + 1;
            }
            match self.packages[h].dependencies() {
                Dependencies::Unresolved(_) => {
                    assert(self@.deps(h as int) =~= Seq::<PackageRef>::empty());
                },
                Dependencies::Resolved(handles) => {
                    assert(self@.deps(h as int) == handles@);
                    let mut k: usize = 0;
                    while k < handles.len()
                        invariant
                            k <= handles.len(),
                            i < n,
                            n == self@.order.len(),
                            h == self@.order[i as int],
                            h < self@.packages.len(),
                            self@.deps(h as int) == handles@,
                            forall|a: int|
                                0 <= a < i ==> #[trigger] self@.order[a] < self@.packages.len(),
                            forall|b: int| 0 <= b < k ==> self@.order.contains(#[trigger] handles@[b]),
                            !self@.cyclic ==> forall|b: int|
                                0 <= b < k ==> first_index(self@.order, #[trigger] handles@[b]) < i
                                    && self@.finished(handles@[b] as int),
                        decreases handles.len() - k,
                    {
                        let d = handles[k];
                        if self.cyclic {
                            match self.place_of(d, n) {
                                Some(at) => {
                                    assert(self@.order[at as int] == d);
                                },
                                None => {
                                    assert(!self@.order.contains(self@.deps(self@.order[i as int] as int)[k as int]));
                                    return false;
                                },
                            }
                        } else {
                            match self.place_of(d, i) {
                                Some(at) => {
                                    assert(self@.order[at as int] == d);
                                    assert(d < self@.packages.len());
                                    if !self.is_finished(d) {
                                        assert(!self@.finished(
                                            self@.deps(self@.order[i as int] as int)[k as int] as int,
                                        ));
                                        return false;
                                    }
                                },
                                None => {
                                    assert(!(first_index(
                                        self@.order,
                                        self@.deps(self@.order[i as int] as int)[k as int],
                                    ) < i));
                                    return false;
                                },
                            }
                        }
                        k = k + 1;
                    }
                },
            }
            i = i + 1;
        }
        true
    }

    /// The place in the plan of the first package named `name`.
    pub fn find_name(&self, name: &str) -> (r: Option<usize>)
        ensures
            match r {
                Some(i) => i < self@.order.len() && i == first_index(self@.names(), name@),
                None => first_index(self@.names(), name@) == self@.order.len(),
            },
    {
        let mut i: usize = 0;
        while i < self.order.len()
            invariant
                i <= self.order.len(),
                forall|j: int| 0 <= j < i ==> self@.names()[j] != name@,
            decreases self.order.len() - i,
        {
            let h = self.order[i];
            let matches = if h < self.packages.len() {
                same_text(self.packages[h].name(), name)
            } else {
                same_text("", name)
            };
            proof {
                reveal_strlit("");
                assert(""@ =~= Seq::<char>::empty());
            }
            if matches {
                proof {
                    lemma_first_index_is(self@.names(), name@, i as int);
                }
                return Some(i);
            }
            i = i + 1;
        }
        proof {
            lemma_first_index_none(self@.names(), name@);
        }
        None
    }

    /// The place in the plan of the first package whose hash is `hash`.
    pub fn find_hash(&self, hash: &str) -> (r: Option<usize>)
        ensures
            match r {
                Some(i) => i < self@.order.len() && i == first_index(self@.hashes(), hash@),
                None => first_index(self@.hashes(), hash@) == self@.order.len(),
            },
    {
        let mut i: usize = 0;
        while i < self.order.len()
            invariant
                i <= self.order.len(),
                forall|j: int| 0 <= j < i ==> self@.hashes()[j] != hash@,
            decreases self.order.len() - i,
        {
            let h = self.order[i];
            let matches = if h < self.packages.len() {
                same_text(self.packages[h].hash(), hash)
            } else {
                same_text("", hash)
            };
            proof {
                reveal_strlit("");
                assert(""@ =~= Seq::<char>::empty());
            }
            if matches {
                proof {
                    lemma_first_index_is(self@.hashes(), hash@, i as int);
                }
                return Some(i);
            }
            i = i + 1;
        }
        proof {
            lemma_first_index_none(self@.hashes(), hash@);
        }
        None
    }

    /// The names of the packages behind resolved dependencies, in order.
    pub fn dependency_names(&self, deps: &Dependencies) -> (r: Result<Vec<String>, LError>)
        ensures
            match resolved_names(self@.packages, deps@) {
                Ok(names) => r is Ok && r->Ok_0.deep_view() == names,
                Err(e) => r is Err && r->Err_0@ == e,
            },
    {
        let handles = deps.get_resolved()?;
        let mut names: Vec<String> = Vec::new();
        let mut k: usize = 0;
        while k < handles.len()
            invariant
                k <= handles.len(),
                deps@ == DependenciesView::Resolved(handles@),
                names@.len() == k,
                forall|j: int| 0 <= j < k ==> #[trigger] handles@[j] < self@.packages.len(),
                forall|j: int|
                    0 <= j < k ==> (#[trigger] names@[j])@ == self@.packages[handles@[j] as int].name,
            decreases handles.len() - k,
        {
            let h = handles[k];
            if h >= self.packages.len() {
                return Err(
                    LError::new(
                        LErrorClass::PackageNotFound,
                        "A dependency refers to a package that is not in the pool",
                    ),
                );
            }
            names.push(String::from_str(self.packages[h].name()));
            k = k + 1;
        }
        assert(names.deep_view() =~= Seq::new(
            handles@.len(),
            |k: int| self@.packages[handles@[k] as int].name,
        ));
        Ok(names)
    }
}

/// Whether a package with the dependencies `deps` depends on a package named
/// `name`: the name is among unresolved names, or it is the name of a package
/// behind one of the resolved handles.
pub open spec fn depends_on(deps: DependenciesView, name: Seq<char>, packages: Seq<PackageView>) -> bool {
    match deps {
        DependenciesView::Unresolved(names) => names.contains(name),
        DependenciesView::Resolved(hs) => exists|k: int|
            0 <= k < hs.len() && #[trigger] hs[k] < packages.len() && packages[hs[k] as int].name
                == name,
    }
}

/// The common interface of all package variants, be they remote, local or
/// installed: reading and changing what every package has.
pub trait PackageRefTrait: CorePackage + Sized {
    /// Get the package name.
    fn get_name(&self) -> (r: String)
        ensures
            r@ == self.model().name,
    {
        String::from_str(self.name())
    }

    /// Set the package name.
    fn set_name(&mut self, name: &str)
        ensures
            final(self).model() == (PackageView { name: name@, ..old(self).model() }),
    ;

    /// Get the package version string.
    fn get_version(&self) -> (r: String)
        ensures
            r@ == self.model().version,
    {
        String::from_str(self.version())
    }

    /// Set the package version string.
    fn set_version(&mut self, version: &str)
        ensures
            final(self).model() == (PackageView { version: version@, ..old(self).model() }),
    ;

    /// Get the package real version.
    fn get_real_version(&self) -> (r: u64)
        ensures
            r == self.model().real_version,
    {
        self.real_version()
    }

    /// Set the package real version.
    fn set_real_version(&mut self, real_version: u64)
        ensures
            final(self).model() == (PackageView { real_version, ..old(self).model() }),
    ;

    /// Get the description of the package.
    fn get_description(&self) -> (r: String)
        ensures
            r@ == self.model().description,
    {
        String::from_str(self.description())
    }

    /// Set the description for the package.
    fn set_description(&mut self, description: &str)
        ensures
            final(self).model() == (PackageView { description: description@, ..old(self).model() }),
    ;

    /// Get the dependencies needed by this package.
    fn get_dependencies(&self) -> (r: &Dependencies)
        ensures
            r@ == self.model().dependencies,
    {
        self.dependencies()
    }

    /// Set the dependencies needed by this package.
    fn set_dependencies(&mut self, dependencies: Dependencies)
        ensures
            final(self).model() == (PackageView {
                dependencies: dependencies@,
                ..old(self).model()
            }),
    ;

    /// Get the package MD5 hash.
    fn get_hash(&self) -> (r: String)
        ensures
            r@ == self.model().hash,
    {
        String::from_str(self.hash())
    }

    /// Set the package MD5 hash.
    fn set_hash(&mut self, hash: &str)
        ensures
            final(self).model() == (PackageView { hash: hash@, ..old(self).model() }),
    ;

    /// Get the full name for the package: `<name>-<version>` (E.g: glibc-2.3).
    fn get_full_name(&self) -> (r: String)
        ensures
            r@ == full_name_text(self.model()),
    {
        self.full_name()
    }

    /// Get the fully qualified name for the package:
    /// `<name>-<version>-<real_version>` (E.g: glibc-2.3-9).
    fn get_fq_name(&self) -> (r: String)
        ensures
            r@ == fq_name_text(self.model()),
    {
        fq_name_string(self.name(), self.version(), self.real_version())
    }

    /// A copy of the package with an empty list of resolved dependencies.
    fn clone_to_resolved(&self) -> (r: Self)
        ensures
            r.model() == (PackageView {
                dependencies: DependenciesView::Resolved(Seq::empty()),
                ..self.model()
            }),
    ;

    /// Returns true if this package is a dependency of the provided one,
    /// whose resolved dependencies refer into `pool`.
    fn is_dependency_of<T: CorePackage>(&self, package: &T, pool: &PackagePool) -> (r: bool)
        ensures
            r == depends_on(package.model().dependencies, self.model().name, pool@.packages),
    {
        let own = self.get_name();
        let name = own.as_str();
        match package.dependencies() {
            Dependencies::Unresolved(names) => {
                let mut k: usize = 0;
                while k < names.len()
                    invariant
                        k <= names.len(),
                        name@ == self.model().name,
                        package.model().dependencies == DependenciesView::Unresolved(
                            names.deep_view(),
                        ),
                        forall|j: int| 0 <= j < k ==> names.deep_view()[j] != name@,
                    decreases names.len() - k,
                {
                    if same_text(names[k].as_str(), name) {
                        assert(names.deep_view()[k as int] == name@);
                        return true;
                    }
                    k = k + 1;
                }
                false
            },
            Dependencies::Resolved(handles) => {
                let mut k: usize = 0;
                while k < handles.len()
                    invariant
                        k <= handles.len(),
                        name@ == self.model().name,
                        package.model().dependencies == DependenciesView::Resolved(handles@),
                        forall|j: int|
                            0 <= j < k ==> !(#[trigger] handles@[j] < pool@.packages.len()
                                && pool@.packages[handles@[j] as int].name == name@),
                    decreases handles.len() - k,
                {
                    let h = handles[k];
                    if h < pool.packages.len() {
                        if same_text(pool.packages[h].name(), name) {
                            assert(handles@[k as int] < pool@.packages.len() && pool@.packages[handles@[k as int] as int].name
                                == name@);
                            return true;
                        }
                    }
                    k = k + 1;
                }
                false
            },
        }
    }
}

/// Whether no package of the plan depends on the package at place `i` of the plan.
pub open spec fn is_root(pool: PoolView, i: int) -> bool {
    forall|j: int|
        0 <= j < pool.order.len() ==> !depends_on(
            #[trigger] pool.packages[pool.order[j] as int].dependencies,
            pool.names()[i],
            pool.packages,
        )
}

/// The packages among the first `k` of the plan that no package of the plan
/// depends on, in plan order.
pub open spec fn roots_upto(pool: PoolView, k: int) -> Seq<PackageRef>
    decreases k,
{
    if k <= 0 {
        Seq::empty()
    } else if is_root(pool, k - 1) {
        roots_upto(pool, k - 1).push(pool.order[k - 1])
    } else {
        roots_upto(pool, k - 1)
    }
}

/// Extracts the packages from the pool that have no dependers.
pub fn get_root_packages(pool: &PackagePool) -> (r: Vec<PackageRef>)
    requires
        pool@.handles_valid(),
    ensures
        r@ == roots_upto(pool@, pool@.order.len() as int),
{
    let mut roots: Vec<PackageRef> = Vec::new();
    let mut i: usize = 0;
    while i < pool.order.len()
        invariant
            i <= pool.order.len(),
            pool@.handles_valid(),
            roots@ == roots_upto(pool@, i as int),
        decreases pool.order.len() - i,
    {
        let candidate = &pool.packages[pool.order[i]];
        let mut needed = false;
        let mut j: usize = 0;
        while j < pool.order.len()
            invariant
                j <= pool.order.len(),
                i < pool.order.len(),
                pool@.handles_valid(),
                candidate@ == pool@.packages[pool@.order[i as int] as int],
                needed ==> !is_root(pool@, i as int),
                !needed ==> forall|a: int|
                    0 <= a < j ==> !depends_on(
                        #[trigger] pool@.packages[pool@.order[a] as int].dependencies,
                        pool@.names()[i as int],
                        pool@.packages,
                    ),
            decreases pool.order.len() - j,
        {
            let other = &pool.packages[pool.order[j]];
            if candidate.is_dependency_of(other, pool) {
                assert(depends_on(
                    pool@.packages[pool@.order[j as int] as int].dependencies,
                    pool@.names()[i as int],
                    pool@.packages,
                ));
                needed = true;
            }
            j = j + 1;
        }
        if !needed {
            roots.push(pool.order[i]);
        }
        i = i + 1;
    }
    roots
}

} // verus!
