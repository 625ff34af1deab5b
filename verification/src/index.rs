//! An index over mirrors: looking packages up by name across all of them
//! and resolving the packages that a set of names needs.
use vstd::prelude::*;
use vstd::string::StringExecFns;
use crate::actions::shorter;
use crate::config::Config;
use crate::error::{LError, LErrorClass, LErrorExt, LErrorView};
use crate::mirror::{
    catalog_view, has_named, is_first_named, json_member, mirror_path, mirrors_view, not_found,
    not_found_error, package_names, payload_key, Mirror, MirrorFile, MirrorView,
};
use crate::package::{CorePackage, DependenciesView, PackageView, RemotePackage};
use crate::util::dependencies::{absent, catalog_names, lemma_absent_strict, lemma_catalog_names};
use crate::util::search::{
    distinct, first_index, lemma_first_index, lemma_first_index_is, lemma_first_index_none,
};
use crate::util::text::same_text;

verus! {

/// Bundles mirrors in one place to provide common functions and dependency
/// resolving.
#[derive(Debug)]
pub struct PackageIndex {
    pub mirrors: Vec<Mirror>,
}

/// Whether the mirror `m` is loaded and has a package named `name`.
pub open spec fn offers(m: MirrorView, name: Seq<char>) -> bool {
    match m.packages {
        Some(ps) => has_named(ps, name),
        None => false,
    }
}

/// For each mirror, whether it is loaded and has a package named `name`.
pub open spec fn offering(ms: Seq<MirrorView>, name: Seq<char>) -> Seq<bool> {
    Seq::new(ms.len(), |i: int| offers(ms[i], name))
}

/// The most relevant package named `name`: the first of that name in the
/// first loaded mirror that has one. Mirrors that are not loaded are skipped.
pub open spec fn index_lookup(ms: Seq<MirrorView>, name: Seq<char>) -> Option<PackageView> {
    let k = first_index(offering(ms, name), true);
    if k < ms.len() {
        let ps = ms[k].packages->Some_0;
        Some(ps[first_index(package_names(ps), name)])
    } else {
        None
    }
}

/// The views of a list of references to packages.
pub open spec fn refs_view(s: Seq<&RemotePackage>) -> Seq<PackageView> {
    Seq::new(s.len(), |i: int| s[i]@)
}

/// The dependency names of a package, as long as they are unresolved.
pub open spec fn unresolved_names(p: PackageView) -> Seq<Seq<char>> {
    match p.dependencies {
        DependenciesView::Unresolved(names) => names,
        DependenciesView::Resolved(_) => Seq::empty(),
    }
}

/// The rules of a resolved list: names are unique, every package is the
/// package that the index has for its name, and every dependency of every
/// package is in the list, except for the packages named in `open`, which are
/// still being resolved.
pub open spec fn index_inv(ms: Seq<MirrorView>, ps: Seq<PackageView>, open: Seq<Seq<char>>) -> bool {
    &&& distinct(package_names(ps))
    &&& forall|i: int| 0 <= i < ps.len() ==> index_lookup(ms, (#[trigger] ps[i]).name) == Some(ps[i])
    &&& forall|i: int, j: int|
        0 <= i < ps.len() && 0 <= j < unresolved_names(ps[i]).len() ==> open.contains(ps[i].name)
            || package_names(ps).contains(#[trigger] unresolved_names(ps[i])[j])
}

/// Whether resolving by name cannot fail: every package that the index
/// finds has unresolved dependencies, each of which the index finds.
pub open spec fn index_ok(ms: Seq<MirrorView>) -> bool {
    forall|name: Seq<char>|
        #[trigger] index_lookup(ms, name) matches Some(p) ==> p.dependencies is Unresolved
            && forall|j: int|
            0 <= j < unresolved_names(p).len() ==> index_lookup(
                ms,
                #[trigger] unresolved_names(p)[j],
            ) is Some
}

/// The classes of the errors that resolving by name can end with.
pub open spec fn index_failure(class: LErrorClass) -> bool {
    class == LErrorClass::PackageNotFound || class == LErrorClass::UnexpectedPackageVariant
}

/// Whether `file` is the mirror file that the answer `response` of the
/// mirror `m` yields.
pub open spec fn yields(m: MirrorView, c: Config, response: Result<Vec<u8>, LError>, file: MirrorFile) -> bool {
    &&& response is Ok
    &&& file.path@ == mirror_path(m, c)
    &&& json_member(response->Ok_0@, payload_key()) == Ok::<Seq<char>, Seq<char>>(file.content@)
}

/// Whether `e` is the error of the update of the mirror `m` that failed with
/// the answer `response`: the error of the answer, with the mirror named
/// above its messages.
pub open spec fn failed_update(m: MirrorView, c: Config, response: Result<Vec<u8>, LError>, e: LErrorView) -> bool {
    match crate::actions::update_one(m, c, response) {
        Ok(_) => false,
        Err(cause) => e == (LErrorView {
            class: cause.class,
            messages: seq!["When updating mirror "@ + m.name + ":"@] + cause.messages,
        }),
    }
}

/// Whether `after` is `before` with the first `k` mirrors loaded from their
/// catalogs and the others as they were.
pub open spec fn loaded_upto(
    before: Seq<MirrorView>,
    catalogs: Seq<Result<Vec<RemotePackage>, String>>,
    k: int,
    after: Seq<MirrorView>,
) -> bool {
    &&& after.len() == before.len()
    &&& forall|j: int|
        0 <= j < before.len() ==> #[trigger] after[j] == if j < k {
            MirrorView { packages: Some(catalog_view(catalogs[j]->Ok_0@)), ..before[j] }
        } else {
            before[j]
        }
}

/// Whether the name `x` is called for: it is one of the names `wanted`, or
/// a package of `ps` depends on it.
pub open spec fn needed(ps: Seq<PackageView>, wanted: Seq<Seq<char>>, x: Seq<char>) -> bool {
    wanted.contains(x) || exists|j: int| 0 <= j < ps.len() && #[trigger] unresolved_names(ps[j]).contains(x)
}

/// Whether the list holds nothing that is not called for: every package of
/// it is one of the names `wanted`, or a dependency of a package of the list.
pub open spec fn called_for(ps: Seq<PackageView>, wanted: Seq<Seq<char>>) -> bool {
    forall|i: int| 0 <= i < ps.len() ==> needed(ps, wanted, (#[trigger] ps[i]).name)
}

/// A name that is called for stays so in a list that keeps every package.
pub proof fn lemma_needed_kept(ps: Seq<PackageView>, qs: Seq<PackageView>, wanted: Seq<Seq<char>>, x: Seq<char>)
    requires
        needed(ps, wanted, x),
        forall|j: int| 0 <= j < ps.len() ==> qs.contains(#[trigger] ps[j]),
    ensures
        needed(qs, wanted, x),
{
    if !wanted.contains(x) {
        let j = choose|j: int| 0 <= j < ps.len() && #[trigger] unresolved_names(ps[j]).contains(x);
        assert(qs.contains(ps[j]));
        let b = choose|b: int| 0 <= b < qs.len() && qs[b] == ps[j];
        assert(unresolved_names(qs[b]).contains(x));
    }
}

/// A list that follows the rules keeps every package of an earlier such
/// list whose names it keeps.
pub proof fn lemma_entries_kept(
    ms: Seq<MirrorView>,
    ps: Seq<PackageView>,
    qs: Seq<PackageView>,
    open: Seq<Seq<char>>,
    wider: Seq<Seq<char>>,
)
    requires
        index_inv(ms, ps, open),
        index_inv(ms, qs, wider),
        forall|x: Seq<char>| package_names(ps).contains(x) ==> package_names(qs).contains(x),
    ensures
        forall|j: int| 0 <= j < ps.len() ==> qs.contains(#[trigger] ps[j]),
{
    assert forall|j: int| 0 <= j < ps.len() implies qs.contains(#[trigger] ps[j]) by {
        assert(package_names(ps)[j] == ps[j].name);
        assert(package_names(qs).contains(ps[j].name));
        let b = choose|b: int| 0 <= b < package_names(qs).len() && package_names(qs)[b] == ps[j].name;
        assert(index_lookup(ms, qs[b].name) == Some(qs[b]));
        assert(qs[b] == ps[j]);
    }
}

/// A list whose packages are all called for stays so when the packages
/// change places or a package that is called for enters.
pub proof fn lemma_called_for_kept(
    ps: Seq<PackageView>,
    qs: Seq<PackageView>,
    wanted: Seq<Seq<char>>,
)
    requires
        called_for(ps, wanted),
        forall|j: int| 0 <= j < ps.len() ==> qs.contains(#[trigger] ps[j]),
        forall|i: int|
            0 <= i < qs.len() ==> ps.contains(#[trigger] qs[i]) || needed(ps, wanted, qs[i].name),
    ensures
        called_for(qs, wanted),
{
    assert forall|i: int| 0 <= i < qs.len() implies needed(qs, wanted, (#[trigger] qs[i]).name) by {
        if ps.contains(qs[i]) {
            let a = choose|a: int| 0 <= a < ps.len() && ps[a] == qs[i];
            assert(needed(ps, wanted, ps[a].name));
        }
        lemma_needed_kept(ps, qs, wanted, qs[i].name);
    }
}

/// Whether `rank` falls along the dependencies of the packages of the
/// index: each has a greater rank than every name that it depends on.
pub open spec fn falling(ms: Seq<MirrorView>, rank: spec_fn(Seq<char>) -> nat) -> bool {
    forall|name: Seq<char>, j: int|
        index_lookup(ms, name) is Some && 0 <= j < unresolved_names(index_lookup(ms, name)->Some_0).len()
            ==> rank(#[trigger] unresolved_names(index_lookup(ms, name)->Some_0)[j]) < rank(name)
}

/// Whether no package of the index depends on itself, directly or through
/// others.
pub open spec fn index_acyclic(ms: Seq<MirrorView>) -> bool {
    exists|rank: spec_fn(Seq<char>) -> nat| falling(ms, rank)
}

/// Whether every package of the list stands behind all that it depends on,
/// except for the packages named in `open`, which are still being resolved.
pub open spec fn deps_before(ps: Seq<PackageView>, open: Seq<Seq<char>>) -> bool {
    forall|i: int, j: int|
        0 <= i < ps.len() && 0 <= j < unresolved_names(ps[i]).len() && !open.contains(ps[i].name)
            ==> package_names(ps.take(i)).contains(#[trigger] unresolved_names(ps[i])[j])
}

/// The list `mid` with the package at place `n` moved to the end.
pub open spec fn moved_back(mid: Seq<PackageView>, n: int) -> Seq<PackageView> {
    (mid.take(n) + mid.skip(n + 1)).push(mid[n])
}

/// Without a name that no package has, a list is as it was.
pub proof fn lemma_without_none(ps: Seq<PackageView>, name: Seq<char>)
    requires
        forall|i: int| 0 <= i < ps.len() ==> (#[trigger] ps[i]).name != name,
    ensures
        without(ps, name) == ps,
    decreases ps.len(),
{
    if ps.len() > 0 {
        assert forall|i: int| 0 <= i < ps.drop_last().len() implies (#[trigger] ps.drop_last()[i]).name
            != name by {
            assert(ps.drop_last()[i] == ps[i]);
        }
        lemma_without_none(ps.drop_last(), name);
        assert(ps.last() == ps[ps.len() - 1]);
        assert(ps.drop_last().push(ps.last()) =~= ps);
    } else {
        assert(ps =~= Seq::empty());
    }
}

/// Without the name of the one package at place `n`, a list is the packages
/// before that place and those behind it.
pub proof fn lemma_without_one(ps: Seq<PackageView>, name: Seq<char>, n: int)
    requires
        distinct(package_names(ps)),
        0 <= n < ps.len(),
        ps[n].name == name,
    ensures
        without(ps, name) == ps.take(n) + ps.skip(n + 1),
    decreases ps.len(),
{
    let front = ps.drop_last();
    assert forall|i: int| 0 <= i < ps.len() && i != n implies (#[trigger] ps[i]).name != name by {
        assert(package_names(ps)[i] == ps[i].name);
        assert(package_names(ps)[n] == ps[n].name);
    }
    if n == ps.len() - 1 {
        assert forall|i: int| 0 <= i < front.len() implies (#[trigger] front[i]).name != name by {
            assert(front[i] == ps[i]);
        }
        lemma_without_none(front, name);
        assert(ps.take(n) + ps.skip(n + 1) =~= front);
    } else {
        assert(distinct(package_names(front))) by {
            assert forall|i: int, j: int| 0 <= i < j < package_names(front).len() implies package_names(
                front,
            )[i] != package_names(front)[j] by {
                assert(package_names(ps)[i] != package_names(ps)[j]);
            }
        }
        assert(front[n] == ps[n]);
        lemma_without_one(front, name, n);
        assert(ps.last() == ps[ps.len() - 1]);
        assert((front.take(n) + front.skip(n + 1)).push(ps.last()) =~= ps.take(n) + ps.skip(n + 1));
    }
}

/// A package that has resolved all that it depends on goes to the end of
/// the list, and every package that is done still stands behind all that it
/// depends on.
pub proof fn lemma_moved_back(
    ms: Seq<MirrorView>,
    rank: spec_fn(Seq<char>) -> nat,
    mid: Seq<PackageView>,
    n: int,
    open: Seq<Seq<char>>,
)
    requires
        falling(ms, rank),
        0 <= n < mid.len(),
        index_inv(ms, mid, open.push(mid[n].name)),
        deps_before(mid, open.push(mid[n].name)),
        forall|i: int| n < i < mid.len() ==> rank((#[trigger] mid[i]).name) < rank(mid[n].name),
        forall|j: int|
            0 <= j < unresolved_names(mid[n]).len() ==> package_names(mid).contains(
                #[trigger] unresolved_names(mid[n])[j],
            ),
    ensures
        deps_before(moved_back(mid, n), open),
        moved_back(mid, n).take(n) == mid.take(n),
        forall|i: int|
            n <= i < moved_back(mid, n).len() ==> rank((#[trigger] moved_back(mid, n)[i]).name) <= rank(
                mid[n].name,
            ),
{
    let last = moved_back(mid, n);
    let inner = open.push(mid[n].name);
    let own = mid[n].name;
    assert(last.len() == mid.len());
    assert(last.take(n) =~= mid.take(n));
    assert forall|i: int| n <= i < last.len() implies rank((#[trigger] last[i]).name) <= rank(own) by {
        if i < last.len() - 1 {
            assert(last[i] == mid[i + 1]);
        }
    }
    assert forall|x: Seq<char>| !open.contains(x) && x != own implies !inner.contains(x) by {
        if inner.contains(x) {
            let a = choose|a: int| 0 <= a < inner.len() && inner[a] == x;
            if a < open.len() {
                assert(open[a] == x);
            }
        }
    }
    assert forall|i: int, j: int|
        0 <= i < last.len() && 0 <= j < unresolved_names(last[i]).len() && !open.contains(
            last[i].name,
        ) implies package_names(last.take(i)).contains(#[trigger] unresolved_names(last[i])[j]) by {
        let d = unresolved_names(last[i])[j];
        if i < n {
            assert(last[i] == mid[i]);
            assert(package_names(mid)[i] != package_names(mid)[n]);
            assert(package_names(mid.take(i)).contains(unresolved_names(mid[i])[j]));
            assert(last.take(i) =~= mid.take(i));
        } else if i < last.len() - 1 {
            let e = mid[i + 1];
            assert(last[i] == e);
            assert(package_names(mid)[i + 1] != package_names(mid)[n]);
            let before = package_names(mid.take(i + 1));
            assert(before.contains(unresolved_names(mid[i + 1])[j]));
            let q = choose|q: int| 0 <= q < before.len() && before[q] == d;
            assert(mid.take(i + 1)[q] == mid[q]);
            assert(index_lookup(ms, e.name) == Some(e));
            assert(rank(unresolved_names(index_lookup(ms, e.name)->Some_0)[j]) < rank(e.name));
            assert(q != n);
            if q < n {
                assert(last.take(i)[q] == mid[q]);
                assert(package_names(last.take(i))[q] == d);
            } else {
                assert(last.take(i)[q - 1] == mid[q]);
                assert(package_names(last.take(i))[q - 1] == d);
            }
        } else {
            assert(last[i] == mid[n]);
            let all = package_names(mid);
            assert(all.contains(unresolved_names(mid[n])[j]));
            let q = choose|q: int| 0 <= q < all.len() && all[q] == d;
            assert(index_lookup(ms, own) == Some(mid[n]));
            assert(rank(unresolved_names(index_lookup(ms, own)->Some_0)[j]) < rank(own));
            assert(q != n);
            if q < n {
                assert(last.take(i)[q] == mid[q]);
                assert(package_names(last.take(i))[q] == d);
            } else {
                assert(last.take(i)[q - 1] == mid[q]);
                assert(package_names(last.take(i))[q - 1] == d);
            }
        }
    }
}

/// A package that enters the list to be resolved leaves the packages that
/// are done behind all that they depend on.
pub proof fn lemma_deps_before_entered(o: Seq<PackageView>, p: PackageView, open: Seq<Seq<char>>)
    requires
        deps_before(o, open),
    ensures
        deps_before(o.push(p), open.push(p.name)),
{
    let m = o.push(p);
    let inner = open.push(p.name);
    assert(inner[open.len() as int] == p.name);
    assert forall|i: int, j: int|
        0 <= i < m.len() && 0 <= j < unresolved_names(m[i]).len() && !inner.contains(
            m[i].name,
        ) implies package_names(m.take(i)).contains(#[trigger] unresolved_names(m[i])[j]) by {
        if i < o.len() {
            assert(m[i] == o[i]);
            if open.contains(o[i].name) {
                let a = choose|a: int| 0 <= a < open.len() && open[a] == o[i].name;
                assert(inner[a] == o[i].name);
            }
            assert(m.take(i) =~= o.take(i));
        }
    }
}

impl PackageIndex {
    /// Create a new index from the provided mirrors.
    pub fn new(mirrors: Vec<Mirror>) -> (r: PackageIndex)
        ensures
            r.mirrors == mirrors,
    {
        PackageIndex { mirrors }
    }

    /// Updates the mirrors from the answers that they gave, one answer per
    /// mirror. The first mirror that cannot be updated ends the update; its
    /// error names the mirror above its messages.
    pub fn update_mirrors(&self, config: &Config, responses: &Vec<Result<Vec<u8>, LError>>) -> (r:
        Result<Vec<MirrorFile>, LError>)
        ensures
            r is Ok ==> r->Ok_0@.len() == shorter(self.mirrors@.len(), responses@.len())
                && forall|k: int|
                0 <= k < r->Ok_0@.len() ==> yields(
                    self.mirrors@[k]@,
                    *config,
                    responses@[k],
                    #[trigger] r->Ok_0@[k],
                ),
            r is Err ==> exists|k: int|
                0 <= k < shorter(self.mirrors@.len(), responses@.len()) && r->Err_0@.messages.len()
                    > 0 && r->Err_0@.messages[0] == "When updating mirror "@
                    + #[trigger] self.mirrors@[k]@.name + ":"@ && failed_update(
                    self.mirrors@[k]@,
                    *config,
                    responses@[k],
                    r->Err_0@,
                ) && forall|j: int|
                    0 <= j < k ==> crate::actions::update_one(
                        self.mirrors@[j]@,
                        *config,
                        #[trigger] responses@[j],
                    ) is Ok,
    {
        let n: usize = if self.mirrors.len() < responses.len() {
            self.mirrors.len()
        } else {
            responses.len()
        };
        let mut files: Vec<MirrorFile> = Vec::new();
        let mut k: usize = 0;
        while k < n
            invariant
                k <= n,
                n == shorter(self.mirrors@.len(), responses@.len()),
                files@.len() == k,
                forall|j: int|
                    0 <= j < k ==> yields(
                        self.mirrors@[j]@,
                        *config,
                        responses@[j],
                        #[trigger] files@[j],
                    ),
                forall|j: int|
                    0 <= j < k ==> crate::actions::update_one(
                        self.mirrors@[j]@,
                        *config,
                        #[trigger] responses@[j],
                    ) is Ok,
            decreases n - k,
        {
            let outcome = match &responses[k] {
                Ok(body) => self.mirrors[k].update(config, body.as_slice()),
                Err(e) => Err(e.duplicate()),
            };
            let mut text = String::from_str("When updating mirror ");
            text.append(self.mirrors[k].name.as_str());
            text.append(":");
            match outcome {
                Ok(file) => {
                    assert(yields(self.mirrors@[k as int]@, *config, responses@[k as int], file));
                    files.push(file);
                },
                Err(e) => {
                    let mut e = e;
                    e.prepend(text.as_str());
                    assert(e@.messages[0] == "When updating mirror "@ + self.mirrors@[k as int]@.name
                        + ":"@);
                    assert(failed_update(self.mirrors@[k as int]@, *config, responses@[k as int], e@));
                    return Err(e);
                },
            }
            k = k + 1;
        }
        Ok(files)
    }

    /// Loads the mirrors from their catalogs, one catalog per mirror. The
    /// first catalog that could not be read ends the loading; its error
    /// names the mirror above its messages. The mirrors before it stay loaded.
    pub fn load_mirrors(&mut self, catalogs: Vec<Result<Vec<RemotePackage>, String>>) -> (r: Result<
        (),
        LError,
    >)
        ensures
            final(self).mirrors@.len() == old(self).mirrors@.len(),
            r is Ok ==> forall|k: int|
                0 <= k < final(self).mirrors@.len() ==> (#[trigger] final(self).mirrors@[k])@ == (
                if k < catalogs@.len() {
                    MirrorView {
                        packages: Some(catalog_view(catalogs@[k]->Ok_0@)),
                        ..old(self).mirrors@[k]@
                    }
                } else {
                    old(self).mirrors@[k]@
                }) && (k < catalogs@.len() ==> catalogs@[k] is Ok),
            r is Err ==> exists|k: int|
                0 <= k < shorter(old(self).mirrors@.len(), catalogs@.len()) && catalogs@[k] is Err
                    && (forall|j: int| 0 <= j < k ==> #[trigger] catalogs@[j] is Ok) && r->Err_0@
                    == (LErrorView {
                    class: LErrorClass::JSON,
                    messages: seq![
                        "When loading mirror "@ + #[trigger] old(self).mirrors@[k]@.name + ":"@,
                        "When loading mirror "@ + old(self).mirrors@[k]@.name + ": "@
                            + catalogs@[k]->Err_0@,
                    ],
                }) && loaded_upto(
                    mirrors_view(old(self).mirrors@),
                    catalogs@,
                    k,
                    mirrors_view(final(self).mirrors@),
                ),
    {
        let ghost all = catalogs@;
        let ghost ms0 = self.mirrors@;
        let n: usize = if self.mirrors.len() < catalogs.len() {
            self.mirrors.len()
        } else {
            catalogs.len()
        };
        let mut pending = catalogs;
        let mut rest: Vec<Result<Vec<RemotePackage>, String>> = Vec::new();
        while pending.len() > 0
            invariant
                rest@.len() + pending@.len() == all.len(),
                forall|j: int| 0 <= j < pending@.len() ==> pending@[j] == all[j],
                forall|j: int| 0 <= j < rest@.len() ==> #[trigger] rest@[j] == all[all.len() - 1 - j],
            decreases pending.len(),
        {
            let c = pending.pop().unwrap();
            rest.push(c);
        }
        let mut k: usize = 0;
        while k < n
            invariant
                k <= n,
                all == catalogs@,
                ms0 == old(self).mirrors@,
                n == shorter(ms0.len(), all.len()),
                self.mirrors@.len() == ms0.len(),
                rest@.len() == all.len() - k,
                forall|j: int| 0 <= j < rest@.len() ==> #[trigger] rest@[j] == all[all.len() - 1 - j],
                forall|j: int|
                    0 <= j < k ==> all[j] is Ok && (#[trigger] self.mirrors@[j])@ == (MirrorView {
                        packages: Some(catalog_view(all[j]->Ok_0@)),
                        ..ms0[j]@
                    }),
                forall|j: int| k <= j < ms0.len() ==> #[trigger] self.mirrors@[j] == ms0[j],
                forall|j: int| 0 <= j < k ==> #[trigger] all[j] is Ok,
            decreases n - k,
        {
            let catalog = rest.pop().unwrap();
            assert(catalog == all[k as int]);
            let mut mirror = self.mirrors.remove(k);
            let outcome = mirror.load(catalog);
            let mut text = String::from_str("When loading mirror ");
            text.append(mirror.name.as_str());
            text.append(":");
            self.mirrors.insert(k, mirror);
            match outcome.err_prepend(text.as_str()) {
                Ok(()) => {},
                Err(e) => {
                    proof {
                        assert(e@.messages =~= seq![
                            "When loading mirror "@ + ms0[k as int]@.name + ":"@,
                            "When loading mirror "@ + ms0[k as int]@.name + ": "@
                                + all[k as int]->Err_0@,
                        ]);
                        assert(self.mirrors@[k as int]@ == ms0[k as int]@);
                        assert(loaded_upto(
                            mirrors_view(ms0),
                            all,
                            k as int,
                            mirrors_view(self.mirrors@),
                        ));
                    }
                    return Err(e);
                },
            }
            k = k + 1;
        }
        Ok(())
    }

    /// Tries to find the most relevant package within this index,
    /// considering all loaded mirrors in order.
    pub fn find_package(&self, name: &str) -> (r: Option<&RemotePackage>)
        ensures
            match index_lookup(mirrors_view(self.mirrors@), name@) {
                Some(p) => r is Some && r->Some_0@ == p && p.name == name@,
                None => r is None,
            },
            r is Some ==> catalog_names(mirrors_view(self.mirrors@)).contains(name@),
    {
        let ghost ms = mirrors_view(self.mirrors@);
        let mut k: usize = 0;
        while k < self.mirrors.len()
            invariant
                k <= self.mirrors.len(),
                ms == mirrors_view(self.mirrors@),
                forall|j: int| 0 <= j < k ==> !(#[trigger] offering(ms, name@)[j]),
            decreases self.mirrors.len() - k,
        {
            match self.mirrors[k].find_package(name) {
                Ok(found) => {
                    proof {
                        lemma_first_index_is(offering(ms, name@), true, k as int);
                        let ps = ms[k as int].packages->Some_0;
                        let i = choose|i: int|
                            is_first_named(ps, name@, i) && found@ == ps[i] && *found
                                == #[trigger] self.mirrors@[k as int].packages->Some_0@[i];
                        lemma_first_index_is(package_names(ps), name@, i);
                        lemma_catalog_names(ms, k as int, i);
                    }
                    return Some(found);
                },
                Err(_) => {},
            }
            k = k + 1;
        }
        proof {
            lemma_first_index_none(offering(ms, name@), true);
        }
        None
    }

    /// Resolves the packages that the provided names need: every package
    /// named, with all that it depends on, each package once and behind the
    /// packages that it depends on unless they depend on it in turn.
    pub fn resolve_packages<'a>(&'a self, package_names: &Vec<String>) -> (r: Result<
        Vec<&'a RemotePackage>,
        LError,
    >)
        ensures
            r is Ok ==> index_inv(
                mirrors_view(self.mirrors@),
                refs_view(r->Ok_0@),
                Seq::empty(),
            ) && forall|k: int|
                0 <= k < package_names@.len() ==> crate::mirror::package_names(
                    refs_view(r->Ok_0@),
                ).contains(#[trigger] package_names@[k]@),
            r is Ok ==> called_for(refs_view(r->Ok_0@), package_names.deep_view()),
            r is Ok && index_acyclic(mirrors_view(self.mirrors@)) ==> deps_before(
                refs_view(r->Ok_0@),
                Seq::empty(),
            ),
            r is Err ==> index_failure(r->Err_0@.class),
            index_ok(mirrors_view(self.mirrors@)) && (forall|k: int|
                0 <= k < package_names@.len() ==> index_lookup(
                    mirrors_view(self.mirrors@),
                    #[trigger] package_names@[k]@,
                ) is Some) ==> r is Ok,
            package_names@.len() > 0 && index_lookup(
                mirrors_view(self.mirrors@),
                package_names@[0]@,
            ) is None ==> r is Err && r->Err_0@ == (LErrorView {
                class: LErrorClass::PackageNotFound,
                messages: seq![
                    "When resolving package "@ + package_names@[0]@,
                    "Package '"@ + package_names@[0]@ + "' has not been found"@,
                ],
            }),
    {
        let ghost ms = mirrors_view(self.mirrors@);
        let ghost wanted = package_names.deep_view();
        let ghost rank = choose|rank: spec_fn(Seq<char>) -> nat| falling(ms, rank);
        let mut pool: Vec<&RemotePackage> = Vec::new();
        let mut k: usize = 0;
        proof {
            assert(refs_view(pool@) =~= Seq::empty());
        }
        while k < package_names.len()
            invariant
                k <= package_names.len(),
                ms == mirrors_view(self.mirrors@),
                falling(ms, rank) ==> deps_before(refs_view(pool@), Seq::empty()),
                wanted == package_names.deep_view(),
                called_for(refs_view(pool@), wanted),
                index_inv(ms, refs_view(pool@), Seq::empty()),
                k == 0 ==> pool@.len() == 0,
                forall|j: int|
                    0 <= j < k ==> crate::mirror::package_names(refs_view(pool@)).contains(
                        #[trigger] package_names@[j]@,
                    ),
            decreases package_names.len() - k,
        {
            let mut text = String::from_str("When resolving package ");
            text.append(package_names[k].as_str());
            let ghost before = crate::mirror::package_names(refs_view(pool@));
            proof {
                if k == 0 {
                    assert(before =~= Seq::empty());
                    lemma_first_index(before, package_names@[0]@);
                }
                assert(wanted[k as int] == package_names@[k as int]@);
            }
            let outcome = self.resolve_package_dependencies(
                package_names[k].as_str(),
                &mut pool,
                Ghost(Seq::empty()),
                Ghost(wanted),
                Ghost(rank),
            );
            match outcome.err_prepend(text.as_str()) {
                Ok(()) => {},
                Err(e) => {
                    proof {
                        if k == 0 && index_lookup(ms, package_names@[0]@) is None {
                            assert(e@.messages =~= seq![
                                "When resolving package "@ + package_names@[0]@,
                                "Package '"@ + package_names@[0]@ + "' has not been found"@,
                            ]);
                        }
                    }
                    return Err(e);
                },
            }
            k = k + 1;
        }
        Ok(pool)
    }

    /// Resolve a package's dependencies into the pool: a name that is in the
    /// pool is done; else the package of that name enters the pool, its
    /// dependencies are resolved in turn, and it moves behind them to the end.
    fn resolve_package_dependencies<'a>(
        &'a self,
        package_name: &str,
        pool: &mut Vec<&'a RemotePackage>,
        Ghost(open): Ghost<Seq<Seq<char>>>,
        Ghost(wanted): Ghost<Seq<Seq<char>>>,
        Ghost(rank): Ghost<spec_fn(Seq<char>) -> nat>,
    ) -> (r: Result<(), LError>)
        requires
            index_inv(mirrors_view(self.mirrors@), refs_view(old(pool)@), open),
            called_for(refs_view(old(pool)@), wanted),
            needed(refs_view(old(pool)@), wanted, package_name@),
            falling(mirrors_view(self.mirrors@), rank) ==> deps_before(refs_view(old(pool)@), open),
        ensures
            r is Ok ==> called_for(refs_view(final(pool)@), wanted),
            r is Ok ==> old(pool)@.len() <= final(pool)@.len() && refs_view(final(pool)@).take(
                old(pool)@.len() as int,
            ) == refs_view(old(pool)@),
            r is Ok && falling(mirrors_view(self.mirrors@), rank) ==> deps_before(
                refs_view(final(pool)@),
                open,
            ) && forall|i: int|
                old(pool)@.len() <= i < final(pool)@.len() ==> rank(
                    (#[trigger] refs_view(final(pool)@)[i]).name,
                ) <= rank(package_name@),
            distinct(package_names(refs_view(final(pool)@))),
            forall|x: Seq<char>|
                package_names(refs_view(old(pool)@)).contains(x) ==> package_names(
                    refs_view(final(pool)@),
                ).contains(x),
            r is Ok ==> index_inv(mirrors_view(self.mirrors@), refs_view(final(pool)@), open)
                && package_names(refs_view(final(pool)@)).contains(package_name@),
            r is Err ==> index_failure(r->Err_0@.class),
            index_ok(mirrors_view(self.mirrors@)) && index_lookup(
                mirrors_view(self.mirrors@),
                package_name@,
            ) is Some ==> r is Ok,
            !package_names(refs_view(old(pool)@)).contains(package_name@) && index_lookup(
                mirrors_view(self.mirrors@),
                package_name@,
            ) is None ==> r is Err && r->Err_0@ == not_found_error(package_name@),
        decreases absent(
            catalog_names(mirrors_view(self.mirrors@)),
            package_names(refs_view(old(pool)@)),
        ),
    {
        let ghost ms = mirrors_view(self.mirrors@);
        let ghost o = refs_view(pool@);
        // Check if the package isn't already in the pool
        let mut i: usize = 0;
        while i < pool.len()
            invariant
                i <= pool.len(),
                *pool == *old(pool),
                index_inv(mirrors_view(self.mirrors@), refs_view(old(pool)@), open),
                called_for(refs_view(old(pool)@), wanted),
                falling(mirrors_view(self.mirrors@), rank) ==> deps_before(refs_view(old(pool)@), open),
                forall|j: int| 0 <= j < i ==> package_names(refs_view(pool@))[j] != package_name@,
            decreases pool.len() - i,
        {
            if same_text(pool[i].name(), package_name) {
                assert(package_names(refs_view(pool@))[i as int] == package_name@);
                assert(refs_view(pool@).take(pool@.len() as int) =~= refs_view(pool@));
                return Ok(());
            }
            i = i + 1;
        }
        // Find the package
        let package: &'a RemotePackage = match self.find_package(package_name) {
            None => {
                return Err(not_found(package_name));
            },
            Some(p) => p,
        };
        let names: &Vec<String> = match package.dependencies.get_unresolved() {
            Ok(ns) => ns,
            Err(e) => {
                return Err(e);
            },
        };
        // Push the package for now
        pool.push(package);
        let ghost inner = open.push(package_name@);
        let ghost m = refs_view(pool@);
        proof {
            assert(m =~= o.push(package@));
            assert(package_names(m) =~= package_names(o).push(package_name@));
            lemma_entered(ms, o, package@, open);
            assert forall|j: int| 0 <= j < o.len() implies m.contains(#[trigger] o[j]) by {
                assert(m[j] == o[j]);
            }
            assert forall|i: int| 0 <= i < m.len() implies o.contains(#[trigger] m[i]) || needed(
                o,
                wanted,
                m[i].name,
            ) by {
                if i < o.len() {
                    assert(o[i] == m[i]);
                }
            }
            lemma_called_for_kept(o, m, wanted);
            assert(m[o.len() as int] == package@);
            assert(m.take(m.len() as int) =~= m);
            if falling(ms, rank) {
                lemma_deps_before_entered(o, package@, open);
            }
        }
        proof {
            if index_ok(ms) {
                assert(index_lookup(ms, package_name@) == Some(package@));
                assert(unresolved_names(package@) == names.deep_view());
                assert forall|j: int| 0 <= j < names@.len() implies index_lookup(
                    ms,
                    #[trigger] names.deep_view()[j],
                ) is Some by {
                    assert(names.deep_view()[j] == unresolved_names(package@)[j]);
                }
            }
        }
        let mut text = String::from_str("When resolving dependencies for package '");
        let full = package.full_name();
        text.append(full.as_str());
        text.append("':");
        let mut k: usize = 0;
        while k < names.len()
            invariant
                k <= names.len(),
                ms == mirrors_view(self.mirrors@),
                o == refs_view(old(pool)@),
                inner == open.push(package_name@),
                package@.name == package_name@,
                index_lookup(ms, package_name@) == Some(package@),
                unresolved_names(package@) == names.deep_view(),
                catalog_names(ms).contains(package_name@),
                !package_names(o).contains(package_name@),
                index_inv(ms, refs_view(pool@), inner),
                called_for(refs_view(pool@), wanted),
                refs_view(pool@).contains(package@),
                m == o.push(package@),
                o.len() < refs_view(pool@).len(),
                refs_view(pool@).take(m.len() as int) == m,
                falling(ms, rank) ==> deps_before(refs_view(pool@), inner),
                falling(ms, rank) ==> forall|i: int|
                    o.len() < i < refs_view(pool@).len() ==> rank((#[trigger] refs_view(pool@)[i]).name)
                        < rank(package_name@),
                forall|x: Seq<char>|
                    package_names(o).push(package_name@).contains(x) ==> package_names(
                        refs_view(pool@),
                    ).contains(x),
                forall|j: int|
                    0 <= j < k ==> package_names(refs_view(pool@)).contains(
                        #[trigger] names.deep_view()[j],
                    ),
                index_ok(ms) ==> forall|j: int|
                    0 <= j < names@.len() ==> index_lookup(ms, #[trigger] names.deep_view()[j]) is Some,
            decreases names.len() - k,
        {
            let ghost before = package_names(refs_view(pool@));
            proof {
                assert forall|x: Seq<char>| package_names(o).contains(x) implies before.contains(
                    x,
                ) by {
                    let j = choose|j: int| 0 <= j < package_names(o).len() && package_names(o)[j] == x;
                    assert(package_names(o).push(package_name@)[j] == x);
                }
                assert(package_names(o).push(package_name@)[package_names(o).len() as int]
                    == package_name@);
                lemma_absent_strict(
                    catalog_names(ms),
                    package_names(o),
                    before,
                    package_name@,
                );
            }
            let ghost held = refs_view(pool@);
            proof {
                assert(names.deep_view()[k as int] == names@[k as int]@);
                let at = choose|at: int| 0 <= at < held.len() && held[at] == package@;
                assert(unresolved_names(held[at])[k as int] == names@[k as int]@);
                assert(unresolved_names(held[at]).contains(names@[k as int]@));
            }
            let outcome = self.resolve_package_dependencies(
                names[k].as_str(),
                pool,
                Ghost(inner),
                Ghost(wanted),
                Ghost(rank),
            );
            match outcome.err_prepend(text.as_str()) {
                Ok(()) => {},
                Err(e) => {
                    return Err(e);
                },
            }
            proof {
                assert(names.deep_view()[k as int] == names@[k as int]@);
                lemma_entries_kept(ms, held, refs_view(pool@), inner, inner);
                let cur = refs_view(pool@);
                assert(cur.take(m.len() as int) =~= m) by {
                    assert forall|i: int| 0 <= i < m.len() implies cur[i] == m[i] by {
                        assert(cur.take(held.len() as int)[i] == held[i]);
                        assert(held.take(m.len() as int)[i] == m[i]);
                    }
                }
                if falling(ms, rank) {
                    assert(rank(unresolved_names(index_lookup(ms, package_name@)->Some_0)[k as int])
                        < rank(package_name@));
                    assert forall|i: int| o.len() < i < cur.len() implies rank((#[trigger] cur[i]).name)
                        < rank(package_name@) by {
                        if i < held.len() {
                            assert(cur.take(held.len() as int)[i] == held[i]);
                        }
                    }
                }
            }
            k = k + 1;
        }
        // Pull back the package
        let ghost mid = refs_view(pool@);
        let mut kept: Vec<&'a RemotePackage> = Vec::new();
        let mut q: usize = 0;
        while q < pool.len()
            invariant
                q <= pool.len(),
                mid == refs_view(pool@),
                package@.name == package_name@,
                refs_view(kept@) == without(mid.take(q as int), package_name@),
            decreases pool.len() - q,
        {
            let ghost kb = refs_view(kept@);
            if !same_text(pool[q].name(), package_name) {
                kept.push(pool[q]);
                assert(refs_view(kept@) =~= kb.push(mid[q as int]));
            }
            proof {
                assert(mid.take(q + 1).drop_last() =~= mid.take(q as int));
            }
            q = q + 1;
        }
        kept.push(package);
        proof {
            assert(mid.take(mid.len() as int) =~= mid);
            assert(refs_view(kept@) =~= without(mid, package_name@).push(package@));
            assert(package_names(o).push(package_name@)[package_names(o).len() as int]
                == package_name@);
            assert(package_names(mid).contains(package_name@));
            lemma_pulled_back(ms, mid, package@, open);
            lemma_without(mid, package_name@);
            let last = refs_view(kept@);
            let n = o.len() as int;
            assert(mid[n] == mid.take(m.len() as int)[n]);
            assert(mid[n] == package@);
            lemma_without_one(mid, package_name@, n);
            assert(last == moved_back(mid, n));
            assert(last.take(n) =~= o) by {
                assert forall|i: int| 0 <= i < n implies last[i] == o[i] by {
                    assert(mid.take(m.len() as int)[i] == m[i]);
                }
            }
            if falling(ms, rank) {
                assert forall|j: int| 0 <= j < unresolved_names(mid[n]).len() implies package_names(
                    mid,
                ).contains(#[trigger] unresolved_names(mid[n])[j]) by {
                    assert(names.deep_view()[j] == unresolved_names(package@)[j]);
                }
                lemma_moved_back(ms, rank, mid, n, open);
            }
            assert forall|j: int| 0 <= j < mid.len() implies last.contains(#[trigger] mid[j]) by {
                if mid[j].name == package_name@ {
                    assert(index_lookup(ms, mid[j].name) == Some(mid[j]));
                    assert(last[last.len() - 1] == package@);
                } else {
                    assert(without(mid, package_name@).contains(mid[j]));
                    let a = choose|a: int|
                        0 <= a < without(mid, package_name@).len() && without(mid, package_name@)[a]
                            == mid[j];
                    assert(last[a] == mid[j]);
                }
            }
            assert forall|i: int| 0 <= i < last.len() implies mid.contains(#[trigger] last[i]) || needed(
                mid,
                wanted,
                last[i].name,
            ) by {
                if i < last.len() - 1 {
                    assert(last[i] == without(mid, package_name@)[i]);
                }
            }
            lemma_called_for_kept(mid, last, wanted);
            assert forall|x: Seq<char>| package_names(o).contains(x) implies package_names(
                refs_view(kept@),
            ).contains(x) by {
                let j = choose|j: int| 0 <= j < package_names(o).len() && package_names(o)[j] == x;
                assert(package_names(o).push(package_name@)[j] == x);
                assert(package_names(mid).contains(x));
            }
        }
        *pool = kept;
        Ok(())
    }
}

/// The packages of `ps` that are not named `name`, in order.
pub open spec fn without(ps: Seq<PackageView>, name: Seq<char>) -> Seq<PackageView>
    decreases ps.len(),
{
    if ps.len() == 0 {
        Seq::empty()
    } else if ps.last().name == name {
        without(ps.drop_last(), name)
    } else {
        without(ps.drop_last(), name).push(ps.last())
    }
}

/// Leaving out a name keeps the other packages and their order.
pub proof fn lemma_without(ps: Seq<PackageView>, name: Seq<char>)
    ensures
        forall|i: int|
            0 <= i < without(ps, name).len() ==> ps.contains(#[trigger] without(ps, name)[i])
                && without(ps, name)[i].name != name,
        forall|i: int|
            0 <= i < ps.len() && ps[i].name != name ==> without(ps, name).contains(#[trigger] ps[i]),
        distinct(package_names(ps)) ==> distinct(package_names(without(ps, name))),
    decreases ps.len(),
{
    if ps.len() > 0 {
        let w = without(ps, name);
        let wl = without(ps.drop_last(), name);
        lemma_without(ps.drop_last(), name);
        assert forall|i: int| 0 <= i < w.len() implies ps.contains(#[trigger] w[i]) && w[i].name
            != name by {
            if i < wl.len() {
                assert(ps.drop_last().contains(wl[i]));
                let j = choose|j: int| 0 <= j < ps.drop_last().len() && ps.drop_last()[j] == wl[i];
                assert(ps[j] == wl[i]);
            } else {
                assert(ps[ps.len() - 1] == w[i]);
            }
        }
        assert forall|i: int| 0 <= i < ps.len() && ps[i].name != name implies w.contains(
            #[trigger] ps[i],
        ) by {
            if i < ps.len() - 1 {
                assert(ps.drop_last()[i] == ps[i]);
                assert(wl.contains(ps[i]));
                let j = choose|j: int| 0 <= j < wl.len() && wl[j] == ps[i];
                assert(w[j] == ps[i]);
            } else {
                assert(w[w.len() - 1] == ps[i]);
            }
        }
        if distinct(package_names(ps)) {
            assert(distinct(package_names(ps.drop_last()))) by {
                assert forall|i: int, j: int|
                    0 <= i < j < package_names(ps.drop_last()).len() implies package_names(
                    ps.drop_last(),
                )[i] != package_names(ps.drop_last())[j] by {
                    assert(package_names(ps)[i] != package_names(ps)[j]);
                }
            }
            if ps.last().name != name {
                assert forall|i: int, j: int| 0 <= i < j < package_names(w).len() implies package_names(
                    w,
                )[i] != package_names(w)[j] by {
                    if j < wl.len() {
                        assert(package_names(wl)[i] != package_names(wl)[j]);
                    } else {
                        assert(ps.drop_last().contains(wl[i]));
                        let a = choose|a: int|
                            0 <= a < ps.drop_last().len() && ps.drop_last()[a] == wl[i];
                        assert(package_names(ps)[a] != package_names(ps)[ps.len() - 1]);
                    }
                }
            }
        }
    }
}

/// A package that enters the list while it is being resolved keeps the rules.
pub proof fn lemma_entered(ms: Seq<MirrorView>, o: Seq<PackageView>, p: PackageView, open: Seq<Seq<char>>)
    requires
        index_inv(ms, o, open),
        !package_names(o).contains(p.name),
        index_lookup(ms, p.name) == Some(p),
    ensures
        index_inv(ms, o.push(p), open.push(p.name)),
{
    let m = o.push(p);
    let inner = open.push(p.name);
    assert(package_names(m) =~= package_names(o).push(p.name));
    assert forall|i: int, j: int| 0 <= i < j < package_names(m).len() implies package_names(m)[i]
        != package_names(m)[j] by {
        if j < o.len() {
            assert(package_names(o)[i] != package_names(o)[j]);
        } else {
            assert(package_names(o).contains(package_names(o)[i]));
        }
    }
    assert forall|i: int, j: int|
        0 <= i < m.len() && 0 <= j < unresolved_names(m[i]).len() implies inner.contains(m[i].name)
        || package_names(m).contains(#[trigger] unresolved_names(m[i])[j]) by {
        if i < o.len() {
            let d = unresolved_names(o[i])[j];
            if open.contains(o[i].name) {
                let a = choose|a: int| 0 <= a < open.len() && open[a] == o[i].name;
                assert(inner[a] == o[i].name);
            } else {
                assert(package_names(o).contains(d));
                let a = choose|a: int| 0 <= a < package_names(o).len() && package_names(o)[a] == d;
                assert(package_names(m)[a] == d);
            }
        } else {
            assert(inner[open.len() as int] == p.name);
        }
    }
}

/// A package whose dependencies are all in the list keeps the rules when it
/// moves to the end of the list and is no longer being resolved.
pub proof fn lemma_pulled_back(
    ms: Seq<MirrorView>,
    mid: Seq<PackageView>,
    p: PackageView,
    open: Seq<Seq<char>>,
)
    requires
        index_inv(ms, mid, open.push(p.name)),
        index_lookup(ms, p.name) == Some(p),
        package_names(mid).contains(p.name),
        forall|j: int|
            0 <= j < unresolved_names(p).len() ==> package_names(mid).contains(
                #[trigger] unresolved_names(p)[j],
            ),
    ensures
        index_inv(ms, without(mid, p.name).push(p), open),
        forall|x: Seq<char>|
            package_names(mid).contains(x) <==> package_names(without(mid, p.name).push(p)).contains(
                x,
            ),
{
    let w = without(mid, p.name);
    let f = w.push(p);
    lemma_without(mid, p.name);
    assert forall|x: Seq<char>| package_names(mid).contains(x) <==> package_names(f).contains(
        x,
    ) by {
        if package_names(mid).contains(x) {
            let a = choose|a: int| 0 <= a < mid.len() && package_names(mid)[a] == x;
            if x == p.name {
                assert(package_names(f)[w.len() as int] == x);
            } else {
                assert(w.contains(mid[a]));
                let b = choose|b: int| 0 <= b < w.len() && w[b] == mid[a];
                assert(package_names(f)[b] == x);
            }
        }
        if package_names(f).contains(x) {
            let b = choose|b: int| 0 <= b < f.len() && package_names(f)[b] == x;
            if b < w.len() {
                assert(mid.contains(w[b]));
                let a = choose|a: int| 0 <= a < mid.len() && mid[a] == w[b];
                assert(package_names(mid)[a] == x);
            }
        }
    }
    assert(distinct(package_names(f))) by {
        assert forall|i: int, j: int| 0 <= i < j < package_names(f).len() implies package_names(f)[i]
            != package_names(f)[j] by {
            if j < w.len() {
                assert(package_names(w)[i] != package_names(w)[j]);
            } else {
                assert(w[i].name != p.name);
            }
        }
    }
    assert forall|i: int| 0 <= i < f.len() implies index_lookup(ms, (#[trigger] f[i]).name) == Some(
        f[i],
    ) by {
        if i < w.len() {
            assert(mid.contains(w[i]));
            let a = choose|a: int| 0 <= a < mid.len() && mid[a] == w[i];
            assert(index_lookup(ms, mid[a].name) == Some(mid[a]));
        }
    }
    assert forall|i: int, j: int|
        0 <= i < f.len() && 0 <= j < unresolved_names(f[i]).len() implies open.contains(f[i].name)
        || package_names(f).contains(#[trigger] unresolved_names(f[i])[j]) by {
        let d = unresolved_names(f[i])[j];
        if i < w.len() {
            assert(mid.contains(w[i]));
            let a = choose|a: int| 0 <= a < mid.len() && mid[a] == w[i];
            assert(unresolved_names(mid[a])[j] == d);
            if open.push(p.name).contains(mid[a].name) {
                let b = choose|b: int|
                    0 <= b < open.push(p.name).len() && open.push(p.name)[b] == mid[a].name;
                assert(b < open.len());
                assert(open[b] == mid[a].name);
            } else {
                assert(package_names(mid).contains(d));
            }
        } else {
            assert(package_names(mid).contains(d));
        }
    }
}

} // verus!
