//! The actions of the package manager, each as the part that decides: what
//! to write after an update, what to fetch for an installation, and what the
//! fetched archives make of the plan.
use vstd::prelude::*;
use vstd::string::StringExecFns;
use crate::config::Config;
use crate::db::{DBConnection, DatabaseView};
use crate::error::{LError, LErrorClass, LErrorView};
use crate::mirror::{
    catalog_view, json_error, json_member, load_error, lookup, mirror_path, mirrors_view,
    not_found_error, not_loaded_error, payload_key, resolve_package, Lookup, Mirror, MirrorFile,
    MirrorView,
};
use crate::package::packageref::PoolView;
use crate::package::remote::archive_path;
use crate::package::{
    fq_name_string, fq_name_text, CorePackage, LocalPackage, PackagePool, PackageRef,
    PackageVariant, PackageView, RemotePackage,
};
use crate::util::dependencies::{
    added_finished, all_sourced, extends, layered, layers_exist, lemma_all_sourced_step,
    lemma_extends_refl, lemma_extends_trans, lemma_stands_for_kept, lemma_tidy_added,
    resolve_failure, resolve_with, sources_ok, stands_for, tidy, wanted_only,
};
use crate::util::search::{first_index, lemma_first_index};
use crate::util::transaction::lemma_update_keeps;

verus! {

/// What an update of the mirrors comes to: the files to write and the errors
/// of the mirrors that could not be updated.
#[derive(Debug)]
pub struct UpdateOutcome {
    pub files: Vec<MirrorFile>,
    pub errors: Vec<LError>,
}

/// The views of a list of errors.
pub open spec fn errors_view(s: Seq<LError>) -> Seq<LErrorView> {
    Seq::new(s.len(), |i: int| s[i]@)
}

/// A mirror file as plain values: its path and its content.
pub open spec fn files_view(s: Seq<MirrorFile>) -> Seq<(Seq<char>, Seq<char>)> {
    Seq::new(s.len(), |i: int| (s[i].path@, s[i].content@))
}

/// What the answer of one mirror comes to: the file to write, or the error.
pub open spec fn update_one(m: MirrorView, c: Config, response: Result<Vec<u8>, LError>) -> Result<
    (Seq<char>, Seq<char>),
    LErrorView,
> {
    match response {
        Err(e) => Err(e@),
        Ok(body) => match json_member(body@, payload_key()) {
            Ok(text) => Ok((mirror_path(m, c), text)),
            Err(reason) => Err(json_error(reason)),
        },
    }
}

/// The files to write for the first `k` mirrors.
pub open spec fn update_files(
    ms: Seq<MirrorView>,
    c: Config,
    responses: Seq<Result<Vec<u8>, LError>>,
    k: int,
) -> Seq<(Seq<char>, Seq<char>)>
    decreases k,
{
    if k <= 0 {
        Seq::empty()
    } else {
        let before = update_files(ms, c, responses, k - 1);
        match update_one(ms[k - 1], c, responses[k - 1]) {
            Ok(file) => before.push(file),
            Err(_) => before,
        }
    }
}

/// The errors of the first `k` mirrors.
pub open spec fn update_errors(
    ms: Seq<MirrorView>,
    c: Config,
    responses: Seq<Result<Vec<u8>, LError>>,
    k: int,
) -> Seq<LErrorView>
    decreases k,
{
    if k <= 0 {
        Seq::empty()
    } else {
        let before = update_errors(ms, c, responses, k - 1);
        match update_one(ms[k - 1], c, responses[k - 1]) {
            Ok(_) => before,
            Err(e) => before.push(e),
        }
    }
}

/// The smaller of two lengths.
pub open spec fn shorter(a: nat, b: nat) -> int {
    if a < b {
        a as int
    } else {
        b as int
    }
}

impl UpdateOutcome {
    /// The outcome as a result: the files where every mirror was updated,
    /// else the full list of errors.
    pub fn into_result(self) -> (r: Result<Vec<MirrorFile>, Vec<LError>>)
        ensures
            self.errors@.len() == 0 ==> r == Ok::<Vec<MirrorFile>, Vec<LError>>(self.files),
            self.errors@.len() > 0 ==> r == Err::<Vec<MirrorFile>, Vec<LError>>(self.errors),
    {
        if self.errors.len() == 0 {
            Ok(self.files)
        } else {
            Err(self.errors)
        }
    }
}

/// Updates the mirrors from the answers that they gave, one answer per
/// mirror in the order of the mirrors: an answer that is a JSON document
/// yields the mirror's file, and the errors of all other mirrors are
/// collected. No error keeps the other mirrors from being updated.
pub fn update(config: &Config, mirrors: &Vec<Mirror>, responses: &Vec<Result<Vec<u8>, LError>>) -> (r:
    UpdateOutcome)
    ensures
        files_view(r.files@) == update_files(
            mirrors_view(mirrors@),
            *config,
            responses@,
            shorter(mirrors@.len(), responses@.len()),
        ),
        errors_view(r.errors@) == update_errors(
            mirrors_view(mirrors@),
            *config,
            responses@,
            shorter(mirrors@.len(), responses@.len()),
        ),
{
    let n: usize = if mirrors.len() < responses.len() {
        mirrors.len()
    } else {
        responses.len()
    };
    let ghost ms = mirrors_view(mirrors@);
    let mut files: Vec<MirrorFile> = Vec::new();
    let mut errors: Vec<LError> = Vec::new();
    let mut k: usize = 0;
    while k < n
        invariant
            k <= n,
            n <= mirrors.len(),
            n <= responses.len(),
            ms == mirrors_view(mirrors@),
            files_view(files@) == update_files(ms, *config, responses@, k as int),
            errors_view(errors@) == update_errors(ms, *config, responses@, k as int),
        decreases n - k,
    {
        let ghost fb = files_view(files@);
        let ghost eb = errors_view(errors@);
        let outcome = match &responses[k] {
            Ok(body) => mirrors[k].update(config, body.as_slice()),
            Err(e) => Err(e.duplicate()),
        };
        match outcome {
            Ok(file) => {
                files.push(file);
                assert(files_view(files@) =~= fb.push((file.path@, file.content@)));
            },
            Err(e) => {
                errors.push(e);
                assert(errors_view(errors@) =~= eb.push(e@));
            },
        }
        k = k + 1;
    }
    UpdateOutcome { files, errors }
}

/// The mirrors after the first `k` catalogs were taken in, and the error at
/// which loading stopped, if any.
pub open spec fn load_spec(
    ms: Seq<MirrorView>,
    catalogs: Seq<Result<Vec<RemotePackage>, String>>,
    k: int,
) -> (Seq<MirrorView>, Option<LErrorView>)
    decreases k,
{
    if k <= 0 {
        (ms, None)
    } else {
        let before = load_spec(ms, catalogs, k - 1);
        if before.1 is Some {
            before
        } else {
            match catalogs[k - 1] {
                Ok(ps) => (
                    before.0.update(
                        k - 1,
                        MirrorView { packages: Some(catalog_view(ps@)), ..before.0[k - 1] },
                    ),
                    None,
                ),
                Err(reason) => (before.0, Some(load_error(before.0[k - 1], reason@))),
            }
        }
    }
}

/// Loads the cached catalog of every mirror, one catalog per mirror in the
/// order of the mirrors. The first catalog that could not be read ends the
/// loading with its error; the mirrors before it stay loaded.
pub fn load_mirrors(mirrors: &mut Vec<Mirror>, catalogs: Vec<Result<Vec<RemotePackage>, String>>) -> (r:
    Result<(), LError>)
    ensures
        final(mirrors)@.len() == old(mirrors)@.len(),
        mirrors_view(final(mirrors)@) == load_spec(
            mirrors_view(old(mirrors)@),
            catalogs@,
            shorter(old(mirrors)@.len(), catalogs@.len()),
        ).0,
        match load_spec(
            mirrors_view(old(mirrors)@),
            catalogs@,
            shorter(old(mirrors)@.len(), catalogs@.len()),
        ).1 {
            None => r is Ok,
            Some(e) => r is Err && r->Err_0@ == e,
        },
{
    let ghost all = catalogs@;
    let ghost ms0 = mirrors_view(mirrors@);
    let n: usize = if mirrors.len() < catalogs.len() {
        mirrors.len()
    } else {
        catalogs.len()
    };
    let mut pending = catalogs;
    let mut rest: Vec<Result<Vec<RemotePackage>, String>> = Vec::new();
    while pending.len() > 0
        invariant
            rest@.len() + pending@.len() == all.len(),
            forall|j: int| 0 <= j < pending@.len() ==> pending@[j] == all[j],
            forall|j: int| 0 <= j < rest@.len() ==> #[trigger] rest@[j] == all[all.len() - 1 - j],
        decreases pending.len(),
    {
        let c = pending.pop().unwrap();
        rest.push(c);
    }
    let mut k: usize = 0;
    while k < n
        invariant
            k <= n,
            all == catalogs@,
            ms0 == mirrors_view(old(mirrors)@),
            n == shorter(ms0.len(), all.len()),
            mirrors@.len() == ms0.len(),
            rest@.len() == all.len() - k,
            forall|j: int| 0 <= j < rest@.len() ==> #[trigger] rest@[j] == all[all.len() - 1 - j],
            load_spec(ms0, all, k as int) == (mirrors_view(mirrors@), None::<LErrorView>),
        decreases n - k,
    {
        let catalog = rest.pop().unwrap();
        assert(catalog == all[k as int]);
        let ghost before = mirrors_view(mirrors@);
        let mut mirror = mirrors.remove(k);
        let outcome = mirror.load(catalog);
        mirrors.insert(k, mirror);
        match outcome {
            Ok(()) => {
                proof {
                    assert(mirrors_view(mirrors@) =~= load_spec(ms0, all, k + 1).0);
                }
            },
            Err(e) => {
                proof {
                    assert(mirrors_view(mirrors@) =~= before);
                    lemma_load_stops(ms0, all, k + 1, n as int);
                }
                return Err(e);
            },
        }
        k = k + 1;
    }
    Ok(())
}

/// Once loading has failed, it stays failed.
pub proof fn lemma_load_stops(
    ms: Seq<MirrorView>,
    catalogs: Seq<Result<Vec<RemotePackage>, String>>,
    k: int,
    n: int,
)
    requires
        0 <= k <= n,
        load_spec(ms, catalogs, k).1 is Some,
    ensures
        load_spec(ms, catalogs, n) == load_spec(ms, catalogs, k),
    decreases n - k,
{
    if k < n {
        lemma_load_stops(ms, catalogs, k, n - 1);
    }
}

/// One download that an installation asks for.
#[derive(Debug)]
pub struct FetchJob {
    /// The handle of the remote package in the pool.
    pub package: PackageRef,
    /// The name of the package.
    pub name: String,
    /// Where the archive is fetched from.
    pub url: String,
    /// The file that the archive is written to.
    pub path: String,
    /// The hash that the catalog gives for the archive.
    pub hash: String,
}

/// A download as plain values.
pub struct FetchJobView {
    pub package: PackageRef,
    pub name: Seq<char>,
    pub url: Seq<char>,
    pub path: Seq<char>,
    pub hash: Seq<char>,
}

impl View for FetchJob {
    type V = FetchJobView;

    open spec fn view(&self) -> FetchJobView {
        FetchJobView {
            package: self.package,
            name: self.name@,
            url: self.url@,
            path: self.path@,
            hash: self.hash@,
        }
    }
}

/// The views of a list of downloads.
pub open spec fn jobs_view(s: Seq<FetchJob>) -> Seq<FetchJobView> {
    Seq::new(s.len(), |i: int| s[i]@)
}

/// The downloads for the first `k` packages of the plan: one for each remote
/// package, in plan order. Installed and local packages need none.
pub open spec fn fetch_jobs(pool: PoolView, c: Config, k: int) -> Seq<FetchJobView>
    decreases k,
{
    if k <= 0 {
        Seq::empty()
    } else {
        let before = fetch_jobs(pool, c, k - 1);
        let h = pool.order[k - 1];
        if h < pool.packages.len() && pool.packages[h as int].extra is Remote {
            let p = pool.packages[h as int];
            before.push(
                FetchJobView {
                    package: h,
                    name: p.name,
                    url: p.extra->url,
                    path: archive_path(p, c),
                    hash: p.hash,
                },
            )
        } else {
            before
        }
    }
}

/// Every download of the plan is for a remote package of the plan.
pub proof fn lemma_jobs_remote(pool: PoolView, c: Config, k: int, j: int)
    requires
        0 <= k <= pool.order.len(),
        0 <= j < fetch_jobs(pool, c, k).len(),
    ensures
        exists|i: int|
            0 <= i < k && #[trigger] pool.order[i] == fetch_jobs(pool, c, k)[j].package && pool.order[i]
                < pool.packages.len() && pool.packages[pool.order[i] as int].extra is Remote
                && pool.packages[pool.order[i] as int].name == fetch_jobs(pool, c, k)[j].name,
    decreases k,
{
    if k > 0 {
        let before = fetch_jobs(pool, c, k - 1);
        if j < before.len() {
            lemma_jobs_remote(pool, c, k - 1, j);
            let i = choose|i: int|
                0 <= i < k - 1 && #[trigger] pool.order[i] == before[j].package && pool.order[i]
                    < pool.packages.len() && pool.packages[pool.order[i] as int].extra is Remote
                    && pool.packages[pool.order[i] as int].name == before[j].name;
            assert(fetch_jobs(pool, c, k)[j] == before[j]);
            assert(pool.order[i] == fetch_jobs(pool, c, k)[j].package);
        } else {
            assert(pool.order[k - 1] == fetch_jobs(pool, c, k)[j].package);
        }
    }
}

/// A package that is installed is not downloaded: where the plan was empty
/// before, no download of the plan is for a name that the index has.
pub proof fn lemma_installed_not_fetched(
    ms: Seq<MirrorView>,
    db: DatabaseView,
    old: PoolView,
    new: PoolView,
    c: Config,
    j: int,
)
    requires
        old.order.len() == 0,
        all_sourced(ms, db, old, new),
        0 <= j < fetch_jobs(new, c, new.order.len() as int).len(),
    ensures
        !db.has_name(fetch_jobs(new, c, new.order.len() as int)[j].name),
{
    let jobs = fetch_jobs(new, c, new.order.len() as int);
    lemma_jobs_remote(new, c, new.order.len() as int, j);
    let i = choose|i: int|
        0 <= i < new.order.len() && #[trigger] new.order[i] == jobs[j].package && new.order[i]
            < new.packages.len() && new.packages[new.order[i] as int].extra is Remote
            && new.packages[new.order[i] as int].name == jobs[j].name;
    crate::util::dependencies::lemma_entered_found(ms, db, old, new, i);
}

/// Lists the downloads that the plan asks for: one for every remote package
/// of the plan, in plan order.
pub fn download_packages(config: &Config, pool: &PackagePool) -> (r: Vec<FetchJob>)
    ensures
        jobs_view(r@) == fetch_jobs(pool@, *config, pool@.order.len() as int),
{
    let mut jobs: Vec<FetchJob> = Vec::new();
    let mut k: usize = 0;
    while k < pool.order.len()
        invariant
            k <= pool.order.len(),
            jobs_view(jobs@) == fetch_jobs(pool@, *config, k as int),
        decreases pool.order.len() - k,
    {
        let h = pool.order[k];
        let ghost before = jobs_view(jobs@);
        if h < pool.packages.len() {
            match &pool.packages[h] {
                PackageVariant::Remote(remote) => {
                    let job = FetchJob {
                        package: h,
                        name: remote.name.clone(),
                        url: remote.url.clone(),
                        path: remote.get_archive_path(config),
                        hash: remote.hash.clone(),
                    };
                    jobs.push(job);
                    assert(jobs_view(jobs@) =~= before.push(job@));
                },
                _ => {},
            }
        }
        k = k + 1;
    }
    jobs
}

/// The error for a fetched package that is not in the plan.
pub open spec fn stray_error(p: PackageView) -> LErrorView {
    LErrorView {
        class: LErrorClass::PackageNotFound,
        messages: seq!["Could not find downloaded package in pool anymore: "@ + fq_name_text(p)],
    }
}

/// The pool after the first `k` results of fetching were taken in, and the
/// error at which that stopped, if any: a fetched package takes the place of
/// the package of its name in the plan and keeps that package's dependencies;
/// the first error of a download, or a fetched package whose name is not in
/// the plan, ends it.
pub open spec fn fetched_pool(pool: PoolView, results: Seq<Result<LocalPackage, LError>>, k: int) -> (
    PoolView,
    Option<LErrorView>,
)
    decreases k,
{
    if k <= 0 {
        (pool, None)
    } else {
        let before = fetched_pool(pool, results, k - 1);
        if before.1 is Some {
            before
        } else {
            match results[k - 1] {
                Err(e) => (before.0, Some(e@)),
                Ok(local) => {
                    let p = first_index(before.0.names(), local@.name);
                    if p >= before.0.order.len() || before.0.order[p] >= before.0.packages.len() {
                        (before.0, Some(stray_error(local@)))
                    } else {
                        let h = before.0.order[p];
                        (
                            PoolView {
                                packages: before.0.packages.update(
                                    h as int,
                                    PackageView {
                                        dependencies: before.0.packages[h as int].dependencies,
                                        ..local@
                                    },
                                ),
                                ..before.0
                            },
                            None,
                        )
                    }
                },
            }
        }
    }
}

/// Once taking in results has failed, it stays failed.
pub proof fn lemma_fetched_stops(
    pool: PoolView,
    results: Seq<Result<LocalPackage, LError>>,
    k: int,
    n: int,
)
    requires
        0 <= k <= n,
        fetched_pool(pool, results, k).1 is Some,
    ensures
        fetched_pool(pool, results, n) == fetched_pool(pool, results, k),
    decreases n - k,
{
    if k < n {
        lemma_fetched_stops(pool, results, k, n - 1);
    }
}

/// Takes the results of fetching into the pool, in the order given: each
/// fetched package is matched to the plan by name and takes the place of the
/// package there. The first failed download ends it with its error.
pub fn apply_downloads(pool: &mut PackagePool, results: Vec<Result<LocalPackage, LError>>) -> (r:
    Result<(), LError>)
    requires
        old(pool)@.wf(),
    ensures
        final(pool)@.wf(),
        final(pool)@ == fetched_pool(old(pool)@, results@, results@.len() as int).0,
        match fetched_pool(old(pool)@, results@, results@.len() as int).1 {
            None => r is Ok,
            Some(e) => r is Err && r->Err_0@ == e,
        },
{
    let ghost all = results@;
    let ghost o = pool@;
    let total: usize = results.len();
    let mut pending = results;
    let mut rest: Vec<Result<LocalPackage, LError>> = Vec::new();
    while pending.len() > 0
        invariant
            rest@.len() + pending@.len() == all.len(),
            forall|j: int| 0 <= j < pending@.len() ==> pending@[j] == all[j],
            forall|j: int| 0 <= j < rest@.len() ==> #[trigger] rest@[j] == all[all.len() - 1 - j],
        decreases pending.len(),
    {
        let c = pending.pop().unwrap();
        rest.push(c);
    }
    let mut k: usize = 0;
    while rest.len() > 0
        invariant
            k + rest@.len() == all.len(),
            all == results@,
            all.len() == total,
            o == old(pool)@,
            pool@.wf(),
            forall|j: int| 0 <= j < rest@.len() ==> #[trigger] rest@[j] == all[all.len() - 1 - j],
            fetched_pool(o, all, k as int) == (pool@, None::<LErrorView>),
        decreases rest.len(),
    {
        let result = rest.pop().unwrap();
        assert(result == all[k as int]);
        let ghost before = pool@;
        match result {
            Err(e) => {
                proof {
                    lemma_fetched_stops(o, all, k + 1, all.len() as int);
                }
                return Err(e);
            },
            Ok(local) => {
                let found = pool.find_name(local.name.as_str());
                let place = match found {
                    Some(p) => if pool.order[p] < pool.packages.len() {
                        Some(pool.order[p])
                    } else {
                        None
                    },
                    None => None,
                };
                match place {
                    None => {
                        proof {
                            lemma_fetched_stops(o, all, k + 1, all.len() as int);
                        }
                        let mut text = String::from_str(
                            "Could not find downloaded package in pool anymore: ",
                        );
                        let fq = fq_name_string(
                            local.name.as_str(),
                            local.version.as_str(),
                            local.real_version,
                        );
                        text.append(fq.as_str());
                        return Err(LError::new(LErrorClass::PackageNotFound, text.as_str()));
                    },
                    Some(h) => {
                        let mut local = local;
                        let ghost fetched = local@;
                        local.dependencies = pool.packages[h].dependencies().duplicate();
                        proof {
                            lemma_first_index(before.names(), fetched.name);
                        }
                        pool.replace(h, PackageVariant::Local(local));
                        proof {
                            let p = first_index(before.names(), fetched.name);
                            assert(before.names()[p] == fetched.name);
                            lemma_update_keeps(before, pool@);
                        }
                    },
                }
            },
        }
        k = k + 1;
    }
    Ok(())
}

/// The classes of the errors that planning an installation can end with.
pub open spec fn install_failure(class: LErrorClass) -> bool {
    resolve_failure(class)
}

/// Whether planning the installation of the packages named `names` cannot
/// fail: the mirrors have each of them, and there is a set of names with
/// `names` such that the package that resolving takes for each name of the
/// set depends only on names of the set that can be found.
pub open spec fn supplied(ms: Seq<MirrorView>, db: DatabaseView, names: Seq<Seq<char>>) -> bool {
    exists|reach: Set<Seq<char>>| #[trigger]
        sources_ok(ms, db, reach) && forall|k: int|
            0 <= k < names.len() ==> reach.contains(#[trigger] names[k]) && lookup(ms, names[k]) is Found
}

/// The errors that planning an installation can end with: the error for
/// dependencies that were resolved before, where a package of a mirror has
/// such; the error of a mirror that is not loaded; the error that names a
/// dependency of a package of the plan that cannot be found; the error for
/// one of the names asked for that no mirror has.
pub open spec fn install_error(
    ms: Seq<MirrorView>,
    db: DatabaseView,
    pool: PoolView,
    packages: Seq<String>,
    e: LErrorView,
) -> bool {
    ||| e == crate::package::dependencies_error(false) && crate::util::dependencies::spoiled(ms)
    ||| exists|m: int|
        0 <= m < ms.len() && ms[m].packages is None && e == not_loaded_error(#[trigger] ms[m])
    ||| exists|g: PackageRef, n: Seq<char>| #[trigger] crate::util::dependencies::lacks(ms, db, pool, g, n, e)
    ||| exists|k: int|
        0 <= k < packages.len() && lookup(ms, #[trigger] packages[k]@) is Missing && e
            == not_found_error(packages[k]@)
}

/// Plans the installation of the packages named `packages`: each name is
/// looked up in the mirrors, in the order of the mirrors, and resolved with
/// all its dependencies into the pool, which then holds the plan in install
/// order. Returns the downloads that the plan asks for. The first error ends
/// the planning.
pub fn install(
    config: &Config,
    packages: &Vec<String>,
    mirrors: &Vec<Mirror>,
    pool: &mut PackagePool,
    db_con: &DBConnection,
) -> (r: Result<Vec<FetchJob>, LError>)
    requires
        old(pool)@.wf(),
    ensures
        final(pool)@.wf(),
        extends(old(pool)@, final(pool)@),
        r is Ok ==> added_finished(old(pool)@, final(pool)@) && jobs_view(r->Ok_0@) == fetch_jobs(
            final(pool)@,
            *config,
            final(pool)@.order.len() as int,
        ),
        r is Ok && old(pool)@.resolved() ==> final(pool)@.resolved(),
        r is Ok ==> forall|k: int|
            0 <= k < packages@.len() ==> lookup(mirrors_view(mirrors@), #[trigger] packages@[k]@) is Found,
        r is Err ==> install_failure(r->Err_0@.class) && install_error(
            mirrors_view(mirrors@),
            db_con@,
            final(pool)@,
            packages@,
            r->Err_0@,
        ),
        all_sourced(mirrors_view(mirrors@), db_con@, old(pool)@, final(pool)@),
        r is Ok ==> forall|k: int|
            0 <= k < packages@.len() ==> stands_for(
                mirrors_view(mirrors@),
                final(pool)@,
                #[trigger] packages@[k]@,
            ),
        r is Ok ==> wanted_only(old(pool)@.order.len() as int, final(pool)@, packages.deep_view()),
        supplied(mirrors_view(mirrors@), db_con@, packages.deep_view()) ==> r is Ok,
        old(pool)@.resolved() && layers_exist(
            mirrors_view(mirrors@),
            db_con@,
            old(pool)@,
            packages.deep_view(),
        )
            ==> !final(pool)@.cyclic && final(pool)@.sorted(),
        packages@.len() > 0 ==> match lookup(mirrors_view(mirrors@), packages@[0]@) {
            Lookup::Missing => r is Err && r->Err_0@ == not_found_error(packages@[0]@)
                && final(pool)@ == old(pool)@,
            Lookup::NotLoaded(m) => r is Err && r->Err_0@ == not_loaded_error(mirrors@[m]@)
                && final(pool)@ == old(pool)@,
            Lookup::Found(_, _) => true,
        },
{
    let ghost o = pool@;
    let transaction = db_con.new_transaction();
    let ghost wanted = packages.deep_view();
    let ghost reach = choose|reach: Set<Seq<char>>| #[trigger]
        sources_ok(mirrors_view(mirrors@), db_con@, reach) && forall|k: int|
            0 <= k < wanted.len() ==> reach.contains(#[trigger] wanted[k]) && lookup(
                mirrors_view(mirrors@),
                wanted[k],
            ) is Found;
    let ghost sure = supplied(mirrors_view(mirrors@), db_con@, wanted);
    let ghost witness = choose|w: (spec_fn(Seq<char>) -> nat, Set<Seq<char>>)|
        #[trigger] layered(w.0, w.1, mirrors_view(mirrors@), db_con@) && tidy(o) && forall|k: int|
            0 <= k < wanted.len() ==> w.1.contains(#[trigger] wanted[k]);
    let ghost quiet = o.resolved() && layered(
        witness.0,
        witness.1,
        mirrors_view(mirrors@),
        db_con@,
    ) && tidy(o) && forall|k: int| 0 <= k < wanted.len() ==> witness.1.contains(#[trigger] wanted[k]);
    proof {
        lemma_extends_refl(o);
        if layers_exist(mirrors_view(mirrors@), db_con@, o, wanted) {
            let (rank, within) = choose|rank: spec_fn(Seq<char>) -> nat, within: Set<Seq<char>>|
                #[trigger] layered(rank, within, mirrors_view(mirrors@), db_con@) && tidy(o)
                    && forall|k: int| 0 <= k < wanted.len() ==> within.contains(#[trigger] wanted[k]);
            let w = (rank, within);
            assert(layered(w.0, w.1, mirrors_view(mirrors@), db_con@) && tidy(o) && forall|k: int|
                0 <= k < wanted.len() ==> w.1.contains(#[trigger] wanted[k]));
        }
    }
    let mut k: usize = 0;
    while k < packages.len()
        invariant
            k <= packages.len(),
            o == old(pool)@,
            wanted == packages.deep_view(),
            sure == supplied(mirrors_view(mirrors@), db_con@, wanted),
            sure ==> sources_ok(mirrors_view(mirrors@), db_con@, reach) && forall|k: int|
                0 <= k < wanted.len() ==> reach.contains(#[trigger] wanted[k]) && lookup(
                    mirrors_view(mirrors@),
                    wanted[k],
                ) is Found,
            quiet == (o.resolved() && layered(
                witness.0,
                witness.1,
                mirrors_view(mirrors@),
                db_con@,
            ) && tidy(o) && forall|k: int|
                0 <= k < wanted.len() ==> witness.1.contains(#[trigger] wanted[k])),
            o.resolved() && layers_exist(mirrors_view(mirrors@), db_con@, o, wanted) ==> quiet,
            quiet ==> tidy(pool@) && pool@.resolved(),
            o.wf(),
            pool@.wf(),
            extends(o, pool@),
            added_finished(o, pool@),
            o.resolved() ==> pool@.resolved(),
            k == 0 ==> pool@ == o,
            transaction@ == db_con@,
            all_sourced(mirrors_view(mirrors@), db_con@, o, pool@),
            wanted_only(o.order.len() as int, pool@, packages.deep_view()),
            forall|j: int|
                0 <= j < k ==> lookup(mirrors_view(mirrors@), #[trigger] packages@[j]@) is Found,
            forall|j: int|
                0 <= j < k ==> stands_for(mirrors_view(mirrors@), pool@, #[trigger] packages@[j]@),
        decreases packages.len() - k,
    {
        let ghost before = pool@;
        assert(wanted[k as int] == packages@[k as int]@);
        let h = match resolve_package(packages[k].as_str(), mirrors, pool) {
            Ok(h) => h,
            Err(e) => {
                proof {
                    let ms = mirrors_view(mirrors@);
                    crate::util::search::lemma_first_index(
                        crate::mirror::answers(ms, packages@[k as int]@),
                        true,
                    );
                    match lookup(ms, packages@[k as int]@) {
                        Lookup::NotLoaded(m) => {
                            assert(ms[m] == mirrors@[m]@);
                            assert(ms[m].packages is None);
                        },
                        _ => {},
                    }
                }
                return Err(e);
            },
        };
        let ghost located = pool@;
        proof {
            assert(located.packages.take(before.packages.len() as int) =~= before.packages);
            crate::util::dependencies::lemma_add_keeps(before, located);
            lemma_extends_trans(o, before, located);
            let ms = mirrors_view(mirrors@);
            crate::util::search::lemma_first_index(crate::mirror::answers(ms, packages@[k as int]@), true);
            match lookup(ms, packages@[k as int]@) {
                Lookup::Found(m, i) => {
                    assert(ms[m] == mirrors@[m]@);
                    assert(located.packages[h as int] == ms[m].packages->Some_0[i]);
                },
                _ => {},
            }
            if sure {
                assert(wanted[k as int] == packages@[k as int]@);
                crate::mirror::lemma_lookup_found(ms, packages@[k as int]@);
                assert(located.packages[h as int].name == packages@[k as int]@);
                if !db_con@.has_name(packages@[k as int]@) {
                    assert(crate::util::dependencies::sourced(ms, db_con@, located.packages[h as int]));
                }
                assert(crate::util::dependencies::able(ms, db_con@, reach, located.packages[h as int]));
            }
            if quiet {
                lemma_tidy_added(before, located);
                assert(wanted[k as int] == packages@[k as int]@);
                crate::mirror::lemma_lookup_found(ms, packages@[k as int]@);
                assert(located.packages[h as int].name == packages@[k as int]@);
                if !db_con@.has_name(packages@[k as int]@) {
                    assert(crate::util::dependencies::sourced(ms, db_con@, located.packages[h as int]));
                }
                assert(crate::util::dependencies::settled(
                    witness.0,
                    witness.1,
                    ms,
                    db_con@,
                    located,
                    h,
                ));
            }
        }
        let outcome = resolve_with(
            h,
            pool,
            mirrors,
            &transaction.db,
            Ghost(witness.0),
            Ghost(witness.1),
            Ghost(reach),
        );
        proof {
            let ms = mirrors_view(mirrors@);
            let after = pool@;
            assert(mirrors@[lookup(ms, packages@[k as int]@)->Found_0].packages->Some_0@[lookup(
                ms,
                packages@[k as int]@,
            )->Found_1]@.extra is Remote);
            lemma_all_sourced_step(ms, db_con@, o, before, located, after, h);
        }
        match outcome {
            Ok(()) => {},
            Err(e) => {
                proof {
                    lemma_extends_trans(o, located, pool@);
                    let ms = mirrors_view(mirrors@);
                    if e@ == crate::package::dependencies_error(false) {
                        if located.packages[h as int].dependencies is Resolved {
                            let m = lookup(ms, packages@[k as int]@)->Found_0;
                            let i = lookup(ms, packages@[k as int]@)->Found_1;
                            crate::mirror::lemma_lookup_found(ms, packages@[k as int]@);
                            assert(ms[m].packages->Some_0[i].dependencies is Resolved);
                        }
                    }
                }
                return Err(e);
            },
        }
        proof {
            let ms = mirrors_view(mirrors@);
            let after = pool@;
            lemma_extends_trans(o, located, after);
            lemma_install_step(o, before, located, after);
            lemma_extends_trans(before, located, after);
            assert(packages.deep_view()[k as int] == packages@[k as int]@);
            crate::mirror::lemma_lookup_found(ms, packages@[k as int]@);
            crate::util::dependencies::lemma_wanted_step(
                o.order.len() as int,
                before,
                after,
                packages.deep_view(),
                packages@[k as int]@,
            );
            assert forall|j: int| 0 <= j < k + 1 implies stands_for(
                ms,
                after,
                #[trigger] packages@[j]@,
            ) by {
                if j < k {
                    lemma_extends_trans(before, located, after);
                    lemma_stands_for_kept(ms, before, after, packages@[j]@);
                } else {
                    let g = choose|g: PackageRef|
                        after.order.contains(g) && #[trigger] crate::util::dependencies::represents(
                            after,
                            g,
                            located.packages[h as int],
                        );
                    assert(after.order.contains(g));
                }
            }
        }
        k = k + 1;
    }
    Ok(download_packages(config, pool))
}

/// What one step of planning keeps: the packages that entered the plan since
/// the planning began are finished.
pub proof fn lemma_install_step(o: PoolView, before: PoolView, located: PoolView, after: PoolView)
    requires
        before.wf(),
        extends(o, before),
        extends(before, located),
        extends(located, after),
        located.order == before.order,
        added_finished(o, before),
        added_finished(located, after),
        o.resolved() ==> before.resolved(),
    ensures
        added_finished(o, after),
        o.resolved() ==> after.resolved(),
{
    lemma_extends_trans(before, located, after);
    assert forall|i: int| o.order.len() <= i < after.order.len() implies after.finished(
        #[trigger] after.order[i] as int,
    ) by {
        if i < before.order.len() {
            assert(after.order.take(before.order.len() as int)[i] == before.order[i]);
            assert(before.order.contains(before.order[i]));
            assert(before.finished(before.order[i] as int));
        }
    }
    if o.resolved() {
        assert forall|i: int| 0 <= i < after.order.len() implies after.finished(
            #[trigger] after.order[i] as int,
        ) by {
            if i < before.order.len() {
                assert(after.order.take(before.order.len() as int)[i] == before.order[i]);
                assert(before.order.contains(before.order[i]));
                assert(before.finished(before.order[i] as int));
            }
        }
    }
}

} // verus!
